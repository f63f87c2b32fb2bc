//! Segment file names: which directory entries are segment logs, and the
//! ascending id list a listing yields.
//!
//! A log file is named `<id>.log` with the id written in decimal digits.
//! A name is judged by its UTF-8 bytes; anything else — another extension,
//! an empty stem, a non-digit, an id too large for sixty-four bits — is
//! silently ignored, as the original listing ignored files that fail its
//! tests.

use vstd::prelude::*;
use vstd::utf8::encode_utf8;

use crate::bitcask::spec_ids_ascending;
use crate::strings::string_to_bytes;

verus! {

/// The byte that separates the stem from the extension.
pub const DOT_BYTE: u8 = 46;

/// Every byte is a decimal digit.
pub open spec fn spec_all_digits(s: Seq<u8>) -> bool {
    forall|i: int| 0 <= i < s.len() ==> 48 <= (#[trigger] s[i]) <= 57
}

/// The decimal value of digit bytes, most significant first.
pub open spec fn spec_digits_val(s: Seq<u8>) -> int
    decreases s.len(),
{
    if s.len() == 0 {
        0
    } else {
        spec_digits_val(s.drop_last()) * 10 + (s.last() - 48)
    }
}

/// The extension bytes of a segment log file name: `.log`.
pub open spec fn spec_log_suffix() -> Seq<u8> {
    seq![DOT_BYTE, 108u8, 111u8, 103u8]
}

/// The id a file name carries, judged by its bytes: `<digits>.log` with at
/// least one digit and a value that fits, and nothing else.
pub open spec fn spec_log_name_id(name: Seq<u8>) -> Option<u64> {
    if name.len() >= 5 && name.subrange(name.len() - 4, name.len() as int) == spec_log_suffix() {
        let stem = name.subrange(0, name.len() - 4);
        if spec_all_digits(stem) && spec_digits_val(stem) <= u64::MAX {
            Some(spec_digits_val(stem) as u64)
        } else {
            None
        }
    } else {
        None
    }
}

/// The value of digit bytes is never negative.
proof fn lemma_digits_val_nonneg(s: Seq<u8>)
    requires
        spec_all_digits(s),
    ensures
        spec_digits_val(s) >= 0,
    decreases s.len(),
{
    if s.len() == 0 {
    } else {
        assert(spec_all_digits(s.drop_last())) by {
            assert(forall|i: int|
                0 <= i < s.len() - 1 ==> (#[trigger] s.drop_last()[i]) == s[i]);
        }
        lemma_digits_val_nonneg(s.drop_last());
    }
}

/// A digit string is worth at least any of its prefixes: more digits never
/// shrink the value.
proof fn lemma_digits_val_prefix_le(s: Seq<u8>, k: int)
    requires
        spec_all_digits(s),
        0 <= k <= s.len(),
    ensures
        spec_digits_val(s.subrange(0, k)) <= spec_digits_val(s),
    decreases s.len() - k,
{
    if k == s.len() {
        assert(s.subrange(0, k) =~= s);
    } else {
        lemma_digits_val_prefix_le(s, k + 1);
        let p1 = s.subrange(0, k + 1);
        assert(p1.drop_last() =~= s.subrange(0, k));
        assert(spec_all_digits(s.subrange(0, k))) by {
            assert(forall|i: int|
                0 <= i < k ==> (#[trigger] s.subrange(0, k)[i]) == s[i]);
        }
        lemma_digits_val_nonneg(s.subrange(0, k));
        assert(spec_digits_val(p1) == spec_digits_val(s.subrange(0, k)) * 10 + (p1.last() - 48));
        assert(spec_digits_val(s.subrange(0, k)) <= spec_digits_val(p1));
    }
}

/// Reads the id from a segment log file name's bytes, or reports that the
/// name is no such name.
fn parse_log_name(name: &Vec<u8>) -> (r: Option<u64>)
    ensures
        r == spec_log_name_id(name@),
{
    let n = name.len();
    if n < 5 {
        return None;
    }
    if name[n - 4] != DOT_BYTE || name[n - 3] != 108 || name[n - 2] != 111 || name[n - 1] != 103 {
        proof {
            assert(name@.subrange(n - 4, n as int) != spec_log_suffix());
        }
        return None;
    }
    proof {
        assert(name@.subrange(n - 4, n as int) =~= spec_log_suffix());
    }
    let ghost stem = name@.subrange(0, n - 4);
    let mut acc: u64 = 0;
    let mut i: usize = 0;
    while i < n - 4
        invariant
            5 <= n == name@.len(),
            0 <= i <= n - 4,
            stem == name@.subrange(0, n as int - 4),
            spec_all_digits(stem.subrange(0, i as int)),
            acc == spec_digits_val(stem.subrange(0, i as int)),
        decreases n - 4 - i,
    {
        let c = name[i];
        if c < 48 || c > 57 {
            proof {
                assert(stem[i as int] == c);
                assert(!spec_all_digits(stem));
            }
            return None;
        }
        let d = c - 48;
        if acc > (u64::MAX - d as u64) / 10 {
            proof {
                assert(stem.subrange(0, i as int + 1).drop_last() =~= stem.subrange(0, i as int));
                assert(stem.subrange(0, i as int + 1).last() == c);
                assert(spec_digits_val(stem.subrange(0, i as int + 1)) > u64::MAX);
                if spec_all_digits(stem) {
                    lemma_digits_val_prefix_le(stem, i as int + 1);
                    assert(spec_digits_val(stem) > u64::MAX);
                }
            }
            return None;
        }
        let ghost acc_pre = acc;
        acc = acc * 10 + d as u64;
        proof {
            assert(stem.subrange(0, i as int + 1).drop_last() =~= stem.subrange(0, i as int));
            assert(stem.subrange(0, i as int + 1).last() == c);
            assert(stem.subrange(0, i as int + 1)[i as int] == c);
            assert(spec_all_digits(stem.subrange(0, i as int + 1))) by {
                assert(forall|t: int|
                    0 <= t < i ==> (#[trigger] stem.subrange(0, i as int + 1)[t]) == stem.subrange(
                        0,
                        i as int,
                    )[t]);
            }
            assert(acc == spec_digits_val(stem.subrange(0, i as int + 1)));
        }
        i = i + 1;
    }
    proof {
        assert(stem.subrange(0, i as int) =~= stem);
    }
    Some(acc)
}

/// Puts an id into an ascending list, keeping it ascending and free of
/// repeats.
fn insert_id(ids: &mut Vec<u64>, id: u64)
    requires
        spec_ids_ascending(old(ids)@),
    ensures
        spec_ids_ascending(final(ids)@),
        forall|x: u64| #[trigger]
            final(ids)@.contains(x) <==> old(ids)@.contains(x) || x == id,
{
    let ghost pre = ids@;
    let mut k: usize = 0;
    while k < ids.len()
        invariant
            spec_ids_ascending(pre),
            ids@ == pre,
            0 <= k <= pre.len(),
            forall|t: int| 0 <= t < k ==> (#[trigger] pre[t]) < id,
        ensures
            k == pre.len() || (k < pre.len() && pre[k as int] > id),
        decreases pre.len() - k,
    {
        if ids[k] == id {
            proof {
                assert(pre.contains(id));
            }
            return ;
        }
        if ids[k] > id {
            break ;
        }
        k = k + 1;
    }
    ids.insert(k, id);
    proof {
        assert(ids@ == pre.insert(k as int, id));
        assert(spec_ids_ascending(ids@)) by {
            assert forall|t1: int, t2: int|
                0 <= t1 < t2 < ids@.len() implies ids@[t1] < ids@[t2] by {
                if t1 < k && t2 < k {
                } else if t1 < k && t2 == k {
                    assert(ids@[t1] == pre[t1]);
                } else if t1 < k && t2 > k {
                    assert(ids@[t1] == pre[t1]);
                    assert(ids@[t2] == pre[t2 - 1]);
                } else if t1 == k {
                    assert(ids@[t2] == pre[t2 - 1]);
                } else {
                    assert(ids@[t1] == pre[t1 - 1]);
                    assert(ids@[t2] == pre[t2 - 1]);
                }
            }
        }
        assert forall|x: u64| #[trigger]
            ids@.contains(x) <==> pre.contains(x) || x == id by {
            if ids@.contains(x) {
                let t = choose|t: int| 0 <= t < ids@.len() && ids@[t] == x;
                if t < k {
                    assert(pre[t] == x);
                } else if t > k {
                    assert(pre[t - 1] == x);
                }
            }
            if pre.contains(x) {
                let t = choose|t: int| 0 <= t < pre.len() && pre[t] == x;
                if t < k {
                    assert(ids@[t] == x);
                } else {
                    assert(ids@[t + 1] == x);
                }
            }
            if x == id {
                assert(ids@[k as int] == x);
            }
        }
    }
}

/// The ascending, repeat-free list of segment ids among the given file
/// names: exactly the ids of names shaped `<digits>.log`.
pub fn sorted_ids_of_names(names: &Vec<String>) -> (r: Vec<u64>)
    ensures
        spec_ids_ascending(r@),
        forall|x: u64| #[trigger]
            r@.contains(x) <==> exists|i: int|
                0 <= i < names@.len() && spec_log_name_id(
                    encode_utf8((#[trigger] names@[i])@),
                ) == Some(x),
{
    let mut ids: Vec<u64> = Vec::new();
    let n = names.len();
    let mut i: usize = 0;
    while i < n
        invariant
            n == names@.len(),
            0 <= i <= n,
            spec_ids_ascending(ids@),
            forall|x: u64| #[trigger]
                ids@.contains(x) <==> exists|t: int|
                    0 <= t < i && spec_log_name_id(encode_utf8((#[trigger] names@[t])@)) == Some(
                        x,
                    ),
        decreases n - i,
    {
        let bytes = string_to_bytes(&names[i]);
        let ghost ids_pre = ids@;
        match parse_log_name(&bytes) {
            Some(id) => {
                insert_id(&mut ids, id);
                proof {
                    assert forall|x: u64| #[trigger]
                        ids@.contains(x) <==> exists|t: int|
                            0 <= t < i + 1 && spec_log_name_id(
                                encode_utf8((#[trigger] names@[t])@),
                            ) == Some(x) by {
                        if ids@.contains(x) {
                            if x == id {
                                assert(spec_log_name_id(encode_utf8(names@[i as int]@)) == Some(
                                    x,
                                ));
                            }
                        }
                        if exists|t: int|
                            0 <= t < i + 1 && spec_log_name_id(
                                encode_utf8((#[trigger] names@[t])@),
                            ) == Some(x) {
                            let t = choose|t: int|
                                0 <= t < i + 1 && spec_log_name_id(
                                    encode_utf8((#[trigger] names@[t])@),
                                ) == Some(x);
                            if t < i {
                                assert(ids_pre.contains(x));
                            }
                        }
                    }
                }
            },
            None => {
                proof {
                    assert forall|x: u64| #[trigger]
                        ids@.contains(x) <==> exists|t: int|
                            0 <= t < i + 1 && spec_log_name_id(
                                encode_utf8((#[trigger] names@[t])@),
                            ) == Some(x) by {
                        if exists|t: int|
                            0 <= t < i + 1 && spec_log_name_id(
                                encode_utf8((#[trigger] names@[t])@),
                            ) == Some(x) {
                            let t = choose|t: int|
                                0 <= t < i + 1 && spec_log_name_id(
                                    encode_utf8((#[trigger] names@[t])@),
                                ) == Some(x);
                            assert(t < i);
                        }
                    }
                }
            },
        }
        i = i + 1;
    }
    ids
}

} // verus!
