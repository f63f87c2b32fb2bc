//! Command frames, as they travel between client and server.
//!
//! A frame on the wire is `%` followed by a one-byte opcode, the payload,
//! and a closing `%`.  A set payload separates key and value with `#`.  The
//! separators are not escaped, so a key or value holding `%` (or `#` in a
//! set) cannot travel unharmed; parsing states exactly what is read back.

use vstd::prelude::*;
use vstd::utf8::decode_utf8;
use vstd::utf8::encode_utf8;
use vstd::utf8::valid_utf8;

use crate::err::KvStoreErr;
use crate::strings::bytes_to_string;
use crate::strings::string_to_bytes;

verus! {

/// The byte that opens and closes every frame.
pub const FRAME_SEP: u8 = 37;

/// The byte between key and value in a set frame.
pub const KV_SEP: u8 = 35;

/// A request or response travelling between client and server.
#[derive(Debug)]
pub enum Frame {
    /// Bind a key to a value.
    Put(String, String),
    /// Ask for a key's value.
    Get(String),
    /// Remove a key.
    Remove(String),
    /// A value, answering a get.
    Value(String),
    /// An error message.
    Error(String),
    /// No value.
    Null,
}

/// The characters a frame carries, by shape.
pub enum FrameModel {
    Put(Seq<char>, Seq<char>),
    Get(Seq<char>),
    Remove(Seq<char>),
    Value(Seq<char>),
    Error(Seq<char>),
    Null,
}

impl View for Frame {
    type V = FrameModel;

    open spec fn view(&self) -> FrameModel {
        match self {
            Frame::Put(k, v) => FrameModel::Put(k@, v@),
            Frame::Get(k) => FrameModel::Get(k@),
            Frame::Remove(k) => FrameModel::Remove(k@),
            Frame::Value(v) => FrameModel::Value(v@),
            Frame::Error(m) => FrameModel::Error(m@),
            Frame::Null => FrameModel::Null,
        }
    }
}

/// The index of the first occurrence of `target` in `b` at or after `pos`.
pub open spec fn spec_find(b: Seq<u8>, pos: int, target: u8) -> Option<int>
    decreases b.len() - pos,
{
    if pos < 0 || pos >= b.len() {
        None
    } else if b[pos] == target {
        Some(pos)
    } else {
        spec_find(b, pos + 1, target)
    }
}

/// Reads the byte at `pos`, or reports that the buffer is exhausted.
pub fn get_u8(buf: &[u8], pos: usize) -> (r: Result<u8, KvStoreErr>)
    ensures
        match r {
            Ok(byte) => pos < buf@.len() <= usize::MAX && byte == buf@[pos as int],
            Err(e) => pos >= buf@.len() && e is IncompleteErr,
        },
{
    if pos < buf.len() {
        Ok(buf[pos])
    } else {
        Err(KvStoreErr::IncompleteErr)
    }
}

/// Collects the bytes from `pos` up to the first occurrence of `target`,
/// and reports the position one past that occurrence; `None` when `target`
/// does not occur.
pub fn get_until_target_char(buf: &[u8], pos: usize, target: u8) -> (r: Option<(Vec<u8>, usize)>)
    requires
        pos <= buf@.len(),
    ensures
        match r {
            Some((bytes, end)) => {
                &&& spec_find(buf@, pos as int, target) == Some(end - 1)
                &&& bytes@ == buf@.subrange(pos as int, end - 1)
                &&& pos < end <= buf@.len()
            },
            None => spec_find(buf@, pos as int, target) is None,
        },
{
    let mut i: usize = pos;
    while i < buf.len()
        invariant
            pos <= i <= buf@.len(),
            spec_find(buf@, pos as int, target) == spec_find(buf@, i as int, target),
        decreases buf@.len() - i,
    {
        if buf[i] == target {
            let mut bytes: Vec<u8> = Vec::new();
            let mut j: usize = pos;
            while j < i
                invariant
                    pos <= j <= i < buf@.len(),
                    bytes@ == buf@.subrange(pos as int, j as int),
                decreases i - j,
            {
                bytes.push(buf[j]);
                j = j + 1;
            }
            return Some((bytes, i + 1));
        }
        i = i + 1;
    }
    None
}

impl Frame {
    /// The bytes a frame travels as.
    pub open spec fn spec_bytes(f: FrameModel) -> Seq<u8> {
        match f {
            FrameModel::Put(k, v) => seq![FRAME_SEP, 0u8] + encode_utf8(k) + seq![KV_SEP]
                + encode_utf8(v) + seq![FRAME_SEP],
            FrameModel::Get(k) => seq![FRAME_SEP, 1u8] + encode_utf8(k) + seq![FRAME_SEP],
            FrameModel::Remove(k) => seq![FRAME_SEP, 2u8] + encode_utf8(k) + seq![FRAME_SEP],
            FrameModel::Value(v) => seq![FRAME_SEP, 3u8] + encode_utf8(v) + seq![FRAME_SEP],
            FrameModel::Error(m) => seq![FRAME_SEP, 4u8] + encode_utf8(m) + seq![FRAME_SEP],
            FrameModel::Null => seq![FRAME_SEP, 5u8, FRAME_SEP],
        }
    }

    /// Encodes the frame for the wire.
    pub fn to_bytes(&self) -> (r: Vec<u8>)
        ensures
            r@ == Frame::spec_bytes(self@),
    {
        let mut buf: Vec<u8> = Vec::new();
        buf.push(FRAME_SEP);
        match self {
            Frame::Put(k, v) => {
                buf.push(0);
                let kb = string_to_bytes(k);
                buf.extend_from_slice(kb.as_slice());
                buf.push(KV_SEP);
                let vb = string_to_bytes(v);
                buf.extend_from_slice(vb.as_slice());
            },
            Frame::Get(k) => {
                buf.push(1);
                let kb = string_to_bytes(k);
                buf.extend_from_slice(kb.as_slice());
            },
            Frame::Remove(k) => {
                buf.push(2);
                let kb = string_to_bytes(k);
                buf.extend_from_slice(kb.as_slice());
            },
            Frame::Value(v) => {
                buf.push(3);
                let vb = string_to_bytes(v);
                buf.extend_from_slice(vb.as_slice());
            },
            Frame::Error(m) => {
                buf.push(4);
                let mb = string_to_bytes(m);
                buf.extend_from_slice(mb.as_slice());
            },
            Frame::Null => {
                buf.push(5);
            },
        }
        buf.push(FRAME_SEP);
        proof {
            assert(buf@ =~= Frame::spec_bytes(self@));
        }
        buf
    }

    /// Checks that the bytes from `pos` on open with the frame separator
    /// and hold a closing one; returns the position one past the close.
    pub fn check(buf: &[u8], pos: usize) -> (r: Result<usize, KvStoreErr>)
        requires
            pos <= buf@.len(),
        ensures
            match r {
                Ok(end) => {
                    &&& pos < buf@.len()
                    &&& buf@[pos as int] == FRAME_SEP
                    &&& spec_find(buf@, pos + 1, FRAME_SEP) == Some(end - 1)
                    &&& pos + 1 < end <= buf@.len()
                },
                Err(e) => match e {
                    KvStoreErr::UnexceptErr(_) => pos < buf@.len() && buf@[pos as int]
                        != FRAME_SEP,
                    KvStoreErr::IncompleteErr => pos >= buf@.len() || (buf@[pos as int]
                        == FRAME_SEP && spec_find(buf@, pos + 1, FRAME_SEP) is None),
                    _ => false,
                },
            },
    {
        let start = match get_u8(buf, pos) {
            Ok(byte) => byte,
            Err(e) => {
                return Err(e);
            },
        };
        if start != FRAME_SEP {
            return Err(KvStoreErr::UnexceptErr("frame does not open with the separator".to_owned()));
        }
        match get_until_target_char(buf, pos + 1, FRAME_SEP) {
            Some((_, end)) => Ok(end),
            None => Err(KvStoreErr::IncompleteErr),
        }
    }
}

/// Why parsing a frame failed.
pub enum FrameParseErr {
    /// The bytes run out before the frame is complete.
    Incomplete,
    /// The opcode is not one this protocol knows.
    Unknown,
    /// A payload is not valid UTF-8.
    BadUtf8,
}

impl Frame {
    /// The frame read from `b` at `pos` and the position one past it, or
    /// why none can be read.  The opcode follows the opening separator;
    /// payloads run to the next separator, unescaped.
    pub open spec fn spec_parse(b: Seq<u8>, pos: int) -> Result<(FrameModel, int), FrameParseErr> {
        if pos < 0 || pos + 2 > b.len() {
            Err(FrameParseErr::Incomplete)
        } else {
            let code = b[pos + 1];
            if code == 0 {
                match spec_find(b, pos + 2, KV_SEP) {
                    None => Err(FrameParseErr::Incomplete),
                    Some(i) => match spec_find(b, i + 1, FRAME_SEP) {
                        None => Err(FrameParseErr::Incomplete),
                        Some(j) => {
                            let kb = b.subrange(pos + 2, i);
                            let vb = b.subrange(i + 1, j);
                            if valid_utf8(kb) && valid_utf8(vb) {
                                Ok((FrameModel::Put(decode_utf8(kb), decode_utf8(vb)), j + 1))
                            } else {
                                Err(FrameParseErr::BadUtf8)
                            }
                        },
                    },
                }
            } else if code == 5 {
                match spec_find(b, pos + 2, FRAME_SEP) {
                    None => Err(FrameParseErr::Incomplete),
                    Some(i) => Ok((FrameModel::Null, i + 1)),
                }
            } else if code <= 4 {
                match spec_find(b, pos + 2, FRAME_SEP) {
                    None => Err(FrameParseErr::Incomplete),
                    Some(i) => {
                        let pb = b.subrange(pos + 2, i);
                        if valid_utf8(pb) {
                            let payload = decode_utf8(pb);
                            if code == 1 {
                                Ok((FrameModel::Get(payload), i + 1))
                            } else if code == 2 {
                                Ok((FrameModel::Remove(payload), i + 1))
                            } else if code == 3 {
                                Ok((FrameModel::Value(payload), i + 1))
                            } else {
                                Ok((FrameModel::Error(payload), i + 1))
                            }
                        } else {
                            Err(FrameParseErr::BadUtf8)
                        }
                    },
                }
            } else {
                Err(FrameParseErr::Unknown)
            }
        }
    }

    /// Reads one frame from the bytes at `pos`, which must sit on the
    /// opening separator of a checked frame; returns the frame and the
    /// position one past it.
    pub fn parse(buf: &[u8], pos: usize) -> (r: Result<(Frame, usize), KvStoreErr>)
        requires
            pos <= buf@.len(),
        ensures
            match r {
                Ok((frame, end)) => Frame::spec_parse(buf@, pos as int) == Ok::<
                    (FrameModel, int),
                    FrameParseErr,
                >((frame@, end as int)),
                Err(e) => {
                    let s = Frame::spec_parse(buf@, pos as int);
                    &&& s is Err
                    &&& match s->Err_0 {
                        FrameParseErr::Incomplete => e is IncompleteErr,
                        FrameParseErr::Unknown => e is UnexceptErr,
                        FrameParseErr::BadUtf8 => e is SystemErr,
                    }
                },
            },
    {
        let _start = match get_u8(buf, pos) {
            Ok(byte) => byte,
            Err(e) => {
                return Err(e);
            },
        };
        let code = match get_u8(buf, pos + 1) {
            Ok(byte) => byte,
            Err(e) => {
                return Err(e);
            },
        };
        if code == 0 {
            let (key_buf, after_key) = match get_until_target_char(buf, pos + 2, KV_SEP) {
                Some(found) => found,
                None => {
                    return Err(KvStoreErr::IncompleteErr);
                },
            };
            let (value_buf, end) = match get_until_target_char(buf, after_key, FRAME_SEP) {
                Some(found) => found,
                None => {
                    return Err(KvStoreErr::IncompleteErr);
                },
            };
            let key = match bytes_to_string(key_buf) {
                Some(s) => s,
                None => {
                    return Err(KvStoreErr::SystemErr("frame key is not valid UTF-8".to_owned()));
                },
            };
            let value = match bytes_to_string(value_buf) {
                Some(s) => s,
                None => {
                    return Err(KvStoreErr::SystemErr("frame value is not valid UTF-8".to_owned()));
                },
            };
            Ok((Frame::Put(key, value), end))
        } else if code == 5 {
            let (_, end) = match get_until_target_char(buf, pos + 2, FRAME_SEP) {
                Some(found) => found,
                None => {
                    return Err(KvStoreErr::IncompleteErr);
                },
            };
            Ok((Frame::Null, end))
        } else if code <= 4 {
            let (payload_buf, end) = match get_until_target_char(buf, pos + 2, FRAME_SEP) {
                Some(found) => found,
                None => {
                    return Err(KvStoreErr::IncompleteErr);
                },
            };
            let payload = match bytes_to_string(payload_buf) {
                Some(s) => s,
                None => {
                    return Err(KvStoreErr::SystemErr("frame payload is not valid UTF-8".to_owned()));
                },
            };
            if code == 1 {
                Ok((Frame::Get(payload), end))
            } else if code == 2 {
                Ok((Frame::Remove(payload), end))
            } else if code == 3 {
                Ok((Frame::Value(payload), end))
            } else {
                Ok((Frame::Error(payload), end))
            }
        } else {
            Err(KvStoreErr::UnexceptErr("unknown frame opcode".to_owned()))
        }
    }
}



/// Scanning for a byte finds its first occurrence: none lies between.
proof fn lemma_find_first(b: Seq<u8>, pos: int, idx: int, target: u8)
    requires
        0 <= pos <= idx < b.len(),
        b[idx] == target,
        forall|j: int| pos <= j < idx ==> b[j] != target,
    ensures
        spec_find(b, pos, target) == Some(idx),
    decreases idx - pos,
{
    if pos < idx {
        lemma_find_first(b, pos + 1, idx, target);
    }
}

/// A payload without the frame separator in its bytes.
pub open spec fn spec_no_byte(payload: Seq<char>, byte: u8) -> bool {
    forall|i: int| 0 <= i < encode_utf8(payload).len() ==> encode_utf8(payload)[i] != byte
}

/// What travels as a frame parses back to the very frame, whenever no
/// payload byte collides with a separator; the separators are unescaped,
/// so a payload that holds one cannot travel unharmed.
pub proof fn lemma_frame_roundtrip(f: FrameModel)
    requires
        match f {
            FrameModel::Put(k, v) => spec_no_byte(k, KV_SEP) && spec_no_byte(v, FRAME_SEP),
            FrameModel::Get(k) => spec_no_byte(k, FRAME_SEP),
            FrameModel::Remove(k) => spec_no_byte(k, FRAME_SEP),
            FrameModel::Value(v) => spec_no_byte(v, FRAME_SEP),
            FrameModel::Error(m) => spec_no_byte(m, FRAME_SEP),
            FrameModel::Null => true,
        },
    ensures
        Frame::spec_parse(Frame::spec_bytes(f), 0) == Ok::<(FrameModel, int), FrameParseErr>(
            (f, Frame::spec_bytes(f).len() as int),
        ),
{
    broadcast use vstd::utf8::encode_utf8_valid_utf8;
    broadcast use vstd::utf8::encode_utf8_decode_utf8;

    let b = Frame::spec_bytes(f);
    match f {
        FrameModel::Put(k, v) => {
            let kb = encode_utf8(k);
            let vb = encode_utf8(v);
            let i = 2 + kb.len() as int;
            let j = i + 1 + vb.len() as int;
            assert(b.len() == j + 1);
            assert(b[i] == KV_SEP);
            assert(b[j] == FRAME_SEP);
            assert forall|t: int| 2 <= t < i implies b[t] != KV_SEP by {
                assert(b[t] == kb[t - 2]);
            }
            lemma_find_first(b, 2, i, KV_SEP);
            assert forall|t: int| i + 1 <= t < j implies b[t] != FRAME_SEP by {
                assert(b[t] == vb[t - i - 1]);
            }
            lemma_find_first(b, i + 1, j, FRAME_SEP);
            assert(b.subrange(2, i) =~= kb);
            assert(b.subrange(i + 1, j) =~= vb);
        },
        FrameModel::Null => {
            assert(b.len() == 3);
            assert(b[2] == FRAME_SEP);
            lemma_find_first(b, 2, 2, FRAME_SEP);
        },
        FrameModel::Get(k) => {
            lemma_payload_roundtrip(b, encode_utf8(k));
        },
        FrameModel::Remove(k) => {
            lemma_payload_roundtrip(b, encode_utf8(k));
        },
        FrameModel::Value(v) => {
            lemma_payload_roundtrip(b, encode_utf8(v));
        },
        FrameModel::Error(m) => {
            lemma_payload_roundtrip(b, encode_utf8(m));
        },
    }
}

/// The single-payload frames close right after their payload, which a
/// parse reads back whole.
proof fn lemma_payload_roundtrip(b: Seq<u8>, payload: Seq<u8>)
    requires
        b.len() == payload.len() + 3,
        b[b.len() - 1] == FRAME_SEP,
        forall|t: int| 0 <= t < payload.len() ==> b[t + 2] == payload[t],
        forall|i: int| 0 <= i < payload.len() ==> payload[i] != FRAME_SEP,
    ensures
        spec_find(b, 2, FRAME_SEP) == Some(b.len() - 1),
        b.subrange(2, b.len() - 1) =~= payload,
{
    let j = b.len() - 1;
    assert forall|t: int| 2 <= t < j implies b[t] != FRAME_SEP by {
        assert(b[t] == payload[t - 2]);
    }
    lemma_find_first(b, 2, j, FRAME_SEP);
}

} // verus!
