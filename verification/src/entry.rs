//! The two on-disk record shapes and their fixed big-endian framing.
//!
//! A log record is `u64_be(k_size) || u64_be(v_size) || key || value`; a
//! hint record is `u64_be(k_size) || u64_be(v_size) || u64_be(v_pos) ||
//! key`.  Encoding and decoding are verified inverses of each other.

use vstd::prelude::*;

use crate::io::spec_u64_from_be_bytes;
use crate::io::spec_u64_to_be_bytes;
use crate::io::lemma_u64_be_bytes_injective;
use crate::io::lemma_u64_be_bytes_roundtrip;
use crate::io::push_u64_be;
use crate::io::BufReaderWithPos;

verus! {

/// The value byte that marks a record as a tombstone when it is the whole
/// value.
pub const DELETED_CODE: u8 = 255;

/// Where a live value lies: the segment that holds it, the absolute offset
/// one past the end of its bytes, and its byte length.
#[derive(Clone, Copy, Debug, PartialEq, Eq, Structural)]
pub struct IndexEntry {
    pub file_id: u64,
    pub v_pos: u64,
    pub v_size: u64,
}

/// The on-disk unit of writes: a key paired with a value (or a tombstone).
#[derive(Debug)]
pub struct LogEntry {
    pub k_size: u64,
    pub v_size: u64,
    pub key: Vec<u8>,
    pub value: Vec<u8>,
}

/// The on-disk unit of compacted indexes: a key paired with the length and
/// end offset of its value in the paired log file.
#[derive(Debug)]
pub struct HintEntry {
    pub k_size: u64,
    pub v_size: u64,
    pub v_pos: u64,
    pub key: Vec<u8>,
}

/// The bytes of a log record holding `key` and `value`.
pub open spec fn spec_log_record(key: Seq<u8>, value: Seq<u8>) -> Seq<u8> {
    spec_u64_to_be_bytes(key.len() as u64) + spec_u64_to_be_bytes(value.len() as u64) + key + value
}

/// The bytes of a hint record holding `key`, whose value region is `v_size`
/// bytes ending at `v_pos` in the paired log file.
pub open spec fn spec_hint_record(key: Seq<u8>, v_size: u64, v_pos: u64) -> Seq<u8> {
    spec_u64_to_be_bytes(key.len() as u64) + spec_u64_to_be_bytes(v_size) + spec_u64_to_be_bytes(
        v_pos,
    ) + key
}

/// Parses one log record of `b` starting at `pos`: the key bytes, the value
/// bytes, and the offset one past the value.  `None` when the bytes from
/// `pos` on do not hold one whole record.
pub open spec fn spec_parse_log_record(b: Seq<u8>, pos: int) -> Option<(Seq<u8>, Seq<u8>, int)> {
    if pos < 0 || pos + 16 > b.len() {
        None
    } else {
        let ks = spec_u64_from_be_bytes(b.subrange(pos, pos + 8)) as int;
        let vs = spec_u64_from_be_bytes(b.subrange(pos + 8, pos + 16)) as int;
        if pos + 16 + ks + vs > b.len() {
            None
        } else {
            Some(
                (
                    b.subrange(pos + 16, pos + 16 + ks),
                    b.subrange(pos + 16 + ks, pos + 16 + ks + vs),
                    pos + 16 + ks + vs,
                ),
            )
        }
    }
}

/// Parses one hint record of `b` starting at `pos`: the key bytes, the
/// value length, the value end offset, and the offset one past the record.
pub open spec fn spec_parse_hint_record(b: Seq<u8>, pos: int) -> Option<(Seq<u8>, u64, u64, int)> {
    if pos < 0 || pos + 24 > b.len() {
        None
    } else {
        let ks = spec_u64_from_be_bytes(b.subrange(pos, pos + 8)) as int;
        let vs = spec_u64_from_be_bytes(b.subrange(pos + 8, pos + 16));
        let vp = spec_u64_from_be_bytes(b.subrange(pos + 16, pos + 24));
        if pos + 24 + ks > b.len() {
            None
        } else {
            Some((b.subrange(pos + 24, pos + 24 + ks), vs, vp, pos + 24 + ks))
        }
    }
}

/// Encoding a record and parsing it back yields the record: the framing
/// loses nothing.
pub proof fn lemma_log_record_roundtrip(prefix: Seq<u8>, key: Seq<u8>, value: Seq<u8>)
    requires
        key.len() <= u64::MAX,
        value.len() <= u64::MAX,
    ensures
        spec_parse_log_record(prefix + spec_log_record(key, value), prefix.len() as int) == Some(
            (key, value, prefix.len() as int + 16 + key.len() + value.len()),
        ),
{
    let rec = spec_log_record(key, value);
    let b = prefix + rec;
    let pos = prefix.len() as int;
    lemma_u64_be_bytes_roundtrip(key.len() as u64);
    lemma_u64_be_bytes_roundtrip(value.len() as u64);
    assert(b.subrange(pos, pos + 8) =~= spec_u64_to_be_bytes(key.len() as u64));
    assert(b.subrange(pos + 8, pos + 16) =~= spec_u64_to_be_bytes(value.len() as u64));
    assert(b.subrange(pos + 16, pos + 16 + key.len()) =~= key);
    assert(b.subrange(pos + 16 + key.len(), pos + 16 + key.len() + value.len()) =~= value);
}

/// Parsing a record and encoding the parts back yields exactly the bytes
/// that were parsed.
pub proof fn lemma_log_record_exact(b: Seq<u8>, pos: int)
    requires
        spec_parse_log_record(b, pos) is Some,
    ensures
        ({
            let (key, value, end) = spec_parse_log_record(b, pos)->Some_0;
            &&& pos + 16 <= end <= b.len()
            &&& end == pos + 16 + key.len() + value.len()
            &&& b.subrange(pos, end) =~= spec_log_record(key, value)
        }),
{
    let (key, value, end) = spec_parse_log_record(b, pos)->Some_0;
    let ks = spec_u64_from_be_bytes(b.subrange(pos, pos + 8));
    let vs = spec_u64_from_be_bytes(b.subrange(pos + 8, pos + 16));
    lemma_u64_be_bytes_injective(b.subrange(pos, pos + 8));
    lemma_u64_be_bytes_injective(b.subrange(pos + 8, pos + 16));
    assert(key.len() == ks && value.len() == vs);
    assert(b.subrange(pos, end) =~= spec_u64_to_be_bytes(ks) + spec_u64_to_be_bytes(vs) + key
        + value);
}

/// Encoding a hint record and parsing it back yields the record.
pub proof fn lemma_hint_record_roundtrip(prefix: Seq<u8>, key: Seq<u8>, v_size: u64, v_pos: u64)
    requires
        key.len() <= u64::MAX,
    ensures
        spec_parse_hint_record(prefix + spec_hint_record(key, v_size, v_pos), prefix.len() as int)
            == Some((key, v_size, v_pos, prefix.len() as int + 24 + key.len())),
{
    let rec = spec_hint_record(key, v_size, v_pos);
    let b = prefix + rec;
    let pos = prefix.len() as int;
    lemma_u64_be_bytes_roundtrip(key.len() as u64);
    lemma_u64_be_bytes_roundtrip(v_size);
    lemma_u64_be_bytes_roundtrip(v_pos);
    assert(b.subrange(pos, pos + 8) =~= spec_u64_to_be_bytes(key.len() as u64));
    assert(b.subrange(pos + 8, pos + 16) =~= spec_u64_to_be_bytes(v_size));
    assert(b.subrange(pos + 16, pos + 24) =~= spec_u64_to_be_bytes(v_pos));
    assert(b.subrange(pos + 24, pos + 24 + key.len()) =~= key);
}

/// Parsing a hint record and encoding the parts back yields exactly the
/// bytes that were parsed.
pub proof fn lemma_hint_record_exact(b: Seq<u8>, pos: int)
    requires
        spec_parse_hint_record(b, pos) is Some,
    ensures
        ({
            let (key, vs, vp, end) = spec_parse_hint_record(b, pos)->Some_0;
            &&& pos + 24 <= end <= b.len()
            &&& end == pos + 24 + key.len()
            &&& b.subrange(pos, end) =~= spec_hint_record(key, vs, vp)
        }),
{
    let (key, vs, vp, end) = spec_parse_hint_record(b, pos)->Some_0;
    let ks = spec_u64_from_be_bytes(b.subrange(pos, pos + 8));
    lemma_u64_be_bytes_injective(b.subrange(pos, pos + 8));
    lemma_u64_be_bytes_injective(b.subrange(pos + 8, pos + 16));
    lemma_u64_be_bytes_injective(b.subrange(pos + 16, pos + 24));
    assert(key.len() == ks);
    assert(b.subrange(pos, end) =~= spec_u64_to_be_bytes(ks) + spec_u64_to_be_bytes(vs)
        + spec_u64_to_be_bytes(vp) + key);
}

/// A record parses the same way in any longer byte sequence that starts
/// with the bytes it was parsed from.
pub proof fn lemma_parse_log_record_prefix(b1: Seq<u8>, b2: Seq<u8>, pos: int)
    requires
        b1.len() <= b2.len(),
        b2.subrange(0, b1.len() as int) =~= b1,
        spec_parse_log_record(b1, pos) is Some,
    ensures
        spec_parse_log_record(b2, pos) == spec_parse_log_record(b1, pos),
{
    assert(b2.subrange(pos, pos + 8) =~= b1.subrange(pos, pos + 8));
    assert(b2.subrange(pos + 8, pos + 16) =~= b1.subrange(pos + 8, pos + 16));
    let ks = spec_u64_from_be_bytes(b1.subrange(pos, pos + 8)) as int;
    let vs = spec_u64_from_be_bytes(b1.subrange(pos + 8, pos + 16)) as int;
    assert(b2.subrange(pos + 16, pos + 16 + ks) =~= b1.subrange(pos + 16, pos + 16 + ks));
    assert(b2.subrange(pos + 16 + ks, pos + 16 + ks + vs) =~= b1.subrange(
        pos + 16 + ks,
        pos + 16 + ks + vs,
    ));
}

/// Serialization into the fixed big-endian framing.
pub trait SerializeToBytes {
    /// The sizes recorded in the record agree with its byte vectors.
    spec fn wf(&self) -> bool;

    /// The bytes this record serializes to.
    spec fn spec_serialize(&self) -> Seq<u8>;

    /// Encodes the record.
    fn serialize(&self) -> (r: Vec<u8>)
        requires
            self.wf(),
        ensures
            r@ == self.spec_serialize(),
    ;
}

impl SerializeToBytes for LogEntry {
    open spec fn wf(&self) -> bool {
        &&& self.k_size == self.key@.len()
        &&& self.v_size == self.value@.len()
    }

    open spec fn spec_serialize(&self) -> Seq<u8> {
        spec_log_record(self.key@, self.value@)
    }

    fn serialize(&self) -> (r: Vec<u8>) {
        let mut buf: Vec<u8> = Vec::new();
        push_u64_be(&mut buf, self.k_size);
        push_u64_be(&mut buf, self.v_size);
        buf.extend_from_slice(self.key.as_slice());
        buf.extend_from_slice(self.value.as_slice());
        proof {
            assert(buf@ =~= spec_log_record(self.key@, self.value@));
        }
        buf
    }
}

impl SerializeToBytes for HintEntry {
    open spec fn wf(&self) -> bool {
        self.k_size == self.key@.len()
    }

    open spec fn spec_serialize(&self) -> Seq<u8> {
        spec_hint_record(self.key@, self.v_size, self.v_pos)
    }

    fn serialize(&self) -> (r: Vec<u8>) {
        let mut buf: Vec<u8> = Vec::new();
        push_u64_be(&mut buf, self.k_size);
        push_u64_be(&mut buf, self.v_size);
        push_u64_be(&mut buf, self.v_pos);
        buf.extend_from_slice(self.key.as_slice());
        proof {
            assert(buf@ =~= spec_hint_record(self.key@, self.v_size, self.v_pos));
        }
        buf
    }
}

/// Reads one log record, leaving the reader one past the record; a reader
/// whose remaining bytes do not hold one whole record is left unmoved, so
/// its position marks the last clean record boundary.
pub fn read_log_entry(reader: &mut BufReaderWithPos) -> (r: Option<(LogEntry, u64)>)
    requires
        old(reader).wf(),
    ensures
        final(reader).wf(),
        final(reader)@ == old(reader)@,
        match r {
            Some((entry, v_pos)) => {
                &&& entry.wf()
                &&& spec_parse_log_record(old(reader)@, old(reader).pos as int) == Some(
                    (entry.key@, entry.value@, v_pos as int),
                )
                &&& final(reader).pos == v_pos
            },
            None => {
                &&& spec_parse_log_record(old(reader)@, old(reader).pos as int) is None
                &&& final(reader).pos == old(reader).pos
            },
        },
{
    let start = reader.pos;
    let k_size = match reader.read_u64() {
        Some(n) => n,
        None => {
            return None;
        },
    };
    let v_size = match reader.read_u64() {
        Some(n) => n,
        None => {
            reader.seek_start(start);
            return None;
        },
    };
    let key = match reader.read_exact(k_size) {
        Some(bytes) => bytes,
        None => {
            reader.seek_start(start);
            return None;
        },
    };
    let value = match reader.read_exact(v_size) {
        Some(bytes) => bytes,
        None => {
            reader.seek_start(start);
            return None;
        },
    };
    let v_pos = reader.pos;
    Some((LogEntry { k_size, v_size, key, value }, v_pos))
}

/// Reads one hint record, leaving the reader one past the record; a reader
/// whose remaining bytes do not hold one whole record is left unmoved.
pub fn read_hint_entry(reader: &mut BufReaderWithPos) -> (r: Option<HintEntry>)
    requires
        old(reader).wf(),
    ensures
        final(reader).wf(),
        final(reader)@ == old(reader)@,
        match r {
            Some(entry) => {
                &&& entry.wf()
                &&& spec_parse_hint_record(old(reader)@, old(reader).pos as int) == Some(
                    (entry.key@, entry.v_size, entry.v_pos, final(reader).pos as int),
                )
            },
            None => {
                &&& spec_parse_hint_record(old(reader)@, old(reader).pos as int) is None
                &&& final(reader).pos == old(reader).pos
            },
        },
{
    let start = reader.pos;
    let k_size = match reader.read_u64() {
        Some(n) => n,
        None => {
            return None;
        },
    };
    let v_size = match reader.read_u64() {
        Some(n) => n,
        None => {
            reader.seek_start(start);
            return None;
        },
    };
    let v_pos = match reader.read_u64() {
        Some(n) => n,
        None => {
            reader.seek_start(start);
            return None;
        },
    };
    let key = match reader.read_exact(k_size) {
        Some(bytes) => bytes,
        None => {
            reader.seek_start(start);
            return None;
        },
    };
    Some(HintEntry { k_size, v_size, v_pos, key })
}


/// A record whose end lies within a prefix of the bytes parses the same
/// way in that prefix.
pub proof fn lemma_parse_log_record_truncate(b: Seq<u8>, pos: int, plen: int)
    requires
        spec_parse_log_record(b, pos) is Some,
        spec_parse_log_record(b, pos)->Some_0.2 <= plen <= b.len(),
    ensures
        spec_parse_log_record(b.subrange(0, plen), pos) == spec_parse_log_record(b, pos),
{
    let p = b.subrange(0, plen);
    assert(p.subrange(pos, pos + 8) =~= b.subrange(pos, pos + 8));
    assert(p.subrange(pos + 8, pos + 16) =~= b.subrange(pos + 8, pos + 16));
    let ks = spec_u64_from_be_bytes(b.subrange(pos, pos + 8)) as int;
    let vs = spec_u64_from_be_bytes(b.subrange(pos + 8, pos + 16)) as int;
    assert(p.subrange(pos + 16, pos + 16 + ks) =~= b.subrange(pos + 16, pos + 16 + ks));
    assert(p.subrange(pos + 16 + ks, pos + 16 + ks + vs) =~= b.subrange(
        pos + 16 + ks,
        pos + 16 + ks + vs,
    ));
}


/// A hint record parses the same way in any longer byte sequence that
/// starts with the bytes it was parsed from.
pub proof fn lemma_parse_hint_record_prefix(b1: Seq<u8>, b2: Seq<u8>, pos: int)
    requires
        b1.len() <= b2.len(),
        b2.subrange(0, b1.len() as int) =~= b1,
        spec_parse_hint_record(b1, pos) is Some,
    ensures
        spec_parse_hint_record(b2, pos) == spec_parse_hint_record(b1, pos),
{
    assert(b2.subrange(pos, pos + 8) =~= b1.subrange(pos, pos + 8));
    assert(b2.subrange(pos + 8, pos + 16) =~= b1.subrange(pos + 8, pos + 16));
    assert(b2.subrange(pos + 16, pos + 24) =~= b1.subrange(pos + 16, pos + 24));
    let ks = spec_u64_from_be_bytes(b1.subrange(pos, pos + 8)) as int;
    assert(b2.subrange(pos + 24, pos + 24 + ks) =~= b1.subrange(pos + 24, pos + 24 + ks));
}

} // verus!
