//! Positioned buffered I/O, modelled over in-memory bytes.
//!
//! `BufReaderWithPos` walks a byte buffer (the full contents of a log or
//! hint file) while tracking an absolute position; `BufWriterWithPos`
//! collects appended bytes while tracking the absolute file offset of the
//! next byte (`pos`) and the offset up to which bytes have already been
//! handed to the operating system (`flushed`).  The record framing needs
//! both: a directory entry stores the writer's post-write offset, and a
//! recovery scan stops at the reader's last clean position.

use vstd::prelude::*;

verus! {

/// Big-endian encoding of an unsigned 64-bit integer: eight bytes, most
/// significant first.
pub open spec fn spec_u64_to_be_bytes(x: u64) -> Seq<u8> {
    seq![
        (x >> 56) as u8,
        (x >> 48) as u8,
        (x >> 40) as u8,
        (x >> 32) as u8,
        (x >> 24) as u8,
        (x >> 16) as u8,
        (x >> 8) as u8,
        x as u8,
    ]
}

/// The unsigned 64-bit integer read from eight big-endian bytes.
pub open spec fn spec_u64_from_be_bytes(s: Seq<u8>) -> u64
    recommends
        s.len() == 8,
{
    ((s[0] as u64) << 56 | (s[1] as u64) << 48 | (s[2] as u64) << 40 | (s[3] as u64) << 32 | (
    s[4] as u64) << 24 | (s[5] as u64) << 16 | (s[6] as u64) << 8 | (s[7] as u64))
}

/// Decoding eight big-endian bytes undoes the encoding.
pub proof fn lemma_u64_be_bytes_roundtrip(x: u64)
    ensures
        spec_u64_to_be_bytes(x).len() == 8,
        spec_u64_from_be_bytes(spec_u64_to_be_bytes(x)) == x,
{
    let b0 = (x >> 56) as u8;
    let b1 = (x >> 48) as u8;
    let b2 = (x >> 40) as u8;
    let b3 = (x >> 32) as u8;
    let b4 = (x >> 24) as u8;
    let b5 = (x >> 16) as u8;
    let b6 = (x >> 8) as u8;
    let b7 = x as u8;
    assert((b0 as u64) << 56 | (b1 as u64) << 48 | (b2 as u64) << 40 | (b3 as u64) << 32 | (
    b4 as u64) << 24 | (b5 as u64) << 16 | (b6 as u64) << 8 | (b7 as u64) == x) by (bit_vector)
        requires
            b0 == (x >> 56) as u8,
            b1 == (x >> 48) as u8,
            b2 == (x >> 40) as u8,
            b3 == (x >> 32) as u8,
            b4 == (x >> 24) as u8,
            b5 == (x >> 16) as u8,
            b6 == (x >> 8) as u8,
            b7 == x as u8,
    ;
}

/// Encoding the integer read from eight bytes gives the bytes back.
pub proof fn lemma_u64_be_bytes_injective(s: Seq<u8>)
    requires
        s.len() == 8,
    ensures
        spec_u64_to_be_bytes(spec_u64_from_be_bytes(s)) =~= s,
{
    let b0 = s[0];
    let b1 = s[1];
    let b2 = s[2];
    let b3 = s[3];
    let b4 = s[4];
    let b5 = s[5];
    let b6 = s[6];
    let b7 = s[7];
    let x = spec_u64_from_be_bytes(s);
    assert((x >> 56) as u8 == b0 && (x >> 48) as u8 == b1 && (x >> 40) as u8 == b2 && (x
        >> 32) as u8 == b3 && (x >> 24) as u8 == b4 && (x >> 16) as u8 == b5 && (x >> 8) as u8
        == b6 && x as u8 == b7) by (bit_vector)
        requires
            x == ((b0 as u64) << 56 | (b1 as u64) << 48 | (b2 as u64) << 40 | (b3 as u64) << 32 | (
            b4 as u64) << 24 | (b5 as u64) << 16 | (b6 as u64) << 8 | (b7 as u64)),
    ;
}

/// Decodes eight big-endian bytes into an unsigned 64-bit integer.
pub fn u8_arr_to_u64(arr: &[u8; 8]) -> (n: u64)
    ensures
        n == spec_u64_from_be_bytes(arr@),
{
    (arr[0] as u64) << 56 | (arr[1] as u64) << 48 | (arr[2] as u64) << 40 | (arr[3] as u64) << 32
        | (arr[4] as u64) << 24 | (arr[5] as u64) << 16 | (arr[6] as u64) << 8 | (arr[7] as u64)
}

/// Appends the big-endian encoding of `x` to `buf`.
pub fn push_u64_be(buf: &mut Vec<u8>, x: u64)
    ensures
        (*final(buf))@ =~= (*old(buf))@ + spec_u64_to_be_bytes(x),
{
    buf.push((x >> 56) as u8);
    buf.push((x >> 48) as u8);
    buf.push((x >> 40) as u8);
    buf.push((x >> 32) as u8);
    buf.push((x >> 24) as u8);
    buf.push((x >> 16) as u8);
    buf.push((x >> 8) as u8);
    buf.push(x as u8);
}

/// A reader over the full contents of one file, tracking the absolute
/// offset of the next byte to be read.
pub struct BufReaderWithPos {
    pub data: Vec<u8>,
    pub pos: u64,
}

impl BufReaderWithPos {
    /// The bytes this reader walks.
    pub open spec fn view(&self) -> Seq<u8> {
        self.data@
    }

    /// The position never runs past the end of the data.
    pub open spec fn wf(&self) -> bool {
        self.pos <= self@.len()
    }

    /// Wraps the contents of a file just opened, positioned at its start.
    pub fn new(data: Vec<u8>) -> (r: Self)
        ensures
            r.wf(),
            r@ == data@,
            r.pos == 0,
    {
        BufReaderWithPos { data, pos: 0 }
    }

    /// Moves the position to an absolute offset.
    pub fn seek_start(&mut self, pos: u64)
        requires
            pos <= old(self)@.len(),
        ensures
            final(self).wf(),
            final(self)@ == old(self)@,
            final(self).pos == pos,
    {
        self.pos = pos;
    }

    /// Reads a big-endian unsigned 64-bit integer, or reports that fewer
    /// than eight bytes remain; a short read leaves the position unmoved.
    pub fn read_u64(&mut self) -> (r: Option<u64>)
        requires
            old(self).wf(),
        ensures
            final(self).wf(),
            final(self)@ == old(self)@,
            match r {
                Some(n) => {
                    &&& old(self).pos + 8 <= old(self)@.len()
                    &&& final(self).pos == old(self).pos + 8
                    &&& n == spec_u64_from_be_bytes(
                        old(self)@.subrange(old(self).pos as int, old(self).pos + 8),
                    )
                },
                None => {
                    &&& old(self).pos + 8 > old(self)@.len()
                    &&& final(self).pos == old(self).pos
                },
            },
    {
        let len = self.data.len() as u64;
        if len < 8 || self.pos > len - 8 {
            return None;
        }
        let p = self.pos as usize;
        let n = (self.data[p] as u64) << 56 | (self.data[p + 1] as u64) << 48 | (self.data[p
            + 2] as u64) << 40 | (self.data[p + 3] as u64) << 32 | (self.data[p + 4] as u64) << 24
            | (self.data[p + 5] as u64) << 16 | (self.data[p + 6] as u64) << 8 | (self.data[p
            + 7] as u64);
        self.pos = self.pos + 8;
        proof {
            assert(self@.subrange(p as int, p + 8) =~= seq![
                self@[p as int],
                self@[p + 1],
                self@[p + 2],
                self@[p + 3],
                self@[p + 4],
                self@[p + 5],
                self@[p + 6],
                self@[p + 7],
            ]);
        }
        Some(n)
    }

    /// Reads exactly `n` bytes, or reports that fewer remain; a short read
    /// leaves the position unmoved.
    pub fn read_exact(&mut self, n: u64) -> (r: Option<Vec<u8>>)
        requires
            old(self).wf(),
        ensures
            final(self).wf(),
            final(self)@ == old(self)@,
            match r {
                Some(bytes) => {
                    &&& old(self).pos + n <= old(self)@.len()
                    &&& final(self).pos == old(self).pos + n
                    &&& bytes@ =~= old(self)@.subrange(old(self).pos as int, old(self).pos + n)
                },
                None => {
                    &&& old(self).pos + n > old(self)@.len()
                    &&& final(self).pos == old(self).pos
                },
            },
    {
        let len = self.data.len() as u64;
        if n > len || self.pos > len - n {
            return None;
        }
        let start = self.pos as usize;
        let count = n as usize;
        let mut bytes: Vec<u8> = Vec::new();
        let mut i: usize = 0;
        while i < count
            invariant
                i <= count,
                start + count <= self.data@.len(),
                start + count <= usize::MAX,
                bytes@ =~= self.data@.subrange(start as int, start + i),
            decreases count - i,
        {
            bytes.push(self.data[start + i]);
            i = i + 1;
        }
        self.pos = self.pos + n;
        Some(bytes)
    }
}

/// A writer for the active log file, buffering appended bytes and tracking
/// the absolute offset of the next byte to be written (`pos`) alongside the
/// offset up to which bytes were already handed to the caller (`flushed`).
pub struct BufWriterWithPos {
    pub buffer: Vec<u8>,
    pub pos: u64,
    pub flushed: u64,
}

impl BufWriterWithPos {
    /// The bytes accepted but not yet flushed.
    pub open spec fn pending(&self) -> Seq<u8> {
        self.buffer@
    }

    /// `pos` runs exactly `pending` bytes ahead of `flushed`.
    pub open spec fn wf(&self) -> bool {
        &&& self.flushed <= self.pos
        &&& self.pos - self.flushed == self.pending().len()
    }

    /// Opens a writer positioned at the end of a file of `file_end` bytes.
    pub fn new(file_end: u64) -> (r: Self)
        ensures
            r.wf(),
            r.pos == file_end,
            r.flushed == file_end,
            r.pending() =~= Seq::<u8>::empty(),
    {
        BufWriterWithPos { buffer: Vec::new(), pos: file_end, flushed: file_end }
    }

    /// Appends bytes to the buffer, advancing `pos` past them.
    pub fn write(&mut self, buf: &Vec<u8>)
        requires
            old(self).wf(),
            old(self).pos + buf@.len() <= u64::MAX,
        ensures
            final(self).wf(),
            final(self).pos == old(self).pos + buf@.len(),
            final(self).flushed == old(self).flushed,
            final(self).pending() =~= old(self).pending() + buf@,
    {
        self.buffer.extend_from_slice(buf.as_slice());
        self.pos = self.pos + buf.len() as u64;
    }

    /// Hands the buffered bytes to the caller, which must append them to
    /// the underlying file; afterwards everything up to `pos` is flushed.
    pub fn flush(&mut self) -> (r: Vec<u8>)
        requires
            old(self).wf(),
        ensures
            final(self).wf(),
            r@ =~= old(self).pending(),
            final(self).pos == old(self).pos,
            final(self).flushed == old(self).pos,
            final(self).pending() =~= Seq::<u8>::empty(),
    {
        let out = self.buffer.split_off(0);
        self.flushed = self.pos;
        out
    }
}

} // verus!
