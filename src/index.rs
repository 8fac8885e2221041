//! The index: fixed-width entries that map a record's relative offset to the
//! position of its frame in the store.

use crate::bytes::{be_bytes, decode_u64, encode_u32, encode_u64, lemma_be_bytes_len, lemma_be_round_trip, lemma_byte_pow_8};
use crate::error::LogError;
use vstd::prelude::*;
use vstd::slice::slice_subrange;

verus! {

/// Width of one index entry: a four-byte relative offset, then an
/// eight-byte position.
pub const ENTRY_WIDTH: u64 = 12;

/// The largest number of entries an index can address with four-byte
/// relative offsets.
pub const MAX_ENTRIES: u64 = 0x1_0000_0000;

/// Entry `i` as it is written on disk.
pub open spec fn entry(i: nat, pos: u64) -> Seq<u8> {
    be_bytes(i, 4) + be_bytes(pos as nat, 8)
}

/// The twelve bytes of slot `i` in `b`.
pub open spec fn slot(b: Seq<u8>, i: int) -> Seq<u8> {
    b.subrange(12 * i, 12 * i + 12)
}

/// An index file, pre-sized to a fixed capacity in bytes.
pub struct Index {
    buf: Vec<u8>,
    cap: u64,
    pos: Ghost<Seq<u64>>,
}

impl Index {
    /// The used bytes of the index file.
    pub closed spec fn bytes(&self) -> Seq<u8> {
        self.buf@
    }

    /// The store position of each entry, by relative offset.
    pub closed spec fn positions(&self) -> Seq<u64> {
        self.pos@
    }

    /// The number of bytes the index may use.
    pub closed spec fn capacity(&self) -> nat {
        self.cap as nat
    }

    /// The bytes hold one entry per position, in order, within the capacity.
    pub open spec fn wf(&self) -> bool {
        &&& self.bytes().len() == 12 * self.positions().len()
        &&& self.bytes().len() <= self.capacity()
        &&& self.positions().len() <= MAX_ENTRIES
        &&& forall|i: int|
            0 <= i < self.positions().len() ==> #[trigger] slot(self.bytes(), i) == entry(
                i as nat,
                self.positions()[i],
            )
    }

    /// An empty index that may grow to `max_bytes` bytes.
    pub fn new(max_bytes: u64) -> (r: Index)
        ensures
            r.wf(),
            r.positions() == Seq::<u64>::empty(),
            r.capacity() == max_bytes,
    {
        Index { buf: Vec::new(), cap: max_bytes, pos: Ghost(Seq::empty()) }
    }

    /// The number of entries.
    pub fn entry_count(&self) -> (r: u64)
        requires
            self.wf(),
        ensures
            r == self.positions().len(),
    {
        self.buf.len() as u64 / ENTRY_WIDTH
    }

    /// The number of bytes in use.
    pub fn size(&self) -> (r: u64)
        requires
            self.wf(),
        ensures
            r == self.bytes().len(),
    {
        self.buf.len() as u64
    }

    /// The number of bytes the index may use.
    pub fn max_bytes(&self) -> (r: u64)
        ensures
            r == self.capacity(),
    {
        self.cap
    }

    /// The used bytes of the index file, for writing it out.
    pub fn as_bytes(&self) -> (r: &[u8])
        ensures
            r@ == self.bytes(),
    {
        self.buf.as_slice()
    }

    /// Records `pos` under the next relative offset and returns that offset;
    /// fails when no slot is left.
    pub fn append(&mut self, pos: u64) -> (r: Result<u32, LogError>)
        requires
            old(self).wf(),
        ensures
            final(self).wf(),
            final(self).capacity() == old(self).capacity(),
            ({
                let n = old(self).positions().len();
                if 12 * (n + 1) <= old(self).capacity() && n < MAX_ENTRIES {
                    &&& r == Ok::<u32, LogError>(n as u32)
                    &&& final(self).positions() == old(self).positions().push(pos)
                } else {
                    &&& r == Err::<u32, LogError>(LogError::IndexFull)
                    &&& final(self).positions() == old(self).positions()
                    &&& final(self).bytes() == old(self).bytes()
                }
            }),
    {
        let used = self.buf.len() as u64;
        let n = used / ENTRY_WIDTH;
        if n >= MAX_ENTRIES || self.cap < ENTRY_WIDTH || used > self.cap - ENTRY_WIDTH {
            return Err(LogError::IndexFull);
        }
        let rel = n as u32;
        let mut head = encode_u32(rel);
        let mut tail = encode_u64(pos);
        let ghost old_buf = self.buf@;
        let ghost ps = self.pos@;
        proof {
            lemma_be_bytes_len(n as nat, 4);
            lemma_be_bytes_len(pos as nat, 8);
        }
        self.buf.append(&mut head);
        self.buf.append(&mut tail);
        self.pos = Ghost(self.pos@.push(pos));
        proof {
            assert forall|i: int| 0 <= i < self.pos@.len() implies #[trigger] slot(self.buf@, i) == entry(
                i as nat,
                self.pos@[i],
            ) by {
                if i < n {
                    assert(slot(self.buf@, i) =~= slot(old_buf, i));
                } else {
                    assert(slot(self.buf@, i) =~= entry(i as nat, pos));
                }
            }
        }
        Ok(rel)
    }

    /// The store position of the entry at `rel`, or of the last entry when
    /// `rel` is `-1`.
    pub fn read(&self, rel: i64) -> (r: Result<u64, LogError>)
        requires
            self.wf(),
        ensures
            ({
                let ps = self.positions();
                if rel == -1 && ps.len() > 0 {
                    r == Ok::<u64, LogError>(ps.last())
                } else if 0 <= rel < ps.len() {
                    r == Ok::<u64, LogError>(ps[rel as int])
                } else {
                    r == Err::<u64, LogError>(LogError::OffsetOutOfRange)
                }
            }),
    {
        let n = self.entry_count();
        let i: u64;
        if rel == -1 {
            if n == 0 {
                return Err(LogError::OffsetOutOfRange);
            }
            i = n - 1;
        } else if rel < 0 || rel as u64 >= n {
            return Err(LogError::OffsetOutOfRange);
        } else {
            i = rel as u64;
        }
        assert(i * 12 + 12 <= self.buf@.len());
        assert(i < self.buf@.len());
        let iu = i as usize;
        let len = self.buf.len();
        assert(iu * 12 + 12 <= len);
        let start: usize = iu * 12 + 4;
        let field = slice_subrange(self.buf.as_slice(), start, start + 8);
        proof {
            let p = self.pos@[i as int];
            assert(slot(self.buf@, i as int) == entry(i as nat, p));
            lemma_be_bytes_len(i as nat, 4);
            lemma_be_bytes_len(p as nat, 8);
            assert(field@ =~= self.buf@.subrange(i * 12 + 4, i * 12 + 12));
            assert(field@.subrange(0, 8) =~= slot(self.buf@, i as int).subrange(4, 12));
            assert(entry(i as nat, p).subrange(4, 12) =~= be_bytes(p as nat, 8));
            lemma_byte_pow_8();
            lemma_be_round_trip(p as nat, 8);
        }
        Ok(decode_u64(field))
    }
}

} // verus!
