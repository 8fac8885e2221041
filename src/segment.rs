//! A segment: one store and one index that share a base offset.

use crate::config::SegmentConfig;
use crate::error::LogError;
use crate::index::{Index, MAX_ENTRIES};
use crate::store::{frame_len_at, frame_start, frames, lemma_frame_at_start, lemma_frame_len, lemma_frames_push, lemma_parse_frames_step, parse_frames, Store};
use vstd::prelude::*;
use vstd::slice::slice_subrange;

verus! {

/// Whether an index that holds `n` entries within `cap` bytes has a slot
/// left.
pub open spec fn index_has_room(n: nat, cap: nat) -> bool {
    12 * (n + 1) <= cap && n < MAX_ENTRIES
}

/// How many entries fit in an index of `cap` bytes.
pub open spec fn index_room(cap: nat) -> nat {
    let by_bytes = cap / 12;
    if by_bytes < MAX_ENTRIES { by_bytes } else { MAX_ENTRIES as nat }
}

/// An index of `cap` bytes has a slot for entry `n` exactly when it can
/// hold more than `n` entries.
pub proof fn lemma_index_room(n: nat, cap: nat)
    ensures
        index_has_room(n, cap) <==> n < index_room(cap),
{
    assert(12 * (n + 1) <= cap <==> n + 1 <= cap / 12) by (nonlinear_arith);
}

/// One segment of the log: a store file and an index file that share a base
/// offset.
pub struct Segment {
    base_offset: u64,
    next_offset: u64,
    store: Store,
    index: Index,
    config: SegmentConfig,
}

impl Segment {
    /// The first absolute offset the segment is responsible for.
    pub closed spec fn base(&self) -> nat {
        self.base_offset as nat
    }

    /// The offset the segment will assign to its next record.
    pub closed spec fn next(&self) -> nat {
        self.next_offset as nat
    }

    /// The records, by relative offset.
    pub closed spec fn records(&self) -> Seq<Seq<u8>> {
        self.store.records()
    }

    /// The bytes of the store file.
    pub closed spec fn store_bytes(&self) -> Seq<u8> {
        self.store.bytes()
    }

    /// The bytes of the index file.
    pub closed spec fn index_bytes(&self) -> Seq<u8> {
        self.index.bytes()
    }

    /// The limits the segment was made with.
    pub closed spec fn limits(&self) -> SegmentConfig {
        self.config
    }

    /// The store and the index are each well formed and agree entry by entry.
    pub closed spec fn parts_wf(&self) -> bool {
        &&& self.store.wf()
        &&& self.index.wf()
        &&& self.index.capacity() == self.config.max_index_bytes
        &&& self.index.positions().len() == self.store.records().len()
        &&& forall|i: int|
            0 <= i < self.index.positions().len() ==> #[trigger] self.index.positions()[i]
                == frame_start(self.store.records(), i)
    }

    /// The store holds the frames of the records, the index one entry per
    /// record, and the offsets cover exactly the records.
    pub open spec fn wf(&self) -> bool {
        &&& self.parts_wf()
        &&& self.next() == self.base() + self.records().len()
        &&& self.next() <= u64::MAX
        &&& self.store_bytes() == frames(self.records())
        &&& self.store_bytes().len() <= u64::MAX
        &&& self.index_bytes().len() == 12 * self.records().len()
    }

    /// Whether the segment has reached either of its limits.
    pub open spec fn maxed(&self) -> bool {
        self.store_bytes().len() >= self.limits().max_store_bytes
            || self.index_bytes().len() >= self.limits().max_index_bytes
    }

    /// An empty segment whose first record will get offset `base_offset`.
    pub fn new(base_offset: u64, config: SegmentConfig) -> (r: Segment)
        ensures
            r.wf(),
            r.base() == base_offset,
            r.records() == Seq::<Seq<u8>>::empty(),
            r.limits() == config,
    {
        Segment {
            base_offset,
            next_offset: base_offset,
            store: Store::new(),
            index: Index::new(config.max_index_bytes),
            config,
        }
    }

    pub fn base_offset(&self) -> (r: u64)
        ensures
            r == self.base(),
    {
        self.base_offset
    }

    pub fn next_offset(&self) -> (r: u64)
        ensures
            r == self.next(),
    {
        self.next_offset
    }

    /// The bytes of the store file.
    pub fn store_file(&self) -> (r: &[u8])
        ensures
            r@ == self.store_bytes(),
    {
        self.store.as_bytes()
    }

    /// The bytes of the index file.
    pub fn index_file(&self) -> (r: &[u8])
        ensures
            r@ == self.index_bytes(),
    {
        self.index.as_bytes()
    }

    /// Whether the store or the index has reached its limit.
    pub fn is_maxed(&self) -> (r: bool)
        requires
            self.wf(),
        ensures
            r == self.maxed(),
    {
        self.store.size() >= self.config.max_store_bytes || self.index.size() >= self.config.max_index_bytes
    }

    /// Appends `p` and returns the absolute offset it was given. Fails,
    /// leaving the segment as it was, when the store cannot grow by the frame,
    /// when the index is full, or when no offset is left to assign.
    pub fn append(&mut self, p: &[u8]) -> (r: Result<u64, LogError>)
        requires
            old(self).wf(),
        ensures
            final(self).wf(),
            final(self).base() == old(self).base(),
            final(self).limits() == old(self).limits(),
            ({
                let s = *old(self);
                if s.store_bytes().len() + 8 + p@.len() > u64::MAX {
                    r == Err::<u64, LogError>(LogError::StoreFull) && *final(self) == s
                } else if !index_has_room(s.records().len(), s.limits().max_index_bytes as nat) {
                    r == Err::<u64, LogError>(LogError::IndexFull) && *final(self) == s
                } else if s.next() == u64::MAX {
                    r == Err::<u64, LogError>(LogError::OffsetOutOfRange) && *final(self) == s
                } else {
                    &&& r == Ok::<u64, LogError>(s.next() as u64)
                    &&& final(self).records() == s.records().push(p@)
                }
            }),
    {
        let size = self.store.size();
        if size > u64::MAX - 8 || u64::MAX - 8 - size < p.len() as u64 {
            return Err(LogError::StoreFull);
        }
        let n = self.index.entry_count();
        if n >= MAX_ENTRIES || self.config.max_index_bytes < 12 || n * 12 > self.config.max_index_bytes - 12 {
            return Err(LogError::IndexFull);
        }
        if self.next_offset == u64::MAX {
            return Err(LogError::OffsetOutOfRange);
        }
        let ghost old_recs = self.store.records();
        let (_written, pos) = self.store.append(p);
        let rel = self.index.append(pos);
        proof {
            assert(rel is Ok);
            assert forall|i: int| 0 <= i < self.index.positions().len() implies #[trigger] self.index.positions()[i]
                == frame_start(self.store.records(), i) by {
                if i < n {
                    assert(self.store.records().take(i) =~= old_recs.take(i));
                }
            }
        }
        let off = self.next_offset;
        self.next_offset = self.next_offset + 1;
        Ok(off)
    }

    /// Rebuilds a segment from the bytes of its store file: the index is
    /// made anew from the store's complete frames, and a trailing incomplete
    /// frame is left out. Fails when the records do not fit the index, or
    /// their offsets do not fit a `u64`; of the two, the limit that is
    /// smaller is reported.
    pub fn load(base_offset: u64, config: SegmentConfig, store_file: &[u8]) -> (r: Result<Segment, LogError>)
        ensures
            ({
                let rs = parse_frames(store_file@);
                let room_idx = index_room(config.max_index_bytes as nat);
                let room_off = (u64::MAX - base_offset) as nat;
                if rs.len() <= room_idx && rs.len() <= room_off {
                    &&& r is Ok
                    &&& r->Ok_0.wf()
                    &&& r->Ok_0.base() == base_offset
                    &&& r->Ok_0.records() == rs
                    &&& r->Ok_0.limits() == config
                } else if room_idx <= room_off {
                    r == Err::<Segment, LogError>(LogError::IndexFull)
                } else {
                    r == Err::<Segment, LogError>(LogError::OffsetOutOfRange)
                }
            }),
    {
        let ghost b = store_file@;
        let ghost room_idx = index_room(config.max_index_bytes as nat);
        let ghost room_off = (u64::MAX - base_offset) as nat;
        let mut seg = Segment::new(base_offset, config);
        let len = store_file.len();
        let mut pos: usize = 0;
        assert(b.subrange(0, len as int) =~= b);
        loop
            invariant
                seg.wf(),
                seg.base() == base_offset,
                seg.limits() == config,
                pos <= len,
                len == b.len(),
                b == store_file@,
                seg.store_bytes().len() == pos,
                parse_frames(b) == seg.records() + parse_frames(b.subrange(pos as int, len as int)),
                room_idx == index_room(config.max_index_bytes as nat),
                room_off == (u64::MAX - base_offset) as nat,
                seg.records().len() <= room_idx,
                seg.records().len() <= room_off,
            decreases len - pos,
        {
            proof {
                lemma_parse_frames_step(b, pos as int);
            }
            match frame_len_at(store_file, pos) {
                None => {
                    assert(seg.records() + Seq::<Seq<u8>>::empty() =~= seg.records());
                    return Ok(seg);
                },
                Some(l) => {
                    let body = slice_subrange(store_file, pos + 8, pos + 8 + l);
                    let ghost k = seg.records().len();
                    let ghost old_recs = seg.records();
                    proof {
                        lemma_index_room(k, config.max_index_bytes as nat);
                        lemma_frame_len(body@);
                    }
                    match seg.append(body) {
                        Ok(_) => {},
                        Err(e) => {
                            proof {
                                let rest = parse_frames(b.subrange(pos as int, len as int));
                                assert(rest.len() > 0);
                                assert(parse_frames(b).len() == k + rest.len());
                            }
                            return Err(e);
                        },
                    }
                    proof {
                        let p = body@;
                        lemma_frames_push(old_recs, p);
                        assert(index_has_room(k, config.max_index_bytes as nat));
                        assert(seg.records().len() == k + 1);
                        assert(seg.records() + parse_frames(b.subrange(pos + 8 + l, len as int)) =~= (
                        seg.records().drop_last() + (seq![p] + parse_frames(b.subrange(pos + 8 + l, len as int)))));
                        assert(seg.records().drop_last() =~= seg.records().take(k as int));
                    }
                    pos = pos + 8 + l;
                },
            }
        }
    }

    /// The record at absolute offset `off`.
    pub fn read(&self, off: u64) -> (r: Result<Vec<u8>, LogError>)
        requires
            self.wf(),
        ensures
            self.base() <= off < self.next() ==> r is Ok && r->Ok_0@ == self.records()[off - self.base()],
            !(self.base() <= off < self.next()) ==> r == Err::<Vec<u8>, LogError>(LogError::OffsetOutOfRange),
    {
        if off < self.base_offset || off >= self.next_offset {
            return Err(LogError::OffsetOutOfRange);
        }
        let rel = off - self.base_offset;
        let pos = self.index.read(rel as i64);
        match pos {
            Ok(pos) => {
                proof {
                    lemma_frame_at_start(self.store.records(), rel as int);
                }
                self.store.read(pos)
            },
            Err(e) => Err(e),
        }
    }

    /// A well-formed segment's records fit its index and its offsets.
    pub proof fn lemma_fits(&self)
        requires
            self.wf(),
        ensures
            self.records().len() <= index_room(self.limits().max_index_bytes as nat),
            self.base() + self.records().len() <= u64::MAX,
    {
        let n = self.records().len();
        let cap = self.limits().max_index_bytes as nat;
        assert(12 * n <= cap);
        assert(n <= cap / 12) by (nonlinear_arith)
            requires
                12 * n <= cap,
        ;
    }
}

} // verus!
