//! The log: an ordered run of segments, the newest of which takes appends.

use crate::config::{Config, SegmentConfig};
use crate::error::LogError;
use crate::segment::{index_has_room, index_room, Segment};
use crate::store::{lemma_frame_len, lemma_frames_push, parse_frames};
use vstd::prelude::*;

verus! {

/// Whether appending a record of `n` bytes to `s` leaves it at or past
/// one of its limits.
pub open spec fn maxed_after_append(s: Segment, n: nat) -> bool {
    s.store_bytes().len() + 8 + n >= s.limits().max_store_bytes
        || 12 * (s.records().len() + 1) >= s.limits().max_index_bytes
}

/// The error a segment reports for an append of `n` bytes, if any.
pub open spec fn append_error(s: Segment, n: nat) -> Option<LogError> {
    if s.store_bytes().len() + 8 + n > u64::MAX {
        Some(LogError::StoreFull)
    } else if !index_has_room(s.records().len(), s.limits().max_index_bytes as nat) {
        Some(LogError::IndexFull)
    } else if s.next() == u64::MAX {
        Some(LogError::OffsetOutOfRange)
    } else {
        None
    }
}

/// Segments `s`, ascending and abutting, each made with `c`, hold exactly
/// `recs`, in offset order from the first segment's base.
#[verifier::opaque]
pub open spec fn segments_wf(s: Seq<Segment>, recs: Seq<Seq<u8>>, c: SegmentConfig) -> bool {
    &&& s.len() > 0
    &&& forall|i: int| 0 <= i < s.len() ==> (#[trigger] s[i]).wf() && s[i].limits() == c
    &&& forall|i: int| 1 <= i < s.len() ==> (#[trigger] s[i]).base() == s[i - 1].next()
    &&& forall|i: int, j: int| #![trigger s[i], s[j]] 0 <= i < j < s.len() ==> s[i].next() <= s[j].base()
    &&& s.last().next() == s[0].base() + recs.len()
    &&& forall|i: int, j: int|
        0 <= i < s.len() && 0 <= j < s[i].records().len() ==> recs[s[i].base() - s[0].base() + j]
            == #[trigger] s[i].records()[j]
}

/// Growing the active segment by one record grows the records by it.
pub proof fn lemma_grow_active(s0: Seq<Segment>, r0: Seq<Seq<u8>>, c: SegmentConfig, a: Segment, p: Seq<u8>)
    requires
        segments_wf(s0, r0, c),
        a.wf(),
        a.limits() == c,
        a.base() == s0.last().base(),
        a.records() == s0.last().records().push(p),
    ensures
        segments_wf(s0.update(s0.len() - 1, a), r0.push(p), c),
{
    reveal(segments_wf);
    let last = s0.len() - 1;
    let s = s0.update(last, a);
    let recs = r0.push(p);
    assert forall|i: int, j: int| #![trigger s[i], s[j]] 0 <= i < j < s.len() implies s[i].next() <= s[j].base() by {
        assert(s0[i].next() <= s0[j].base());
    }
    assert forall|i: int| 1 <= i < s.len() implies (#[trigger] s[i]).base() == s[i - 1].next() by {
        assert(s0[i].base() == s0[i - 1].next());
    }
    assert forall|i: int, j: int|
        0 <= i < s.len() && 0 <= j < s[i].records().len() implies recs[s[i].base() - s[0].base() + j]
        == #[trigger] s[i].records()[j] by {
        if i < last {
            assert(s0[i].records()[j] == s[i].records()[j]);
            assert(s0[i].next() <= s0[last].base());
        } else if j < s0[last].records().len() {
            assert(s0[last].records()[j] == s[i].records()[j]);
        }
    }
}

/// A segment added at the end, based where the last one ends, adds its
/// records after the others.
pub proof fn lemma_push_segment(s0: Seq<Segment>, r0: Seq<Seq<u8>>, c: SegmentConfig, seg: Segment)
    requires
        segments_wf(s0, r0, c),
        seg.wf(),
        seg.limits() == c,
        seg.base() == s0.last().next(),
    ensures
        segments_wf(s0.push(seg), r0 + seg.records(), c),
{
    reveal(segments_wf);
    let s = s0.push(seg);
    let r = r0 + seg.records();
    assert forall|i: int, j: int| #![trigger s[i], s[j]] 0 <= i < j < s.len() implies s[i].next() <= s[j].base() by {
        if j == s.len() - 1 {
            if i < s0.len() - 1 {
                assert(s0[i].next() <= s0[s0.len() - 1].base());
            }
        } else {
            assert(s0[i].next() <= s0[j].base());
        }
    }
    assert forall|i: int| 1 <= i < s.len() implies (#[trigger] s[i]).base() == s[i - 1].next() by {
        if i < s0.len() {
            assert(s0[i].base() == s0[i - 1].next());
        }
    }
    assert forall|i: int, j: int|
        0 <= i < s.len() && 0 <= j < s[i].records().len() implies r[s[i].base() - s[0].base() + j]
        == #[trigger] s[i].records()[j] by {
        if i < s0.len() {
            assert(s0[i].records()[j] == s[i].records()[j]);
            assert(s0[i].base() + j < s0.last().next()) by {
                if i < s0.len() - 1 {
                    assert(s0[i].next() <= s0[s0.len() - 1].base());
                }
            }
        }
    }
}

/// What the segments' invariant gives of the first and the last segment.
pub proof fn lemma_segments_wf_ends(s: Seq<Segment>, r: Seq<Seq<u8>>, c: SegmentConfig)
    requires
        segments_wf(s, r, c),
    ensures
        s.len() > 0,
        s.last().wf(),
        s.last().limits() == c,
        s.last().next() == s[0].base() + r.len(),
{
    reveal(segments_wf);
}

/// A single segment holds its own records.
pub proof fn lemma_single_segment(seg: Segment, c: SegmentConfig)
    requires
        seg.wf(),
        seg.limits() == c,
    ensures
        segments_wf(seq![seg], seg.records(), c),
{
    reveal(segments_wf);
}

/// The error that rebuilding a segment at `base` from the store bytes `b`
/// reports, if any.
pub open spec fn load_error(c: SegmentConfig, base: u64, b: Seq<u8>) -> Option<LogError> {
    let n = parse_frames(b).len();
    let room_idx = index_room(c.max_index_bytes as nat);
    let room_off = (u64::MAX - base) as nat;
    if n <= room_idx && n <= room_off {
        None
    } else if room_idx <= room_off {
        Some(LogError::IndexFull)
    } else {
        Some(LogError::OffsetOutOfRange)
    }
}

/// The records that the store files `ps` hold, one file after the other.
pub open spec fn stored_records(ps: Seq<(u64, Seq<u8>)>) -> Seq<Seq<u8>>
    decreases ps.len(),
{
    if ps.len() == 0 {
        Seq::empty()
    } else {
        stored_records(ps.drop_last()) + parse_frames(ps.last().1)
    }
}

/// Each store file's segment begins where the one before it ends.
pub open spec fn stored_abut(ps: Seq<(u64, Seq<u8>)>) -> bool {
    forall|i: int| 1 <= i < ps.len() ==> (#[trigger] ps[i]).0 == ps[i - 1].0 + parse_frames(ps[i - 1].1).len()
}

/// The base offsets and store bytes of `v`.
pub open spec fn stored_view(v: Seq<(u64, Vec<u8>)>) -> Seq<(u64, Seq<u8>)> {
    v.map_values(|e: (u64, Vec<u8>)| (e.0, e.1@))
}

/// How many of the leading segments of `s` end at or below offset `k`.
pub open spec fn superseded(s: Seq<Segment>, k: nat) -> nat
    decreases s.len(),
{
    if s.len() == 0 {
        0
    } else if s[0].next() <= k {
        1 + superseded(s.drop_first(), k)
    } else {
        0
    }
}

/// The superseded segments are a prefix whose every segment ends at or below
/// `k`; the first segment after them ends above `k`.
pub proof fn lemma_superseded(s: Seq<Segment>, k: nat)
    ensures
        superseded(s, k) <= s.len(),
        forall|i: int| 0 <= i < superseded(s, k) ==> (#[trigger] s[i]).next() <= k,
        superseded(s, k) < s.len() ==> s[superseded(s, k) as int].next() > k,
    decreases s.len(),
{
    if s.len() > 0 && s[0].next() <= k {
        lemma_superseded(s.drop_first(), k);
        assert forall|i: int| 0 <= i < superseded(s, k) implies (#[trigger] s[i]).next() <= k by {
            if i > 0 {
                assert(s[i] == s.drop_first()[i - 1]);
            }
        }
    }
}

/// Dropping the first `d` segments leaves the records from the base of the
/// segment that is now first.
#[verifier::rlimit(40)]
pub proof fn lemma_drop_segments(s0: Seq<Segment>, r0: Seq<Seq<u8>>, c: SegmentConfig, d: int)
    requires
        segments_wf(s0, r0, c),
        0 <= d < s0.len(),
    ensures
        s0[0].base() <= s0[d].base() <= s0.last().next(),
        segments_wf(
            s0.subrange(d, s0.len() as int),
            r0.subrange(s0[d].base() - s0[0].base(), r0.len() as int),
            c,
        ),
{
    reveal(segments_wf);
    let n = s0.len() as int;
    let last = n - 1;
    assert(s0[0].base() <= s0[d].base()) by {
        if d > 0 {
            assert(s0[0].next() <= s0[d].base());
        }
    }
    assert(s0[d].base() <= s0[last].next()) by {
        if d < last {
            assert(s0[d].next() <= s0[last].base());
        }
    }
    let s = s0.subrange(d, n);
    let off = s0[d].base() - s0[0].base();
    let recs = r0.subrange(off, r0.len() as int);
    assert forall|i: int| 0 <= i < s.len() implies (#[trigger] s[i]).wf() && s[i].limits() == c by {
        assert(s[i] == s0[d + i]);
    }
    assert forall|i: int| 1 <= i < s.len() implies (#[trigger] s[i]).base() == s[i - 1].next() by {
        assert(s[i] == s0[d + i]);
        assert(s0[d + i].base() == s0[d + i - 1].next());
    }
    assert forall|i: int, j: int| #![trigger s[i], s[j]] 0 <= i < j < s.len() implies s[i].next() <= s[j].base() by {
        assert(s0[d + i].next() <= s0[d + j].base());
    }
    assert forall|i: int, j: int|
        0 <= i < s.len() && 0 <= j < s[i].records().len() implies recs[s[i].base() - s[0].base() + j]
        == #[trigger] s[i].records()[j] by {
        assert(s[i] == s0[d + i]);
        assert(s0[d + i].records()[j] == s[i].records()[j]);
        assert(s0[d + i].base() + j < s0[last].next()) by {
            if d + i < last {
                assert(s0[d + i].next() <= s0[last].base());
            }
        }
    }
}

/// A segmented commit log.
pub struct Log {
    segments: Vec<Segment>,
    config: Config,
    recs: Ghost<Seq<Seq<u8>>>,
}

impl Log {
    /// The segments, ascending by base offset; the last one is active.
    pub closed spec fn segs(&self) -> Seq<Segment> {
        self.segments@
    }

    /// The configuration the log was made with.
    pub closed spec fn conf(&self) -> Config {
        self.config
    }

    /// The retained records in offset order: the record at offset `o` is
    /// `records()[o - lowest()]`.
    pub closed spec fn records(&self) -> Seq<Seq<u8>> {
        self.recs@
    }

    /// The lowest retained offset.
    pub open spec fn lowest(&self) -> nat {
        self.segs()[0].base()
    }

    /// The offset the next append will get.
    pub open spec fn next(&self) -> nat {
        self.segs().last().next()
    }

    /// The active segment.
    pub open spec fn active(&self) -> Segment {
        self.segs().last()
    }

    /// The record at offset `o`, if the log retains it.
    pub open spec fn lookup(&self, o: nat) -> Option<Seq<u8>> {
        if self.lowest() <= o < self.next() {
            Some(self.records()[o - self.lowest()])
        } else {
            None
        }
    }

    /// `after` is `self` with every segment that ends at or below `k`
    /// removed; when that is every segment, an empty one takes over at the
    /// next offset.
    pub open spec fn truncated(&self, after: Log, k: nat) -> bool {
        let d = superseded(self.segs(), k);
        &&& after.conf() == self.conf()
        &&& after.next() == self.next()
        &&& if d < self.segs().len() {
            after.segs() == self.segs().subrange(d as int, self.segs().len() as int)
        } else {
            after.segs().len() == 1 && after.lowest() == self.next()
        }
        &&& self.lowest() <= after.lowest()
        &&& after.records() == self.records().subrange(after.lowest() - self.lowest(), self.records().len() as int)
    }

    /// `after` is `self` with `p` appended: the same configuration and
    /// lowest offset, and one more record at the end.
    pub open spec fn appended(&self, after: Log, p: Seq<u8>) -> bool {
        &&& after.conf() == self.conf()
        &&& after.lowest() == self.lowest()
        &&& after.records() == self.records().push(p)
        &&& after.next() == self.next() + 1
    }

    /// The segments are well formed, abut one another in ascending order,
    /// and together hold exactly the records.
    pub open spec fn wf(&self) -> bool {
        &&& segments_wf(self.segs(), self.records(), self.conf().segment)
        &&& self.segs().len() > 0
        &&& self.next() == self.lowest() + self.records().len()
        &&& self.active().wf()
        &&& self.active().limits() == self.conf().segment
    }

    /// A brand-new log: one empty segment whose first offset is the
    /// configured initial offset.
    pub fn new(config: Config) -> (r: Log)
        ensures
            r.wf(),
            r.conf() == config,
            r.segs().len() == 1,
            r.lowest() == config.initial_offset,
            r.next() == config.initial_offset,
            r.records() == Seq::<Seq<u8>>::empty(),
    {
        let seg = Segment::new(config.initial_offset, config.segment);
        let mut segments = Vec::new();
        segments.push(seg);
        proof {
            reveal(segments_wf);
        }
        Log { segments, config, recs: Ghost(Seq::empty()) }
    }

    /// The number of segments.
    pub fn segment_count(&self) -> (r: usize)
        ensures
            r == self.segs().len(),
    {
        self.segments.len()
    }

    /// Segment `i`, counting from the oldest.
    pub fn segment(&self, i: usize) -> (r: &Segment)
        requires
            i < self.segs().len(),
        ensures
            *r == self.segs()[i as int],
    {
        &self.segments[i]
    }

    /// The active segment.
    pub fn active_segment(&self) -> (r: &Segment)
        requires
            self.wf(),
        ensures
            *r == self.active(),
    {
        &self.segments[self.segments.len() - 1]
    }

    /// The configuration the log was made with.
    pub fn config(&self) -> (r: Config)
        ensures
            r == self.conf(),
    {
        self.config
    }

    /// The lowest retained offset: the base offset of the oldest segment.
    pub fn lowest_offset(&self) -> (r: u64)
        requires
            self.wf(),
        ensures
            r == self.lowest(),
    {
        self.segments[0].base_offset()
    }

    /// The offset of the newest record, or `None` when the log holds none.
    pub fn highest_offset(&self) -> (r: Option<u64>)
        requires
            self.wf(),
        ensures
            self.records().len() == 0 ==> r is None,
            self.records().len() > 0 ==> r == Some((self.next() - 1) as u64),
    {
        let next = self.segments[self.segments.len() - 1].next_offset();
        if next == self.segments[0].base_offset() {
            None
        } else {
            Some(next - 1)
        }
    }

    /// Creates a new segment whose base offset is the active segment's next
    /// offset, and makes it active.
    pub fn roll_segment(&mut self)
        requires
            old(self).wf(),
        ensures
            final(self).wf(),
            final(self).conf() == old(self).conf(),
            final(self).records() == old(self).records(),
            final(self).segs().len() == old(self).segs().len() + 1,
            final(self).segs().take(old(self).segs().len() as int) == old(self).segs(),
            final(self).active().base() == old(self).next(),
            final(self).active().records() == Seq::<Seq<u8>>::empty(),
            final(self).lowest() == old(self).lowest(),
            final(self).next() == old(self).next(),
    {
        let base = self.segments[self.segments.len() - 1].next_offset();
        let seg = Segment::new(base, self.config.segment);
        let ghost s0 = self.segments@;
        self.segments.push(seg);
        proof {
            lemma_push_segment(s0, self.recs@, self.config.segment, seg);
            assert(self.recs@ + seg.records() =~= self.recs@);
            assert(self.segments@.take(s0.len() as int) =~= s0);
        }
    }

    /// Appends `p` to the active segment and returns its offset. When that
    /// leaves the active segment at one of its limits, a new segment is
    /// rolled at once, after the record is in. A failed append leaves the
    /// log as it was.
    pub fn append(&mut self, p: &[u8]) -> (r: Result<u64, LogError>)
        requires
            old(self).wf(),
        ensures
            final(self).wf(),
            final(self).conf() == old(self).conf(),
            match append_error(old(self).active(), p@.len()) {
                Some(e) => {
                    &&& r == Err::<u64, LogError>(e)
                    &&& final(self).segs() == old(self).segs()
                    &&& final(self).records() == old(self).records()
                },
                None => {
                    &&& r == Ok::<u64, LogError>(old(self).next() as u64)
                    &&& old(self).appended(*final(self), p@)
                    &&& final(self).segs().len() >= old(self).segs().len()
                    &&& forall|i: int|
                        0 <= i < old(self).segs().len() - 1 ==> #[trigger] final(self).segs()[i] == old(self).segs()[i]
                    &&& final(self).segs()[old(self).segs().len() - 1].base() == old(self).active().base()
                    &&& final(self).segs()[old(self).segs().len() - 1].records() == old(self).active().records().push(p@)
                    &&& if maxed_after_append(old(self).active(), p@.len()) {
                        &&& final(self).segs().len() == old(self).segs().len() + 1
                        &&& final(self).active().base() == old(self).next() + 1
                        &&& final(self).active().records() == Seq::<Seq<u8>>::empty()
                    } else {
                        final(self).segs().len() == old(self).segs().len()
                    }
                },
            },
    {
        let ghost s0 = self.segments@;
        let ghost last = s0.len() - 1;
        let mut a = self.segments.pop().unwrap();
        assert(self.segments@ =~= s0.take(last));
        let ghost a0 = a;
        match a.append(p) {
            Err(e) => {
                self.segments.push(a);
                assert(self.segments@ =~= s0);
                return Err(e);
            },
            Ok(off) => {
                let maxed = a.is_maxed();
                proof {
                    lemma_frames_push(a0.records(), p@);
                    lemma_frame_len(p@);
                }
                self.segments.push(a);
                proof {
                    assert(self.segments@ =~= s0.update(last, a));
                    lemma_grow_active(s0, self.recs@, self.config.segment, a, p@);
                }
                self.recs = Ghost(self.recs@.push(p@));
                let ghost s1 = self.segments@;
                if maxed {
                    self.roll_segment();
                    assert(self.segments@[last] == self.segments@.take(s1.len() as int)[last]);
                }
                assert forall|i: int| 0 <= i < last implies #[trigger] self.segments@[i] == s0[i] by {
                    assert(self.segments@[i] == self.segments@.take(s1.len() as int)[i]);
                    assert(s1[i] == s0[i]);
                }
                Ok(off)
            },
        }
    }

    /// The record at offset `off`, found by a binary search over the
    /// segments' base offsets.
    pub fn read(&self, off: u64) -> (r: Result<Vec<u8>, LogError>)
        requires
            self.wf(),
        ensures
            match self.lookup(off as nat) {
                Some(p) => r is Ok && r->Ok_0@ == p,
                None => r == Err::<Vec<u8>, LogError>(LogError::OffsetOutOfRange),
            },
    {
        proof {
            reveal(segments_wf);
        }
        let n = self.segments.len();
        if off < self.segments[0].base_offset() || off >= self.segments[n - 1].next_offset() {
            return Err(LogError::OffsetOutOfRange);
        }
        let ghost s = self.segments@;
        let mut lo: usize = 0;
        let mut hi: usize = n;
        while hi - lo > 1
            invariant
                self.wf(),
                s == self.segments@,
                n == s.len(),
                0 <= lo < hi <= n,
                s[lo as int].base() <= off,
                off < self.next(),
                forall|k: int| hi <= k < n ==> off < (#[trigger] s[k]).base(),
            decreases hi - lo,
        {
            let mid = lo + (hi - lo) / 2;
            if self.segments[mid].base_offset() <= off {
                lo = mid;
            } else {
                proof {
                    reveal(segments_wf);
                    assert forall|k: int| mid <= k < n implies off < (#[trigger] s[k]).base() by {
                        if mid < k {
                            assert(s[mid as int].next() <= s[k].base());
                            assert(s[mid as int].base() <= s[mid as int].next());
                        }
                    }
                }
                hi = mid;
            }
        }
        proof {
            if lo + 1 < n {
                assert(s[lo + 1].base() == s[lo as int].next());
            }
            let j = off - s[lo as int].base();
            assert(self.records()[s[lo as int].base() - self.lowest() + j] == s[lo as int].records()[j]);
        }
        self.segments[lo].read(off)
    }

    /// Removes every segment whose records all lie below `lowest`. Offsets
    /// are never reused: when no segment is left, an empty one is started at
    /// the next offset.
    pub fn truncate(&mut self, lowest: u64)
        requires
            old(self).wf(),
        ensures
            final(self).wf(),
            old(self).truncated(*final(self), lowest as nat),
    {
        let ghost s0 = self.segments@;
        let ghost r0 = self.recs@;
        let ghost k = lowest as nat;
        let n = self.segments.len();
        let mut d: usize = 0;
        proof {
            assert(s0.subrange(0, n as int) =~= s0);
        }
        while d < n && self.segments[d].next_offset() <= lowest
            invariant
                d <= n,
                n == s0.len(),
                k == lowest as nat,
                self.segments@ == s0,
                superseded(s0, k) == d + superseded(s0.subrange(d as int, n as int), k),
            decreases n - d,
        {
            proof {
                let t = s0.subrange(d as int, n as int);
                assert(t[0] == s0[d as int]);
                assert(s0[d as int].next() <= k);
                assert(t.drop_first() =~= s0.subrange(d + 1, n as int));
                assert(superseded(t, k) == 1 + superseded(t.drop_first(), k));
            }
            d = d + 1;
        }
        proof {
            lemma_superseded(s0, k);
        }
        let next = self.segments[n - 1].next_offset();
        if d < n {
            let kept = self.segments.split_off(d);
            self.segments = kept;
            proof {
                lemma_drop_segments(s0, r0, self.config.segment, d as int);
                lemma_segments_wf_ends(self.segments@, r0.subrange(s0[d as int].base() - s0[0].base(), r0.len() as int), self.config.segment);
            }
            self.recs = Ghost(r0.subrange(s0[d as int].base() - s0[0].base(), r0.len() as int));
        } else {
            let seg = Segment::new(next, self.config.segment);
            self.segments = vec![seg];
            self.recs = Ghost(r0.subrange(r0.len() as int, r0.len() as int));
            proof {
                assert(self.recs@ =~= Seq::<Seq<u8>>::empty());
                assert(self.segments@ =~= seq![seg]);
                lemma_single_segment(seg, self.config.segment);
            }
        }
    }

    /// Every retained record, in offset order.
    pub fn reader(&self) -> (r: Vec<Vec<u8>>)
        requires
            self.wf(),
        ensures
            r@.len() == self.records().len(),
            forall|i: int| 0 <= i < r@.len() ==> (#[trigger] r@[i])@ == self.records()[i],
    {
        let lo = self.lowest_offset();
        let hi = self.segments[self.segments.len() - 1].next_offset();
        let mut out: Vec<Vec<u8>> = Vec::new();
        let mut o = lo;
        while o < hi
            invariant
                self.wf(),
                lo == self.lowest(),
                hi == self.next(),
                lo <= o <= hi,
                out@.len() == o - lo,
                forall|i: int| 0 <= i < out@.len() ==> (#[trigger] out@[i])@ == self.records()[i],
            decreases hi - o,
        {
            let rec = self.read(o);
            match rec {
                Ok(v) => out.push(v),
                Err(_) => {
                    assert(false);
                },
            }
            o = o + 1;
        }
        out
    }

    /// Rebuilds a log from the store files of its segments, given as base
    /// offset and bytes in ascending order of base offset. Each segment is
    /// rebuilt from its store (see [`Segment::load`]). With no file a new log
    /// is made. The first segment that cannot be rebuilt decides the error;
    /// segments that do not abut one another give `CorruptFrame`.
    pub fn open(config: Config, stored: &Vec<(u64, Vec<u8>)>) -> (r: Result<Log, LogError>)
        ensures
            ({
                let ps = stored_view(stored@);
                let c = config.segment;
                if ps.len() == 0 {
                    &&& r is Ok
                    &&& r->Ok_0.wf()
                    &&& r->Ok_0.conf() == config
                    &&& r->Ok_0.lowest() == config.initial_offset
                    &&& r->Ok_0.records() == Seq::<Seq<u8>>::empty()
                } else if forall|i: int| 0 <= i < ps.len() ==> (#[trigger] load_error(c, ps[i].0, ps[i].1)) is None {
                    if stored_abut(ps) {
                        &&& r is Ok
                        &&& r->Ok_0.wf()
                        &&& r->Ok_0.conf() == config
                        &&& r->Ok_0.segs().len() == ps.len()
                        &&& r->Ok_0.lowest() == ps[0].0
                        &&& r->Ok_0.records() == stored_records(ps)
                    } else {
                        r == Err::<Log, LogError>(LogError::CorruptFrame)
                    }
                } else {
                    exists|i: int|
                        0 <= i < ps.len() && (forall|j: int| 0 <= j < i ==> (#[trigger] load_error(c, ps[j].0, ps[j].1)) is None)
                            && #[trigger] load_error(c, ps[i].0, ps[i].1) == Some(r->Err_0) && r is Err
                }
            }),
    {
        let ghost ps = stored_view(stored@);
        let ghost c = config.segment;
        let n = stored.len();
        if n == 0 {
            return Ok(Log::new(config));
        }
        let mut segments: Vec<Segment> = Vec::new();
        let mut gap = false;
        let mut i: usize = 0;
        while i < n
            invariant
                n == ps.len(),
                ps == stored_view(stored@),
                c == config.segment,
                0 <= i <= n,
                segments@.len() == i,
                forall|j: int| 0 <= j < i ==> (#[trigger] load_error(c, ps[j].0, ps[j].1)) is None,
                i > 0 && !gap ==> segments_wf(segments@, stored_records(ps.take(i as int)), c),
                i > 0 ==> segments@[0].base() == ps[0].0,
                i > 0 ==> segments@.last().next() == ps[i - 1].0 + parse_frames(ps[i - 1].1).len(),
                !gap <==> stored_abut(ps.take(i as int)),
            decreases n - i,
        {
            let base = stored[i].0;
            let seg = Segment::load(base, config.segment, stored[i].1.as_slice());
            assert(ps[i as int] == (stored@[i as int].0, stored@[i as int].1@));
            match seg {
                Err(e) => {
                    assert(load_error(c, ps[i as int].0, ps[i as int].1) == Some(e));
                    return Err(e);
                },
                Ok(seg) => {
                    let ghost s0 = segments@;
                    let ghost t = ps.take(i + 1);
                    proof {
                        assert(t.drop_last() =~= ps.take(i as int));
                        assert(seg.next() == base + parse_frames(ps[i as int].1).len());
                    }
                    if i > 0 && seg.base_offset() != segments[i - 1].next_offset() {
                        gap = true;
                    }
                    proof {
                        if i == 0 {
                            lemma_single_segment(seg, c);
                            assert(seq![seg] =~= s0.push(seg));
                            assert(stored_records(t) =~= seg.records()) by {
                                assert(t.drop_last() =~= Seq::<(u64, Seq<u8>)>::empty());
                                assert(t.last() == ps[0]);
                                assert(stored_records(t.drop_last()) == Seq::<Seq<u8>>::empty());
                            }
                        } else if !gap {
                            lemma_push_segment(s0, stored_records(ps.take(i as int)), c, seg);
                        }
                        assert(stored_abut(t) <==> stored_abut(ps.take(i as int)) && (i == 0 || t[i as int].0 == t[i - 1].0
                            + parse_frames(t[i - 1].1).len())) by {
                            if stored_abut(t) {
                                assert forall|j: int| 1 <= j < i implies (#[trigger] ps.take(i as int)[j]).0 == ps.take(i as int)[j - 1].0
                                    + parse_frames(ps.take(i as int)[j - 1].1).len() by {
                                    assert(t[j] == ps.take(i as int)[j]);
                                }
                            }
                        }
                    }
                    segments.push(seg);
                },
            }
            i = i + 1;
        }
        if gap {
            return Err(LogError::CorruptFrame);
        }
        proof {
            assert(ps.take(n as int) =~= ps);
            lemma_segments_wf_ends(segments@, stored_records(ps), c);
        }
        Ok(Log { segments, config, recs: Ghost(stored_records(ps)) })
    }
}

} // verus!
