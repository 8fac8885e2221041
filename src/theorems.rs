//! What holds across calls of the log: reading what was appended, offsets
//! that only grow, reads outside the retained range, and reopening a log
//! from its store files.

use crate::log::{lemma_segments_wf_ends, lemma_superseded, load_error, segments_wf, stored_abut, stored_records, superseded, Log};
use crate::config::SegmentConfig;
use crate::segment::Segment;
use crate::store::{lemma_parse_frames, parse_frames};
use vstd::prelude::*;

verus! {

/// A record read back at the offset its append returned is the record that
/// was appended.
pub proof fn lemma_read_after_append(before: Log, after: Log, p: Seq<u8>)
    requires
        before.wf(),
        after.wf(),
        before.appended(after, p),
    ensures
        after.lookup(before.next()) == Some(p),
{
    assert(after.records()[before.next() - after.lowest()] == p);
}

/// Two appends in a row get two offsets, the second larger than the first;
/// each append gets the offset the log was to assign next.
pub proof fn lemma_offsets_increase(l0: Log, l1: Log, l2: Log, p: Seq<u8>, q: Seq<u8>)
    requires
        l0.wf(),
        l1.wf(),
        l2.wf(),
        l0.appended(l1, p),
        l1.appended(l2, q),
    ensures
        l0.next() < l1.next(),
        l1.next() == l0.next() + 1,
        l2.next() == l1.next() + 1,
{
}

/// Nothing is read one past the newest record.
pub proof fn lemma_read_past_end(l: Log)
    requires
        l.wf(),
    ensures
        l.lookup(l.next()) is None,
{
}

/// After truncating at `k`, an offset below `k` is read only where it lies
/// in the first retained segment, the one that holds offset `k` or lies
/// above it; every offset below that segment's base fails.
pub proof fn lemma_read_after_truncate(before: Log, after: Log, k: nat, o: nat)
    requires
        before.wf(),
        after.wf(),
        before.truncated(after, k),
        o < k,
    ensures
        o < after.lowest() ==> after.lookup(o) is None,
        after.lookup(o) is Some ==> after.segs()[0].base() <= o && k < after.segs()[0].next(),
{
    lemma_superseded(before.segs(), k);
    let d = superseded(before.segs(), k);
    if d < before.segs().len() {
        assert(after.segs()[0] == before.segs()[d as int]);
    } else {
        lemma_segments_wf_ends(before.segs(), before.records(), before.conf().segment);
        if before.segs().len() > 0 {
            assert(before.segs()[before.segs().len() - 1].next() <= k);
        }
    }
}

/// The base offsets and store bytes of the segments `s`.
pub open spec fn snapshot(s: Seq<Segment>) -> Seq<(u64, Seq<u8>)> {
    s.map_values(|g: Segment| (g.base() as u64, g.store_bytes()))
}

proof fn lemma_snapshot_prefix(s: Seq<Segment>, r: Seq<Seq<u8>>, c: SegmentConfig, t: int)
    requires
        segments_wf(s, r, c),
        0 <= t <= s.len(),
    ensures
        stored_records(snapshot(s).take(t)) == r.subrange(
            0,
            if t == 0 { 0 } else { s[t - 1].next() - s[0].base() },
        ),
    decreases t,
{
    reveal(segments_wf);
    let ps = snapshot(s);
    if t == 0 {
        assert(ps.take(0) =~= Seq::<(u64, Seq<u8>)>::empty());
        assert(r.subrange(0, 0) =~= Seq::<Seq<u8>>::empty());
    } else {
        lemma_snapshot_prefix(s, r, c, t - 1);
        let g = s[t - 1];
        assert(ps.take(t).drop_last() =~= ps.take(t - 1));
        assert(ps.take(t).last() == (g.base() as u64, g.store_bytes()));
        lemma_parse_frames(g.records());
        let lo = if t - 1 == 0 { 0 } else { s[t - 2].next() - s[0].base() };
        assert(lo == g.base() - s[0].base()) by {
            if t - 1 > 0 {
                assert(s[t - 1].base() == s[t - 2].next());
            }
        }
        assert(g.base() <= s.last().next()) by {
            if t - 1 < s.len() - 1 {
                assert(s[t - 1].next() <= s[s.len() - 1].base());
            }
        }
        assert(g.next() <= s.last().next()) by {
            if t - 1 < s.len() - 1 {
                assert(s[t - 1].next() <= s[s.len() - 1].base());
            }
        }
        assert forall|j: int| 0 <= j < g.records().len() implies r.subrange(lo, lo + g.records().len())[j]
            == g.records()[j] by {
            assert(r[g.base() - s[0].base() + j] == s[t - 1].records()[j]);
        }
        assert(r.subrange(lo, lo + g.records().len()) =~= g.records());
        assert(r.subrange(0, lo + g.records().len()) =~= r.subrange(0, lo) + r.subrange(
            lo,
            lo + g.records().len(),
        ));
    }
}

/// The store files of a log's segments rebuild that log: every segment
/// loads, they abut, the first begins at the lowest offset, and together
/// they hold the same records; so reopening keeps the lowest and the highest
/// offset and every payload.
pub proof fn lemma_reopen(l: Log)
    requires
        l.wf(),
    ensures
        ({
            let ps = snapshot(l.segs());
            &&& ps.len() > 0
            &&& forall|i: int| 0 <= i < ps.len() ==> (#[trigger] load_error(l.conf().segment, ps[i].0, ps[i].1)) is None
            &&& stored_abut(ps)
            &&& ps[0].0 == l.lowest()
            &&& stored_records(ps) == l.records()
            &&& ps[0].0 + stored_records(ps).len() == l.next()
        }),
{
    reveal(segments_wf);
    let s = l.segs();
    let c = l.conf().segment;
    let ps = snapshot(s);
    assert forall|i: int| 0 <= i < ps.len() implies (#[trigger] load_error(c, ps[i].0, ps[i].1)) is None by {
        s[i].lemma_fits();
        lemma_parse_frames(s[i].records());
    }
    assert forall|i: int| 1 <= i < ps.len() implies (#[trigger] ps[i]).0 == ps[i - 1].0 + parse_frames(ps[i - 1].1).len() by {
        lemma_parse_frames(s[i - 1].records());
        assert(s[i].base() == s[i - 1].next());
    }
    lemma_snapshot_prefix(s, l.records(), c, s.len() as int);
    assert(ps.take(s.len() as int) =~= ps);
    assert(l.records().subrange(0, l.records().len() as int) =~= l.records());
}

} // verus!
