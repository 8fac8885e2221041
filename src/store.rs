//! The store: a byte file of length-prefixed records.

use crate::bytes::{be_bytes, be_value, decode_u64, encode_u64, lemma_be_bytes_len, lemma_be_round_trip, lemma_byte_pow_8};
use crate::error::LogError;
use vstd::prelude::*;
use vstd::slice::slice_subrange;

verus! {

/// Width of the length prefix in front of every record.
pub const LEN_WIDTH: u64 = 8;

/// One record as it is framed on disk: its length in eight big-endian
/// bytes, then the payload.
pub open spec fn frame(p: Seq<u8>) -> Seq<u8> {
    be_bytes(p.len(), 8) + p
}

/// The frames of `rs`, one after the other.
pub open spec fn frames(rs: Seq<Seq<u8>>) -> Seq<u8>
    decreases rs.len(),
{
    if rs.len() == 0 {
        Seq::empty()
    } else {
        frames(rs.drop_last()) + frame(rs.last())
    }
}

/// Where the frame of record `i` of `rs` begins.
pub open spec fn frame_start(rs: Seq<Seq<u8>>, i: int) -> nat {
    frames(rs.take(i)).len()
}

/// The payload of the frame that begins at `pos` in `b`, if the frame is
/// complete.
pub open spec fn frame_at(b: Seq<u8>, pos: int) -> Option<Seq<u8>> {
    if 0 <= pos && pos + 8 <= b.len() {
        let l = be_value(b.subrange(pos, pos + 8));
        if pos + 8 + l <= b.len() {
            Some(b.subrange(pos + 8, pos + 8 + l))
        } else {
            None
        }
    } else {
        None
    }
}

/// The records held by the complete frames at the front of `b`; a trailing
/// incomplete frame is left out.
pub open spec fn parse_frames(b: Seq<u8>) -> Seq<Seq<u8>>
    decreases b.len(),
{
    match frame_at(b, 0) {
        Some(p) => seq![p] + parse_frames(b.subrange(8 + p.len() as int, b.len() as int)),
        None => Seq::empty(),
    }
}

pub proof fn lemma_frames_len(rs: Seq<Seq<u8>>, i: int)
    requires
        0 <= i < rs.len(),
    ensures
        frames(rs).len() >= 8 + rs[i].len(),
        frames(rs.take(i)).len() + 8 + rs[i].len() <= frames(rs).len(),
    decreases rs.len(),
{
    lemma_frames_prefix(rs, i + 1);
    let t = rs.take(i + 1);
    assert(t.drop_last() =~= rs.take(i));
    lemma_frame_len(rs[i]);
}

pub proof fn lemma_frame_len(p: Seq<u8>)
    ensures
        frame(p).len() == 8 + p.len(),
{
    lemma_be_bytes_len(p.len(), 8);
}

/// The frames of a prefix of the records are a prefix of the frames.
pub proof fn lemma_frames_prefix(rs: Seq<Seq<u8>>, k: int)
    requires
        0 <= k <= rs.len(),
    ensures
        frames(rs.take(k)).len() <= frames(rs).len(),
        frames(rs).subrange(0, frames(rs.take(k)).len() as int) == frames(rs.take(k)),
    decreases rs.len(),
{
    if k == rs.len() {
        assert(rs.take(k) =~= rs);
        assert(frames(rs).subrange(0, frames(rs).len() as int) =~= frames(rs));
    } else {
        let d = rs.drop_last();
        assert(rs.take(k) =~= d.take(k));
        lemma_frames_prefix(d, k);
        let l = frames(rs.take(k)).len() as int;
        assert(frames(rs).subrange(0, l) =~= frames(d).subrange(0, l));
    }
}

/// Frames appended one by one add up.
pub proof fn lemma_frames_push(rs: Seq<Seq<u8>>, p: Seq<u8>)
    ensures
        frames(rs.push(p)) == frames(rs) + frame(p),
{
    assert(rs.push(p).drop_last() =~= rs);
}

/// Reading at the start of record `i` gives record `i` back.
pub proof fn lemma_frame_at_start(rs: Seq<Seq<u8>>, i: int)
    requires
        0 <= i < rs.len(),
        frames(rs).len() <= u64::MAX,
    ensures
        frame_at(frames(rs), frame_start(rs, i) as int) == Some(rs[i]),
        frame_start(rs, i + 1) == frame_start(rs, i) + 8 + rs[i].len(),
{
    let b = frames(rs);
    let t = rs.take(i + 1);
    assert(t.drop_last() =~= rs.take(i));
    assert(t.last() == rs[i]);
    lemma_frames_prefix(rs, i + 1);
    lemma_frames_len(rs, i);
    lemma_frame_len(rs[i]);
    lemma_byte_pow_8();
    lemma_be_round_trip(rs[i].len(), 8);
    let s = frame_start(rs, i) as int;
    let ft = frames(t);
    assert(ft == frames(rs.take(i)) + frame(rs[i]));
    assert(b.subrange(s, s + 8) =~= ft.subrange(s, s + 8));
    assert(ft.subrange(s, s + 8) =~= be_bytes(rs[i].len(), 8));
    assert(b.subrange(s + 8, s + 8 + rs[i].len()) =~= ft.subrange(s + 8, s + 8 + rs[i].len()));
    assert(ft.subrange(s + 8, s + 8 + rs[i].len()) =~= rs[i]);
}

/// Parsing the frames of some records gives exactly those records back.
pub proof fn lemma_parse_frames(rs: Seq<Seq<u8>>)
    requires
        frames(rs).len() <= u64::MAX,
    ensures
        parse_frames(frames(rs)) == rs,
    decreases rs.len(),
{
    if rs.len() == 0 {
        assert(frame_at(frames(rs), 0) is None);
    } else {
        let b = frames(rs);
        let rest = rs.drop_first();
        lemma_frame_at_start(rs, 0);
        assert(rs.take(0) =~= Seq::<Seq<u8>>::empty());
        assert(frame_start(rs, 0) == 0);
        lemma_frames_cons(rs);
        lemma_frame_len(rs[0]);
        let n = 8 + rs[0].len() as int;
        assert(b.subrange(n, b.len() as int) =~= frames(rest));
        lemma_parse_frames(rest);
        assert(seq![rs[0]] + rest =~= rs);
    }
}

/// The frames of a non-empty sequence are the first frame followed by the
/// frames of the rest.
pub proof fn lemma_frames_cons(rs: Seq<Seq<u8>>)
    requires
        rs.len() > 0,
    ensures
        frames(rs) == frame(rs[0]) + frames(rs.drop_first()),
    decreases rs.len(),
{
    if rs.len() == 1 {
        assert(rs.drop_last() =~= Seq::<Seq<u8>>::empty());
        assert(rs.drop_first() =~= Seq::<Seq<u8>>::empty());
        assert(frames(rs) =~= frame(rs[0]) + frames(rs.drop_first()));
    } else {
        let d = rs.drop_last();
        lemma_frames_cons(d);
        assert(d.drop_first() =~= rs.drop_first().drop_last());
        assert(rs.drop_first().last() == rs.last());
        assert(frames(rs) =~= frame(rs[0]) + frames(rs.drop_first()));
    }
}

/// A frame that begins at `pos` of `b` is the frame at the start of what
/// follows `pos`.
pub proof fn lemma_frame_at_suffix(b: Seq<u8>, pos: int)
    requires
        0 <= pos <= b.len(),
    ensures
        frame_at(b.subrange(pos, b.len() as int), 0) == frame_at(b, pos),
{
    let s = b.subrange(pos, b.len() as int);
    if pos + 8 <= b.len() {
        assert(s.subrange(0, 8) =~= b.subrange(pos, pos + 8));
        let l = be_value(b.subrange(pos, pos + 8)) as int;
        if pos + 8 + l <= b.len() {
            assert(s.subrange(8, 8 + l) =~= b.subrange(pos + 8, pos + 8 + l));
        }
    }
}

/// Parsing what follows a complete frame at `pos` gives that frame's record
/// and then the records after it; with no complete frame there it gives
/// nothing.
pub proof fn lemma_parse_frames_step(b: Seq<u8>, pos: int)
    requires
        0 <= pos <= b.len(),
    ensures
        match frame_at(b, pos) {
            Some(p) => parse_frames(b.subrange(pos, b.len() as int)) == seq![p] + parse_frames(
                b.subrange(pos + 8 + p.len(), b.len() as int),
            ),
            None => parse_frames(b.subrange(pos, b.len() as int)) == Seq::<Seq<u8>>::empty(),
        },
{
    lemma_frame_at_suffix(b, pos);
    let s = b.subrange(pos, b.len() as int);
    if let Some(p) = frame_at(b, pos) {
        assert(s.subrange(8 + p.len() as int, s.len() as int) =~= b.subrange(pos + 8 + p.len(), b.len() as int));
    }
}

/// The length of the record whose frame begins at `pos` of `b`, if that
/// frame is complete.
pub fn frame_len_at(b: &[u8], pos: usize) -> (r: Option<usize>)
    ensures
        match frame_at(b@, pos as int) {
            Some(p) => r == Some(p.len() as usize) && pos + 8 + p.len() <= b@.len(),
            None => r is None,
        },
{
    let len = b.len();
    if pos > len || len - pos < 8 {
        return None;
    }
    let head = slice_subrange(b, pos, pos + 8);
    let l = decode_u64(head);
    assert(head@.subrange(0, 8) =~= b@.subrange(pos as int, pos + 8));
    if ((len - pos - 8) as u64) < l {
        return None;
    }
    Some(l as usize)
}

/// A store file: length-prefixed records laid end to end.
pub struct Store {
    buf: Vec<u8>,
    recs: Ghost<Seq<Seq<u8>>>,
}

impl Store {
    /// The bytes of the store file.
    pub closed spec fn bytes(&self) -> Seq<u8> {
        self.buf@
    }

    /// The records that the store holds, in the order they were appended.
    pub closed spec fn records(&self) -> Seq<Seq<u8>> {
        self.recs@
    }

    /// The bytes are the frames of the records, and their count fits in a
    /// `u64` position.
    pub open spec fn wf(&self) -> bool {
        &&& self.bytes() == frames(self.records())
        &&& self.bytes().len() <= u64::MAX
    }

    /// An empty store.
    pub fn new() -> (r: Store)
        ensures
            r.wf(),
            r.records() == Seq::<Seq<u8>>::empty(),
    {
        Store { buf: Vec::new(), recs: Ghost(Seq::empty()) }
    }

    /// The number of bytes in the store file.
    pub fn size(&self) -> (r: u64)
        requires
            self.wf(),
        ensures
            r == self.bytes().len(),
    {
        self.buf.len() as u64
    }

    /// The bytes of the store file, for writing it out.
    pub fn as_bytes(&self) -> (r: &[u8])
        ensures
            r@ == self.bytes(),
    {
        self.buf.as_slice()
    }

    /// Appends the frame of `p`: returns the number of bytes written (prefix
    /// and payload) and the position where the frame begins.
    pub fn append(&mut self, p: &[u8]) -> (r: (u64, u64))
        requires
            old(self).wf(),
            old(self).bytes().len() + 8 + p@.len() <= u64::MAX,
        ensures
            final(self).wf(),
            final(self).records() == old(self).records().push(p@),
            final(self).bytes() == old(self).bytes() + frame(p@),
            r.0 == 8 + p@.len(),
            r.1 == old(self).bytes().len(),
            r.1 == frame_start(final(self).records(), old(self).records().len() as int),
    {
        let pos = self.buf.len() as u64;
        let mut prefix = encode_u64(p.len() as u64);
        let mut payload = vstd::slice::slice_to_vec(p);
        proof {
            lemma_frames_push(self.recs@, p@);
            lemma_frame_len(p@);
        }
        self.buf.append(&mut prefix);
        self.buf.append(&mut payload);
        self.recs = Ghost(self.recs@.push(p@));
        proof {
            assert(self.buf@ =~= frames(self.recs@));
            assert(self.recs@.take(self.recs@.len() - 1) =~= old(self).recs@);
        }
        (LEN_WIDTH + p.len() as u64, pos)
    }

    /// Reads the record whose frame begins at `pos`.
    pub fn read(&self, pos: u64) -> (r: Result<Vec<u8>, LogError>)
        requires
            self.wf(),
        ensures
            match frame_at(self.bytes(), pos as int) {
                Some(p) => r is Ok && r->Ok_0@ == p,
                None => r == Err::<Vec<u8>, LogError>(LogError::CorruptFrame),
            },
    {
        let len = self.buf.len() as u64;
        if pos > len || len - pos < LEN_WIDTH {
            return Err(LogError::CorruptFrame);
        }
        let head = slice_subrange(self.buf.as_slice(), pos as usize, (pos + LEN_WIDTH) as usize);
        let l = decode_u64(head);
        assert(head@.subrange(0, 8) =~= self.buf@.subrange(pos as int, pos + 8));
        if len - pos - LEN_WIDTH < l {
            return Err(LogError::CorruptFrame);
        }
        let start = pos + LEN_WIDTH;
        let body = slice_subrange(self.buf.as_slice(), start as usize, (start + l) as usize);
        Ok(vstd::slice::slice_to_vec(body))
    }

    /// Reads the `n` raw bytes that begin at `pos`.
    pub fn read_at(&self, pos: u64, n: u64) -> (r: Result<Vec<u8>, LogError>)
        requires
            self.wf(),
        ensures
            pos + n <= self.bytes().len() ==> r is Ok && r->Ok_0@ == self.bytes().subrange(pos as int, pos + n),
            pos + n > self.bytes().len() ==> r == Err::<Vec<u8>, LogError>(LogError::CorruptFrame),
    {
        let len = self.buf.len() as u64;
        if pos > len || len - pos < n {
            return Err(LogError::CorruptFrame);
        }
        let body = slice_subrange(self.buf.as_slice(), pos as usize, (pos + n) as usize);
        Ok(vstd::slice::slice_to_vec(body))
    }
}

} // verus!
