//! Segment file names: `<base offset, zero-padded to eight digits>.store`
//! and `.index`, and the base offsets read back from a directory listing.

use vstd::prelude::*;

verus! {

/// Width to which base offsets are zero-padded in file names.
pub const NAME_DIGITS: usize = 8;

/// The decimal digits of `n`, most significant first, in ASCII.
pub open spec fn dec_digits(n: nat) -> Seq<u8>
    decreases n,
{
    if n < 10 {
        seq![(48 + n) as u8]
    } else {
        dec_digits(n / 10).push((48 + n % 10) as u8)
    }
}

/// `n` in decimal, padded with leading zeros to at least eight digits.
pub open spec fn padded_decimal(n: nat) -> Seq<u8> {
    let d = dec_digits(n);
    if d.len() < 8 {
        Seq::new((8 - d.len()) as nat, |i: int| 48u8) + d
    } else {
        d
    }
}

/// The extension of store files.
pub open spec fn store_ext() -> Seq<u8> {
    seq![46u8, 115u8, 116u8, 111u8, 114u8, 101u8]
}

/// The extension of index files.
pub open spec fn index_ext() -> Seq<u8> {
    seq![46u8, 105u8, 110u8, 100u8, 101u8, 120u8]
}

pub open spec fn is_digit(b: u8) -> bool {
    48 <= b <= 57
}

/// The number that the ASCII digits `s` spell.
pub open spec fn digits_value(s: Seq<u8>) -> nat
    decreases s.len(),
{
    if s.len() == 0 {
        0
    } else {
        digits_value(s.drop_last()) * 10 + (s.last() - 48) as nat
    }
}

/// The base offset that a file name spells: a non-empty run of digits
/// followed by a store or index extension. Other names spell none.
pub open spec fn name_base(name: Seq<u8>) -> Option<nat> {
    if name.len() > 6 {
        let stem = name.take(name.len() - 6);
        let ext = name.skip(name.len() - 6);
        if (ext == store_ext() || ext == index_ext()) && forall|i: int| 0 <= i < stem.len() ==> is_digit(#[trigger] stem[i]) {
            Some(digits_value(stem))
        } else {
            None
        }
    } else {
        None
    }
}

/// The base offset of a segment file name, when it fits a `u64`.
pub open spec fn name_offset(name: Seq<u8>) -> Option<u64> {
    match name_base(name) {
        Some(v) => if v <= u64::MAX { Some(v as u64) } else { None },
        None => None,
    }
}

fn push_decimal(n: u64, out: &mut Vec<u8>)
    ensures
        final(out)@ == old(out)@ + dec_digits(n as nat),
    decreases n,
{
    if n >= 10 {
        push_decimal(n / 10, out);
        out.push((48 + n % 10) as u8);
        assert(final(out)@ =~= old(out)@ + dec_digits(n as nat));
    } else {
        out.push((48 + n) as u8);
        assert(final(out)@ =~= old(out)@ + dec_digits(n as nat));
    }
}

fn push_bytes(out: &mut Vec<u8>, s: &[u8])
    ensures
        final(out)@ == old(out)@ + s@,
{
    let mut i: usize = 0;
    while i < s.len()
        invariant
            i <= s@.len(),
            out@ == old(out)@ + s@.take(i as int),
        decreases s@.len() - i,
    {
        out.push(s[i]);
        i = i + 1;
        assert(out@ =~= old(out)@ + s@.take(i as int));
    }
    assert(s@.take(i as int) =~= s@);
}

fn file_name(base: u64, ext: &[u8]) -> (r: Vec<u8>)
    ensures
        r@ == padded_decimal(base as nat) + ext@,
{
    let mut digits: Vec<u8> = Vec::new();
    push_decimal(base, &mut digits);
    assert(digits@ =~= dec_digits(base as nat));
    let mut out: Vec<u8> = Vec::new();
    let mut k: usize = digits.len();
    while k < NAME_DIGITS
        invariant
            digits@.len() <= k <= 8 || (k == digits@.len() && k > 8),
            out@ == Seq::new((k - digits@.len()) as nat, |i: int| 48u8),
        decreases 8 - k,
    {
        out.push(48u8);
        k = k + 1;
        assert(out@ =~= Seq::new((k - digits@.len()) as nat, |i: int| 48u8));
    }
    push_bytes(&mut out, digits.as_slice());
    push_bytes(&mut out, ext);
    proof {
        if digits@.len() >= 8 {
            assert(out@ =~= digits@ + ext@);
        } else {
            assert(out@ =~= Seq::new((8 - digits@.len()) as nat, |i: int| 48u8) + digits@ + ext@);
        }
    }
    out
}

/// The name of the store file of the segment at `base`.
pub fn store_file_name(base: u64) -> (r: Vec<u8>)
    ensures
        r@ == padded_decimal(base as nat) + store_ext(),
{
    let ext: [u8; 6] = [46u8, 115u8, 116u8, 111u8, 114u8, 101u8];
    let r = file_name(base, ext.as_slice());
    assert(ext@ =~= store_ext());
    r
}

/// The name of the index file of the segment at `base`.
pub fn index_file_name(base: u64) -> (r: Vec<u8>)
    ensures
        r@ == padded_decimal(base as nat) + index_ext(),
{
    let ext: [u8; 6] = [46u8, 105u8, 110u8, 100u8, 101u8, 120u8];
    let r = file_name(base, ext.as_slice());
    assert(ext@ =~= index_ext());
    r
}

/// The base offsets spelled by the names in `names`.
pub open spec fn listed_offsets(names: Seq<Seq<u8>>) -> Set<u64> {
    Set::new(|x: u64| exists|j: int| 0 <= j < names.len() && name_offset(#[trigger] names[j]) == Some(x))
}

proof fn lemma_digits_prefix(s: Seq<u8>, k: int)
    requires
        0 <= k <= s.len(),
        forall|i: int| 0 <= i < s.len() ==> is_digit(#[trigger] s[i]),
    ensures
        digits_value(s.take(k)) <= digits_value(s),
    decreases s.len(),
{
    if k < s.len() {
        let d = s.drop_last();
        assert(s.take(k) =~= d.take(k));
        assert forall|i: int| 0 <= i < d.len() implies is_digit(#[trigger] d[i]) by {
            assert(d[i] == s[i]);
        }
        lemma_digits_prefix(d, k);
    } else {
        assert(s.take(k) =~= s);
    }
}

/// The base offset that a segment file name spells, or `None` for a name
/// that is not `<digits>.store` or `<digits>.index`, or whose digits do not
/// fit a `u64`.
pub fn parse_segment_file_name(name: &[u8]) -> (r: Option<u64>)
    ensures
        r == name_offset(name@),
{
    let n = name.len();
    if n <= 6 {
        return None;
    }
    let e = n - 6;
    let ghost ext = name@.skip(e as int);
    let ghost stem = name@.take(e as int);
    let dot = name[e] == 46u8;
    let is_store = dot && name[e + 1] == 115u8 && name[e + 2] == 116u8 && name[e + 3] == 111u8 && name[e + 4] == 114u8
        && name[e + 5] == 101u8;
    let is_index = dot && name[e + 1] == 105u8 && name[e + 2] == 110u8 && name[e + 3] == 100u8 && name[e + 4] == 101u8
        && name[e + 5] == 120u8;
    proof {
        assert(is_store <==> ext =~= store_ext()) by {
            if ext =~= store_ext() {
                assert(ext[0] == name@[e as int]);
                assert(ext[1] == name@[e + 1]);
                assert(ext[2] == name@[e + 2]);
                assert(ext[3] == name@[e + 3]);
                assert(ext[4] == name@[e + 4]);
                assert(ext[5] == name@[e + 5]);
            }
        }
        assert(is_index <==> ext =~= index_ext()) by {
            if ext =~= index_ext() {
                assert(ext[0] == name@[e as int]);
                assert(ext[1] == name@[e + 1]);
                assert(ext[2] == name@[e + 2]);
                assert(ext[3] == name@[e + 3]);
                assert(ext[4] == name@[e + 4]);
                assert(ext[5] == name@[e + 5]);
            }
        }
    }
    if !is_store && !is_index {
        return None;
    }
    let mut v: u64 = 0;
    let mut i: usize = 0;
    while i < e
        invariant
            e == n - 6,
            n == name@.len(),
            stem == name@.take(e as int),
            i <= e,
            forall|j: int| 0 <= j < i ==> is_digit(#[trigger] stem[j]),
            v == digits_value(stem.take(i as int)),
        decreases e - i,
    {
        let b = name[i];
        if b < 48u8 || b > 57u8 {
            assert(!is_digit(stem[i as int]));
            return None;
        }
        let d = (b - 48u8) as u64;
        assert(stem.take(i + 1).drop_last() =~= stem.take(i as int));
        if v > (u64::MAX - d) / 10 {
            proof {
                assert(v * 10 + d > u64::MAX) by (nonlinear_arith)
                    requires
                        v > (u64::MAX - d) / 10,
                        d <= 9,
                ;
                if forall|j: int| 0 <= j < stem.len() ==> is_digit(#[trigger] stem[j]) {
                    lemma_digits_prefix(stem, i + 1);
                }
            }
            return None;
        }
        assert(v * 10 + d <= u64::MAX) by (nonlinear_arith)
            requires
                v <= (u64::MAX - d) / 10,
                d <= 9,
        ;
        v = v * 10 + d;
        i = i + 1;
    }
    assert(stem.take(e as int) =~= stem);
    Some(v)
}

/// The distinct base offsets that the names of a directory listing spell,
/// ascending. Names of other files are passed over.
pub fn segment_base_offsets(names: &Vec<Vec<u8>>) -> (r: Vec<u64>)
    ensures
        forall|i: int, j: int| 0 <= i < j < r@.len() ==> r@[i] < r@[j],
        r@.to_set() == listed_offsets(names@.map_values(|v: Vec<u8>| v@)),
{
    let ghost nv = names@.map_values(|v: Vec<u8>| v@);
    let mut out: Vec<u64> = Vec::new();
    let mut i: usize = 0;
    while i < names.len()
        invariant
            nv == names@.map_values(|v: Vec<u8>| v@),
            i <= names@.len(),
            forall|a: int, b: int| 0 <= a < b < out@.len() ==> out@[a] < out@[b],
            forall|x: u64| out@.contains(x) <==> listed_offsets(nv.take(i as int)).contains(x),
        decreases names@.len() - i,
    {
        let parsed = parse_segment_file_name(names[i].as_slice());
        let ghost old_out = out@;
        let ghost t = nv.take(i as int);
        let ghost t1 = nv.take(i + 1);
        assert(t1[i as int] == names@[i as int]@);
        match parsed {
            None => {
                assert forall|x: u64| out@.contains(x) <==> listed_offsets(t1).contains(x) by {
                    if listed_offsets(t1).contains(x) {
                        let j = choose|j: int| 0 <= j < t1.len() && name_offset(#[trigger] t1[j]) == Some(x);
                        assert(t[j] == t1[j]);
                    }
                    if listed_offsets(t).contains(x) {
                        let j = choose|j: int| 0 <= j < t.len() && name_offset(#[trigger] t[j]) == Some(x);
                        assert(t[j] == t1[j]);
                    }
                }
            },
            Some(b) => {
                let mut p: usize = 0;
                while p < out.len() && out[p] < b
                    invariant
                        p <= out@.len(),
                        forall|k: int| 0 <= k < p ==> out@[k] < b,
                    decreases out@.len() - p,
                {
                    p = p + 1;
                }
                if p < out.len() && out[p] == b {
                } else {
                    out.insert(p, b);
                    proof {
                        assert forall|a: int, c: int| 0 <= a < c < out@.len() implies out@[a] < out@[c] by {
                            if c < p as int {
                            } else if c == p as int {
                            } else if a < p as int {
                                assert(old_out[a] < b);
                                assert(out@[c] == old_out[c - 1]);
                                assert(old_out[p as int] >= b);
                                if c - 1 > p as int {
                                    assert(old_out[p as int] < old_out[c - 1]);
                                }
                            } else if a == p as int {
                                assert(old_out[p as int] > b);
                                if c - 1 > p as int {
                                    assert(old_out[p as int] < old_out[c - 1]);
                                }
                            } else {
                                assert(old_out[a - 1] < old_out[c - 1]);
                            }
                        }
                    }
                }
                assert forall|x: u64| out@.contains(x) <==> (old_out.contains(x) || x == b) by {
                    if out@.contains(x) {
                        let k = choose|k: int| 0 <= k < out@.len() && out@[k] == x;
                        if out@.len() > old_out.len() {
                            if k < p {
                                assert(old_out[k] == x);
                            } else if k > p {
                                assert(old_out[k - 1] == x);
                            }
                        } else {
                            assert(old_out[k] == x);
                        }
                    }
                    if old_out.contains(x) {
                        let k = choose|k: int| 0 <= k < old_out.len() && old_out[k] == x;
                        if out@.len() > old_out.len() {
                            if k < p {
                                assert(out@[k] == x);
                            } else {
                                assert(out@[k + 1] == x);
                            }
                        } else {
                            assert(out@[k] == x);
                        }
                    }
                    if x == b {
                        assert(out@[p as int] == b);
                    }
                }
                assert forall|x: u64| out@.contains(x) <==> listed_offsets(t1).contains(x) by {
                    if listed_offsets(t1).contains(x) {
                        let j = choose|j: int| 0 <= j < t1.len() && name_offset(#[trigger] t1[j]) == Some(x);
                        if j < i {
                            assert(t[j] == t1[j]);
                            assert(listed_offsets(t).contains(x));
                            assert(old_out.contains(x));
                        } else {
                            assert(x == b);
                        }
                    }
                    if old_out.contains(x) {
                        assert(listed_offsets(t).contains(x));
                        let j = choose|j: int| 0 <= j < t.len() && name_offset(#[trigger] t[j]) == Some(x);
                        assert(t[j] == t1[j]);
                        assert(listed_offsets(t1).contains(x));
                    }
                    if x == b {
                        assert(name_offset(t1[i as int]) == Some(x));
                        assert(listed_offsets(t1).contains(x));
                    }
                }
            },
        }
        i = i + 1;
    }
    proof {
        assert(nv.take(names@.len() as int) =~= nv);
        assert(out@.to_set() =~= listed_offsets(nv));
    }
    out
}

proof fn lemma_dec_digits(n: nat)
    ensures
        digits_value(dec_digits(n)) == n,
        dec_digits(n).len() >= 1,
        forall|i: int| 0 <= i < dec_digits(n).len() ==> is_digit(#[trigger] dec_digits(n)[i]),
    decreases n,
{
    if n >= 10 {
        lemma_dec_digits(n / 10);
        let d = dec_digits(n);
        assert(d.drop_last() =~= dec_digits(n / 10));
        assert forall|i: int| 0 <= i < d.len() implies is_digit(#[trigger] d[i]) by {
            if i < d.len() - 1 {
                assert(d[i] == dec_digits(n / 10)[i]);
            }
        }
        assert(d.last() == (48 + n % 10) as u8);
        assert(d.last() - 48 == n % 10);
        assert(digits_value(d) == digits_value(d.drop_last()) * 10 + (d.last() - 48) as nat);
        assert(digits_value(d) == (n / 10) * 10 + n % 10);
        assert((n / 10) * 10 + n % 10 == n) by (nonlinear_arith);
    } else {
        let d = dec_digits(n);
        assert(d.drop_last() =~= Seq::<u8>::empty());
        assert(d.last() == (48 + n) as u8);
        assert(digits_value(d) == digits_value(d.drop_last()) * 10 + (d.last() - 48) as nat);
    }
}

proof fn lemma_leading_zeros(z: nat, s: Seq<u8>)
    ensures
        digits_value(Seq::new(z, |i: int| 48u8) + s) == digits_value(s),
    decreases s.len(), z,
{
    let t = Seq::new(z, |i: int| 48u8) + s;
    if s.len() > 0 {
        assert(t.drop_last() =~= Seq::new(z, |i: int| 48u8) + s.drop_last());
        lemma_leading_zeros(z, s.drop_last());
    } else if z > 0 {
        assert(t.drop_last() =~= Seq::new((z - 1) as nat, |i: int| 48u8) + s);
        lemma_leading_zeros((z - 1) as nat, s);
    } else {
        assert(t =~= s);
    }
}

/// The file names of a segment spell its base offset back.
pub proof fn lemma_file_name_round_trip(base: u64)
    ensures
        name_offset(padded_decimal(base as nat) + store_ext()) == Some(base),
        name_offset(padded_decimal(base as nat) + index_ext()) == Some(base),
{
    let d = dec_digits(base as nat);
    lemma_dec_digits(base as nat);
    let p = padded_decimal(base as nat);
    if d.len() < 8 {
        lemma_leading_zeros((8 - d.len()) as nat, d);
        assert forall|i: int| 0 <= i < p.len() implies is_digit(#[trigger] p[i]) by {
            if i >= 8 - d.len() {
                assert(p[i] == d[i - (8 - d.len())]);
            }
        }
    }
    let a = p + store_ext();
    assert(a.take(a.len() - 6) =~= p);
    assert(a.skip(a.len() - 6) =~= store_ext());
    let b = p + index_ext();
    assert(b.take(b.len() - 6) =~= p);
    assert(b.skip(b.len() - 6) =~= index_ext());
}

} // verus!
