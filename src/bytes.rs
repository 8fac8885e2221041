//! Fixed-width big-endian integers, as they appear in store frames and
//! index entries.

use byteorder::{BigEndian, ByteOrder};
use vstd::prelude::*;

verus! {

/// The `w` bytes that hold `n` in big-endian order (most significant first).
pub open spec fn be_bytes(n: nat, w: nat) -> Seq<u8>
    decreases w,
{
    if w == 0 {
        Seq::empty()
    } else {
        be_bytes(n / 256, (w - 1) as nat).push((n % 256) as u8)
    }
}

/// The number that the bytes `s` hold in big-endian order.
pub open spec fn be_value(s: Seq<u8>) -> nat
    decreases s.len(),
{
    if s.len() == 0 {
        0
    } else {
        be_value(s.drop_last()) * 256 + s.last() as nat
    }
}

/// `256` to the power `w`.
pub open spec fn byte_pow(w: nat) -> nat
    decreases w,
{
    if w == 0 {
        1
    } else {
        256 * byte_pow((w - 1) as nat)
    }
}

pub proof fn lemma_be_bytes_len(n: nat, w: nat)
    ensures
        be_bytes(n, w).len() == w,
    decreases w,
{
    if w > 0 {
        lemma_be_bytes_len(n / 256, (w - 1) as nat);
    }
}

/// Decoding the big-endian bytes of a number that fits in `w` bytes gives
/// the number back.
pub proof fn lemma_be_round_trip(n: nat, w: nat)
    requires
        n < byte_pow(w),
    ensures
        be_value(be_bytes(n, w)) == n,
        be_bytes(n, w).len() == w,
    decreases w,
{
    lemma_be_bytes_len(n, w);
    if w > 0 {
        let w1 = (w - 1) as nat;
        assert(n / 256 < byte_pow(w1)) by (nonlinear_arith)
            requires
                n < 256 * byte_pow(w1),
        ;
        lemma_be_round_trip(n / 256, w1);
        let s = be_bytes(n, w);
        assert(s.drop_last() =~= be_bytes(n / 256, w1));
        assert(n == (n / 256) * 256 + n % 256) by (nonlinear_arith);
    }
}

pub proof fn lemma_byte_pow_8()
    ensures
        byte_pow(8) == 0x1_0000_0000_0000_0000,
        byte_pow(4) == 0x1_0000_0000,
{
    reveal_with_fuel(byte_pow, 9);
}

/// Relies on byteorder's `BigEndian::write_u64`: the eight bytes of `n`,
/// most significant first.
#[verifier::external_body]
pub(crate) fn encode_u64(n: u64) -> (r: Vec<u8>)
    ensures
        r@ == be_bytes(n as nat, 8),
{
    let mut buf = [0u8; 8];
    BigEndian::write_u64(&mut buf, n);
    buf.to_vec()
}

/// Relies on byteorder's `BigEndian::read_u64`: the number held big-endian
/// in the first eight bytes of `b`.
#[verifier::external_body]
pub(crate) fn decode_u64(b: &[u8]) -> (r: u64)
    requires
        b@.len() >= 8,
    ensures
        r as nat == be_value(b@.subrange(0, 8)),
{
    BigEndian::read_u64(b)
}

/// Relies on byteorder's `BigEndian::write_u32`: the four bytes of `n`,
/// most significant first.
#[verifier::external_body]
pub(crate) fn encode_u32(n: u32) -> (r: Vec<u8>)
    ensures
        r@ == be_bytes(n as nat, 4),
{
    let mut buf = [0u8; 4];
    BigEndian::write_u32(&mut buf, n);
    buf.to_vec()
}

} // verus!
