//! Fixed-width big-endian integer encoding.
use vstd::prelude::*;

verus! {

/// The eight big-endian bytes of `n`.
pub open spec fn be_bytes(n: u64) -> Seq<u8> {
    seq![
        (n >> 56u64) as u8,
        (n >> 48u64) as u8,
        (n >> 40u64) as u8,
        (n >> 32u64) as u8,
        (n >> 24u64) as u8,
        (n >> 16u64) as u8,
        (n >> 8u64) as u8,
        n as u8,
    ]
}

/// The value of the eight bytes of `s` that start at `at`, read big-endian.
pub open spec fn be_value(s: Seq<u8>, at: int) -> u64 {
    ((s[at] as u64) << 56u64) | ((s[at + 1] as u64) << 48u64) | ((s[at + 2] as u64) << 40u64)
        | ((s[at + 3] as u64) << 32u64) | ((s[at + 4] as u64) << 24u64) | ((s[at + 5] as u64)
        << 16u64) | ((s[at + 6] as u64) << 8u64) | (s[at + 7] as u64)
}

/// Reading back the bytes written for `n` gives `n`.
pub proof fn lemma_be_round_trip(n: u64)
    ensures
        be_value(be_bytes(n), 0) == n,
{
    let b = be_bytes(n);
    assert(((((n >> 56u64) as u8) as u64) << 56u64) | ((((n >> 48u64) as u8) as u64) << 48u64)
        | ((((n >> 40u64) as u8) as u64) << 40u64) | ((((n >> 32u64) as u8) as u64) << 32u64)
        | ((((n >> 24u64) as u8) as u64) << 24u64) | ((((n >> 16u64) as u8) as u64) << 16u64)
        | ((((n >> 8u64) as u8) as u64) << 8u64) | ((n as u8) as u64) == n) by (bit_vector);
}

/// Eight bytes that spell `be_bytes(x)` read back as `x`.
pub proof fn lemma_be_read(s: Seq<u8>, at: int, x: u64)
    requires
        0 <= at,
        at + 8 <= s.len(),
        s.subrange(at, at + 8) == be_bytes(x),
    ensures
        be_value(s, at) == x,
{
    assert forall|i: int| 0 <= i < 8 implies s[at + i] == be_bytes(x)[i] by {
        assert(s.subrange(at, at + 8)[i] == s[at + i]);
    }
    lemma_be_round_trip(x);
}

/// Any eight bytes are `be_bytes` of the value they spell.
pub proof fn lemma_be_bytes_of_value(s: Seq<u8>, at: int)
    requires
        0 <= at,
        at + 8 <= s.len(),
    ensures
        be_bytes(be_value(s, at)) == s.subrange(at, at + 8),
{
    let (x0, x1, x2, x3) = (s[at], s[at + 1], s[at + 2], s[at + 3]);
    let (x4, x5, x6, x7) = (s[at + 4], s[at + 5], s[at + 6], s[at + 7]);
    let v = be_value(s, at);
    assert(v == ((x0 as u64) << 56u64) | ((x1 as u64) << 48u64) | ((x2 as u64) << 40u64) | ((
    x3 as u64) << 32u64) | ((x4 as u64) << 24u64) | ((x5 as u64) << 16u64) | ((x6 as u64)
        << 8u64) | (x7 as u64));
    assert(v == ((x0 as u64) << 56u64) | ((x1 as u64) << 48u64) | ((x2 as u64) << 40u64) | ((
    x3 as u64) << 32u64) | ((x4 as u64) << 24u64) | ((x5 as u64) << 16u64) | ((x6 as u64)
        << 8u64) | (x7 as u64) ==> (v >> 56u64) as u8 == x0 && (v >> 48u64) as u8 == x1 && (v
        >> 40u64) as u8 == x2 && (v >> 32u64) as u8 == x3 && (v >> 24u64) as u8 == x4 && (v
        >> 16u64) as u8 == x5 && (v >> 8u64) as u8 == x6 && v as u8 == x7) by (bit_vector);
    assert(be_bytes(v) =~= s.subrange(at, at + 8));
}

/// A signed value survives the trip through its two's complement bits.
pub proof fn lemma_i64_bits(x: i64)
    ensures
        (#[verifier::truncate] (x as u64)) as i64 == x,
{
    assert((#[verifier::truncate] (x as u64)) as i64 == x) by (bit_vector);
}

/// Bits survive the trip through the signed value they spell.
pub proof fn lemma_u64_bits(v: u64)
    ensures
        (#[verifier::truncate] (v as i64)) as u64 == v,
{
    assert((#[verifier::truncate] (v as i64)) as u64 == v) by (bit_vector);
}

/// Appends the eight big-endian bytes of `n` to `out`.
pub fn push_u64(out: &mut Vec<u8>, n: u64)
    ensures
        final(out)@ == old(out)@ + be_bytes(n),
{
    out.push((n >> 56u64) as u8);
    out.push((n >> 48u64) as u8);
    out.push((n >> 40u64) as u8);
    out.push((n >> 32u64) as u8);
    out.push((n >> 24u64) as u8);
    out.push((n >> 16u64) as u8);
    out.push((n >> 8u64) as u8);
    out.push(n as u8);
    assert(final(out)@ =~= old(out)@ + be_bytes(n));
}

/// Reads the eight big-endian bytes of `b` that start at `at`.
pub fn read_u64(b: &[u8], at: usize) -> (r: u64)
    requires
        at + 8 <= b@.len(),
    ensures
        r == be_value(b@, at as int),
{
    ((b[at] as u64) << 56u64) | ((b[at + 1] as u64) << 48u64) | ((b[at + 2] as u64) << 40u64)
        | ((b[at + 3] as u64) << 32u64) | ((b[at + 4] as u64) << 24u64) | ((b[at + 5] as u64)
        << 16u64) | ((b[at + 6] as u64) << 8u64) | (b[at + 7] as u64)
}

} // verus!
