//! Geocode prefixes and coverage values held as IEEE-754 bit patterns.
use vstd::prelude::*;
use vstd::string::StringSliceAdditionalSpecFns;

verus! {

/// `p` is a prefix of `s`.
pub open spec fn is_prefix(p: Seq<u8>, s: Seq<u8>) -> bool {
    p.len() <= s.len() && s.subrange(0, p.len() as int) == p
}

/// Whether the bytes of `s` begin with the bytes of `p`.
pub fn starts_with(s: &str, p: &str) -> (r: bool)
    ensures
        r == is_prefix(p.spec_bytes(), s.spec_bytes()),
{
    let sb = s.as_bytes();
    let pb = p.as_bytes();
    if pb.len() > sb.len() {
        return false;
    }
    let mut i: usize = 0;
    while i < pb.len()
        invariant
            sb@ == s.spec_bytes(),
            pb@ == p.spec_bytes(),
            pb@.len() <= sb@.len(),
            i <= pb@.len(),
            forall|j: int| 0 <= j < i ==> sb@[j] == pb@[j],
        decreases pb@.len() - i,
    {
        if sb[i] != pb[i] {
            assert(sb@.subrange(0, pb@.len() as int)[i as int] != pb@[i as int]);
            return false;
        }
        i += 1;
    }
    assert(sb@.subrange(0, pb@.len() as int) =~= pb@);
    true
}

pub const SIGN_BIT: u64 = 0x8000_0000_0000_0000;
pub const EXPONENT_MASK: u64 = 0x7ff0_0000_0000_0000;
pub const MANTISSA_MASK: u64 = 0x000f_ffff_ffff_ffff;

/// The bit pattern is a NaN: all exponent bits set, mantissa nonzero.
pub open spec fn is_nan_bits(b: u64) -> bool {
    (b & EXPONENT_MASK) == EXPONENT_MASK && (b & MANTISSA_MASK) != 0
}

/// The bit pattern is positive or negative zero.
pub open spec fn is_zero_bits(b: u64) -> bool {
    b == 0 || b == SIGN_BIT
}

/// A key whose integer order is the order of the (non-NaN) values: the
/// magnitude bits, negated where the sign bit is set.
pub open spec fn order_key(b: u64) -> int {
    if b >= SIGN_BIT {
        -((b - SIGN_BIT) as int)
    } else {
        b as int
    }
}

/// `a >= b` on the binary64 values that the bit patterns stand for.
pub open spec fn float_ge(a: u64, b: u64) -> bool {
    !is_nan_bits(a) && !is_nan_bits(b) && order_key(a) >= order_key(b)
}

pub fn is_nan(b: u64) -> (r: bool)
    ensures
        r == is_nan_bits(b),
{
    (b & EXPONENT_MASK) == EXPONENT_MASK && (b & MANTISSA_MASK) != 0
}

pub fn is_zero(b: u64) -> (r: bool)
    ensures
        r == is_zero_bits(b),
{
    b == 0 || b == SIGN_BIT
}

/// `a >= b` on the binary64 values that the bit patterns stand for.
pub fn coverage_ge(a: u64, b: u64) -> (r: bool)
    ensures
        r == float_ge(a, b),
{
    if is_nan(a) || is_nan(b) {
        return false;
    }
    let a_neg = a >= SIGN_BIT;
    let b_neg = b >= SIGN_BIT;
    if a_neg && b_neg {
        a - SIGN_BIT <= b - SIGN_BIT
    } else if a_neg {
        a - SIGN_BIT == 0 && b == 0
    } else if b_neg {
        true
    } else {
        a >= b
    }
}

} // verus!
