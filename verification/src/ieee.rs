//! Order and zero tests on IEEE 754 single-precision values held by their bit patterns.
use vstd::prelude::*;

verus! {

/// The bits of the sign.
pub open spec fn sign_bit() -> int {
    0x8000_0000
}

/// Exponent and fraction bits, read as one unsigned number.
pub open spec fn magnitude(bits: u32) -> int {
    bits as int % sign_bit()
}

/// The pattern encodes a NaN: all exponent bits set and a nonzero fraction.
pub open spec fn is_nan(bits: u32) -> bool {
    magnitude(bits) > 0x7f80_0000
}

/// The pattern encodes `+0.0` or `-0.0`.
pub open spec fn is_zero(bits: u32) -> bool {
    magnitude(bits) == 0
}

/// For a pattern that is not a NaN, an integer that orders patterns as the
/// values they encode are ordered (both zeros map to 0).
pub open spec fn order_key(bits: u32) -> int {
    if bits as int >= sign_bit() {
        -magnitude(bits)
    } else {
        magnitude(bits)
    }
}

/// `a < b` on the encoded values: false as soon as either one is a NaN.
pub open spec fn value_lt(a: u32, b: u32) -> bool {
    !is_nan(a) && !is_nan(b) && order_key(a) < order_key(b)
}

/// `a <= b` on the encoded values: false as soon as either one is a NaN.
pub open spec fn value_le(a: u32, b: u32) -> bool {
    !is_nan(a) && !is_nan(b) && order_key(a) <= order_key(b)
}

/// The bit pattern of `+0.0`.
pub const ZERO: u32 = 0;

/// Compares the values that two bit patterns encode, as `<` does on them.
pub fn less_than(a: u32, b: u32) -> (lt: bool)
    ensures
        lt == value_lt(a, b),
{
    let mag_a: u32 = a % 0x8000_0000;
    let mag_b: u32 = b % 0x8000_0000;
    if mag_a > 0x7f80_0000 || mag_b > 0x7f80_0000 {
        return false;
    }
    let key_a: i64 = if a >= 0x8000_0000 {
        -(mag_a as i64)
    } else {
        mag_a as i64
    };
    let key_b: i64 = if b >= 0x8000_0000 {
        -(mag_b as i64)
    } else {
        mag_b as i64
    };
    key_a < key_b
}

/// Whether the encoded value differs from zero, as `!=` against `0.0` does
/// (a NaN differs from zero).
pub fn is_nonzero(bits: u32) -> (nonzero: bool)
    ensures
        nonzero == !is_zero(bits),
{
    bits % 0x8000_0000 != 0
}

/// `<` is transitive on encoded values.
pub proof fn lemma_lt_transitive(a: u32, b: u32, c: u32)
    requires
        value_lt(a, b),
        value_lt(b, c),
    ensures
        value_lt(a, c),
{
}

/// `x < a` and `a <= b` give `x < b`.
pub proof fn lemma_lt_le_transitive(x: u32, a: u32, b: u32)
    requires
        value_lt(x, a),
        value_le(a, b),
    ensures
        value_lt(x, b),
{
}

/// `a <= b` and `b < c` give `a < c`.
pub proof fn lemma_le_lt_transitive(a: u32, b: u32, c: u32)
    requires
        value_le(a, b),
        value_lt(b, c),
    ensures
        value_lt(a, c),
{
}

/// No encoded value is below itself, and a NaN is below nothing.
pub proof fn lemma_lt_irreflexive(a: u32)
    ensures
        !value_lt(a, a),
{
}

} // verus!
