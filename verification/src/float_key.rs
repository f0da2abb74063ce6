//! Rank keys: doubles by their bits, as integers in numeric order.

use vstd::prelude::*;

verus! {

/// All bits of a double but the sign.
pub const MAGNITUDE_MASK: u64 = 0x7fff_ffff_ffff_ffff;

/// The bits of positive infinity. A magnitude above it is not a number.
pub const INFINITY_BITS: u64 = 0x7ff0_0000_0000_0000;

/// The bits of the largest finite double.
pub const MAX_FINITE_BITS: u64 = 0x7fef_ffff_ffff_ffff;

/// The magnitude of a double: its exponent and fraction, without the sign.
pub open spec fn magnitude(bits: u64) -> u64 {
    bits & MAGNITUDE_MASK
}

/// Whether the sign bit of a double is set.
pub open spec fn is_negative(bits: u64) -> bool {
    bits >> 63 == 1
}

/// Whether the bits are those of a NaN: the exponent all ones, the fraction not zero.
pub open spec fn is_nan(bits: u64) -> bool {
    magnitude(bits) > INFINITY_BITS
}

/// The integer that stands for a double in the order of the doubles.
///
/// Among doubles of one sign the magnitudes order as the numbers do, so the
/// code is the magnitude, negated under a set sign bit. Both zeros get code 0,
/// the infinities the two ends of the range.
pub open spec fn order_code(bits: u64) -> int {
    if is_negative(bits) {
        -(magnitude(bits) as int)
    } else {
        magnitude(bits) as int
    }
}

/// The bits that `to_bits` gives for a code: the inverse of `order_code` on
/// the codes of the doubles, with positive zero for code 0.
pub open spec fn code_bits(code: int) -> u64 {
    if code >= 0 {
        code as u64
    } else {
        ((-code) as u64) | 0x8000_0000_0000_0000u64
    }
}

/// The one way a key can be refused.
#[derive(Clone, Copy, Debug, PartialEq, Eq, Structural)]
pub enum DomainError {
    /// The bits are those of a NaN, which has no place in the order.
    NanKey,
}

/// A double that is not a NaN, held as its order code.
///
/// Two keys are equal exactly when the doubles compare equal, and one is less
/// than the other exactly when the doubles are.
#[derive(Clone, Copy, Debug, PartialEq, Eq, Structural)]
pub struct FloatKey {
    code: i64,
}

impl View for FloatKey {
    type V = int;

    closed spec fn view(&self) -> int {
        self.code as int
    }
}

impl FloatKey {
    #[verifier::type_invariant]
    spec fn in_range(self) -> bool {
        -(INFINITY_BITS as int) <= self.code <= INFINITY_BITS as int
    }

    /// The key of the double with the given bits, unless that is a NaN.
    pub fn new(bits: u64) -> (r: Result<FloatKey, DomainError>)
        ensures
            is_nan(bits) <==> r is Err,
            r matches Ok(k) ==> k@ == order_code(bits),
    {
        let magnitude: u64 = bits & MAGNITUDE_MASK;
        if magnitude > INFINITY_BITS {
            return Err(DomainError::NanKey);
        }
        let code: i64 = magnitude as i64;
        if bits >> 63 == 1 {
            Ok(FloatKey { code: -code })
        } else {
            Ok(FloatKey { code })
        }
    }

    /// The key of zero, the mean of an arm that was never pulled.
    pub fn zero() -> (r: FloatKey)
        ensures
            r@ == 0,
    {
        FloatKey { code: 0 }
    }

    /// The key of the largest finite double.
    pub fn max_finite() -> (r: FloatKey)
        ensures
            r@ == MAX_FINITE_BITS as int,
    {
        FloatKey { code: 0x7fef_ffff_ffff_ffff }
    }

    /// The double behind the key, as bits; zero comes back positive.
    pub fn to_bits(&self) -> (bits: u64)
        ensures
            bits == code_bits(self@),
            !is_nan(bits),
            order_code(bits) == self@,
    {
        proof {
            use_type_invariant(self);
        }
        let code: i64 = self.code;
        if code >= 0 {
            let bits: u64 = code as u64;
            assert(bits & 0x7fff_ffff_ffff_ffff == bits && bits >> 63 != 1) by (bit_vector)
                requires
                    bits <= 0x7ff0_0000_0000_0000u64,
            ;
            bits
        } else {
            let m: u64 = (-code) as u64;
            let bits: u64 = m | 0x8000_0000_0000_0000u64;
            assert(bits & 0x7fff_ffff_ffff_ffff == m && bits >> 63 == 1) by (bit_vector)
                requires
                    m <= 0x7ff0_0000_0000_0000u64,
                    bits == m | 0x8000_0000_0000_0000u64,
            ;
            bits
        }
    }

    /// The order code of the key.
    pub fn code(&self) -> (code: i64)
        ensures
            code == self@,
    {
        self.code
    }

    /// Whether this key stands before the other in the order.
    pub fn lt(&self, other: &FloatKey) -> (r: bool)
        ensures
            r == (self@ < other@),
    {
        self.code < other.code
    }

    /// Whether this key does not stand after the other in the order.
    pub fn le(&self, other: &FloatKey) -> (r: bool)
        ensures
            r == (self@ <= other@),
    {
        self.code <= other.code
    }

    /// Keys with one code are one key.
    pub proof fn lemma_view_injective(a: FloatKey, b: FloatKey)
        ensures
            a@ == b@ <==> a == b,
    {
    }
}

/// Every double that is not a NaN has a code between those of the infinities,
/// and `code_bits` leads back from the code to the double, but for the sign of zero.
pub proof fn lemma_order_code_round_trip(bits: u64)
    requires
        !is_nan(bits),
    ensures
        -(INFINITY_BITS as int) <= order_code(bits) <= INFINITY_BITS as int,
        magnitude(bits) != 0 ==> code_bits(order_code(bits)) == bits,
        magnitude(bits) == 0 ==> code_bits(order_code(bits)) == 0,
{
    assert(bits >> 63 == 1 ==> bits == (bits & 0x7fff_ffff_ffff_ffff) | 0x8000_0000_0000_0000u64)
        by (bit_vector);
    assert(bits >> 63 != 1 ==> bits == bits & 0x7fff_ffff_ffff_ffff) by (bit_vector);
}

} // verus!
