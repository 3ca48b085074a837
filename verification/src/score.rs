//! Similarity scores.
//!
//! A score travels through the library as the 32 bits of an IEEE 754 binary32
//! number: one sign bit, eight exponent bits, twenty-three fraction bits. The
//! library never does arithmetic on a score; it only orders scores, and the
//! order is read off the bits.

use vstd::prelude::*;

verus! {

/// The sign bit of a score.
pub const SIGN_BIT: u32 = 0x8000_0000;

/// Everything but the sign bit.
pub const MAGNITUDE_MASK: u32 = 0x7fff_ffff;

/// The magnitude of an infinity: exponent all ones, fraction zero. Every larger
/// magnitude is a NaN.
pub const INFINITY_MAGNITUDE: u32 = 0x7f80_0000;

/// The key given to every NaN: one step below the key of negative infinity.
pub const NAN_KEY: i64 = -0x7f80_0001;

/// The score with its sign bit cleared.
pub open spec fn score_magnitude(bits: u32) -> u32 {
    bits & MAGNITUDE_MASK
}

/// Whether the sign bit is set.
pub open spec fn score_is_negative(bits: u32) -> bool {
    bits & SIGN_BIT != 0
}

/// Whether the bits encode a zero, of either sign.
pub open spec fn score_is_zero(bits: u32) -> bool {
    score_magnitude(bits) == 0
}

/// Whether the bits encode a NaN.
pub open spec fn score_is_nan(bits: u32) -> bool {
    score_magnitude(bits) > INFINITY_MAGNITUDE
}

/// The integer by which a score is ordered.
///
/// For two scores that are numbers or infinities, the one with the larger key
/// is the larger number, and equal keys mean equal numbers (both zeros have
/// key 0). Numeric comparison leaves NaN unordered against everything; the
/// key extends it to a total order by placing every NaN below negative
/// infinity, so that a malformed score ranks last.
pub open spec fn score_key(bits: u32) -> int {
    if score_is_nan(bits) {
        NAN_KEY as int
    } else if score_is_negative(bits) {
        -(score_magnitude(bits) as int)
    } else {
        score_magnitude(bits) as int
    }
}

/// Computes the ordering key of a score.
pub fn key_of_score(bits: u32) -> (key: i64)
    ensures
        key == score_key(bits),
{
    let magnitude: u32 = bits & MAGNITUDE_MASK;
    assert(magnitude <= 0x7fff_ffff) by (bit_vector)
        requires
            magnitude == bits & 0x7fff_ffff,
    ;
    if magnitude > INFINITY_MAGNITUDE {
        NAN_KEY
    } else if bits & SIGN_BIT != 0 {
        -(magnitude as i64)
    } else {
        magnitude as i64
    }
}

/// The cosine similarity of two vectors, given the Euclidean norm of each and
/// the quotient of their dot product by the product of the norms.
///
/// Where a norm is zero the quotient is not a similarity at all, and the
/// score is positive zero by convention; elsewhere the score is the quotient,
/// bit for bit.
pub open spec fn cosine_score(norm_a: u32, norm_b: u32, quotient: u32) -> u32 {
    if score_is_zero(norm_a) || score_is_zero(norm_b) {
        0
    } else {
        quotient
    }
}

/// Settles the cosine similarity of two vectors from their norms and from the
/// quotient of their dot product by the product of the norms.
pub fn cosine_from_parts(norm_a: u32, norm_b: u32, quotient: u32) -> (score: u32)
    ensures
        score == cosine_score(norm_a, norm_b, quotient),
{
    if norm_a & MAGNITUDE_MASK == 0 || norm_b & MAGNITUDE_MASK == 0 {
        0
    } else {
        quotient
    }
}

/// The convention for zero norms does not depend on the order of the vectors.
pub proof fn lemma_cosine_score_symmetric(norm_a: u32, norm_b: u32, quotient: u32)
    ensures
        cosine_score(norm_a, norm_b, quotient) == cosine_score(norm_b, norm_a, quotient),
{
}

/// Every key lies between the NaN key and the key of positive infinity.
pub proof fn lemma_score_key_range(bits: u32)
    ensures
        NAN_KEY <= score_key(bits) <= INFINITY_MAGNITUDE,
        score_is_nan(bits) <==> score_key(bits) == NAN_KEY,
{
    let magnitude = score_magnitude(bits);
    assert(magnitude <= 0x7fff_ffff) by (bit_vector)
        requires
            magnitude == bits & 0x7fff_ffff,
    ;
}

/// Two scores that are not NaN have the same key exactly when they have the
/// same bits or are the two zeros.
pub proof fn lemma_score_key_injective(a: u32, b: u32)
    requires
        !score_is_nan(a),
        !score_is_nan(b),
    ensures
        score_key(a) == score_key(b) <==> (a == b || (score_is_zero(a) && score_is_zero(b))),
{
    assert(forall|x: u32| x & 0x8000_0000 == 0 ==> x == #[trigger] (x & 0x7fff_ffff))
        by (bit_vector);
    assert(forall|x: u32|
        x & 0x8000_0000 != 0 ==> x == #[trigger] (x & 0x7fff_ffff) + 0x8000_0000)
        by (bit_vector);
}

} // verus!
