use vstd::prelude::*;

verus! {

/// Whether the 32-bit IEEE-754 pattern `bits` is a NaN: all exponent bits set
/// and a nonzero fraction.
pub open spec fn is_nan_bits(bits: u32) -> bool {
    (bits & 0x7fff_ffffu32) > 0x7f80_0000u32
}

/// The place of the single-precision time with bit pattern `bits` in the total
/// order of times: for a number, its magnitude bits with the sign of the number
/// (IEEE-754 orders numbers of one sign by their magnitude bits, so this follows
/// the numbers' order, and both zeros stand at 0); every NaN stands just above
/// positive infinity (magnitude `0x7f80_0000`), equal to every other NaN.
pub open spec fn time_rank(bits: u32) -> int {
    let mag = (bits & 0x7fff_ffffu32) as int;
    if is_nan_bits(bits) {
        0x7f80_0001
    } else if (bits >> 31u32) == 0 {
        mag
    } else {
        -mag
    }
}

/// The queue key of the time with bit pattern `bits`: its rank shifted to be
/// non-negative, so that keys compare as the times do.
pub fn time_key(bits: u32) -> (k: u32)
    ensures
        k == time_rank(bits) + 0x7f80_0000,
{
    let mag = bits & 0x7fff_ffffu32;
    assert(mag <= 0x7fff_ffffu32) by (bit_vector)
        requires
            mag == bits & 0x7fff_ffffu32,
    ;
    if mag > 0x7f80_0000u32 {
        0xff00_0001u32
    } else if (bits >> 31u32) == 0 {
        mag + 0x7f80_0000u32
    } else {
        0x7f80_0000u32 - mag
    }
}

/// A NaN time stands after every time that is a number, infinities included.
pub proof fn law_nan_is_latest(number: u32, nan: u32)
    requires
        !is_nan_bits(number),
        is_nan_bits(nan),
    ensures
        time_rank(number) < time_rank(nan),
{
}

/// The magnitude bits of a single-precision pattern (all but the sign).
pub open spec fn magnitude(bits: u32) -> int {
    (bits & 0x7fff_ffffu32) as int
}

/// Whether the sign bit of a single-precision pattern is set.
pub open spec fn negative(bits: u32) -> bool {
    (bits >> 31u32) != 0
}

/// Ranks follow the numbers' order, which IEEE-754 gives by sign and
/// magnitude: among positive numbers the larger magnitude is later, among
/// negative ones the larger magnitude is earlier, every negative number other
/// than a zero is earlier than every positive one, and the two zeros coincide.
pub proof fn law_time_rank_follows_number_order(a: u32, b: u32)
    requires
        !is_nan_bits(a),
        !is_nan_bits(b),
    ensures
        !negative(a) && !negative(b) && magnitude(a) < magnitude(b) ==> time_rank(a) < time_rank(b),
        negative(a) && negative(b) && magnitude(b) < magnitude(a) ==> time_rank(a) < time_rank(b),
        negative(a) && !negative(b) && (magnitude(a) > 0 || magnitude(b) > 0) ==> time_rank(a)
            < time_rank(b),
        magnitude(a) == 0 && magnitude(b) == 0 ==> time_rank(a) == time_rank(b),
        negative(a) == negative(b) && magnitude(a) == magnitude(b) ==> time_rank(a) == time_rank(b),
        time_rank(a) == time_rank(b) ==> (negative(a) == negative(b) && magnitude(a) == magnitude(b))
            || (magnitude(a) == 0 && magnitude(b) == 0),
{
    assert((a >> 31u32) == 0 || (a >> 31u32) == 1) by (bit_vector);
    assert((b >> 31u32) == 0 || (b >> 31u32) == 1) by (bit_vector);
}

/// Every NaN pattern gets the same rank, whatever its sign and payload.
pub proof fn law_nans_coincide(a: u32, b: u32)
    requires
        is_nan_bits(a),
        is_nan_bits(b),
    ensures
        time_rank(a) == time_rank(b),
{
}

} // verus!
