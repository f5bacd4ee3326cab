use vstd::prelude::*;

verus! {

use vstd::std_specs::bits::{u64_leading_zeros, axiom_u64_leading_zeros};

/// The number of significant bits of `x` (0 for 0).
pub open spec fn bit_length(x: u64) -> int {
    64 - u64_leading_zeros(x)
}

/// How far the keys' offsets from the minimum are shifted right so that the
/// largest offset `diff` keeps at most `radix_bits` significant bits.
pub open spec fn spec_num_shift_bits(diff: u64, radix_bits: u64) -> int {
    if bit_length(diff) < radix_bits {
        0
    } else {
        bit_length(diff) - radix_bits
    }
}

/// Shifting by `spec_num_shift_bits` leaves an offset of at most
/// `radix_bits` significant bits, and the shift is below 64 once at least
/// one radix bit is asked for.
pub proof fn lemma_num_shift_bits(diff: u64, radix_bits: u64)
    ensures
        0 <= u64_leading_zeros(diff) <= 64,
        0 <= spec_num_shift_bits(diff, radix_bits) <= 64,
        radix_bits >= 1 ==> spec_num_shift_bits(diff, radix_bits) < 64,
        radix_bits < 64 ==> (diff >> (spec_num_shift_bits(diff, radix_bits) as u64)) < (1u64
            << radix_bits),
        radix_bits < 64 && spec_num_shift_bits(diff, radix_bits) > 0 ==> (diff >> ((
        spec_num_shift_bits(diff, radix_bits) - 1) as u64)) >= (1u64 << radix_bits),
{
    axiom_u64_leading_zeros(diff);
    let lz = u64_leading_zeros(diff) as u64;
    assert(diff >> ((64 - lz) as u64) == 0);
    if bit_length(diff) < radix_bits {
        assert((diff >> ((64 - lz) as u64)) == 0u64 && lz <= 64 && 64 - lz < radix_bits
            && radix_bits < 64 ==> (diff >> 0u64) < (1u64 << radix_bits)) by (bit_vector);
    } else {
        let r = (64 - radix_bits - lz) as u64;
        if radix_bits < 64 && r > 0 {
            assert(lz < 64);
            assert((diff >> ((63 - lz) as u64)) & 1u64 != 0u64);
            let r1 = (r - 1) as u64;
            assert((diff >> ((63 - lz) as u64)) & 1u64 != 0u64 && lz < 64 && radix_bits < 64 && r1
                == 63 - lz - radix_bits ==> (diff >> r1) >= (1u64 << radix_bits)) by (bit_vector);
        }
        assert((diff >> ((64 - lz) as u64)) == 0u64 && lz <= 64 && radix_bits <= 64 - lz && r == 64
            - radix_bits - lz && radix_bits < 64 ==> (diff >> r) < (1u64 << radix_bits))
            by (bit_vector);
    }
}

/// The shift that leaves `radix_bits` significant bits of `diff`.
pub fn num_shift_bits(diff: u64, radix_bits: u64) -> (r: u64)
    ensures
        r == spec_num_shift_bits(diff, radix_bits),
        r <= 64,
        radix_bits < 64 ==> (diff >> r) < (1u64 << radix_bits),
        radix_bits < 64 && r > 0 ==> (diff >> ((r - 1) as u64)) >= (1u64 << radix_bits),
{
    proof {
        lemma_num_shift_bits(diff, radix_bits);
    }
    let leading_zeros = diff.leading_zeros() as u64;
    if 64 - leading_zeros < radix_bits {
        0
    } else {
        64 - radix_bits - leading_zeros
    }
}

} // verus!
