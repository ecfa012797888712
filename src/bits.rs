//! Numbers as fixed-width bit strings, most significant bit first.
use vstd::arithmetic::power2::{pow2, lemma_pow2_pos, lemma_pow2_unfold};
use vstd::prelude::*;

verus! {

/// Bit `i` of `n`, counting from the least significant bit.
pub open spec fn number_bit(n: nat, i: nat) -> bool {
    (n / pow2(i)) % 2 == 1
}

/// The low `width` bits of `n`, most significant first.
pub open spec fn msb_bits(n: nat, width: nat) -> Seq<bool> {
    Seq::new(width, |j: int| number_bit(n, (width - 1 - j) as nat))
}

/// The number that `bits` spell, most significant bit first.
pub open spec fn bits_value(bits: Seq<bool>) -> nat
    decreases bits.len(),
{
    if bits.len() == 0 {
        0
    } else {
        2 * bits_value(bits.drop_last()) + if bits.last() {
            1nat
        } else {
            0nat
        }
    }
}

/// Writing a number below `2^width` in `width` bits and reading them back
/// gives the number.
pub proof fn lemma_msb_bits_value(n: nat, width: nat)
    requires
        n < pow2(width),
    ensures
        bits_value(msb_bits(n, width)) == n,
    decreases width,
{
    if width == 0 {
        assert(n == 0) by {
            vstd::arithmetic::power2::lemma2_to64();
        }
    } else {
        let bits = msb_bits(n, width);
        let half = n / 2;
        lemma_pow2_unfold(width);
        lemma_pow2_pos((width - 1) as nat);
        assert(half < pow2((width - 1) as nat));
        assert forall|j: int| 0 <= j < width - 1 implies #[trigger] bits.drop_last()[j] == msb_bits(
            half,
            (width - 1) as nat,
        )[j] by {
            let k = (width - 2 - j) as nat;
            lemma_pow2_unfold(k + 1);
            lemma_pow2_pos(k);
            vstd::arithmetic::div_mod::lemma_div_denominator(n as int, 2, pow2(k) as int);
        }
        assert(bits.drop_last() =~= msb_bits(half, (width - 1) as nat));
        lemma_msb_bits_value(half, (width - 1) as nat);
        assert(pow2(0) == 1) by {
            vstd::arithmetic::power2::lemma2_to64();
        }
        assert(n / pow2(0) == n);
        assert(bits.last() == (n % 2 == 1));
    }
}

} // verus!
