//! Binary shares: elements of the field with two elements.
use super::arithmetic::ArithShare;
use super::Sharing;
use super::bits::{bits_value, lemma_bits_of_value, lemma_bits_value_bound, lemma_bits_value_push, lemma_low_bits_value, low_bits};
use vstd::arithmetic::power2::*;
use vstd::bits::*;
use vstd::prelude::*;

verus! {

/// A binary share, a bit.
pub type BitShare = bool;

/// Sharing over the bits, where addition is exclusive or.
pub struct Binary;

/// Converting to bits and back gives the same share, and converting sixteen
/// bits to a share and back gives the same bits.
pub proof fn lemma_binary_roundtrip(x: ArithShare, bits: Seq<bool>)
    ensures
        bits_value(low_bits(x as nat, 16)) == x,
        bits.len() == 16 ==> bits_value(bits) <= u16::MAX && low_bits(bits_value(bits), 16) == bits,
{
    lemma_low_bits_value(x as nat, 16);
    lemma2_to64();
    vstd::arithmetic::div_mod::lemma_small_mod(x as nat, pow2(16));
    if bits.len() == 16 {
        lemma_bits_value_bound(bits);
        lemma_bits_of_value(bits);
    }
}

impl Binary {
    /// Given [`BitShare`] vector of form <LSB...MSB>, return an [`ArithShare`]
    ///
    /// The vector must hold exactly as many bits as an [`ArithShare`].
    pub fn to_arithmetic(bits: Vec<BitShare>) -> (r: ArithShare)
        requires
            bits.len() == 16,
        ensures
            r == bits_value(bits@),
    {
        let mut arith_share: ArithShare = 0;
        let mut i: usize = 0;
        while i < bits.len()
            invariant
                i <= bits.len() == 16,
                arith_share == bits_value(bits@.take(i as int)),
            decreases bits.len() - i,
        {
            proof {
                lemma_bits_value_bound(bits@.take(i as int));
                assert(bits@.take(i as int).push(bits@[i as int]) =~= bits@.take(i + 1));
                lemma_bits_value_push(bits@.take(i as int), bits@[i as int]);
            }
            if bits[i] {
                let s = i as u16;
                proof {
                    lemma_u16_pow2_no_overflow(s as nat);
                    lemma_u16_shl_is_mul(1, s);
                    assert(arith_share < (1u16 << s));
                    assert((arith_share | (1u16 << s)) == arith_share + (1u16 << s)) by (bit_vector)
                        requires
                            s < 16,
                            arith_share < (1u16 << s),
                    ;
                }
                arith_share = arith_share | (1u16 << s);
            }
            i = i + 1;
        }
        proof {
            assert(bits@.take(16) =~= bits@);
        }
        arith_share
    }
}

} // verus!

verus! {

impl Sharing for Binary {
    type Share = BitShare;

    open spec fn zero_spec() -> BitShare {
        false
    }

    open spec fn add_spec(a: BitShare, b: BitShare) -> BitShare {
        a != b
    }

    open spec fn sub_spec(a: BitShare, b: BitShare) -> BitShare {
        a != b
    }

    open spec fn mul_spec(a: BitShare, b: BitShare) -> BitShare {
        a && b
    }

    open spec fn from_word_spec(w: u32) -> BitShare {
        w % 2 == 1
    }

    proof fn lemma_ring(a: BitShare, b: BitShare, c: BitShare) {
    }

    fn zero() -> (r: BitShare) {
        false
    }

    fn from_word(w: u32) -> (r: BitShare) {
        proof {
            assert(((w & 1) == 1) == (w % 2 == 1)) by (bit_vector);
        }
        w & 1 == 1
    }

    fn add(a: BitShare, b: BitShare) -> (r: BitShare) {
        a ^ b
    }

    fn sub(a: BitShare, b: BitShare) -> (r: BitShare) {
        a ^ b
    }

    fn mul(a: BitShare, b: BitShare) -> (r: BitShare) {
        a && b
    }
}

} // verus!
