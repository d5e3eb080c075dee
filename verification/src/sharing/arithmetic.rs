//! Arithmetic shares: elements of the ring of integers modulo 2^16.
use super::Sharing;
use vstd::arithmetic::div_mod::*;
use vstd::arithmetic::mul::*;
use super::bits::{bits_value, lemma_bits_value_bound, lemma_bits_value_push, lemma_low_bits_value, low_bits};
use vstd::arithmetic::power2::*;
use vstd::bits::*;
use vstd::prelude::*;

verus! {

/// An arithmetic share, an integer modulo 2^16.
pub type ArithShare = u16;

/// Sharing over the integers modulo 2^16.
pub struct Arithmetic;

impl Arithmetic {
    /// Returns [`BitShare`](super::binary::BitShare) vector of form: <LSB...MSB>
    pub fn to_binary(a: ArithShare) -> (bits: Vec<bool>)
        ensures
            bits@ == low_bits(a as nat, 16),
            bits_value(bits@) == a,
    {
        let mut bits: Vec<bool> = Vec::new();
        let mut i: u32 = 0;
        while i < 16
            invariant
                i <= 16,
                bits@ == low_bits(a as nat, i as nat),
            decreases 16 - i,
        {
            let b = (1 & a >> i) == 1;
            proof {
                let s = i as u16;
                assert((1 & a >> i) == (1 & (a >> s))) by (bit_vector)
                    requires
                        i < 16,
                        s == i,
                ;
                assert(((1 & (a >> s)) == 1) == ((a >> s) % 2 == 1)) by (bit_vector);
                lemma_u16_shr_is_div(a, s);
                assert(bits@.push(b) =~= low_bits(a as nat, (i + 1) as nat));
            }
            bits.push(b);
            i = i + 1;
        }
        proof {
            lemma_low_bits_value(a as nat, 16);
            lemma2_to64();
            vstd::arithmetic::div_mod::lemma_small_mod(a as nat, pow2(16));
        }
        bits
    }
}

} // verus!

verus! {

impl Sharing for Arithmetic {
    type Share = ArithShare;

    open spec fn zero_spec() -> ArithShare {
        0
    }

    open spec fn add_spec(a: ArithShare, b: ArithShare) -> ArithShare {
        ((a + b) % 0x10000) as u16
    }

    open spec fn sub_spec(a: ArithShare, b: ArithShare) -> ArithShare {
        ((a - b) % 0x10000) as u16
    }

    open spec fn mul_spec(a: ArithShare, b: ArithShare) -> ArithShare {
        ((a * b) % 0x10000) as u16
    }

    open spec fn from_word_spec(w: u32) -> ArithShare {
        (w % 0x10000) as u16
    }

    proof fn lemma_ring(a: ArithShare, b: ArithShare, c: ArithShare) {
        let m: int = 0x10000;
        let (x, y, z) = (a as int, b as int, c as int);
        // associativity
        lemma_add_mod_noop((x + y) % m, z, m);
        lemma_mod_mod(x + y, m, 1);
        lemma_add_mod_noop(x + y, z, m);
        lemma_mod_mod(z, m, 1);
        lemma_add_mod_noop(x, (y + z) % m, m);
        lemma_mod_mod(y + z, m, 1);
        lemma_add_mod_noop(x, y + z, m);
        lemma_mod_mod(x, m, 1);
        lemma_mod_bound(x + y, m);
        lemma_mod_bound(y + z, m);
        // identity
        lemma_small_mod(a as nat, m as nat);
        // subtraction
        lemma_mod_bound(x - y, m);
        lemma_add_mod_noop(x - y, y, m);
        lemma_mod_mod(x - y, m, 1);
        lemma_add_mod_noop((x - y) % m, y, m);
        lemma_mod_mod(y, m, 1);
        // multiplication
        lemma_mul_is_commutative(x, y);
        lemma_mul_mod_noop_right(x, y + z, m);
        lemma_mul_is_distributive_add(x, y, z);
        lemma_add_mod_noop(x * y, x * z, m);
        lemma_mod_bound(x * y, m);
        lemma_mod_bound(x * z, m);
        lemma_mod_bound(x * ((y + z) % m), m);
        lemma_mul_basics(x);
        lemma_small_mod(0, m as nat);
    }

    fn zero() -> (r: ArithShare) {
        0
    }

    fn from_word(w: u32) -> (r: ArithShare) {
        proof {
            assert(#[verifier::truncate] (w as u16) == w % 0x10000) by (bit_vector);
        }
        #[verifier::truncate]
        (w as u16)
    }

    fn add(a: ArithShare, b: ArithShare) -> (r: ArithShare) {
        a.wrapping_add(b)
    }

    fn sub(a: ArithShare, b: ArithShare) -> (r: ArithShare) {
        a.wrapping_sub(b)
    }

    fn mul(a: ArithShare, b: ArithShare) -> (r: ArithShare) {
        a.wrapping_mul(b)
    }
}

} // verus!
