//! Mathematical model of little-endian bit vectors.
use vstd::arithmetic::div_mod::*;
use vstd::arithmetic::power2::*;
use vstd::prelude::*;

verus! {

/// The number that a bit sequence of form <LSB...MSB> denotes.
pub open spec fn bits_value(bits: Seq<bool>) -> nat
    decreases bits.len(),
{
    if bits.len() == 0 {
        0
    } else {
        bits_value(bits.drop_last()) + if bits.last() {
            pow2((bits.len() - 1) as nat)
        } else {
            0
        }
    }
}

/// Bit `i` of the number `x`.
pub open spec fn bit_of(x: nat, i: nat) -> bool {
    (x / pow2(i)) % 2 == 1
}

/// The lowest `len` bits of `x`, in the form <LSB...MSB>.
pub open spec fn low_bits(x: nat, len: nat) -> Seq<bool> {
    Seq::new(len, |i: int| bit_of(x, i as nat))
}

/// Appending a bit adds it at the next power of two.
pub proof fn lemma_bits_value_push(bits: Seq<bool>, b: bool)
    ensures
        bits_value(bits.push(b)) == bits_value(bits) + if b {
            pow2(bits.len())
        } else {
            0
        },
{
    assert(bits.push(b).drop_last() =~= bits);
}

/// A bit sequence of length `n` denotes a number below `2^n`.
pub proof fn lemma_bits_value_bound(bits: Seq<bool>)
    ensures
        bits_value(bits) < pow2(bits.len()),
    decreases bits.len(),
{
    lemma_pow2_pos(0);
    if bits.len() > 0 {
        lemma_bits_value_bound(bits.drop_last());
        lemma_pow2_unfold(bits.len());
    }
}

/// The lowest `len` bits of `x` denote `x mod 2^len`.
pub proof fn lemma_low_bits_value(x: nat, len: nat)
    ensures
        bits_value(low_bits(x, len)) == x % pow2(len),
    decreases len,
{
    if len == 0 {
        lemma2_to64();
    } else {
        let n = (len - 1) as nat;
        lemma_low_bits_value(x, n);
        assert(low_bits(x, len).drop_last() =~= low_bits(x, n));
        lemma_pow2_pos(n);
        lemma_mod_breakdown(x as int, pow2(n) as int, 2);
        lemma_pow2_unfold(len);
        assert(pow2(n) * 2 == pow2(len));
        let q = (x / pow2(n)) % 2;
        lemma_mod_bound((x / pow2(n)) as int, 2);
        if q == 1 {
            assert(pow2(n) * q == pow2(n));
        } else {
            assert(q == 0);
            assert(pow2(n) * q == 0);
        }
    }
}

/// Two bit sequences of one length that denote the same number are equal.
pub proof fn lemma_bits_value_injective(s: Seq<bool>, t: Seq<bool>)
    requires
        s.len() == t.len(),
        bits_value(s) == bits_value(t),
    ensures
        s == t,
    decreases s.len(),
{
    if s.len() > 0 {
        let n = (s.len() - 1) as nat;
        lemma_bits_value_bound(s.drop_last());
        lemma_bits_value_bound(t.drop_last());
        assert(s.last() == t.last());
        lemma_bits_value_injective(s.drop_last(), t.drop_last());
        assert(s =~= s.drop_last().push(s.last()));
        assert(t =~= t.drop_last().push(t.last()));
    }
}

/// A bit sequence is the sequence of the lowest bits of the number it denotes.
pub proof fn lemma_bits_of_value(s: Seq<bool>)
    ensures
        low_bits(bits_value(s), s.len()) == s,
{
    let x = bits_value(s);
    lemma_low_bits_value(x, s.len());
    lemma_bits_value_bound(s);
    lemma_small_mod(x, pow2(s.len()));
    lemma_bits_value_injective(low_bits(x, s.len()), s);
}

} // verus!
