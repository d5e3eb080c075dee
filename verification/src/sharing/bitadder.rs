//! Adders of bit vectors, generic over how bits are held and operated on.
use super::arithmetic::Arithmetic;
use super::bits::{bits_value, lemma_bits_value_bound, lemma_bits_value_injective, lemma_bits_value_push, lemma_low_bits_value, low_bits};
use super::Sharing;
use crate::error::Error;
use vstd::arithmetic::power2::*;
use vstd::prelude::*;

verus! {

/// Operations on bits, which may be held in any form (plain or secret shared).
pub trait BitOps: Sized {
    type Bit;

    /// What the operations leave unchanged, and all that the meaning of a bit depends on.
    type Params;

    spec fn params(&self) -> Self::Params;

    /// The invariant of the operator.
    spec fn inv(&self) -> bool;

    /// `b` is a well-formed bit.
    spec fn is_bit(p: Self::Params, b: Self::Bit) -> bool;

    /// The truth value that the bit `b` holds.
    spec fn bit_value(p: Self::Params, b: Self::Bit) -> bool;

    /// The errors that the operations may fail with.
    spec fn op_error(p: Self::Params, e: Error) -> bool;

    /// How many AND operations have been made so far.
    spec fn n_and(&self) -> nat;

    /// How many XOR operations have been made so far.
    spec fn n_xor(&self) -> nat;

    /// How many zero bits have been made so far.
    spec fn n_zero(&self) -> nat;

    /// How many draws from an outside random source have failed so far.
    spec fn failures(&self) -> nat;

    fn xor(&mut self, a: &Self::Bit, b: &Self::Bit) -> (r: Result<Self::Bit, Error>)
        requires
            old(self).inv(),
            Self::is_bit(old(self).params(), *a),
            Self::is_bit(old(self).params(), *b),
        ensures
            final(self).inv(),
            final(self).params() == old(self).params(),
            final(self).n_and() == old(self).n_and(),
            final(self).n_xor() == old(self).n_xor() + 1,
            final(self).n_zero() == old(self).n_zero(),
            final(self).failures() >= old(self).failures(),
            r is Err ==> final(self).failures() > old(self).failures(),
            r matches Err(e) ==> Self::op_error(old(self).params(), e),
            r matches Ok(c) ==> Self::is_bit(old(self).params(), c) && Self::bit_value(
                old(self).params(),
                c,
            ) == (Self::bit_value(old(self).params(), *a) != Self::bit_value(
                old(self).params(),
                *b,
            )),
    ;

    fn and(&mut self, a: &Self::Bit, b: &Self::Bit) -> (r: Result<Self::Bit, Error>)
        requires
            old(self).inv(),
            Self::is_bit(old(self).params(), *a),
            Self::is_bit(old(self).params(), *b),
        ensures
            final(self).inv(),
            final(self).params() == old(self).params(),
            final(self).n_and() == old(self).n_and() + 1,
            final(self).n_xor() == old(self).n_xor(),
            final(self).n_zero() == old(self).n_zero(),
            final(self).failures() >= old(self).failures(),
            r is Err ==> final(self).failures() > old(self).failures(),
            r matches Err(e) ==> Self::op_error(old(self).params(), e),
            r matches Ok(c) ==> Self::is_bit(old(self).params(), c) && Self::bit_value(
                old(self).params(),
                c,
            ) == (Self::bit_value(old(self).params(), *a) && Self::bit_value(
                old(self).params(),
                *b,
            )),
    ;

    fn zero(&mut self) -> (r: Result<Self::Bit, Error>)
        requires
            old(self).inv(),
        ensures
            final(self).inv(),
            final(self).params() == old(self).params(),
            final(self).n_and() == old(self).n_and(),
            final(self).n_xor() == old(self).n_xor(),
            final(self).n_zero() == old(self).n_zero() + 1,
            final(self).failures() >= old(self).failures(),
            r is Err ==> final(self).failures() > old(self).failures(),
            r matches Err(e) ==> Self::op_error(old(self).params(), e),
            r matches Ok(c) ==> Self::is_bit(old(self).params(), c) && !Self::bit_value(
                old(self).params(),
                c,
            ),
    ;
}

/// The choice of adder for summing bit vectors.
#[derive(Clone, Copy, Debug, PartialEq, Eq, Structural)]
pub enum BitAdder {
    /// Ripple-carry addition with full adders.
    FullAdder,
    /// Parallel-prefix addition.
    ParallelPrefix,
}

/// Bits held in the clear, operated on directly.
pub struct PlainBits {
    ands: Ghost<nat>,
    xors: Ghost<nat>,
    zeros: Ghost<nat>,
}

impl PlainBits {
    /// Plain bits that have made no AND yet.
    pub fn new() -> (r: Self)
        ensures
            r.n_and() == 0,
            r.n_xor() == 0,
            r.n_zero() == 0,
    {
        PlainBits { ands: Ghost(0), xors: Ghost(0), zeros: Ghost(0) }
    }
}

impl BitOps for PlainBits {
    type Bit = bool;

    type Params = ();

    open spec fn params(&self) -> () {
        ()
    }

    open spec fn inv(&self) -> bool {
        true
    }

    open spec fn is_bit(p: (), b: bool) -> bool {
        true
    }

    open spec fn bit_value(p: (), b: bool) -> bool {
        b
    }

    open spec fn op_error(p: (), e: Error) -> bool {
        false
    }

    closed spec fn n_and(&self) -> nat {
        self.ands@
    }

    closed spec fn n_xor(&self) -> nat {
        self.xors@
    }

    closed spec fn n_zero(&self) -> nat {
        self.zeros@
    }

    open spec fn failures(&self) -> nat {
        0
    }

    fn xor(&mut self, a: &bool, b: &bool) -> (r: Result<bool, Error>) {
        proof {
            self.xors@ = self.xors@ + 1;
        }
        Ok(*a != *b)
    }

    fn and(&mut self, a: &bool, b: &bool) -> (r: Result<bool, Error>) {
        proof {
            self.ands@ = self.ands@ + 1;
        }
        Ok(*a && *b)
    }

    fn zero(&mut self) -> (r: Result<bool, Error>) {
        proof {
            self.zeros@ = self.zeros@ + 1;
        }
        Ok(false)
    }
}

/// The truth values of a vector of bits.
pub open spec fn values<T: BitOps>(p: T::Params, bits: Seq<T::Bit>) -> Seq<bool> {
    bits.map_values(|b: T::Bit| T::bit_value(p, b))
}

/// Every element is a well-formed bit.
pub open spec fn all_bits<T: BitOps>(p: T::Params, bits: Seq<T::Bit>) -> bool {
    forall|i: int| 0 <= i < bits.len() ==> T::is_bit(p, #[trigger] bits[i])
}

/// The carry into position `i` when the bits `l..i` of `a` and `b` are
/// added with carry `c` into position `l`.
pub open spec fn carry(a: Seq<bool>, b: Seq<bool>, l: int, i: int, c: bool) -> bool
    decreases i - l,
{
    if i <= l {
        c
    } else {
        let cj = carry(a, b, l, i - 1, c);
        (a[i - 1] && b[i - 1]) || ((a[i - 1] != b[i - 1]) && cj)
    }
}

/// The range `l..r` generates a carry by itself.
pub open spec fn generates(a: Seq<bool>, b: Seq<bool>, l: int, r: int) -> bool {
    carry(a, b, l, r, false)
}

/// The range `l..r` passes a carry on.
pub open spec fn propagates(a: Seq<bool>, b: Seq<bool>, l: int, r: int) -> bool {
    forall|i: int| l <= i < r ==> a[i] != b[i]
}

/// The bits of the sum of two bit vectors of one length, modulo 2^length.
pub open spec fn add_bits(a: Seq<bool>, b: Seq<bool>) -> Seq<bool> {
    Seq::new(a.len(), |i: int| (a[i] != b[i]) != carry(a, b, 0, i, false))
}

/// The carry out of `l..r` is generated there, or propagated from the carry in.
pub proof fn lemma_carry_split(a: Seq<bool>, b: Seq<bool>, l: int, r: int, c: bool)
    requires
        l <= r,
    ensures
        carry(a, b, l, r, c) == (generates(a, b, l, r) || (propagates(a, b, l, r) && c)),
        propagates(a, b, l, r) ==> !generates(a, b, l, r),
    decreases r - l,
{
    if r > l {
        lemma_carry_split(a, b, l, r - 1, c);
        lemma_carry_split(a, b, l, r - 1, false);
        if propagates(a, b, l, r) {
            assert(propagates(a, b, l, r - 1));
        }
        if !propagates(a, b, l, r - 1) && a[r - 1] != b[r - 1] {
            let i = choose|i: int| l <= i < r - 1 && !(a[i] != b[i]);
            assert(!propagates(a, b, l, r));
        }
    }
}

/// A carry through `l..r` is a carry through `l..m` and then `m..r`.
pub proof fn lemma_carry_chain(a: Seq<bool>, b: Seq<bool>, l: int, m: int, r: int, c: bool)
    requires
        l <= m <= r,
    ensures
        carry(a, b, l, r, c) == carry(a, b, m, r, carry(a, b, l, m, c)),
    decreases r - m,
{
    if r > m {
        lemma_carry_chain(a, b, l, m, r - 1, c);
    }
}

/// How the generate and propagate bits of two adjacent ranges combine.
pub proof fn lemma_combine(a: Seq<bool>, b: Seq<bool>, l: int, m: int, r: int)
    requires
        l <= m <= r,
    ensures
        generates(a, b, l, r) == (generates(a, b, m, r) != (propagates(a, b, m, r) && generates(
            a,
            b,
            l,
            m,
        ))),
        propagates(a, b, l, r) == (propagates(a, b, l, m) && propagates(a, b, m, r)),
{
    lemma_carry_chain(a, b, l, m, r, false);
    lemma_carry_split(a, b, m, r, generates(a, b, l, m));
    if propagates(a, b, l, m) && propagates(a, b, m, r) {
        assert(propagates(a, b, l, r));
    }
}

/// Ripple-carry addition: the sum bits and the carry out add up to the operands.
pub proof fn lemma_add_bits_prefix(a: Seq<bool>, b: Seq<bool>, i: int)
    requires
        a.len() == b.len(),
        0 <= i <= a.len(),
    ensures
        bits_value(add_bits(a, b).take(i)) + (if carry(a, b, 0, i, false) {
            pow2(i as nat)
        } else {
            0
        }) == bits_value(a.take(i)) + bits_value(b.take(i)),
    decreases i,
{
    if i == 0 {
        assert(add_bits(a, b).take(0) =~= Seq::<bool>::empty());
        assert(a.take(0) =~= Seq::<bool>::empty());
        assert(b.take(0) =~= Seq::<bool>::empty());
    } else {
        let j = i - 1;
        lemma_add_bits_prefix(a, b, j);
        assert(add_bits(a, b).take(i) =~= add_bits(a, b).take(j).push(add_bits(a, b)[j]));
        assert(a.take(i) =~= a.take(j).push(a[j]));
        assert(b.take(i) =~= b.take(j).push(b[j]));
        lemma_bits_value_push(add_bits(a, b).take(j), add_bits(a, b)[j]);
        lemma_bits_value_push(a.take(j), a[j]);
        lemma_bits_value_push(b.take(j), b[j]);
        lemma_pow2_unfold(i as nat);
    }
}

/// The sum bits denote the sum of the operands modulo 2^length.
pub proof fn lemma_add_bits_value(a: Seq<bool>, b: Seq<bool>)
    requires
        a.len() == b.len(),
    ensures
        bits_value(add_bits(a, b)) == (bits_value(a) + bits_value(b)) % pow2(a.len()),
        add_bits(a, b).len() == a.len(),
{
    let n = a.len() as int;
    lemma_add_bits_prefix(a, b, n);
    assert(add_bits(a, b).take(n) =~= add_bits(a, b));
    assert(a.take(n) =~= a);
    assert(b.take(n) =~= b);
    lemma_bits_value_bound(add_bits(a, b));
    let s = bits_value(add_bits(a, b)) as int;
    let p = pow2(n as nat) as int;
    if carry(a, b, 0, n, false) {
        vstd::arithmetic::div_mod::lemma_fundamental_div_mod_converse(s + p, p, 1, s);
    } else {
        vstd::arithmetic::div_mod::lemma_fundamental_div_mod_converse(s, p, 0, s);
    }
}

/// Adding the bits of two arithmetic shares gives the bits of their
/// wrapping sum, which both adders compute.
pub proof fn lemma_add_bits_wrapping(a: u16, b: u16)
    ensures
        add_bits(low_bits(a as nat, 16), low_bits(b as nat, 16)) == low_bits(
            Arithmetic::add_spec(a, b) as nat,
            16,
        ),
{
    let (la, lb) = (low_bits(a as nat, 16), low_bits(b as nat, 16));
    lemma_add_bits_value(la, lb);
    lemma_low_bits_value(a as nat, 16);
    lemma_low_bits_value(b as nat, 16);
    lemma2_to64();
    vstd::arithmetic::div_mod::lemma_small_mod(a as nat, pow2(16));
    vstd::arithmetic::div_mod::lemma_small_mod(b as nat, pow2(16));
    let c = Arithmetic::add_spec(a, b);
    lemma_low_bits_value(c as nat, 16);
    vstd::arithmetic::div_mod::lemma_small_mod(c as nat, pow2(16));
    lemma_bits_value_injective(add_bits(la, lb), low_bits(c as nat, 16));
}

/// A full adder: returns the sum bit and the carry out of `a + b + c_in`.
pub fn full<T: BitOps>(ops: &mut T, a: &T::Bit, b: &T::Bit, c_in: &T::Bit) -> (r: Result<
    (T::Bit, T::Bit),
    Error,
>)
    requires
        old(ops).inv(),
        T::is_bit(old(ops).params(), *a),
        T::is_bit(old(ops).params(), *b),
        T::is_bit(old(ops).params(), *c_in),
    ensures
        final(ops).inv(),
        final(ops).params() == old(ops).params(),
        r matches Err(e) ==> T::op_error(old(ops).params(), e),
        final(ops).failures() >= old(ops).failures(),
        r is Err ==> final(ops).failures() > old(ops).failures(),
        r is Ok ==> final(ops).n_and() == old(ops).n_and() + 1,
        r is Ok ==> final(ops).n_xor() == old(ops).n_xor() + 4,
        r is Ok ==> final(ops).n_zero() == old(ops).n_zero(),
        r matches Ok((s, c_out)) ==> {
            let p = old(ops).params();
            let (va, vb, vc) = (T::bit_value(p, *a), T::bit_value(p, *b), T::bit_value(p, *c_in));
            &&& T::is_bit(p, s)
            &&& T::is_bit(p, c_out)
            &&& T::bit_value(p, s) == ((va != vb) != vc)
            &&& T::bit_value(p, c_out) == ((va && vb) || ((va != vb) && vc))
        },
{
    let t = ops.xor(a, b)?;
    let s = ops.xor(&t, c_in)?;
    // a ^ (t & (c_in ^ a))
    let c_in_xor_a = ops.xor(c_in, a)?;
    let t_and = ops.and(&t, &c_in_xor_a)?;
    let c_out = ops.xor(a, &t_and)?;
    Ok((s, c_out))
}

/// Returns the sum of `a` and `b` via full adder
pub fn full_adder<T: BitOps>(ops: &mut T, a: &Vec<T::Bit>, b: &Vec<T::Bit>) -> (r: Result<
    Vec<T::Bit>,
    Error,
>)
    requires
        old(ops).inv(),
        a.len() == b.len(),
        all_bits::<T>(old(ops).params(), a@),
        all_bits::<T>(old(ops).params(), b@),
    ensures
        final(ops).inv(),
        final(ops).params() == old(ops).params(),
        r matches Err(e) ==> T::op_error(old(ops).params(), e),
        final(ops).failures() >= old(ops).failures(),
        r is Err ==> final(ops).failures() > old(ops).failures(),
        r is Ok ==> final(ops).n_and() == old(ops).n_and() + a.len(),
        r is Ok ==> final(ops).n_xor() == old(ops).n_xor() + 4 * a.len(),
        r is Ok ==> final(ops).n_zero() == old(ops).n_zero() + 1,
        r matches Ok(sum) ==> {
            let p = old(ops).params();
            &&& all_bits::<T>(p, sum@)
            &&& values::<T>(p, sum@) == add_bits(values::<T>(p, a@), values::<T>(p, b@))
        },
{
    let ghost p = ops.params();
    let ghost va = values::<T>(p, a@);
    let ghost vb = values::<T>(p, b@);
    let mut sum: Vec<T::Bit> = Vec::new();
    let mut c = ops.zero()?;
    let mut i: usize = 0;
    while i < a.len()
        invariant
            ops.inv(),
            ops.params() == p,
            p == old(ops).params(),
            a.len() == b.len(),
            all_bits::<T>(p, a@),
            all_bits::<T>(p, b@),
            va == values::<T>(p, a@),
            vb == values::<T>(p, b@),
            i <= a.len(),
            sum.len() == i,
            all_bits::<T>(p, sum@),
            values::<T>(p, sum@) == add_bits(va, vb).take(i as int),
            T::is_bit(p, c),
            T::bit_value(p, c) == carry(va, vb, 0, i as int, false),
            ops.n_and() == old(ops).n_and() + i,
            ops.n_xor() == old(ops).n_xor() + 4 * i,
            ops.n_zero() == old(ops).n_zero() + 1,
            ops.failures() >= old(ops).failures(),
        decreases a.len() - i,
    {
        let (s, c_out) = full(ops, &a[i], &b[i], &c)?;
        sum.push(s);
        c = c_out;
        i = i + 1;
        proof {
            assert(values::<T>(p, sum@) =~= add_bits(va, vb).take(i as int));
        }
    }
    proof {
        assert(add_bits(va, vb).take(i as int) =~= add_bits(va, vb));
    }
    Ok(sum)
}

/// A node of a parallel-prefix tree over a range of bit positions, holding
/// the generate and propagate bits of its range.
struct PRNode<T: BitOps> {
    value: (T::Bit, T::Bit),
    left: Option<Box<PRNode<T>>>,
    right: Option<Box<PRNode<T>>>,
}

impl<T: BitOps> PRNode<T> {
    /// The node is a correct prefix tree over the positions `l..r` of `a` and `b`.
    spec fn tree_ok(self, p: T::Params, a: Seq<bool>, b: Seq<bool>, l: int, r: int) -> bool
        decreases self,
    {
        &&& l < r
        &&& T::is_bit(p, self.value.0)
        &&& T::is_bit(p, self.value.1)
        &&& T::bit_value(p, self.value.0) == generates(a, b, l, r)
        &&& T::bit_value(p, self.value.1) == propagates(a, b, l, r)
        &&& if r - l == 1 {
            self.left is None && self.right is None
        } else {
            let mid = l + (r - l) / 2;
            &&& self.left matches Some(left) && left.tree_ok(p, a, b, l, mid)
            &&& self.right matches Some(right) && right.tree_ok(p, a, b, mid, r)
        }
    }

    fn new(g: T::Bit, p: T::Bit) -> (node: Self)
        ensures
            node.value == (g, p),
            node.left is None,
            node.right is None,
    {
        PRNode { value: (g, p), left: None, right: None }
    }

    /// Every node has no child or two children.
    spec fn shape_ok(self) -> bool
        decreases self,
    {
        match (self.left, self.right) {
            (None, None) => true,
            (Some(l), Some(r)) => l.shape_ok() && r.shape_ok(),
            _ => false,
        }
    }

    /// Every value of the tree is a pair of well-formed bits.
    spec fn bits_ok(self, p: T::Params) -> bool
        decreases self,
    {
        &&& T::is_bit(p, self.value.0)
        &&& T::is_bit(p, self.value.1)
        &&& (self.left matches Some(l) ==> l.bits_ok(p))
        &&& (self.right matches Some(r) ==> r.bits_ok(p))
    }

    /// The number of leaves.
    spec fn leaves(self) -> nat
        decreases self,
    {
        match (self.left, self.right) {
            (Some(l), Some(r)) => l.leaves() + r.leaves(),
            _ => 1,
        }
    }

    /// A correct prefix tree is well shaped, holds bits, and has a leaf per position.
    proof fn lemma_tree_ok(self, p: T::Params, a: Seq<bool>, b: Seq<bool>, l: int, r: int)
        requires
            self.tree_ok(p, a, b, l, r),
        ensures
            self.shape_ok(),
            self.bits_ok(p),
            self.leaves() == r - l,
        decreases self,
    {
        if r - l > 1 {
            let mid = l + (r - l) / 2;
            let left = self.left->0;
            let right = self.right->0;
            left.lemma_tree_ok(p, a, b, l, mid);
            right.lemma_tree_ok(p, a, b, mid, r);
        }
    }

    /// In-order traversal, pass left (LSB...) carries into right (...MSB) subtrees
    ///
    /// Returns `Vec<T::Bit>` through `sum`; fails on a node with one child.
    fn sum(
        &self,
        ops: &mut T,
        c_in: &T::Bit,
        sum: &mut Vec<T::Bit>,
        Ghost(a): Ghost<Seq<bool>>,
        Ghost(b): Ghost<Seq<bool>>,
        Ghost(l): Ghost<int>,
        Ghost(r): Ghost<int>,
    ) -> (res: Result<(), Error>)
        requires
            old(ops).inv(),
            self.bits_ok(old(ops).params()),
            T::is_bit(old(ops).params(), *c_in),
            all_bits::<T>(old(ops).params(), old(sum)@),
        ensures
            final(ops).inv(),
            final(ops).params() == old(ops).params(),
            res matches Err(e) ==> T::op_error(old(ops).params(), e) || (e == Error::PrefixTree && !self.shape_ok()),
            final(ops).failures() >= old(ops).failures(),
            res is Err && self.shape_ok() ==> final(ops).failures() > old(ops).failures(),
            (forall|e: Error| !T::op_error(old(ops).params(), e)) ==> (res is Ok <==> self.shape_ok()),
            res is Ok ==> {
                &&& self.shape_ok()
                &&& all_bits::<T>(old(ops).params(), final(sum)@)
                &&& final(sum)@.len() == old(sum)@.len() + self.leaves()
                &&& final(sum)@.take(old(sum)@.len() as int) == old(sum)@
            },
            res is Ok && self.left is None ==> T::bit_value(old(ops).params(), final(sum)@.last()) == (
            T::bit_value(old(ops).params(), self.value.1) != T::bit_value(old(ops).params(), *c_in)),
            res is Ok && self.tree_ok(old(ops).params(), a, b, l, r) ==> final(ops).n_and() == old(ops).n_and()
                + (r - l) - 1,
            res is Ok && self.tree_ok(old(ops).params(), a, b, l, r) ==> final(ops).n_xor() == old(ops).n_xor()
                + 2 * (r - l) - 1,
            res is Ok ==> final(ops).n_zero() == old(ops).n_zero(),
            res is Ok && self.tree_ok(old(ops).params(), a, b, l, r) ==> {
                let p = old(ops).params();
                values::<T>(p, final(sum)@) == values::<T>(p, old(sum)@) + Seq::new(
                    (r - l) as nat,
                    |i: int| (a[l + i] != b[l + i]) != carry(a, b, l, l + i, T::bit_value(p, *c_in)),
                )
            },
        decreases self,
    {
        let ghost p = ops.params();
        let ghost old_sum = sum@;
        let ghost cv = T::bit_value(p, *c_in);
        let ghost n0 = ops.n_and();
        if self.left.is_none() && self.right.is_none() {
            let s = ops.xor(&self.value.1, c_in)?;
            sum.push(s);
            proof {
                assert(sum@.take(old_sum.len() as int) =~= old_sum);
                if self.tree_ok(p, a, b, l, r) {
                    assert(r - l == 1);
                    assert(values::<T>(p, sum@) =~= values::<T>(p, old_sum) + Seq::new(
                        (r - l) as nat,
                        |i: int| (a[l + i] != b[l + i]) != carry(a, b, l, l + i, cv),
                    ));
                }
            }
            return Ok(());
        }
        let left = match &self.left {
            Some(left) => left,
            None => {
                return Err(Error::PrefixTree);
            },
        };
        let right = match &self.right {
            Some(right) => right,
            None => {
                return Err(Error::PrefixTree);
            },
        };
        let ghost mid = l + (r - l) / 2;
        let ghost ok = self.tree_ok(p, a, b, l, r);
        proof {
            reveal_with_fuel(PRNode::tree_ok, 2);
            reveal_with_fuel(PRNode::bits_ok, 2);
        }
        left.sum(ops, c_in, sum, Ghost(a), Ghost(b), Ghost(l), Ghost(mid))?;
        let ghost mid_sum = sum@;
        let p_and = ops.and(&left.value.1, c_in)?;
        let c_out = ops.xor(&left.value.0, &p_and)?;
        proof {
            if ok {
                lemma_carry_split(a, b, l, mid, cv);
            }
        }
        right.sum(ops, &c_out, sum, Ghost(a), Ghost(b), Ghost(mid), Ghost(r))?;
        proof {
            assert(sum@.take(old_sum.len() as int) =~= mid_sum.take(old_sum.len() as int));
            if ok {
                let cm = carry(a, b, l, mid, cv);
                assert forall|i: int| 0 <= i < r - mid implies #[trigger] carry(a, b, mid, mid + i, cm) == carry(
                    a,
                    b,
                    l,
                    mid + i,
                    cv,
                ) by {
                    lemma_carry_chain(a, b, l, mid, mid + i, cv);
                }
                assert(values::<T>(p, sum@) =~= values::<T>(p, old_sum) + Seq::new(
                    (r - l) as nat,
                    |i: int| (a[l + i] != b[l + i]) != carry(a, b, l, l + i, cv),
                ));
            }
        }
        Ok(())
    }
}

/// Builds the parallel-prefix tree over the positions `l..r` of `a` and `b`.
///
/// Each node holds (g: generation, p: propagation) of its range.
///
/// Generation = at this index, a carry is guaranteed
/// Propagation = at this index, a carry is guaranteed if and only if a prior carry is passed through
fn parallel_recurse<T: BitOps>(
    ops: &mut T,
    a: &Vec<T::Bit>,
    b: &Vec<T::Bit>,
    l: usize,
    r: usize,
) -> (res: Result<PRNode<T>, Error>)
    requires
        old(ops).inv(),
        a.len() == b.len(),
        l < r <= a.len(),
        all_bits::<T>(old(ops).params(), a@),
        all_bits::<T>(old(ops).params(), b@),
    ensures
        final(ops).inv(),
        final(ops).params() == old(ops).params(),
        res matches Err(e) ==> T::op_error(old(ops).params(), e),
        final(ops).failures() >= old(ops).failures(),
        res is Err ==> final(ops).failures() > old(ops).failures(),
        res is Ok ==> final(ops).n_and() == old(ops).n_and() + 3 * (r - l) - 2,
        res is Ok ==> final(ops).n_xor() == old(ops).n_xor() + 2 * (r - l) - 1,
        res is Ok ==> final(ops).n_zero() == old(ops).n_zero() + (r - l) - 1,
        res matches Ok(node) ==> node.tree_ok(
            old(ops).params(),
            values::<T>(old(ops).params(), a@),
            values::<T>(old(ops).params(), b@),
            l as int,
            r as int,
        ),
    decreases r - l,
{
    let ghost p = ops.params();
    let ghost va = values::<T>(p, a@);
    let ghost vb = values::<T>(p, b@);
    if r - l == 1 {
        let g = ops.and(&a[l], &b[l])?;
        let pr = ops.xor(&a[l], &b[l])?;
        proof {
            lemma_carry_split(va, vb, l as int, r as int, false);
            if va[l as int] != vb[l as int] {
                assert(propagates(va, vb, l as int, r as int));
            }
        }
        return Ok(PRNode::new(g, pr));
    }
    // The zero bit the node's children start from before they are built.
    let _start = ops.zero()?;
    let mid = l + (r - l) / 2;
    let left = parallel_recurse(ops, a, b, l, mid);
    let right = parallel_recurse(ops, a, b, mid, r);
    match (left, right) {
        (Err(e), _) => Err(e),
        (_, Err(e)) => Err(e),
        (Ok(left), Ok(right)) => {
            let pr = ops.and(&left.value.1, &right.value.1)?;
            // Since pr and gr can never both be true, the 'or' can be replaced with 'xor'
            let pg = ops.and(&right.value.1, &left.value.0)?;
            let g = ops.xor(&right.value.0, &pg)?;
            proof {
                lemma_combine(va, vb, l as int, mid as int, r as int);
            }
            Ok(PRNode { value: (g, pr), left: Some(Box::new(left)), right: Some(Box::new(right)) })
        },
    }
}

/// Returns the sum of `a` and `b` via parallel-prefix adder
pub fn parallel_prefix<T: BitOps>(ops: &mut T, a: &Vec<T::Bit>, b: &Vec<T::Bit>) -> (r: Result<
    Vec<T::Bit>,
    Error,
>)
    requires
        old(ops).inv(),
        a.len() == b.len(),
        a.len() >= 1,
        all_bits::<T>(old(ops).params(), a@),
        all_bits::<T>(old(ops).params(), b@),
    ensures
        final(ops).inv(),
        final(ops).params() == old(ops).params(),
        r matches Err(e) ==> T::op_error(old(ops).params(), e),
        final(ops).failures() >= old(ops).failures(),
        r is Err ==> final(ops).failures() > old(ops).failures(),
        r is Ok ==> final(ops).n_and() == old(ops).n_and() + 4 * a.len() - 3,
        r is Ok ==> final(ops).n_xor() == old(ops).n_xor() + 4 * a.len() - 2,
        r is Ok ==> final(ops).n_zero() == old(ops).n_zero() + a.len(),
        r matches Ok(sum) ==> {
            let p = old(ops).params();
            &&& all_bits::<T>(p, sum@)
            &&& values::<T>(p, sum@) == add_bits(values::<T>(p, a@), values::<T>(p, b@))
        },
{
    let ghost p = ops.params();
    let ghost va = values::<T>(p, a@);
    let ghost vb = values::<T>(p, b@);
    let zero = ops.zero()?;
    let root = parallel_recurse(ops, a, b, 0, a.len())?;
    proof {
        root.lemma_tree_ok(p, va, vb, 0, a.len() as int);
    }
    let mut sum: Vec<T::Bit> = Vec::new();
    let res = root.sum(ops, &zero, &mut sum, Ghost(va), Ghost(vb), Ghost(0), Ghost(a.len() as int));
    if let Err(e) = res {
        return Err(e);
    }
    proof {
        assert(values::<T>(p, sum@) =~= add_bits(va, vb));
    }
    Ok(sum)
}

} // verus!
