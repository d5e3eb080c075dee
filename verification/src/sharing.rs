//! Secret sharing schemes.
pub mod arithmetic;
pub mod binary;
pub mod bitadder;
pub mod bits;
pub mod helper;
pub mod replicated;
pub mod subsets;

pub use arithmetic::{ArithShare, Arithmetic};
pub use binary::{Binary, BitShare};
pub use helper::n_choose_k;
pub use replicated::{PartyShares, ReplicatedSharing, Shares};

use crate::error::Error;
use crate::randomness::{sys_next_u32, OsSource};
use rand::rngs::SysRng;
use vstd::prelude::*;

verus! {

/// A party, numbered from 1.
pub type PartyID = usize;

pub type ArithRepSharing = ReplicatedSharing<Arithmetic>;

pub type ArithmeticSharing = ReplicatedSharing<Arithmetic>;

pub type BinarySharing = ReplicatedSharing<Binary>;

pub type BitRepSharing = ReplicatedSharing<Binary>;

pub type ArithAddSharing = AdditiveSharing<Arithmetic>;

pub type BitAddSharing = AdditiveSharing<Binary>;

/// The shares of an arithmetic variable, held by the parties.
pub type ArithmeticShares = Shares<ArithShare>;

/// The shares of a bit, held by the parties.
pub type BinaryShares = Shares<BitShare>;

/// The commutative ring that a sharing scheme shares elements of.
pub trait Sharing: Sized {
    type Share: Copy;

    spec fn zero_spec() -> Self::Share;

    spec fn add_spec(a: Self::Share, b: Self::Share) -> Self::Share;

    spec fn sub_spec(a: Self::Share, b: Self::Share) -> Self::Share;

    spec fn mul_spec(a: Self::Share, b: Self::Share) -> Self::Share;

    /// The share that a random word stands for.
    spec fn from_word_spec(w: u32) -> Self::Share;

    /// The laws of a commutative ring.
    proof fn lemma_ring(a: Self::Share, b: Self::Share, c: Self::Share)
        ensures
            Self::add_spec(a, b) == Self::add_spec(b, a),
            Self::add_spec(Self::add_spec(a, b), c) == Self::add_spec(a, Self::add_spec(b, c)),
            Self::add_spec(a, Self::zero_spec()) == a,
            Self::add_spec(Self::sub_spec(a, b), b) == a,
            Self::mul_spec(a, b) == Self::mul_spec(b, a),
            Self::mul_spec(a, Self::add_spec(b, c)) == Self::add_spec(
                Self::mul_spec(a, b),
                Self::mul_spec(a, c),
            ),
            Self::mul_spec(a, Self::zero_spec()) == Self::zero_spec(),
    ;

    fn zero() -> (r: Self::Share)
        ensures
            r == Self::zero_spec(),
    ;

    /// The share that a random word stands for.
    fn from_word(w: u32) -> (r: Self::Share)
        ensures
            r == Self::from_word_spec(w),
    ;

    fn add(a: Self::Share, b: Self::Share) -> (r: Self::Share)
        ensures
            r == Self::add_spec(a, b),
    ;

    /// a - b
    fn sub(a: Self::Share, b: Self::Share) -> (r: Self::Share)
        ensures
            r == Self::sub_spec(a, b),
    ;

    fn mul(a: Self::Share, b: Self::Share) -> (r: Self::Share)
        ensures
            r == Self::mul_spec(a, b),
    ;

    /// Draws a random share from the operating system.
    fn random_share(rng: &mut SysRng) -> (r: Result<Self::Share, Error>)
        ensures
            r matches Err(e) ==> e == Error::Rng,
            r matches Ok(s) ==> exists|w: u32| s == Self::from_word_spec(w),
    {
        match sys_next_u32(rng) {
            Ok(w) => Ok(Self::from_word(w)),
            Err(_) => Err(Error::Rng),
        }
    }

    /// Draws a random share from the operating system's source `src`; it fails
    /// exactly when the draw fails.
    fn random_share_from(src: &mut OsSource) -> (r: Result<Self::Share, Error>)
        ensures
            r is Ok <==> final(src).failures() == old(src).failures(),
            r is Err ==> final(src).failures() == old(src).failures() + 1,
            r matches Err(e) ==> e == Error::Rng,
            r matches Ok(s) ==> exists|w: u32| s == Self::from_word_spec(w),
    {
        match src.next_u32() {
            Ok(w) => Ok(Self::from_word(w)),
            Err(_) => Err(Error::Rng),
        }
    }
}

/// The sum of a sequence of shares, added from the first to the last.
pub open spec fn seq_sum<T: Sharing>(s: Seq<T::Share>) -> T::Share
    decreases s.len(),
{
    if s.len() == 0 {
        T::zero_spec()
    } else {
        T::add_spec(seq_sum::<T>(s.drop_last()), s.last())
    }
}

/// Adding a share at the end adds it to the sum.
pub proof fn lemma_sum_push<T: Sharing>(s: Seq<T::Share>, x: T::Share)
    ensures
        seq_sum::<T>(s.push(x)) == T::add_spec(seq_sum::<T>(s), x),
{
    assert(s.push(x).drop_last() =~= s);
}

/// The sum of a concatenation is the sum of the sums.
pub proof fn lemma_sum_concat<T: Sharing>(s: Seq<T::Share>, t: Seq<T::Share>)
    ensures
        seq_sum::<T>(s + t) == T::add_spec(seq_sum::<T>(s), seq_sum::<T>(t)),
    decreases t.len(),
{
    if t.len() == 0 {
        assert(s + t =~= s);
        T::lemma_ring(seq_sum::<T>(s), T::zero_spec(), T::zero_spec());
    } else {
        lemma_sum_concat::<T>(s, t.drop_last());
        assert((s + t).drop_last() =~= s + t.drop_last());
        assert((s + t).last() == t.last());
        T::lemma_ring(seq_sum::<T>(s), seq_sum::<T>(t.drop_last()), t.last());
    }
}

/// Adding `x` to one element adds `x` to the sum.
pub proof fn lemma_sum_update_add<T: Sharing>(s: Seq<T::Share>, j: int, x: T::Share)
    requires
        0 <= j < s.len(),
    ensures
        seq_sum::<T>(s.update(j, T::add_spec(s[j], x))) == T::add_spec(seq_sum::<T>(s), x),
    decreases s.len(),
{
    let u = s.update(j, T::add_spec(s[j], x));
    if j == s.len() - 1 {
        assert(u.drop_last() =~= s.drop_last());
        T::lemma_ring(seq_sum::<T>(s.drop_last()), s[j], x);
    } else {
        lemma_sum_update_add::<T>(s.drop_last(), j, x);
        assert(u.drop_last() =~= s.drop_last().update(j, T::add_spec(s[j], x)));
        T::lemma_ring(seq_sum::<T>(s.drop_last()), x, s.last());
        T::lemma_ring(seq_sum::<T>(s.drop_last()), s.last(), x);
        T::lemma_ring(x, s.last(), seq_sum::<T>(s.drop_last()));
    }
}

/// Multiplying every element by `a` multiplies the sum by `a`.
pub proof fn lemma_sum_scale<T: Sharing>(a: T::Share, s: Seq<T::Share>)
    ensures
        seq_sum::<T>(s.map_values(|x: T::Share| T::mul_spec(a, x))) == T::mul_spec(
            a,
            seq_sum::<T>(s),
        ),
    decreases s.len(),
{
    let m = s.map_values(|x: T::Share| T::mul_spec(a, x));
    if s.len() == 0 {
        T::lemma_ring(a, T::zero_spec(), T::zero_spec());
    } else {
        lemma_sum_scale::<T>(a, s.drop_last());
        assert(m.drop_last() =~= s.drop_last().map_values(|x: T::Share| T::mul_spec(a, x)));
        T::lemma_ring(a, seq_sum::<T>(s.drop_last()), s.last());
    }
}

/// `a - b` is the only share that gives `a` when `b` is added to it.
pub proof fn lemma_sub_unique<T: Sharing>(y: T::Share, a: T::Share, b: T::Share)
    requires
        T::add_spec(y, b) == a,
    ensures
        y == T::sub_spec(a, b),
{
    let z = T::sub_spec(a, b);
    let nb = T::sub_spec(T::zero_spec(), b);
    T::lemma_ring(a, b, T::zero_spec());
    T::lemma_ring(T::zero_spec(), b, T::zero_spec());
    T::lemma_ring(nb, b, T::zero_spec());
    T::lemma_ring(y, b, nb);
    T::lemma_ring(z, b, nb);
    T::lemma_ring(y, T::zero_spec(), T::zero_spec());
    T::lemma_ring(z, T::zero_spec(), T::zero_spec());
    T::lemma_ring(b, nb, T::zero_spec());
}

/// The sum of all shares.
pub fn sum<T: Sharing>(shares: &[T::Share]) -> (r: T::Share)
    ensures
        r == seq_sum::<T>(shares@),
{
    let mut acc = T::zero();
    let mut i: usize = 0;
    while i < shares.len()
        invariant
            i <= shares.len(),
            acc == seq_sum::<T>(shares@.take(i as int)),
        decreases shares.len() - i,
    {
        proof {
            assert(shares@.take(i + 1).drop_last() =~= shares@.take(i as int));
        }
        acc = T::add(acc, shares[i]);
        i = i + 1;
    }
    proof {
        assert(shares@.take(i as int) =~= shares@);
    }
    acc
}

/// The pointwise sum of two sequences of shares.
pub open spec fn add_pointwise<T: Sharing>(a: Seq<T::Share>, b: Seq<T::Share>) -> Seq<T::Share> {
    Seq::new(a.len(), |j: int| T::add_spec(a[j], b[j]))
}

/// The sum of a pointwise sum is the sum of the sums.
pub proof fn lemma_sum_pointwise<T: Sharing>(a: Seq<T::Share>, b: Seq<T::Share>)
    requires
        a.len() == b.len(),
    ensures
        seq_sum::<T>(add_pointwise::<T>(a, b)) == T::add_spec(seq_sum::<T>(a), seq_sum::<T>(b)),
    decreases a.len(),
{
    if a.len() > 0 {
        let (a1, b1) = (a.drop_last(), b.drop_last());
        lemma_sum_pointwise::<T>(a1, b1);
        assert(add_pointwise::<T>(a, b).drop_last() =~= add_pointwise::<T>(a1, b1));
        let (sa, sb) = (seq_sum::<T>(a1), seq_sum::<T>(b1));
        let (x, y) = (a.last(), b.last());
        // (sa + sb) + (x + y) == (sa + x) + (sb + y)
        T::lemma_ring(sa, sb, T::add_spec(x, y));
        T::lemma_ring(sb, x, y);
        T::lemma_ring(x, sb, y);
        T::lemma_ring(sb, x, x);
        T::lemma_ring(sa, x, T::add_spec(sb, y));
        assert(add_pointwise::<T>(a, b).last() == T::add_spec(x, y));
        assert(T::add_spec(sb, T::add_spec(x, y)) == T::add_spec(x, T::add_spec(sb, y)));
    } else {
        T::lemma_ring(T::zero_spec(), T::zero_spec(), T::zero_spec());
    }
}

/// A sum of zeros is zero.
pub proof fn lemma_sum_zeros<T: Sharing>(s: Seq<T::Share>)
    requires
        forall|i: int| 0 <= i < s.len() ==> s[i] == T::zero_spec(),
    ensures
        seq_sum::<T>(s) == T::zero_spec(),
    decreases s.len(),
{
    if s.len() > 0 {
        lemma_sum_zeros::<T>(s.drop_last());
        T::lemma_ring(T::zero_spec(), T::zero_spec(), T::zero_spec());
    }
}

/// Additive sharing: `n` shares that add up to the secret.
pub struct AdditiveSharing<T: Sharing> {
    _sharing: core::marker::PhantomData<T>,
}

impl<T: Sharing> AdditiveSharing<T> {
    /// Returns `randoms` followed by the share that makes them add up to `secret`.
    pub fn share_with_randoms(randoms: &Vec<T::Share>, secret: T::Share) -> (r: Vec<T::Share>)
        ensures
            r@ == randoms@.push(T::sub_spec(secret, seq_sum::<T>(randoms@))),
            seq_sum::<T>(r@) == secret,
    {
        let sum = sum::<T>(randoms.as_slice());
        let a_n = T::sub(secret, sum);
        let mut a: Vec<T::Share> = Vec::new();
        let mut i: usize = 0;
        while i < randoms.len()
            invariant
                i <= randoms.len(),
                a@ == randoms@.take(i as int),
            decreases randoms.len() - i,
        {
            a.push(randoms[i]);
            i = i + 1;
            proof {
                assert(a@ =~= randoms@.take(i as int));
            }
        }
        proof {
            assert(randoms@.take(i as int) =~= randoms@);
            lemma_sum_push::<T>(randoms@, a_n);
            T::lemma_ring(secret, sum, sum);
            T::lemma_ring(sum, a_n, sum);
        }
        a.push(a_n);
        a
    }

    /// Returns `n` shares, drawn at random but for the last, that add up to `secret`.
    ///
    /// `SysRng` is a handle to the operating system's source and holds no
    /// state: the shares are drawn from that source through an `OsSource`
    /// of this call's own, so whether a draw failed is not visible to the
    /// caller. `share_from` states when the sharing fails.
    pub fn share(_rng: &mut SysRng, secret: T::Share, n: usize) -> (r: Result<Vec<T::Share>, Error>)
        requires
            n >= 1,
        ensures
            r matches Err(e) ==> e == Error::Rng,
            r matches Ok(a) ==> a.len() == n && seq_sum::<T>(a@) == secret,
            n == 1 ==> (r matches Ok(a) && a@ == seq![secret]),
    {
        let mut src = OsSource::new();
        Self::share_from(&mut src, secret, n)
    }

    /// Returns `n` shares that add up to `secret`, the first `n - 1` drawn from
    /// `src`. It fails exactly when a draw fails, whatever the secret.
    pub fn share_from(src: &mut OsSource, secret: T::Share, n: usize) -> (r: Result<Vec<T::Share>, Error>)
        requires
            n >= 1,
        ensures
            r is Ok <==> final(src).failures() == old(src).failures(),
            final(src).failures() >= old(src).failures(),
            r matches Err(e) ==> e == Error::Rng,
            r matches Ok(a) ==> a.len() == n && seq_sum::<T>(a@) == secret,
            n == 1 ==> (r matches Ok(a) && a@ == seq![secret]),
    {
        let mut randoms: Vec<T::Share> = Vec::new();
        let mut i: usize = 0;
        while i < n - 1
            invariant
                i <= n - 1,
                randoms.len() == i,
                src.failures() == old(src).failures(),
            decreases n - 1 - i,
        {
            let s = T::random_share_from(src)?;
            randoms.push(s);
            i = i + 1;
        }
        proof {
            if n == 1 {
                assert(randoms@ =~= Seq::<T::Share>::empty());
                // secret - 0 == secret
                T::lemma_ring(secret, T::zero_spec(), T::zero_spec());
                T::lemma_ring(T::sub_spec(secret, T::zero_spec()), T::zero_spec(), T::zero_spec());
            }
        }
        Ok(Self::share_with_randoms(&randoms, secret))
    }

    /// Given all `n` shares, returns the reconstructed secret, their sum.
    pub fn reconstruct(shares: &[T::Share], n: usize) -> (r: T::Share)
        requires
            shares.len() == n,
        ensures
            r == seq_sum::<T>(shares@),
    {
        sum::<T>(shares)
    }
}

} // verus!
