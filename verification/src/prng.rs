//! This module contains a mock PRNG and assumes seeds are known to respective parties beforehand
use crate::error::Error;
use crate::randomness::{
    chacha20_from_seed, chacha20_next, chacha20_next_u32, chacha20_seeded, OsSource,
};
use crate::sharing::replicated::ReplicatedSharing;
use crate::sharing::subsets::subsets_spec;
use crate::sharing::{Arithmetic, PartyID, Sharing};
use rand::rngs::{ChaCha20Rng, SysRng};
use vstd::prelude::*;

verus! {

/// One seed and one seeded generator per subset of `k - 1` parties.
///
/// `seeds[j]` and `rngs[j]` belong to `subsets[j]`.
pub struct PRNG {
    subsets: Vec<Vec<PartyID>>,
    seeds: Vec<[u8; 32]>,
    rngs: Vec<ChaCha20Rng>,
}

/// Whether two subsets are equal.
pub(crate) fn same_subset(a: &Vec<PartyID>, b: &Vec<PartyID>) -> (r: bool)
    ensures
        r == (a@ == b@),
{
    if a.len() != b.len() {
        return false;
    }
    let mut i: usize = 0;
    while i < a.len()
        invariant
            i <= a.len() == b.len(),
            forall|j: int| 0 <= j < i ==> a@[j] == b@[j],
        decreases a.len() - i,
    {
        if a[i] != b[i] {
            return false;
        }
        i = i + 1;
    }
    proof {
        assert(a@ =~= b@);
    }
    true
}

impl PRNG {
    /// The subsets that the generators belong to.
    pub closed spec fn subsets(&self) -> Seq<Seq<PartyID>> {
        self.subsets.deep_view()
    }

    /// The seed of the `j`-th subset.
    pub closed spec fn seed(&self, j: int) -> Seq<u8> {
        self.seeds@[j]@
    }

    /// The generator of the `j`-th subset.
    pub closed spec fn generator(&self, j: int) -> ChaCha20Rng {
        self.rngs@[j]
    }

    /// The generators, one per subset.
    pub closed spec fn generators(&self) -> Seq<ChaCha20Rng> {
        self.rngs@
    }

    /// `generator(j)` is the `j`-th of `generators()`, one per subset.
    pub proof fn lemma_generators(&self)
        ensures
            forall|j: int| #[trigger] self.generator(j) == self.generators()[j],
            self.sized() ==> self.generators().len() == self.subsets().len(),
    {
    }

    /// There is one seed and one generator per subset.
    pub closed spec fn sized(&self) -> bool {
        &&& self.seeds.len() == self.subsets.len()
        &&& self.rngs.len() == self.subsets.len()
    }

    /// There is one seed and one generator per subset of a k-of-n scheme.
    pub open spec fn wf(&self, k: nat, n: nat) -> bool {
        &&& self.subsets() == subsets_spec(k, n)
        &&& self.sized()
    }

    /// Every generator is the one seeded with its subset's seed.
    pub closed spec fn seeded(&self) -> bool {
        forall|j: int| 0 <= j < self.rngs.len() ==> self.rngs@[j] == chacha20_seeded(self.seeds@[j]@)
    }

    /// The subsets of a well-formed generator are pairwise distinct, so a
    /// subset draws from its own generator.
    pub proof fn lemma_subsets_distinct(&self, k: nat, n: nat)
        requires
            self.wf(k, n),
            n <= usize::MAX,
        ensures
            forall|i: int, j: int|
                0 <= i < j < self.subsets().len() ==> #[trigger] self.subsets()[i] != #[trigger] self.subsets()[j],
    {
        assert(crate::sharing::subsets::increasing(crate::sharing::subsets::parties_seq(n)));
        crate::sharing::subsets::lemma_combos_distinct(crate::sharing::subsets::parties_seq(n), (k - 1) as nat);
    }

    /// Given parameters `k` and `n` for a RSS scheme, returns a new PRNG with all internal seeds and rngs zeroed
    pub fn new(k: usize, n: usize) -> (r: Self)
        requires
            k >= 1,
            n < usize::MAX,
        ensures
            r.wf(k as nat, n as nat),
            r.seeded(),
            forall|j: int| 0 <= j < r.subsets().len() ==> r.seed(j) == Seq::new(32, |i: int| 0u8),
    {
        let subsets = ReplicatedSharing::<Arithmetic>::all_subsets(k, n, None);
        let mut seeds: Vec<[u8; 32]> = Vec::new();
        let mut rngs: Vec<ChaCha20Rng> = Vec::new();
        let mut j: usize = 0;
        while j < subsets.len()
            invariant
                j <= subsets.len(),
                seeds.len() == j,
                rngs.len() == j,
                forall|a: int| 0 <= a < j ==> (#[trigger] seeds@[a])@ == Seq::new(32, |i: int| 0u8),
                forall|a: int| 0 <= a < j ==> (#[trigger] rngs@[a]) == chacha20_seeded(seeds@[a]@),
            decreases subsets.len() - j,
        {
            let seed = [0u8; 32];
            proof {
                assert(seed@ =~= Seq::new(32, |i: int| 0u8));
            }
            seeds.push(seed);
            rngs.push(chacha20_from_seed(seed));
            j = j + 1;
        }
        PRNG { subsets, seeds, rngs }
    }

    /// Refreshes all internal randomness, from an `OsSource` of this call's
    /// own; `new_seeds_from` states when it fails.
    pub fn new_seeds(&mut self, _rng: &mut SysRng) -> (r: Result<(), Error>)
        requires
            old(self).subsets().len() != 0,
            old(self).sized(),
        ensures
            final(self).subsets() == old(self).subsets(),
            final(self).sized(),
            r matches Err(e) ==> e == Error::Rng,
            r is Ok ==> final(self).seeded(),
            r is Err ==> forall|j: int|
                0 <= j < old(self).subsets().len() ==> #[trigger] final(self).generator(j) == old(self).generator(j),
    {
        let mut src = OsSource::new();
        self.new_seeds_from(&mut src)
    }

    /// Refreshes all internal randomness from `src`; it fails exactly when
    /// filling a seed fails.
    pub fn new_seeds_from(&mut self, src: &mut OsSource) -> (r: Result<(), Error>)
        requires
            old(self).subsets().len() != 0,
            old(self).sized(),
        ensures
            final(self).subsets() == old(self).subsets(),
            final(self).sized(),
            r matches Err(e) ==> e == Error::Rng,
            r is Ok <==> final(src).failures() == old(src).failures(),
            final(src).failures() >= old(src).failures(),
            r is Ok ==> final(self).seeded(),
            r is Err ==> forall|j: int|
                0 <= j < old(self).subsets().len() ==> #[trigger] final(self).generator(j) == old(self).generator(j),
    {
        let mut j: usize = 0;
        while j < self.seeds.len()
            invariant
                self.subsets() == old(self).subsets(),
                self.seeds.len() == self.subsets.len(),
                self.rngs.len() == self.subsets.len(),
                self.rngs == old(self).rngs,
                src.failures() == old(src).failures(),
                j <= self.seeds.len(),
            decreases self.seeds.len() - j,
        {
            let mut bytes = self.seeds[j];
            match src.fill_seed(&mut bytes) {
                Ok(()) => {},
                Err(_) => {
                    return Err(Error::Rng);
                },
            }
            self.seeds.set(j, bytes);
            j = j + 1;
        }
        let mut j: usize = 0;
        while j < self.rngs.len()
            invariant
                self.subsets() == old(self).subsets(),
                self.seeds.len() == self.subsets.len(),
                self.rngs.len() == self.subsets.len(),
                j <= self.rngs.len(),
                forall|a: int| 0 <= a < j ==> (#[trigger] self.rngs@[a]) == chacha20_seeded(self.seeds@[a]@),
            decreases self.rngs.len() - j,
        {
            let seeded = chacha20_from_seed(self.seeds[j]);
            self.rngs.set(j, seeded);
            j = j + 1;
        }
        Ok(())
    }

    /// Given a seeded subset, returns the next random share of its generator
    pub fn from_seed<T: Sharing>(&mut self, subset: &Vec<PartyID>) -> (r: Result<T::Share, Error>)
        requires
            old(self).sized(),
        ensures
            final(self).subsets() == old(self).subsets(),
            final(self).sized(),
            r is Err <==> !old(self).subsets().contains(subset@),
            r matches Err(e) ==> e == Error::SubsetNotFound,
            r is Err ==> *final(self) == *old(self),
            r matches Ok(x) ==> exists|j: int|
                0 <= j < old(self).subsets().len() && old(self).subsets()[j] == subset@ && (forall|a: int|
                    0 <= a < j ==> old(self).subsets()[a] != subset@) && x == T::from_word_spec(
                    chacha20_next(old(self).generator(j)).0,
                ) && final(self).generator(j) == chacha20_next(old(self).generator(j)).1 && (forall|i: int|
                    0 <= i < old(self).subsets().len() && i != j ==> #[trigger] final(self).generator(i)
                        == old(self).generator(i)),
    {
        let mut j: usize = 0;
        while j < self.subsets.len()
            invariant
                j <= self.subsets.len(),
                self.sized(),
                self == old(self),
                forall|a: int| 0 <= a < j ==> self.subsets()[a] != subset@,
            decreases self.subsets.len() - j,
        {
            proof {
                assert(self.subsets[j as int].deep_view() =~= self.subsets[j as int]@);
            }
            if same_subset(&self.subsets[j], subset) {
                let ghost old_rngs = self.rngs@;
                let mut g = self.rngs.remove(j);
                let w = chacha20_next_u32(&mut g);
                self.rngs.insert(j, g);
                proof {
                    assert(self.rngs@ =~= old_rngs.update(j as int, g));
                    assert(old(self).subsets()[j as int] == subset@);
                    assert(old(self).subsets().contains(subset@));
                    assert(self.generator(j as int) == g);
                    assert forall|i: int| 0 <= i < old(self).subsets().len() && i != j implies #[trigger] self.generator(i)
                        == old(self).generator(i) by {
                        assert(self.rngs@[i] == old_rngs[i]);
                    }
                }
                return Ok(T::from_word(w));
            }
            j = j + 1;
        }
        Err(Error::SubsetNotFound)
    }
}

} // verus!
