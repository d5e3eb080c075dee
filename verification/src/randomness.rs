//! The random number generators that the library draws from.
use rand::rngs::{ChaCha20Rng, SysError, SysRng};
use vstd::prelude::*;

verus! {

/// The operating system's random number source.
#[verifier::external_type_specification]
#[verifier::external_body]
pub struct ExSysRng(SysRng);

/// The error that the operating system's random number source reports.
#[verifier::external_type_specification]
#[verifier::external_body]
pub struct ExSysError(SysError);

/// The ChaCha20 stream cipher used as a seeded generator.
#[verifier::external_type_specification]
#[verifier::external_body]
pub struct ExChaCha20Rng(ChaCha20Rng);

/// The generator that `ChaCha20Rng::from_seed` builds from a seed.
pub uninterp spec fn chacha20_seeded(seed: Seq<u8>) -> ChaCha20Rng;

/// The word that a ChaCha20 generator yields next, and the state it is left in.
pub uninterp spec fn chacha20_next(rng: ChaCha20Rng) -> (u32, ChaCha20Rng);

/// Builds `SysRng`, a unit struct that stands for the operating system's source.
#[verifier::external_body]
pub(crate) fn new_sys_rng() -> (r: SysRng) {
    SysRng
}

/// Calls `TryRng::try_next_u32` on `SysRng`, which asks the operating system
/// for a random word. Nothing is stated of the word, which is random, nor of
/// when the call fails.
#[verifier::external_body]
pub(crate) fn sys_next_u32(rng: &mut SysRng) -> (r: Result<u32, SysError>) {
    rand::TryRng::try_next_u32(rng)
}

/// Calls `TryRng::try_fill_bytes` on `SysRng`, which fills the seed with
/// random bytes from the operating system. Nothing is stated of the bytes,
/// which are random, nor of when the call fails.
#[verifier::external_body]
pub(crate) fn sys_fill_seed(rng: &mut SysRng, seed: &mut [u8; 32]) -> (r: Result<(), SysError>) {
    rand::TryRng::try_fill_bytes(rng, seed)
}

/// Calls `SeedableRng::from_seed` for `ChaCha20Rng`. The generator is a
/// function of the seed alone, named `chacha20_seeded`.
#[verifier::external_body]
pub(crate) fn chacha20_from_seed(seed: [u8; 32]) -> (r: ChaCha20Rng)
    ensures
        r == chacha20_seeded(seed@),
{
    <ChaCha20Rng as rand::SeedableRng>::from_seed(seed)
}

/// Calls `Rng::next_u32` on a `ChaCha20Rng`, which cannot fail. The word and
/// the next state are a function of the state alone, named `chacha20_next`.
#[verifier::external_body]
pub(crate) fn chacha20_next_u32(rng: &mut ChaCha20Rng) -> (r: u32)
    ensures
        (r, *final(rng)) == chacha20_next(*old(rng)),
{
    rand::Rng::next_u32(rng)
}

/// The operating system's random source, with the number of draws that it
/// has failed so far.
///
/// The count changes only here, and only when the operating system reports a
/// failure, so a library function that says its error comes with a higher
/// count says that its error comes from a failed draw.
pub struct OsSource {
    rng: SysRng,
    failed: Ghost<nat>,
}

impl OsSource {
    /// How many draws from the operating system have failed.
    pub closed spec fn failures(&self) -> nat {
        self.failed@
    }

    /// A source that has failed no draw yet.
    pub fn new() -> (r: Self)
        ensures
            r.failures() == 0,
    {
        OsSource { rng: new_sys_rng(), failed: Ghost(0) }
    }

    /// Draws a random word; a failure of the operating system counts.
    pub fn next_u32(&mut self) -> (r: Result<u32, SysError>)
        ensures
            r is Ok ==> final(self).failures() == old(self).failures(),
            r is Err ==> final(self).failures() == old(self).failures() + 1,
    {
        let r = sys_next_u32(&mut self.rng);
        proof {
            if r is Err {
                self.failed@ = self.failed@ + 1;
            }
        }
        r
    }

    /// Fills a seed with random bytes; a failure of the operating system counts.
    pub fn fill_seed(&mut self, seed: &mut [u8; 32]) -> (r: Result<(), SysError>)
        ensures
            r is Ok ==> final(self).failures() == old(self).failures(),
            r is Err ==> final(self).failures() == old(self).failures() + 1,
    {
        let r = sys_fill_seed(&mut self.rng, seed);
        proof {
            if r is Err {
                self.failed@ = self.failed@ + 1;
            }
        }
        r
    }
}

} // verus!
