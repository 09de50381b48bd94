use vstd::prelude::*;

verus! {

#[verifier::external_type_specification]
#[verifier::external_body]
pub struct ExStdRng(rand::rngs::StdRng);

/// The source of every random choice the generator makes.
pub struct Dice {
    rng: rand::rngs::StdRng,
}

/// Relies on `rand::SeedableRng::seed_from_u64` to make a generator from a seed.
#[verifier::external_body]
fn seeded_rng(seed: u64) -> (r: rand::rngs::StdRng) {
    <rand::rngs::StdRng as rand::SeedableRng>::seed_from_u64(seed)
}

/// Relies on `rand::SeedableRng::from_rng` over `rand::rngs::OsRng` to make a
/// generator seeded by the operating system; `None` when the system source fails.
#[verifier::external_body]
fn entropy_rng() -> (r: Option<rand::rngs::StdRng>) {
    <rand::rngs::StdRng as rand::SeedableRng>::from_rng(rand::rngs::OsRng).ok()
}

/// Relies on `rand::Rng::gen_range` on an `i64` range `lo..hi`, which yields a value
/// of `[lo, hi)` and panics on an empty range.
#[verifier::external_body]
fn rng_range(rng: &mut rand::rngs::StdRng, lo: i64, hi: i64) -> (r: i64)
    requires
        lo < hi,
    ensures
        lo <= r < hi,
{
    rand::Rng::gen_range(rng, lo..hi)
}

/// Relies on `rand::Rng::gen_ratio`: `true` with chance `numerator / denominator`,
/// always `false` for a zero numerator and always `true` when both are equal; it
/// panics when the numerator exceeds the denominator or the denominator is zero.
#[verifier::external_body]
fn rng_ratio(rng: &mut rand::rngs::StdRng, numerator: u32, denominator: u32) -> (r: bool)
    requires
        0 < denominator,
        numerator <= denominator,
    ensures
        numerator == 0 ==> !r,
        numerator == denominator ==> r,
{
    rand::Rng::gen_ratio(rng, numerator, denominator)
}

impl Dice {
    /// Dice that give the same sequence of outcomes for the same seed.
    pub fn seeded(seed: u64) -> (r: Dice) {
        Dice { rng: seeded_rng(seed) }
    }

    /// Dice seeded by the operating system, or `None` when it offers no entropy.
    pub fn from_entropy() -> (r: Option<Dice>) {
        match entropy_rng() {
            Some(rng) => Some(Dice { rng }),
            None => None,
        }
    }

    /// A value of `[lo, hi)`.
    pub fn range(&mut self, lo: i64, hi: i64) -> (r: i64)
        requires
            lo < hi,
        ensures
            lo <= r < hi,
    {
        rng_range(&mut self.rng, lo, hi)
    }

    /// `true` with chance `numerator / denominator`.
    pub fn chance(&mut self, numerator: u32, denominator: u32) -> (r: bool)
        requires
            0 < denominator,
            numerator <= denominator,
        ensures
            numerator == 0 ==> !r,
            numerator == denominator ==> r,
    {
        rng_ratio(&mut self.rng, numerator, denominator)
    }

    /// A fair coin flip.
    pub fn coin(&mut self) -> (r: bool) {
        self.chance(1, 2)
    }
}

} // verus!
