//! Randomness. What comes back of a call here is a matter of chance, so
//! nothing is promised of it.
use rand::rngs::StdRng;
use rand::{Rng, SeedableRng};
use vstd::bytes::u64_from_le_bytes;
#[allow(unused_imports)]
use vstd::bytes::spec_u64_from_le_bytes;
use vstd::prelude::*;

verus! {

/// `rand::rngs::StdRng`, a generator that is carried and never looked into.
#[verifier::external_type_specification]
#[verifier::external_body]
pub struct ExStdRng(rand::rngs::StdRng);

/// `Rng::fill_bytes` of a `StdRng` fills eight bytes. Nothing is said of them:
/// they are random.
#[verifier::external_body]
fn random_bytes(rng: &mut StdRng) -> [u8; 8] {
    let mut b = [0u8; 8];
    rng.fill_bytes(&mut b);
    b
}

/// `Rng::fill_bytes` of `rand::rng()`, the generator that the operating
/// system seeds, fills 32 bytes. Nothing is said of them: they are random. A
/// failure of the system's entropy is fatal in it.
#[verifier::external_body]
pub(crate) fn os_seed() -> [u8; 32] {
    let mut seed = [0u8; 32];
    rand::rng().fill_bytes(&mut seed);
    seed
}

/// `StdRng::from_seed` makes a generator out of a seed. Nothing is said of
/// what it will yield.
#[verifier::external_body]
fn seeded(seed: [u8; 32]) -> StdRng {
    StdRng::from_seed(seed)
}

/// The lane that eight bytes write, little-endian.
pub fn lane_of(b: &[u8; 8]) -> (r: u64)
    ensures
        r == spec_u64_from_le_bytes(b@),
{
    u64_from_le_bytes(b)
}

/// The lanes that four draws of eight bytes write, in the order of the draws.
pub fn lanes_of(draws: &[[u8; 8]; 4]) -> (r: [u64; 4])
    ensures
        forall|i: int| 0 <= i < 4 ==> #[trigger] r@[i] == spec_u64_from_le_bytes(draws@[i]@),
{
    [lane_of(&draws[0]), lane_of(&draws[1]), lane_of(&draws[2]), lane_of(&draws[3])]
}

/// Four random lanes, each out of eight random bytes.
pub fn rand_lanes(rng: &mut StdRng) -> [u64; 4] {
    let a = random_bytes(rng);
    let b = random_bytes(rng);
    let c = random_bytes(rng);
    let d = random_bytes(rng);
    lanes_of(&[a, b, c, d])
}

/// A generator seeded by the operating system.
pub fn os_rng() -> StdRng {
    seeded(os_seed())
}

} // verus!
