//! The noise fields that terrain is drawn from.

use vstd::prelude::*;
use fastnoise_lite::{FastNoiseLite, NoiseType};
use crate::float::F32;

verus! {

/// Frequency of the elevation field, in decimal notation.
pub open spec fn elevation_frequency() -> Seq<char> {
    "0.035"@
}

/// Frequency of the field that scatters resources, in decimal notation.
pub open spec fn scatter_frequency() -> Seq<char> {
    "0.12"@
}

/// Pattern of the two-dimensional OpenSimplex2 noise of a seed at a tile, the
/// field stretched by a frequency.
pub uninterp spec fn open_simplex2(seed: i32, frequency: Seq<char>, x: i32, y: i32) -> u32;

/// Samples `FastNoiseLite::get_noise_2d` (crate `fastnoise-lite`), set to
/// `NoiseType::OpenSimplex2`, the seed and the frequency. The contract claims
/// only that the bits of the sample depend on the seed, the frequency and the
/// tile alone. The frequency is one of the two in use: at a far larger one the
/// crate's own coordinates would overflow.
#[verifier::external_body]
fn sample(seed: i32, frequency: &str, x: i32, y: i32) -> (r: u32)
    requires
        frequency@ == elevation_frequency() || frequency@ == scatter_frequency(),
    ensures
        r == open_simplex2(seed, frequency@, x, y),
{
    let mut noise = FastNoiseLite::with_seed(seed);
    noise.set_noise_type(Some(NoiseType::OpenSimplex2));
    noise.set_frequency(frequency.parse().ok());
    noise.get_noise_2d(x as _, y as _).to_bits()
}

/// The elevation field of a world at a tile.
pub open spec fn elevation_spec(seed: i32, x: i32, y: i32) -> F32 {
    F32 { bits: open_simplex2(seed, elevation_frequency(), x, y) }
}

/// The resource field of a world at a tile, drawn from a seed of its own.
pub open spec fn scatter_spec(seed: i32, x: i32, y: i32) -> F32 {
    F32 { bits: open_simplex2(seed.wrapping_add(1337), scatter_frequency(), x, y) }
}

pub fn elevation(seed: i32, x: i32, y: i32) -> (r: F32)
    ensures
        r == elevation_spec(seed, x, y),
{
    F32 { bits: sample(seed, "0.035", x, y) }
}

pub fn scatter(seed: i32, x: i32, y: i32) -> (r: F32)
    ensures
        r == scatter_spec(seed, x, y),
{
    F32 { bits: sample(seed.wrapping_add(1337), "0.12", x, y) }
}

} // verus!
