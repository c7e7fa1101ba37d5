use vstd::prelude::*;

verus! {

use rand::rngs::SmallRng;
use crate::extent::Extent;
use crate::lattice::Point;

#[verifier::external_type_specification]
#[verifier::external_body]
pub struct ExSmallRng(SmallRng);

/// Relies on rand's `SeedableRng::from_seed` for `SmallRng`: builds the
/// deterministic small generator from a 32-byte seed, which this library
/// fills by repeating the little-endian bytes of the four seed words.
#[verifier::external_body]
pub fn small_rng(seed: [u32; 4]) -> SmallRng {
    let mut bytes = [0u8; 32];
    let mut i: usize = 0;
    while i < 4 {
        let le = seed[i].to_le_bytes();
        bytes[4 * i..4 * i + 4].copy_from_slice(&le);
        bytes[16 + 4 * i..16 + 4 * i + 4].copy_from_slice(&le);
        i += 1;
    }
    <SmallRng as rand::SeedableRng>::from_seed(bytes)
}

/// Relies on rand's `Rng::gen_range` over an inclusive `i32` range: it
/// panics only on an empty range and returns a value inside the range.
#[verifier::external_body]
fn gen_range_inclusive(rng: &mut SmallRng, lo: i32, hi: i32) -> (r: i32)
    requires
        lo <= hi,
    ensures
        lo <= r <= hi,
{
    rand::Rng::gen_range(rng, lo..=hi)
}

/// A random sub-range of `[min, max]`: two independent uniform draws,
/// returned in order.
pub fn sample_range(rng: &mut SmallRng, min: i32, max: i32) -> (r: (i32, i32))
    requires
        min <= max,
    ensures
        min <= r.0 <= r.1 <= max,
{
    let c1 = gen_range_inclusive(rng, min, max);
    let c2 = gen_range_inclusive(rng, min, max);
    if c1 > c2 {
        (c2, c1)
    } else {
        (c1, c2)
    }
}

/// A source of random lattice points, fed from the shared random stream.
/// Implementors wrap whatever scalar distributions they like; the library
/// consumes them opaquely.
pub trait PointSampler {
    fn sample_point(&mut self, rng: &mut SmallRng) -> Point;
}

/// Parameters of a normal distribution for one lattice axis, in whole
/// lattice units: this library keeps all arithmetic on integers, so
/// fractional means or deviations are not representable here. The unverified
/// rim builds the real-valued sampler from these.
#[derive(Clone, Copy, Debug, Default, PartialEq, Eq, Structural)]
pub struct NormalDistSpec {
    pub mean: i32,
    pub std_dev: i32,
}

/// Per-axis normal distribution parameters for sampling lattice points.
#[derive(Clone, Copy, Debug, Default, PartialEq, Eq, Structural)]
pub struct LatticeNormalDistSpec {
    pub x: NormalDistSpec,
    pub y: NormalDistSpec,
    pub z: NormalDistSpec,
}

/// Per-axis inclusive bounds for sampling lattice points uniformly.
#[derive(Clone, Copy, Debug, Default, PartialEq, Eq)]
pub struct LatticeUniformDistSpec {
    pub x: (i32, i32),
    pub y: (i32, i32),
    pub z: (i32, i32),
}

/// A sampler of lattice points, uniform and independent per axis.
#[derive(Clone, Copy, Debug, PartialEq, Eq)]
pub struct LatticeUniformDist {
    pub x: (i32, i32),
    pub y: (i32, i32),
    pub z: (i32, i32),
}

impl LatticeUniformDistSpec {
    pub open spec fn wf(self) -> bool {
        self.x.0 <= self.x.1 && self.y.0 <= self.y.1 && self.z.0 <= self.z.1
    }

    pub fn make(&self) -> (r: LatticeUniformDist)
        requires
            self.wf(),
        ensures
            r.x == self.x && r.y == self.y && r.z == self.z,
            r.wf(),
    {
        LatticeUniformDist { x: self.x, y: self.y, z: self.z }
    }
}

impl LatticeUniformDist {
    pub open spec fn wf(self) -> bool {
        self.x.0 <= self.x.1 && self.y.0 <= self.y.1 && self.z.0 <= self.z.1
    }

    /// A point within the per-axis bounds, drawn from the shared stream.
    pub fn sample(&self, rng: &mut SmallRng) -> (p: Point)
        requires
            self.wf(),
        ensures
            self.x.0 <= p.x <= self.x.1,
            self.y.0 <= p.y <= self.y.1,
            self.z.0 <= p.z <= self.z.1,
    {
        let x = gen_range_inclusive(rng, self.x.0, self.x.1);
        let y = gen_range_inclusive(rng, self.y.0, self.y.1);
        let z = gen_range_inclusive(rng, self.z.0, self.z.1);
        Point { x, y, z }
    }
}

/// Rejection-sample axis-aligned boxes: draw a location and a size, build
/// the box, and keep it only if `predicate` accepts it, until `num_extents`
/// boxes are kept. The attempt budget bounds the search; a result shorter
/// than `num_extents` means the budget ran out, which callers treat as a
/// failed attempt.
pub fn sample_extents<F: Fn(&Extent) -> bool, S: PointSampler>(
    num_extents: usize,
    predicate: F,
    location_distr: &LatticeUniformDist,
    size_distr: &mut S,
    rng: &mut SmallRng,
) -> (r: Vec<Extent>)
    requires
        location_distr.wf(),
        num_extents < 0x1_0000_0000,
        forall|e: &Extent| #[trigger] call_requires(predicate, (e,)),
    ensures
        r@.len() <= num_extents,
        forall|i: int|
            0 <= i < r@.len() ==> call_ensures(predicate, (&(#[trigger] r@[i]),), true),
        (forall|e: &Extent, b: bool| #[trigger] call_ensures(predicate, (e,), b) ==> b)
            ==> r@.len() == num_extents,
{
    let mut extents: Vec<Extent> = Vec::new();
    let ghost keeps_all = forall|e: &Extent, b: bool|
        #[trigger] call_ensures(predicate, (e,), b) ==> b;
    let ghost budget = (4096 + 1024 * (num_extents as u64)) as int;
    let mut attempts: u64 = 4096 + 1024 * (num_extents as u64);
    while extents.len() < num_extents && attempts > 0
        invariant
            location_distr.wf(),
            num_extents < 0x1_0000_0000,
            extents@.len() <= num_extents,
            budget == 4096 + 1024 * (num_extents as int),
            attempts <= budget,
            keeps_all == (forall|e: &Extent, b: bool|
                #[trigger] call_ensures(predicate, (e,), b) ==> b),
            keeps_all ==> extents@.len() == budget - attempts,
            forall|e: &Extent| #[trigger] call_requires(predicate, (e,)),
            forall|i: int|
                0 <= i < extents@.len() ==> call_ensures(
                    predicate,
                    (&(#[trigger] extents@[i]),),
                    true,
                ),
        decreases attempts,
    {
        attempts = attempts - 1;
        let loc = location_distr.sample(rng);
        let size = size_distr.sample_point(rng);
        let extent = Extent::from_min_and_local_supremum(loc, size);
        if predicate(&extent) {
            extents.push(extent);
        }
    }
    extents
}

} // verus!
