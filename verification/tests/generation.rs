use dungen::dungeon::{
    DungeonMapSpec, DungeonMeta, GenerationError, RoomDistributionSpec, RoomGraphSpec,
};
use dungen::extent::Extent;
use dungen::lattice::Point;
use dungen::sampling::{
    sample_extents, sample_range, small_rng, LatticeNormalDistSpec, LatticeUniformDistSpec,
    NormalDistSpec, PointSampler,
};
use dungen::{Voxel, VoxelEncoder};
use rand::rngs::SmallRng;
use rand_distr::Distribution;

/// A point sampler drawing each axis from a real normal distribution and
/// rounding to the lattice, as the generator's room sizes call for.
struct NormalPointSampler {
    x: rand_distr::Normal<f32>,
    y: rand_distr::Normal<f32>,
    z: rand_distr::Normal<f32>,
}

impl NormalPointSampler {
    fn make(spec: &LatticeNormalDistSpec) -> NormalPointSampler {
        NormalPointSampler {
            x: rand_distr::Normal::new(spec.x.mean as f32, spec.x.std_dev as f32).unwrap(),
            y: rand_distr::Normal::new(spec.y.mean as f32, spec.y.std_dev as f32).unwrap(),
            z: rand_distr::Normal::new(spec.z.mean as f32, spec.z.std_dev as f32).unwrap(),
        }
    }
}

impl PointSampler for NormalPointSampler {
    fn sample_point(&mut self, rng: &mut SmallRng) -> Point {
        let x = self.x.sample(rng).round() as i32;
        let y = self.y.sample(rng).round() as i32;
        let z = self.z.sample(rng).round() as i32;
        Point::new(x, y, z)
    }
}

/// Records every written voxel so tests can compare runs.
struct RecordingEncoder {
    writes: Vec<(Point, i32, u8)>,
}

impl VoxelEncoder for RecordingEncoder {
    fn encode_voxel(&mut self, point: &Point, data: &Voxel) {
        self.writes.push((*point, data.distance, data.voxel_type));
    }
}

fn demo_spec() -> DungeonMapSpec {
    DungeonMapSpec {
        seed: [11, 22, 33, 44],
        room_graph: RoomGraphSpec { num_rooms: 5, entrance_to_objective_path_length: 3 },
        room_dist: RoomDistributionSpec {
            location: LatticeUniformDistSpec { x: (-40, 40), y: (-8, 8), z: (-40, 40) },
            size: LatticeNormalDistSpec {
                x: NormalDistSpec { mean: 6, std_dev: 1 },
                y: NormalDistSpec { mean: 6, std_dev: 1 },
                z: NormalDistSpec { mean: 6, std_dev: 1 },
            },
        },
        min_room_dim: 4,
        max_room_dim: 8,
        min_door_dim: 1,
        max_door_dim: 3,
    }
}

fn run_generation(spec: &DungeonMapSpec) -> (Result<DungeonMeta, GenerationError>, RecordingEncoder) {
    assert!(spec.is_valid());
    let mut rng = small_rng(spec.seed);
    let mut sampler = NormalPointSampler::make(&spec.room_dist.size);
    let mut encoder = RecordingEncoder { writes: Vec::new() };
    let result = spec.generate(&mut rng, &mut sampler, &mut encoder);
    (result, encoder)
}

#[test]
fn generation_succeeds_and_is_deterministic() {
    // End-to-end scenario: five rooms, main path of three, fixed seed.
    let spec = demo_spec();
    let (first, enc_first) = run_generation(&spec);
    let meta = first.expect("a feasible configuration must generate");
    assert!(!meta.spawn_area.valid_spawn_points.is_empty());
    assert!(!enc_first.writes.is_empty());

    let (second, enc_second) = run_generation(&spec);
    let meta_second = second.expect("same seed, same outcome");
    assert_eq!(
        meta.spawn_area.valid_spawn_points,
        meta_second.spawn_area.valid_spawn_points
    );
    assert_eq!(enc_first.writes, enc_second.writes);
}

#[test]
fn generation_exhausts_retries_for_impossible_path() {
    // Retry exhaustion scenario: a main path longer than any tree diameter
    // over two rooms can never be found.
    let mut spec = demo_spec();
    spec.room_graph = RoomGraphSpec { num_rooms: 2, entrance_to_objective_path_length: 50 };
    let (result, encoder) = run_generation(&spec);
    assert_eq!(result.unwrap_err(), GenerationError::RetriesExhausted);
    assert!(encoder.writes.is_empty());
}

#[test]
fn sample_range_is_ordered_and_bounded() {
    let mut rng = small_rng([5, 6, 7, 8]);
    for _ in 0..100 {
        let (lo, hi) = sample_range(&mut rng, -3, 9);
        assert!(-3 <= lo && lo <= hi && hi <= 9);
    }
    // A degenerate range has only one answer.
    assert_eq!(sample_range(&mut rng, 4, 4), (4, 4));
}

#[test]
fn small_rng_streams_repeat_per_seed() {
    let mut a = small_rng([9, 9, 9, 9]);
    let mut b = small_rng([9, 9, 9, 9]);
    for _ in 0..20 {
        assert_eq!(sample_range(&mut a, 0, 1000), sample_range(&mut b, 0, 1000));
    }
}

#[test]
fn sample_extents_only_keeps_accepted_boxes() {
    let mut rng = small_rng([2, 4, 6, 8]);
    let spec = demo_spec();
    let location = LatticeUniformDistSpec { x: (-10, 10), y: (-10, 10), z: (-10, 10) }.make();
    let mut sampler = NormalPointSampler::make(&spec.room_dist.size);
    let boxes = sample_extents(
        12,
        |e: &Extent| {
            let sup = e.get_local_supremum();
            4 <= sup.x && sup.x <= 8 && 4 <= sup.y && sup.y <= 8 && 4 <= sup.z && sup.z <= 8
        },
        &location,
        &mut sampler,
        &mut rng,
    );
    assert_eq!(boxes.len(), 12);
    for b in boxes.iter() {
        let sup = b.get_local_supremum();
        assert!(4 <= sup.x && sup.x <= 8);
        assert!(4 <= sup.y && sup.y <= 8);
        assert!(4 <= sup.z && sup.z <= 8);
        let min = b.get_minimum();
        assert!(-10 <= min.x && min.x <= 10);
        assert!(-10 <= min.y && min.y <= 10);
        assert!(-10 <= min.z && min.z <= 10);
    }
}

#[test]
fn invalid_configuration_is_reported() {
    let mut spec = demo_spec();
    spec.room_graph.num_rooms = 0;
    assert!(!spec.is_valid());
    let mut spec2 = demo_spec();
    spec2.max_door_dim = 2000;
    assert!(!spec2.is_valid());
}
