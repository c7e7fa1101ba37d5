use vstd::prelude::*;

verus! {

use rand::rngs::SmallRng;
use crate::extent::{Extent, OP_BOUND, WORLD_BOUND};
use crate::graph::{seq_has_edge, RoomGraph};
use crate::lattice::{Direction, Point};
use crate::sampling::sample_range;
use crate::symmetric_map::{key_of, SymmetricMap};
use crate::{empty_voxel, floor_voxel, SpawnArea, VoxelEncoder};

/// A box that the voxel-fill routines accept: well formed, inside the
/// operating range, and of bounded size.
pub open spec fn fillable(e: Extent) -> bool {
    &&& e.wf()
    &&& e.in_range(OP_BOUND as int - 8)
    &&& e.local_supremum.x <= 4096
    &&& e.local_supremum.y <= 4096
    &&& e.local_supremum.z <= 4096
}

/// How many of the six face penetrations between the two boxes are zero.
pub open spec fn zero_pen_count(a: Extent, b: Extent) -> int {
    (if a.spec_pen(b, Direction::PosX) == 0 {
        1int
    } else {
        0int
    }) + (if a.spec_pen(b, Direction::NegX) == 0 {
        1int
    } else {
        0int
    }) + (if a.spec_pen(b, Direction::PosY) == 0 {
        1int
    } else {
        0int
    }) + (if a.spec_pen(b, Direction::NegY) == 0 {
        1int
    } else {
        0int
    }) + (if a.spec_pen(b, Direction::PosZ) == 0 {
        1int
    } else {
        0int
    }) + (if a.spec_pen(b, Direction::NegZ) == 0 {
        1int
    } else {
        0int
    })
}

/// The mathematical mirror of `door_grow`: one unit of growth toward
/// `toward`, one unit of shrink on each of the four side walls.
pub open spec fn spec_door_grow(e: Extent, toward: Direction) -> Extent {
    let lat_x = if e.local_supremum.x - 2 >= 0 {
        e.local_supremum.x - 2
    } else {
        0
    };
    let lat_y = if e.local_supremum.y - 2 >= 0 {
        e.local_supremum.y - 2
    } else {
        0
    };
    let lat_z = if e.local_supremum.z - 2 >= 0 {
        e.local_supremum.z - 2
    } else {
        0
    };
    match toward {
        Direction::PosX => Extent {
            minimum: Point {
                x: e.minimum.x,
                y: (e.minimum.y + 1) as i32,
                z: (e.minimum.z + 1) as i32,
            },
            local_supremum: Point {
                x: (e.local_supremum.x + 1) as i32,
                y: lat_y as i32,
                z: lat_z as i32,
            },
        },
        Direction::NegX => Extent {
            minimum: Point {
                x: (e.minimum.x - 1) as i32,
                y: (e.minimum.y + 1) as i32,
                z: (e.minimum.z + 1) as i32,
            },
            local_supremum: Point {
                x: (e.local_supremum.x + 1) as i32,
                y: lat_y as i32,
                z: lat_z as i32,
            },
        },
        Direction::PosY => Extent {
            minimum: Point {
                x: (e.minimum.x + 1) as i32,
                y: e.minimum.y,
                z: (e.minimum.z + 1) as i32,
            },
            local_supremum: Point {
                x: lat_x as i32,
                y: (e.local_supremum.y + 1) as i32,
                z: lat_z as i32,
            },
        },
        Direction::NegY => Extent {
            minimum: Point {
                x: (e.minimum.x + 1) as i32,
                y: (e.minimum.y - 1) as i32,
                z: (e.minimum.z + 1) as i32,
            },
            local_supremum: Point {
                x: lat_x as i32,
                y: (e.local_supremum.y + 1) as i32,
                z: lat_z as i32,
            },
        },
        Direction::PosZ => Extent {
            minimum: Point {
                x: (e.minimum.x + 1) as i32,
                y: (e.minimum.y + 1) as i32,
                z: e.minimum.z,
            },
            local_supremum: Point {
                x: lat_x as i32,
                y: lat_y as i32,
                z: (e.local_supremum.z + 1) as i32,
            },
        },
        Direction::NegZ => Extent {
            minimum: Point {
                x: (e.minimum.x + 1) as i32,
                y: (e.minimum.y + 1) as i32,
                z: (e.minimum.z - 1) as i32,
            },
            local_supremum: Point {
                x: lat_x as i32,
                y: lat_y as i32,
                z: (e.local_supremum.z + 1) as i32,
            },
        },
    }
}

/// The door-able region for face direction `dir` (from the second room
/// toward the first): grow the rooms into each other along the normal,
/// shrink the side walls, intersect.
pub open spec fn spec_door_region(r1: Extent, r2: Extent, dir: Direction) -> Extent {
    crate::extent::spec_intersection(
        spec_door_grow(r1, dir.spec_negate()),
        spec_door_grow(r2, dir),
    )
}

/// Grow the box one unit toward `toward` and pull the four side walls in by
/// one unit each, so a door cut from the grown face cannot touch a corner.
fn door_grow(e: &Extent, toward: Direction) -> (g: Extent)
    requires
        e.wf(),
        e.in_range(WORLD_BOUND as int),
    ensures
        g == spec_door_grow(*e, toward),
        g.wf(),
        g.in_range(WORLD_BOUND as int + 2),
{
    let min = e.minimum;
    let sup = e.local_supremum;
    let lat_x = if sup.x - 2 >= 0 {
        sup.x - 2
    } else {
        0
    };
    let lat_y = if sup.y - 2 >= 0 {
        sup.y - 2
    } else {
        0
    };
    let lat_z = if sup.z - 2 >= 0 {
        sup.z - 2
    } else {
        0
    };
    match toward {
        Direction::PosX => Extent {
            minimum: Point { x: min.x, y: min.y + 1, z: min.z + 1 },
            local_supremum: Point { x: sup.x + 1, y: lat_y, z: lat_z },
        },
        Direction::NegX => Extent {
            minimum: Point { x: min.x - 1, y: min.y + 1, z: min.z + 1 },
            local_supremum: Point { x: sup.x + 1, y: lat_y, z: lat_z },
        },
        Direction::PosY => Extent {
            minimum: Point { x: min.x + 1, y: min.y, z: min.z + 1 },
            local_supremum: Point { x: lat_x, y: sup.y + 1, z: lat_z },
        },
        Direction::NegY => Extent {
            minimum: Point { x: min.x + 1, y: min.y - 1, z: min.z + 1 },
            local_supremum: Point { x: lat_x, y: sup.y + 1, z: lat_z },
        },
        Direction::PosZ => Extent {
            minimum: Point { x: min.x + 1, y: min.y + 1, z: min.z },
            local_supremum: Point { x: lat_x, y: lat_y, z: sup.z + 1 },
        },
        Direction::NegZ => Extent {
            minimum: Point { x: min.x + 1, y: min.y + 1, z: min.z - 1 },
            local_supremum: Point { x: lat_x, y: lat_y, z: sup.z + 1 },
        },
    }
}

/// The region where a doorway could be cut between two rooms, with the face
/// direction from the second room toward the first. Two rooms admit a door
/// exactly when their penetration is zero along exactly one of the six face
/// directions: with two zero directions they share only an edge, with three
/// only a corner, and with none they overlap or stand apart.
pub fn get_door_able_extent_for_rooms(r1: &Extent, r2: &Extent) -> (r: Option<(Extent, Direction)>)
    requires
        r1.wf(),
        r2.wf(),
        r1.in_range(WORLD_BOUND as int),
        r2.in_range(WORLD_BOUND as int),
    ensures
        r is Some <==> zero_pen_count(*r1, *r2) == 1,
        r matches Some(pair) ==> r1.spec_pen(*r2, pair.1) == 0 && pair.0 == spec_door_region(
            *r1,
            *r2,
            pair.1,
        ) && pair.0.wf() && pair.0.in_range(WORLD_BOUND as int + 2) && pair.0.in_range(
            OP_BOUND as int,
        ),
{
    let pens = Extent::penetrations(r1, r2);
    proof {
        assert(pens.spec_get(Direction::PosX) == r1.spec_pen(*r2, Direction::PosX));
        assert(pens.spec_get(Direction::NegX) == r1.spec_pen(*r2, Direction::NegX));
        assert(pens.spec_get(Direction::PosY) == r1.spec_pen(*r2, Direction::PosY));
        assert(pens.spec_get(Direction::NegY) == r1.spec_pen(*r2, Direction::NegY));
        assert(pens.spec_get(Direction::PosZ) == r1.spec_pen(*r2, Direction::PosZ));
        assert(pens.spec_get(Direction::NegZ) == r1.spec_pen(*r2, Direction::NegZ));
    }
    let mut zeros: usize = 0;
    let mut dir = Direction::PosX;
    if pens.pos_x == 0 {
        zeros = zeros + 1;
        dir = Direction::PosX;
    }
    if pens.neg_x == 0 {
        zeros = zeros + 1;
        dir = Direction::NegX;
    }
    if pens.pos_y == 0 {
        zeros = zeros + 1;
        dir = Direction::PosY;
    }
    if pens.neg_y == 0 {
        zeros = zeros + 1;
        dir = Direction::NegY;
    }
    if pens.pos_z == 0 {
        zeros = zeros + 1;
        dir = Direction::PosZ;
    }
    if pens.neg_z == 0 {
        zeros = zeros + 1;
        dir = Direction::NegZ;
    }
    if zeros != 1 {
        return None;
    }
    let neg_dir = dir.negate();
    // Grow the rooms into each other along the door normal, then intersect.
    let grown_r1 = door_grow(r1, neg_dir);
    let grown_r2 = door_grow(r2, dir);
    Some((grown_r1.intersection(&grown_r2), dir))
}

/// Largest in-plane span a sampled door can have: the configured maximum,
/// lifted to the minimum when the two bounds cross.
pub open spec fn door_span_bound(min_door_dim: u32, max_door_dim: u32) -> int {
    if min_door_dim >= max_door_dim {
        min_door_dim as int
    } else {
        max_door_dim as int
    }
}

/// The shape every sampled door has: thickness two along one axis, and the
/// other two spans within the clamped door bounds.
pub open spec fn door_shaped(d: Extent, min_door_dim: u32, max_door_dim: u32) -> bool {
    ||| (d.local_supremum.x == 2 && min_door_dim <= d.local_supremum.y <= door_span_bound(
        min_door_dim,
        max_door_dim,
    ) && min_door_dim <= d.local_supremum.z <= door_span_bound(min_door_dim, max_door_dim))
    ||| (d.local_supremum.y == 2 && min_door_dim <= d.local_supremum.x <= door_span_bound(
        min_door_dim,
        max_door_dim,
    ) && min_door_dim <= d.local_supremum.z <= door_span_bound(min_door_dim, max_door_dim))
    ||| (d.local_supremum.z == 2 && min_door_dim <= d.local_supremum.x <= door_span_bound(
        min_door_dim,
        max_door_dim,
    ) && min_door_dim <= d.local_supremum.y <= door_span_bound(min_door_dim, max_door_dim))
}

/// The region's two in-plane spans (for normal direction `dir`) are at
/// least the minimum door size.
pub open spec fn region_admits_door(region: Extent, dir: Direction, min_door_dim: u32) -> bool {
    match dir {
        Direction::PosX | Direction::NegX => region.local_supremum.y >= min_door_dim
            && region.local_supremum.z >= min_door_dim,
        Direction::PosY | Direction::NegY => region.local_supremum.x >= min_door_dim
            && region.local_supremum.z >= min_door_dim,
        Direction::PosZ | Direction::NegZ => region.local_supremum.x >= min_door_dim
            && region.local_supremum.y >= min_door_dim,
    }
}

/// Try to cut a random door between two rooms: take the door-able face
/// region, draw a random sub-rectangle of it, clamp its two in-plane spans
/// into `[min_door_dim, max_door_dim]`, and give the door a thickness of two
/// along the face normal. Returns nothing when the rooms share no single
/// face, when the region is smaller than the minimum door, or when clamping
/// pushed the sampled door outside the region.
#[verifier::rlimit(60)]
pub fn try_generate_door_big_enough_between_rooms(
    min_door_dim: u32,
    max_door_dim: u32,
    r1: &Extent,
    r2: &Extent,
    rng: &mut SmallRng,
) -> (r: Option<Extent>)
    requires
        r1.wf(),
        r2.wf(),
        r1.in_range(WORLD_BOUND as int),
        r2.in_range(WORLD_BOUND as int),
        min_door_dim <= 4094,
        max_door_dim <= 4094,
    ensures
        zero_pen_count(*r1, *r2) != 1 ==> r is None,
        r matches Some(d) ==> fillable(d) && door_shaped(d, min_door_dim, max_door_dim),
        r matches Some(d) ==> exists|dir: Direction|
            #[trigger] r1.spec_pen(*r2, dir) == 0 && d.spec_subset(spec_door_region(*r1, *r2, dir))
                && !spec_door_region(*r1, *r2, dir).spec_is_empty() && region_admits_door(
                spec_door_region(*r1, *r2, dir),
                dir,
                min_door_dim,
            ),
        door_guaranteed(*r1, *r2, min_door_dim, max_door_dim) ==> r is Some,
{
    let found = get_door_able_extent_for_rooms(r1, r2);
    let (extent, dir) = match found {
        Some(pair) => pair,
        None => {
            return None;
        },
    };
    if extent.is_empty() {
        return None;
    }
    // Work in the face plane: `u` and `v` span the face, the normal axis
    // gets the fixed thickness.
    let min = extent.get_minimum();
    let sup = extent.get_local_supremum();
    let (u_min, u_sup, v_min, v_sup, n_min) = match dir {
        Direction::PosX | Direction::NegX => (min.y, sup.y, min.z, sup.z, min.x),
        Direction::PosY | Direction::NegY => (min.x, sup.x, min.z, sup.z, min.y),
        Direction::PosZ | Direction::NegZ => (min.x, sup.x, min.y, sup.y, min.z),
    };
    let min_dim = min_door_dim as i32;
    let max_dim = max_door_dim as i32;
    if u_sup < min_dim || v_sup < min_dim {
        return None;
    }
    let (door_u_min, door_u_max) = sample_range(rng, u_min, u_min + u_sup - 1);
    let (door_v_min, door_v_max) = sample_range(rng, v_min, v_min + v_sup - 1);
    let u_span = 1 + door_u_max - door_u_min;
    let v_span = 1 + door_v_max - door_v_min;
    let door_u_sup = if u_span > max_dim {
        if max_dim < min_dim {
            min_dim
        } else {
            max_dim
        }
    } else if u_span < min_dim {
        min_dim
    } else {
        u_span
    };
    let door_v_sup = if v_span > max_dim {
        if max_dim < min_dim {
            min_dim
        } else {
            max_dim
        }
    } else if v_span < min_dim {
        min_dim
    } else {
        v_span
    };
    let door = match dir {
        Direction::PosX | Direction::NegX => Extent {
            minimum: Point { x: n_min, y: door_u_min, z: door_v_min },
            local_supremum: Point { x: 2, y: door_u_sup, z: door_v_sup },
        },
        Direction::PosY | Direction::NegY => Extent {
            minimum: Point { x: door_u_min, y: n_min, z: door_v_min },
            local_supremum: Point { x: door_u_sup, y: 2, z: door_v_sup },
        },
        Direction::PosZ | Direction::NegZ => Extent {
            minimum: Point { x: door_u_min, y: door_v_min, z: n_min },
            local_supremum: Point { x: door_u_sup, y: door_v_sup, z: 2 },
        },
    };
    proof {
        if zero_pen_count(*r1, *r2) == 1 && min_door_dim == 1 && 1 <= max_door_dim
            && !r1.spec_is_empty() && !r2.spec_is_empty() && (forall|dirq: Direction|
        #[trigger] r1.spec_pen(*r2, dirq) == 0 ==> !spec_door_region(
            *r1,
            *r2,
            dirq,
        ).spec_is_empty()) {
            let g1 = spec_door_grow(*r1, dir.spec_negate());
            let g2 = spec_door_grow(*r2, dir);
            assert(extent == crate::extent::spec_intersection(g1, g2));
            // With a shared face and nonempty rooms, the region is exactly
            // two deep along the normal, so the fixed-thickness door fits.
            match dir {
                Direction::PosX | Direction::NegX => {
                    assert(extent.local_supremum.x == 2);
                },
                Direction::PosY | Direction::NegY => {
                    assert(extent.local_supremum.y == 2);
                },
                Direction::PosZ | Direction::NegZ => {
                    assert(extent.local_supremum.z == 2);
                },
            }
            assert forall|p: Point| door.spec_contains(p) implies extent.spec_contains(p) by {}
            assert(door.spec_subset(extent));
        }
    }
    // Size clamping can push the random door outside the valid region.
    if door.is_subset(&extent) {
        proof {
            assert(r1.spec_pen(*r2, dir) == 0 && door.spec_subset(
                spec_door_region(*r1, *r2, dir),
            ) && !spec_door_region(*r1, *r2, dir).spec_is_empty() && region_admits_door(
                spec_door_region(*r1, *r2, dir),
                dir,
                min_door_dim,
            ));
        }
        Some(door)
    } else {
        None
    }
}

/// Conditions under which the door sampler succeeds on every draw: the two
/// rooms are non-empty, share exactly one face plane, the region between
/// them is non-empty, and the minimum door size is one with a sane maximum.
pub open spec fn door_guaranteed(ra: Extent, rb: Extent, min_door_dim: u32, max_door_dim: u32) -> bool {
    &&& zero_pen_count(ra, rb) == 1
    &&& min_door_dim == 1
    &&& 1 <= max_door_dim
    &&& !ra.spec_is_empty()
    &&& !rb.spec_is_empty()
    &&& forall|dirq: Direction|
        #[trigger] ra.spec_pen(rb, dirq) == 0 ==> !spec_door_region(ra, rb, dirq).spec_is_empty()
}

/// The map of door extents covers every edge of the graph, keyed by the
/// unordered pair of room weights.
pub open spec fn doors_cover_graph(doors: Map<(int, int), Extent>, g: RoomGraph) -> bool {
    forall|a: int, b: int| #[trigger]
        g.has_edge(a, b) ==> doors.contains_key(
            crate::symmetric_map::key_of_int(g.spec_weight(a), g.spec_weight(b)),
        )
}

/// The stored door for the pair `{a, b}` lies inside the door-able region
/// between those two rooms.
pub open spec fn edge_door_in_region(
    doors: Map<(int, int), Extent>,
    a: int,
    b: int,
    ra: Extent,
    rb: Extent,
) -> bool {
    exists|dirq: Direction|
        #[trigger] ra.spec_pen(rb, dirq) == 0 && doors.contains_key(
            crate::symmetric_map::key_of_int(a, b),
        ) && doors[crate::symmetric_map::key_of_int(a, b)].spec_subset(
            spec_door_region(ra, rb, dirq),
        )
}

/// A node table of `n` slots where slot `j` carries weight `j`.
pub open spec fn identity_nodes(n: int) -> Seq<Option<usize>> {
    Seq::new(n as nat, |j: int| Some(j as usize))
}

/// Build the door graph over the room candidates: one node per room, and an
/// edge wherever a door could be cut, with the door stored in `doors` under
/// the unordered room-index pair.
pub fn generate_door_graph(
    rooms: &Vec<Extent>,
    min_door_dim: u32,
    max_door_dim: u32,
    rng: &mut SmallRng,
    doors: &mut SymmetricMap<Extent>,
) -> (g: RoomGraph)
    requires
        forall|i: int|
            0 <= i < rooms@.len() ==> (#[trigger] rooms@[i]).wf() && rooms@[i].in_range(
                WORLD_BOUND as int,
            ),
        min_door_dim <= 4094,
        max_door_dim <= 4094,
        old(doors).wf(),
        old(doors)@ == Map::<(int, int), Extent>::empty(),
    ensures
        g.wf(),
        g.nodes@.len() == rooms@.len(),
        g.nodes@ == identity_nodes(rooms@.len() as int),
        forall|i: int|
            0 <= i < rooms@.len() ==> #[trigger] g.is_node(i) && g.spec_weight(i) == i,
        final (doors).wf(),
        doors_cover_graph(final (doors)@, g),
        forall|key: (int, int)| #[trigger]
            final (doors)@.contains_key(key) ==> fillable(final (doors)@[key]) && door_shaped(
                final (doors)@[key],
                min_door_dim,
                max_door_dim,
            ),
        forall|a: int, b: int| #[trigger]
            g.has_edge(a, b) ==> 0 <= a < rooms@.len() && 0 <= b < rooms@.len()
                && zero_pen_count(rooms@[a], rooms@[b]) == 1,
        forall|a: int, b: int| #[trigger]
            g.has_edge(a, b) && a < b ==> edge_door_in_region(
                final (doors)@,
                a,
                b,
                rooms@[a],
                rooms@[b],
            ),
        forall|a: int, b: int|
            0 <= a < b < rooms@.len() && #[trigger] door_guaranteed(
                rooms@[a],
                rooms@[b],
                min_door_dim,
                max_door_dim,
            ) ==> g.has_edge(a, b),
{
    let mut graph = RoomGraph::new();
    let n = rooms.len();
    let mut i: usize = 0;
    while i < n
        invariant
            graph.wf(),
            n == rooms@.len(),
            i <= n,
            graph.nodes@ == identity_nodes(i as int),
            graph.edges@.len() == 0,
        decreases n - i,
    {
        let _ = graph.add_node(i);
        proof {
            assert(graph.nodes@ =~= identity_nodes(i + 1));
        }
        i = i + 1;
    }
    let mut i: usize = 0;
    while i < n
        invariant
            graph.wf(),
            doors.wf(),
            n == rooms@.len(),
            i <= n,
            graph.nodes@ == identity_nodes(n as int),
            forall|i2: int|
                0 <= i2 < rooms@.len() ==> (#[trigger] rooms@[i2]).wf() && rooms@[i2].in_range(
                    WORLD_BOUND as int,
                ),
            min_door_dim <= 4094 && max_door_dim <= 4094,
            forall|a: int, b: int| #[trigger]
                graph.has_edge(a, b) ==> 0 <= a < n && 0 <= b < n && a != b && zero_pen_count(
                    rooms@[a],
                    rooms@[b],
                ) == 1,
            forall|a: int, b: int| #[trigger]
                graph.has_edge(a, b) && a < b ==> a < i && edge_door_in_region(
                    doors@,
                    a,
                    b,
                    rooms@[a],
                    rooms@[b],
                ),
            forall|a: int, b: int|
                0 <= a < b < n && a < i && #[trigger] door_guaranteed(
                    rooms@[a],
                    rooms@[b],
                    min_door_dim,
                    max_door_dim,
                ) ==> graph.has_edge(a, b),
            doors_cover_graph(doors@, graph),
            forall|key: (int, int)| #[trigger]
                doors@.contains_key(key) ==> fillable(doors@[key]) && door_shaped(
                    doors@[key],
                    min_door_dim,
                    max_door_dim,
                ),
        decreases n - i,
    {
        let mut j: usize = i + 1;
        while j < n
            invariant
                graph.wf(),
                doors.wf(),
                n == rooms@.len(),
                i < n,
                i < j,
                graph.nodes@ == identity_nodes(n as int),
                forall|i2: int|
                    0 <= i2 < rooms@.len() ==> (#[trigger] rooms@[i2]).wf() && rooms@[i2].in_range(
                        WORLD_BOUND as int,
                    ),
                min_door_dim <= 4094 && max_door_dim <= 4094,
                forall|a: int, b: int| #[trigger]
                    graph.has_edge(a, b) ==> 0 <= a < n && 0 <= b < n && a != b && zero_pen_count(
                        rooms@[a],
                        rooms@[b],
                    ) == 1,
                forall|a: int, b: int| #[trigger]
                    graph.has_edge(a, b) && a < b ==> (a < i || (a == i && b < j))
                        && edge_door_in_region(doors@, a, b, rooms@[a], rooms@[b]),
                forall|a: int, b: int|
                    0 <= a < b < n && (a < i || (a == i && b < j)) && #[trigger] door_guaranteed(
                        rooms@[a],
                        rooms@[b],
                        min_door_dim,
                        max_door_dim,
                    ) ==> graph.has_edge(a, b),
                doors_cover_graph(doors@, graph),
                forall|key: (int, int)| #[trigger]
                    doors@.contains_key(key) ==> fillable(doors@[key]) && door_shaped(
                        doors@[key],
                        min_door_dim,
                        max_door_dim,
                    ),
            decreases n - j,
        {
            proof {
                assert(graph.nodes@[i as int] == Some(i));
                assert(graph.nodes@[j as int] == Some(j));
            }
            let maybe_door = try_generate_door_big_enough_between_rooms(
                min_door_dim,
                max_door_dim,
                &rooms[i],
                &rooms[j],
                rng,
            );
            match maybe_door {
                Some(door) => {
                    proof {
                        if graph.has_edge(i as int, j as int) {
                            assert(false);
                        }
                    }
                    let ghost doors0 = doors@;
                    doors.insert(i, j, door);
                    let ghost g1 = graph;
                    graph.add_edge(i, j);
                    proof {
                        assert(doors@.contains_key(key_of(i, j)));
                        let chosen = choose|dirq: Direction|
                            #[trigger] rooms@[i as int].spec_pen(rooms@[j as int], dirq) == 0
                                && door.spec_subset(
                                spec_door_region(rooms@[i as int], rooms@[j as int], dirq),
                            ) && !spec_door_region(
                                rooms@[i as int],
                                rooms@[j as int],
                                dirq,
                            ).spec_is_empty() && region_admits_door(
                                spec_door_region(rooms@[i as int], rooms@[j as int], dirq),
                                dirq,
                                min_door_dim,
                            );
                        assert(doors@[key_of(i, j)] == door);
                        assert(edge_door_in_region(
                            doors@,
                            i as int,
                            j as int,
                            rooms@[i as int],
                            rooms@[j as int],
                        ));
                        assert(zero_pen_count(rooms@[j as int], rooms@[i as int]) == 1);
                        assert forall|a: int, b: int| #[trigger]
                            graph.has_edge(a, b) && a < b implies edge_door_in_region(
                            doors@,
                            a,
                            b,
                            rooms@[a],
                            rooms@[b],
                        ) by {
                            if !(a == i as int && b == j as int) {
                                assert(g1.has_edge(a, b));
                                assert(edge_door_in_region(doors0, a, b, rooms@[a], rooms@[b]));
                                let dirq = choose|dirq: Direction|
                                    #[trigger] rooms@[a].spec_pen(rooms@[b], dirq) == 0
                                        && doors0.contains_key(
                                        crate::symmetric_map::key_of_int(a, b),
                                    ) && doors0[crate::symmetric_map::key_of_int(a, b)].spec_subset(
                                        spec_door_region(rooms@[a], rooms@[b], dirq),
                                    );
                                assert(crate::symmetric_map::key_of_int(a, b) != key_of(i, j));
                                assert(doors@[crate::symmetric_map::key_of_int(a, b)] == doors0[
                                    crate::symmetric_map::key_of_int(a, b)
                                ]);
                            }
                        }
                        assert forall|a: int, b: int| #[trigger]
                            graph.has_edge(a, b) implies doors@.contains_key(
                            crate::symmetric_map::key_of_int(
                                graph.spec_weight(a),
                                graph.spec_weight(b),
                            ),
                        ) && 0 <= a < n && 0 <= b < n && a != b && (a < b ==> (a < i as int || (a
                            == i as int && b < j + 1))) by {
                            if (a == i as int && b == j as int) || (a == j as int && b
                                == i as int) {
                                assert(graph.nodes@[a] == Some(a as usize));
                                assert(graph.nodes@[b] == Some(b as usize));
                                assert(crate::symmetric_map::key_of_int(a, b) == key_of(i, j));
                            } else {
                                assert(g1.has_edge(a, b));
                                assert(doors@.contains_key(
                                    crate::symmetric_map::key_of_int(
                                        g1.spec_weight(a),
                                        g1.spec_weight(b),
                                    ),
                                ));
                            }
                        }
                    }
                },
                None => {},
            }
            j = j + 1;
        }
        i = i + 1;
    }
    proof {
        assert forall|i2: int|
            0 <= i2 < rooms@.len() implies #[trigger] graph.is_node(i2) && graph.spec_weight(i2)
            == i2 by {
            assert(graph.nodes@[i2] == Some(i2 as usize));
        }
    }
    graph
}

/// `r` is the room extent of some surviving node of `g`.
pub open spec fn room_from_graph(r: Extent, candidates: Seq<Extent>, g: RoomGraph) -> bool {
    exists|i: int| #[trigger] g.is_node(i) && r == candidates[g.spec_weight(i)]
}

/// `d` is one of the door extents stored in the map.
pub open spec fn door_from_map(d: Extent, doors: Map<(int, int), Extent>) -> bool {
    exists|key: (int, int)| #[trigger] doors.contains_key(key) && d == doors[key]
}

/// The room extents of the graph's surviving nodes.
pub fn collect_rooms_from_room_graph(
    room_candidates: &Vec<Extent>,
    room_graph: &RoomGraph,
) -> (r: Vec<Extent>)
    requires
        room_graph.wf(),
        forall|i: int|
            room_graph.is_node(i) ==> 0 <= #[trigger] room_graph.spec_weight(i)
                < room_candidates@.len(),
    ensures
        r@.len() == room_graph.spec_node_count(),
        forall|k: int|
            0 <= k < r@.len() ==> #[trigger] r@[k] == room_candidates@[room_graph.spec_weight(
                crate::graph::live_slots_of(room_graph.nodes@)[k] as int,
            )],
        forall|k: int|
            0 <= k < r@.len() ==> room_from_graph(#[trigger] r@[k], room_candidates@, *room_graph),
{
    proof {
        crate::graph::lemma_live_slots_len(room_graph.nodes@);
    }
    let nodes = room_graph.live_nodes();
    let mut r: Vec<Extent> = Vec::new();
    let mut k: usize = 0;
    while k < nodes.len()
        invariant
            room_graph.wf(),
            forall|i: int|
                room_graph.is_node(i) ==> 0 <= #[trigger] room_graph.spec_weight(i)
                    < room_candidates@.len(),
            k <= nodes@.len(),
            r@.len() == k,
            forall|m: int|
                0 <= m < nodes@.len() ==> room_graph.is_node((#[trigger] nodes@[m]) as int),
            forall|m: int|
                0 <= m < k ==> (#[trigger] r@[m]) == room_candidates@[room_graph.spec_weight(
                    nodes@[m] as int,
                )],
        decreases nodes@.len() - k,
    {
        let n = nodes[k];
        let w = room_graph.node_weight(n);
        r.push(room_candidates[w]);
        k = k + 1;
    }
    proof {
        assert forall|k2: int| 0 <= k2 < r@.len() implies room_from_graph(
            #[trigger] r@[k2],
            room_candidates@,
            *room_graph,
        ) by {
            assert(room_graph.is_node(nodes@[k2] as int) && r@[k2] == room_candidates@[
                room_graph.spec_weight(nodes@[k2] as int)
            ]);
        }
    }
    r
}

/// The door extents of the graph's surviving edges, read back from the
/// symmetric map under each edge's room-index pair.
pub fn collect_doors_from_room_graph(
    doors: &SymmetricMap<Extent>,
    room_graph: &RoomGraph,
) -> (r: Vec<Extent>)
    requires
        doors.wf(),
        room_graph.wf(),
        forall|i: int|
            room_graph.is_node(i) ==> 0 <= #[trigger] room_graph.spec_weight(i) < usize::MAX,
        doors_cover_graph(doors@, *room_graph),
    ensures
        r@.len() == room_graph.edges@.len(),
        forall|k: int|
            0 <= k < r@.len() ==> #[trigger] r@[k] == doors@[crate::symmetric_map::key_of_int(
                room_graph.spec_weight(room_graph.edges@[k].0 as int),
                room_graph.spec_weight(room_graph.edges@[k].1 as int),
            )],
        forall|k: int| 0 <= k < r@.len() ==> door_from_map(#[trigger] r@[k], doors@),
{
    let mut r: Vec<Extent> = Vec::new();
    let mut k: usize = 0;
    while k < room_graph.edges.len()
        invariant
            doors.wf(),
            room_graph.wf(),
            forall|i: int|
                room_graph.is_node(i) ==> 0 <= #[trigger] room_graph.spec_weight(i) < usize::MAX,
            doors_cover_graph(doors@, *room_graph),
            k <= room_graph.edges@.len(),
            r@.len() == k,
            forall|m: int|
                0 <= m < k ==> doors@.contains_key(
                    crate::symmetric_map::key_of_int(
                        room_graph.spec_weight((#[trigger] room_graph.edges@[m]).0 as int),
                        room_graph.spec_weight(room_graph.edges@[m].1 as int),
                    ),
                ) && r@[m] == doors@[crate::symmetric_map::key_of_int(
                    room_graph.spec_weight(room_graph.edges@[m].0 as int),
                    room_graph.spec_weight(room_graph.edges@[m].1 as int),
                )],
        decreases room_graph.edges@.len() - k,
    {
        let e = room_graph.edges[k];
        proof {
            assert(room_graph.is_node(e.0 as int) && room_graph.is_node(e.1 as int));
            assert(seq_has_edge(room_graph.edges@, e.0 as int, e.1 as int));
            assert(room_graph.has_edge(e.0 as int, e.1 as int));
        }
        let i_idx = room_graph.node_weight(e.0);
        let j_idx = room_graph.node_weight(e.1);
        proof {
            assert(doors@.contains_key(key_of(i_idx, j_idx)));
        }
        let door = *doors.get(i_idx, j_idx);
        r.push(door);
        k = k + 1;
    }
    proof {
        assert forall|k2: int| 0 <= k2 < r@.len() implies door_from_map(
            #[trigger] r@[k2],
            doors@,
        ) by {
            let key = crate::symmetric_map::key_of_int(
                room_graph.spec_weight(room_graph.edges@[k2].0 as int),
                room_graph.spec_weight(room_graph.edges@[k2].1 as int),
            );
            assert(doors@.contains_key(key) && r@[k2] == doors@[key]);
        }
    }
    r
}

/// The room pulled in by the wall thickness on every face: what is in the
/// room but not in here is wall.
pub open spec fn room_interior(room: Extent) -> Extent {
    Extent {
        minimum: Point {
            x: (room.minimum.x + 5) as i32,
            y: (room.minimum.y + 5) as i32,
            z: (room.minimum.z + 5) as i32,
        },
        local_supremum: Point {
            x: if room.local_supremum.x - 10 >= 0 {
                (room.local_supremum.x - 10) as i32
            } else {
                0
            },
            y: if room.local_supremum.y - 10 >= 0 {
                (room.local_supremum.y - 10) as i32
            } else {
                0
            },
            z: if room.local_supremum.z - 10 >= 0 {
                (room.local_supremum.z - 10) as i32
            } else {
                0
            },
        },
    }
}

/// Exactly the wall-shell points of a room: in the room, but not in its
/// interior.
pub fn shell_points(room: &Extent) -> (r: Vec<Point>)
    requires
        fillable(*room),
    ensures
        forall|p: Point| #[trigger]
            r@.contains(p) <==> room.spec_contains(p) && !room_interior(*room).spec_contains(p),
        forall|k1: int, k2: int| 0 <= k1 < k2 < r@.len() ==> r@[k1] != r@[k2],
{
    let interior = room.radial_grow(-5);
    proof {
        assert(interior == room_interior(*room));
    }
    let points = room.extent_points();
    let mut r: Vec<Point> = Vec::new();
    let mut k: usize = 0;
    while k < points.len()
        invariant
            k <= points@.len(),
            interior == room_interior(*room),
            forall|p: Point| #[trigger] points@.contains(p) <==> room.spec_contains(p),
            forall|p: Point| #[trigger]
                r@.contains(p) <==> points@.take(k as int).contains(p)
                    && !interior.spec_contains(p),
            forall|p1: int, p2: int| 0 <= p1 < p2 < points@.len() ==> points@[p1] != points@[p2],
            forall|k1: int, k2: int| 0 <= k1 < k2 < r@.len() ==> r@[k1] != r@[k2],
        decreases points@.len() - k,
    {
        let q = points[k];
        proof {
            assert(points@.take(k + 1).drop_last() =~= points@.take(k as int));
            assert(points@.take(k + 1).last() == points@[k as int]);
        }
        if !interior.contains_world(&q) {
            let ghost r0 = r@;
            proof {
                if r0.contains(q) {
                    let m0 = choose|m0: int| 0 <= m0 < r0.len() && r0[m0] == q;
                    assert(points@.take(k as int).contains(q));
                    let m1 = choose|m1: int|
                        0 <= m1 < points@.take(k as int).len() && (#[trigger] points@.take(
                            k as int,
                        )[m1]) == q;
                    assert(points@[m1] == q && points@[k as int] == q);
                    assert(false);
                }
            }
            r.push(q);
            proof {
                assert forall|k1: int, k2: int|
                    0 <= k1 < k2 < r@.len() implies r@[k1] != r@[k2] by {
                    if k2 == r@.len() - 1 {
                        assert(r@[k1] == r0[k1]);
                        if r0[k1] == q {
                            assert(r0.contains(q));
                        }
                    } else {
                        assert(r@[k1] == r0[k1] && r@[k2] == r0[k2]);
                    }
                }
                assert forall|p: Point| #[trigger]
                    r@.contains(p) <==> points@.take(k + 1).contains(p) && !interior.spec_contains(
                    p,
                ) by {
                    if r@.contains(p) {
                        let m = choose|m: int| 0 <= m < r@.len() && r@[m] == p;
                        if m < r0.len() {
                            assert(r0[m] == p);
                            assert(r0.contains(p));
                            let m2 = choose|m2: int|
                                0 <= m2 < points@.take(k as int).len() && (#[trigger] points@.take(
                                    k as int,
                                )[m2]) == p;
                            assert(points@.take(k + 1)[m2] == p);
                        } else {
                            assert(p == q);
                            assert(points@.take(k + 1)[k as int] == p);
                        }
                    }
                    if points@.take(k + 1).contains(p) && !interior.spec_contains(p) {
                        let m2 = choose|m2: int|
                            0 <= m2 < points@.take(k + 1).len() && (#[trigger] points@.take(
                                k + 1,
                            )[m2]) == p;
                        if m2 < k {
                            assert(points@.take(k as int)[m2] == p);
                            assert(r0.contains(p));
                            let m = choose|m: int| 0 <= m < r0.len() && r0[m] == p;
                            assert(r@[m] == p);
                        } else {
                            assert(p == q);
                            assert(r@[r@.len() - 1] == p);
                        }
                    }
                }
            }
        } else {
            proof {
                assert forall|p: Point| #[trigger]
                    r@.contains(p) <==> points@.take(k + 1).contains(p) && !interior.spec_contains(
                    p,
                ) by {
                    if points@.take(k + 1).contains(p) && !interior.spec_contains(p) {
                        let m2 = choose|m2: int|
                            0 <= m2 < points@.take(k + 1).len() && (#[trigger] points@.take(
                                k + 1,
                            )[m2]) == p;
                        if m2 < k {
                            assert(points@.take(k as int)[m2] == p);
                        } else {
                            assert(p == q);
                            assert(false);
                        }
                    }
                    if r@.contains(p) {
                        let m2 = choose|m2: int|
                            0 <= m2 < points@.take(k as int).len() && (#[trigger] points@.take(
                                k as int,
                            )[m2]) == p;
                        assert(points@.take(k + 1)[m2] == p);
                    }
                }
            }
        }
        k = k + 1;
    }
    proof {
        assert(points@.take(points@.len() as int) =~= points@);
    }
    r
}

/// Write the wall shell of every room: each lattice point of a room that is
/// not in the room shrunk inward by the wall thickness becomes a floor voxel.
pub fn fill_map_with_rooms(rooms: &Vec<Extent>, encoder: &mut impl VoxelEncoder)
    requires
        forall|i: int| 0 <= i < rooms@.len() ==> fillable(#[trigger] rooms@[i]),
{
    let mut i: usize = 0;
    while i < rooms.len()
        invariant
            forall|j: int| 0 <= j < rooms@.len() ==> fillable(#[trigger] rooms@[j]),
            i <= rooms@.len(),
        decreases rooms@.len() - i,
    {
        let shell = shell_points(&rooms[i]);
        let mut p: usize = 0;
        while p < shell.len()
            invariant
                p <= shell@.len(),
            decreases shell@.len() - p,
        {
            let q = shell[p];
            let v = floor_voxel();
            encoder.encode_voxel(&q, &v);
            p = p + 1;
        }
        i = i + 1;
    }
}

/// Carve every door: each lattice point of a door extent becomes an empty
/// voxel, opening the wall between its two rooms.
pub fn fill_map_with_doors(doors: &Vec<Extent>, encoder: &mut impl VoxelEncoder)
    requires
        forall|i: int| 0 <= i < doors@.len() ==> fillable(#[trigger] doors@[i]),
{
    let mut i: usize = 0;
    while i < doors.len()
        invariant
            forall|j: int| 0 <= j < doors@.len() ==> fillable(#[trigger] doors@[j]),
            i <= doors@.len(),
        decreases doors@.len() - i,
    {
        let d = doors[i];
        let points = d.extent_points();
        let mut p: usize = 0;
        while p < points.len()
            invariant
                p <= points@.len(),
            decreases points@.len() - p,
        {
            let q = points[p];
            let v = empty_voxel();
            encoder.encode_voxel(&q, &v);
            p = p + 1;
        }
        i = i + 1;
    }
}

/// The slab of points one unit above a room's floor and one unit inside its
/// walls, with the vertical size forced to one voxel.
pub open spec fn spawn_region(room: Extent) -> Extent {
    Extent {
        minimum: Point {
            x: (room.minimum.x + 1) as i32,
            y: (room.minimum.y + 1) as i32,
            z: (room.minimum.z + 1) as i32,
        },
        local_supremum: Point {
            x: if room.local_supremum.x - 2 >= 0 {
                (room.local_supremum.x - 2) as i32
            } else {
                0
            },
            y: 1,
            z: if room.local_supremum.z - 2 >= 0 {
                (room.local_supremum.z - 2) as i32
            } else {
                0
            },
        },
    }
}

/// `points` is exactly the spawn slab of `room`.
pub open spec fn is_spawn_slab_of(points: Seq<Point>, room: Extent) -> bool {
    forall|p: Point| #[trigger] points.contains(p) <==> spawn_region(room).spec_contains(p)
}

/// The single-voxel-thick slab just above a room's floor, inside its walls.
/// This does not avoid doorways that open onto the floor, so a spawn point
/// can coincide with a doorway.
pub fn spawn_in_room(room: &Extent) -> (r: SpawnArea)
    requires
        fillable(*room),
    ensures
        forall|p: Point| #[trigger]
            r.valid_spawn_points@.contains(p) <==> spawn_region(*room).spec_contains(p),
        forall|k1: int, k2: int|
            0 <= k1 < k2 < r.valid_spawn_points@.len() ==> r.valid_spawn_points@[k1]
                != r.valid_spawn_points@[k2],
        r.valid_spawn_points@.len() == spawn_region(*room).spec_volume(),
        room.local_supremum.x >= 3 && room.local_supremum.z >= 3
            ==> r.valid_spawn_points@.len() == (room.local_supremum.x - 2) * (room.local_supremum.z
                - 2) && r.valid_spawn_points@.len() > 0,
{
    let internal_boundary = room.radial_grow(-1);
    let mut sup = internal_boundary.get_local_supremum();
    sup.y = 1;
    let mut hero_spawn_area = internal_boundary;
    hero_spawn_area.set_local_supremum(sup);
    proof {
        assert(hero_spawn_area == spawn_region(*room));
    }
    let valid_spawn_points = hero_spawn_area.extent_points();
    proof {
        if room.local_supremum.x >= 3 && room.local_supremum.z >= 3 {
            let w = Point {
                x: (room.minimum.x + 1) as i32,
                y: (room.minimum.y + 1) as i32,
                z: (room.minimum.z + 1) as i32,
            };
            assert(spawn_region(*room).spec_contains(w));
            assert(valid_spawn_points@.contains(w));
        }
    }
    SpawnArea { valid_spawn_points }
}

} // verus!
