use vstd::prelude::*;

verus! {

use rand::rngs::SmallRng;
use crate::extent::{in_world_range_exec, resolve_extent_overlaps, Extent, WORLD_BOUND};
use crate::graph::{
    hub_linked, largest_connected_subgraph, lemma_live_count_le_len, lemma_live_count_pos_of_node,
    longest_path_in_tree, prune_outer_nodes_to_reach_size, same_graph, spanning_tree, RoomGraph,
};
use crate::room::{
    collect_doors_from_room_graph, collect_rooms_from_room_graph, doors_cover_graph,
    fill_map_with_doors, fill_map_with_rooms, fillable, generate_door_graph, is_spawn_slab_of,
    spawn_in_room,
};
use crate::sampling::{
    sample_extents, LatticeNormalDistSpec, LatticeUniformDistSpec, PointSampler,
};
use crate::symmetric_map::SymmetricMap;
use crate::{SpawnArea, VoxelEncoder};

/// How many whole generation attempts are made before giving up.
pub const MAX_GENERATE_TRIES: usize = 200;

/// The output of a successful generation: where the player may spawn.
#[derive(Debug)]
pub struct DungeonMeta {
    pub spawn_area: SpawnArea,
}

/// How many rooms the dungeon should have, and how long the guaranteed walk
/// from entrance to objective should be.
#[derive(Clone, Copy, Debug, Default, PartialEq, Eq, Structural)]
pub struct RoomGraphSpec {
    pub num_rooms: usize,
    pub entrance_to_objective_path_length: usize,
}

/// Where rooms are placed and how large they are drawn.
#[derive(Clone, Copy, Debug, Default, PartialEq, Eq)]
pub struct RoomDistributionSpec {
    pub location: LatticeUniformDistSpec,
    pub size: LatticeNormalDistSpec,
}

/// The full generation configuration. With a fixed seed and a fixed point
/// sampler the whole generation is reproducible.
#[derive(Clone, Copy, Debug, Default, PartialEq, Eq)]
pub struct DungeonMapSpec {
    pub seed: [u32; 4],
    pub room_graph: RoomGraphSpec,
    pub room_dist: RoomDistributionSpec,
    pub min_room_dim: u32,
    pub max_room_dim: u32,
    pub min_door_dim: u32,
    pub max_door_dim: u32,
}

/// Generation ran out of retries: the requested room count, path length and
/// size bounds are jointly infeasible.
#[derive(Clone, Copy, Debug, PartialEq, Eq, Structural)]
pub enum GenerationError {
    RetriesExhausted,
}

/// The weight `w` names a room held by some node of `g`.
pub open spec fn is_weight_of(w: usize, g: RoomGraph) -> bool {
    exists|i: int| #[trigger] g.is_node(i) && g.spec_weight(i) == w as int
}

/// The weight `w` occurs in the path of room indices.
pub open spec fn in_path(w: int, path: Seq<usize>) -> bool {
    exists|k: int| 0 <= k < path.len() && (#[trigger] path[k]) as int == w
}

/// Every listed slot is a node of `g`.
fn all_nodes_present(g: &RoomGraph, nodes: &Vec<usize>) -> (r: bool)
    ensures
        r == forall|m: int| 0 <= m < nodes@.len() ==> g.is_node((#[trigger] nodes@[m]) as int),
{
    let mut m: usize = 0;
    while m < nodes.len()
        invariant
            m <= nodes@.len(),
            forall|m2: int| 0 <= m2 < m ==> g.is_node((#[trigger] nodes@[m2]) as int),
        decreases nodes@.len() - m,
    {
        if !g.contains_node(nodes[m]) {
            return false;
        }
        m = m + 1;
    }
    true
}

/// Does `values` hold `x`?
fn contains_usize(values: &Vec<usize>, x: usize) -> (r: bool)
    ensures
        r == values@.contains(x),
{
    let mut m: usize = 0;
    while m < values.len()
        invariant
            m <= values@.len(),
            forall|m2: int| 0 <= m2 < m ==> (#[trigger] values@[m2]) != x,
        decreases values@.len() - m,
    {
        if values[m] == x {
            return true;
        }
        m = m + 1;
    }
    false
}

/// The room indices of the first `desired_len - 1` nodes of a longest path
/// through the tree, or nothing when every path is too short.
fn choose_main_path(desired_len: usize, mst: &RoomGraph) -> (r: Option<Vec<usize>>)
    requires
        mst.wf(),
        mst.spec_node_count() >= 1,
        desired_len >= 2,
    ensures
        r matches Some(v) ==> v@.len() == desired_len - 1 && forall|k: int|
            0 <= k < v@.len() ==> is_weight_of(#[trigger] v@[k], *mst),
        desired_len > mst.spec_node_count() ==> r is None,
{
    let path = longest_path_in_tree(mst);
    if path.len() >= desired_len {
        let mut v: Vec<usize> = Vec::new();
        let mut k: usize = 0;
        while k < desired_len - 1
            invariant
                mst.wf(),
                desired_len >= 2,
                desired_len <= path@.len(),
                k <= desired_len - 1,
                v@.len() == k,
                forall|m: int|
                    0 <= m < path@.len() ==> mst.is_node((#[trigger] path@[m]) as int),
                forall|m: int| 0 <= m < k ==> is_weight_of(#[trigger] v@[m], *mst),
            decreases desired_len - 1 - k,
        {
            let w = mst.node_weight(path[k]);
            v.push(w);
            proof {
                assert(mst.is_node(path@[k as int] as int) && mst.spec_weight(
                    path@[k as int] as int,
                ) == w as int);
            }
            k = k + 1;
        }
        Some(v)
    } else {
        None
    }
}

impl DungeonMapSpec {
    /// Limits under which generation is free of arithmetic trouble: at
    /// least one room, a walk of at least two rooms, door and room sizes
    /// within the fill limits, and room locations well inside the working
    /// coordinate range.
    pub open spec fn wf(self) -> bool {
        &&& 1 <= self.room_graph.num_rooms <= 0x10000
        &&& self.room_graph.entrance_to_objective_path_length >= 2
        &&& self.min_door_dim <= 1024
        &&& self.max_door_dim <= 1024
        &&& self.min_room_dim <= 1024
        &&& self.max_room_dim <= 1024
        &&& self.room_dist.location.wf()
        &&& -16777216 <= self.room_dist.location.x.0 && self.room_dist.location.x.1 <= 16777216
        &&& -16777216 <= self.room_dist.location.y.0 && self.room_dist.location.y.1 <= 16777216
        &&& -16777216 <= self.room_dist.location.z.0 && self.room_dist.location.z.1 <= 16777216
    }

    /// Runtime check for `wf`, for callers that take the configuration from
    /// outside.
    pub fn is_valid(&self) -> (r: bool)
        ensures
            r == self.wf(),
    {
        1 <= self.room_graph.num_rooms && self.room_graph.num_rooms <= 0x10000
            && self.room_graph.entrance_to_objective_path_length >= 2 && self.min_door_dim <= 1024
            && self.max_door_dim <= 1024 && self.min_room_dim <= 1024
            && self.max_room_dim <= 1024 && self.room_dist.location.x.0
            <= self.room_dist.location.x.1 && self.room_dist.location.y.0
            <= self.room_dist.location.y.1 && self.room_dist.location.z.0
            <= self.room_dist.location.z.1 && -16777216 <= self.room_dist.location.x.0
            && self.room_dist.location.x.1 <= 16777216 && -16777216 <= self.room_dist.location.y.0
            && self.room_dist.location.y.1 <= 16777216 && -16777216 <= self.room_dist.location.z.0
            && self.room_dist.location.z.1 <= 16777216
    }

    /// Every size component lies within the configured room bounds.
    pub open spec fn spec_valid_room_size(self, room: Extent) -> bool {
        &&& self.min_room_dim as int <= room.local_supremum.x <= self.max_room_dim as int
        &&& self.min_room_dim as int <= room.local_supremum.y <= self.max_room_dim as int
        &&& self.min_room_dim as int <= room.local_supremum.z <= self.max_room_dim as int
    }

    fn valid_room_size(&self, room: &Extent) -> (r: bool)
        ensures
            r == self.spec_valid_room_size(*room),
    {
        let sup = room.get_local_supremum();
        let lo = self.min_room_dim as i64;
        let hi = self.max_room_dim as i64;
        lo <= sup.x as i64 && sup.x as i64 <= hi && lo <= sup.y as i64 && sup.y as i64 <= hi && lo
            <= sup.z as i64 && sup.z as i64 <= hi
    }

    /// Sample ten times the wanted number of rooms, keeping only candidates
    /// whose sizes pass the configured bounds.
    fn generate_room_candidates(
        &self,
        rng: &mut SmallRng,
        size_sampler: &mut impl PointSampler,
    ) -> (r: Vec<Extent>)
        requires
            self.wf(),
        ensures
            r@.len() <= 10 * self.room_graph.num_rooms,
            forall|i: int| 0 <= i < r@.len() ==> self.spec_valid_room_size(#[trigger] r@[i]),
    {
        let location = self.room_dist.location.make();
        let predicate = |room: &Extent| -> (b: bool)
            ensures
                b == self.spec_valid_room_size(*room),
            { self.valid_room_size(room) };
        let r = sample_extents(
            10 * self.room_graph.num_rooms,
            predicate,
            &location,
            size_sampler,
            rng,
        );
        proof {
            assert forall|i: int|
                0 <= i < r@.len() implies self.spec_valid_room_size(#[trigger] r@[i]) by {
                assert(call_ensures(predicate, (&r@[i],), true));
            }
        }
        r
    }

    /// Prune the room graph toward the wanted room count while keeping every
    /// room on the main path. Returns whether the wanted count was reached.
    fn prune_rooms_to_desired_size(
        &self,
        main_path: &Vec<usize>,
        room_graph: &mut RoomGraph,
    ) -> (r: bool)
        requires
            old(room_graph).wf(),
        ensures
            final (room_graph).wf(),
            final (room_graph).nodes@.len() == old(room_graph).nodes@.len(),
            final (room_graph).nodes_subset_of(*old(room_graph)),
            final (room_graph).edges_subset_of(*old(room_graph)),
            forall|i: int|
                old(room_graph).is_node(i) && in_path(
                    old(room_graph).spec_weight(i),
                    main_path@,
                ) ==> final (room_graph).is_node(i),
            same_graph(*final (room_graph), *old(room_graph)) || final (room_graph).spec_node_count()
                == 0 || (exists|h: usize| #[trigger] hub_linked(*final (room_graph), h)),
            r == (final (room_graph).spec_node_count() >= self.room_graph.num_rooms),
    {
        // Collect the slots whose room index lies on the main path.
        let live = room_graph.live_nodes();
        let mut keep_nodes: Vec<usize> = Vec::new();
        let mut k: usize = 0;
        while k < live.len()
            invariant
                room_graph.wf(),
                k <= live@.len(),
                forall|m: int|
                    0 <= m < live@.len() ==> room_graph.is_node((#[trigger] live@[m]) as int),
                forall|m: int|
                    0 <= m < keep_nodes@.len() ==> room_graph.is_node(
                        (#[trigger] keep_nodes@[m]) as int,
                    ),
                forall|m: int|
                    0 <= m < k && in_path(
                        room_graph.spec_weight((#[trigger] live@[m]) as int),
                        main_path@,
                    ) ==> keep_nodes@.contains(live@[m]),
            decreases live@.len() - k,
        {
            let n = live[k];
            let w = room_graph.node_weight(n);
            let ghost keep0 = keep_nodes@;
            if contains_usize(main_path, w) {
                keep_nodes.push(n);
                proof {
                    assert(main_path@.contains(w));
                    let m0 = choose|m0: int| 0 <= m0 < main_path@.len() && main_path@[m0] == w;
                    assert(in_path(w as int, main_path@));
                    assert forall|m: int|
                        0 <= m < k + 1 && in_path(
                            room_graph.spec_weight((#[trigger] live@[m]) as int),
                            main_path@,
                        ) implies keep_nodes@.contains(live@[m]) by {
                        if m < k {
                            assert(keep0.contains(live@[m]));
                            let j = choose|j: int| 0 <= j < keep0.len() && keep0[j] == live@[m];
                            assert(keep_nodes@[j] == live@[m]);
                        } else {
                            assert(keep_nodes@[keep_nodes@.len() - 1] == live@[m]);
                        }
                    }
                }
            } else {
                proof {
                    if in_path(w as int, main_path@) {
                        let m0 = choose|m0: int|
                            0 <= m0 < main_path@.len() && (#[trigger] main_path@[m0]) as int
                                == w as int;
                        assert(main_path@.contains(w));
                    }
                }
            }
            k = k + 1;
        }
        let accept_fn = |g: &RoomGraph| -> (b: bool)
            ensures
                b == forall|m: int|
                    0 <= m < keep_nodes@.len() ==> g.is_node((#[trigger] keep_nodes@[m]) as int),
            { all_nodes_present(g, &keep_nodes) };
        let ghost keep_seq = keep_nodes@;
        let ghost before_prune = *room_graph;
        prune_outer_nodes_to_reach_size(room_graph, accept_fn, self.room_graph.num_rooms);
        proof {
            assert forall|i: int|
                before_prune.is_node(i) && in_path(
                    before_prune.spec_weight(i),
                    main_path@,
                ) implies room_graph.is_node(i) by {
                let m0 = choose|m0: int|
                    0 <= m0 < live@.len() && (#[trigger] live@[m0]) as int == i;
                assert(keep_seq.contains(live@[m0]));
                let j = choose|j: int| 0 <= j < keep_seq.len() && keep_seq[j] == live@[m0];
                assert forall|g: RoomGraph, b: bool|
                    #[trigger] call_ensures(accept_fn, (&g,), b) && b implies g.is_node(i) by {
                    assert(g.is_node((keep_seq[j]) as int));
                }
            }
        }
        let count = room_graph.node_count();
        count >= self.room_graph.num_rooms
    }

    /// One generation attempt. On success the generated voxels have been
    /// written into `encoder` and the spawn area of the objective room is
    /// returned; on failure nothing was written and the caller retries.
    /// With a minimum room size of three or more, a returned spawn area is
    /// never empty.
    pub fn try_generate(
        &self,
        rng: &mut SmallRng,
        size_sampler: &mut impl PointSampler,
        encoder: &mut impl VoxelEncoder,
    ) -> (r: Option<DungeonMeta>)
        requires
            self.wf(),
        ensures
            r matches Some(meta) ==> (self.min_room_dim >= 3
                ==> meta.spawn_area.valid_spawn_points@.len() > 0),
            r matches Some(meta) ==> exists|room: Extent|
                #[trigger] self.spec_valid_room_size(room) && is_spawn_slab_of(
                    meta.spawn_area.valid_spawn_points@,
                    room,
                ),
            self.room_graph.entrance_to_objective_path_length > 10 * self.room_graph.num_rooms
                ==> r is None,
    {
        let num_rooms = self.room_graph.num_rooms;
        let n_candidates = 10 * num_rooms;
        let mut room_candidates = self.generate_room_candidates(rng, size_sampler);
        if room_candidates.len() < n_candidates {
            return None;
        }
        let ghost sizes_before = room_candidates@;
        if !resolve_extent_overlaps(&mut room_candidates) {
            return None;
        }
        proof {
            assert forall|i: int|
                0 <= i < room_candidates@.len() implies self.spec_valid_room_size(
                #[trigger] room_candidates@[i],
            ) by {
                assert(room_candidates@[i].local_supremum == sizes_before[i].local_supremum);
                assert(self.spec_valid_room_size(sizes_before[i]));
            }
        }
        // The resolver can leave boxes anywhere inside its working range;
        // door carving needs them inside the world range proper.
        let mut c: usize = 0;
        while c < room_candidates.len()
            invariant
                c <= room_candidates@.len(),
                forall|i: int|
                    0 <= i < c ==> (#[trigger] room_candidates@[i]).in_range(WORLD_BOUND as int),
            decreases room_candidates@.len() - c,
        {
            if !in_world_range_exec(&room_candidates[c]) {
                return None;
            }
            c = c + 1;
        }
        proof {
            assert forall|i: int|
                0 <= i < room_candidates@.len() implies (#[trigger] room_candidates@[i]).wf()
                && room_candidates@[i].in_range(WORLD_BOUND as int) by {
                assert(self.spec_valid_room_size(room_candidates@[i]));
            }
        }
        let mut doors: SymmetricMap<Extent> = SymmetricMap::new();
        let mut room_graph = generate_door_graph(
            &room_candidates,
            self.min_door_dim,
            self.max_door_dim,
            rng,
            &mut doors,
        );
        let ghost base_graph = room_graph;
        proof {
            assert(room_graph.nodes@[0] == Some(0usize));
            lemma_live_count_pos_of_node(room_graph.nodes@, 0);
        }
        // Prune disconnected rooms.
        let maybe_subgraph = largest_connected_subgraph(&room_graph);
        match maybe_subgraph {
            Some(subgraph) => {
                if subgraph.node_count() < num_rooms {
                    return None;
                }
                proof {
                    assert forall|a: int, b: int| #[trigger]
                        subgraph.has_edge(a, b) implies doors@.contains_key(
                        crate::symmetric_map::key_of_int(
                            subgraph.spec_weight(a),
                            subgraph.spec_weight(b),
                        ),
                    ) by {
                        assert(room_graph.has_edge(a, b));
                        assert(subgraph.is_node(a) && subgraph.is_node(b));
                    }
                }
                room_graph = subgraph;
                proof {
                    assert forall|i: int| room_graph.is_node(i) implies 0
                        <= #[trigger] room_graph.spec_weight(i) < room_candidates@.len() by {
                        assert(base_graph.is_node(i));
                        assert(base_graph.spec_weight(i) == i);
                    }
                }
            },
            None => {
                proof {
                    assert forall|i: int| room_graph.is_node(i) implies 0
                        <= #[trigger] room_graph.spec_weight(i) < room_candidates@.len() by {
                        assert(base_graph.is_node(i));
                        assert(base_graph.spec_weight(i) == i);
                    }
                }
            },
        }
        proof {
            assert(room_graph.spec_node_count() >= 1);
        }
        let mst = spanning_tree(&room_graph);
        let maybe_path = choose_main_path(
            self.room_graph.entrance_to_objective_path_length,
            &mst,
        );
        let main_path = match maybe_path {
            Some(p) => p,
            None => {
                return None;
            },
        };
        proof {
            // A main path exists, so the requested length fits within the
            // candidate count.
            lemma_live_count_le_len(base_graph.nodes@);
            assert(mst.spec_node_count() <= 10 * self.room_graph.num_rooms);
            assert(self.room_graph.entrance_to_objective_path_length <= 10
                * self.room_graph.num_rooms);
        }
        let ghost graph_before_prune = room_graph;
        let pruned_enough = self.prune_rooms_to_desired_size(&main_path, &mut room_graph);
        proof {
            assert forall|a: int, b: int| #[trigger]
                room_graph.has_edge(a, b) implies doors@.contains_key(
                crate::symmetric_map::key_of_int(
                    room_graph.spec_weight(a),
                    room_graph.spec_weight(b),
                ),
            ) by {
                assert(graph_before_prune.has_edge(a, b));
                assert(room_graph.is_node(a) && room_graph.is_node(b));
            }
            assert(doors_cover_graph(doors@, room_graph));
            assert forall|i: int| room_graph.is_node(i) implies 0 <= #[trigger] room_graph.spec_weight(
                i,
            ) < room_candidates@.len() by {
                assert(graph_before_prune.is_node(i));
                assert(graph_before_prune.spec_weight(i) == room_graph.spec_weight(i));
            }
        }
        let chosen_rooms = collect_rooms_from_room_graph(&room_candidates, &room_graph);
        let chosen_doors = collect_doors_from_room_graph(&doors, &room_graph);
        proof {
            assert forall|k: int|
                0 <= k < chosen_rooms@.len() implies fillable(#[trigger] chosen_rooms@[k]) by {
                let i = choose|i: int|
                    #[trigger] room_graph.is_node(i) && chosen_rooms@[k] == room_candidates@[
                        room_graph.spec_weight(i)
                    ];
            }
            assert forall|k: int|
                0 <= k < chosen_doors@.len() implies fillable(#[trigger] chosen_doors@[k]) by {
                let key = choose|key: (int, int)|
                    #[trigger] doors@.contains_key(key) && chosen_doors@[k] == doors@[key];
            }
        }
        fill_map_with_rooms(&chosen_rooms, encoder);
        fill_map_with_doors(&chosen_doors, encoder);
        let last = main_path[main_path.len() - 1];
        proof {
            assert(is_weight_of(main_path@[main_path@.len() - 1], mst));
            let i = choose|i: int| #[trigger] mst.is_node(i) && mst.spec_weight(i) == last as int;
            assert(graph_before_prune.is_node(i));
            assert(graph_before_prune.spec_weight(i) == last as int);
            assert(0 <= last < room_candidates@.len());
            assert(self.spec_valid_room_size(room_candidates@[last as int]));
            assert(room_candidates@[last as int].in_range(WORLD_BOUND as int));
            assert(fillable(room_candidates@[last as int]));
        }
        let spawn_area = spawn_in_room(&room_candidates[last]);
        proof {
            assert(self.spec_valid_room_size(room_candidates@[last as int]) && is_spawn_slab_of(
                spawn_area.valid_spawn_points@,
                room_candidates@[last as int],
            ));
        }
        Some(DungeonMeta { spawn_area })
    }

    /// Generate a dungeon, retrying the whole attempt with fresh samples up
    /// to the retry bound. Exhausting the retries means the configuration is
    /// geometrically infeasible; no partial output is ever produced.
    pub fn generate(
        &self,
        rng: &mut SmallRng,
        size_sampler: &mut impl PointSampler,
        encoder: &mut impl VoxelEncoder,
    ) -> (r: Result<DungeonMeta, GenerationError>)
        requires
            self.wf(),
        ensures
            r matches Ok(meta) ==> (self.min_room_dim >= 3
                ==> meta.spawn_area.valid_spawn_points@.len() > 0),
            r matches Ok(meta) ==> exists|room: Extent|
                #[trigger] self.spec_valid_room_size(room) && is_spawn_slab_of(
                    meta.spawn_area.valid_spawn_points@,
                    room,
                ),
            self.room_graph.entrance_to_objective_path_length > 10 * self.room_graph.num_rooms
                ==> r == Result::<DungeonMeta, GenerationError>::Err(
                GenerationError::RetriesExhausted,
            ),
            r is Err ==> r == Result::<DungeonMeta, GenerationError>::Err(
                GenerationError::RetriesExhausted,
            ),
    {
        let mut tries: usize = 0;
        while tries < MAX_GENERATE_TRIES
            invariant
                self.wf(),
                tries <= MAX_GENERATE_TRIES,
            decreases MAX_GENERATE_TRIES - tries,
        {
            let attempt = self.try_generate(rng, size_sampler, encoder);
            match attempt {
                Some(meta) => {
                    return Ok(meta);
                },
                None => {},
            }
            tries = tries + 1;
        }
        Err(GenerationError::RetriesExhausted)
    }
}

} // verus!
