use dungen::extent::{push_extents_apart, resolve_extent_overlaps, Extent};
use dungen::lattice::{Direction, Point};
use dungen::room::{get_door_able_extent_for_rooms, spawn_in_room, try_generate_door_big_enough_between_rooms};
use dungen::sampling::small_rng;

fn ext(min: [i32; 3], sup: [i32; 3]) -> Extent {
    Extent::from_min_and_local_supremum(
        Point::new(min[0], min[1], min[2]),
        Point::new(sup[0], sup[1], sup[2]),
    )
}

#[test]
fn test_get_door_able_extent_for_rooms_successful() {
    let r1 = ext([0, 0, 0], [4, 4, 4]);
    let r2 = ext([0, 0, -4], [4, 4, 4]);

    assert_eq!(
        get_door_able_extent_for_rooms(&r1, &r2),
        Some((ext([1, 1, -1], [2, 2, 2]), Direction::PosZ)),
    );
}

#[test]
fn test_get_door_able_extent_for_rooms_unsuccessful() {
    let r1 = ext([0, 0, 0], [4, 4, 4]);
    let r2 = ext([0, -4, -4], [4, 4, 4]);

    assert_eq!(get_door_able_extent_for_rooms(&r1, &r2), None);
}

#[test]
fn door_rejected_for_corner_contact() {
    // All three penetrations zero: the boxes share only a corner.
    let r1 = ext([0, 0, 0], [4, 4, 4]);
    let r2 = ext([-4, -4, -4], [4, 4, 4]);
    assert_eq!(get_door_able_extent_for_rooms(&r1, &r2), None);
}

#[test]
fn door_rejected_for_separated_rooms() {
    let r1 = ext([0, 0, 0], [4, 4, 4]);
    let r2 = ext([10, 0, 0], [4, 4, 4]);
    assert_eq!(get_door_able_extent_for_rooms(&r1, &r2), None);
}

#[test]
fn penetration_structure_of_face_contact() {
    let r1 = ext([0, 0, 0], [4, 4, 4]);
    let r2 = ext([0, 0, -4], [4, 4, 4]);
    let pens = Extent::penetrations(&r1, &r2);
    assert_eq!(pens.get(Direction::PosZ), 0);
    assert_eq!(pens.get(Direction::NegZ), 8);
    assert_eq!(pens.get(Direction::PosX), 4);
    assert_eq!(pens.get(Direction::NegX), 4);
    assert_eq!(pens.get(Direction::PosY), 4);
    assert_eq!(pens.get(Direction::NegY), 4);
}

#[test]
fn push_apart_separates_and_keeps_sizes() {
    let r1 = ext([0, 0, 0], [4, 4, 4]);
    let r2 = ext([2, 1, 0], [5, 4, 4]);
    let (a, b) = push_extents_apart(r1, r2);
    assert!(a.disjoint_from(&b));
    assert_eq!(a.get_local_supremum(), r1.get_local_supremum());
    assert_eq!(b.get_local_supremum(), r2.get_local_supremum());
}

#[test]
fn resolver_makes_all_pairs_disjoint() {
    // Overlap resolver convergence: afterwards every pair is disjoint.
    let mut rooms = vec![
        ext([0, 0, 0], [4, 4, 4]),
        ext([1, 1, 1], [4, 4, 4]),
        ext([2, 0, 2], [5, 3, 3]),
        ext([-1, -1, -1], [3, 3, 3]),
    ];
    let sizes_before: Vec<Point> = rooms.iter().map(|r| r.get_local_supremum()).collect();
    let ok = resolve_extent_overlaps(&mut rooms);
    assert!(ok);
    for i in 0..rooms.len() {
        for j in 0..rooms.len() {
            if i != j {
                assert!(rooms[i].disjoint_from(&rooms[j]));
            }
        }
    }
    // Overlap resolver non-regression: only positions changed.
    for (room, size) in rooms.iter().zip(sizes_before.iter()) {
        assert_eq!(room.get_local_supremum(), *size);
    }
}

#[test]
fn resolver_leaves_disjoint_input_unchanged() {
    // Overlap resolver idempotence.
    let rooms = vec![
        ext([0, 0, 0], [4, 4, 4]),
        ext([10, 0, 0], [4, 4, 4]),
        ext([0, 20, 0], [4, 4, 4]),
    ];
    let mut resolved = rooms.clone();
    let ok = resolve_extent_overlaps(&mut resolved);
    assert!(ok);
    assert_eq!(resolved, rooms);
}

#[test]
fn sampled_door_fits_bounds() {
    let r1 = ext([0, 0, 0], [8, 8, 8]);
    let r2 = ext([0, 0, -8], [8, 8, 8]);
    let mut rng = small_rng([7, 11, 13, 17]);
    let mut seen = false;
    for _ in 0..50 {
        if let Some(door) = try_generate_door_big_enough_between_rooms(1, 3, &r1, &r2, &mut rng) {
            seen = true;
            let sup = door.get_local_supremum();
            assert_eq!(sup.z, 2);
            assert!(1 <= sup.x && sup.x <= 3);
            assert!(1 <= sup.y && sup.y <= 3);
        }
    }
    assert!(seen);
}

#[test]
fn door_impossible_when_rooms_share_an_edge() {
    let r1 = ext([0, 0, 0], [4, 4, 4]);
    let r2 = ext([0, -4, -4], [4, 4, 4]);
    let mut rng = small_rng([1, 2, 3, 4]);
    assert_eq!(
        try_generate_door_big_enough_between_rooms(1, 3, &r1, &r2, &mut rng),
        None
    );
}

#[test]
fn spawn_area_is_inner_floor_slab() {
    let room = ext([0, 0, 0], [4, 4, 4]);
    let spawn = spawn_in_room(&room);
    let mut points = spawn.valid_spawn_points.clone();
    points.sort_by_key(|p| (p.x, p.y, p.z));
    assert_eq!(
        points,
        vec![
            Point::new(1, 1, 1),
            Point::new(1, 1, 2),
            Point::new(2, 1, 1),
            Point::new(2, 1, 2),
        ]
    );
}

#[test]
fn tiny_room_has_no_spawn_points() {
    // A two-voxel-wide room is all wall: the inner slab is empty.
    let room = ext([5, 5, 5], [2, 2, 2]);
    let spawn = spawn_in_room(&room);
    assert!(spawn.valid_spawn_points.is_empty());
}

#[test]
fn empty_extent_never_collides() {
    let mut rooms = vec![ext([0, 0, 0], [0, 4, 4]), ext([0, 0, 0], [4, 4, 4])];
    let before = rooms.clone();
    let ok = resolve_extent_overlaps(&mut rooms);
    assert!(ok);
    assert_eq!(rooms, before);
}

#[test]
fn resolver_untangles_a_deep_pile() {
    // Many boxes dropped on the same spot still separate in finite passes.
    let mut rooms: Vec<Extent> = (0..12).map(|k| ext([k % 3, 0, k % 2], [4, 4, 4])).collect();
    let ok = resolve_extent_overlaps(&mut rooms);
    assert!(ok);
    for i in 0..rooms.len() {
        for j in 0..rooms.len() {
            if i != j {
                assert!(rooms[i].disjoint_from(&rooms[j]));
            }
        }
    }
}
