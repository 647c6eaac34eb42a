use dungeon::chunk::{Chunk, CHUNK_SIZE_I32};
use dungeon::coord::coord;
use dungeon::carving::CarveError;
use dungeon::rooms::Room;
use dungeon::map::Tile;
use dungeon::random::Random;
use dungeon::triangulation::triangulate;

fn tiles_of(chunk: &Chunk) -> Vec<Tile> {
    let mut v = Vec::new();
    for y in 0..CHUNK_SIZE_I32 {
        for x in 0..CHUNK_SIZE_I32 {
            v.push(chunk.at(coord(x, y)));
        }
    }
    v
}

#[test]
fn starting_room_layout() {
    let r = Room::starting();
    assert_eq!((r.x, r.y, r.width, r.height, r.is_starting), (24, 23, 7, 5, true));
    assert_eq!(r.center(), coord(27, 25));
    assert_eq!(r.min_coord(), coord(24, 23));
    assert_eq!(r.max_coord(), coord(31, 28));
}

#[test]
fn room_distance_counts_gap() {
    let a = Room { x: 0, y: 0, width: 3, height: 3, is_starting: false };
    let b = Room { x: 5, y: 0, width: 3, height: 3, is_starting: false };
    let c = Room { x: 3, y: 1, width: 3, height: 3, is_starting: false };
    let d = Room { x: 6, y: 7, width: 3, height: 3, is_starting: false };
    assert_eq!(a.distance(b), 2);
    assert_eq!(b.distance(a), 2);
    assert_eq!(a.distance(c), 0);
    assert_eq!(a.distance(d), 3 + 4);
}

#[test]
fn random_rooms_fit_the_chunk() {
    let mut random = Random::new(42);
    for _ in 0..500 {
        let r = Room::random(&mut random);
        assert!(!r.is_starting);
        assert!(r.width >= 3 && r.width <= 12 && r.height >= 3 && r.height <= 12);
        assert!((r.width - r.height).abs() <= 2 || r.height == 3);
        assert!(r.x >= 0 && r.y >= 0 && r.x + r.width <= 48 && r.y + r.height <= 48);
    }
    let mut random = Random::new(42);
    let (w, h) = Room::dimensions(&mut random);
    assert!(w >= 3 && h >= 3);
}

#[test]
fn triangulation_of_a_square() {
    let pts = vec![coord(0, 0), coord(10, 0), coord(0, 10), coord(11, 11)];
    let tris = triangulate(&pts);
    assert_eq!(tris.len(), 2);
    for t in &tris {
        for v in [t.0, t.1, t.2] {
            assert!(pts.contains(&v));
        }
    }
}

#[test]
fn triangulation_of_few_points() {
    assert!(triangulate(&vec![]).is_empty());
    assert!(triangulate(&vec![coord(1, 1), coord(5, 5)]).is_empty());
    assert_eq!(triangulate(&vec![coord(1, 1), coord(9, 2), coord(4, 8)]).len(), 1);
}

#[test]
fn carving_a_tunnel_in_solid_wall() {
    let mut chunk = Chunk::empty(coord(3, 3));
    let awkward = vec![false; 2500];
    assert_eq!(chunk.create_path(coord(5, 5), coord(12, 9), &awkward), Ok(()));
    assert_eq!(chunk.at(coord(5, 5)), Tile::Floor);
    assert_eq!(chunk.at(coord(12, 9)), Tile::Floor);
    let floor = tiles_of(&chunk).iter().filter(|t| **t == Tile::Floor).count();
    assert_eq!(floor, 7 + 4 + 1);
    assert_eq!(
        chunk.create_path(coord(-1, 5), coord(12, 9), &awkward),
        Err(CarveError::OutOfBounds)
    );
}

#[test]
fn chunk_entry_reaches_floor() {
    let mut chunk = Chunk::empty(coord(0, 0));
    let awkward = vec![false; 2500];
    chunk.create_room(Room { x: 10, y: 10, width: 4, height: 4, is_starting: false });
    assert_eq!(chunk.create_chunk_entry(coord(0, 11), &awkward), Ok(()));
    for x in 0..10 {
        assert_eq!(chunk.at(coord(x, 11)), Tile::Floor);
    }
}

#[test]
fn side_entries_follow_the_hash() {
    assert_eq!(Chunk::chunk_side_entries(coord(0, 0), false), vec![6, 11, 20, 28, 38, 45]);
    assert_eq!(Chunk::chunk_side_entries(coord(1, 0), false), vec![4, 11, 19, 26, 38, 43]);
    let entries = Chunk::empty(coord(0, 0)).chunk_entries();
    assert_eq!(entries.len(), 24);
    assert_eq!(entries[0], coord(0, 6));
    assert_eq!(entries[1], coord(6, 0));
}

#[test]
fn generation_is_deterministic() {
    for &(x, y, seed) in &[(0, 0, 0u32), (1, -2, 0), (5, 5, 99)] {
        let a = Chunk::new(coord(x, y), seed).unwrap();
        let b = Chunk::new(coord(x, y), seed).unwrap();
        assert_eq!(tiles_of(&a), tiles_of(&b));
        assert_eq!(a.spawners(), b.spawners());
        assert_eq!(a.chests(), b.chests());
        assert_eq!(a.decorations(), b.decorations());
    }
}

#[test]
fn generated_rooms_are_floor_and_connected() {
    let mut chunk = Chunk::empty(coord(0, 0));
    let rooms = chunk.generate(0).unwrap();
    assert!(rooms.len() > 1);
    assert_eq!(rooms[0], Room::starting());
    for r in &rooms {
        for y in r.y..r.y + r.height {
            for x in r.x..r.x + r.width {
                assert_ne!(chunk.at(coord(x, y)), Tile::Wall);
            }
        }
    }
    // every room center reaches the first over non-wall tiles
    let start = rooms[0].center();
    let mut seen = vec![false; 2500];
    let mut stack = vec![start];
    seen[(start.y() * 50 + start.x()) as usize] = true;
    while let Some(c) = stack.pop() {
        for n in [c.top(), c.bottom(), c.left(), c.right()] {
            if n.x() >= 0 && n.y() >= 0 && n.x() < 50 && n.y() < 50 {
                let i = (n.y() * 50 + n.x()) as usize;
                if !seen[i] && chunk.at(n) != Tile::Wall {
                    seen[i] = true;
                    stack.push(n);
                }
            }
        }
    }
    for r in &rooms {
        let c = r.center();
        assert!(seen[(c.y() * 50 + c.x()) as usize]);
    }
}

#[test]
fn starting_room_is_gated() {
    let mut chunk = Chunk::empty(coord(0, 0));
    let rooms = chunk.generate(0).unwrap();
    let r = rooms[0];
    let mut barriers = 0;
    for y in r.y - 1..=r.y + r.height {
        for x in r.x - 1..=r.x + r.width {
            let inside = x >= r.x && x < r.x + r.width && y >= r.y && y < r.y + r.height;
            if !inside && chunk.at(coord(x, y)) == Tile::Barrier {
                barriers += 1;
            }
        }
    }
    assert!(barriers >= 1);
}

#[test]
fn features_keep_their_spacing() {
    let chunk = Chunk::empty(coord(2, 2));
    let room = Room { x: 5, y: 5, width: 10, height: 8, is_starting: false };
    let mut random = Random::new(11);
    let mut placed = Vec::new();
    for _ in 0..6 {
        let before = placed.clone();
        if let Some(p) = chunk.available_feature_position(&mut random, &room, &mut placed) {
            assert_eq!(placed.len(), before.len() + 1);
            assert!(p.x >= 5750 && p.x <= 14250 && p.y >= 5750 && p.y <= 12250);
            for q in &before {
                let d = (p.x - q.x).abs() + (p.y - q.y).abs();
                assert!(d * 4 * (before.len() as i64 + 1) >= 10 * 3 * 1000);
            }
        } else {
            assert_eq!(placed, before);
        }
    }
    assert!(!placed.is_empty());
}

#[test]
fn awkward_points_mark_border_and_corners() {
    let rooms = vec![Room { x: 10, y: 10, width: 4, height: 3, is_starting: false }];
    let awkward = Chunk::compute_awkward_points(&rooms);
    assert!(awkward[0]);
    assert!(awkward[49 * 50 + 20]);
    assert!(awkward[9 * 50 + 9]);
    assert!(awkward[13 * 50 + 14]);
    assert!(!awkward[11 * 50 + 11]);
    assert!(!awkward[20 * 50 + 20]);
}

#[test]
fn costs_of_tunnel_steps() {
    let mut chunk = Chunk::empty(coord(0, 0));
    let rooms = vec![Room { x: 10, y: 10, width: 4, height: 3, is_starting: false }];
    chunk.create_room(rooms[0]);
    let awkward = Chunk::compute_awkward_points(&rooms);
    assert_eq!(chunk.pathfinding_cost(coord(11, 11), &awkward), 1);
    assert_eq!(chunk.pathfinding_cost(coord(20, 20), &awkward), 10);
    assert_eq!(chunk.pathfinding_cost(coord(9, 9), &awkward), 100);
    let next = chunk.pathfinding_successors(coord(0, 1), &awkward);
    assert_eq!(next.len(), 3);
    let corner = chunk.pathfinding_successors(coord(0, 0), &awkward);
    assert_eq!(corner.len(), 2);
}

#[test]
fn barrier_candidates_ring_the_room() {
    let rooms = vec![Room { x: 10, y: 10, width: 4, height: 3, is_starting: false }];
    let cands = Chunk::barrier_candidates(&rooms);
    assert_eq!(cands.len(), 2 * (4 + 2) + 2 * (3 + 2));
    assert_eq!(cands[0], coord(9, 9));
    assert_eq!(*cands.last().unwrap(), coord(14, 13));
    let edge = vec![Room { x: 0, y: 0, width: 3, height: 3, is_starting: false }];
    for c in Chunk::barrier_candidates(&edge) {
        assert!(c.x() >= 1 && c.y() >= 1);
    }
}

#[test]
fn doorway_gets_recognised_and_barred() {
    let mut chunk = Chunk::empty(coord(0, 0));
    let a = Room { x: 10, y: 10, width: 3, height: 3, is_starting: true };
    let b = Room { x: 10, y: 14, width: 3, height: 3, is_starting: false };
    chunk.stamp_rooms(&vec![a, b]);
    assert_eq!(chunk.at(coord(11, 11)), Tile::Floor);
    chunk.set(coord(11, 13), Tile::Floor);
    assert!(chunk.is_barrier_location(coord(11, 13)));
    assert!(!chunk.is_barrier_location(coord(11, 11)));
    let mut random = Random::new(1);
    chunk.add_barriers(&vec![a, b], &mut random);
    // the doorway belongs to the ring of the first room, so it is always barred
    assert_eq!(chunk.at(coord(11, 13)), Tile::Barrier);
}

#[test]
fn generation_failure_is_reported_for_bad_ends() {
    let mut chunk = Chunk::empty(coord(0, 0));
    let awkward = vec![false; 2500];
    assert_eq!(chunk.create_chunk_entry(coord(50, 3), &awkward), Err(CarveError::OutOfBounds));
    assert_eq!(chunk.create_path(coord(3, 3), coord(3, 60), &awkward), Err(CarveError::OutOfBounds));
}

#[test]
fn only_floor_is_walkable() {
    assert!(Tile::Floor.is_walkable());
    assert!(!Tile::Wall.is_walkable());
    assert!(!Tile::Barrier.is_walkable());
}

#[test]
fn tunnel_reaches_the_bottom_row() {
    let mut chunk = Chunk::empty(coord(0, 0));
    let awkward = vec![false; 2500];
    assert_eq!(chunk.create_path(coord(5, 5), coord(10, 0), &awkward), Ok(()));
    assert_eq!(chunk.at(coord(10, 0)), Tile::Floor);
    assert_eq!(chunk.at(coord(5, 5)), Tile::Floor);
}
