use dungeon::coord::coord;
use dungeon::geometry::{point, rect};
use dungeon::map::{Tile, World};

#[test]
fn starting_room_scenario() {
    let mut world = World::new(0);
    // the starting room spans local (24..31, 23..28) of chunk (0, 0)
    for y in -2..3 {
        for x in -1..6 {
            assert_ne!(world.at(coord(x, y)).unwrap(), Tile::Wall);
            assert_eq!(world.at(coord(x, y)).unwrap(), Tile::Floor);
        }
    }
    let area = rect(point(-1000, -2000), point(7000, 5000));
    let spawners = world.spawners_in(area).unwrap();
    assert_eq!(spawners, vec![point(4500, 500)]);
    assert!(world.chests_in(area).unwrap().is_empty());
}

#[test]
fn same_chunk_is_kept() {
    let mut world = World::new(0);
    assert_eq!(world.chunk_count(), 0);
    let t = world.at(coord(3, 3)).unwrap();
    assert_eq!(world.chunk_count(), 1);
    world.set(coord(3, 4), Tile::Barrier).unwrap();
    assert_eq!(world.at(coord(3, 3)).unwrap(), t);
    assert_eq!(world.at(coord(3, 4)).unwrap(), Tile::Barrier);
    assert_eq!(world.chunk_count(), 1);
    world.at(coord(100, 3)).unwrap();
    assert_eq!(world.chunk_count(), 2);
    assert_eq!(world.at(coord(3, 4)).unwrap(), Tile::Barrier);
    assert_eq!(world.chunk_count(), 2);
}

#[test]
fn set_then_at_agree() {
    let mut world = World::new(5);
    world.set(coord(-30, 70), Tile::Floor).unwrap();
    world.set(coord(-31, 70), Tile::Wall).unwrap();
    assert_eq!(world.at(coord(-30, 70)).unwrap(), Tile::Floor);
    assert_eq!(world.at(coord(-31, 70)).unwrap(), Tile::Wall);
}

#[test]
fn pathfind_edge_cases() {
    let mut world = World::new(0);
    assert_eq!(world.pathfind(coord(0, 0), &vec![], 100).unwrap(), None);
    assert_eq!(
        world.pathfind(coord(0, 0), &vec![coord(0, 0)], 100).unwrap(),
        Some((vec![coord(0, 0)], 0))
    );
}

#[test]
fn pathfind_across_the_starting_room() {
    let mut world = World::new(0);
    let (path, cost) = world.pathfind(coord(-1, -2), &vec![coord(5, 2)], 1000).unwrap().unwrap();
    assert_eq!(path[0], coord(-1, -2));
    assert_eq!(*path.last().unwrap(), coord(5, 2));
    // four diagonal moves and two straight ones
    assert_eq!(path.len(), 7);
    assert_eq!(cost, (4 * 14 + 2 * 10 + 9) / 10);
    for w in path.windows(2) {
        assert!((w[0].x() - w[1].x()).abs() <= 1 && (w[0].y() - w[1].y()).abs() <= 1);
    }
}

#[test]
fn pathfind_respects_threshold() {
    let mut world = World::new(0);
    // a target far outside the threshold cannot be approached
    assert_eq!(world.pathfind(coord(0, 0), &vec![coord(3, 0)], 0).unwrap(), None);
}

#[test]
fn decorations_lie_in_their_area() {
    let mut world = World::new(3);
    let area = rect(point(-25000, -25000), point(50000, 50000));
    for d in world.decorations_in(area).unwrap() {
        assert!(area.contains(d));
    }
    let all = world.spawners_in(area).unwrap();
    assert!(!all.is_empty());
}

#[test]
fn worlds_agree_whatever_the_order() {
    let mut a = World::new(9);
    let mut b = World::new(9);
    let coords = [coord(0, 0), coord(60, -10), coord(-80, 130), coord(20, 20)];
    for c in coords.iter() {
        a.at(*c).unwrap();
    }
    for c in coords.iter().rev() {
        b.at(*c).unwrap();
    }
    for x in -30..30 {
        for y in -30..30 {
            assert_eq!(a.at(coord(x * 5, y * 5)).unwrap(), b.at(coord(x * 5, y * 5)).unwrap());
        }
    }
}

#[test]
fn region_queries_match_chunk_features() {
    let mut world = World::new(4);
    // exactly chunk (0, 0): world coordinates -25..25
    let area = rect(point(-25000, -25000), point(50000, 50000));
    let spawners = world.spawners_in(area).unwrap();
    let decorations = world.decorations_in(area).unwrap();
    let chests = world.chests_in(area).unwrap();
    let chunk = dungeon::chunk::Chunk::new(coord(0, 0), 4).unwrap();
    let inside = |p: &dungeon::geometry::Point| area.contains(*p);
    assert_eq!(spawners, chunk.spawners().iter().copied().filter(inside).collect::<Vec<_>>());
    assert_eq!(decorations, chunk.decorations().iter().copied().filter(inside).collect::<Vec<_>>());
    assert_eq!(chests.len(), chunk.chests().iter().filter(|c| area.contains(c.position())).count());
}
