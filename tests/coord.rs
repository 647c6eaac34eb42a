use dungeon::coord::{coord, Coord};
use dungeon::geometry::{point, rect};
use dungeon::map::world_to_chunk;

#[test]
fn coord_accessors_and_distance() {
    let a = coord(3, -4);
    assert_eq!(a.x(), 3);
    assert_eq!(a.y(), -4);
    assert_eq!(a.distance(coord(-2, 6)), 15);
    assert_eq!(coord(0, 0).distance(coord(0, 0)), 0);
}

#[test]
fn coord_euclidean_division() {
    let a = coord(-7, 12);
    assert_eq!(a.div_euclid(5), coord(-2, 2));
    assert_eq!(a.rem_euclid(5), coord(3, 2));
    assert_eq!(a.chunk(5), (coord(-2, 2), coord(3, 2)));
    assert_eq!(coord(-1, -50).chunk(50), (coord(-1, -1), coord(49, 0)));
    assert_eq!(coord(-1, 50).rem_euclid(50), coord(49, 0));
    assert_eq!(coord(5, -3).rem_euclid(-1), coord(0, 0));
}

#[test]
fn coord_min_max_and_box() {
    let a = coord(1, 9);
    let b = coord(4, -2);
    assert_eq!(a.min(b), coord(1, -2));
    assert_eq!(a.max(b), coord(4, 9));
    assert!(coord(2, 0).is_between_inclusive(coord(1, -2), coord(4, 9)));
    assert!(coord(4, 9).is_between_inclusive(coord(1, -2), coord(4, 9)));
    assert!(!coord(5, 0).is_between_inclusive(coord(1, -2), coord(4, 9)));
}

#[test]
fn coord_between_inclusive_walks_rows() {
    let all = Coord::between_inclusive(coord(1, 1), coord(2, 3));
    assert_eq!(
        all,
        vec![coord(1, 1), coord(2, 1), coord(1, 2), coord(2, 2), coord(1, 3), coord(2, 3)]
    );
    assert!(Coord::between_inclusive(coord(2, 0), coord(1, 0)).is_empty());
}

#[test]
fn coord_neighbours() {
    let c = coord(0, 0);
    assert_eq!(c.directly_adjacent(), [coord(0, 1), coord(0, -1), coord(-1, 0), coord(1, 0)]);
    assert_eq!(c.bottom_left(), coord(-1, -1));
    assert_eq!(c.bottom(), coord(0, -1));
    assert_eq!(c.bottom_right(), coord(1, -1));
    assert_eq!(c.left(), coord(-1, 0));
    assert_eq!(c.right(), coord(1, 0));
    assert_eq!(c.top_left(), coord(-1, 1));
    assert_eq!(c.top(), coord(0, 1));
    assert_eq!(c.top_right(), coord(1, 1));
    assert_eq!(c.offset(5, -3), coord(5, -3));
}

#[test]
fn world_coordinates_round_trip() {
    for &(x, y) in &[(0, 0), (-25, -25), (24, 24), (25, -26), (i32::MAX, i32::MIN), (-1234567, 7654321)] {
        let (k, l) = world_to_chunk(coord(x, y));
        assert!(l.x() >= 0 && l.x() < 50 && l.y() >= 0 && l.y() < 50);
        assert_eq!(k.x() as i64 * 50 + l.x() as i64 - 25, x as i64);
        assert_eq!(k.y() as i64 * 50 + l.y() as i64 - 25, y as i64);
    }
    assert_eq!(world_to_chunk(coord(0, 0)), (coord(0, 0), coord(25, 25)));
    assert_eq!(world_to_chunk(coord(25, -26)), (coord(1, -1), coord(0, 49)));
}

#[test]
fn rect_contains_half_open() {
    let r = rect(point(0, 0), point(1000, 2000));
    assert!(r.contains(point(0, 0)));
    assert!(r.contains(point(999, 1999)));
    assert!(!r.contains(point(1000, 0)));
    assert!(!r.contains(point(0, 2000)));
    assert!(!r.contains(point(-1, 5)));
    assert_eq!(r.max(), point(1000, 2000));
}
