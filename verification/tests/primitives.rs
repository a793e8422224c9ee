//! Coordinate and grid-size primitives.

use grid_games::game::{direction, Coord, Size};

#[test]
fn coord_arithmetic() {
    let a = Coord(2, 3);
    let d = Coord(-1, 1);
    let s = a.add(d);
    assert_eq!((s.0, s.1), (1, 4));
    let b = s.sub(d);
    assert_eq!((b.0, b.1), (2, 3));
    assert_eq!(a, Coord(2, 3));
}

#[test]
fn size_bounds_and_indexing() {
    let sz = Size(3, 4);
    assert!(sz.contains(Coord(0, 0)));
    assert!(sz.contains(Coord(2, 3)));
    assert!(!sz.contains(Coord(3, 0)));
    assert!(!sz.contains(Coord(0, 4)));
    assert!(!sz.contains(Coord(-1, 0)));
    assert_eq!(sz.index(Coord(0, 0)), 0);
    assert_eq!(sz.index(Coord(2, 3)), 11);
    assert_eq!(sz.size(), 12);
}

#[test]
fn valid_indices_covers_the_grid_once() {
    let sz = Size(2, 3);
    let v = sz.valid_indices();
    assert_eq!(v.len(), 6);
    let expected = [(0, 0), (0, 1), (0, 2), (1, 0), (1, 1), (1, 2)];
    for (k, &(r, c)) in expected.iter().enumerate() {
        assert_eq!(v[k], Coord(r, c));
    }
}

#[test]
fn directions_enumerate_the_moore_neighborhood() {
    let mut seen = Vec::new();
    for k in 0..8 {
        let d = direction(k);
        assert!((-1..=1).contains(&d.0) && (-1..=1).contains(&d.1));
        assert!((d.0, d.1) != (0, 0));
        assert!(!seen.contains(&(d.0, d.1)));
        seen.push((d.0, d.1));
    }
    assert_eq!(seen.len(), 8);
}
