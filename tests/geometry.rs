use isoengine::geometry::{Boundedness, BoundingCube, Octant, Vec3, SX, SY, SZ};

fn cube(x: i64, y: i64, z: i64, h: i64) -> BoundingCube {
    BoundingCube { center: Vec3 { x, y, z }, half_edge: h }
}

fn pt(x: i64, y: i64, z: i64) -> Vec3 {
    Vec3 { x, y, z }
}

#[test]
fn octant_by_side_of_centre() {
    let c = cube(0, 0, 0, 10);
    assert_eq!(c.octant(pt(3, -4, 5)), Some(Octant { x: true, y: false, z: true }));
    assert_eq!(c.octant(pt(-3, 4, -5)), Some(Octant { x: false, y: true, z: false }));
}

#[test]
fn octant_ties_go_to_negative_side() {
    let c = cube(0, 0, 0, 10);
    assert_eq!(c.octant(pt(0, 5, 0)), Some(Octant { x: false, y: true, z: false }));
    assert_eq!(c.octant(pt(0, 0, 0)), Some(Octant { x: false, y: false, z: false }));
}

#[test]
fn octant_outside_is_none_and_boundary_is_inside() {
    let c = cube(100, 100, 100, 10);
    assert_eq!(c.octant(pt(111, 100, 100)), None);
    assert_eq!(c.octant(pt(100, 89, 100)), None);
    assert_eq!(c.octant(pt(110, 90, 110)), Some(Octant { x: true, y: false, z: true }));
}

#[test]
fn contains_is_strict() {
    let c = cube(0, 0, 0, 10);
    assert!(c.contains(pt(9, -9, 0)));
    assert!(!c.contains(pt(10, 0, 0)));
    assert!(!c.contains(pt(0, -10, 0)));
}

#[test]
fn contains_bcube_tests_both_corners() {
    let c = cube(0, 0, 0, 10);
    assert!(c.contains_bcube(&cube(1, 1, 1, 5)));
    assert!(!c.contains_bcube(&cube(5, 5, 5, 5)));
    assert!(!c.contains_bcube(&cube(0, 0, 0, 10)));
}

#[test]
fn boundedness_classifies() {
    let c = cube(0, 0, 0, 10);
    assert_eq!(c.boundedness(&cube(5, 5, 5, 2)), Boundedness::Octant(Octant { x: true, y: true, z: true }));
    assert_eq!(c.boundedness(&cube(0, 0, 0, 2)), Boundedness::Minimal);
    assert_eq!(c.boundedness(&cube(0, 0, 0, 20)), Boundedness::Unbounded);
}

#[test]
fn as_vector_points_to_corner() {
    assert_eq!(Octant { x: true, y: false, z: false }.as_vector(), pt(1, -1, -1));
    assert_eq!(Octant { x: false, y: false, z: false }.as_vector(), pt(-1, -1, -1));
    assert_eq!(Octant { x: false, y: true, z: true }.as_vector(), pt(-1, 1, 1));
}

#[test]
fn octant_bits_round_trip() {
    for b in 0u8..8 {
        assert_eq!(Octant::from_bits(b).unwrap().bits(), b);
    }
    assert_eq!(Octant::from_bits(8), None);
    assert_eq!(Octant { x: true, y: true, z: false }.bits(), SX | SY);
    assert_eq!(Octant { x: false, y: false, z: true }.bits(), SZ);
}

#[test]
fn vector_arithmetic() {
    let a = pt(1, 2, 3);
    let b = pt(-4, 5, 6);
    assert_eq!(a.dot(b), -4 + 10 + 18);
    assert_eq!(a.scaled(-3), pt(-3, -6, -9));
    assert_eq!(a.plus(b), pt(-3, 7, 9));
    assert_eq!(a.minus(b), pt(5, -3, -3));
    assert_eq!(Vec3::zero(), pt(0, 0, 0));
}
