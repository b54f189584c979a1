use shadowcast::{Matrix, Point, div_ceil, div_floor};

#[test]
fn test_point_arithmetic() {
    let a = Point(3, -4);
    let b = Point(-1, 2);
    assert_eq!(a.add(b), Point(2, -2));
    assert_eq!(a.sub(b), Point(4, -6));
    assert_eq!(a.dot(b), -11);
    assert_eq!(Point::default(), Point(0, 0));
}

#[test]
fn test_point_norms() {
    let p = Point(3, -4);
    assert_eq!(p.len_taxicab(), 7);
    assert_eq!(p.len_l1(), 4);
    assert_eq!(p.len_l2_squared(), 25);
    // floor((46 * 3 + 95 * 4 + 25) / 100) == floor(543 / 100)
    assert_eq!(p.len_nethack(), 5);
    assert_eq!(Point(0, 0).len_nethack(), 0);
    assert_eq!(Point(1, 1).len_nethack(), 1);
}

#[test]
fn test_in_l2_range() {
    // len == 5 exactly: within range 6 (5 <= 5.5), not within 5 (5 > 4.5).
    let p = Point(3, 4);
    assert!(p.in_l2_range(6));
    assert!(!p.in_l2_range(5));
    assert!(Point(0, 0).in_l2_range(1));
    assert!(!Point(0, 0).in_l2_range(0));
    assert!(!Point(0, 0).in_l2_range(-3));
}

#[test]
fn test_div_floor_and_ceil() {
    assert_eq!(div_floor(7, 2), 3);
    assert_eq!(div_floor(-7, 2), -4);
    assert_eq!(div_floor(7, -2), -4);
    assert_eq!(div_floor(-7, -2), 3);
    assert_eq!(div_floor(6, 3), 2);
    assert_eq!(div_floor(-6, 3), -2);
    assert_eq!(div_ceil(7, 2), 4);
    assert_eq!(div_ceil(-7, 2), -3);
    assert_eq!(div_ceil(7, -2), -3);
    assert_eq!(div_ceil(-7, -2), 4);
    assert_eq!(div_ceil(6, 3), 2);
    assert_eq!(div_ceil(-6, 3), -2);
}

#[test]
fn test_matrix_reads_and_writes() {
    let mut m = Matrix::new(Point(3, 2), 9);
    assert_eq!(m.size, Point(3, 2));
    assert_eq!(m.get(Point(2, 1)), 9);
    m.set(Point(2, 1), 5);
    assert_eq!(m.get(Point(2, 1)), 5);
    assert_eq!(*m.entry_ref(Point(2, 1)), 5);
    // Out-of-bounds reads return the default; writes are no-ops.
    assert_eq!(m.get(Point(3, 0)), 9);
    assert_eq!(m.get(Point(-1, 0)), 9);
    m.set(Point(3, 0), 1);
    assert_eq!(m.get(Point(3, 0)), 9);
    assert!(m.contains(Point(0, 0)));
    assert!(!m.contains(Point(0, 2)));
    assert_eq!(m.index(Point(1, 1)), Some(4));
    assert_eq!(m.index(Point(3, 1)), None);
    m.fill(2);
    assert_eq!(m.get(Point(0, 0)), 2);
    assert_eq!(m.get(Point(2, 1)), 2);
}
