use shadowcast::{INITIAL_VISIBILITY, Matrix, MatrixOracle, Point, VISIBILITY_LOSSES, Vision, VisionArgs};

fn oracle_from_cells(size: Point, cells: &[(i32, i32, i32)]) -> MatrixOracle {
    let mut op = Matrix::new(size, INITIAL_VISIBILITY);
    for y in 0..size.1 {
        for x in 0..size.0 {
            op.set(Point(x, y), 0);
        }
    }
    for &(x, y, o) in cells {
        op.set(Point(x, y), o);
    }
    MatrixOracle::new(op)
}

fn visibilities(vision: &Vision, size: Point) -> Vec<i32> {
    let mut out = Vec::new();
    for y in 0..size.1 {
        for x in 0..size.0 {
            out.push(vision.get_visibility_at(Point(x, y)));
        }
    }
    out
}

/// A point reads as visible exactly when it appears in `get_points_seen`.
#[test]
fn test_visible_iff_seen() {
    let size = Point(5, 5);
    let args = VisionArgs {
        eye: Point(0, 0),
        dir: Point(0, 0),
        opacity_lookup: oracle_from_cells(size, &[(2, 2, 100), (2, 4, 100)]),
        initial_visibility: INITIAL_VISIBILITY,
    };
    let mut vision = Vision::new(10);
    vision.compute(&args);
    let seen = vision.get_points_seen().to_vec();
    for y in -12..13 {
        for x in -12..13 {
            let p = Point(x, y);
            assert_eq!(vision.get_visibility_at(p) >= 0, seen.contains(&p));
        }
    }
}

/// The viewer's own cell is recorded first and keeps the initial budget.
#[test]
fn test_eye_first_with_initial_visibility() {
    let size = Point(5, 5);
    let args = VisionArgs {
        eye: Point(3, 2),
        dir: Point(0, 0),
        opacity_lookup: oracle_from_cells(size, &[(2, 2, 100)]),
        initial_visibility: 77,
    };
    let mut vision = Vision::new(6);
    vision.compute(&args);
    assert_eq!(vision.get_points_seen()[0], Point(3, 2));
    assert_eq!(vision.get_visibility_at(Point(3, 2)), 77);
}

/// Every recorded point lies in the Chebyshev box and the rounded disk.
#[test]
fn test_seen_within_radius() {
    let size = Point(9, 9);
    let radius = 3;
    let eye = Point(4, 4);
    let args = VisionArgs {
        eye,
        dir: Point(0, 0),
        opacity_lookup: oracle_from_cells(size, &[]),
        initial_visibility: INITIAL_VISIBILITY,
    };
    let mut vision = Vision::new(radius);
    vision.compute(&args);
    for p in vision.get_points_seen() {
        let dx = (p.0 - eye.0).abs() as i64;
        let dy = (p.1 - eye.1).abs() as i64;
        let r = radius as i64;
        assert!(dx.max(dy) <= r);
        assert!(dx * dx + dy * dy <= r * r + r);
    }
}

/// In fully open terrain the visible set is exactly the rounded disk.
#[test]
fn test_open_terrain_disk() {
    let size = Point(9, 9);
    let radius = 3;
    let eye = Point(4, 4);
    let args = VisionArgs {
        eye,
        dir: Point(0, 0),
        opacity_lookup: oracle_from_cells(size, &[]),
        initial_visibility: INITIAL_VISIBILITY,
    };
    let mut vision = Vision::new(radius);
    vision.compute(&args);
    for y in 0..size.1 {
        for x in 0..size.0 {
            let p = Point(x, y);
            let dx = (p.0 - eye.0) as i64;
            let dy = (p.1 - eye.1) as i64;
            let r = radius as i64;
            let in_disk = dx.abs().max(dy.abs()) <= r && dx * dx + dy * dy <= r * r + r;
            assert_eq!(vision.get_visibility_at(p) >= 0, in_disk, "at {:?}", p);
        }
    }
}

/// Two sweeps with identical arguments give identical points, in the same
/// order, and identical residual values.
#[test]
fn test_determinism() {
    let size = Point(11, 11);
    let cells = [(2, 2, 100), (5, 7, 45), (6, 6, 45), (8, 1, 100)];
    let args = VisionArgs {
        eye: Point(5, 5),
        dir: Point(0, 0),
        opacity_lookup: oracle_from_cells(size, &cells),
        initial_visibility: INITIAL_VISIBILITY,
    };
    let mut a = Vision::new(8);
    let mut b = Vision::new(8);
    a.compute(&args);
    b.compute(&args);
    assert_eq!(a.get_points_seen(), b.get_points_seen());
    assert_eq!(visibilities(&a, size), visibilities(&b, size));

    // Also across reuses of one scratch object.
    let first = a.get_points_seen().to_vec();
    a.compute(&args);
    assert_eq!(a.get_points_seen(), &first[..]);
}

/// Raising one cell's opacity never raises any other cell's residual
/// visibility.
#[test]
fn test_monotone_attenuation() {
    let size = Point(11, 11);
    let base = [(2, 2, 45), (5, 7, 45), (7, 3, 100)];
    let eye = Point(5, 5);
    let radius = 9;
    let mut base_vision = Vision::new(radius);
    base_vision.compute(&VisionArgs {
        eye,
        dir: Point(0, 0),
        opacity_lookup: oracle_from_cells(size, &base),
        initial_visibility: INITIAL_VISIBILITY,
    });
    let base_vis = visibilities(&base_vision, size);

    for y in 0..size.1 {
        for x in 0..size.0 {
            if (x, y) == (eye.0, eye.1) {
                continue;
            }
            let mut bumped = base.to_vec();
            bumped.push((x, y, 100));
            let mut vision = Vision::new(radius);
            vision.compute(&VisionArgs {
                eye,
                dir: Point(0, 0),
                opacity_lookup: oracle_from_cells(size, &bumped),
                initial_visibility: INITIAL_VISIBILITY,
            });
            let bumped_vis = visibilities(&vision, size);
            for yy in 0..size.1 {
                for xx in 0..size.0 {
                    if (xx, yy) == (x, y) {
                        continue;
                    }
                    let i = (xx + yy * size.0) as usize;
                    assert!(
                        bumped_vis[i] <= base_vis[i],
                        "raising ({}, {}) raised ({}, {})",
                        x,
                        y,
                        xx,
                        yy
                    );
                }
            }
        }
    }
}

/// With a facing direction, the visible set shrinks to a subset of the
/// all-around one.
#[test]
fn test_directional_subset() {
    let size = Point(13, 13);
    let cells = [(4, 4, 100), (8, 9, 45)];
    let eye = Point(6, 6);
    let radius = 10;
    let mut all = Vision::new(radius);
    all.compute(&VisionArgs {
        eye,
        dir: Point(0, 0),
        opacity_lookup: oracle_from_cells(size, &cells),
        initial_visibility: INITIAL_VISIBILITY,
    });
    let all_seen = all.get_points_seen().to_vec();

    for dir in [Point(0, 6), Point(-5, 1), Point(3, -4), Point(1, 1)] {
        let mut cone = Vision::new(radius);
        cone.compute(&VisionArgs {
            eye,
            dir,
            opacity_lookup: oracle_from_cells(size, &cells),
            initial_visibility: INITIAL_VISIBILITY,
        });
        for p in cone.get_points_seen() {
            assert!(all_seen.contains(p), "dir {:?} sees extra {:?}", dir, p);
        }
    }
}

/// On an empty map, a single-target query succeeds exactly inside the
/// rounded disk, including along long diagonals.
#[test]
fn test_can_see_empty_disk() {
    let size = Point(17, 17);
    let radius = 7;
    let eye = Point(8, 8);
    let args = VisionArgs {
        eye,
        dir: Point(0, 0),
        opacity_lookup: oracle_from_cells(size, &[]),
        initial_visibility: INITIAL_VISIBILITY,
    };
    let mut vision = Vision::new(radius);
    for y in 0..size.1 {
        for x in 0..size.0 {
            let p = Point(x, y);
            let dx = (p.0 - eye.0) as i64;
            let dy = (p.1 - eye.1) as i64;
            let r = radius as i64;
            let in_disk = dx * dx + dy * dy <= r * r + r;
            assert_eq!(vision.can_see(&args, p), in_disk, "at {:?}", p);
        }
    }
}

/// Exact residuals in uniform grass with loss 45: an axial step costs 45, a
/// diagonal step costs 45 + floor(45 / 2) = 67, and budgets below the loss
/// leave the cell lit at zero.
#[test]
fn test_attenuation_residuals() {
    let size = Point(9, 9);
    let eye = Point(4, 4);
    let mut op = Matrix::new(size, INITIAL_VISIBILITY);
    for y in 0..size.1 {
        for x in 0..size.0 {
            op.set(Point(x, y), VISIBILITY_LOSSES[2]);
        }
    }
    let args = VisionArgs {
        eye,
        dir: Point(0, 0),
        opacity_lookup: MatrixOracle::new(op),
        initial_visibility: INITIAL_VISIBILITY,
    };
    let mut vision = Vision::new(4);
    vision.compute(&args);
    assert_eq!(vision.get_visibility_at(Point(4, 4)), 100);
    assert_eq!(vision.get_visibility_at(Point(5, 4)), 55);
    assert_eq!(vision.get_visibility_at(Point(5, 5)), 33);
    assert_eq!(vision.get_visibility_at(Point(6, 4)), 10);
    assert_eq!(vision.get_visibility_at(Point(6, 6)), 0);
    assert_eq!(vision.get_visibility_at(Point(7, 4)), 0);
    assert_eq!(vision.get_visibility_at(Point(8, 4)), -1);
}

/// With radius zero only the viewer's own cell is ever visible.
#[test]
fn test_zero_radius() {
    let size = Point(3, 3);
    let args = VisionArgs {
        eye: Point(1, 1),
        dir: Point(0, 0),
        opacity_lookup: oracle_from_cells(size, &[]),
        initial_visibility: INITIAL_VISIBILITY,
    };
    let mut vision = Vision::new(0);
    vision.compute(&args);
    assert_eq!(vision.get_points_seen(), &[Point(1, 1)]);
    for y in 0..size.1 {
        for x in 0..size.0 {
            let p = Point(x, y);
            let expected = if p == Point(1, 1) { INITIAL_VISIBILITY } else { -1 };
            assert_eq!(vision.get_visibility_at(p), expected);
            assert_eq!(vision.can_see(&args, p), p == Point(1, 1));
        }
    }
}

/// Full sweeps and per-cell queries agree on a pseudo-random map with
/// scattered walls and grass.
#[test]
fn test_random_map_consistency() {
    let radius = 21;
    let side = 2 * radius + 1;
    let size = Point(side, side);
    let eye = Point(radius, radius);

    // A small multiplicative congruential generator; the map it produces is
    // fixed across runs.
    let mut state: u64 = 17;
    let mut sample = || {
        state = state.wrapping_mul(6364136223846793005).wrapping_add(1442695040888963407);
        ((state >> 33) % 100) as i32
    };

    let mut op = Matrix::new(size, INITIAL_VISIBILITY);
    for x in 0..size.0 {
        for y in 0..size.1 {
            let s = sample();
            let o = if s < 1 {
                INITIAL_VISIBILITY
            } else if s < 5 {
                VISIBILITY_LOSSES[2]
            } else {
                0
            };
            op.set(Point(x, y), o);
        }
    }
    let args = VisionArgs {
        eye,
        dir: Point(0, 0),
        opacity_lookup: MatrixOracle::new(op),
        initial_visibility: INITIAL_VISIBILITY,
    };
    let mut vision = Vision::new(radius);
    vision.compute(&args);
    let mut full = Vec::new();
    for y in 0..size.1 {
        for x in 0..size.0 {
            full.push(vision.get_visibility_at(Point(x, y)) >= 0);
        }
    }
    for y in 0..size.1 {
        for x in 0..size.0 {
            let i = (x + y * size.0) as usize;
            assert_eq!(vision.can_see(&args, Point(x, y)), full[i], "at ({}, {})", x, y);
        }
    }
}
