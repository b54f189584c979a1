use shadowcast::{INITIAL_VISIBILITY, Matrix, MatrixOracle, Point, VISIBILITY_LOSSES, Vision, VisionArgs};

const VISIBILITY_LOSS: i32 = VISIBILITY_LOSSES[2];

fn opacity_of(c: char) -> i32 {
    match c {
        '#' => INITIAL_VISIBILITY,
        ',' => VISIBILITY_LOSS,
        _ => 0,
    }
}

fn oracle_for(map: &Matrix<char>) -> MatrixOracle {
    // Out-of-map cells are fully opaque, like the '#' default of the parser.
    let mut op = Matrix::new(map.size, INITIAL_VISIBILITY);
    for y in 0..map.size.1 {
        for x in 0..map.size.0 {
            let p = Point(x, y);
            op.set(p, opacity_of(map.get(p)));
        }
    }
    MatrixOracle::new(op)
}

fn run_fov(
    eye: Point,
    dir: Point,
    map: &Matrix<char>,
    radius: i32,
    check_point_lookups: bool,
) -> Matrix<bool> {
    let initial_visibility = INITIAL_VISIBILITY;
    let opacity_lookup = oracle_for(map);
    let args = VisionArgs { eye, dir, opacity_lookup, initial_visibility };

    let mut vision = Vision::new(radius);
    vision.compute(&args);

    let mut result = Matrix::new(map.size, false);
    for y in 0..map.size.1 {
        for x in 0..map.size.0 {
            let p = Point(x, y);
            result.set(p, vision.get_visibility_at(p) >= 0);
        }
    }

    // Check that point lookups are consistent with the full computation.
    if check_point_lookups {
        for y in 0..map.size.1 {
            for x in 0..map.size.0 {
                let p = Point(x, y);
                assert!(result.get(p) == vision.can_see(&args, p));
            }
        }
    }
    result
}

fn parse_map(input: &[&str]) -> (Matrix<char>, Point, Option<Point>) {
    let height = input.len();
    let width = input[0].len();
    let mut map = Matrix::new(Point(width as i32, height as i32), '#');
    let mut eye = None;
    let mut target = None;

    for (y, row) in input.iter().enumerate() {
        for (x, c) in row.chars().enumerate() {
            let point = Point(x as i32, y as i32);
            map.set(point, c);

            if c == '@' {
                assert!(eye.is_none());
                eye = Some(point);
            } else if c == 'X' {
                assert!(target.is_none());
                target = Some(point);
            }
        }
    }
    (map, eye.unwrap(), target)
}

fn test_fov(input: &[&str], expected: &[&str]) {
    let (map, eye, target) = parse_map(input);
    let dir = if let Some(x) = target { x.sub(eye) } else { Point(0, 0) };
    let visible = run_fov(eye, dir, &map, map.size.0 + map.size.1, true);
    let result = show_fov(eye, &map, &visible);
    if expected != result {
        panic!("\nExpected:\n&{:#?}\n\nGot:\n&{:#?}", expected, result);
    }
}

fn show_fov(eye: Point, map: &Matrix<char>, visible: &Matrix<bool>) -> Vec<String> {
    let mut result = Vec::new();
    for y in 0..map.size.1 {
        let mut row = String::new();
        for x in 0..map.size.0 {
            let p = Point(x, y);
            let (is_eye, is_visible) = (p == eye, visible.get(p));
            let c = if is_eye {
                '@'
            } else if !is_visible {
                '%'
            } else {
                map.get(p)
            };
            row.push(c);
        }
        result.push(row);
    }
    result
}

#[test]
fn test_empty() {
    test_fov(
        &["@...", "....", "...."],
        &["@...", "....", "...."],
    );
}

#[test]
fn test_single_pillar() {
    test_fov(
        &["@...", ".#..", "...."],
        &["@...", ".#..", "..%%"],
    );
}

#[test]
fn test_wall_with_gap() {
    test_fov(
        &["@....", ".....", "..#..", ".....", "..#.."],
        &["@....", ".....", "..#..", "...%.", "..#.%"],
    );
}

#[test]
fn test_diagonal_wall() {
    test_fov(
        &["@....", ".....", "..#..", "...#.", "....#"],
        &["@....", ".....", "..#..", "...%.", "....%"],
    );
}

#[test]
fn test_near_45() {
    test_fov(
        &["@...", "....", "..#.", "...."],
        &["@...", "....", "..#.", "...%"],
    );
}

#[test]
fn test_gaps() {
    test_fov(
        &[
            "..........#",
            "..........#",
            "..........#",
            "......#...#",
            "..##..#...#",
            "..........#",
            "...@......#",
            "......#...#",
            "##....#...#",
            "..........#",
            "####..##..#",
        ],
        &[
            "%%%%%....%%",
            "%%%%....%%%",
            ".%%%...%%%%",
            "..%%..#%%.#",
            "..##..#...#",
            "..........#",
            "...@......#",
            "......#...#",
            "##....#%%%%",
            "%.......%%%",
            "####..##.%%",
        ],
    );
}

#[test]
fn test_near_wall() {
    test_fov(
        &[
            "...............",
            ".#############.",
            ".#@..........#.",
            ".#...........#.",
            ".#...........#.",
            ".#...........#.",
            ".#...........#.",
            ".#...........#.",
            ".#...........#.",
            ".#...........#.",
            ".#...........#.",
            ".#...........#.",
            ".#...........#.",
            ".#...........#.",
            ".#...........#.",
            ".#############.",
            "...............",
        ],
        &[
            "%%%%%%%%%%%%%%%",
            "%#############%",
            "%#@..........#%",
            "%#...........#%",
            "%#...........#%",
            "%#...........#%",
            "%#...........#%",
            "%#...........#%",
            "%#...........#%",
            "%#...........#%",
            "%#...........#%",
            "%#...........#%",
            "%#...........#%",
            "%#...........#%",
            "%#...........#%",
            "%#############%",
            "%%%%%%%%%%%%%%%",
        ],
    );
}

#[test]
fn test_large() {
    test_fov(
        &[
            "...............",
            ".#############.",
            ".#...........#.",
            ".#...........#.",
            ".#.......#...#.",
            ".#...........#.",
            ".#..#........#.",
            ".#.....@.....#.",
            ".#...........#.",
            ".#...........#.",
            ".#.......#...#.",
            ".#....#......#.",
            ".#...........#.",
            ".#...........#.",
            ".#...........#.",
            ".#############.",
            "...............",
        ],
        &[
            "%%%%%%%%%%%%%%%",
            "%##########%##%",
            "%#........%..#%",
            "%#...........#%",
            "%#.......#...#%",
            "%%%..........#%",
            "%#..#........#%",
            "%#.....@.....#%",
            "%#...........#%",
            "%#...........#%",
            "%#.......#...#%",
            "%#....#......#%",
            "%#........%..#%",
            "%#.........%.#%",
            "%#...%.....%%#%",
            "%####%######%%%",
            "%%%%%%%%%%%%%%%",
        ],
    );
}

#[test]
fn test_field_of_grass() {
    test_fov(
        &[
            ",,,,,,,,,,,,,,,",
            ",,,,,,,,,,,,,,,",
            ",,,,,,,,,,,,,,,",
            ",,,,,,,,,,,,,,,",
            ",,,,,,,,,,,,,,,",
            ",,,,,,,,,,,,,,,",
            ",,,,,,,,,,,,,,,",
            ",,,,,,,,,,,,,,,",
            ",,,,,,,@,,,,,,,",
            ",,,,,,,,,,,,,,,",
            ",,,,,,,,,,,,,,,",
            ",,,,,,,,,,,,,,,",
            ",,,,,,,,,,,,,,,",
            ",,,,,,,,,,,,,,,",
            ",,,,,,,,,,,,,,,",
            ",,,,,,,,,,,,,,,",
            ",,,,,,,,,,,,,,,",
        ],
        &[
            "%%%%%%%%%%%%%%%",
            "%%%%%%%%%%%%%%%",
            "%%%%%%%%%%%%%%%",
            "%%%%%%%%%%%%%%%",
            "%%%%%%%%%%%%%%%",
            "%%%%%%,,,%%%%%%",
            "%%%%%,,,,,%%%%%",
            "%%%%,,,,,,,%%%%",
            "%%%%,,,@,,,%%%%",
            "%%%%,,,,,,,%%%%",
            "%%%%%,,,,,%%%%%",
            "%%%%%%,,,%%%%%%",
            "%%%%%%%%%%%%%%%",
            "%%%%%%%%%%%%%%%",
            "%%%%%%%%%%%%%%%",
            "%%%%%%%%%%%%%%%",
            "%%%%%%%%%%%%%%%",
        ],
    );
}

#[test]
fn test_semitransparent_walls() {
    test_fov(
        &[
            ".....,...,.,.,.",
            ".....,.@.,.,.,.",
            ".....,...,.,.,.",
            ".....,...,.,.,.",
            ".....,...,.,.,.",
            ".....,...,.,.,.",
            ".....,...,.,.,.",
            ".....,...,.,.,.",
            ".....,...,.,.,.",
            ".....,...,.,.,.",
            ".....,...,.,.,.",
            ".....,...,.,.,.",
            ".....,...,.,.,.",
            ".....,...,.,.,.",
            ".....,...,.,.,.",
            ".....,...,.,.,.",
            ".....,...,.,.,.",
        ],
        &[
            ".....,...,.,.,%",
            ".....,.@.,.,.,%",
            ".....,...,.,.,%",
            ".....,...,.,%%%",
            ".....,...,.,%%%",
            ".....,...,.,%%%",
            ".....,...,.,%%%",
            "....%,...,%,%%%",
            "....%,...,%%%%%",
            "...%%,...,%%%%%",
            "..%%%,...,%%%%%",
            "..%%%,...,%%%%%",
            ".%%%%,...,%%%%%",
            "%%%%%,...,%%%%%",
            "%%%%%,...,%%%%%",
            "%%%%%,...,%%%%%",
            "%%%%%,...,%%%%%",
        ],
    );
}

#[test]
fn test_directional_s() {
    test_fov(
        &[
            ".............",
            ".............",
            ".............",
            ".............",
            ".............",
            ".............",
            "......@......",
            ".............",
            ".............",
            ".............",
            ".............",
            ".............",
            "......X......",
        ],
        &[
            "%%%%%%%%%%%%%",
            "%%%%%%%%%%%%%",
            "%%%%%%%%%%%%%",
            "%%%%%%%%%%%%%",
            "%%%%%%%%%%%%%",
            "%%%%%%%%%%%%%",
            "%%%%%%@%%%%%%",
            "%%%%.....%%%%",
            "%%.........%%",
            "%...........%",
            ".............",
            ".............",
            "......X......",
        ],
    );
}

#[test]
fn test_directional_sw() {
    test_fov(
        &[
            ".............",
            ".............",
            ".............",
            ".............",
            ".............",
            ".............",
            "......@......",
            ".............",
            ".............",
            ".............",
            ".............",
            ".............",
            "X............",
        ],
        &[
            "%%%%%%%%%%%%%",
            "%%%%%%%%%%%%%",
            "%%%%%%%%%%%%%",
            "%%%%%%%%%%%%%",
            ".%%%%%%%%%%%%",
            ".....%%%%%%%%",
            "......@%%%%%%",
            ".......%%%%%%",
            "........%%%%%",
            "........%%%%%",
            "........%%%%%",
            "........%%%%%",
            "X........%%%%",
        ],
    );
}

#[test]
fn test_directional_ssw() {
    test_fov(
        &[
            ".............",
            ".............",
            ".............",
            ".............",
            ".............",
            ".............",
            "......@......",
            ".............",
            ".............",
            ".............",
            ".............",
            ".............",
            "...X.........",
        ],
        &[
            "%%%%%%%%%%%%%",
            "%%%%%%%%%%%%%",
            "%%%%%%%%%%%%%",
            "%%%%%%%%%%%%%",
            "%%%%%%%%%%%%%",
            "%%%%%%%%%%%%%",
            "......@%%%%%%",
            "........%%%%%",
            "........%%%%%",
            ".........%%%%",
            "..........%%%",
            "..........%%%",
            "...X.......%%",
        ],
    );
}
