use shadowcast::fov::compute_fov;
use shadowcast::geometry::{Cardinal, Pos, Quadrant};
use shadowcast::row::{is_symmetric, round_ties_down, round_ties_up, slope, Row, Slope};

fn blocked_at(tiles: &Vec<Vec<i32>>, pos: Pos) -> bool {
    pos.0 < 0
        || pos.1 < 0
        || (pos.1 as usize) >= tiles.len()
        || (pos.0 as usize) >= tiles[0].len()
        || tiles[pos.1 as usize][pos.0 as usize] == 1
}

fn visible_set(origin: Pos, tiles: &Vec<Vec<i32>>) -> Vec<Pos> {
    let is_blocking = |pos: Pos| blocked_at(tiles, pos);
    let mut visible: Vec<Pos> = Vec::new();
    for pos in compute_fov(origin, &is_blocking) {
        let inside = pos.0 >= 0
            && pos.1 >= 0
            && (pos.1 as usize) < tiles.len()
            && (pos.0 as usize) < tiles[0].len();
        if inside && !visible.contains(&pos) {
            visible.push(pos);
        }
    }
    visible.sort();
    visible
}

fn pillars() -> Vec<Vec<i32>> {
    vec![
        vec![0, 0, 0, 0, 0, 0, 0, 0],
        vec![0, 0, 1, 0, 0, 0, 0, 0],
        vec![0, 0, 0, 0, 0, 1, 0, 0],
        vec![0, 0, 0, 1, 0, 0, 0, 0],
        vec![0, 1, 0, 0, 0, 0, 1, 0],
        vec![0, 0, 0, 0, 1, 0, 0, 0],
    ]
}

#[test]
fn origin_is_marked_first_even_when_blocking() {
    let is_blocking = |pos: Pos| pos.0.abs() > 2 || pos.1.abs() > 2 || pos == (0, 0);
    let marks = compute_fov((0, 0), &is_blocking);
    assert_eq!(marks[0], (0, 0));
}

#[test]
fn repeated_runs_agree() {
    let tiles = pillars();
    let is_blocking = |pos: Pos| blocked_at(&tiles, pos);
    let first = compute_fov((3, 2), &is_blocking);
    let second = compute_fov((3, 2), &is_blocking);
    assert_eq!(first, second);
}

#[test]
fn walls_next_to_origin_are_marked() {
    let is_blocking = |pos: Pos| pos != (0, 0);
    let marks = compute_fov((0, 0), &is_blocking);
    for x in -1..=1 {
        for y in -1..=1 {
            assert!(marks.contains(&(x, y)));
        }
    }
    assert!(!marks.contains(&(2, 0)));
    assert!(!marks.contains(&(0, -2)));
}

#[test]
fn an_open_cell_sees_the_corner_walls_in_range() {
    let tiles = vec![vec![1, 1, 1], vec![1, 0, 1], vec![1, 1, 1]];
    assert_eq!(visible_set((1, 1), &tiles).len(), 9);
}

#[test]
fn enclosed_room_hides_the_outside() {
    let tiles = vec![
        vec![0, 0, 0, 0, 0, 0, 0, 0, 0],
        vec![0, 1, 1, 1, 1, 1, 1, 1, 0],
        vec![0, 1, 0, 0, 0, 0, 0, 1, 0],
        vec![0, 1, 0, 0, 0, 0, 0, 1, 0],
        vec![0, 1, 0, 0, 0, 0, 0, 1, 0],
        vec![0, 1, 1, 1, 1, 1, 1, 1, 0],
        vec![0, 0, 0, 0, 0, 0, 0, 0, 0],
    ];
    let visible = visible_set((3, 3), &tiles);
    for y in 0..7isize {
        for x in 0..9isize {
            let inside_room = (1..=7).contains(&x) && (1..=5).contains(&y);
            assert_eq!(visible.contains(&(x, y)), inside_room, "at {:?}", (x, y));
        }
    }
}

#[test]
fn floor_visibility_is_symmetric() {
    let tiles = pillars();
    let floors: Vec<Pos> = (0..6isize)
        .flat_map(|y| (0..8isize).map(move |x| (x, y)))
        .filter(|&p| !blocked_at(&tiles, p))
        .collect();
    for &a in &floors {
        let from_a = visible_set(a, &tiles);
        for &b in &floors {
            let from_b = visible_set(b, &tiles);
            assert_eq!(from_a.contains(&b), from_b.contains(&a), "between {:?} and {:?}", a, b);
        }
    }
}

#[test]
fn an_added_wall_never_reveals_more() {
    let tiles = pillars();
    let origin = (0, 0);
    let before = visible_set(origin, &tiles);
    for y in 0..6usize {
        for x in 0..8usize {
            if tiles[y][x] == 1 || (x as isize, y as isize) == origin {
                continue;
            }
            let mut more = tiles.clone();
            more[y][x] = 1;
            let after = visible_set(origin, &more);
            for p in after {
                assert!(p == (x as isize, y as isize) || before.contains(&p), "{:?} after a wall at {:?}", p, (x, y));
            }
        }
    }
}

#[test]
fn rounding_breaks_ties_outward() {
    assert_eq!(round_ties_up(1, 2), 1);
    assert_eq!(round_ties_up(-1, 2), 0);
    assert_eq!(round_ties_down(1, 2), 0);
    assert_eq!(round_ties_down(-1, 2), -1);
    assert_eq!(round_ties_up(7, 3), 2);
    assert_eq!(round_ties_down(5, 3), 2);
    assert_eq!(round_ties_up(-7, 4), -2);
    assert_eq!(round_ties_down(-7, 4), -2);
    assert_eq!(round_ties_up(6, 3), 2);
    assert_eq!(round_ties_down(6, 3), 2);
}

#[test]
fn slope_reaches_the_near_corner() {
    assert_eq!(slope((2, 1)), Slope { num: 1, den: 4 });
    assert_eq!(slope((3, -2)), Slope { num: -5, den: 6 });
}

#[test]
fn symmetry_test_uses_the_tile_centre() {
    let full = Row::new(2, Slope { num: -1, den: 1 }, Slope { num: 1, den: 1 });
    assert!(is_symmetric(full, (2, 2)));
    assert!(is_symmetric(full, (2, -2)));
    let narrow = Row::new(2, Slope { num: 1, den: 4 }, Slope { num: 1, den: 1 });
    assert!(!is_symmetric(narrow, (2, 0)));
    assert!(is_symmetric(narrow, (2, 1)));
}

#[test]
fn row_tiles_span_the_rounded_cone() {
    let full = Row::new(2, Slope { num: -1, den: 1 }, Slope { num: 1, den: 1 });
    assert_eq!(full.tiles(), vec![(2, -2), (2, -1), (2, 0), (2, 1), (2, 2)]);
    let narrow = Row::new(3, Slope { num: 1, den: 4 }, Slope { num: 1, den: 2 });
    assert_eq!(narrow.tiles(), vec![(3, 1)]);
    let empty = Row::new(1, Slope { num: 3, den: 4 }, Slope { num: 1, den: 4 });
    assert_eq!(empty.tiles(), vec![]);
    let next = full.next();
    assert_eq!(next.depth, 3);
    assert_eq!(next.start_slope, full.start_slope);
}

#[test]
fn quadrants_map_local_tiles() {
    assert_eq!(Cardinal::from_index(0), Cardinal::North);
    assert_eq!(Cardinal::from_index(1), Cardinal::East);
    assert_eq!(Cardinal::from_index(2), Cardinal::South);
    assert_eq!(Cardinal::from_index(3), Cardinal::West);
    let origin = (10, 20);
    assert_eq!(Quadrant::new(Cardinal::North, origin).transform((2, 1)), (11, 18));
    assert_eq!(Quadrant::new(Cardinal::South, origin).transform((2, 1)), (11, 22));
    assert_eq!(Quadrant::new(Cardinal::East, origin).transform((2, 1)), (12, 21));
    assert_eq!(Quadrant::new(Cardinal::West, origin).transform((2, 1)), (8, 21));
}

#[test]
fn an_added_wall_can_itself_become_visible() {
    let mut tiles = vec![vec![0; 7]; 7];
    tiles[2][0] = 1;
    let before = visible_set((0, 0), &tiles);
    assert!(!before.contains(&(1, 5)));
    tiles[5][1] = 1;
    let after = visible_set((0, 0), &tiles);
    assert!(after.contains(&(1, 5)));
    for p in after {
        assert!(p == (1, 5) || before.contains(&p));
    }
}
