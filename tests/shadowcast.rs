use shadowcast::fov::compute_fov;
use shadowcast::geometry::Pos;

fn inside_map<T>(pos: Pos, map: &Vec<Vec<T>>) -> bool {
    (pos.1 as usize) < map.len() && (pos.0 as usize) < map[0].len()
}

fn visible_in(map: &Vec<Vec<i32>>, marks: Vec<Pos>) -> Vec<Pos> {
    let mut visible = Vec::new();
    for pos in marks {
        if inside_map(pos, map) && !visible.contains(&pos) {
            visible.push(pos);
        }
    }
    visible
}

fn fov_of(origin: Pos, tiles: &Vec<Vec<i32>>) -> Vec<Pos> {
    let is_blocking = |pos: Pos| !inside_map(pos, tiles) || tiles[pos.1 as usize][pos.0 as usize] == 1;
    visible_in(tiles, compute_fov(origin, &is_blocking))
}

fn matching_visible(expected: Vec<Vec<usize>>, visible: Vec<(isize, isize)>) {
    for y in 0..expected.len() {
        let mut line = String::new();
        for x in 0..expected[0].len() {
            if visible.contains(&(x as isize, y as isize)) {
                line.push('1');
            } else {
                line.push('0');
            }
            assert_eq!(expected[y][x] == 1, visible.contains(&(x as isize, y as isize)));
        }
        println!("{}", line);
    }
}

#[test]
fn test_expansive_walls() {
    let origin = (1, 2);

    let tiles = vec![
        vec![1, 1, 1, 1, 1, 1, 1],
        vec![1, 0, 0, 0, 0, 0, 1],
        vec![1, 0, 0, 0, 0, 0, 1],
        vec![1, 1, 1, 1, 1, 1, 1],
    ];

    let visible = fov_of(origin, &tiles);

    let expected = vec![
        vec![1, 1, 1, 1, 1, 1, 1],
        vec![1, 1, 1, 1, 1, 1, 1],
        vec![1, 1, 1, 1, 1, 1, 1],
        vec![1, 1, 1, 1, 1, 1, 1],
    ];
    matching_visible(expected, visible);
}

#[test]
fn test_expanding_shadows() {
    let origin = (0, 0);

    let tiles = vec![
        vec![0, 0, 0, 0, 0, 0, 0],
        vec![0, 1, 0, 0, 0, 0, 0],
        vec![0, 0, 0, 0, 0, 0, 0],
        vec![0, 0, 0, 0, 0, 0, 0],
        vec![0, 0, 0, 0, 0, 0, 0],
    ];

    let visible = fov_of(origin, &tiles);

    let expected = vec![
        vec![1, 1, 1, 1, 1, 1, 1],
        vec![1, 1, 1, 1, 1, 1, 1],
        vec![1, 1, 0, 0, 1, 1, 1],
        vec![1, 1, 0, 0, 0, 0, 1],
        vec![1, 1, 1, 0, 0, 0, 0],
    ];
    matching_visible(expected, visible);
}

#[test]
fn test_no_blind_corners() {
    let origin = (3, 0);

    let tiles = vec![
        vec![0, 0, 0, 0, 0, 0, 0],
        vec![1, 1, 1, 1, 0, 0, 0],
        vec![0, 0, 0, 1, 0, 0, 0],
        vec![0, 0, 0, 1, 0, 0, 0],
    ];

    let is_blocking = |pos: Pos| {
        let outside = (pos.1 as usize) >= tiles.len() || (pos.0 as usize) >= tiles[0].len();
        outside || tiles[pos.1 as usize][pos.0 as usize] == 1
    };

    let mut visible = Vec::new();
    for pos in compute_fov(origin, &is_blocking) {
        let outside = (pos.1 as usize) >= tiles.len() || (pos.0 as usize) >= tiles[0].len();
        if !outside && !visible.contains(&pos) {
            visible.push(pos);
        }
    }

    let expected = vec![
        vec![1, 1, 1, 1, 1, 1, 1],
        vec![1, 1, 1, 1, 1, 1, 1],
        vec![0, 0, 0, 0, 1, 1, 1],
        vec![0, 0, 0, 0, 0, 1, 1],
    ];
    matching_visible(expected, visible);
}
