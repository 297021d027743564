use advent::day17::{
    clockwise, counterclockwise, create, finished, opposite, parse, parse_tile, precedes,
    same_nav, solve, step, to_end, City, Dir, Nav,
};

fn city(rows: &[&str]) -> City {
    City {
        tiles: rows.iter().map(|r| r.chars().map(parse_tile).collect()).collect(),
        size: (rows[0].len(), rows.len()),
    }
}

#[test]
fn crucible_steps_lose_heat() {
    let m = city(&["241", "321", "325"]);
    let start = Nav { dir: Dir::Right, coord: (0, 0), temp_drop: 0, total_cost: 6, tiles_straight: 0 };
    assert_eq!(6, to_end((0, 0), &m));
    assert_eq!(2, to_end((2, 2), &m));
    let a = create(&m, start, Dir::Right, (0, 3)).unwrap();
    assert_eq!(Nav { dir: Dir::Right, coord: (1, 0), temp_drop: 4, total_cost: 9, tiles_straight: 1 }, a);
    let b = create(&m, a, Dir::Down, (0, 3)).unwrap();
    assert_eq!(Nav { dir: Dir::Down, coord: (1, 1), temp_drop: 6, total_cost: 10, tiles_straight: 1 }, b);
    assert_eq!(None, create(&m, start, Dir::Up, (0, 3)));
    assert_eq!(None, create(&m, start, Dir::Left, (0, 3)));
}

#[test]
fn crucible_turns_within_its_limits() {
    let m = city(&["1111", "1111", "1111", "1111"]);
    let far = Nav { dir: Dir::Right, coord: (1, 1), temp_drop: 0, total_cost: 0, tiles_straight: 3 };
    assert_eq!(None, create(&m, far, Dir::Right, (0, 3)));
    assert_eq!(4, create(&m, far, Dir::Right, (0, 4)).unwrap().tiles_straight);
    assert_eq!(None, create(&m, far, Dir::Down, (4, 10)));
    assert_eq!(1, create(&m, far, Dir::Down, (3, 10)).unwrap().tiles_straight);
    assert!(finished(Nav { coord: (3, 3), ..far }, &m, (3, 10)));
    assert!(!finished(Nav { coord: (3, 3), ..far }, &m, (4, 10)));
    assert!(!finished(Nav { coord: (3, 2), ..far }, &m, (0, 3)));
    assert!(!finished(Nav { coord: (2, 3), ..far }, &m, (0, 3)));
}

#[test]
fn city_has_borders() {
    let m = city(&["12", "34"]);
    assert_eq!(Some((1, 0)), step(Dir::Right, (0, 0), &m));
    assert_eq!(None, step(Dir::Right, (1, 0), &m));
    assert_eq!(None, step(Dir::Left, (0, 0), &m));
    assert_eq!(Some((0, 1)), step(Dir::Down, (0, 0), &m));
    assert_eq!(None, step(Dir::Down, (0, 1), &m));
    assert_eq!(7, parse_tile('7'));
    assert_eq!(0, parse_tile('0'));
    assert_eq!(Dir::Up, clockwise(Dir::Left));
    assert_eq!(Dir::Down, counterclockwise(Dir::Left));
    assert_eq!(Dir::Up, opposite(Dir::Down));
}

const BLOCKS: &str = "2413432311323\n3215453535623\n3255245654254\n3446585845452\n4546657867536\n1438598798454\n4457876987766\n3637877979653\n4654967986887\n4564679986453\n1224686865563\n2546548887735\n4322674655533\n";

const DETOUR: &str = "111111111111\n999999999991\n999999999991\n999999999991\n999999999991\n";

#[test]
fn cities_are_read() {
    let m = parse("241\n321\n");
    assert_eq!((3, 2), m.size);
    assert_eq!(vec![vec![2, 4, 1], vec![3, 2, 1]], m.tiles);
    assert_eq!(4, m.index((1, 0)));
    assert_eq!(3, m.index((0, 1)));
}

#[test]
fn states_are_ordered_by_their_estimate() {
    let a = Nav { dir: Dir::Up, coord: (9, 9), temp_drop: 9, total_cost: 1, tiles_straight: 9 };
    let b = Nav { dir: Dir::Left, coord: (0, 0), temp_drop: 0, total_cost: 2, tiles_straight: 0 };
    assert!(precedes(a, b));
    assert!(!precedes(b, a));
    assert!(!precedes(a, a));
    assert!(same_nav(a, a));
    assert!(!same_nav(a, b));
    assert!(precedes(Nav { dir: Dir::Right, ..a }, Nav { dir: Dir::Down, ..a }));
    assert!(precedes(Nav { dir: Dir::Left, ..a }, Nav { dir: Dir::Right, ..a }));
    assert!(precedes(Nav { dir: Dir::Down, ..a }, a));
    assert!(precedes(Nav { coord: (8, 10), ..a }, a));
    assert!(precedes(Nav { coord: (9, 8), ..a }, a));
    assert!(precedes(Nav { tiles_straight: 8, ..a }, a));
    assert!(precedes(Nav { temp_drop: 8, ..a }, a));
    assert_eq!(a < b, precedes(a, b));
    assert_eq!(Nav { coord: (8, 10), ..a } < a, precedes(Nav { coord: (8, 10), ..a }, a));
}

#[test]
fn crucible_loses_least_heat() {
    assert_eq!(102, solve(BLOCKS, (0, 3)));
}

#[test]
fn ultra_crucible_loses_least_heat() {
    assert_eq!(94, solve(BLOCKS, (4, 10)));
    assert_eq!(71, solve(DETOUR, (4, 10)));
}

#[test]
fn a_city_of_one_block() {
    assert_eq!(0, solve("7\n", (0, 3)));
    assert_eq!(1, solve("71\n", (0, 3)));
}
