use advent::day21::{
    add_child, add_children, diff, mod2, modulo, parse, parse_tile, part1, part2, step, Dir, Mod2,
    Tile,
};

#[test]
fn garden_repeats() {
    assert_eq!(0, modulo(0, 5));
    assert_eq!(4, modulo(4, 5));
    assert_eq!(0, modulo(5, 5));
    assert_eq!(4, modulo(-1, 5));
    assert_eq!(0, modulo(-5, 5));
    assert_eq!(3, modulo(-7, 5));
    assert_eq!(1, modulo(i32::MAX, 2));
    assert_eq!(0, modulo(i32::MIN, 2));
    assert_eq!(0, modulo(i32::MAX, i32::MAX));
    assert_eq!(i32::MAX as usize - 1, modulo(i32::MIN, i32::MAX));
}

#[test]
fn garden_steps() {
    assert_eq!((-1, 0), step(Dir::Left, (0, 0)));
    assert_eq!((1, 0), step(Dir::Right, (0, 0)));
    assert_eq!((0, 1), step(Dir::Down, (0, 0)));
    assert_eq!((0, -1), step(Dir::Up, (0, 0)));
    assert_eq!(Mod2::Even, mod2(0));
    assert_eq!(Mod2::Odd, mod2(7));
    assert_eq!(Tile::Ground, parse_tile('.'));
    assert_eq!(Tile::Ground, parse_tile('S'));
    assert_eq!(Tile::Blocked, parse_tile('#'));
}

const GARDEN: &str = "...........\n.....###.#.\n.###.##..#.\n..#.#...#..\n....#.#....\n.##..S####.\n.##..#...#.\n.......##..\n.##.#.####.\n.##..##.##.\n...........\n";

#[test]
fn gardens_are_read() {
    let g = parse(GARDEN);
    assert_eq!((5, 5), g.start);
    assert_eq!((11, 11), g.size);
    assert_eq!(Tile::Ground, g.index((5, 5)));
    assert_eq!(Tile::Blocked, g.index((5, 1)));
    assert_eq!(Tile::Blocked, g.index((5 + 11, 1 - 11)));
    assert_eq!(Tile::Blocked, g.index((-2, -2)));
    assert_eq!(Tile::Ground, g.index((-1, -1)));
    let g = parse("S.S\n.S.\n");
    assert_eq!((1, 1), g.start);
    let g = parse("..\n..\n");
    assert_eq!((0, 0), g.start);
}

#[test]
fn a_walker_looks_in_one_direction() {
    let g = parse(GARDEN);
    let mut visited = Vec::new();
    let mut queue = Vec::new();
    add_child(&g, 6, ((5, 5), 0), &mut visited, &mut queue, Dir::Left);
    assert_eq!(vec![(((4, 5), Mod2::Odd), 1)], visited);
    assert_eq!(vec![((4, 5), 1)], queue);
    add_child(&g, 6, ((5, 5), 0), &mut visited, &mut queue, Dir::Right);
    assert_eq!(1, visited.len());
    add_child(&g, 6, ((5, 5), 0), &mut visited, &mut queue, Dir::Left);
    assert_eq!(1, queue.len());
    add_child(&g, 6, ((5, 5), 2), &mut visited, &mut queue, Dir::Left);
    assert_eq!(vec![(((4, 5), Mod2::Odd), 3)], visited);
    assert_eq!(vec![((4, 5), 1), ((4, 5), 3)], queue);
    add_child(&g, 6, ((5, 5), 6), &mut visited, &mut queue, Dir::Up);
    assert_eq!(2, queue.len());
}

#[test]
fn a_walker_looks_around() {
    let g = parse(GARDEN);
    let mut visited = Vec::new();
    let mut queue = Vec::new();
    add_children(&g, 6, (5, 5), 0, &mut visited, &mut queue);
    assert_eq!(vec![((4, 5), 1), ((5, 4), 1)], queue);
    assert_eq!(vec![(((4, 5), Mod2::Odd), 1), (((5, 4), Mod2::Odd), 1)], visited);
}

#[test]
fn plots_in_reach() {
    let g = parse(GARDEN);
    assert_eq!(0, part1(&g, 0));
    assert_eq!(2, part1(&g, 1));
    assert_eq!(4, part1(&g, 2));
    assert_eq!(6, part1(&g, 3));
    assert_eq!(16, part1(&g, 6));
    assert_eq!(50, part1(&g, 10));
}

#[test]
fn plots_out_of_reach() {
    let g = parse(GARDEN);
    assert_eq!(49 - 16, diff(&g, 6));
    let plain = parse("S\n");
    assert_eq!(0, diff(&plain, 5));
    assert_eq!(1, diff(&plain, 0));
}

#[test]
fn a_walled_start_reaches_nothing() {
    let g = parse("###\n#S#\n###\n");
    assert_eq!(0, part1(&g, 64));
    let (shown, r) = part2(&g, 64);
    assert_eq!(3, r);
    assert_eq!(vec![3721, 3844, 3969, 4096, 4225, 4356, 4489, 4624, 4761, 4900], shown);
}
