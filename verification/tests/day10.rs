use advent::day10::{
    clockwise, count_touched, counterclockwise, create_loop, fill, is_start, opposite, other,
    paint, parse, parse_tile, part1, part2, proceed, step, Dir, Field, Sketch, Tile, Walker,
};

fn field(rows: &[&str], start: (usize, usize)) -> Sketch {
    Sketch {
        start,
        tiles: rows.iter().map(|r| r.chars().map(parse_tile).collect()).collect(),
    }
}

#[test]
fn directions_turn() {
    for d in [Dir::Left, Dir::Right, Dir::Up, Dir::Down] {
        assert_eq!(d, opposite(opposite(d)));
        assert_eq!(d, clockwise(counterclockwise(d)));
        assert_eq!(opposite(d), clockwise(clockwise(d)));
    }
    assert_eq!(Dir::Up, clockwise(Dir::Left));
    assert_eq!(Dir::Down, counterclockwise(Dir::Left));
    assert_eq!(Dir::Right, opposite(Dir::Left));
}

#[test]
fn pipes_have_two_ends() {
    assert_eq!(Tile::Pipe(Dir::Up, Dir::Right), parse_tile('L'));
    assert_eq!(Tile::Pipe(Dir::Down, Dir::Left), parse_tile('7'));
    assert_eq!(Some(Dir::Right), other(parse_tile('L'), Dir::Up));
    assert_eq!(Some(Dir::Up), other(parse_tile('L'), Dir::Right));
    assert_eq!(None, other(parse_tile('L'), Dir::Left));
    assert_eq!(None, other(parse_tile('.'), Dir::Left));
    assert_eq!(None, other(parse_tile('S'), Dir::Left));
    assert!(is_start(parse_tile('S')));
    assert!(!is_start(parse_tile('|')));
}

#[test]
fn steps_move_one_tile() {
    assert_eq!((0, 1), step(Dir::Left, (1, 1)));
    assert_eq!((2, 1), step(Dir::Right, (1, 1)));
    assert_eq!((1, 2), step(Dir::Down, (1, 1)));
    assert_eq!((1, 0), step(Dir::Up, (1, 1)));
}

#[test]
fn walker_follows_the_loop() {
    let m = field(&[".....", ".S-7.", ".|.|.", ".L-J.", "....."], (1, 1));
    let mut w = Walker { dir: Dir::Right, coord: (1, 1) };
    let mut count = 1;
    while let Some(next) = proceed(&m, w) {
        w = next;
        count += 1;
    }
    assert_eq!(8, count);
    assert_eq!(Walker { dir: Dir::Up, coord: (1, 2) }, w);
    assert_eq!(
        Some(Walker { dir: Dir::Down, coord: (3, 1) }),
        proceed(&m, Walker { dir: Dir::Right, coord: (2, 1) })
    );
}

const SQUARE: &str = "..F7.\n.FJ|.\nSJ.L7\n|F--J\nLJ...\n";

const NESTED: &str = "...........\n.S-------7.\n.|F-----7|.\n.||.....||.\n.||.....||.\n.|L-7.F-J|.\n.|..|.|..|.\n.L--J.L--J.\n...........\n";

const LARGER: &str = ".F----7F7F7F7F-7....\n.|F--7||||||||FJ....\n.||.FJ||||||||L7....\nFJL7L7LJLJ||LJ.L-7..\nL--J.L7...LJS7F-7L7.\n....F-J..F7FJ|L7L7L7\n....L7.F7||L7|.L7L7|\n.....|FJLJ|FJ|F7|.LJ\n....FJL-7.||.||||...\n....L---J.LJ.LJLJ...\n";

#[test]
fn sketches_are_read() {
    let m = parse(SQUARE);
    assert_eq!((0, 2), m.start);
    assert_eq!(5, m.tiles.len());
    assert_eq!(Tile::Pipe(Dir::Down, Dir::Right), m.index((2, 0)));
    assert_eq!(Tile::Starting, m.index((0, 2)));
    assert_eq!(Tile::Ground, m.index((4, 4)));
    assert_eq!((0, 0), parse("..\n..\n").start);
    assert_eq!((1, 0), parse(".S\nS.\n").start);
    assert_eq!((0, 1), parse("..\nSS\n").start);
}

#[test]
fn the_loop_is_walked_once() {
    let m = parse(SQUARE);
    let walkers = create_loop(&m, Dir::Down);
    assert_eq!(16, walkers.len());
    assert_eq!(Walker { coord: (0, 2), dir: Dir::Down }, walkers[0]);
    assert_eq!(Walker { coord: (0, 3), dir: Dir::Down }, walkers[1]);
    assert_eq!(Walker { coord: (0, 4), dir: Dir::Right }, walkers[2]);
    assert_eq!(Walker { coord: (1, 2), dir: Dir::Left }, walkers[15]);
    assert_eq!(8, part1(&m, Dir::Down));
    assert_eq!(8, part1(&m, Dir::Right));
}

#[test]
fn untouched_places_are_flooded() {
    let u = Field::Untouched;
    let p = Field::Path;
    let t = Field::Touched;
    let mut f = vec![vec![p, p, p, p, p], vec![p, u, u, p, u], vec![p, u, p, u, p], vec![p, p, p, p, p]];
    fill(&mut f, (1, 1));
    assert_eq!(vec![vec![p, p, p, p, p], vec![p, t, t, p, u], vec![p, t, p, u, p], vec![p, p, p, p, p]], f);
    assert_eq!(3, count_touched(&f));
    fill(&mut f, (1, 1));
    fill(&mut f, (0, 0));
    assert_eq!(3, count_touched(&f));
}

#[test]
fn places_within_the_loop() {
    assert_eq!(4, part2(&parse(NESTED), Dir::Down));
    assert_eq!(1, part2(&parse(SQUARE), Dir::Down));
}

#[test]
fn places_within_the_larger_loop() {
    assert_eq!(8, part2(&parse(LARGER), Dir::Right));
}



#[test]
fn the_loop_is_entered_in_the_field() {
    let f = paint(&parse("S7\nLJ\n"), Dir::Down);
    assert_eq!(vec![vec![Field::Path, Field::Path], vec![Field::Path, Field::Path]], f);
    let f = paint(&parse("S-7\n|.|\nL-J\n"), Dir::Down);
    assert_eq!(Field::Touched, f[1][1]);
    assert_eq!(1, count_touched(&f));
}
