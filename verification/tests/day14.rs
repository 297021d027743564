use advent::day14::{
    calc_load, copy_of, count_stones, down, flip, left, parse, part1, part2, reverse, right,
    same_grid, shove_line_right, shr, speen, spin, up, Tile,
};

const EXAMPLE: &str = "\
O....#....
O.OO#....#
.....##...
OO.#O....O
.O.....O#.
O.#..O.#.#
..O..#O..O
.......O..
#....###..
#OO..#....
";

const NORTH: &str = "\
OOOO.#.O..
OO..#....#
OO..O##..O
O..#.OO...
........#.
..#....#.#
..O..#.O.O
..O.......
#....###..
#....#....
";

const ONE_CYCLE: &str = "\
.....#....
....#...O#
...OO##...
.OO#......
.....OOO#.
.O#...O#.#
....O#....
......OOOO
#...O###..
#..OO#....
";

const TWO_CYCLES: &str = "\
.....#....
....#...O#
.....##...
..O#......
.....OOO#.
.O#...O#.#
....O#...O
.......OOO
#..OO###..
#.OOO#...O
";

#[test]
fn shove_right_test() {
    let mut a = vec![Tile::Round, Tile::Empty];
    let b = vec![Tile::Empty, Tile::Round];
    shove_line_right(&mut a);
    assert_eq!(a, b);

    let mut a = vec![Tile::Round, Tile::Round, Tile::Empty, Tile::Empty];
    let b = vec![Tile::Empty, Tile::Empty, Tile::Round, Tile::Round];
    shove_line_right(&mut a);
    assert_eq!(a, b);

    let mut a = vec![Tile::Round, Tile::Empty, Tile::Square, Tile::Empty];
    let b = vec![Tile::Empty, Tile::Round, Tile::Square, Tile::Empty];
    shove_line_right(&mut a);
    assert_eq!(a, b);
}

#[test]
fn shove_north_test() {
    assert_eq!(parse(NORTH), up(parse(EXAMPLE)));
    assert_eq!(parse(ONE_CYCLE), spin(parse(EXAMPLE)));
    assert_eq!(parse(TWO_CYCLES), spin(spin(parse(EXAMPLE))));
}

#[test]
fn cycles_repeat_the_spin() {
    assert_eq!(parse(TWO_CYCLES), speen(parse(EXAMPLE), 2));
    assert_eq!(parse(EXAMPLE), speen(parse(EXAMPLE), 0));
}

#[test]
fn load_of_the_example() {
    assert_eq!(136, part1(EXAMPLE));
    assert_eq!(136, calc_load(parse(NORTH)));
    assert_eq!(0, calc_load(vec![]));
}

#[test]
fn rocks_roll_in_each_direction() {
    let m = parse("O.#\n.O.\n");
    assert_eq!(parse(".O#\n..O\n"), right(parse("O.#\n.O.\n")));
    assert_eq!(parse("O.#\nO..\n"), left(parse("O.#\n.O.\n")));
    assert_eq!(parse("OO#\n...\n"), up(parse("O.#\n.O.\n")));
    assert_eq!(parse("..#\nOO.\n"), down(parse("O.#\n.O.\n")));
    assert_eq!(parse(".O.\nO.#\n"), reverse(parse("O.#\n.O.\n")));
    assert_eq!(parse("#.O\n.O.\n"), flip(parse("O.#\n.O.\n")));
    let mut a = parse("O.#\n.O.\n");
    shr(&mut a);
    assert_eq!(parse(".O#\n..O\n"), a);
    assert_eq!(1, count_stones(&m[0]));
}

#[test]
fn rocks_pile_up_before_a_square_rock() {
    let mut a = parse("OO.O.#O..O#O")[0].clone();
    shove_line_right(&mut a);
    assert_eq!(parse("..OOO#..OO#O")[0], a);
    let mut e: Vec<Tile> = vec![];
    shove_line_right(&mut e);
    assert_eq!(Vec::<Tile>::new(), e);
}

#[test]
fn part2_test() {
    assert_eq!(64, part2(EXAMPLE));
}

#[test]
fn platforms_are_compared_and_copied() {
    let a = parse(EXAMPLE);
    assert!(same_grid(&a, &copy_of(&a)));
    assert!(!same_grid(&a, &parse(NORTH)));
    assert!(!same_grid(&a, &parse("O....#....\n")));
    assert_eq!(a, copy_of(&a));
}
