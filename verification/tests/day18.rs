use advent::day18::{
    axis, bars, breakpoints, edge, height, off, on, parse, parse_line, parse_line2, relevant,
    segmentize, shift, solve, step, unshift, Axis, Dir, Instruction, Segment, Side,
};

const PLAN: &str = "\
R 6 (#70c710)
D 5 (#0dc571)
L 2 (#5713f0)
D 2 (#d2c081)
R 2 (#59c680)
D 2 (#411b91)
L 5 (#8ceee2)
U 2 (#caa173)
L 1 (#1b58a2)
U 2 (#caa171)
R 2 (#7807d2)
U 3 (#a77fa3)
L 2 (#015232)
U 2 (#7a21e3)
";

#[test]
fn dig_parsing_test() {
    assert_eq!(Instruction { dir: Dir::Right, length: 6 }, parse_line("R 6 (#70c710)"));
    assert_eq!(
        Instruction {
            dir: Dir::Right,
            length: 461937
        },
        parse_line2("R 6 (#70c710)")
    );
}

#[test]
fn hidden_instructions() {
    assert_eq!(Instruction { dir: Dir::Down, length: 56407 }, parse_line2("D 5 (#0dc571)"));
    assert_eq!(Instruction { dir: Dir::Left, length: 0x8ceee }, parse_line2("L  2\t(#8CEEE2)"));
    assert_eq!(Instruction { dir: Dir::Up, length: 0x7a21e }, parse_line2("L 2 (#7a21e3)"));
    assert_eq!(Instruction { dir: Dir::Up, length: -5 }, parse_line("U -5 x"));
}

#[test]
fn coordinates_along_and_across() {
    assert_eq!(Axis::Vertical, axis(Dir::Up));
    assert_eq!(Axis::Horizontal, axis(Dir::Right));
    assert_eq!(7, on(Axis::Horizontal, (7, 9)));
    assert_eq!(9, on(Axis::Vertical, (7, 9)));
    assert_eq!(9, off(Axis::Horizontal, (7, 9)));
    assert_eq!(7, off(Axis::Vertical, (7, 9)));
    assert_eq!((4, 9), step(Dir::Left, (7, 9), 3));
    assert_eq!((10, 9), step(Dir::Right, (7, 9), 3));
    assert_eq!((7, 12), step(Dir::Down, (7, 9), 3));
    assert_eq!((7, 6), step(Dir::Up, (7, 9), 3));
}

#[test]
fn trenches_from_instructions() {
    let plan = vec![
        Instruction { dir: Dir::Right, length: 6 },
        Instruction { dir: Dir::Down, length: 5 },
        Instruction { dir: Dir::Left, length: 2 },
        Instruction { dir: Dir::Up, length: 5 },
    ];
    let s = segmentize(plan);
    let expected = vec![
        Segment { altitude: 0, axis: Axis::Horizontal, start: 0, end: 6 },
        Segment { altitude: 6, axis: Axis::Vertical, start: 0, end: 5 },
        Segment { altitude: 5, axis: Axis::Horizontal, start: 4, end: 6 },
        Segment { altitude: 4, axis: Axis::Vertical, start: 0, end: 5 },
    ];
    assert_eq!(expected, s);
    assert_eq!(vec![expected[0], expected[2]], bars(&s, Axis::Horizontal));
    assert_eq!(vec![expected[1], expected[3]], bars(&s, Axis::Vertical));
    assert!(relevant(expected[2], 4));
    assert!(relevant(expected[2], 6));
    assert!(!relevant(expected[2], 3));
    assert_eq!(Side::Left, edge(expected[2], 4));
    assert_eq!(Side::Inside, edge(expected[2], 5));
    assert_eq!(Side::Right, edge(expected[2], 6));
    assert_eq!(Side::Outside, edge(expected[2], 7));
    assert_eq!(Side::Left, edge(Segment { altitude: 0, axis: Axis::Vertical, start: 2, end: 2 }, 2));
}

#[test]
fn lagoon_of_the_example() {
    assert_eq!(62, solve(parse(PLAN, false)));
    assert_eq!(952408144115, solve(parse(PLAN, true)));
}

#[test]
fn lagoon_is_swept_line_by_line() {
    let s = segmentize(parse(PLAN, false));
    assert_eq!(vec![0, 1, 2, 4, 6], breakpoints(&s, Axis::Vertical));
    assert_eq!(vec![0, 2, 5, 7, 9], breakpoints(&s, Axis::Horizontal));
    let b = bars(&s, Axis::Horizontal);
    assert_eq!(6, height(&b, 0));
    assert_eq!(8, height(&b, 1));
    assert_eq!(10, height(&b, 2));
    assert_eq!(10, height(&b, 3));
    assert_eq!(10, height(&b, 4));
    assert_eq!(9, height(&b, 5));
    assert_eq!(9, height(&b, 6));
    assert_eq!(0, height(&b, 7));
    assert_eq!(0, height(&vec![], 0));
    assert_eq!(0, shift(isize::MIN));
    assert_eq!(usize::MAX, shift(isize::MAX));
    assert_eq!(-3, unshift(shift(-3)));
    assert_eq!(16, solve(vec![
        Instruction { dir: Dir::Right, length: 3 },
        Instruction { dir: Dir::Up, length: 3 },
        Instruction { dir: Dir::Left, length: 3 },
        Instruction { dir: Dir::Down, length: 3 },
    ]));
}
