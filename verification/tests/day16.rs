use advent::day16::{
    axis, clockwise, counterclockwise, distort, opposite, parse_tile, proceed, step, Axis, Dir,
    Grid, Photon,
};

#[test]
fn beam_reflection_test() {
    assert_eq!(vec![Dir::Left], distort(Dir::Left, parse_tile('.')));
    assert_eq!(vec![Dir::Up], distort(Dir::Left, parse_tile('\\')));
    assert_eq!(vec![Dir::Down], distort(Dir::Left, parse_tile('/')));

    assert_eq!(vec![Dir::Down], distort(Dir::Right, parse_tile('\\')));
    assert_eq!(vec![Dir::Up], distort(Dir::Right, parse_tile('/')));

    assert_eq!(vec![Dir::Left], distort(Dir::Up, parse_tile('\\')));
    assert_eq!(vec![Dir::Right], distort(Dir::Up, parse_tile('/')));

    assert_eq!(vec![Dir::Right, Dir::Left], distort(Dir::Up, parse_tile('-')));
    assert_eq!(vec![Dir::Left, Dir::Right], distort(Dir::Down, parse_tile('-')));

    assert_eq!(vec![Dir::Up], distort(Dir::Up, parse_tile('|')));
    assert_eq!(vec![Dir::Down], distort(Dir::Down, parse_tile('|')));

    assert_eq!(vec![Dir::Up, Dir::Down], distort(Dir::Left, parse_tile('|')));
    assert_eq!(vec![Dir::Down, Dir::Up], distort(Dir::Right, parse_tile('|')));

    assert_eq!(vec![Dir::Left], distort(Dir::Left, parse_tile('-')));
    assert_eq!(vec![Dir::Right], distort(Dir::Right, parse_tile('-')));
}

#[test]
fn beam_directions_turn() {
    assert_eq!(Dir::Up, clockwise(Dir::Left));
    assert_eq!(Dir::Right, opposite(Dir::Left));
    assert_eq!(Dir::Down, counterclockwise(Dir::Left));
    assert_eq!(Dir::Left, counterclockwise(Dir::Up));
    assert_eq!(Axis::Vertical, axis(Dir::Up));
    assert_eq!(Axis::Vertical, axis(Dir::Down));
    assert_eq!(Axis::Horizontal, axis(Dir::Left));
}

#[test]
fn light_goes_on_within_the_grid() {
    let rows = [".|.", "\\-/"];
    let m = Grid {
        tiles: rows.iter().map(|r| r.chars().map(parse_tile).collect()).collect(),
        size: (3, 2),
    };
    assert_eq!(Some((1, 0)), step(Dir::Right, (0, 0), &m));
    assert_eq!(None, step(Dir::Right, (2, 0), &m));
    assert_eq!(None, step(Dir::Down, (2, 1), &m));
    assert_eq!(None, step(Dir::Up, (2, 0), &m));
    assert_eq!(
        vec![Photon { dir: Dir::Down, coord: (1, 1) }],
        proceed(&m, Photon { dir: Dir::Right, coord: (1, 0) })
    );
    assert_eq!(
        vec![Photon { dir: Dir::Right, coord: (1, 0) }],
        proceed(&m, Photon { dir: Dir::Right, coord: (0, 0) })
    );
    assert_eq!(
        vec![Photon { dir: Dir::Left, coord: (0, 1) }, Photon { dir: Dir::Right, coord: (2, 1) }],
        proceed(&m, Photon { dir: Dir::Down, coord: (1, 1) })
    );
    assert_eq!(
        vec![Photon { dir: Dir::Up, coord: (0, 0) }],
        proceed(&m, Photon { dir: Dir::Left, coord: (0, 1) })
    );
    assert_eq!(Vec::<Photon>::new(), proceed(&m, Photon { dir: Dir::Left, coord: (0, 0) }));
    assert_eq!(
        vec![Photon { dir: Dir::Up, coord: (2, 0) }],
        proceed(&m, Photon { dir: Dir::Right, coord: (2, 1) })
    );
}

const CONTRAPTION: &str = ".|...\\....
|.-.\\.....
.....|-...
........|.
..........
.........\\
..../.\\\\..
.-.-/..|..
.|....-|.\\
..//.|....
";

#[test]
fn beam_through_the_example() {
    assert_eq!(46, advent::day16::part1(CONTRAPTION));
    let m = advent::day16::parse(CONTRAPTION);
    assert_eq!((10, 10), m.size);
    let lit = advent::day16::run(&m, Photon { dir: Dir::Right, coord: (0, 0) });
    assert!(lit.contains(&Photon { dir: Dir::Down, coord: (1, 7) }));
    assert!(!lit.contains(&Photon { dir: Dir::Left, coord: (0, 0) }));
    let mut sorted = lit.clone();
    sorted.sort_by_key(|p| (p.coord, p.dir as usize));
    sorted.dedup();
    assert_eq!(lit.len(), sorted.len());
    assert_eq!(1, advent::day16::part1(".\n"));
    assert_eq!(6, advent::day16::part1("..\\\n/./\n"));
}
