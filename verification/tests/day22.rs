use advent::day22::{
    collides, collides_with_any, collisions, dedup, desintegration_impact, fall, inside_grass,
    intersects, make_graph, move_vertically, normalize, parse, parse_brick, parse_coord, part1,
    part2, Brick, Coord,
};

const SNAPSHOT: &str = "\
1,0,1~1,2,1
0,0,2~2,0,2
0,2,3~2,2,3
0,0,4~0,2,4
2,0,5~2,2,5
0,1,6~2,1,6
1,1,8~1,1,9
";

#[test]
fn intersection_test() {
    assert_eq!(true, intersects(1, 1, 1, 1));
    assert_eq!(false, intersects(1, 1, 2, 2));
    assert_eq!(false, intersects(2, 2, 1, 1));
    assert_eq!(true, intersects(1, 5, 2, 3));
    assert_eq!(true, intersects(2, 3, 1, 5));
    assert_eq!(true, intersects(1, 5, 2, 7));
    assert_eq!(true, intersects(2, 7, 1, 5));
    assert_eq!(true, intersects(1, 2, 2, 7));
    assert_eq!(true, intersects(2, 7, 1, 2));
}

#[test]
fn collision_test() {
    assert_eq!(true, collides(parse_brick((0, "1,0,1~1,2,1")), parse_brick((1, "1,0,1~1,2,1"))));
    assert_eq!(false, collides(parse_brick((0, "1,0,1~1,2,1")), parse_brick((0, "1,0,1~1,2,1"))));
    assert_eq!(true, collides(parse_brick((0, "1,2,1~1,3,1")), parse_brick((1, "1,0,1~1,2,1"))));
    assert_eq!(false, collides(parse_brick((0, "1,3,1~1,4,1")), parse_brick((1, "1,0,1~1,2,1"))));
}

#[test]
fn bricks_are_read_with_their_ends_in_order() {
    let b = parse_brick((4, "2,9,-1~0,3,5"));
    assert_eq!(Brick { id: 4, start: Coord { x: 0, y: 3, z: -1 }, end: Coord { x: 2, y: 9, z: 5 } }, b);
    assert_eq!(b, normalize(Brick { id: 4, start: Coord { x: 2, y: 9, z: 5 }, end: Coord { x: 0, y: 3, z: -1 } }));
    assert_eq!(Coord { x: 1, y: -2, z: 30 }, parse_coord("1,-2,30"));
}

#[test]
fn bricks_move_and_meet() {
    let a = parse_brick((0, "1,0,1~1,2,1"));
    let b = parse_brick((1, "0,0,2~2,0,2"));
    let c = parse_brick((2, "0,2,3~2,2,3"));
    let down = move_vertically(b, -1);
    assert_eq!(Brick { id: 1, start: Coord { x: 0, y: 0, z: 1 }, end: Coord { x: 2, y: 0, z: 1 } }, down);
    assert!(collides_with_any(&vec![a, b, c], down));
    assert!(!collides_with_any(&vec![b, c], down));
    assert_eq!(vec![0], collisions(&vec![a, b, c], down));
    assert_eq!(Vec::<usize>::new(), collisions(&vec![a, b, c], move_vertically(c, 5)));
    assert!(!inside_grass(move_vertically(a, -1)));
    assert!(inside_grass(move_vertically(a, -2)));
}

#[test]
fn bricks_of_the_example() {
    let bricks = parse(SNAPSHOT);
    assert_eq!(7, bricks.len());
    assert_eq!(6, bricks[6].id);
    let settled = fall(bricks);
    let tops: Vec<isize> = settled.iter().map(|b| b.end.z).collect();
    assert_eq!(vec![0, 1, 1, 2, 2, 3, 5], tops);
    assert_eq!(settled.clone(), fall(settled.clone()));
    assert_eq!(5, part1(settled.clone()));
    assert_eq!(7, part2(settled.clone()));
    let d = make_graph(settled);
    assert_eq!((0, vec![1, 2], vec![]), d[0]);
    assert_eq!((3, vec![5], vec![1, 2]), d[3]);
    assert_eq!(6, desintegration_impact(0, &d));
    assert_eq!(0, desintegration_impact(1, &d));
    assert_eq!(1, desintegration_impact(5, &d));
    assert_eq!(0, desintegration_impact(6, &d));
}

#[test]
fn repeated_numbers_are_taken_out() {
    assert_eq!(vec![3, 1, 2], dedup(&vec![3, 1, 3, 2, 1]));
    assert_eq!(Vec::<usize>::new(), dedup(&vec![]));
}
