use advent::day23::contract::{merge, merge2};
use advent::day23::grid::{
    all_around, parse, step, traversible_tile, Dir, ParseError, Rule, Tile,
};
use advent::day23::nodes::{get_nodes, insert, remove, Edge, GraphError, Nodes};
use advent::day23::search::{longest_path, part1, reachable, ways_on};
use advent::day23::{solve, Failure};

const EXAMPLE: &str = "\
#.#####################
#.......#########...###
#######.#########.#.###
###.....#.>.>.###.#.###
###v#####.#v#.###.#.###
###.>...#.#.#.....#...#
###v###.#.#.#########.#
###...#.#.#.......#...#
#####.#.#.#######.#.###
#.....#.#.#.......#...#
#.#####.#.#.#########v#
#.#...#...#...###...>.#
#.#.#v#######v###.###v#
#...#.>.#...>.>.#.###.#
#####v#.#.###v#.#.###.#
#.....#...#...#.#.#...#
#.#########.###.#.#.###
#...###...#...#...#.###
###.###.#.###v#####v###
#...#...#.#.>.>.#.>.###
#.###.###.#.###.#.#v###
#.....###...###...#...#
#####################.#
";

fn edge(start: (usize, usize), end: (usize, usize), dir: Dir, enddir: Dir, length: usize) -> Edge {
    Edge { start, end, enddir, dir, length }
}

#[test]
fn example_with_slopes_enforced() {
    assert_eq!(Ok(Some(94)), solve(EXAMPLE, Rule::Enforced));
}

#[test]
fn example_with_slopes_ignored() {
    assert_eq!(Ok(Some(154)), solve(EXAMPLE, Rule::Ignored));
}

#[test]
fn straight_corridor_contracts_to_one_edge_each_way() {
    let text = "#.#\n#.#\n#.#\n#.#\n#.#\n";
    let m = parse(text, Rule::Enforced).unwrap();
    assert_eq!((1, 0), m.start);
    assert_eq!((1, 4), m.end);
    let n = merge(get_nodes(&m).unwrap());
    assert_eq!(2, n.len());
    assert!(n.contains(edge((1, 0), (1, 4), Dir::Down, Dir::Down, 4)));
    assert!(n.contains(edge((1, 4), (1, 0), Dir::Up, Dir::Up, 4)));
    assert_eq!(Some(4), part1(&m, &n));
}

#[test]
fn corridor_with_a_bend_keeps_its_length() {
    let text = "#.###\n#...#\n###.#\n";
    assert_eq!(Ok(Some(4)), solve(text, Rule::Enforced));
}

#[test]
fn contracting_twice_changes_nothing() {
    let m = parse(EXAMPLE, Rule::Ignored).unwrap();
    let once = merge(get_nodes(&m).unwrap());
    let count = once.len();
    let mut edges = Vec::new();
    for (_, e) in once.starts.iter() {
        edges.push(*e);
    }
    let twice = merge(once);
    assert_eq!(count, twice.len());
    for e in edges {
        assert!(twice.contains(e));
    }
}

#[test]
fn fusing_adds_the_lengths() {
    let mut n = Nodes::new();
    let head = edge((0, 0), (3, 0), Dir::Right, Dir::Right, 3);
    let tail = edge((3, 0), (3, 5), Dir::Down, Dir::Down, 5);
    insert(&mut n, head);
    insert(&mut n, tail);
    merge2(&mut n, head, tail);
    assert_eq!(1, n.len());
    assert!(n.contains(edge((0, 0), (3, 5), Dir::Right, Dir::Down, 8)));
}

#[test]
fn a_chain_of_three_fuses_to_the_sum() {
    let mut n = Nodes::new();
    insert(&mut n, edge((0, 0), (1, 0), Dir::Right, Dir::Right, 1));
    insert(&mut n, edge((1, 0), (2, 0), Dir::Right, Dir::Right, 2));
    insert(&mut n, edge((2, 0), (3, 0), Dir::Right, Dir::Right, 4));
    let n = merge(n);
    assert_eq!(1, n.len());
    assert!(n.contains(edge((0, 0), (3, 0), Dir::Right, Dir::Right, 7)));
}

#[test]
fn a_true_junction_is_not_contracted() {
    let mut n = Nodes::new();
    let a = edge((0, 1), (1, 1), Dir::Right, Dir::Right, 1);
    let b = edge((1, 1), (2, 1), Dir::Right, Dir::Right, 1);
    let c = edge((1, 1), (1, 2), Dir::Down, Dir::Down, 1);
    insert(&mut n, a);
    insert(&mut n, b);
    insert(&mut n, c);
    let n = merge(n);
    assert_eq!(3, n.len());
    assert!(n.contains(a) && n.contains(b) && n.contains(c));
}

#[test]
fn insert_and_remove_are_paired() {
    let mut n = Nodes::new();
    let a = edge((0, 0), (1, 0), Dir::Right, Dir::Right, 1);
    insert(&mut n, a);
    insert(&mut n, a);
    assert_eq!(1, n.starts.len());
    assert_eq!(1, n.ends.len());
    assert_eq!(vec![a], n.edges_from((0, 0)));
    assert_eq!(vec![a], n.edges_into((1, 0)));
    remove(&mut n, a);
    remove(&mut n, a);
    assert_eq!(0, n.starts.len());
    assert_eq!(0, n.ends.len());
}

#[test]
fn search_is_the_same_with_and_without_pruning() {
    for rule in [Rule::Enforced, Rule::Ignored] {
        let m = parse(EXAMPLE, rule).unwrap();
        let n = merge(get_nodes(&m).unwrap());
        assert_eq!(longest_path(&n, m.start, m.end, true), longest_path(&n, m.start, m.end, false));
    }
    let mut n = Nodes::new();
    insert(&mut n, edge((0, 0), (1, 0), Dir::Right, Dir::Right, 2));
    insert(&mut n, edge((0, 0), (0, 1), Dir::Down, Dir::Down, 3));
    insert(&mut n, edge((0, 1), (1, 1), Dir::Right, Dir::Right, 5));
    insert(&mut n, edge((1, 0), (1, 1), Dir::Down, Dir::Down, 1));
    insert(&mut n, edge((0, 1), (5, 5), Dir::Down, Dir::Down, 9));
    assert_eq!(Some(8), longest_path(&n, (0, 0), (1, 1), true));
    assert_eq!(Some(8), longest_path(&n, (0, 0), (1, 1), false));
}

#[test]
fn search_does_not_depend_on_the_order_of_insertion() {
    let edges = [
        edge((0, 0), (1, 0), Dir::Right, Dir::Right, 2),
        edge((0, 0), (0, 1), Dir::Down, Dir::Down, 3),
        edge((0, 1), (1, 1), Dir::Right, Dir::Right, 5),
        edge((1, 0), (1, 1), Dir::Down, Dir::Down, 1),
        edge((1, 0), (0, 1), Dir::Left, Dir::Down, 7),
    ];
    let mut forwards = Nodes::new();
    for e in edges.iter() {
        insert(&mut forwards, *e);
    }
    let mut backwards = Nodes::new();
    for e in edges.iter().rev() {
        insert(&mut backwards, *e);
    }
    assert_eq!(Some(14), longest_path(&forwards, (0, 0), (1, 1), true));
    assert_eq!(Some(14), longest_path(&backwards, (0, 0), (1, 1), true));
    assert_eq!(longest_path(&forwards, (0, 0), (1, 1), true), longest_path(&forwards, (0, 0), (1, 1), true));
}

#[test]
fn entrance_that_is_the_exit_gives_zero() {
    assert_eq!(Ok(Some(0)), solve("#.#\n", Rule::Enforced));
    let n = Nodes::new();
    assert_eq!(Some(0), longest_path(&n, (4, 4), (4, 4), true));
}

#[test]
fn no_path_is_not_found() {
    let mut n = Nodes::new();
    insert(&mut n, edge((0, 0), (1, 0), Dir::Right, Dir::Right, 2));
    insert(&mut n, edge((2, 0), (3, 0), Dir::Right, Dir::Right, 2));
    assert_eq!(None, longest_path(&n, (0, 0), (3, 0), true));
    assert_eq!(None, longest_path(&n, (0, 0), (3, 0), false));
    // the slope lets nobody up: entrance and exit both have a neighbour, but no path leads through
    assert_eq!(Ok(None), solve("#.#\n#.#\n#^#\n#.#\n#.#\n", Rule::Enforced));
    assert_eq!(Ok(Some(4)), solve("#.#\n#.#\n#^#\n#.#\n#.#\n", Rule::Ignored));
}

#[test]
fn isolated_entrance_is_a_graph_failure() {
    assert_eq!(Err(Failure::Graph(GraphError::Isolated)), solve("#.#\n###\n#.#\n", Rule::Enforced));
    let m = parse("#.#\n###\n#.#\n", Rule::Enforced).unwrap();
    assert_eq!(Some(GraphError::Isolated), get_nodes(&m).err());
}

#[test]
fn malformed_grids_are_parse_errors() {
    assert_eq!(Some(ParseError::Tile), parse("#.#\n#x#\n#.#\n", Rule::Enforced).err());
    assert!(parse("#.#\n#x#\n#.#\n", Rule::Ignored).is_ok());
    assert_eq!(Some(ParseError::Ragged), parse("#.#\n#.\n#.#\n", Rule::Enforced).err());
    assert_eq!(Some(ParseError::Entrance), parse("", Rule::Enforced).err());
    assert_eq!(Some(ParseError::Entrance), parse("###\n#.#\n#.#\n", Rule::Enforced).err());
    assert_eq!(Some(ParseError::Entrance), parse("..#\n#.#\n#.#\n", Rule::Enforced).err());
    assert_eq!(Some(ParseError::Exit), parse("#.#\n#.#\n###\n", Rule::Enforced).err());
    assert_eq!(Some(ParseError::Exit), parse("#.#\n#.#\n#..\n", Rule::Enforced).err());
    assert_eq!(Err(Failure::Parse(ParseError::Ragged)), solve("#.#\n#.\n", Rule::Ignored));
}

#[test]
fn parse_reads_tiles_by_rule() {
    let m = parse("#.#\n#v#\n#.#\n", Rule::Enforced).unwrap();
    assert_eq!((3, 3), m.size);
    assert_eq!(vec![Tile::Forest, Tile::Slope(Dir::Down), Tile::Forest], m.tiles[1]);
    let m = parse("#.#\r\n#v#\r\n#.#", Rule::Ignored).unwrap();
    assert_eq!(vec![Tile::Forest, Tile::Path, Tile::Forest], m.tiles[1]);
    assert_eq!((1, 2), m.end);
}

#[test]
fn step_stays_inside_the_grid() {
    let m = parse("#.#\n#.#\n#.#\n", Rule::Enforced).unwrap();
    assert_eq!(None, step(Dir::Up, (1, 0), &m));
    assert_eq!(Some((1, 1)), step(Dir::Down, (1, 0), &m));
    assert_eq!(Some((0, 0)), step(Dir::Left, (1, 0), &m));
    assert_eq!(None, step(Dir::Left, (0, 0), &m));
    assert_eq!(Some((2, 2)), step(Dir::Right, (1, 2), &m));
    assert_eq!(None, step(Dir::Right, (2, 2), &m));
    assert_eq!(None, step(Dir::Down, (2, 2), &m));
}

#[test]
fn slopes_are_one_way() {
    assert!(traversible_tile(Tile::Path, Dir::Up));
    assert!(!traversible_tile(Tile::Forest, Dir::Up));
    assert!(traversible_tile(Tile::Slope(Dir::Down), Dir::Down));
    assert!(!traversible_tile(Tile::Slope(Dir::Down), Dir::Up));
    assert!(!traversible_tile(Tile::Slope(Dir::Down), Dir::Left));
}

#[test]
fn one_way_corridor_has_one_edge() {
    let m = parse("#.#\n#v#\n#.#\n", Rule::Enforced).unwrap();
    let n = get_nodes(&m).unwrap();
    assert_eq!(2, n.len());
    assert!(n.contains(edge((1, 0), (1, 1), Dir::Down, Dir::Down, 1)));
    assert!(n.contains(edge((1, 1), (1, 2), Dir::Down, Dir::Down, 1)));
    let n = merge(n);
    assert_eq!(1, n.len());
    assert!(n.contains(edge((1, 0), (1, 2), Dir::Down, Dir::Down, 2)));
    let m = parse("#.#\n#v#\n#.#\n", Rule::Ignored).unwrap();
    assert_eq!(4, get_nodes(&m).unwrap().len());
}

#[test]
fn scanners_stand_all_around() {
    let m = parse("#.#\n#.#\n", Rule::Enforced).unwrap();
    let s = all_around(&m);
    assert_eq!(10, s.len());
    assert_eq!(Dir::Left, s[0].dir);
    assert_eq!((2, 0), s[0].coord);
    assert_eq!(Dir::Right, s[2].dir);
    assert_eq!((0, 0), s[2].coord);
    assert_eq!(Dir::Up, s[4].dir);
    assert_eq!((0, 1), s[4].coord);
    assert_eq!(Dir::Down, s[9].dir);
    assert_eq!((2, 0), s[9].coord);
}

#[test]
fn reachable_respects_forbidden_coordinates() {
    let mut n = Nodes::new();
    insert(&mut n, edge((0, 0), (1, 0), Dir::Right, Dir::Right, 1));
    insert(&mut n, edge((1, 0), (2, 0), Dir::Right, Dir::Right, 1));
    assert!(reachable(&n, (2, 0), &vec![(0, 0)], (0, 0)));
    assert!(!reachable(&n, (2, 0), &vec![(0, 0), (1, 0)], (0, 0)));
    assert!(!reachable(&n, (0, 0), &vec![], (2, 0)));
    assert!(reachable(&n, (2, 0), &vec![], (2, 0)));
}

#[test]
fn ways_on_are_ordered_by_length() {
    let mut n = Nodes::new();
    insert(&mut n, edge((1, 1), (5, 1), Dir::Right, Dir::Right, 7));
    insert(&mut n, edge((1, 1), (1, 5), Dir::Down, Dir::Down, 3));
    insert(&mut n, edge((1, 1), (0, 1), Dir::Left, Dir::Left, 5));
    insert(&mut n, edge((1, 1), (1, 0), Dir::Up, Dir::Up, 3));
    insert(&mut n, edge((5, 1), (1, 1), Dir::Left, Dir::Left, 1));
    let ways = ways_on(&n, (1, 1));
    let lengths: Vec<usize> = ways.iter().map(|e| e.length).collect();
    assert_eq!(vec![3, 3, 5, 7], lengths);
    assert_eq!((1, 5), ways[0].end);
    assert_eq!((1, 0), ways[1].end);
    assert_eq!(1, ways_on(&n, (5, 1)).len());
    assert_eq!(0, ways_on(&n, (9, 9)).len());
}
