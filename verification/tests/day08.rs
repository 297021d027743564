use advent::day08::{
    count_period, count_steps, encode_node, ending_node, follow, lookup, merge_all, merge_cycles,
    merge_with, parse, parse_dir, parse_line, part1, part2, start_node, Cycle, Dir,
};

#[test]
fn parse_line_test() {
    let a = (encode_node("AAA"), (encode_node("BBB"), encode_node("CCC")));
    let b = parse_line("AAA = (BBB, CCC)");
    assert_eq!(a, b);
    assert_ne!(a, parse_line("AAB = (BBB, CCC)"));
    assert_ne!(a, parse_line("ABA = (BBB, CCC)"));
    assert_ne!(a, parse_line("BAA = (BBB, CCC)"));
}

#[test]
fn merging_test() {
    let a = Cycle { start: 0, period: 6 };
    let b = Cycle { start: 0, period: 4 };
    assert_eq!(Some(Cycle { start: 0, period: 12 }), merge_cycles(a, b));
    let a = Cycle { start: 5, period: 6 };
    let b = Cycle { start: 3, period: 4 };
    assert_eq!(Some(Cycle { start: 11, period: 12 }), merge_cycles(a, b));

    let a = Cycle { start: 12, period: 13 };
    let b = Cycle { start: 16, period: 17 };
    assert_eq!(Some(Cycle { start: 220, period: 221 }), merge_cycles(a, b));
}

#[test]
fn cycles_that_never_meet_do_not_merge() {
    let a = Cycle { start: 1, period: 6 };
    let b = Cycle { start: 0, period: 4 };
    assert_eq!(None, merge_cycles(a, b));
    assert_eq!(None, merge_with(a, b, 12));
    assert_eq!(Some(Cycle { start: 3, period: 30 }), merge_with(Cycle { start: 3, period: 5 }, Cycle { start: 3, period: 6 }, 30));
}

#[test]
fn nodes_and_turns() {
    assert_eq!(('Q', 'R', 'S'), encode_node("QRS"));
    assert_eq!(Dir::Left, parse_dir('L'));
    assert_eq!(Dir::Right, parse_dir('R'));
    let pair = (encode_node("BBB"), encode_node("CCC"));
    assert_eq!(encode_node("BBB"), follow(Dir::Left, pair));
    assert_eq!(encode_node("CCC"), follow(Dir::Right, pair));
    assert!(ending_node(encode_node("11Z")));
    assert!(!ending_node(encode_node("Z1A")));
    assert!(start_node(&encode_node("11A")));
    assert_eq!((('1', '1', 'A'), (('1', '1', 'B'), ('X', 'X', 'X'))), parse_line("11A = (11B, XXX)"));
}

#[test]
fn walks_of_the_examples() {
    let first = "RL\n\nAAA = (BBB, CCC)\nBBB = (DDD, EEE)\nCCC = (ZZZ, GGG)\nDDD = (DDD, DDD)\nEEE = (EEE, EEE)\nGGG = (GGG, GGG)\nZZZ = (ZZZ, ZZZ)\n";
    let second = "LLR\n\nAAA = (BBB, BBB)\nBBB = (AAA, ZZZ)\nZZZ = (ZZZ, ZZZ)\n";
    assert_eq!(2, part1(parse(first)));
    assert_eq!(6, part1(parse(second)));
    let data = parse(second);
    assert_eq!(vec![Dir::Left, Dir::Left, Dir::Right], data.directions);
    assert_eq!(Some((encode_node("AAA"), encode_node("ZZZ"))), lookup(&data.nodes, encode_node("BBB")));
    assert_eq!(None, lookup(&data.nodes, encode_node("CCC")));
    assert_eq!(1, count_steps(parse(second), encode_node("AAA"), encode_node("BBB")));
    assert_eq!(2, count_steps(parse(second), encode_node("AAA"), encode_node("AAA")));
    assert_eq!(1, count_steps(parse(second), encode_node("ZZZ"), encode_node("ZZZ")));
}

const GHOSTS: &str = "LR\n\n11A = (11B, XXX)\n11B = (XXX, 11Z)\n11Z = (11B, XXX)\n22A = (22B, XXX)\n22B = (22C, 22C)\n22C = (22Z, 22Z)\n22Z = (22B, 22B)\nXXX = (XXX, XXX)\n";

#[test]
fn walks_fall_into_cycles() {
    assert_eq!(vec![Cycle { start: 1, period: 2 }], count_period(encode_node("11A"), parse(GHOSTS)));
    assert_eq!(
        vec![Cycle { start: 2, period: 6 }, Cycle { start: 5, period: 6 }],
        count_period(encode_node("22A"), parse(GHOSTS))
    );
    assert_eq!(Vec::<Cycle>::new(), count_period(encode_node("QQQ"), parse(GHOSTS)));
}

#[test]
fn cycles_are_merged_from_the_first_on() {
    let a = Cycle { start: 1, period: 2 };
    let b = Cycle { start: 5, period: 6 };
    let c = Cycle { start: 2, period: 6 };
    assert_eq!(Some(Cycle { start: 5, period: 6 }), merge_all(&vec![a, b]));
    assert_eq!(None, merge_all(&vec![a, c]));
    assert_eq!(None, merge_all(&vec![a, c, b]));
    assert_eq!(Some(a), merge_all(&vec![a]));
    assert_eq!(Some(Cycle { start: 11, period: 12 }), merge_all(&vec![a, b, Cycle { start: 3, period: 4 }]));
}

#[test]
fn ghosts_meet_after_six_steps() {
    assert_eq!(6, part2(parse(GHOSTS)));
}
