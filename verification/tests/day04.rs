use advent::day04::{
    calc_line_matches, calc_line_points, line_scores, parse_line, parse_subline, solve, solve2, Line,
};

const EXAMPLE: &str = "\
Card 1: 41 48 83 86 17 | 83 86  6 31 17  9 48 53
Card 2: 13 32 20 16 61 | 61 30 68 82 17 32 24 19
Card 3:  1 21 53 59 44 | 69 82 63 72 16 21 14  1
Card 4: 41 92 73 84 69 | 59 84 76 51 58  5 54 83
Card 5: 87 83 26 28 32 | 88 30 70 12 93 22 82 36
Card 6: 31 18 13 56 72 | 74 77 10 23 35 67 36 11
";

#[test]
fn parsing() {
    let expected = Line {
        id: 1,
        left: vec![41, 48, 83, 86, 17],
        right: vec![83, 86, 6, 31, 17, 9, 48, 53],
    };
    let input = "Card 1: 41 48 83 86 17 | 83 86  6 31 17  9 48 53";
    assert_eq!(expected, parse_line(input));
}

#[test]
fn point_calculation() {
    let l1 = Line {
        id: 1,
        left: vec![41, 48, 83, 86, 17],
        right: vec![83, 86, 6, 31, 17, 9, 48, 53],
    };
    let l2 = Line {
        id: 1,
        left: vec![41, 48, 83, 86, 17],
        right: vec![0],
    };
    assert_eq!(4, calc_line_matches(l1));
    assert_eq!(0, calc_line_matches(l2));
    assert_eq!(8, calc_line_points(4));
    assert_eq!(0, calc_line_points(0));
}

#[test]
fn subline_leaves_out_what_is_no_number() {
    assert_eq!(vec![1, 22, 3], parse_subline("  1 x 22\t-4 3 "));
    assert_eq!(Vec::<usize>::new(), parse_subline(""));
    assert_eq!(vec![5], parse_subline("+5"));
}

#[test]
fn points_double_with_each_match() {
    assert_eq!(1, calc_line_points(1));
    assert_eq!(2, calc_line_points(2));
    assert_eq!(512, calc_line_points(10));
    assert_eq!(1 << 31, calc_line_points(32));
}

#[test]
fn matches_count_every_number_held() {
    let l = Line { id: 7, left: vec![1, 2], right: vec![2, 2, 1, 5] };
    assert_eq!(3, calc_line_matches(l));
}

#[test]
fn part1() {
    assert_eq!(13, solve(EXAMPLE));
}

#[test]
fn part2() {
    assert_eq!(30, solve2(EXAMPLE));
}

#[test]
fn scores_of_the_example() {
    assert_eq!(vec![4, 2, 2, 1, 0, 0], line_scores(EXAMPLE));
    assert_eq!(0, solve(""));
    assert_eq!(0, solve2(""));
    assert_eq!(1, solve2("Card 1: 1 | 2\n"));
    assert_eq!(3, solve2("Card 1: 1 | 1\nCard 2: 1 | 2\n"));
}
