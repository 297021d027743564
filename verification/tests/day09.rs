use advent::day09::{backwards, diff, forwards, make_diffs, parse_line};

#[test]
fn diff_test() {
    assert_eq!(vec![0, 2, 4, 6, 8], diff(vec![3, 3, 5, 9, 15, 23]));
    assert_eq!(vec![2], diff(vec![0, 2]));
}

#[test]
fn forward_test() {
    assert_eq!(1, forwards(vec![1]));
    assert_eq!(3, forwards(vec![1, 2]));
    assert_eq!(35, forwards(vec![5, 10, 20]));
}

#[test]
fn backwards_test() {
    assert_eq!(1, backwards(vec![1]));
    assert_eq!(0, backwards(vec![1, 2]));
    assert_eq!(5, backwards(vec![5, 10, 20]));
}

#[test]
fn table_of_differences_ends_in_zeros() {
    assert_eq!(
        vec![vec![0, 3, 6, 9, 12, 15], vec![3, 3, 3, 3, 3], vec![0, 0, 0, 0]],
        make_diffs(vec![0, 3, 6, 9, 12, 15])
    );
    assert_eq!(vec![Vec::<i64>::new()], make_diffs(vec![]));
    assert_eq!(vec![vec![0, 0]], make_diffs(vec![0, 0]));
    assert_eq!(vec![vec![7], vec![]], make_diffs(vec![7]));
}

#[test]
fn histories_continue_both_ways() {
    assert_eq!(18, forwards(parse_line("0 3 6 9 12 15")));
    assert_eq!(28, forwards(parse_line("1 3 6 10 15 21")));
    assert_eq!(68, forwards(parse_line("10 13 16 21 30 45")));
    assert_eq!(-3, backwards(parse_line("0 3 6 9 12 15")));
    assert_eq!(0, backwards(parse_line("1 3 6 10 15 21")));
    assert_eq!(5, backwards(parse_line("10  13 16 21 30 45")));
    assert_eq!(0, forwards(vec![]));
    assert_eq!(vec![-1, 2], parse_line("-1 x 2"));
}

#[test]
fn histories_of_the_example() {
    let text = "0 3 6 9 12 15\n1 3 6 10 15 21\n10 13 16 21 30 45\n";
    assert_eq!(114, advent::day09::part1(text));
    assert_eq!(2, advent::day09::part2(text));
    assert_eq!(0, advent::day09::part1(""));
}
