use advent::day01::{
    dgts_to_int, digits_and_strings, edge_digits, index, just_digits, select, solve, End,
};

#[test]
fn to_int_test() {
    assert_eq!(33, dgts_to_int((3, 3)));
    assert_eq!(30, dgts_to_int((3, 0)));
}

#[test]
fn index_test() {
    assert_eq!(Some((3, 0)), index(End::Left, "meow", (3, "me")));
    assert_eq!(Some((3, 2)), index(End::Left, "bemeow", (3, "me")));
    assert_eq!(None, index(End::Left, "bemeow", (3, "niema")));
    assert_eq!(Some((3, 0)), index(End::Right, "bemeow", (3, "ow")));
    assert_eq!(Some((3, 1)), index(End::Right, "bemeow", (3, "eo")));
}

#[test]
fn select_test() {
    assert_eq!(3, select(&digits_and_strings(), "3", End::Right));
    assert_eq!(1, select(&digits_and_strings(), "3meow1", End::Right));
    assert_eq!(3, select(&digits_and_strings(), "3meow1", End::Left));
    assert_eq!(1, select(&digits_and_strings(), "onexxxxxtwo", End::Left));
    assert_eq!(2, select(&digits_and_strings(), "onexxxxxtwo", End::Right));
    assert_eq!(6, select(&just_digits(), "onex56xxtwo", End::Right));
    assert_eq!(5, select(&just_digits(), "onex56xxtwo", End::Left));
}

#[test]
fn index_counts_from_the_last_occurrence() {
    assert_eq!(Some((7, 1)), index(End::Right, "abcabcd", (7, "abc")));
    assert_eq!(Some((7, 0)), index(End::Left, "abcabcd", (7, "abc")));
    assert_eq!(Some((7, 0)), index(End::Left, "abc", (7, "")));
    assert_eq!(Some((7, 0)), index(End::Right, "abc", (7, "")));
    assert_eq!(None, index(End::Right, "ab", (7, "abc")));
}

#[test]
fn select_prefers_the_first_of_two_equally_near() {
    let matchers = [(1, "ab"), (2, "a"), (3, "abc")];
    assert_eq!(1, select(&matchers, "xabc", End::Left));
    assert_eq!(3, select(&matchers, "xabc", End::Right));
}

#[test]
fn edge_digits_test() {
    assert_eq!((2, 9), edge_digits(&digits_and_strings(), "two1nine"));
    assert_eq!((8, 3), edge_digits(&digits_and_strings(), "eightwothree"));
    assert_eq!((1, 1), edge_digits(&just_digits(), "two1nine"));
    assert_eq!((7, 7), edge_digits(&just_digits(), "treb7uchet"));
}

#[test]
fn parta_test() {
    assert_eq!(142, solve(&just_digits(), "1abc2\npqr3stu8vwx\na1b2c3d4e5f\ntreb7uchet\n"))
}

#[test]
fn partb_test() {
    assert_eq!(
        281,
        solve(
            &digits_and_strings(),
            "two1nine\neightwothree\nabcone2threexyz\nxtwone3four\n4nineeightseven2\nzoneight234\n7pqrstsixteen\n"
        )
    )
}
