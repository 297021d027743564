use advent::day01::{index, select, End};
use advent::day01_chars::{
    char_to_int, dgts_to_int, digits_and_strings, edge_digits, edge_digits2, is_digit, part1,
    part2,
};

#[test]
fn is_digit_test() {
    assert!(is_digit(&'0'));
    assert!(is_digit(&'9'));
    assert!(is_digit(&'3'));
    assert!(is_digit(&'4'));
    assert!(!is_digit(&'a'));
    assert!(!is_digit(&':'));
    assert!(!is_digit(&'/'));
}

#[test]
fn firstdgt_test() {
    assert_eq!(('1', '1'), edge_digits("1"));
    assert_eq!(('1', '1'), edge_digits("meow1"));
    assert_eq!(('1', '1'), edge_digits("1meow"));
    assert_eq!(('1', '1'), edge_digits("1meow1"));
    assert_eq!(('2', '3'), edge_digits("23"));
    assert_eq!(('2', '3'), edge_digits("meow2meow3meow"));
}

#[test]
fn main_to_int_test() {
    assert_eq!(3, char_to_int('3'));
    assert_eq!(33, dgts_to_int(('3', '3')));
    assert_eq!(30, dgts_to_int(('3', '0')));
}

#[test]
fn main_index_test() {
    assert_eq!(Some(('3', 0)), index(End::Left, "meow", ('3', "me")));
    assert_eq!(Some(('3', 2)), index(End::Left, "bemeow", ('3', "me")));
    assert_eq!(None, index(End::Left, "bemeow", ('3', "niema")));
    assert_eq!(Some(('3', 0)), index(End::Right, "bemeow", ('3', "ow")));
    assert_eq!(Some(('3', 1)), index(End::Right, "bemeow", ('3', "eo")));
}

#[test]
fn main_select_test() {
    assert_eq!('3', select(&digits_and_strings(), "3", End::Right));
    assert_eq!('1', select(&digits_and_strings(), "3meow1", End::Right));
    assert_eq!('3', select(&digits_and_strings(), "3meow1", End::Left));
    assert_eq!('1', select(&digits_and_strings(), "onexxxxxtwo", End::Left));
    assert_eq!('2', select(&digits_and_strings(), "onexxxxxtwo", End::Right));
}

#[test]
fn spelled_digits_count_at_both_ends() {
    assert_eq!(('2', '9'), edge_digits2(&digits_and_strings(), "two1nine"));
    assert_eq!(('7', '6'), edge_digits2(&digits_and_strings(), "7pqrstsixteen"));
}

#[test]
fn main_parta_test() {
    assert_eq!(142, part1("1abc2\npqr3stu8vwx\na1b2c3d4e5f\ntreb7uchet\n"))
}

#[test]
fn main_partb_test() {
    assert_eq!(
        281,
        part2(
            &digits_and_strings(),
            "two1nine\neightwothree\nabcone2threexyz\nxtwone3four\n4nineeightseven2\nzoneight234\n7pqrstsixteen\n"
        )
    )
}
