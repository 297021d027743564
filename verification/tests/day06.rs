use advent::day06::{find_bound, get_range, parse, parse2, read_race, solve, solve2};

#[test]
fn range_test() {
    assert_eq!((2, 5), get_range((7, 9)));
    assert_eq!((4, 11), get_range((15, 40)));
    assert_eq!((11, 19), get_range((30, 200)));

    assert_eq!((14, 71516), get_range((71530, 940200)));

    assert_eq!((8, 37), get_range((45, 295)));
    assert_eq!((24, 74), get_range((98, 1734)));
    assert_eq!((21, 62), get_range((83, 1278)));
    assert_eq!((26, 47), get_range((73, 1210)));

    assert_eq!((7711543, 38276830), get_range((45988373, 295173412781210)));
}

const RACES: &str = "Time:      7  15   30\nDistance:  9  40  200\n";

#[test]
fn races_of_the_example() {
    assert_eq!(vec![(7, 9), (15, 40), (30, 200)], parse(RACES));
    assert_eq!((71530, 940200), parse2(RACES));
    assert_eq!(288, solve(RACES));
    assert_eq!(71503, solve2(RACES));
}

#[test]
fn bounds_are_the_first_and_the_last_win() {
    assert_eq!(2, find_bound(0, 7, 9, 1));
    assert_eq!(5, find_bound(7, 7, 9, -1));
    assert_eq!(1, find_bound(0, 2, 0, 1));
    assert_eq!(1, find_bound(2, 2, 0, -1));
    assert_eq!((1, 2), get_range((3, 1)));
    assert_eq!((1, 2147483646), get_range((2147483647, 0)));
}

#[test]
fn a_race_is_read_only_from_two_lines_of_digits() {
    assert_eq!(Some((12, 345)), read_race("a 1 b 2\n3 4 5\n"));
    assert_eq!(None, read_race("1\n"));
    assert_eq!(None, read_race("1\n2\n3\n"));
    assert_eq!(None, read_race("1\nx\n"));
    assert_eq!(None, read_race("1\n99999999999999999999\n"));
    assert_eq!(vec![(1, 3)], parse("1 2\n3\n"));
}
