use advent::day03::{adjectant_to_symbol, calc_gear_ratio, get, is_symbol, read_from_start, seek_to_start, solve};

const SCHEMATIC: &str = "\
467..114..
...*......
..35..633.
......#...
617*......
.....+.58.
..592.....
......755.
...$.*....
.664.598..
";

fn rows(text: &str) -> Vec<Vec<char>> {
    text.lines().map(|l| l.chars().collect()).collect()
}

#[test]
fn part_numbers_of_the_example() {
    assert_eq!(4361, solve(SCHEMATIC, false));
}

#[test]
fn gear_ratios_of_the_example() {
    assert_eq!(467835, solve(SCHEMATIC, true));
}

#[test]
fn numbers_are_found_and_read() {
    let g = rows(SCHEMATIC);
    assert_eq!('4', get(&g, 0, 0));
    assert_eq!('.', get(&g, -1, 0));
    assert_eq!('.', get(&g, 0, -1));
    assert_eq!('.', get(&g, 10, 0));
    assert_eq!('.', get(&g, 0, 10));
    assert_eq!('*', get(&g, 3, 1));
    assert_eq!(Some((0, 0)), seek_to_start(&g, (2, 0)));
    assert_eq!(Some((0, 0)), seek_to_start(&g, (0, 0)));
    assert_eq!(Some((6, 2)), seek_to_start(&g, (8, 2)));
    assert_eq!(None, seek_to_start(&g, (3, 0)));
    assert_eq!(467, read_from_start(&g, (0, 0)));
    assert_eq!(67, read_from_start(&g, (1, 0)));
    assert_eq!(0, read_from_start(&g, (3, 0)));
    assert_eq!(16345, calc_gear_ratio(&g, 3, 1));
    assert_eq!(0, calc_gear_ratio(&g, 3, 4));
    assert_eq!(451490, calc_gear_ratio(&g, 5, 8));
    assert!(adjectant_to_symbol(&g, 2, 0));
    assert!(!adjectant_to_symbol(&g, 0, 0));
    assert!(is_symbol('*'));
    assert!(!is_symbol('.'));
    assert!(!is_symbol('7'));
}

#[test]
fn the_place_in_column_and_row_of_the_same_number_is_not_looked_at() {
    // the digit at column 1 of row 0 has a symbol below it at column 1 of row 1,
    // which is the place that the search leaves out
    assert_eq!(0, solve(".7.\n.#.\n...\n", false));
    assert_eq!(7, solve(".7.\n#..\n...\n", false));
    assert_eq!(7, solve("...\n#7.\n...\n", false));
}

#[test]
fn a_number_at_the_end_of_a_longer_line_runs_on() {
    // the second line is longer than the first, so its number is not ended
    // at the end of the line
    assert_eq!(12, solve("..\n#12\n..\n", false));
    assert_eq!(123, solve("..\n#12\n3.\n", false));
}
