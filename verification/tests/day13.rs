use advent::day13::{above_reflection, check_reflection, find_reflections, parse_field, summarize, transpose, Tile};

#[test]
fn reflection_test() {
    assert_eq!(vec![2], find_reflections(vec![1, 2, 3, 3, 5, 7]));
    assert_eq!(vec![0, 2], find_reflections(vec![2, 2, 3, 3, 5, 7]));
}

#[test]
fn part1_test() {
    assert_eq!(1, above_reflection(&vec![2, 2]));
    assert_eq!(2, above_reflection(&vec![3, 2, 2]));
    assert_eq!(2, above_reflection(&vec![3, 2, 2, 3]));
    assert_eq!(1, above_reflection(&vec![2, 2, 3]));
    assert_eq!(1, above_reflection(&vec![2, 2, 3]));
    assert_eq!(1, above_reflection(&vec![2, 2, 3]));
    assert_eq!(0, above_reflection(&vec![2, 3, 1, 1, 3, 22, 33]));
    assert_eq!(5, above_reflection(&vec![4, 3, 2, 1, 0, 0, 1, 2, 3]));
}

#[test]
fn reflection_must_reach_an_edge() {
    assert!(check_reflection(vec![1, 2, 2, 1], 1));
    assert!(check_reflection(vec![9, 1, 2, 2, 1], 2));
    assert!(!check_reflection(vec![9, 1, 2, 2, 1, 8], 2));
    assert!(!check_reflection(vec![1, 2, 3], 0));
    assert!(check_reflection(vec![1, 2, 3], 2));
    assert!(check_reflection(vec![1, 2, 3], 7));
    assert!(check_reflection(Vec::<i32>::new(), 0));
}

#[test]
fn transpose_turns_columns_into_rows() {
    assert_eq!(vec![vec![1, 4], vec![2, 5], vec![3, 6]], transpose(vec![vec![1, 2, 3], vec![4, 5, 6]]));
    assert_eq!(vec![vec![1, 3]], transpose(vec![vec![1], vec![3, 4]]));
}

#[test]
fn patterns_are_summarized() {
    let first = "#.##..##.\n..#.##.#.\n##......#\n##......#\n..#.##.#.\n..##..##.\n#.#.##.#.\n";
    let second = "#...##..#\n#....#..#\n..##..###\n#####.##.\n#####.##.\n..##..###\n#....#..#\n";
    assert_eq!(5, summarize(parse_field(first)));
    assert_eq!(400, summarize(parse_field(second)));
    assert_eq!(vec![vec![Tile::Rocks, Tile::Ash], vec![Tile::Ash, Tile::Ash]], parse_field("#.\n..\n"));
}

#[test]
fn patterns_of_the_example() {
    let text = "#.##..##.\n..#.##.#.\n##......#\n##......#\n..#.##.#.\n..##..##.\n#.#.##.#.\n\n#...##..#\n#....#..#\n..##..###\n#####.##.\n#####.##.\n..##..###\n#....#..#\n";
    assert_eq!(2, advent::day13::parse(text).len());
    assert_eq!(405, advent::day13::part1(text));
    assert_eq!(vec![vec![1, 3], vec![2, 4]], advent::day13::transposed_of(&vec![vec![1, 2], vec![3, 4]]));
}
