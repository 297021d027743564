use advent::day11::count_distances;

#[test]
fn solver_test() {
    assert_eq!(0, count_distances(vec![5], 2));
    assert_eq!(0, count_distances(vec![5, 0], 2));
    assert_eq!(3, count_distances(vec![1, 3], 2));
    assert_eq!(4, count_distances(vec![2, 2], 2));
    assert_eq!(4, count_distances(vec![1, 1, 1], 2));
    assert_eq!(6, count_distances(vec![1, 2, 1], 2));
    assert_eq!(7, count_distances(vec![2, 1, 1], 2));
    assert_eq!(12, count_distances(vec![2, 0, 2], 2));
}

#[test]
fn empty_lines_expand() {
    assert_eq!(4, count_distances(vec![2, 2], 1000));
    assert_eq!(4004, count_distances(vec![2, 0, 2], 1000));
    assert_eq!(0, count_distances(vec![], 2));
    assert_eq!(1 + 10, count_distances(vec![1, 0, 1], 10));
}

const IMAGE: &str = "\
...#......
.......#..
#.........
..........
......#...
.#........
.........#
..........
.......#..
#...#.....
";

#[test]
fn galaxies_of_the_example() {
    let (h, v) = advent::day11::parse(IMAGE);
    assert_eq!(vec![1, 1, 1, 0, 1, 1, 1, 0, 1, 2], h);
    assert_eq!(vec![2, 1, 0, 1, 1, 0, 1, 2, 0, 1], v);
    assert_eq!(374, advent::day11::solve(IMAGE, 2));
    assert_eq!(1030, advent::day11::solve(IMAGE, 10));
    assert_eq!(8410, advent::day11::solve(IMAGE, 100));
}
