use advent::day02::{
    add_subsection_, fits, game_possible, maximum, parse_line, parse_section, parse_subsection,
    power, Cubes,
};

#[test]
fn parse_test() {
    let line = "Game 1: 3 blue, 4 red; 1 red, 2 green, 6 blue; 2 green";
    let ss = " 1 red, 2 green, 6 blue";
    assert_eq!(
        (
            1,
            vec![
                Cubes { red: 4, green: 0, blue: 3 },
                Cubes { red: 1, green: 2, blue: 6 },
                Cubes { red: 0, green: 2, blue: 0 }
            ]
        ),
        parse_line(line)
    );
    assert_eq!(Cubes { red: 1, green: 2, blue: 6 }, parse_section(ss));
    assert_eq!((6, "blue"), parse_subsection(" 6 blue"));
}

#[test]
fn comp_test() {
    let a = Cubes { red: 0, green: 2, blue: 0 };
    let b = Cubes { red: 0, green: 3, blue: 0 };
    let c = Cubes { red: 0, green: 0, blue: 2 };
    assert!(!fits(a, b));
    assert!(fits(b, a));
    assert!(fits(a, a));
    assert!(!fits(a, c));
    assert!(!fits(c, a));
}

#[test]
fn subsection_keeps_what_follows_the_first_space() {
    assert_eq!((12, "red"), parse_subsection("\t12 red  "));
    assert_eq!((-3, " green"), parse_subsection("-3  green"));
    assert_eq!((7, "dark blue"), parse_subsection("+7 dark blue"));
}

#[test]
fn a_later_count_replaces_an_earlier_one() {
    let mut acc = Cubes { red: 1, green: 2, blue: 3 };
    add_subsection_(&mut acc, " 9 green");
    assert_eq!(Cubes { red: 1, green: 9, blue: 3 }, acc);
    assert_eq!(Cubes { red: 5, green: 0, blue: 0 }, parse_section("3 red, 5 red"));
}

#[test]
fn possible_games_and_powers() {
    assert!(game_possible(vec![Cubes { red: 12, green: 13, blue: 14 }]));
    assert!(!game_possible(vec![Cubes { red: 1, green: 1, blue: 1 }, Cubes { red: 13, green: 0, blue: 0 }]));
    assert!(game_possible(vec![]));
    let m = maximum(Cubes { red: 4, green: 0, blue: 3 }, Cubes { red: 1, green: 2, blue: 6 });
    assert_eq!(Cubes { red: 4, green: 2, blue: 6 }, m);
    assert_eq!(48, power(m));
}

const EXAMPLE: &str = "\
Game 1: 3 blue, 4 red; 1 red, 2 green, 6 blue; 2 green
Game 2: 1 blue, 2 green; 3 green, 4 blue, 1 red; 1 green, 1 blue
Game 3: 8 green, 6 blue, 20 red; 5 blue, 4 red, 13 green; 5 green, 1 red
Game 4: 1 green, 3 red, 6 blue; 3 green, 6 red; 3 green, 15 blue, 14 red
Game 5: 6 red, 1 blue, 3 green; 2 blue, 1 red, 2 green
";

#[test]
fn cube_games_of_the_example() {
    assert_eq!(8, advent::day02::solve(EXAMPLE));
    assert_eq!(2286, advent::day02::solve2(EXAMPLE));
    assert_eq!(0, advent::day02::solve(""));
    assert_eq!(0, advent::day02::solve2(""));
}
