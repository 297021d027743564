use advent::day12::{
    count_possibilities_brute_force, cut_first, feasible, freedom, min_len, parse_line,
    parse_spring, part1, part2, unfold, Row, Spring,
};

#[test]
fn parser_test() {
    assert_eq!(
        Row {
            springs: vec![Spring::Damaged, Spring::Damaged, Spring::Unknown, Spring::Operational],
            ecc: vec![2, 1]
        },
        parse_line("##?. 2,1")
    );
}

#[test]
fn freedom_test() {
    assert_eq!(0, freedom(parse_line("? 1")));
    assert_eq!(1, freedom(parse_line("?? 1")));
    assert_eq!(0, freedom(parse_line("?? 2")));
    assert_eq!(0, freedom(parse_line("??? 1,1")));
    assert_eq!(1, freedom(parse_line("???? 1,1")));
}

#[test]
fn cutting_test() {
    assert_eq!(parse_line("??? 1"), cut_first(parse_line("?????? 2,1"), 0));
    assert_eq!(parse_line("??? 1"), cut_first(parse_line("?????? 1,1"), 1));
}

#[test]
fn feasible_test() {
    assert_eq!(true, feasible(parse_line("? 1"), 0));
    assert_eq!(true, feasible(parse_line("? 1"), 0));
    assert_eq!(true, feasible(parse_line("# 1"), 0));
    assert_eq!(false, feasible(parse_line(". 1"), 0));
    assert_eq!(false, feasible(parse_line("## 1"), 0));

    assert_eq!(true, feasible(parse_line("## 2"), 0));
    assert_eq!(false, feasible(parse_line("#. 2"), 0));
    assert_eq!(false, feasible(parse_line(".# 2"), 0));

    assert_eq!(true, feasible(parse_line(".#. 1"), 1));
    assert_eq!(true, feasible(parse_line(".# 1"), 1));
    assert_eq!(false, feasible(parse_line("##. 1"), 1));
    assert_eq!(false, feasible(parse_line("## 1"), 1));

    assert_eq!(true, feasible(parse_line("..# 1"), 2));
    assert_eq!(false, feasible(parse_line("#.# 1"), 2));
    assert_eq!(false, feasible(parse_line("..## 1"), 2));
    assert_eq!(true, feasible(parse_line(".?# 1"), 2));
    assert_eq!(true, feasible(parse_line("??# 1"), 2));
    assert_eq!(true, feasible(parse_line("?.# 1"), 2));
    assert_eq!(false, feasible(parse_line("#?# 1"), 2));
    assert_eq!(true, feasible(parse_line(".?#? 1"), 2));
}

#[test]
fn unfold_test() {
    assert_eq!(unfold(parse_line("..# 1")), parse_line("..#?..#?..#?..#?..# 1,1,1,1,1"));
}

#[test]
fn least_length_has_a_gap_between_groups() {
    assert_eq!(1, min_len(vec![1]));
    assert_eq!(5, min_len(vec![1, 3]));
    assert_eq!(7, min_len(vec![1, 1, 3]));
    assert_eq!(Spring::Unknown, parse_spring('?'));
    assert_eq!(Spring::Damaged, parse_spring('#'));
    assert_eq!(Spring::Operational, parse_spring('.'));
}

#[test]
fn cutting_past_the_end_leaves_nothing() {
    let cut = cut_first(parse_line("### 3"), 0);
    assert_eq!(Row { springs: vec![], ecc: vec![] }, cut);
    let cut = cut_first(parse_line("###.# 3,1"), 0);
    assert_eq!(Row { springs: vec![Spring::Damaged], ecc: vec![1] }, cut);
}

#[test]
fn dumb_solver_test() {
    assert_eq!(1, count_possibilities_brute_force(parse_line("? 1")));
    assert_eq!(2, count_possibilities_brute_force(parse_line("?? 1")));
    assert_eq!(1, count_possibilities_brute_force(parse_line("??? 1,1")));
    assert_eq!(1, count_possibilities_brute_force(parse_line("???? 2,1")));
    assert_eq!(1, count_possibilities_brute_force(parse_line("???? 1,2")));
    assert_eq!(1, count_possibilities_brute_force(parse_line("#..# 1,1")));
    assert_eq!(1, count_possibilities_brute_force(parse_line("?..? 1,1")));
    assert_eq!(1, count_possibilities_brute_force(parse_line(".?.? 1,1")));
    assert_eq!(4, count_possibilities_brute_force(parse_line("??.?? 1,1")));
    assert_eq!(8, count_possibilities_brute_force(parse_line("??.??.?? 1,1,1")));
    assert_eq!(3, count_possibilities_brute_force(parse_line("?.?.? 1,1")));
    assert_eq!(2, count_possibilities_brute_force(parse_line("#.?.? 1,1")));

    assert_eq!(
        1,
        count_possibilities_brute_force(Row {
            springs: vec![Spring::Damaged],
            ecc: vec![1]
        })
    );
    assert_eq!(
        1,
        count_possibilities_brute_force(Row {
            springs: vec![Spring::Unknown],
            ecc: vec![]
        })
    );
    assert_eq!(
        0,
        count_possibilities_brute_force(Row {
            springs: vec![Spring::Damaged],
            ecc: vec![]
        })
    );

    assert_eq!(6, count_possibilities_brute_force(parse_line("????? 1,1")));
    assert_eq!(6, count_possibilities_brute_force(parse_line("???????? 1,4")));
    assert_eq!(2, count_possibilities_brute_force(parse_line("???#? 1,1")));
    assert_eq!(3, count_possibilities_brute_force(parse_line("????#? 1,1")));
    assert_eq!(6, count_possibilities_brute_force(parse_line("??????#? 1,1,1")));
    assert_eq!(6, count_possibilities_brute_force(parse_line("?????????#? 1,4,1")));
}

#[test]
fn urgh_test() {
    assert_eq!(1, count_possibilities_brute_force(unfold(parse_line("???.### 1,1,3"))));
}

#[test]
fn springs_of_the_example() {
    let text = "???.### 1,1,3\n.??..??...?##. 1,1,3\n?#?#?#?#?#?#?#? 1,3,1,6\n????.#...#... 4,1,1\n????.######..#####. 1,6,5\n?###???????? 3,2,1\n";
    assert_eq!(21, part1(text));
    assert_eq!(1 + 16, part2("???.### 1,1,3\n????.#...#... 4,1,1\n"));
}
