use advent::day19::{
    above, accepted, below, follow, length, next, parse, parse_guard, part1, part2, try_follow, parse_instruction, parse_part, parse_target,
    parse_workflow_unroll, possibilities, split, split_part, sum, Guard, Key, Op, Part, PartRange,
    Range, Step, Target,
};

#[test]
fn parsing_test() {
    assert_eq!(
        Part {
            x: 787,
            m: 2655,
            a: 1222,
            s: 2876
        },
        parse_part("{x=787,m=2655,a=1222,s=2876}")
    );
    let g = Guard {
        op: Op::Greater,
        value: 2090,
        key: Key::M,
    };
    assert_eq!(g, parse_guard("m>2090"));
    assert_eq!((Target::Accept, g), parse_instruction("m>2090:A"));
    let (at, ag) = parse_instruction("a<2006:qkq");
    let (bt, bg) = parse_instruction("m>2090:A");
    let default = parse_target("rfg");
    let s1 = Step {
        on_true: at,
        on_false: Target::Step(String::from("px1")),
        guard: ag,
    };
    let s2 = Step {
        on_true: bt,
        on_false: default,
        guard: bg,
    };
    assert_eq!(
        vec![(String::from("px1"), s2), (String::from("px"), s1)],
        parse_workflow_unroll("px{a<2006:qkq,m>2090:A,rfg}")
    );
}

#[test]
fn splitting_test() {
    let s = Range { min: 0, max: 10 };
    let mkr = |min, max| Some(Range { min, max });
    assert_eq!(mkr(3, 10), above(2, s));
    assert_eq!(mkr(0, 10), above(-5, s));
    assert_eq!(mkr(0, 10), above(-1, s));
    assert_eq!(mkr(1, 10), above(0, s));
    assert_eq!(mkr(9, 10), above(8, s));
    assert_eq!(mkr(10, 10), above(9, s));
    assert_eq!(None, above(10, s));

    assert_eq!(mkr(0, 1), below(2, s));
    assert_eq!(mkr(0, 10), below(11, s));
    assert_eq!(mkr(0, 9), below(10, s));
    assert_eq!(mkr(0, 0), below(1, s));
    assert_eq!(None, below(0, s));
    let b4 = Guard {
        op: Op::Lesser,
        value: 4,
        key: Key::X,
    };
    assert_eq!((mkr(0, 3), mkr(4, 10)), split(b4, s));
}

#[test]
fn workflows_number_their_later_steps() {
    let steps = parse_workflow_unroll("in{s<1351:px,x>12:R,a<3:A,m>4:qq,R}");
    let names: Vec<&str> = steps.iter().map(|(n, _)| n.as_str()).collect();
    assert_eq!(vec!["in3", "in2", "in1", "in"], names);
    assert_eq!(Target::Reject, steps[0].1.on_false);
    assert_eq!(Target::Step(String::from("qq")), steps[0].1.on_true);
    assert_eq!(Target::Step(String::from("in3")), steps[1].1.on_false);
    assert_eq!(Target::Step(String::from("in1")), steps[3].1.on_false);
    assert_eq!(Vec::<(String, Step)>::new(), parse_workflow_unroll("lnx{A}"));
    assert_eq!(12, parse_workflow_unroll("w{a<1:A,a<1:A,a<1:A,a<1:A,a<1:A,a<1:A,a<1:A,a<1:A,a<1:A,a<1:A,a<1:A,a<1:A,R}").len());
    assert_eq!("w11", parse_workflow_unroll("w{a<1:A,a<1:A,a<1:A,a<1:A,a<1:A,a<1:A,a<1:A,a<1:A,a<1:A,a<1:A,a<1:A,a<1:A,R}")[0].0);
}

#[test]
fn guards_sort_parts_and_ranges() {
    let g = parse_guard("a<2006");
    assert_eq!(Guard { op: Op::Lesser, value: 2006, key: Key::A }, g);
    let p = parse_part("{x=1,m=2,a=2005,s=-4}");
    assert_eq!(Part { x: 1, m: 2, a: 2005, s: 4 }, p);
    assert!(advent::day19::matches(g, p));
    assert!(!advent::day19::matches(parse_guard("a>2005"), p));
    assert!(advent::day19::matches(parse_guard("a>-1"), p));
    assert_eq!(2012, sum(p));
    let step = Step { guard: g, on_true: Target::Accept, on_false: Target::Reject };
    assert_eq!(Target::Accept, next(step.clone(), p));
    assert_eq!(Target::Reject, next(step, Part { a: 2006, ..p }));
    let full = Range { min: 1, max: 4000 };
    let all = PartRange { x: full, m: full, a: full, s: full };
    assert_eq!(4000, length(full));
    assert_eq!(256000000000000, possibilities(all));
    let (yes, no) = split_part(g, all);
    assert_eq!(Some(PartRange { a: Range { min: 1, max: 2005 }, ..all }), yes);
    assert_eq!(Some(PartRange { a: Range { min: 2006, max: 4000 }, ..all }), no);
    let (yes, no) = split_part(parse_guard("x>4000"), all);
    assert_eq!(None, yes);
    assert_eq!(Some(all), no);
    assert_eq!(Target::Accept, parse_target("A"));
    assert_eq!(Target::Reject, parse_target("R"));
    assert_eq!(Target::Step(String::from("AR")), parse_target("AR"));
    assert_eq!(Target::Step(String::new()), parse_target(""));
}

const SYSTEM: &str = "\
px{a<2006:qkq,m>2090:A,rfg}
pv{a>1716:R,A}
lnx{m>1548:A,A}
rfg{s<537:gd,x>2440:R,A}
qs{s>3448:A,lnx}
qkq{x<1416:A,crn}
crn{x>2662:A,R}
in{s<1351:px,qqz}
qqz{s>2770:qs,m<1801:hdj,R}
gd{a>3333:R,R}
hdj{m>838:A,pv}

{x=787,m=2655,a=1222,s=2876}
{x=1679,m=44,a=2067,s=496}
{x=2036,m=264,a=79,s=2244}
{x=2461,m=1339,a=466,s=291}
{x=2127,m=1623,a=2188,s=1013}
";

#[test]
fn parts_of_the_example() {
    let (steps, parts) = parse(SYSTEM);
    assert_eq!(5, parts.len());
    assert_eq!(14, steps.len());
    assert!(accepted(&steps, parts[0], String::from("in")));
    assert!(!accepted(&steps, parts[1], String::from("in")));
    assert!(accepted(&steps, parts[2], String::from("in")));
    assert!(!accepted(&steps, parts[3], String::from("in")));
    assert!(accepted(&steps, parts[4], String::from("in")));
    assert_eq!(19114, part1(parse(SYSTEM), String::from("in")));
    assert_eq!(167409079868000, part2(parse(SYSTEM).0, String::from("in")));
}

#[test]
fn ranges_are_sorted_out_in_order() {
    let steps = parse_workflow_unroll("in{x<11:A,x>20:A,R}");
    let small = Range { min: 1, max: 30 };
    let one = Range { min: 1, max: 1 };
    let p = PartRange { x: small, m: one, a: one, s: one };
    let mut acc = vec![];
    follow(&mut acc, &steps, p, String::from("in"));
    assert_eq!(
        vec![PartRange { x: Range { min: 1, max: 10 }, ..p }, PartRange { x: Range { min: 21, max: 30 }, ..p }],
        acc
    );
    try_follow(&mut acc, &steps, p, Target::Reject);
    assert_eq!(2, acc.len());
    try_follow(&mut acc, &steps, p, Target::Accept);
    assert_eq!(p, acc[2]);
    try_follow(&mut acc, &steps, p, Target::Step(String::from("in1")));
    assert_eq!(vec![PartRange { x: Range { min: 21, max: 30 }, ..p }], acc[3..].to_vec());
    // of two steps with one name the later counts
    let mut twice = parse_workflow_unroll("in{x<11:A,R}");
    twice.extend(parse_workflow_unroll("in{x<11:R,A}"));
    assert!(!accepted(&twice, Part { x: 5, m: 0, a: 0, s: 0 }, String::from("in")));
    assert!(accepted(&twice, Part { x: 50, m: 0, a: 0, s: 0 }, String::from("in")));
}
