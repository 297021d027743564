use advent::day20::{
    apply, apply_conj, apply_flip_flop, button, calc_total_impact, collect_influence,
    collect_inputs, crate_module, create_machine, ffpulse, find_merger, find_subgraphs, flip,
    inc_counter, parse, part1, part2, pre_parse_module, FlipFlopState, Machine, Module,
    ModuleType, Pulse,
};

#[test]
fn flip_flops_flip_on_low() {
    assert_eq!(FlipFlopState::Off, flip(FlipFlopState::On));
    assert_eq!(FlipFlopState::On, flip(FlipFlopState::Off));
    assert_eq!(Pulse::Low, ffpulse(FlipFlopState::On));
    assert_eq!(Pulse::High, ffpulse(FlipFlopState::Off));
    assert_eq!((FlipFlopState::On, None), apply_flip_flop(FlipFlopState::On, Pulse::High));
    assert_eq!((FlipFlopState::Off, Some(Pulse::Low)), apply_flip_flop(FlipFlopState::On, Pulse::Low));
    assert_eq!((FlipFlopState::On, Some(Pulse::High)), apply_flip_flop(FlipFlopState::Off, Pulse::Low));
}

#[test]
fn conjunctions_remember_their_inputs() {
    let s = vec![(String::from("a"), Pulse::Low), (String::from("b"), Pulse::High)];
    let (s, out) = apply_conj(s, String::from("a"), Pulse::High);
    assert_eq!(vec![(String::from("a"), Pulse::High), (String::from("b"), Pulse::High)], s);
    assert_eq!(Some(Pulse::Low), out);
    let (s, out) = apply_conj(s, String::from("b"), Pulse::Low);
    assert_eq!(vec![(String::from("a"), Pulse::High), (String::from("b"), Pulse::Low)], s);
    assert_eq!(Some(Pulse::High), out);
    let (s, out) = apply_conj(s, String::from("c"), Pulse::High);
    assert_eq!(vec![(String::from("a"), Pulse::High), (String::from("b"), Pulse::Low)], s);
    assert_eq!(Some(Pulse::High), out);
    assert_eq!((vec![], Some(Pulse::Low)), apply_conj(vec![], String::from("c"), Pulse::Low));
}

#[test]
fn modules_answer_pulses() {
    assert_eq!((Module::Broadcast, Some(Pulse::Low)), apply(Module::Broadcast, String::from("button"), Pulse::Low));
    assert_eq!(
        (Module::FlipFlop(FlipFlopState::On), Some(Pulse::High)),
        apply(Module::FlipFlop(FlipFlopState::Off), String::from("x"), Pulse::Low)
    );
    assert_eq!(
        (Module::FlipFlop(FlipFlopState::Off), None),
        apply(Module::FlipFlop(FlipFlopState::Off), String::from("x"), Pulse::High)
    );
    let conj = crate_module(ModuleType::Conj, vec![String::from("a"), String::from("b")]);
    assert_eq!(Module::Conj(vec![(String::from("a"), Pulse::Low), (String::from("b"), Pulse::Low)]), conj);
    assert_eq!(
        (Module::Conj(vec![(String::from("a"), Pulse::Low), (String::from("b"), Pulse::High)]), Some(Pulse::High)),
        apply(conj, String::from("b"), Pulse::High)
    );
    assert_eq!(Module::Broadcast, crate_module(ModuleType::Broadcast, vec![String::from("a")]));
    assert_eq!(Module::FlipFlop(FlipFlopState::Off), crate_module(ModuleType::FlipFlop, vec![]));
    assert_eq!(
        Machine { module: Module::FlipFlop(FlipFlopState::Off), targets: vec![String::from("t")] },
        create_machine(ModuleType::FlipFlop, vec![String::from("i")], vec![String::from("t")])
    );
}

#[test]
fn pulses_are_counted() {
    let mut c = (0, 0);
    inc_counter(&mut c, Pulse::Low);
    inc_counter(&mut c, Pulse::Low);
    inc_counter(&mut c, Pulse::High);
    assert_eq!((2, 1), c);
}

const INVERTED: &str = "broadcaster -> a, b, c\n%a -> b\n%b -> c\n%c -> inv\n&inv -> a\n";

const CONJOINED: &str =
    "broadcaster -> a\n%a -> inv, con\n&inv -> b\n%b -> con\n&con -> output\n";

#[test]
fn declarations_are_read() {
    let (kind, name, outputs) = pre_parse_module("%jf -> cr, dn");
    assert_eq!(ModuleType::FlipFlop, kind);
    assert_eq!("jf", name);
    assert_eq!(vec![String::from("cr"), String::from("dn")], outputs);
    let (kind, name, outputs) = pre_parse_module("&inv -> a");
    assert_eq!(ModuleType::Conj, kind);
    assert_eq!("inv", name);
    assert_eq!(vec![String::from("a")], outputs);
    let (kind, name, outputs) = pre_parse_module("broadcaster -> a, b, c");
    assert_eq!(ModuleType::Broadcast, kind);
    assert_eq!("broadcaster", name);
    assert_eq!(3, outputs.len());
}

#[test]
fn inputs_are_collected_in_order() {
    let modules = vec![
        pre_parse_module("broadcaster -> a"),
        pre_parse_module("%a -> inv, con"),
        pre_parse_module("&inv -> b"),
        pre_parse_module("%b -> con"),
        pre_parse_module("&con -> output"),
    ];
    let inputs = collect_inputs(&modules);
    let of = |name: &str| inputs.iter().rev().find(|(n, _)| n == name).map(|(_, v)| v.clone());
    assert_eq!(Some(vec![String::from("a"), String::from("b")]), of("con"));
    assert_eq!(Some(vec![String::from("a")]), of("inv"));
    assert_eq!(Some(vec![String::from("con")]), of("output"));
    assert_eq!(None, of("broadcaster"));
    assert_eq!(5, inputs.len());
}

#[test]
fn networks_are_wired() {
    let n = parse(CONJOINED);
    assert_eq!(5, n.len());
    assert_eq!("con", n[4].0);
    assert_eq!(
        Module::Conj(vec![(String::from("a"), Pulse::Low), (String::from("b"), Pulse::Low)]),
        n[4].1.module
    );
    assert_eq!(vec![String::from("output")], n[4].1.targets);
    assert_eq!(Module::FlipFlop(FlipFlopState::Off), n[1].1.module);
    assert_eq!(Module::Broadcast, n[0].1.module);
}

#[test]
fn one_press_of_the_button() {
    let (n, counter, rx) = button(parse(INVERTED));
    assert_eq!((8, 4), counter);
    assert_eq!((0, 0), rx);
    assert_eq!(Module::FlipFlop(FlipFlopState::Off), n[1].1.module);
    let (n, counter, _) = button(parse(CONJOINED));
    assert_eq!((4, 4), counter);
    assert_eq!(Module::FlipFlop(FlipFlopState::On), n[1].1.module);
    assert_eq!(Module::FlipFlop(FlipFlopState::On), n[3].1.module);
    let (_, counter, _) = button(n);
    assert_eq!((4, 2), counter);
}

#[test]
fn a_thousand_presses() {
    assert_eq!(32000000, part1(parse(INVERTED)));
    assert_eq!(11687500, part1(parse(CONJOINED)));
}

#[test]
fn pulses_to_rx_are_counted_apart() {
    let (_, counter, rx) = button(parse("broadcaster -> rx\n"));
    assert_eq!((2, 0), counter);
    assert_eq!((1, 0), rx);
    assert_eq!(1, part2(parse("broadcaster -> rx\n")));
    assert_eq!(1, part2(parse("broadcaster -> a\n%a -> b\n&b -> rx\n")));
    assert_eq!(2, part2(parse("broadcaster -> a\n%a -> rx\n")));
}

fn strings(names: &[&str]) -> Vec<String> {
    names.iter().map(|n| String::from(*n)).collect()
}

#[test]
fn pulses_come_to_what_follows() {
    let n = parse(CONJOINED);
    assert_eq!(
        strings(&["a", "inv", "b", "con", "output"]),
        collect_influence(String::from("broadcaster"), &n)
    );
    assert_eq!(strings(&["inv", "b", "con", "output"]), collect_influence(String::from("a"), &n));
    assert_eq!(strings(&["output"]), collect_influence(String::from("con"), &n));
    assert_eq!(strings(&[]), collect_influence(String::from("output"), &n));
    let n = parse(INVERTED);
    assert_eq!(strings(&["b", "c", "inv"]), collect_influence(String::from("a"), &n));
    assert_eq!(strings(&["a", "b", "c"]), collect_influence(String::from("inv"), &n));
}

#[test]
fn impact_of_every_machine() {
    let impacts = calc_total_impact(parse(CONJOINED));
    assert_eq!(5, impacts.len());
    assert_eq!((String::from("inv"), strings(&["b", "con", "output"])), impacts[2]);
    assert_eq!((String::from("b"), strings(&["con", "output"])), impacts[3]);
    assert_eq!("con", find_merger(&impacts));
    let subgraphs = find_subgraphs(strings(&["con", "b", "broadcaster"]), impacts);
    assert_eq!(
        vec![
            (String::from("con"), strings(&["broadcaster", "a", "inv", "b"])),
            (String::from("b"), strings(&["broadcaster", "a", "inv"])),
            (String::from("broadcaster"), strings(&[])),
        ],
        subgraphs
    );
}
