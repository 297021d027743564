use advent::day15::{apply, hash, parse, Lenses, Op};

#[test]
fn hash_test() {
    assert_eq!(200, hash(String::from("H")));
    assert_eq!(52, hash(String::from("HASH")));
}

#[test]
fn remove_test1() {
    let mut b: Lenses = vec![(String::from("meow"), 3)];
    apply(
        &mut b,
        Op {
            label: String::from("meow"),
            lens: None,
        },
    );
    assert_eq!(b, vec![]);
}

#[test]
fn remove_test2() {
    let mut b: Lenses = vec![(String::from("mraow"), 3)];
    apply(
        &mut b,
        Op {
            label: String::from("meow"),
            lens: None,
        },
    );
    assert_eq!(b, vec![(String::from("mraow"), 3)]);
}

#[test]
fn remove_test3() {
    let mut b: Lenses = vec![(String::from("meow"), 3), (String::from("mraow"), 3)];
    apply(
        &mut b,
        Op {
            label: String::from("meow"),
            lens: None,
        },
    );
    assert_eq!(b, vec![(String::from("mraow"), 3)]);
}

#[test]
fn add_test1() {
    let mut b: Lenses = vec![];
    apply(
        &mut b,
        Op {
            label: String::from("meow"),
            lens: Some(3),
        },
    );
    assert_eq!(b, vec![(String::from("meow"), 3)]);
}

#[test]
fn add_test2() {
    let mut b: Lenses = vec![(String::from("meow"), 5)];
    apply(
        &mut b,
        Op {
            label: String::from("meow"),
            lens: Some(3),
        },
    );
    assert_eq!(b, vec![(String::from("meow"), 3)]);
}

#[test]
fn add_test3() {
    let mut b: Lenses = vec![(String::from("meow"), 5)];
    apply(
        &mut b,
        Op {
            label: String::from("mraow"),
            lens: Some(3),
        },
    );
    assert_eq!(b, vec![(String::from("meow"), 5), (String::from("mraow"), 3)]);
}

#[test]
fn steps_are_read() {
    let op = parse(String::from("rn=1"));
    assert_eq!("rn", op.label);
    assert_eq!(Some(1), op.lens);
    let op = parse(String::from("cm-"));
    assert_eq!("cm", op.label);
    assert_eq!(None, op.lens);
    let op = parse(String::from("ab=12=3"));
    assert_eq!("ab", op.label);
    assert_eq!(Some(12), op.lens);
    assert_eq!(30, hash(String::from("rn=1")));
    assert_eq!(0, hash(String::from("rn")));
    assert_eq!(0, hash(String::new()));
}

#[test]
fn a_lens_is_replaced_where_the_first_of_its_label_stands() {
    let mut b: Lenses = vec![(String::from("a"), 1), (String::from("b"), 2), (String::from("a"), 3)];
    apply(&mut b, Op { label: String::from("a"), lens: Some(9) });
    assert_eq!(b, vec![(String::from("a"), 9), (String::from("b"), 2), (String::from("a"), 3)]);
    apply(&mut b, Op { label: String::from("a"), lens: None });
    assert_eq!(b, vec![(String::from("b"), 2), (String::from("a"), 3)]);
}

#[test]
fn lenses_of_the_example() {
    let text = "rn=1,cm-,qp=3,cm=2,qp-,pc=4,ot=9,ab=5,pc-,pc=6,ot=7\n";
    assert_eq!(11, advent::day15::read(text).len());
    assert_eq!(1320, advent::day15::part1(text));
    assert_eq!(145, advent::day15::part2(text));
}
