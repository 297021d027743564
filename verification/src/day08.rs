//! A network of nodes that is walked by turning left or right, and the
//! cycles in which such walks end.
use crate::text::{
    chars_of, lines, lines_of, paragraphs, paragraphs_of, string_of, substring, views,
};
use itertools::Itertools;
use num_integer::Integer;
use vstd::prelude::*;

verus! {

#[derive(Clone, Copy, Debug, PartialEq, Eq, Structural)]
pub enum Dir {
    Left,
    Right,
}

pub open spec fn dir_of(c: char) -> Option<Dir> {
    if c == 'L' {
        Some(Dir::Left)
    } else if c == 'R' {
        Some(Dir::Right)
    } else {
        None
    }
}

pub fn parse_dir(c: char) -> (r: Dir)
    requires
        dir_of(c) is Some,
    ensures
        Some(r) == dir_of(c),
{
    match c {
        'L' => Dir::Left,
        _ => Dir::Right,
    }
}

/// The name of a node: three characters.
pub type Node = (char, char, char);

/// The node whose name is `x`.
pub fn encode_node(x: &str) -> (r: Node)
    requires
        x@.len() == 3,
    ensures
        r == (x@[0], x@[1], x@[2]),
{
    let c = chars_of(x);
    (c[0], c[1], c[2])
}

/// Reads a node and the two nodes to its left and right: their names stand
/// at the places 0, 7 and 12 of the line.
pub fn parse_line(l: &str) -> (r: (Node, (Node, Node)))
    requires
        l@.len() >= 15,
    ensures
        r == ((l@[0], l@[1], l@[2]), ((l@[7], l@[8], l@[9]), (l@[12], l@[13], l@[14]))),
{
    let a = encode_node(substring(l, 0, 3));
    let b = encode_node(substring(l, 7, 10));
    let c = encode_node(substring(l, 12, 15));
    (a, (b, c))
}

/// The left or the right of two nodes.
pub fn follow(direction: Dir, pair: (Node, Node)) -> (r: Node)
    ensures
        r == match direction {
            Dir::Left => pair.0,
            Dir::Right => pair.1,
        },
{
    match direction {
        Dir::Left => pair.0,
        Dir::Right => pair.1,
    }
}

/// Whether the name of the node ends in `Z`.
pub fn ending_node(n: Node) -> (r: bool)
    ensures
        r == (n.2 == 'Z'),
{
    n.2 == 'Z'
}

/// Whether the name of the node ends in `A`.
pub fn start_node(n: &Node) -> (r: bool)
    ensures
        r == (n.2 == 'A'),
{
    n.2 == 'A'
}

/// A walk comes by its goal first after `start` steps and then every
/// `period` steps.
#[derive(Clone, Copy, Debug, PartialEq, Eq, Structural)]
pub struct Cycle {
    pub start: isize,
    pub period: isize,
}

/// `m` is the least common multiple of `a` and `b`: zero if one of them is
/// zero, else the least positive number that both divide.
pub open spec fn is_lcm(a: int, b: int, m: int) -> bool {
    if a == 0 || b == 0 {
        m == 0
    } else {
        &&& m > 0
        &&& m % a == 0
        &&& m % b == 0
        &&& forall|k: int| 0 < k < m ==> !(#[trigger] (k % a) == 0 && k % b == 0)
    }
}

/// The least common multiple of two numbers. Calls `Integer::lcm` of the
/// crate num_integer, which computes it as the one number times the other
/// divided by their greatest common divisor, without sign: so the product
/// of the two must fit a machine word, and neither may be the least number
/// there is.
#[verifier::external_body]
fn lcm(a: isize, b: isize) -> (r: isize)
    requires
        a > isize::MIN,
        b > isize::MIN,
        -isize::MAX <= a * b <= isize::MAX,
    ensures
        is_lcm(a as int, b as int, r as int),
{
    a.lcm(&b)
}

/// What becomes of two cycles that are to meet: one cycle whose period is
/// the least common multiple `period` of theirs, if they start together or
/// end their first round together.
pub open spec fn merged(x: Cycle, y: Cycle, period: int) -> Option<Cycle> {
    if x.start == y.start {
        Some(Cycle { period: period as isize, start: x.start })
    } else if x.period - x.start == y.period - y.start {
        Some(Cycle { period: period as isize, start: (period - (x.period - x.start)) as isize })
    } else {
        None
    }
}

/// Merges two cycles, where `period` is the least common multiple of their
/// periods.
pub fn merge_with(x: Cycle, y: Cycle, period: isize) -> (r: Option<Cycle>)
    requires
        isize::MIN <= x.period - x.start <= isize::MAX,
        isize::MIN <= y.period - y.start <= isize::MAX,
        isize::MIN <= period - (x.period - x.start) <= isize::MAX,
    ensures
        r == merged(x, y, period as int),
{
    if x.start == y.start {
        Some(Cycle { period, start: x.start })
    } else if x.period - x.start == y.period - y.start {
        Some(Cycle { period, start: period - (x.period - x.start) })
    } else {
        None
    }
}

/// The periods of the two cycles are not the least number there is, and
/// their product and the differences that merging them takes fit a machine
/// word.
pub open spec fn mergeable(x: Cycle, y: Cycle) -> bool {
    &&& x.period > isize::MIN
    &&& y.period > isize::MIN
    &&& -isize::MAX <= x.period * y.period <= isize::MAX
    &&& isize::MIN <= x.period - x.start <= isize::MAX
    &&& isize::MIN <= y.period - y.start <= isize::MAX
    &&& forall|p: int| #[trigger]
        is_lcm(x.period as int, y.period as int, p) ==> isize::MIN <= p - (x.period - x.start)
            <= isize::MAX
}

/// The cycle in which two cycles meet, if they start together or end their
/// first round together.
pub fn merge_cycles(x: Cycle, y: Cycle) -> (r: Option<Cycle>)
    requires
        mergeable(x, y),
    ensures
        is_lcm(x.period as int, y.period as int, lcm_of(x.period as int, y.period as int)),
        r == merged(x, y, lcm_of(x.period as int, y.period as int)),
{
    let period = lcm(x.period, y.period);
    proof {
        lemma_lcm_unique(
            x.period as int,
            y.period as int,
            period as int,
            lcm_of(x.period as int, y.period as int),
        );
    }
    merge_with(x, y, period)
}

/// The least common multiple of two numbers, where they have one.
pub open spec fn lcm_of(a: int, b: int) -> int {
    choose|m: int| is_lcm(a, b, m)
}

/// Two numbers have one least common multiple at most.
pub proof fn lemma_lcm_unique(a: int, b: int, p: int, q: int)
    requires
        is_lcm(a, b, p),
    ensures
        is_lcm(a, b, q) ==> p == q,
        is_lcm(a, b, lcm_of(a, b)),
{
    if is_lcm(a, b, q) && a != 0 && b != 0 {
        if p < q {
            assert(!(#[trigger] (p % a) == 0 && p % b == 0));
        }
        if q < p {
            assert(!(#[trigger] (q % a) == 0 && q % b == 0));
        }
    }
}

/// The network: for each node the nodes to its left and right, and the
/// turns to take, over and over. Of two entries for one node the later
/// counts.
pub struct Data {
    pub nodes: Vec<(Node, (Node, Node))>,
    pub directions: Vec<Dir>,
}

/// Whether two nodes are the same.
pub fn same(a: Node, b: Node) -> (r: bool)
    ensures
        r == (a == b),
{
    a.0 == b.0 && a.1 == b.1 && a.2 == b.2
}

/// The nodes to the left and right of a node, if the network has it.
pub open spec fn neighbours(nodes: Seq<(Node, (Node, Node))>, n: Node) -> Option<(Node, Node)>
    decreases nodes.len(),
{
    if nodes.len() == 0 {
        None
    } else if nodes.last().0 == n {
        Some(nodes.last().1)
    } else {
        neighbours(nodes.drop_last(), n)
    }
}

/// The nodes to the left and right of a node, if the network has it.
pub fn lookup(nodes: &Vec<(Node, (Node, Node))>, n: Node) -> (r: Option<(Node, Node)>)
    ensures
        r == neighbours(nodes@, n),
{
    let mut i: usize = nodes.len();
    proof {
        assert(nodes@.take(nodes@.len() as int) =~= nodes@);
    }
    while i > 0
        invariant
            i <= nodes.len(),
            neighbours(nodes@, n) == neighbours(nodes@.take(i as int), n),
        decreases i,
    {
        proof {
            let t = nodes@.take(i as int);
            assert(t.last() == nodes@[i - 1]);
            assert(t.drop_last() =~= nodes@.take(i - 1));
        }
        if same(nodes[i - 1].0, n) {
            return Some(nodes[i - 1].1);
        }
        i -= 1;
    }
    None
}

/// The node that a walk from `start` has come to after `t` steps, if the
/// network has every node on the way.
pub open spec fn walked(
    nodes: Seq<(Node, (Node, Node))>,
    directions: Seq<Dir>,
    start: Node,
    t: nat,
) -> Option<Node>
    decreases t,
{
    if t == 0 {
        Some(start)
    } else {
        match walked(nodes, directions, start, (t - 1) as nat) {
            None => None,
            Some(x) => match neighbours(nodes, x) {
                None => None,
                Some(pair) => Some(
                    match directions[(t - 1) % (directions.len() as int)] {
                        Dir::Left => pair.0,
                        Dir::Right => pair.1,
                    },
                ),
            },
        }
    }
}

/// The walk from `start` is at `end` after `t` steps, one at least, and not
/// before.
pub open spec fn arrives_at(
    nodes: Seq<(Node, (Node, Node))>,
    directions: Seq<Dir>,
    start: Node,
    end: Node,
    t: nat,
) -> bool {
    &&& t >= 1
    &&& walked(nodes, directions, start, t) == Some(end)
    &&& forall|s: nat| 1 <= s < t ==> #[trigger] walked(nodes, directions, start, s) != Some(end)
}

/// The number of steps after which a walk from `start` first comes to
/// `end`.
pub fn count_steps(data: Data, start: Node, end: Node) -> (r: usize)
    requires
        data.directions@.len() > 0,
        exists|t: nat| t <= usize::MAX && #[trigger] arrives_at(
            data.nodes@,
            data.directions@,
            start,
            end,
            t,
        ),
    ensures
        arrives_at(data.nodes@, data.directions@, start, end, r as nat),
{
    let ghost goal = choose|t: nat|
        t <= usize::MAX && #[trigger] arrives_at(data.nodes@, data.directions@, start, end, t);
    let n = data.directions.len();
    let mut current = start;
    let mut t: usize = 0;
    let mut i: usize = 0;
    loop
        invariant
            n == data.directions@.len(),
            n > 0,
            goal <= usize::MAX,
            arrives_at(data.nodes@, data.directions@, start, end, goal),
            t < goal,
            i == t as int % (n as int),
            walked(data.nodes@, data.directions@, start, t as nat) == Some(current),
        decreases goal - t,
    {
        proof {
            crate::day12::lemma_next_in_cycle(t as int, n as int);
            assert(walked(data.nodes@, data.directions@, start, (t + 1) as nat) != None::<Node>) by {
                lemma_walk_so_far(data.nodes@, data.directions@, start, (t + 1) as nat, goal);
            }
        }
        let pair = match lookup(&data.nodes, current) {
            Some(pair) => pair,
            None => {
                return 0;
            },
        };
        current = follow(data.directions[i], pair);
        t += 1;
        i = if i + 1 == n {
            0
        } else {
            i + 1
        };
        if same(current, end) {
            proof {
                if t < goal {
                    assert(walked(data.nodes@, data.directions@, start, t as nat) != Some(end));
                }
            }
            return t;
        }
    }
}

/// A walk that has come somewhere has come somewhere before.
pub proof fn lemma_walk_so_far(
    nodes: Seq<(Node, (Node, Node))>,
    directions: Seq<Dir>,
    start: Node,
    s: nat,
    t: nat,
)
    requires
        s <= t,
        walked(nodes, directions, start, t) is Some,
    ensures
        walked(nodes, directions, start, s) is Some,
    decreases t - s,
{
    if s < t {
        lemma_walk_so_far(nodes, directions, start, s + 1, t);
    }
}

/// The number of steps from the node `AAA` to the node `ZZZ`.
pub fn part1(data: Data) -> (r: usize)
    requires
        data.directions@.len() > 0,
        exists|t: nat| t <= usize::MAX && #[trigger] arrives_at(
            data.nodes@,
            data.directions@,
            ('A', 'A', 'A'),
            ('Z', 'Z', 'Z'),
            t,
        ),
    ensures
        arrives_at(data.nodes@, data.directions@, ('A', 'A', 'A'), ('Z', 'Z', 'Z'), r as nat),
{
    let start = ('A', 'A', 'A');
    let end = ('Z', 'Z', 'Z');
    count_steps(data, start, end)
}

/// The text has two paragraphs: turns, and lines long enough to name three
/// nodes.
pub open spec fn data_ok(f: Seq<char>) -> bool {
    let p = paragraphs_of(f);
    &&& p.len() == 2
    &&& forall|i: int| 0 <= i < p[0].len() ==> dir_of(#[trigger] p[0][i]) is Some
    &&& forall|k: int| 0 <= k < lines_of(p[1]).len() ==> (#[trigger] lines_of(p[1])[k]).len() >= 15
}

/// Reads a network: the turns from the first paragraph of a text and the
/// nodes from the lines of the second.
pub fn parse(f: &str) -> (r: Data)
    requires
        data_ok(f@),
    ensures
        r.directions@ == Seq::new(
            paragraphs_of(f@)[0].len(),
            |i: int| dir_of(paragraphs_of(f@)[0][i]).unwrap(),
        ),
        r.nodes@ == Seq::new(
            lines_of(paragraphs_of(f@)[1]).len(),
            |k: int|
                {
                    let l = lines_of(paragraphs_of(f@)[1])[k];
                    ((l[0], l[1], l[2]), ((l[7], l[8], l[9]), (l[12], l[13], l[14])))
                },
        ),
{
    let c = chars_of(f);
    let ps = paragraphs(&c);
    assert(views(ps@)[0] == ps@[0]@ && views(ps@)[1] == ps@[1]@);
    let dirs = &ps[0];
    let mut directions: Vec<Dir> = Vec::new();
    let mut i: usize = 0;
    while i < dirs.len()
        invariant
            i <= dirs.len(),
            forall|j: int| 0 <= j < dirs@.len() ==> dir_of(#[trigger] dirs@[j]) is Some,
            directions@.len() == i,
            forall|j: int| 0 <= j < i ==> Some(directions@[j]) == dir_of(dirs@[j]),
        decreases dirs.len() - i,
    {
        assert(dir_of(dirs@[i as int]) is Some);
        directions.push(parse_dir(dirs[i]));
        i += 1;
    }
    let tail = string_of(&ps[1]);
    let ls = lines(tail.as_str());
    let ghost all = lines_of(paragraphs_of(f@)[1]);
    let mut nodes: Vec<(Node, (Node, Node))> = Vec::new();
    let mut k: usize = 0;
    while k < ls.len()
        invariant
            k <= ls.len(),
            all == views(ls@),
            forall|j: int| 0 <= j < all.len() ==> (#[trigger] all[j]).len() >= 15,
            nodes@.len() == k,
            forall|j: int|
                0 <= j < k ==> #[trigger] nodes@[j] == (
                    (all[j][0], all[j][1], all[j][2]),
                    ((all[j][7], all[j][8], all[j][9]), (all[j][12], all[j][13], all[j][14])),
                ),
        decreases ls.len() - k,
    {
        assert(all[k as int] == ls@[k as int]@);
        assert(all[k as int].len() >= 15);
        let text = string_of(&ls[k]);
        nodes.push(parse_line(text.as_str()));
        k += 1;
    }
    proof {
        assert(directions@ =~= Seq::new(
            paragraphs_of(f@)[0].len(),
            |i: int| dir_of(paragraphs_of(f@)[0][i]).unwrap(),
        ));
        assert(nodes@ =~= Seq::new(
            all.len(),
            |k: int|
                {
                    let l = all[k];
                    ((l[0], l[1], l[2]), ((l[7], l[8], l[9]), (l[12], l[13], l[14])))
                },
        ));
    }
    Data { nodes, directions }
}

/// How often a walk has come by a place: once, at the given step, or twice
/// or more, at the two steps given first.
#[derive(Clone, Copy, Debug, PartialEq, Eq)]
pub enum Visited {
    Once(usize),
    Twice((usize, usize)),
}

/// What a walk has seen: for a place in the turns and an ending node, how
/// often it came by, in the order in which it first came by.
pub type Seen = Seq<((usize, Node), Visited)>;

/// The place of the last entry for `k`, or `-1` if there is none.
pub open spec fn seen_at(t: Seen, k: (usize, Node)) -> int
    decreases t.len(),
{
    if t.len() == 0 {
        -1
    } else if t.last().0 == k {
        t.len() - 1
    } else {
        seen_at(t.drop_last(), k)
    }
}

proof fn lemma_seen_at(t: Seen, k: (usize, Node))
    ensures
        -1 <= seen_at(t, k) < t.len(),
    decreases t.len(),
{
    if t.len() > 0 && t.last().0 != k {
        lemma_seen_at(t.drop_last(), k);
    }
}

fn find_seen(t: &Vec<((usize, Node), Visited)>, k: (usize, Node)) -> (r: Option<usize>)
    ensures
        match r {
            Some(i) => i == seen_at(t@, k) && i < t@.len(),
            None => seen_at(t@, k) < 0,
        },
{
    let mut i: usize = t.len();
    proof {
        assert(t@.take(t@.len() as int) =~= t@);
    }
    while i > 0
        invariant
            i <= t.len(),
            seen_at(t@, k) == seen_at(t@.take(i as int), k),
        decreases i,
    {
        proof {
            assert(t@.take(i as int).last() == t@[i - 1]);
            assert(t@.take(i as int).drop_last() =~= t@.take(i - 1));
        }
        if t[i - 1].0.0 == k.0 && same(t[i - 1].0.1, k.1) {
            return Some(i - 1);
        }
        i -= 1;
    }
    None
}

/// What a walk has seen after it came by `k` at the step `current`: a
/// first visit is entered, a second one added to the first, and later ones
/// change nothing. Nothing where it has been there twice and more than
/// 500000 steps are done: there the walk ends.
pub open spec fn noted(t: Seen, k: (usize, Node), current: usize) -> Option<Seen> {
    let i = seen_at(t, k);
    if i < 0 {
        Some(t.push((k, Visited::Once(current))))
    } else {
        match t[i].1 {
            Visited::Once(p) => Some(t.update(i, (k, Visited::Twice((p, current))))),
            Visited::Twice(_) => if current > 500000 {
                None
            } else {
                Some(t)
            },
        }
    }
}

/// A walk on its way: where it is, how many steps it has made, and what it
/// has seen.
pub struct Tour {
    pub node: Node,
    pub current: int,
    pub table: Seen,
}

/// The walk one step on. Nothing where it ends: without turns, at a node
/// that the network lacks, or at an ending node where it has been twice
/// after more than 500000 steps.
pub open spec fn toured(nodes: Seq<(Node, (Node, Node))>, directions: Seq<Dir>, t: Tour) -> Option<
    Tour,
> {
    if directions.len() == 0 {
        None
    } else {
        match neighbours(nodes, t.node) {
            None => None,
            Some(pair) => {
                let local = t.current % (directions.len() as int);
                let node = match directions[local] {
                    Dir::Left => pair.0,
                    Dir::Right => pair.1,
                };
                if node.2 == 'Z' {
                    match noted(t.table, (local as usize, node), t.current as usize) {
                        None => None,
                        Some(table) => Some(Tour { node, current: t.current + 1, table }),
                    }
                } else {
                    Some(Tour { node, current: t.current + 1, table: t.table })
                }
            },
        }
    }
}

/// What the walk has seen when it ends, if it ends after `fuel` steps at
/// most and no more than a machine word can count.
#[verifier::opaque]
pub open spec fn finished(
    nodes: Seq<(Node, (Node, Node))>,
    directions: Seq<Dir>,
    t: Tour,
    fuel: nat,
) -> Option<Seen>
    decreases fuel,
{
    match toured(nodes, directions, t) {
        None => Some(t.table),
        Some(next) => if fuel == 0 || t.current >= isize::MAX {
            None
        } else {
            finished(nodes, directions, next, (fuel - 1) as nat)
        },
    }
}

/// The walk ends.
#[verifier::opaque]
pub open spec fn ends(nodes: Seq<(Node, (Node, Node))>, directions: Seq<Dir>, t: Tour) -> bool {
    exists|fuel: nat| #[trigger] finished(nodes, directions, t, fuel) is Some
}

/// The least number of steps after which the walk is known to end.
#[verifier::opaque]
pub open spec fn least(nodes: Seq<(Node, (Node, Node))>, directions: Seq<Dir>, t: Tour) -> nat {
    choose|fuel: nat|
        (#[trigger] finished(nodes, directions, t, fuel)) is Some && forall|g: nat|
            g < fuel ==> (#[trigger] finished(nodes, directions, t, g)) is None
}

/// What the walk has seen when it ends.
pub open spec fn outcome(nodes: Seq<(Node, (Node, Node))>, directions: Seq<Dir>, t: Tour) -> Seen {
    finished(nodes, directions, t, least(nodes, directions, t)).unwrap()
}

proof fn lemma_least(nodes: Seq<(Node, (Node, Node))>, directions: Seq<Dir>, t: Tour, fuel: nat)
    requires
        finished(nodes, directions, t, fuel) is Some,
    ensures
        finished(nodes, directions, t, least(nodes, directions, t)) is Some,
        least(nodes, directions, t) <= fuel,
        ends(nodes, directions, t),
    decreases fuel,
{
    reveal(ends);
    reveal(least);
    if exists|g: nat| g < fuel && (#[trigger] finished(nodes, directions, t, g)) is Some {
        let g = choose|g: nat| g < fuel && (#[trigger] finished(nodes, directions, t, g)) is Some;
        lemma_least(nodes, directions, t, g);
    } else {
        assert(finished(nodes, directions, t, fuel) is Some && forall|g: nat|
            g < fuel ==> (#[trigger] finished(nodes, directions, t, g)) is None);
        if least(nodes, directions, t) > fuel {
            assert(finished(nodes, directions, t, fuel) is None);
        }
    }
}

proof fn lemma_finished_more(
    nodes: Seq<(Node, (Node, Node))>,
    directions: Seq<Dir>,
    t: Tour,
    f: nat,
    g: nat,
)
    requires
        finished(nodes, directions, t, f) is Some,
        f <= g,
    ensures
        finished(nodes, directions, t, g) == finished(nodes, directions, t, f),
    decreases f,
{
    reveal(finished);
    if toured(nodes, directions, t) is Some && f > 0 {
        lemma_finished_more(
            nodes,
            directions,
            toured(nodes, directions, t).unwrap(),
            (f - 1) as nat,
            (g - 1) as nat,
        );
    }
}

/// A walk that ends and can make a step ends sooner after it, with the same
/// outcome, and its steps can still be counted.
proof fn lemma_tour_on(nodes: Seq<(Node, (Node, Node))>, directions: Seq<Dir>, t: Tour)
    requires
        ends(nodes, directions, t),
        toured(nodes, directions, t) is Some,
    ensures
        t.current < isize::MAX,
        ends(nodes, directions, toured(nodes, directions, t).unwrap()),
        least(nodes, directions, toured(nodes, directions, t).unwrap()) < least(
            nodes,
            directions,
            t,
        ),
        outcome(nodes, directions, toured(nodes, directions, t).unwrap()) == outcome(
            nodes,
            directions,
            t,
        ),
{
    reveal(ends);
    let f = choose|f: nat| #[trigger] finished(nodes, directions, t, f) is Some;
    lemma_least(nodes, directions, t, f);
    let l = least(nodes, directions, t);
    reveal(finished);
    let next = toured(nodes, directions, t).unwrap();
    assert(finished(nodes, directions, t, l) == finished(nodes, directions, next, (l - 1) as nat));
    lemma_least(nodes, directions, next, (l - 1) as nat);
    lemma_finished_more(nodes, directions, next, least(nodes, directions, next), (l - 1) as nat);
}

/// A walk that can make no step has ended.
proof fn lemma_tour_over(nodes: Seq<(Node, (Node, Node))>, directions: Seq<Dir>, t: Tour)
    requires
        toured(nodes, directions, t) is None,
    ensures
        outcome(nodes, directions, t) == t.table,
{
    reveal(finished);
    assert(finished(nodes, directions, t, 0) == Some(t.table));
    lemma_least(nodes, directions, t, 0);
}

/// The cycle that the first two visits of a place show.
pub open spec fn cycle_of(v: Visited) -> Cycle {
    match v {
        Visited::Twice((a, b)) => Cycle { start: a as isize, period: (b - a) as isize },
        Visited::Once(a) => Cycle { start: a as isize, period: 0 },
    }
}

/// The cycles that a walk has seen.
pub open spec fn cycles_of(t: Seen) -> Seq<Cycle> {
    Seq::new(t.len(), |i: int| cycle_of(t[i].1))
}

/// The walk has been twice at each place that it has seen.
pub open spec fn all_twice(t: Seen) -> bool {
    forall|i: int| 0 <= i < t.len() ==> (#[trigger] t[i]).1 is Twice
}

/// The steps in the table are in order and none is later than `current`.
pub open spec fn upto(t: Seen, current: int) -> bool {
    forall|i: int|
        0 <= i < t.len() ==> match (#[trigger] t[i]).1 {
            Visited::Once(a) => a <= current,
            Visited::Twice((a, b)) => a <= b <= current,
        }
}

/// The walk that sets out from `start`.
pub open spec fn setting_out(start: Node) -> Tour {
    Tour { node: start, current: 0, table: Seq::empty() }
}

/// The walk from `start` ends, and has been twice at each place it has
/// seen.
pub open spec fn periodic(nodes: Seq<(Node, (Node, Node))>, directions: Seq<Dir>, start: Node) -> bool {
    &&& ends(nodes, directions, setting_out(start))
    &&& all_twice(outcome(nodes, directions, setting_out(start)))
}

fn periods(start: Node, data: &Data) -> (r: Vec<Cycle>)
    requires
        periodic(data.nodes@, data.directions@, start),
    ensures
        r@ == cycles_of(outcome(data.nodes@, data.directions@, setting_out(start))),
{
    let ghost nodes = data.nodes@;
    let ghost dirs = data.directions@;
    let mut visited: Vec<((usize, Node), Visited)> = Vec::new();
    let len = data.directions.len();
    let mut node = start;
    let mut current: usize = 0;
    loop
        invariant_except_break
            ends(nodes, dirs, Tour { node, current: current as int, table: visited@ }),
            outcome(nodes, dirs, Tour { node, current: current as int, table: visited@ })
                == outcome(nodes, dirs, setting_out(start)),
        invariant
            nodes == data.nodes@,
            dirs == data.directions@,
            len == dirs.len(),
            current <= isize::MAX,
            upto(visited@, current as int),
        ensures
            visited@ == outcome(nodes, dirs, setting_out(start)),
        decreases least(nodes, dirs, Tour { node, current: current as int, table: visited@ }),
    {
        let ghost t = Tour { node, current: current as int, table: visited@ };
        if len == 0 {
            proof {
                lemma_tour_over(nodes, dirs, t);
            }
            break ;
        }
        let pair = match lookup(&data.nodes, node) {
            Some(pair) => pair,
            None => {
                proof {
                    lemma_tour_over(nodes, dirs, t);
                }
                break ;
            },
        };
        let local = current % len;
        let next = follow(data.directions[local], pair);
        if ending_node(next) {
            let k = (local, next);
            match find_seen(&visited, k) {
                None => {
                    visited.push((k, Visited::Once(current)));
                },
                Some(i) => {
                    match visited[i].1 {
                        Visited::Once(p) => {
                            visited.set(i, (k, Visited::Twice((p, current))));
                        },
                        Visited::Twice(_) => {
                            if current > 500000 {
                                proof {
                                    lemma_tour_over(nodes, dirs, t);
                                }
                                break ;
                            }
                        },
                    }
                },
            }
        }
        proof {
            assert(toured(nodes, dirs, t) == Some(
                Tour { node: next, current: current + 1, table: visited@ },
            ));
            lemma_tour_on(nodes, dirs, t);
        }
        node = next;
        current += 1;
    }
    let mut out: Vec<Cycle> = Vec::new();
    let mut i: usize = 0;
    while i < visited.len()
        invariant
            i <= visited.len(),
            current <= isize::MAX,
            upto(visited@, current as int),
            all_twice(visited@),
            out@ == cycles_of(visited@).take(i as int),
        decreases visited.len() - i,
    {
        proof {
            assert(visited@[i as int].1 is Twice);
        }
        let c = match visited[i].1 {
            Visited::Twice((a, b)) => Cycle { start: a as isize, period: (b - a) as isize },
            Visited::Once(a) => Cycle { start: a as isize, period: 0 },
        };
        out.push(c);
        proof {
            assert(out@ =~= cycles_of(visited@).take(i + 1));
        }
        i += 1;
    }
    proof {
        assert(out@ =~= cycles_of(visited@));
    }
    out
}

/// The cycles of a walk from `start`: for each place in the turns at which
/// it comes by an ending node, when it does so first and after how many
/// more steps again. The walk is followed until it has been twice at such
/// a place after more than 500000 steps.
pub fn count_period(start: Node, data: Data) -> (r: Vec<Cycle>)
    requires
        periodic(data.nodes@, data.directions@, start),
    ensures
        r@ == cycles_of(outcome(data.nodes@, data.directions@, setting_out(start))),
{
    periods(start, &data)
}

/// The lists as plain values.
pub open spec fn rows(v: Seq<Vec<Cycle>>) -> Seq<Seq<Cycle>> {
    Seq::new(v.len(), |i: int| v[i]@)
}

/// The number of ways to choose one item from each of the lists from the
/// `j`-th on.
pub open spec fn ways(lists: Seq<Seq<Cycle>>, j: int) -> int
    decreases lists.len() - j,
{
    if j >= lists.len() {
        1
    } else {
        lists[j].len() * ways(lists, j + 1)
    }
}

/// The number of choices of one item from each list; none where there is
/// no list.
pub open spec fn choices(lists: Seq<Seq<Cycle>>) -> int {
    if lists.len() == 0 {
        0
    } else {
        ways(lists, 0)
    }
}

/// The `k`-th choice of one item from each list, where the choices are
/// ordered by the places of their items, those of earlier lists first.
pub open spec fn combination(lists: Seq<Seq<Cycle>>, k: int) -> Seq<Cycle> {
    Seq::new(
        lists.len(),
        |j: int| lists[j][(k / ways(lists, j + 1)) % (lists[j].len() as int)],
    )
}

/// All choices of one item from each list. Calls
/// `Itertools::multi_cartesian_product` of the crate itertools, which
/// yields nothing for no list and for a list without items, and else every
/// choice once, the item of the last list changing fastest.
#[verifier::external_body]
fn product(lists: Vec<Vec<Cycle>>) -> (r: Vec<Vec<Cycle>>)
    ensures
        r@.len() == choices(rows(lists@)),
        forall|k: int| 0 <= k < r@.len() ==> (#[trigger] r@[k])@ == combination(rows(lists@), k),
{
    lists.into_iter().multi_cartesian_product().collect()
}

/// The cycle in which the first `n` of the cycles meet, each merged into
/// what the ones before it gave.
pub open spec fn merged_all(c: Seq<Cycle>, n: int) -> Option<Cycle>
    decreases n,
{
    if n <= 1 {
        Some(c[0])
    } else {
        match merged_all(c, n - 1) {
            None => None,
            Some(x) => merged(x, c[n - 1], lcm_of(x.period as int, c[n - 1].period as int)),
        }
    }
}

/// Each cycle can be merged into what the ones before it gave.
pub open spec fn foldable(c: Seq<Cycle>) -> bool {
    forall|n: int|
        1 <= n < c.len() ==> match #[trigger] merged_all(c, n) {
            Some(x) => mergeable(x, c[n]),
            None => true,
        }
}

/// Merges the cycles, from the first on.
pub fn merge_all(c: &Vec<Cycle>) -> (r: Option<Cycle>)
    requires
        c@.len() >= 1,
        foldable(c@),
    ensures
        r == merged_all(c@, c@.len() as int),
{
    let mut acc = c[0];
    let mut n: usize = 1;
    while n < c.len()
        invariant
            1 <= n <= c.len(),
            foldable(c@),
            merged_all(c@, n as int) == Some(acc),
        decreases c.len() - n,
    {
        match merge_cycles(acc, c[n]) {
            Some(x) => {
                acc = x;
            },
            None => {
                proof {
                    lemma_stays_apart(c@, n + 1, c@.len() as int);
                }
                return None;
            },
        }
        n += 1;
    }
    Some(acc)
}

/// Cycles that do not meet do not meet with more cycles either.
pub proof fn lemma_stays_apart(c: Seq<Cycle>, n: int, m: int)
    requires
        1 <= n <= m,
        merged_all(c, n) is None,
    ensures
        merged_all(c, m) is None,
    decreases m - n,
{
    if n < m {
        lemma_stays_apart(c, n + 1, m);
    }
}

/// The nodes from which the walks set out: those whose names end in `A`,
/// among the first `n` entries, each once.
pub open spec fn starts(nodes: Seq<(Node, (Node, Node))>, n: int) -> Seq<Node>
    decreases n,
{
    if n <= 0 {
        Seq::empty()
    } else if nodes[n - 1].0.2 == 'A' && counts(nodes, n - 1) {
        starts(nodes, n - 1).push(nodes[n - 1].0)
    } else {
        starts(nodes, n - 1)
    }
}

/// No later entry is for the same node as the `i`-th.
pub open spec fn counts(nodes: Seq<(Node, (Node, Node))>, i: int) -> bool {
    forall|j: int| i < j < nodes.len() ==> (#[trigger] nodes[j]).0 != nodes[i].0
}

fn is_last(nodes: &Vec<(Node, (Node, Node))>, i: usize) -> (r: bool)
    requires
        i < nodes.len(),
    ensures
        r == counts(nodes@, i as int),
{
    let mut j: usize = i + 1;
    while j < nodes.len()
        invariant
            i < j <= nodes.len(),
            forall|k: int| i < k < j ==> (#[trigger] nodes@[k]).0 != nodes@[i as int].0,
        decreases nodes.len() - j,
    {
        if same(nodes[j].0, nodes[i].0) {
            return false;
        }
        j += 1;
    }
    true
}

/// The cycles of the walks from each of the nodes.
pub open spec fn rounds(
    nodes: Seq<(Node, (Node, Node))>,
    directions: Seq<Dir>,
    keys: Seq<Node>,
) -> Seq<Seq<Cycle>> {
    Seq::new(
        keys.len(),
        |i: int| cycles_of(outcome(nodes, directions, setting_out(keys[i]))),
    )
}

/// The cycle in which the cycles of the `k`-th choice meet.
pub open spec fn meeting(lists: Seq<Seq<Cycle>>, k: int) -> Option<Cycle> {
    merged_all(combination(lists, k), lists.len() as int)
}

/// The walks can be followed and their cycles merged: each walk ends and
/// has been twice where it has been, the cycles of each choice can be
/// merged, and the step after the start of a merged cycle can be counted.
pub open spec fn ghostly(nodes: Seq<(Node, (Node, Node))>, directions: Seq<Dir>) -> bool {
    let keys = starts(nodes, nodes.len() as int);
    let lists = rounds(nodes, directions, keys);
    &&& forall|i: int| 0 <= i < keys.len() ==> periodic(nodes, directions, #[trigger] keys[i])
    &&& forall|k: int| 0 <= k < choices(lists) ==> foldable(#[trigger] combination(lists, k))
    &&& forall|k: int|
        0 <= k < choices(lists) ==> match #[trigger] meeting(lists, k) {
            Some(c) => c.start < isize::MAX,
            None => true,
        }
    &&& exists|k: int| 0 <= k < choices(lists) && (#[trigger] meeting(lists, k)) is Some
}

/// `r` is the step after the earliest start of a cycle in which the cycles
/// of one choice meet.
pub open spec fn earliest(lists: Seq<Seq<Cycle>>, r: int) -> bool {
    &&& exists|k: int|
        0 <= k < choices(lists) && #[trigger] meeting(lists, k) == Some(
            Cycle { start: (r - 1) as isize, period: meeting(lists, k).unwrap().period },
        )
    &&& forall|k: int|
        0 <= k < choices(lists) ==> match #[trigger] meeting(lists, k) {
            Some(c) => r <= c.start + 1,
            None => true,
        }
}

/// The step after the earliest start of a cycle in which the walks from
/// all nodes whose names end in `A` meet: one cycle of each walk is chosen,
/// the chosen cycles are merged, and of all choices whose cycles meet the
/// earliest counts.
pub fn part2(data: Data) -> (r: isize)
    requires
        ghostly(data.nodes@, data.directions@),
    ensures
        earliest(
            rounds(data.nodes@, data.directions@, starts(data.nodes@, data.nodes@.len() as int)),
            r as int,
        ),
{
    let ghost keys = starts(data.nodes@, data.nodes@.len() as int);
    let ghost lists = rounds(data.nodes@, data.directions@, keys);
    let mut found: Vec<Vec<Cycle>> = Vec::new();
    let mut i: usize = 0;
    while i < data.nodes.len()
        invariant
            i <= data.nodes.len(),
            keys == starts(data.nodes@, data.nodes@.len() as int),
            ghostly(data.nodes@, data.directions@),
            found@.len() == starts(data.nodes@, i as int).len(),
            starts(data.nodes@, i as int) == keys.take(found@.len() as int),
            found@.len() <= keys.len(),
            rows(found@) == rounds(data.nodes@, data.directions@, starts(data.nodes@, i as int)),
        decreases data.nodes.len() - i,
    {
        proof {
            lemma_starts_prefix(data.nodes@, i + 1, data.nodes@.len() as int);
        }
        if start_node(&data.nodes[i].0) && is_last(&data.nodes, i) {
            proof {
                let m = found@.len() as int;
                assert(starts(data.nodes@, i + 1).len() == m + 1);
                assert(keys.take(m + 1)[m] == keys[m]);
                assert(keys[m] == data.nodes@[i as int].0);
                assert(periodic(data.nodes@, data.directions@, keys[m]));
            }
            let ghost before = rows(found@);
            let cycles = periods(data.nodes[i].0, &data);
            found.push(cycles);
            proof {
                assert(rows(found@) =~= rounds(
                    data.nodes@,
                    data.directions@,
                    starts(data.nodes@, i + 1),
                )) by {
                    assert forall|j: int| 0 <= j < found@.len() implies rows(found@)[j] == rounds(
                        data.nodes@,
                        data.directions@,
                        starts(data.nodes@, i + 1),
                    )[j] by {
                        if j < found@.len() - 1 {
                            assert(rows(found@)[j] == before[j]);
                        }
                    }
                }
            }
        }
        i += 1;
    }
    proof {
        lemma_starts_prefix(data.nodes@, data.nodes@.len() as int, data.nodes@.len() as int);
        assert(keys.take(keys.len() as int) =~= keys);
        assert(rows(found@) == lists);
    }
    let all = product(found);
    let mut best: Option<isize> = None;
    let mut k: usize = 0;
    while k < all.len()
        invariant
            k <= all.len(),
            all@.len() == choices(lists),
            keys == starts(data.nodes@, data.nodes@.len() as int),
            lists == rounds(data.nodes@, data.directions@, keys),
            ghostly(data.nodes@, data.directions@),
            forall|j: int| 0 <= j < all@.len() ==> (#[trigger] all@[j])@ == combination(lists, j),
            match best {
                Some(b) => {
                    &&& exists|j: int|
                        0 <= j < k && #[trigger] meeting(lists, j) == Some(
                            Cycle { start: b, period: meeting(lists, j).unwrap().period },
                        )
                    &&& forall|j: int|
                        0 <= j < k ==> match #[trigger] meeting(lists, j) {
                            Some(c) => b <= c.start,
                            None => true,
                        }
                },
                None => forall|j: int| 0 <= j < k ==> (#[trigger] meeting(lists, j)) is None,
            },
        decreases all.len() - k,
    {
        proof {
            assert(all@[k as int]@ == combination(lists, k as int));
            assert(foldable(combination(lists, k as int)));
            assert(lists.len() >= 1);
        }
        match merge_all(&all[k]) {
            Some(c) => {
                let better = match best {
                    Some(b) => c.start < b,
                    None => true,
                };
                proof {
                    assert(meeting(lists, k as int) == Some(
                        Cycle { start: c.start, period: meeting(lists, k as int).unwrap().period },
                    ));
                }
                if better {
                    best = Some(c.start);
                }
            },
            None => {},
        }
        k += 1;
    }
    match best {
        Some(b) => {
            proof {
                let j = choose|j: int|
                    0 <= j < k && #[trigger] meeting(lists, j) == Some(
                        Cycle { start: b, period: meeting(lists, j).unwrap().period },
                    );
                assert(meeting(lists, j) is Some);
            }
            b + 1
        },
        None => {
            proof {
                let j = choose|j: int| 0 <= j < choices(lists) && (#[trigger] meeting(lists, j)) is Some;
                assert(meeting(lists, j) is None);
            }
            0
        },
    }
}

/// The starts among fewer entries are the first of the starts among more.
pub proof fn lemma_starts_prefix(nodes: Seq<(Node, (Node, Node))>, n: int, m: int)
    requires
        0 <= n <= m,
    ensures
        starts(nodes, n).len() <= starts(nodes, m).len(),
        starts(nodes, n) == starts(nodes, m).take(starts(nodes, n).len() as int),
    decreases m - n,
{
    if n < m {
        lemma_starts_prefix(nodes, n, m - 1);
        let a = starts(nodes, n);
        let b = starts(nodes, m - 1);
        assert(a =~= starts(nodes, m).take(a.len() as int));
    } else {
        assert(starts(nodes, n) =~= starts(nodes, n).take(starts(nodes, n).len() as int));
    }
}

} // verus!
