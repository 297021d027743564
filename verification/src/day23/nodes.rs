//! The graph of a maze: its edges, indexed by the coordinate where each
//! begins and by the coordinate where each ends.
use crate::day23::grid::{
    advance, all_around, neighbour, passable, same, traversible, Coord, Dir, Grid, Scanner,
};
use vstd::prelude::*;

verus! {

/// A walk of `length` steps from `start`, leaving it in direction `dir`, to
/// `end`, arriving there in direction `enddir`.
#[derive(Clone, Copy, Debug, PartialEq, Eq)]
pub struct Edge {
    pub start: Coord,
    pub end: Coord,
    pub enddir: Dir,
    pub dir: Dir,
    pub length: usize,
}

/// Whether two edges are the same.
pub fn same_edge(a: Edge, b: Edge) -> (r: bool)
    ensures
        r == (a == b),
{
    same(a.start, b.start) && same(a.end, b.end) && a.enddir == b.enddir && a.dir == b.dir
        && a.length == b.length
}

/// Edges filed under coordinates. No pair occurs twice where the index is
/// kept by [`insert_one`] and [`remove_one`].
pub type Index = Vec<(Coord, Edge)>;

/// The sum of the lengths of the edges in an index.
pub open spec fn total(s: Seq<(Coord, Edge)>) -> int
    decreases s.len(),
{
    if s.len() == 0 {
        0
    } else {
        total(s.drop_last()) + s.last().1.length as int
    }
}

pub proof fn lemma_total_push(s: Seq<(Coord, Edge)>, p: (Coord, Edge))
    ensures
        total(s.push(p)) == total(s) + p.1.length,
{
    assert(s.push(p).drop_last() =~= s);
}

pub proof fn lemma_total_remove(s: Seq<(Coord, Edge)>, i: int)
    requires
        0 <= i < s.len(),
    ensures
        total(s.remove(i)) == total(s) - s[i].1.length,
    decreases s.len(),
{
    if i == s.len() - 1 {
        assert(s.remove(i) =~= s.drop_last());
    } else {
        assert(s.remove(i).drop_last() =~= s.drop_last().remove(i));
        assert(s.remove(i).last() == s.last());
        lemma_total_remove(s.drop_last(), i);
    }
}

pub proof fn lemma_total_nonnegative(s: Seq<(Coord, Edge)>)
    ensures
        0 <= total(s),
    decreases s.len(),
{
    if s.len() > 0 {
        lemma_total_nonnegative(s.drop_last());
    }
}

pub proof fn lemma_total_one(s: Seq<(Coord, Edge)>, i: int)
    requires
        0 <= i < s.len(),
    ensures
        0 <= s[i].1.length <= total(s),
    decreases s.len(),
{
    lemma_total_nonnegative(s.drop_last());
    if i < s.len() - 1 {
        lemma_total_one(s.drop_last(), i);
    }
}

/// Two entries of an index are together no longer than all of it.
pub proof fn lemma_total_two(s: Seq<(Coord, Edge)>, i: int, j: int)
    requires
        0 <= i < s.len(),
        0 <= j < s.len(),
        i != j,
    ensures
        s[i].1.length + s[j].1.length <= total(s),
{
    lemma_total_remove(s, i);
    if j < i {
        assert(s.remove(i)[j] == s[j]);
        lemma_total_one(s.remove(i), j);
    } else {
        assert(s.remove(i)[j - 1] == s[j]);
        lemma_total_one(s.remove(i), j - 1);
    }
}

/// Where every edge has length one, the total is the number of entries.
pub proof fn lemma_total_unit(s: Seq<(Coord, Edge)>)
    requires
        forall|i: int| 0 <= i < s.len() ==> (#[trigger] s[i]).1.length == 1,
    ensures
        total(s) == s.len(),
    decreases s.len(),
{
    if s.len() > 0 {
        assert(s.last() == s[s.len() - 1]);
        assert forall|i: int| 0 <= i < s.drop_last().len() implies (#[trigger] s.drop_last()[i]).1.length
            == 1 by {
            assert(s.drop_last()[i] == s[i]);
        }
        lemma_total_unit(s.drop_last());
    }
}

/// Removing the one occurrence of an entry leaves the others, each once.
pub proof fn lemma_remove_no_dup(s: Seq<(Coord, Edge)>, i: int)
    requires
        0 <= i < s.len(),
        s.no_duplicates(),
    ensures
        s.remove(i).no_duplicates(),
        forall|q: (Coord, Edge)| #[trigger] s.remove(i).contains(q) <==> s.contains(q) && q != s[i],
{
    let t = s.remove(i);
    assert forall|a: int, b: int| 0 <= a < t.len() && 0 <= b < t.len() && a != b implies t[a]
        != t[b] by {
        let a2 = if a < i { a } else { a + 1 };
        let b2 = if b < i { b } else { b + 1 };
        assert(t[a] == s[a2] && t[b] == s[b2]);
    }
    assert forall|q: (Coord, Edge)| #[trigger] t.contains(q) <==> s.contains(q) && q != s[i] by {
        if t.contains(q) {
            let a = choose|a: int| 0 <= a < t.len() && t[a] == q;
            let a2 = if a < i { a } else { a + 1 };
            assert(s[a2] == q);
        }
        if s.contains(q) && q != s[i] {
            let a = choose|a: int| 0 <= a < s.len() && s[a] == q;
            let a2 = if a < i { a } else { a - 1 };
            assert(t[a2] == q);
        }
    }
}

/// The place of the first entry `(k, v)`.
pub fn position(hm: &Index, k: Coord, v: Edge) -> (r: Option<usize>)
    ensures
        match r {
            Some(i) => i < hm.len() && hm@[i as int] == (k, v),
            None => !hm@.contains((k, v)),
        },
{
    let mut i: usize = 0;
    while i < hm.len()
        invariant
            i <= hm.len(),
            forall|j: int| 0 <= j < i ==> hm@[j] != (k, v),
        decreases hm.len() - i,
    {
        if same(hm[i].0, k) && same_edge(hm[i].1, v) {
            return Some(i);
        }
        i += 1;
    }
    None
}

/// Files `v` under `k`, unless it is filed there already.
pub fn insert_one(hm: &mut Index, k: Coord, v: Edge)
    ensures
        final(hm)@ == (if old(hm)@.contains((k, v)) {
            old(hm)@
        } else {
            old(hm)@.push((k, v))
        }),
{
    match position(hm, k, v) {
        Some(_) => {},
        None => {
            hm.push((k, v));
        },
    }
}

/// Takes `v` out from under `k`, if it is filed there.
pub fn remove_one(hm: &mut Index, k: Coord, v: Edge)
    ensures
        !old(hm)@.contains((k, v)) ==> final(hm)@ == old(hm)@,
        old(hm)@.contains((k, v)) ==> exists|i: int|
            0 <= i < old(hm)@.len() && old(hm)@[i] == (k, v) && final(hm)@ == old(hm)@.remove(i),
{
    match position(hm, k, v) {
        Some(i) => {
            hm.remove(i);
        },
        None => {},
    }
}

/// The edges filed under `k`, each once where no pair occurs twice.
pub fn lookup(hm: &Index, k: Coord) -> (r: Vec<Edge>)
    ensures
        forall|e: Edge| #[trigger] r@.contains(e) <==> hm@.contains((k, e)),
        hm@.no_duplicates() ==> r@.no_duplicates(),
{
    let mut out: Vec<Edge> = Vec::new();
    let ghost mut from: Seq<int> = Seq::empty();
    let mut i: usize = 0;
    while i < hm.len()
        invariant
            i <= hm.len(),
            from.len() == out.len(),
            forall|a: int| 0 <= a < out.len() ==> 0 <= #[trigger] from[a] < i && hm@[from[a]] == (k, out@[a]),
            forall|a: int, b: int| 0 <= a < b < out.len() ==> from[a] < from[b],
            forall|j: int| 0 <= j < i && (#[trigger] hm@[j]).0 == k ==> out@.contains(hm@[j].1),
        decreases hm.len() - i,
    {
        if same(hm[i].0, k) {
            let ghost before = out@;
            out.push(hm[i].1);
            proof {
                from = from.push(i as int);
                assert forall|j: int| 0 <= j < i + 1 && (#[trigger] hm@[j]).0 == k implies out@.contains(
                    hm@[j].1,
                ) by {
                    if j < i {
                        let a = choose|a: int| 0 <= a < before.len() && before[a] == hm@[j].1;
                        assert(out@[a] == hm@[j].1);
                    } else {
                        assert(out@[out.len() - 1] == hm@[j].1);
                    }
                }
            }
        }
        i += 1;
    }
    proof {
        assert forall|e: Edge| #[trigger] out@.contains(e) <==> hm@.contains((k, e)) by {
            if out@.contains(e) {
                let a = choose|a: int| 0 <= a < out.len() && out@[a] == e;
                assert(hm@[from[a]] == (k, e));
            }
            if hm@.contains((k, e)) {
                let j = choose|j: int| 0 <= j < hm@.len() && hm@[j] == (k, e);
                assert(hm@[j].0 == k);
            }
        }
        if hm@.no_duplicates() {
            assert forall|a: int, b: int| 0 <= a < out.len() && 0 <= b < out.len() && a
                != b implies out@[a] != out@[b] by {
                assert(from[a] != from[b]) by {
                    if a < b {
                        assert(from[a] < from[b]);
                    } else {
                        assert(from[b] < from[a]);
                    }
                }
                assert(hm@[from[a]] == (k, out@[a]));
                assert(hm@[from[b]] == (k, out@[b]));
            }
        }
    }
    out
}

/// The graph: every edge is filed once under its start and once under its
/// end.
#[derive(Debug)]
pub struct Nodes {
    pub starts: Index,
    pub ends: Index,
}

impl Nodes {
    /// Whether the graph holds `e`.
    pub open spec fn has(&self, e: Edge) -> bool {
        self.starts@.contains((e.start, e))
    }

    /// The edges of the graph.
    pub open spec fn view(&self) -> Set<Edge> {
        Set::new(|e: Edge| self.has(e))
    }

    /// The two indexes hold the same edges, each once and under its own
    /// coordinate.
    pub open spec fn wf(&self) -> bool {
        &&& self.starts@.no_duplicates()
        &&& self.ends@.no_duplicates()
        &&& forall|i: int| 0 <= i < self.starts@.len() ==> (#[trigger] self.starts@[i]).0 == self.starts@[i].1.start
        &&& forall|i: int| 0 <= i < self.ends@.len() ==> (#[trigger] self.ends@[i]).0 == self.ends@[i].1.end
        &&& forall|e: Edge| #[trigger] self.starts@.contains((e.start, e)) <==> self.ends@.contains((e.end, e))
    }

    /// The sum of the lengths of all edges.
    pub open spec fn total(&self) -> int {
        total(self.starts@)
    }

    /// The lengths of all edges together fit in a machine word.
    pub open spec fn bounded(&self) -> bool {
        self.total() <= usize::MAX
    }

    /// The graph without edges.
    pub fn new() -> (n: Nodes)
        ensures
            n.wf(),
            n@ == Set::<Edge>::empty(),
            n.starts@.len() == 0,
            n.ends@.len() == 0,
    {
        let n = Nodes { starts: Vec::new(), ends: Vec::new() };
        assert(n@ =~= Set::<Edge>::empty());
        n
    }

    /// The number of edges.
    pub fn len(&self) -> (r: usize)
        ensures
            r == self.starts@.len(),
    {
        self.starts.len()
    }

    /// Whether the graph holds `e`.
    pub fn contains(&self, e: Edge) -> (r: bool)
        ensures
            r == self.has(e),
    {
        position(&self.starts, e.start, e).is_some()
    }

    /// The edges that begin at `c`, each once.
    pub fn edges_from(&self, c: Coord) -> (r: Vec<Edge>)
        requires
            self.wf(),
        ensures
            forall|e: Edge| #[trigger] r@.contains(e) <==> self.has(e) && e.start == c,
            r@.no_duplicates(),
    {
        let r = lookup(&self.starts, c);
        proof {
            assert forall|e: Edge| #[trigger] r@.contains(e) <==> self.has(e) && e.start == c by {
                if self.starts@.contains((c, e)) {
                    let i = choose|i: int| 0 <= i < self.starts@.len() && self.starts@[i] == (c, e);
                    assert(self.starts@[i].0 == self.starts@[i].1.start);
                }
            }
        }
        r
    }

    /// The edges that end at `c`, each once.
    pub fn edges_into(&self, c: Coord) -> (r: Vec<Edge>)
        requires
            self.wf(),
        ensures
            forall|e: Edge| #[trigger] r@.contains(e) <==> self.has(e) && e.end == c,
            r@.no_duplicates(),
    {
        let r = lookup(&self.ends, c);
        proof {
            assert forall|e: Edge| #[trigger] r@.contains(e) <==> self.has(e) && e.end == c by {
                if self.ends@.contains((c, e)) {
                    let i = choose|i: int| 0 <= i < self.ends@.len() && self.ends@[i] == (c, e);
                    assert(self.ends@[i].0 == self.ends@[i].1.end);
                    assert(self.ends@.contains((e.end, e)));
                }
                if self.has(e) && e.end == c {
                    assert(self.ends@.contains((e.end, e)));
                }
            }
        }
        r
    }
}

/// Adds an edge to the graph.
pub fn insert(n: &mut Nodes, v: Edge)
    requires
        old(n).wf(),
    ensures
        final(n).wf(),
        final(n)@ == old(n)@.insert(v),
        final(n).starts@ == (if old(n).has(v) {
            old(n).starts@
        } else {
            old(n).starts@.push((v.start, v))
        }),
        final(n).total() == old(n).total() + (if old(n).has(v) {
            0
        } else {
            v.length as int
        }),
{
    let ghost before = *n;
    insert_one(&mut n.starts, v.start, v);
    insert_one(&mut n.ends, v.end, v);
    proof {
        assert(before.starts@.contains((v.start, v)) <==> before.ends@.contains((v.end, v)));
        if !before.has(v) {
            lemma_total_push(before.starts@, (v.start, v));
            let s = n.starts@;
            let t = n.ends@;
            assert forall|p: (Coord, Edge)| #[trigger] s.contains(p) <==> before.starts@.contains(p) || p == (
                v.start,
                v,
            ) by {
                if s.contains(p) {
                    let i = choose|i: int| 0 <= i < s.len() && s[i] == p;
                    if i < before.starts@.len() {
                        assert(before.starts@[i] == p);
                    }
                }
                if before.starts@.contains(p) {
                    let i = choose|i: int| 0 <= i < before.starts@.len() && before.starts@[i] == p;
                    assert(s[i] == p);
                }
                assert(s[s.len() - 1] == (v.start, v));
            }
            assert forall|p: (Coord, Edge)| #[trigger] t.contains(p) <==> before.ends@.contains(p) || p == (
                v.end,
                v,
            ) by {
                if t.contains(p) {
                    let i = choose|i: int| 0 <= i < t.len() && t[i] == p;
                    if i < before.ends@.len() {
                        assert(before.ends@[i] == p);
                    }
                }
                if before.ends@.contains(p) {
                    let i = choose|i: int| 0 <= i < before.ends@.len() && before.ends@[i] == p;
                    assert(t[i] == p);
                }
                assert(t[t.len() - 1] == (v.end, v));
            }
            assert forall|e: Edge| #[trigger] s.contains((e.start, e)) <==> t.contains((e.end, e)) by {
                assert(before.starts@.contains((e.start, e)) <==> before.ends@.contains((e.end, e)));
            }
        }
        assert(n@ =~= before@.insert(v));
    }
}

/// Takes an edge out of the graph.
pub fn remove(n: &mut Nodes, v: Edge)
    requires
        old(n).wf(),
    ensures
        final(n).wf(),
        final(n)@ == old(n)@.remove(v),
        final(n).starts@.len() == old(n).starts@.len() - (if old(n).has(v) {
            1int
        } else {
            0
        }),
        final(n).total() == old(n).total() - (if old(n).has(v) {
            v.length as int
        } else {
            0
        }),
{
    let ghost before = *n;
    remove_one(&mut n.starts, v.start, v);
    remove_one(&mut n.ends, v.end, v);
    proof {
        assert(before.starts@.contains((v.start, v)) <==> before.ends@.contains((v.end, v)));
        if before.has(v) {
            let i = choose|i: int|
                0 <= i < before.starts@.len() && before.starts@[i] == (v.start, v) && n.starts@
                    == before.starts@.remove(i);
            let j = choose|j: int|
                0 <= j < before.ends@.len() && before.ends@[j] == (v.end, v) && n.ends@
                    == before.ends@.remove(j);
            lemma_total_remove(before.starts@, i);
            lemma_remove_no_dup(before.starts@, i);
            lemma_remove_no_dup(before.ends@, j);
            let s = n.starts@;
            let t = n.ends@;
            assert forall|a: int| 0 <= a < s.len() implies (#[trigger] s[a]).0 == s[a].1.start by {
                let a2 = if a < i { a } else { a + 1 };
                assert(s[a] == before.starts@[a2]);
            }
            assert forall|a: int| 0 <= a < t.len() implies (#[trigger] t[a]).0 == t[a].1.end by {
                let a2 = if a < j { a } else { a + 1 };
                assert(t[a] == before.ends@[a2]);
            }
            assert forall|e: Edge| #[trigger] s.contains((e.start, e)) <==> t.contains((e.end, e)) by {
                assert(before.starts@.contains((e.start, e)) <==> before.ends@.contains((e.end, e)));
            }
        }
        assert(n@ =~= before@.remove(v));
    }
}

/// The graph cannot be built: the entrance or the exit of the maze has no
/// neighbour to walk to or from.
#[derive(Clone, Copy, Debug, PartialEq, Eq, Structural)]
pub enum GraphError {
    Isolated,
}

/// `e` is one step of the grid: from a tile to its neighbour in direction
/// `e.dir`, both of which may be walked in that direction.
pub open spec fn hop(m: &Grid, e: Edge) -> bool {
    &&& e.length == 1
    &&& e.enddir == e.dir
    &&& m.inside(e.start)
    &&& neighbour(e.dir, e.start, m.size) == Some(e.end)
    &&& passable(m.at(e.start), e.dir)
    &&& passable(m.at(e.end), e.dir)
}

/// `c` lies in the row or column that the scanner looks along.
pub open spec fn on_line(s: Scanner, c: Coord) -> bool {
    match s.dir {
        Dir::Left | Dir::Right => c.1 == s.coord.1,
        Dir::Up | Dir::Down => c.0 == s.coord.0,
    }
}

/// The scanner stands on the border of the grid and looks across it.
pub open spec fn border_scanner(size: Coord, s: Scanner) -> bool {
    &&& s.coord.0 < size.0
    &&& s.coord.1 < size.1
    &&& match s.dir {
        Dir::Left => s.coord.0 == size.0 - 1,
        Dir::Right => s.coord.0 == 0,
        Dir::Up => s.coord.1 == size.1 - 1,
        Dir::Down => s.coord.1 == 0,
    }
}

/// How far `c` lies from the scanner in the scanner's direction.
pub open spec fn distance(s: Scanner, c: Coord) -> int {
    match s.dir {
        Dir::Left => s.coord.0 - c.0,
        Dir::Right => c.0 - s.coord.0,
        Dir::Up => s.coord.1 - c.1,
        Dir::Down => c.1 - s.coord.1,
    }
}

/// Every edge has length one.
pub open spec fn unit(s: Seq<(Coord, Edge)>) -> bool {
    forall|i: int| 0 <= i < s.len() ==> (#[trigger] s[i]).1.length == 1
}

/// Adds the steps of the grid that lie on the scanner's line and go in its
/// direction.
pub fn find_pairs(m: &Grid, initial: Scanner, acc: &mut Nodes)
    requires
        m.wf(),
        old(acc).wf(),
        unit(old(acc).starts@),
        border_scanner(m.size, initial),
    ensures
        final(acc).wf(),
        unit(final(acc).starts@),
        forall|e: Edge|
            final(acc).has(e) <==> old(acc).has(e) || (hop(m, e) && e.dir == initial.dir && on_line(
                initial,
                e.start,
            )),
{
    let ghost pre = *acc;
    let mut last = initial;
    let mut current = match advance(initial, m) {
        Some(c) => c,
        None => {
            return ;
        },
    };
    let ghost mut k: int = 0;
    loop
        invariant_except_break
            last.dir == initial.dir,
            current.dir == initial.dir,
            m.inside(last.coord),
            on_line(initial, last.coord),
            distance(initial, last.coord) == k,
            0 <= k < m.size.0 + m.size.1,
            neighbour(initial.dir, last.coord, m.size) == Some(current.coord),
            forall|e: Edge|
                acc.has(e) <==> pre.has(e) || (hop(m, e) && e.dir == initial.dir && on_line(
                    initial,
                    e.start,
                ) && distance(initial, e.start) < k),
        invariant
            m.wf(),
            acc.wf(),
            unit(acc.starts@),
            border_scanner(m.size, initial),
        ensures
            forall|e: Edge|
                acc.has(e) <==> pre.has(e) || (hop(m, e) && e.dir == initial.dir && on_line(
                    initial,
                    e.start,
                )),
        decreases m.size.0 + m.size.1 - k,
    {
        let ghost mid = *acc;
        let step = Edge {
            start: last.coord,
            end: current.coord,
            dir: initial.dir,
            enddir: initial.dir,
            length: 1,
        };
        if traversible(m, current) && traversible(m, last) {
            insert(acc, step);
        }
        proof {
            assert forall|e: Edge|
                acc.has(e) <==> pre.has(e) || (hop(m, e) && e.dir == initial.dir && on_line(
                    initial,
                    e.start,
                ) && distance(initial, e.start) < k + 1) by {
                assert(acc@.contains(e) == acc.has(e));
                assert(mid@.contains(e) == mid.has(e));
                if hop(m, e) && e.dir == initial.dir && on_line(initial, e.start) && distance(
                    initial,
                    e.start,
                ) == k {
                    assert(e.start == last.coord);
                    assert(e == step);
                }
            }
        }
        match advance(current, m) {
            Some(next) => {
                last = current;
                current = next;
                proof {
                    k = k + 1;
                }
            },
            None => {
                proof {
                    assert forall|e: Edge|
                        hop(m, e) && e.dir == initial.dir && on_line(
                            initial,
                            e.start,
                        ) implies distance(initial, e.start) < k + 1 by {}
                }
                break ;
            },
        }
    }
}

/// The place among the border scanners of the one that looks along the line
/// of `c` in direction `d`.
pub open spec fn scanner_of(size: Coord, d: Dir, c: Coord) -> int {
    match d {
        Dir::Left => c.1 as int,
        Dir::Right => size.1 + c.1,
        Dir::Up => 2 * size.1 + c.0,
        Dir::Down => 2 * size.1 + size.0 + c.0,
    }
}

/// The entrance and the exit differ, and no step leaves the entrance or none
/// arrives at the exit.
pub open spec fn isolated(m: &Grid) -> bool {
    &&& m.start != m.end
    &&& ((forall|e: Edge| hop(m, e) ==> e.start != m.start) || (forall|e: Edge|
        hop(m, e) ==> e.end != m.end))
}

/// The graph of all single steps of the maze.
pub fn get_nodes(m: &Grid) -> (r: Result<Nodes, GraphError>)
    requires
        m.wf(),
    ensures
        match r {
            Ok(n) => {
                &&& n.wf()
                &&& n.bounded()
                &&& unit(n.starts@)
                &&& forall|e: Edge| n.has(e) <==> hop(m, e)
                &&& !isolated(m)
            },
            Err(_) => isolated(m),
        },
{
    let scanners = all_around(m);
    let mut acc = Nodes::new();
    let mut i: usize = 0;
    while i < scanners.len()
        invariant
            i <= scanners.len(),
            m.wf(),
            acc.wf(),
            unit(acc.starts@),
            scanners@ == crate::day23::grid::border_scanners(m.size),
            forall|e: Edge|
                acc.has(e) <==> hop(m, e) && scanner_of(m.size, e.dir, e.start) < i,
        decreases scanners.len() - i,
    {
        let ghost mid = acc;
        let s = scanners[i];
        find_pairs(m, s, &mut acc);
        proof {
            assert forall|e: Edge|
                acc.has(e) <==> hop(m, e) && scanner_of(m.size, e.dir, e.start) < i + 1 by {
                if hop(m, e) {
                    let j = scanner_of(m.size, e.dir, e.start);
                    assert(scanners@[j].dir == e.dir && on_line(scanners@[j], e.start));
                    if e.dir == s.dir && on_line(s, e.start) {
                        assert(j == i);
                    }
                }
            }
        }
        i += 1;
    }
    let count = acc.len();
    proof {
        lemma_total_unit(acc.starts@);
        assert(acc.bounded());
        assert forall|e: Edge| acc.has(e) <==> hop(m, e) by {
            if hop(m, e) {
                assert(scanner_of(m.size, e.dir, e.start) < scanners.len());
            }
        }
    }
    if !same(m.start, m.end) {
        let leaving = acc.edges_from(m.start);
        let arriving = acc.edges_into(m.end);
        if leaving.len() == 0 {
            proof {
                assert forall|e: Edge| hop(m, e) implies e.start != m.start by {
                    if e.start == m.start {
                        assert(leaving@.contains(e));
                    }
                }
            }
            return Err(GraphError::Isolated);
        }
        if arriving.len() == 0 {
            proof {
                assert forall|e: Edge| hop(m, e) implies e.end != m.end by {
                    if e.end == m.end {
                        assert(arriving@.contains(e));
                    }
                }
            }
            return Err(GraphError::Isolated);
        }
        proof {
            assert(leaving@.contains(leaving@[0]));
            assert(arriving@.contains(arriving@[0]));
            assert(hop(m, leaving@[0]) && leaving@[0].start == m.start);
            assert(hop(m, arriving@[0]) && arriving@[0].end == m.end);
            assert(!isolated(m));
        }
    }
    assert(!isolated(m));
    Ok(acc)
}

} // verus!
