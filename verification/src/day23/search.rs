//! The search for the longest simple path through the graph.
use crate::day23::grid::{same, Coord, Grid};
use crate::day23::nodes::{lemma_total_nonnegative, total, Edge, Nodes};
use itertools::Itertools;
use vstd::prelude::*;

verus! {

/// `p` leads from `from` to `to` along edges of `g`, each beginning where
/// the one before it ended, and enters no coordinate of `closed`.
pub open spec fn walk(g: Set<Edge>, p: Seq<Edge>, from: Coord, to: Coord, closed: Set<Coord>) -> bool
    decreases p.len(),
{
    if p.len() == 0 {
        from == to
    } else {
        &&& g.contains(p[0])
        &&& p[0].start == from
        &&& !closed.contains(p[0].end)
        &&& walk(g, p.drop_first(), p[0].end, to, closed)
    }
}

/// `p` is a walk from `from` to `to` that enters no coordinate of `closed`
/// and none twice: a simple path, where `closed` holds `from`.
pub open spec fn path(g: Set<Edge>, p: Seq<Edge>, from: Coord, to: Coord, closed: Set<Coord>) -> bool
    decreases p.len(),
{
    if p.len() == 0 {
        from == to
    } else {
        &&& g.contains(p[0])
        &&& p[0].start == from
        &&& !closed.contains(p[0].end)
        &&& path(g, p.drop_first(), p[0].end, to, closed.insert(p[0].end))
    }
}

/// The number of steps of a walk.
pub open spec fn steps(p: Seq<Edge>) -> int
    decreases p.len(),
{
    if p.len() == 0 {
        0
    } else {
        p[0].length + steps(p.drop_first())
    }
}

/// `r` is `base` more than the length of the longest simple path from
/// `from` to `to` that stays out of `closed`, or nothing if there is no such
/// path.
pub open spec fn longest(
    g: Set<Edge>,
    from: Coord,
    to: Coord,
    closed: Set<Coord>,
    base: int,
    r: Option<usize>,
) -> bool {
    &&& r matches Some(m) ==> exists|p: Seq<Edge>|
        path(g, p, from, to, closed) && m == base + steps(p)
    &&& forall|p: Seq<Edge>| #[trigger]
        path(g, p, from, to, closed) ==> r is Some && base + steps(p) <= r.unwrap()
}

/// The search has one answer: whatever two searches of one graph report as
/// the longest path, in whatever order they took the edges and whether or
/// not they left out branches that cannot reach the goal, they report the
/// same.
pub proof fn lemma_longest_is_unique(
    g: Set<Edge>,
    from: Coord,
    to: Coord,
    closed: Set<Coord>,
    base: int,
    a: Option<usize>,
    b: Option<usize>,
)
    requires
        longest(g, from, to, closed, base, a),
        longest(g, from, to, closed, base, b),
    ensures
        a == b,
{
    if let Some(m) = a {
        let p = choose|p: Seq<Edge>| path(g, p, from, to, closed) && m == base + steps(p);
        assert(path(g, p, from, to, closed));
    }
    if let Some(m) = b {
        let p = choose|p: Seq<Edge>| path(g, p, from, to, closed) && m == base + steps(p);
        assert(path(g, p, from, to, closed));
    }
}

/// A simple path to a closed coordinate has no step: it is already there.
pub proof fn lemma_path_to_closed(g: Set<Edge>, p: Seq<Edge>, from: Coord, to: Coord, closed: Set<Coord>)
    requires
        path(g, p, from, to, closed),
        closed.contains(to),
    ensures
        p.len() == 0,
    decreases p.len(),
{
    if p.len() > 0 {
        lemma_path_to_closed(g, p.drop_first(), p[0].end, to, closed.insert(p[0].end));
    }
}

/// A simple path is a walk, also past fewer closed coordinates.
pub proof fn lemma_path_is_walk(
    g: Set<Edge>,
    p: Seq<Edge>,
    from: Coord,
    to: Coord,
    closed: Set<Coord>,
    fewer: Set<Coord>,
)
    requires
        path(g, p, from, to, closed),
        fewer.subset_of(closed),
    ensures
        walk(g, p, from, to, fewer),
    decreases p.len(),
{
    if p.len() > 0 {
        lemma_path_is_walk(g, p.drop_first(), p[0].end, to, closed.insert(p[0].end), fewer);
    }
}

/// A walk with one more edge at its end is a walk.
pub proof fn lemma_walk_extend(
    g: Set<Edge>,
    p: Seq<Edge>,
    from: Coord,
    mid: Coord,
    closed: Set<Coord>,
    e: Edge,
)
    requires
        walk(g, p, from, mid, closed),
        g.contains(e),
        e.start == mid,
        !closed.contains(e.end),
    ensures
        walk(g, p.push(e), from, e.end, closed),
    decreases p.len(),
{
    if p.len() == 0 {
        assert(p.push(e).drop_first() =~= Seq::<Edge>::empty());
        assert(walk(g, p.push(e).drop_first(), e.end, e.end, closed));
    } else {
        lemma_walk_extend(g, p.drop_first(), p[0].end, mid, closed, e);
        assert(p.push(e).drop_first() =~= p.drop_first().push(e));
    }
}

/// Some walk leads from `from` to `to` without entering `closed`.
pub open spec fn linked(g: Set<Edge>, from: Coord, to: Coord, closed: Set<Coord>) -> bool {
    exists|p: Seq<Edge>| walk(g, p, from, to, closed)
}

/// `seen` holds the end of every edge that begins in it, but for ends in
/// `closed`.
pub open spec fn saturated(g: Set<Edge>, seen: Set<Coord>, closed: Set<Coord>) -> bool {
    forall|e: Edge|
        g.contains(e) && seen.contains(e.start) && !closed.contains(e.end) ==> seen.contains(e.end)
}

/// A walk that begins in a saturated set ends in it.
pub proof fn lemma_walk_stays(
    g: Set<Edge>,
    p: Seq<Edge>,
    from: Coord,
    to: Coord,
    closed: Set<Coord>,
    seen: Set<Coord>,
)
    requires
        walk(g, p, from, to, closed),
        saturated(g, seen, closed),
        seen.contains(from),
    ensures
        seen.contains(to),
    decreases p.len(),
{
    if p.len() > 0 {
        lemma_walk_stays(g, p.drop_first(), p[0].end, to, closed, seen);
    }
}

/// The number of entries whose edge ends outside `closed`.
pub open spec fn open_count(s: Seq<(Coord, Edge)>, closed: Set<Coord>) -> int
    decreases s.len(),
{
    if s.len() == 0 {
        0
    } else {
        open_count(s.drop_last(), closed) + if closed.contains(s.last().1.end) {
            0int
        } else {
            1
        }
    }
}

/// The lengths together of the entries whose edge ends outside `closed`.
pub open spec fn open_length(s: Seq<(Coord, Edge)>, closed: Set<Coord>) -> int
    decreases s.len(),
{
    if s.len() == 0 {
        0
    } else {
        open_length(s.drop_last(), closed) + if closed.contains(s.last().1.end) {
            0int
        } else {
            s.last().1.length as int
        }
    }
}

pub proof fn lemma_open_bounds(s: Seq<(Coord, Edge)>, closed: Set<Coord>)
    ensures
        0 <= open_count(s, closed),
        0 <= open_length(s, closed) <= total(s),
    decreases s.len(),
{
    if s.len() > 0 {
        lemma_open_bounds(s.drop_last(), closed);
    }
}

/// Closing one more coordinate opens nothing.
pub proof fn lemma_open_grow(s: Seq<(Coord, Edge)>, closed: Set<Coord>, x: Coord)
    ensures
        open_count(s, closed.insert(x)) <= open_count(s, closed),
        open_length(s, closed.insert(x)) <= open_length(s, closed),
    decreases s.len(),
{
    if s.len() > 0 {
        lemma_open_grow(s.drop_last(), closed, x);
    }
}

/// Closing the end of an edge that was open takes that edge out of the
/// count and its length out of the sum.
pub proof fn lemma_open_step(s: Seq<(Coord, Edge)>, closed: Set<Coord>, i: int)
    requires
        0 <= i < s.len(),
        !closed.contains(s[i].1.end),
    ensures
        open_count(s, closed.insert(s[i].1.end)) < open_count(s, closed),
        open_length(s, closed.insert(s[i].1.end)) + s[i].1.length <= open_length(s, closed),
    decreases s.len(),
{
    let x = s[i].1.end;
    if i == s.len() - 1 {
        lemma_open_grow(s.drop_last(), closed, x);
    } else {
        assert(s.drop_last()[i] == s[i]);
        lemma_open_step(s.drop_last(), closed, i);
    }
}

/// Whether `v` holds `c`.
pub fn holds(v: &Vec<Coord>, c: Coord) -> (r: bool)
    ensures
        r == v@.contains(c),
{
    let mut i: usize = 0;
    while i < v.len()
        invariant
            i <= v.len(),
            forall|j: int| 0 <= j < i ==> v@[j] != c,
        decreases v.len() - i,
    {
        if same(v[i], c) {
            return true;
        }
        i += 1;
    }
    false
}

/// Whether the target can be reached from `current` by a walk that enters
/// no forbidden coordinate.
pub fn reachable(n: &Nodes, target: Coord, forbidden: &Vec<Coord>, current: Coord) -> (r: bool)
    requires
        n.wf(),
    ensures
        r <==> linked(n@, current, target, forbidden@.to_set()),
{
    let ghost closed = forbidden@.to_set();
    if same(current, target) {
        assert(walk(n@, Seq::<Edge>::empty(), current, target, closed));
        assert(linked(n@, current, target, closed));
        return true;
    }
    let mut visited: Vec<Coord> = Vec::new();
    visited.push(current);
    let ghost mut seen: Set<Coord> = closed.insert(current);
    let mut head: usize = 0;
    proof {
        assert(walk(n@, Seq::<Edge>::empty(), current, current, closed));
        assert(linked(n@, current, current, closed));
        assert(visited@ =~= seq![current]);
        assert(visited@[0] == current);
        assert forall|c: Coord| seen.contains(c) <==> closed.contains(c) || visited@.contains(c) by {
            if visited@.contains(c) {
                let a = choose|a: int| 0 <= a < visited@.len() && visited@[a] == c;
            }
        }
        lemma_open_bounds(n.starts@, seen);
    }
    while head < visited.len()
        invariant
            n.wf(),
            closed == forbidden@.to_set(),
            head <= visited.len(),
            visited.len() >= 1,
            visited@[0] == current,
            forall|c: Coord| seen.contains(c) <==> closed.contains(c) || visited@.contains(c),
            forall|a: int|
                0 <= a < visited.len() ==> linked(n@, current, #[trigger] visited@[a], closed),
            forall|a: int| 0 <= a < visited.len() ==> visited@[a] != target,
            forall|a: int, e: Edge|
                0 <= a < head && n@.contains(e) && e.start == #[trigger] visited@[a]
                    && !closed.contains(e.end) ==> visited@.contains(#[trigger] e.end),
            0 <= open_count(n.starts@, seen),
        decreases 2 * open_count(n.starts@, seen) + visited.len() - head,
    {
        let here = visited[head];
        let children = n.edges_from(here);
        let ghost seen0 = seen;
        let ghost len0 = visited.len();
        let mut i: usize = 0;
        while i < children.len()
            invariant
                n.wf(),
                closed == forbidden@.to_set(),
                i <= children.len(),
                head < visited.len(),
                len0 <= visited.len(),
                visited@[head as int] == here,
                visited@[0] == current,
                forall|e: Edge| #[trigger] children@.contains(e) <==> n.has(e) && e.start == here,
                forall|c: Coord| seen.contains(c) <==> closed.contains(c) || visited@.contains(c),
                forall|a: int|
                    0 <= a < visited.len() ==> linked(n@, current, #[trigger] visited@[a], closed),
                forall|a: int| 0 <= a < visited.len() ==> visited@[a] != target,
                forall|a: int, e: Edge|
                    0 <= a < head && n@.contains(e) && e.start == #[trigger] visited@[a]
                        && !closed.contains(e.end) ==> visited@.contains(#[trigger] e.end),
                forall|b: int|
                    0 <= b < i && !closed.contains(children@[b].end) ==> visited@.contains(
                        #[trigger] children@[b].end,
                    ),
                0 <= open_count(n.starts@, seen),
                2 * open_count(n.starts@, seen) + visited.len() <= 2 * open_count(n.starts@, seen0)
                    + len0,
            decreases children.len() - i,
        {
            let e = children[i];
            let x = e.end;
            assert(children@.contains(e));
            assert(n@.contains(e));
            if !holds(forbidden, x) && !holds(&visited, x) {
                proof {
                    assert(linked(n@, current, visited@[head as int], closed));
                    let p = choose|p: Seq<Edge>| walk(n@, p, current, visited@[head as int], closed);
                    lemma_walk_extend(n@, p, current, here, closed, e);
                    assert(walk(n@, p.push(e), current, x, closed));
                    assert(linked(n@, current, x, closed));
                }
                if same(x, target) {
                    return true;
                }
                let ghost before = visited@;
                visited.push(x);
                proof {
                    let k = choose|k: int|
                        0 <= k < n.starts@.len() && n.starts@[k] == (e.start, e);
                    assert(!seen.contains(x));
                    lemma_open_step(n.starts@, seen, k);
                    lemma_open_bounds(n.starts@, seen.insert(x));
                    seen = seen.insert(x);
                    assert forall|c: Coord| visited@.contains(c) <==> before.contains(c) || c
                        == x by {
                        if before.contains(c) {
                            let a = choose|a: int| 0 <= a < before.len() && before[a] == c;
                            assert(visited@[a] == c);
                        }
                        assert(visited@[visited.len() - 1] == x);
                    }
                    assert forall|a: int| 0 <= a < visited.len() implies linked(
                        n@,
                        current,
                        #[trigger] visited@[a],
                        closed,
                    ) by {
                        if a < before.len() {
                            assert(visited@[a] == before[a]);
                        }
                    }
                }
            }
            i += 1;
        }
        proof {
            assert forall|a: int, e: Edge|
                0 <= a < head + 1 && n@.contains(e) && e.start == #[trigger] visited@[a]
                    && !closed.contains(e.end) implies visited@.contains(#[trigger] e.end) by {
                if a == head {
                    assert(children@.contains(e));
                    let b = choose|b: int| 0 <= b < children@.len() && children@[b] == e;
                    assert(visited@.contains(children@[b].end));
                }
            }
        }
        head += 1;
    }
    proof {
        let reach = visited@.to_set();
        assert forall|e: Edge|
            n@.contains(e) && reach.contains(e.start) && !closed.contains(
                e.end,
            ) implies reach.contains(e.end) by {
            let a = choose|a: int| 0 <= a < visited@.len() && visited@[a] == e.start;
            assert(visited@.contains(e.end));
        }
        assert(saturated(n@, reach, closed));
        assert(reach.contains(current));
        if linked(n@, current, target, closed) {
            let p = choose|p: Seq<Edge>| walk(n@, p, current, target, closed);
            lemma_walk_stays(n@, p, current, target, closed, reach);
            let a = choose|a: int| 0 <= a < visited@.len() && visited@[a] == target;
        }
    }
    false
}

/// The edges ordered by length, shortest first. Calls itertools'
/// `Itertools::sorted_by_key` with the length as key, which the crate
/// documents as a stable sort in ascending order: the result holds the same
/// edges as often, no longer edge stands before a shorter one, and edges of
/// one length keep their order.
#[verifier::external_body]
fn by_length(v: Vec<Edge>) -> (r: Vec<Edge>)
    ensures
        r@.to_multiset() == v@.to_multiset(),
        forall|i: int, j: int| 0 <= i <= j < r@.len() ==> r@[i].length <= r@[j].length,
        forall|i: int, j: int|
            0 <= i < j < v@.len() && v@[i].length == v@[j].length ==> exists|a: int, b: int|
                0 <= a < b < r@.len() && r@[a] == v@[i] && r@[b] == v@[j],
{
    v.into_iter().sorted_by_key(|x| x.length).collect()
}

/// The edges that leave `current`, each once, the shortest first: the
/// search takes them from the end, so that it comes by long ways early.
pub fn ways_on(n: &Nodes, current: Coord) -> (r: Vec<Edge>)
    requires
        n.wf(),
    ensures
        forall|e: Edge| #[trigger] r@.contains(e) <==> n.has(e) && e.start == current,
        r@.no_duplicates(),
        forall|i: int, j: int| 0 <= i <= j < r@.len() ==> r@[i].length <= r@[j].length,
{
    let leaving = n.edges_from(current);
    let children = by_length(leaving);
    proof {
        assert forall|e: Edge| #[trigger] children@.contains(e) <==> n.has(e) && e.start == current by {
            vstd::seq_lib::to_multiset_contains(children@, e);
            vstd::seq_lib::to_multiset_contains(leaving@, e);
        }
        leaving@.lemma_multiset_has_no_duplicates();
        children@.lemma_multiset_has_no_duplicates_conv();
    }
    children
}

/// The larger of two results, where nothing is less than any number.
pub fn better(a: Option<usize>, b: Option<usize>) -> (r: Option<usize>)
    ensures
        r == match (a, b) {
            (Some(x), Some(y)) => Some(if x >= y { x } else { y }),
            (Some(x), None) => Some(x),
            (None, y) => y,
        },
{
    match (a, b) {
        (Some(x), Some(y)) => Some(if x >= y { x } else { y }),
        (Some(x), None) => Some(x),
        (None, y) => y,
    }
}

/// The longest way on from `current`, which has taken `len` steps to reach,
/// to the target: explores the edges that leave `current`, longest first,
/// and with `prune` leaves out those from whose end the target can no longer
/// be reached. The forbidden coordinates are those that the way has entered;
/// they are the same after the call.
pub fn rec_part(
    n: &Nodes,
    target: Coord,
    forbidden: &mut Vec<Coord>,
    current: Coord,
    len: usize,
    prune: bool,
) -> (r: Option<usize>)
    requires
        n.wf(),
        old(forbidden)@.contains(current),
        len + open_length(n.starts@, old(forbidden)@.to_set()) <= usize::MAX,
    ensures
        final(forbidden)@ == old(forbidden)@,
        longest(n@, current, target, old(forbidden)@.to_set(), len as int, r),
    decreases open_count(n.starts@, old(forbidden)@.to_set()),
{
    let ghost start = forbidden@;
    let ghost closed = forbidden@.to_set();
    if same(current, target) {
        proof {
            assert(path(n@, Seq::<Edge>::empty(), current, target, closed));
            assert forall|p: Seq<Edge>| #[trigger] path(n@, p, current, target, closed) implies len
                + steps(p) <= len by {
                lemma_path_to_closed(n@, p, current, target, closed);
            }
        }
        return Some(len);
    }
    let children = ways_on(n, current);
    let mut best: Option<usize> = None;
    let mut i: usize = children.len();
    while i > 0
        invariant
            n.wf(),
            i <= children.len(),
            forbidden@ == start,
            start == old(forbidden)@,
            closed == start.to_set(),
            start.contains(current),
            current != target,
            len + open_length(n.starts@, closed) <= usize::MAX,
            forall|e: Edge| #[trigger] children@.contains(e) <==> n.has(e) && e.start == current,
            best matches Some(m) ==> exists|p: Seq<Edge>|
                path(n@, p, current, target, closed) && m == len + steps(p),
            forall|p: Seq<Edge>, b: int| #[trigger]
                path(n@, p, current, target, closed) && i <= b < children.len() && p.len() > 0
                    && p[0] == #[trigger] children@[b] ==> best is Some && len + steps(p)
                    <= best.unwrap(),
        decreases i,
    {
        i -= 1;
        let child = children[i];
        let ghost prior = best;
        assert(children@.contains(child));
        assert(n@.contains(child));
        if !holds(forbidden, child.end) {
            proof {
                let k = choose|k: int|
                    0 <= k < n.starts@.len() && n.starts@[k] == (child.start, child);
                lemma_open_step(n.starts@, closed, k);
                lemma_open_bounds(n.starts@, closed.insert(child.end));
            }
            forbidden.push(child.end);
            proof {
                start.lemma_push_to_set_commute(child.end);
                assert(forbidden@.to_set() == closed.insert(child.end));
                assert(forbidden@[forbidden@.len() - 1] == child.end);
            }
            let go = !prune || reachable(n, target, forbidden, child.end);
            if go {
                assert(0 <= open_count(n.starts@, forbidden@.to_set()) < open_count(
                    n.starts@,
                    closed,
                ));
                let sub = rec_part(n, target, forbidden, child.end, len + child.length, prune);
                best = better(best, sub);
                proof {
                    if let Some(m) = sub {
                        let q = choose|q: Seq<Edge>|
                            path(n@, q, child.end, target, closed.insert(child.end)) && m == len
                                + child.length + steps(q);
                        let p = seq![child] + q;
                        assert(p.drop_first() =~= q);
                        assert(path(n@, p, current, target, closed));
                        assert(steps(p) == child.length + steps(q));
                    }
                    assert forall|p: Seq<Edge>|
                        path(n@, p, current, target, closed) && p.len() > 0 && p[0]
                            == child implies best is Some && len + steps(p) <= best.unwrap() by {
                        assert(path(n@, p.drop_first(), child.end, target, closed.insert(child.end)));
                    }
                }
            } else {
                proof {
                    assert forall|p: Seq<Edge>|
                        path(n@, p, current, target, closed) && p.len() > 0 && p[0]
                            == child implies false by {
                        lemma_path_is_walk(
                            n@,
                            p.drop_first(),
                            child.end,
                            target,
                            closed.insert(child.end),
                            closed.insert(child.end),
                        );
                        assert(linked(n@, child.end, target, closed.insert(child.end)));
                    }
                }
            }
            forbidden.pop();
            proof {
                assert(forbidden@ =~= start);
            }
        }
        proof {
            assert forall|p: Seq<Edge>, b: int| #[trigger]
                path(n@, p, current, target, closed) && i <= b < children.len() && p.len() > 0
                    && p[0] == #[trigger] children@[b] implies best is Some && len + steps(p)
                <= best.unwrap() by {
                if b > i {
                    assert(prior is Some && len + steps(p) <= prior.unwrap());
                }
            }
        }
    }
    proof {
        assert forall|p: Seq<Edge>| #[trigger] path(n@, p, current, target, closed) implies best is Some
            && len + steps(p) <= best.unwrap() by {
            assert(p.len() > 0);
            assert(children@.contains(p[0]));
            let b = choose|b: int| 0 <= b < children@.len() && children@[b] == p[0];
            assert(p[0] == children@[b]);
        }
    }
    best
}

/// The length of the longest simple path from `from` to `to`, or nothing if
/// no path leads there. With `prune` the search leaves out branches from
/// which the goal cannot be reached; the result is the same either way.
pub fn longest_path(n: &Nodes, from: Coord, to: Coord, prune: bool) -> (r: Option<usize>)
    requires
        n.wf(),
        n.bounded(),
    ensures
        longest(n@, from, to, set![from], 0, r),
        from == to ==> r == Some(0usize),
        (forall|p: Seq<Edge>| !path(n@, p, from, to, set![from])) ==> r is None,
{
    if same(from, to) {
        proof {
            assert(path(n@, Seq::<Edge>::empty(), from, to, set![from]));
            assert forall|p: Seq<Edge>| #[trigger] path(n@, p, from, to, set![from]) implies 0
                + steps(p) <= 0 by {
                lemma_path_to_closed(n@, p, from, to, set![from]);
            }
        }
        return Some(0);
    }
    let mut forbidden: Vec<Coord> = Vec::new();
    forbidden.push(from);
    proof {
        assert(forbidden@ =~= seq![from]);
        assert(forbidden@[0] == from);
        assert(forbidden@.to_set() =~= set![from]);
        lemma_open_bounds(n.starts@, set![from]);
    }
    let r = rec_part(n, to, &mut forbidden, from, 0, prune);
    proof {
        if let Some(m) = r {
            let p = choose|p: Seq<Edge>| path(n@, p, from, to, set![from]) && m == 0 + steps(p);
            assert(path(n@, p, from, to, set![from]));
        }
    }
    r
}

/// The length of the longest simple path from the entrance of the maze to
/// its exit through the graph, or nothing if no path leads there.
pub fn part1(m: &Grid, n: &Nodes) -> (r: Option<usize>)
    requires
        n.wf(),
        n.bounded(),
    ensures
        longest(n@, m.start, m.end, set![m.start], 0, r),
        m.start == m.end ==> r == Some(0usize),
        (forall|p: Seq<Edge>| !path(n@, p, m.start, m.end, set![m.start])) ==> r is None,
{
    longest_path(n, m.start, m.end, true)
}

} // verus!
