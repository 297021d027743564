//! The longest walk through a maze: the maze as a grid of tiles, the graph of
//! its one-step connections, the contraction of that graph to its junctions,
//! and the search for the longest simple path from the entrance to the exit.
use crate::day23::contract::{chain_in, contracted, contracts_to, lengths, merge, unfolds};
use crate::day23::grid::{parse, parsed, Grid, ParseError, Rule};
use crate::day23::nodes::{get_nodes, hop, isolated, Edge, GraphError};
use crate::day23::search::{longest, part1};
use vstd::prelude::*;

pub mod contract;
pub mod grid;
pub mod nodes;
pub mod search;

verus! {

/// Why a text has no answer: it is no maze, or its entrance or exit is cut
/// off. That no path leads from the entrance to the exit is an answer, not a
/// failure.
#[derive(Clone, Copy, Debug, PartialEq, Eq, Structural)]
pub enum Failure {
    Parse(ParseError),
    Graph(GraphError),
}

/// The single steps of a maze.
pub open spec fn steps_of(g: &Grid) -> Set<Edge> {
    Set::new(|e: Edge| hop(g, e))
}

/// What the walk through a text gives: the failure of reading it or of
/// building its graph, or else the longest simple path from the entrance to
/// the exit through a graph that comes from the maze's single steps by
/// fusing until nothing can be fused, and each edge of which stands for a
/// walk of as many single steps as it is long.
pub open spec fn hiked(text: Seq<char>, rule: Rule, r: Result<Option<usize>, Failure>) -> bool {
    match r {
        Err(Failure::Parse(e)) => parsed(text, rule, Err(e)),
        Err(Failure::Graph(_)) => exists|g: Grid| parsed(text, rule, Ok(g)) && isolated(&g),
        Ok(out) => exists|g: Grid, n: Set<Edge>, k: nat|
            {
                &&& parsed(text, rule, Ok(g))
                &&& !isolated(&g)
                &&& contracts_to(steps_of(&g), n, k)
                &&& contracted(n)
                &&& unfolds(steps_of(&g), n)
                &&& longest(n, g.start, g.end, set![g.start], 0, out)
            },
    }
}

/// A walk along single steps of a maze is as long as the number of its
/// steps: so an edge that stands for such a walk counts the tiles that are
/// entered on it.
pub proof fn lemma_steps_are_counted(g: &Grid, c: Seq<Edge>)
    requires
        chain_in(steps_of(g), c),
    ensures
        lengths(c) == c.len(),
    decreases c.len(),
{
    assert(steps_of(g).contains(c.last()));
    if c.len() == 1 {
        assert(lengths(c.drop_last()) == 0);
    } else {
        let d = c.drop_last();
        assert forall|i: int| 0 <= i < d.len() implies steps_of(g).contains(#[trigger] d[i]) by {
            assert(d[i] == c[i]);
        }
        assert forall|i: int| 0 <= i < d.len() - 1 implies #[trigger] crate::day23::contract::joined(
            d,
            i,
        ) by {
            assert(crate::day23::contract::joined(c, i));
            assert(d[i] == c[i] && d[i + 1] == c[i + 1]);
        }
        lemma_steps_are_counted(g, d);
    }
}

/// Reads a maze, builds and contracts its graph and finds the length of the
/// longest walk from the entrance to the exit that enters no junction twice.
pub fn solve(text: &str, rule: Rule) -> (r: Result<Option<usize>, Failure>)
    ensures
        hiked(text@, rule, r),
{
    let m = match parse(text, rule) {
        Ok(m) => m,
        Err(e) => {
            return Err(Failure::Parse(e));
        },
    };
    let nodes = match get_nodes(&m) {
        Ok(n) => n,
        Err(e) => {
            return Err(Failure::Graph(e));
        },
    };
    let ghost first = nodes@;
    assert(first =~= steps_of(&m));
    let n = merge(nodes);
    let out = part1(&m, &n);
    proof {
        let k = choose|k: nat| contracts_to(first, n@, k);
        assert(contracts_to(steps_of(&m), n@, k));
    }
    Ok(out)
}

} // verus!
