//! Contraction of the graph: two edges that meet at a coordinate where the
//! walker has no choice are fused into one, until no such pair is left.
use crate::day23::grid::{opposite, Coord, Dir};
use crate::day23::nodes::{
    insert, lemma_total_two, remove, same_edge, total, Edge, Nodes,
};
use vstd::prelude::*;

verus! {

/// The edge that walks `head` and then `tail`.
pub open spec fn fused(head: Edge, tail: Edge) -> Edge {
    Edge {
        start: head.start,
        dir: head.dir,
        enddir: tail.enddir,
        end: tail.end,
        length: (head.length + tail.length) as usize,
    }
}

/// `head` and `tail` can be fused: `tail` is the only edge that continues
/// from the end of `head` without turning back, and every edge that arrives
/// there arrives as `head` does or comes back along `tail`.
pub open spec fn contractible(g: Set<Edge>, head: Edge, tail: Edge) -> bool {
    &&& g.contains(head)
    &&& g.contains(tail)
    &&& head != tail
    &&& tail.start == head.end
    &&& tail.dir != opposite(head.enddir)
    &&& forall|e: Edge|
        g.contains(e) && e.start == head.end && e.dir != opposite(head.enddir) ==> e == tail
    &&& forall|e: Edge|
        g.contains(e) && e.end == head.end ==> e.enddir == head.enddir || e.enddir == opposite(
            tail.dir,
        )
}

/// The graph in which `head` and `tail` have given way to their fusion.
pub open spec fn fuse(g: Set<Edge>, head: Edge, tail: Edge) -> Set<Edge> {
    g.insert(fused(head, tail)).remove(head).remove(tail)
}

/// No two edges of the graph can be fused.
pub open spec fn contracted(g: Set<Edge>) -> bool {
    forall|h: Edge, t: Edge| !contractible(g, h, t)
}

/// `b` comes from `a` by fusing `n` times, each time a pair that can be
/// fused.
pub open spec fn contracts_to(a: Set<Edge>, b: Set<Edge>, n: nat) -> bool
    decreases n,
{
    if n == 0 {
        a == b
    } else {
        exists|mid: Set<Edge>, h: Edge, t: Edge|
            contracts_to(a, mid, (n - 1) as nat) && contractible(mid, h, t) && b == fuse(mid, h, t)
    }
}

/// A graph in which nothing can be fused is where contraction ends at once:
/// whatever comes from it by fusing comes from it in no step and is the
/// graph itself.
pub proof fn lemma_contracted_is_fixpoint(a: Set<Edge>, b: Set<Edge>, n: nat)
    requires
        contracted(a),
        contracts_to(a, b, n),
    ensures
        n == 0,
        b == a,
    decreases n,
{
    if n > 0 {
        let (mid, h, t) = choose|mid: Set<Edge>, h: Edge, t: Edge|
            contracts_to(a, mid, (n - 1) as nat) && contractible(mid, h, t) && b == fuse(mid, h, t);
        lemma_contracted_is_fixpoint(a, mid, (n - 1) as nat);
        assert(contractible(a, h, t));
    }
}

/// The sum of the lengths of a chain of edges.
pub open spec fn lengths(c: Seq<Edge>) -> int
    decreases c.len(),
{
    if c.len() == 0 {
        0
    } else {
        lengths(c.drop_last()) + c.last().length
    }
}

/// The edge that walks a chain of edges one after the other.
pub open spec fn fused_chain(c: Seq<Edge>) -> Edge
    decreases c.len(),
{
    if c.len() <= 1 {
        c[0]
    } else {
        fused(fused_chain(c.drop_last()), c.last())
    }
}

/// Fusing is additive: the fusion of two edges is as long as both together,
/// and so the fusion of a chain of any depth is as long as all its edges
/// together. It begins as the first edge does and ends as the last.
pub proof fn lemma_fused_chain_additive(c: Seq<Edge>)
    requires
        c.len() >= 1,
        lengths(c) <= usize::MAX,
    ensures
        fused_chain(c).length == lengths(c),
        fused_chain(c).start == c[0].start,
        fused_chain(c).dir == c[0].dir,
        fused_chain(c).end == c.last().end,
        fused_chain(c).enddir == c.last().enddir,
    decreases c.len(),
{
    if c.len() == 1 {
        assert(c.drop_last().len() == 0);
        assert(lengths(c.drop_last()) == 0);
    } else {
        assert(lengths(c.drop_last()) <= lengths(c));
        lemma_fused_chain_additive(c.drop_last());
        assert(c.drop_last()[0] == c[0]);
    }
}

/// The sum of the lengths of one chain after another is the sum of their
/// sums.
pub proof fn lemma_lengths_concat(a: Seq<Edge>, b: Seq<Edge>)
    ensures
        lengths(a + b) == lengths(a) + lengths(b),
    decreases b.len(),
{
    if b.len() == 0 {
        assert(a + b =~= a);
    } else {
        assert((a + b).drop_last() =~= a + b.drop_last());
        lemma_lengths_concat(a, b.drop_last());
    }
}

/// `c` is a walk along edges of `g`: each edge begins where the one before
/// it ends, and none turns back into the one before it.
pub open spec fn chain_in(g: Set<Edge>, c: Seq<Edge>) -> bool {
    &&& c.len() >= 1
    &&& forall|i: int| 0 <= i < c.len() ==> g.contains(#[trigger] c[i])
    &&& forall|i: int| 0 <= i < c.len() - 1 ==> #[trigger] joined(c, i)
}

/// The edge after the `i`-th begins where the `i`-th ends and does not turn
/// back into it.
pub open spec fn joined(c: Seq<Edge>, i: int) -> bool {
    c[i].end == c[i + 1].start && c[i + 1].dir != opposite(c[i].enddir)
}

/// The edge `e` stands for the walk `c` along edges of `g`: it begins and
/// ends as the walk does and is as long as all its edges together.
pub open spec fn stands_for(g: Set<Edge>, e: Edge, c: Seq<Edge>) -> bool {
    &&& chain_in(g, c)
    &&& e.start == c[0].start
    &&& e.dir == c[0].dir
    &&& e.end == c.last().end
    &&& e.enddir == c.last().enddir
    &&& e.length == lengths(c)
}

/// Every edge of `b` stands for a walk along edges of `a`.
#[verifier::opaque]
pub open spec fn unfolds(a: Set<Edge>, b: Set<Edge>) -> bool {
    forall|e: Edge| b.contains(e) ==> exists|c: Seq<Edge>| #[trigger] stands_for(a, e, c)
}

/// Every edge of a graph stands for itself.
pub proof fn lemma_unfolds_itself(a: Set<Edge>)
    ensures
        unfolds(a, a),
{
    reveal(unfolds);
    assert forall|e: Edge| a.contains(e) implies exists|c: Seq<Edge>| #[trigger]
        stands_for(a, e, c) by {
        let c = seq![e];
        assert(c.drop_last() =~= Seq::<Edge>::empty());
        assert(lengths(c) == lengths(c.drop_last()) + c.last().length);
        assert(lengths(c.drop_last()) == 0);
        assert(stands_for(a, e, c));
    }
}

/// A walk followed by a walk that begins where it ends, and does not turn
/// back into it, is a walk.
pub proof fn lemma_chain_concat(a: Set<Edge>, ch: Seq<Edge>, ct: Seq<Edge>)
    requires
        chain_in(a, ch),
        chain_in(a, ct),
        ch.last().end == ct[0].start,
        ct[0].dir != opposite(ch.last().enddir),
    ensures
        chain_in(a, ch + ct),
        (ch + ct)[0] == ch[0],
        (ch + ct).last() == ct.last(),
{
    let c = ch + ct;
    assert forall|i: int| 0 <= i < c.len() implies a.contains(#[trigger] c[i]) by {
        if i < ch.len() {
            assert(c[i] == ch[i]);
        } else {
            assert(c[i] == ct[i - ch.len()]);
        }
    }
    assert forall|i: int| 0 <= i < c.len() - 1 implies #[trigger] joined(c, i) by {
        if i < ch.len() - 1 {
            assert(c[i] == ch[i] && c[i + 1] == ch[i + 1]);
            assert(joined(ch, i));
        } else if i == ch.len() - 1 {
            assert(c[i] == ch.last() && c[i + 1] == ct[0]);
        } else {
            assert(c[i] == ct[i - ch.len()] && c[i + 1] == ct[i - ch.len() + 1]);
            assert(joined(ct, i - ch.len()));
        }
    }
}

/// The fusion of two edges stands for the walk of the one followed by the
/// walk of the other.
pub proof fn lemma_fused_stands_for(a: Set<Edge>, h: Edge, t: Edge, ch: Seq<Edge>, ct: Seq<Edge>)
    requires
        stands_for(a, h, ch),
        stands_for(a, t, ct),
        t.start == h.end,
        t.dir != opposite(h.enddir),
        h.length + t.length <= usize::MAX,
    ensures
        stands_for(a, fused(h, t), ch + ct),
{
    lemma_chain_concat(a, ch, ct);
    lemma_lengths_concat(ch, ct);
}

/// Fusing keeps what the edges stand for: where every edge of a graph
/// stands for a walk along edges of `a`, so does every edge after two of
/// them that meet have been fused.
pub proof fn lemma_fuse_unfolds(a: Set<Edge>, mid: Set<Edge>, h: Edge, t: Edge)
    requires
        unfolds(a, mid),
        mid.contains(h),
        mid.contains(t),
        t.start == h.end,
        t.dir != opposite(h.enddir),
        h.length + t.length <= usize::MAX,
    ensures
        unfolds(a, fuse(mid, h, t)),
{
    reveal(unfolds);
    let ch = choose|c: Seq<Edge>| stands_for(a, h, c);
    let ct = choose|c: Seq<Edge>| stands_for(a, t, c);
    lemma_fused_stands_for(a, h, t, ch, ct);
    assert forall|e: Edge| fuse(mid, h, t).contains(e) implies exists|c: Seq<Edge>| #[trigger]
        stands_for(a, e, c) by {
        if e == fused(h, t) {
            assert(stands_for(a, e, ch + ct));
        } else {
            assert(mid.contains(e));
        }
    }
}

/// Fuses `head` and `tail`: their fusion enters the graph and they leave it.
pub fn merge2(n: &mut Nodes, head: Edge, tail: Edge)
    requires
        old(n).wf(),
        old(n).bounded(),
        old(n).has(head),
        old(n).has(tail),
        head != tail,
    ensures
        final(n).wf(),
        final(n).bounded(),
        final(n)@ == fuse(old(n)@, head, tail),
        final(n).starts@.len() < old(n).starts@.len(),
        final(n).total() <= old(n).total(),
        head.length + tail.length <= usize::MAX,
{
    let ghost before = *n;
    proof {
        let i = choose|i: int|
            0 <= i < n.starts@.len() && n.starts@[i] == (head.start, head);
        let j = choose|j: int|
            0 <= j < n.starts@.len() && n.starts@[j] == (tail.start, tail);
        lemma_total_two(n.starts@, i, j);
    }
    let merged = Edge {
        start: head.start,
        dir: head.dir,
        enddir: tail.enddir,
        end: tail.end,
        length: head.length + tail.length,
    };
    insert(n, merged);
    let ghost first = *n;
    assert(before@.contains(head) && before@.contains(tail));
    assert(first@.contains(head) && first.has(head));
    assert(first@.contains(tail));
    remove(n, head);
    let ghost second = *n;
    assert(second@.contains(tail) && second.has(tail));
    remove(n, tail);
}

/// The edge with which `this` can be fused, if there is one.
pub fn partner(n: &Nodes, this: Edge) -> (r: Option<Edge>)
    requires
        n.wf(),
        n.has(this),
    ensures
        match r {
            Some(t) => contractible(n@, this, t),
            None => forall|t: Edge| !contractible(n@, this, t),
        },
{
    let back = opposite(this.enddir);
    let out = n.edges_from(this.end);
    let mut found: Option<Edge> = None;
    let mut j: usize = 0;
    while j < out.len()
        invariant
            j <= out.len(),
            out@.no_duplicates(),
            match found {
                Some(f) => f.dir != back && (exists|a: int| 0 <= a < j && out@[a] == f) && forall|
                    a: int,
                | 0 <= a < j && out@[a].dir != back ==> out@[a] == f,
                None => forall|a: int| 0 <= a < j ==> out@[a].dir == back,
            },
            forall|e: Edge| #[trigger] out@.contains(e) <==> n.has(e) && e.start == this.end,
            back == opposite(this.enddir),
        decreases out.len() - j,
    {
        let e = out[j];
        if e.dir != back {
            match found {
                Some(f) => {
                    proof {
                        assert(out@.contains(f) && out@.contains(e));
                        assert(n@.contains(f) && n@.contains(e));
                        assert(f != e);
                    }
                    return None;
                },
                None => {
                    found = Some(e);
                },
            }
        }
        j += 1;
    }
    let other = match found {
        Some(f) => f,
        None => {
            proof {
                assert forall|t: Edge| !contractible(n@, this, t) by {
                    if contractible(n@, this, t) {
                        assert(out@.contains(t));
                        let a = choose|a: int| 0 <= a < out@.len() && out@[a] == t;
                        assert(out@[a].dir == back);
                    }
                }
            }
            return None;
        },
    };
    proof {
        assert(out@.contains(other));
        assert(n@.contains(other));
        assert forall|e: Edge|
            n@.contains(e) && e.start == this.end && e.dir != back implies e == other by {
            assert(out@.contains(e));
            let a = choose|a: int| 0 <= a < out@.len() && out@[a] == e;
            assert(out@[a] == other);
        }
    }
    if same_edge(other, this) {
        return None;
    }
    let coming = opposite(other.dir);
    let incoming = n.edges_into(this.end);
    let mut k: usize = 0;
    while k < incoming.len()
        invariant
            k <= incoming.len(),
            coming == opposite(other.dir),
            n@.contains(other),
            n@.contains(this),
            forall|e: Edge| #[trigger] incoming@.contains(e) <==> n.has(e) && e.end == this.end,
            forall|a: int|
                0 <= a < k ==> incoming@[a].enddir == this.enddir || incoming@[a].enddir == coming,
            forall|e: Edge|
                n@.contains(e) && e.start == this.end && e.dir != opposite(this.enddir) ==> e
                    == other,
        decreases incoming.len() - k,
    {
        let e = incoming[k];
        if !(e.enddir == this.enddir || e.enddir == coming) {
            proof {
                assert(incoming@.contains(e));
                assert(n@.contains(e));
            }
            return None;
        }
        k += 1;
    }
    proof {
        assert forall|e: Edge| n@.contains(e) && e.end == this.end implies e.enddir == this.enddir
            || e.enddir == opposite(other.dir) by {
            assert(incoming@.contains(e));
            let a = choose|a: int| 0 <= a < incoming@.len() && incoming@[a] == e;
        }
    }
    Some(other)
}

/// A pair of edges that can be fused, if there is one.
pub fn find_merge(n: &Nodes) -> (r: Option<(Edge, Edge)>)
    requires
        n.wf(),
    ensures
        match r {
            Some((h, t)) => contractible(n@, h, t),
            None => contracted(n@),
        },
{
    let mut i: usize = 0;
    while i < n.starts.len()
        invariant
            i <= n.starts.len(),
            n.wf(),
            forall|a: int, t: Edge|
                0 <= a < i ==> !#[trigger] contractible(n@, n.starts@[a].1, t),
        decreases n.starts.len() - i,
    {
        let this = n.starts[i].1;
        assert(n.starts@[i as int].0 == this.start);
        assert(n.starts@[i as int] == (this.start, this));
        match partner(n, this) {
            Some(other) => {
                return Some((this, other));
            },
            None => {},
        }
        i += 1;
    }
    proof {
        assert forall|h: Edge, t: Edge| !contractible(n@, h, t) by {
            if contractible(n@, h, t) {
                let a = choose|a: int| 0 <= a < n.starts@.len() && n.starts@[a] == (h.start, h);
                assert(!contractible(n@, n.starts@[a].1, t));
            }
        }
    }
    None
}

/// Contracts the graph and counts the fusions: fuses pairs of edges until
/// none can be fused. A graph in which nothing can be fused comes back as
/// it is, after no fusion.
pub fn merge_counted(i: Nodes) -> (r: (Nodes, usize))
    requires
        i.wf(),
        i.bounded(),
    ensures
        r.0.wf(),
        r.0.bounded(),
        contracted(r.0@),
        contracts_to(i@, r.0@, r.1 as nat),
        contracted(i@) ==> r.1 == 0 && r.0.starts@ == i.starts@ && r.0.ends@ == i.ends@,
        r.0.total() <= i.total(),
        r.0.starts@.len() + r.1 <= i.starts@.len(),
        unfolds(i@, r.0@),
{
    let ghost first = i;
    proof {
        lemma_unfolds_itself(i@);
    }
    let limit = i.len();
    let mut nodes = i;
    let mut steps: usize = 0;
    loop
        invariant
            limit == first.starts@.len(),
            nodes.wf(),
            nodes.bounded(),
            contracts_to(first@, nodes@, steps as nat),
            nodes.total() <= first.total(),
            nodes.starts@.len() + steps <= first.starts@.len(),
            steps == 0 ==> nodes.starts@ == first.starts@ && nodes.ends@ == first.ends@,
            unfolds(first@, nodes@),
        ensures
            contracted(nodes@),
        decreases nodes.starts@.len(),
    {
        match find_merge(&nodes) {
            None => {
                break ;
            },
            Some((this, other)) => {
                let ghost mid = nodes@;
                let count = nodes.len();
                merge2(&mut nodes, this, other);
                proof {
                    assert(contracts_to(first@, mid, steps as nat) && contractible(mid, this, other)
                        && nodes@ == fuse(mid, this, other));
                    lemma_fuse_unfolds(first@, mid, this, other);
                }
                steps = steps + 1;
            },
        }
    }
    proof {
        if contracted(first@) {
            lemma_contracted_is_fixpoint(first@, nodes@, steps as nat);
        }
    }
    (nodes, steps)
}

/// Contracts the graph: fuses pairs of edges until none can be fused.
pub fn merge(i: Nodes) -> (r: Nodes)
    requires
        i.wf(),
        i.bounded(),
    ensures
        r.wf(),
        r.bounded(),
        contracted(r@),
        exists|k: nat| contracts_to(i@, r@, k),
        contracted(i@) ==> r@ == i@ && r.starts@ == i.starts@ && r.ends@ == i.ends@,
        r.total() <= i.total(),
        unfolds(i@, r@),
{
    let (r, k) = merge_counted(i);
    r
}

} // verus!
