//! Putting lists in order and taking repetitions out of them.
use itertools::Itertools;
use vstd::prelude::*;

verus! {

/// What items are ordered by: a number, then a list of numbers, then a
/// number.
pub type Key = (usize, Vec<usize>, usize);

/// The keys as plain values.
pub open spec fn plain(ks: Seq<Key>) -> Seq<(usize, Seq<usize>, usize)> {
    Seq::new(ks.len(), |i: int| (ks[i].0, ks[i].1@, ks[i].2))
}

/// The order of sequences of numbers in which the first difference decides,
/// and a sequence comes before those that it begins.
pub open spec fn seq_le(a: Seq<usize>, b: Seq<usize>) -> bool
    decreases a.len(),
{
    if a.len() == 0 {
        true
    } else if b.len() == 0 {
        false
    } else if a[0] != b[0] {
        a[0] < b[0]
    } else {
        seq_le(a.drop_first(), b.drop_first())
    }
}

/// The order of keys: by the first number, then by the list, then by the
/// last number.
pub open spec fn key_le(a: (usize, Seq<usize>, usize), b: (usize, Seq<usize>, usize)) -> bool {
    a.0 < b.0 || (a.0 == b.0 && (if a.1 == b.1 {
        a.2 <= b.2
    } else {
        seq_le(a.1, b.1)
    }))
}

/// No key stands before a smaller one.
pub open spec fn ascending(s: Seq<(usize, Seq<usize>, usize)>) -> bool {
    forall|i: int, j: int| 0 <= i <= j < s.len() ==> key_le(#[trigger] s[i], #[trigger] s[j])
}

/// The keys in ascending order. Calls itertools' `Itertools::sorted`, which
/// sorts by the order of the items: for tuples and vectors of numbers the
/// order in which the first difference decides. The result holds the same
/// keys as often, and none stands before a smaller one.
#[verifier::external_body]
pub(crate) fn sorted(v: Vec<Key>) -> (r: Vec<Key>)
    ensures
        plain(r@).to_multiset() == plain(v@).to_multiset(),
        ascending(plain(r@)),
{
    v.into_iter().sorted().collect()
}

/// The keys of a list in ascending order.
pub open spec fn in_order(ks: Seq<(usize, Seq<usize>, usize)>) -> Seq<(usize, Seq<usize>, usize)> {
    choose|s: Seq<(usize, Seq<usize>, usize)>| s.to_multiset() == ks.to_multiset() && ascending(s)
}

/// Of two lists of numbers each of which comes no later than the other, one
/// is the other.
pub proof fn lemma_seq_le_antisymmetric(a: Seq<usize>, b: Seq<usize>)
    requires
        seq_le(a, b),
        seq_le(b, a),
    ensures
        a == b,
    decreases a.len(),
{
    if a.len() == 0 {
        assert(a =~= b);
    } else {
        lemma_seq_le_antisymmetric(a.drop_first(), b.drop_first());
        assert(a =~= seq![a[0]] + a.drop_first());
        assert(b =~= seq![b[0]] + b.drop_first());
    }
}

/// Of two keys each of which comes no later than the other, one is the
/// other.
pub proof fn lemma_key_le_antisymmetric(
    a: (usize, Seq<usize>, usize),
    b: (usize, Seq<usize>, usize),
)
    requires
        key_le(a, b),
        key_le(b, a),
    ensures
        a == b,
{
    if a.1 != b.1 {
        lemma_seq_le_antisymmetric(a.1, b.1);
    }
}

/// There is only one way to put keys in order: two lists that hold the
/// same keys as often, both in ascending order, are the same list.
pub proof fn lemma_order_unique(
    a: Seq<(usize, Seq<usize>, usize)>,
    b: Seq<(usize, Seq<usize>, usize)>,
)
    requires
        a.to_multiset() == b.to_multiset(),
        ascending(a),
        ascending(b),
    ensures
        a == b,
    decreases a.len(),
{
    vstd::seq_lib::to_multiset_len(a);
    vstd::seq_lib::to_multiset_len(b);
    if a.len() == 0 {
        assert(a =~= b);
    } else {
        let x = a.last();
        let y = b.last();
        vstd::seq_lib::to_multiset_contains(a, x);
        vstd::seq_lib::to_multiset_contains(b, x);
        vstd::seq_lib::to_multiset_contains(a, y);
        vstd::seq_lib::to_multiset_contains(b, y);
        assert(a[a.len() - 1] == x && b[b.len() - 1] == y);
        assert(a.contains(x) && b.contains(y));
        let i = choose|i: int| 0 <= i < b.len() && b[i] == x;
        let j = choose|j: int| 0 <= j < a.len() && a[j] == y;
        assert(key_le(b[i], b[b.len() - 1]));
        assert(key_le(a[j], a[a.len() - 1]));
        lemma_key_le_antisymmetric(x, y);
        vstd::seq_lib::to_multiset_remove(a, a.len() - 1);
        vstd::seq_lib::to_multiset_remove(b, b.len() - 1);
        assert(a.remove(a.len() - 1) =~= a.drop_last());
        assert(b.remove(b.len() - 1) =~= b.drop_last());
        assert forall|p: int, q: int| 0 <= p <= q < a.drop_last().len() implies key_le(
            #[trigger] a.drop_last()[p],
            #[trigger] a.drop_last()[q],
        ) by {
            assert(key_le(a[p], a[q]));
        }
        assert forall|p: int, q: int| 0 <= p <= q < b.drop_last().len() implies key_le(
            #[trigger] b.drop_last()[p],
            #[trigger] b.drop_last()[q],
        ) by {
            assert(key_le(b[p], b[q]));
        }
        lemma_order_unique(a.drop_last(), b.drop_last());
        assert(a =~= a.drop_last().push(x));
        assert(b =~= b.drop_last().push(y));
    }
}

/// What holds the keys of a list in ascending order is the list in order.
pub proof fn lemma_in_order(ks: Seq<(usize, Seq<usize>, usize)>, s: Seq<(usize, Seq<usize>, usize)>)
    requires
        s.to_multiset() == ks.to_multiset(),
        ascending(s),
    ensures
        s == in_order(ks),
        in_order(ks).to_multiset() == ks.to_multiset(),
        ascending(in_order(ks)),
{
    lemma_order_unique(s, in_order(ks));
}

/// The first occurrences of the pairs of a list, in order.
pub open spec fn firsts(s: Seq<(i64, i64)>) -> Seq<(i64, i64)>
    decreases s.len(),
{
    if s.len() == 0 {
        Seq::empty()
    } else if s.drop_last().contains(s.last()) {
        firsts(s.drop_last())
    } else {
        firsts(s.drop_last()).push(s.last())
    }
}

/// The pairs of a list without repetitions. Calls itertools'
/// `Itertools::unique`, which leaves out what it has produced before: of
/// equal items the first is kept, and the order stays.
#[verifier::external_body]
pub(crate) fn unique(v: Vec<(i64, i64)>) -> (r: Vec<(i64, i64)>)
    ensures
        r@ == firsts(v@),
{
    v.into_iter().unique().collect()
}

} // verus!
