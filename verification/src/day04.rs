//! Scratch cards: each card has winning numbers and the numbers one holds.
use crate::text::{
    chars_of, lines, lines_of, parse_usize, split, split_on, unsigned_number, views, within,
    words, words_of,
};
use vstd::arithmetic::power2::pow2;
use vstd::prelude::*;

verus! {

#[derive(Clone, Debug, PartialEq)]
pub struct Line {
    pub id: usize,
    pub left: Vec<usize>,
    pub right: Vec<usize>,
}

/// The number that a word writes, if it is one that fits a machine word.
pub open spec fn count(w: Seq<char>) -> Option<int> {
    within(unsigned_number(w), 0, usize::MAX as int)
}

/// The numbers among some words, in order; what is no number is left out.
pub open spec fn numbers(ws: Seq<Seq<char>>) -> Seq<usize>
    decreases ws.len(),
{
    if ws.len() == 0 {
        Seq::empty()
    } else {
        match count(ws.last()) {
            Some(v) => numbers(ws.drop_last()).push(v as usize),
            None => numbers(ws.drop_last()),
        }
    }
}

/// What a line says of a card: the text before the only colon ends in the
/// card's number; behind the colon stand the winning numbers and, after the
/// only bar, the numbers held.
pub open spec fn card(l: Seq<char>) -> Option<(int, Seq<usize>, Seq<usize>)> {
    let halves = split(l, seq![':']);
    if halves.len() == 2 {
        let sides = split(halves[1], seq!['|']);
        let head = words_of(halves[0]);
        if sides.len() == 2 && head.len() > 0 && count(head.last()) is Some {
            Some(
                (
                    count(head.last()).unwrap(),
                    numbers(words_of(sides[0])),
                    numbers(words_of(sides[1])),
                ),
            )
        } else {
            None
        }
    } else {
        None
    }
}

fn numbers_of(l: &Vec<char>) -> (r: Vec<usize>)
    ensures
        r@ == numbers(words_of(l@)),
{
    let ws = words(l);
    let ghost all = views(ws@);
    let mut out: Vec<usize> = Vec::new();
    let mut i: usize = 0;
    proof {
        assert(all.take(0) =~= Seq::<Seq<char>>::empty());
    }
    while i < ws.len()
        invariant
            i <= ws.len(),
            all == views(ws@),
            out@ == numbers(all.take(i as int)),
        decreases ws.len() - i,
    {
        proof {
            assert(all.take(i + 1).drop_last() =~= all.take(i as int));
            assert(all.take(i + 1).last() == ws@[i as int]@);
        }
        match parse_usize(&ws[i]) {
            Some(v) => {
                out.push(v);
            },
            None => {},
        }
        i += 1;
    }
    proof {
        assert(all.take(ws.len() as int) =~= all);
    }
    out
}

/// The numbers in a text between blanks, in order.
pub fn parse_subline(l: &str) -> (r: Vec<usize>)
    ensures
        r@ == numbers(words_of(l@)),
{
    numbers_of(&chars_of(l))
}

fn card_of(l: &Vec<char>) -> (r: Option<Line>)
    ensures
        match r {
            Some(c) => card(l@) == Some((c.id as int, c.left@, c.right@)),
            None => card(l@) is None,
        },
{
    let halves = split_on(l, ':');
    if halves.len() != 2 {
        return None;
    }
    assert(views(halves@)[0] == halves@[0]@ && views(halves@)[1] == halves@[1]@);
    let sides = split_on(&halves[1], '|');
    if sides.len() != 2 {
        return None;
    }
    assert(views(sides@)[0] == sides@[0]@ && views(sides@)[1] == sides@[1]@);
    let head = words(&halves[0]);
    if head.len() == 0 {
        return None;
    }
    assert(views(head@).last() == head@[head.len() - 1]@);
    let id = match parse_usize(&head[head.len() - 1]) {
        Some(v) => v,
        None => {
            return None;
        },
    };
    let left = numbers_of(&sides[0]);
    let right = numbers_of(&sides[1]);
    Some(Line { id, left, right })
}

/// Reads a card.
pub fn parse_line(l: &str) -> (r: Line)
    requires
        card(l@) is Some,
    ensures
        card(l@) == Some((r.id as int, r.left@, r.right@)),
{
    match card_of(&chars_of(l)) {
        Some(c) => c,
        None => Line { id: 0, left: Vec::new(), right: Vec::new() },
    }
}

/// How many of the first numbers of `right` occur in `left`.
pub open spec fn hits(left: Seq<usize>, right: Seq<usize>) -> nat
    decreases right.len(),
{
    if right.len() == 0 {
        0
    } else {
        hits(left, right.drop_last()) + if left.contains(right.last()) {
            1nat
        } else {
            0
        }
    }
}

/// Whether `v` holds `x`.
pub fn has(v: &Vec<usize>, x: usize) -> (r: bool)
    ensures
        r == v@.contains(x),
{
    let mut i: usize = 0;
    while i < v.len()
        invariant
            i <= v.len(),
            forall|j: int| 0 <= j < i ==> v@[j] != x,
        decreases v.len() - i,
    {
        if v[i] == x {
            return true;
        }
        i += 1;
    }
    false
}

/// The number of numbers held that are winning numbers.
pub fn calc_line_matches(l: Line) -> (r: usize)
    ensures
        r == hits(l.left@, l.right@),
{
    let mut n: usize = 0;
    let mut i: usize = 0;
    proof {
        assert(l.right@.take(0) =~= Seq::<usize>::empty());
    }
    while i < l.right.len()
        invariant
            i <= l.right.len(),
            n <= i,
            n == hits(l.left@, l.right@.take(i as int)),
        decreases l.right.len() - i,
    {
        proof {
            assert(l.right@.take(i + 1).drop_last() =~= l.right@.take(i as int));
            assert(l.right@.take(i + 1).last() == l.right@[i as int]);
        }
        if has(&l.left, l.right[i]) {
            n += 1;
        }
        i += 1;
    }
    proof {
        assert(l.right@.take(l.right.len() as int) =~= l.right@);
    }
    n
}

/// The points for a number of matches: none for none, one for one, and
/// twice as many for each further match.
pub fn calc_line_points(i: usize) -> (r: usize)
    requires
        i <= usize::BITS,
    ensures
        r == if i == 0 {
            0
        } else {
            pow2((i - 1) as nat)
        },
{
    match i {
        0 => 0,
        n => {
            proof {
                vstd::bits::lemma_usize_pow2_no_overflow((n - 1) as nat);
                vstd::bits::lemma_usize_shl_is_mul(1usize, (n - 1) as usize);
            }
            1usize << (n - 1)
        },
    }
}

/// Every line is a card.
pub open spec fn legible(ls: Seq<Seq<char>>) -> bool {
    forall|i: int| 0 <= i < ls.len() ==> card(#[trigger] ls[i]) is Some
}

/// The number of matches of each card.
pub open spec fn scores(ls: Seq<Seq<char>>) -> Seq<usize> {
    Seq::new(ls.len(), |i: int| hits(card(ls[i]).unwrap().1, card(ls[i]).unwrap().2) as usize)
}

pub proof fn lemma_hits_bound(left: Seq<usize>, right: Seq<usize>)
    ensures
        hits(left, right) <= right.len(),
    decreases right.len(),
{
    if right.len() > 0 {
        lemma_hits_bound(left, right.drop_last());
    }
}

fn scores_of(ls: &Vec<Vec<char>>) -> (r: Vec<usize>)
    requires
        legible(views(ls@)),
    ensures
        r@ == scores(views(ls@)),
{
    let ghost all = views(ls@);
    let mut out: Vec<usize> = Vec::new();
    let mut i: usize = 0;
    while i < ls.len()
        invariant
            i <= ls.len(),
            all == views(ls@),
            legible(all),
            out@.len() == i,
            forall|j: int| 0 <= j < i ==> #[trigger] out@[j] == scores(all)[j],
        decreases ls.len() - i,
    {
        assert(all[i as int] == ls@[i as int]@);
        assert(card(all[i as int]) is Some);
        match card_of(&ls[i]) {
            Some(c) => {
                out.push(calc_line_matches(c));
            },
            None => {},
        }
        i += 1;
    }
    assert(out@ =~= scores(all));
    out
}

/// The number of matches of each card of a text.
pub fn line_scores(text: &str) -> (r: Vec<usize>)
    requires
        legible(lines_of(text@)),
    ensures
        r@ == scores(lines_of(text@)),
{
    let ls = lines(text);
    scores_of(&ls)
}

/// The points for a number of matches.
pub open spec fn points(n: int) -> int {
    if n <= 0 {
        0
    } else {
        pow2((n - 1) as nat) as int
    }
}

/// The points of the first `k` cards together.
pub open spec fn points_to(s: Seq<usize>, k: int) -> int
    decreases k,
{
    if k <= 0 {
        0
    } else {
        points_to(s, k - 1) + points(s[k - 1] as int)
    }
}

/// No card has more matches than a machine word has bits, and the points up
/// to any card fit a machine word.
pub open spec fn payable(s: Seq<usize>) -> bool {
    forall|k: int|
        0 <= k < s.len() ==> (#[trigger] s[k]) <= usize::BITS && points_to(s, k + 1) <= usize::MAX
}

/// The points of all cards of a text together.
pub fn solve(text: &str) -> (r: usize)
    requires
        legible(lines_of(text@)),
        payable(scores(lines_of(text@))),
    ensures
        r == points_to(scores(lines_of(text@)), lines_of(text@).len() as int),
{
    let scores = line_scores(text);
    let mut acc: usize = 0;
    let mut i: usize = 0;
    while i < scores.len()
        invariant
            i <= scores.len(),
            payable(scores@),
            acc == points_to(scores@, i as int),
        decreases scores.len() - i,
    {
        assert(scores@[i as int] <= usize::BITS && points_to(scores@, i + 1) <= usize::MAX);
        acc = acc + calc_line_points(scores[i]);
        i += 1;
    }
    acc
}

/// The copies of the cards before card `i` that win a copy of card `j`:
/// a card wins a copy of each of as many cards behind it as it has matches.
pub open spec fn won(s: Seq<usize>, i: int, j: int) -> int
    decreases i, 0int,
{
    if i <= 0 {
        0
    } else {
        won(s, i - 1, j) + if i - 1 < j <= i - 1 + s[i - 1] {
            copies(s, i - 1)
        } else {
            0
        }
    }
}

/// The copies of card `k`: the card itself and those that the cards before it
/// have won.
pub open spec fn copies(s: Seq<usize>, k: int) -> int
    decreases k, 1int,
{
    1 + won(s, k, k)
}

/// The copies of the first `k` cards together.
pub open spec fn copies_to(s: Seq<usize>, k: int) -> int
    decreases k,
{
    if k <= 0 {
        0
    } else {
        copies_to(s, k - 1) + copies(s, k - 1)
    }
}

pub proof fn lemma_won(s: Seq<usize>, i: int, j: int)
    ensures
        0 <= won(s, i, j),
        i > 0 ==> won(s, i - 1, j) <= won(s, i, j),
        i >= j && j >= 0 ==> won(s, i, j) == won(s, j, j),
    decreases i,
{
    if i > 0 {
        lemma_won(s, i - 1, j);
        lemma_won(s, i - 1, i - 1);
        assert(copies(s, i - 1) == 1 + won(s, i - 1, i - 1));
    }
}

pub proof fn lemma_copies_to(s: Seq<usize>, a: int, b: int)
    requires
        0 <= a <= b,
    ensures
        0 <= copies_to(s, a) <= copies_to(s, b),
    decreases b,
{
    if b > 0 {
        lemma_won(s, b - 1, b - 1);
        if a < b {
            lemma_copies_to(s, a, b - 1);
        } else {
            lemma_copies_to(s, a - 1, b - 1);
        }
    }
}

/// Every card wins copies of cards of the table only, and no number of
/// copies exceeds a machine word.
pub open spec fn countable(s: Seq<usize>) -> bool {
    &&& forall|i: int| 0 <= i < s.len() ==> (#[trigger] s[i]) == 0 || i + s[i] < s.len()
    &&& forall|i: int, j: int|
        0 <= i <= s.len() && 0 <= j < s.len() ==> 1 + #[trigger] won(s, i, j) <= usize::MAX
    &&& copies_to(s, s.len() as int) <= usize::MAX
}

/// The number of cards in the end, where each match of a card wins a copy
/// of one of the cards behind it.
pub fn solve2(text: &str) -> (r: usize)
    requires
        legible(lines_of(text@)),
        countable(scores(lines_of(text@))),
    ensures
        r == copies_to(scores(lines_of(text@)), lines_of(text@).len() as int),
{
    let scores = line_scores(text);
    let n = scores.len();
    let ghost s = scores@;
    let mut counts: Vec<usize> = Vec::new();
    let mut k: usize = 0;
    while k < n
        invariant
            k <= n,
            counts@.len() == k,
            forall|j: int| 0 <= j < k ==> counts@[j] == 1,
        decreases n - k,
    {
        counts.push(1);
        k += 1;
    }
    let mut i: usize = 0;
    while i < n
        invariant
            i <= n,
            n == s.len(),
            s == scores@,
            countable(s),
            counts@.len() == n,
            forall|j: int| 0 <= j < n ==> counts@[j] == 1 + won(s, i as int, j),
        decreases n - i,
    {
        let w = scores[i];
        let c = counts[i];
        assert(c == copies(s, i as int));
        assert(s[i as int] == 0 || i + s[i as int] < n);
        let mut j: usize = i + 1;
        while j < i + w + 1
            invariant
                i < n,
                n == s.len(),
                countable(s),
                w == s[i as int],
                c == copies(s, i as int),
                w == 0 || i + w < n,
                i + 1 <= j <= i + w + 1,
                counts@.len() == n,
                forall|x: int| 0 <= x < n && !(i < x < j) ==> counts@[x] == 1 + won(s, i as int, x),
                forall|x: int| i < x < j ==> counts@[x] == 1 + won(s, i + 1, x),
            decreases i + w + 1 - j,
        {
            assert(1 + won(s, i + 1, j as int) <= usize::MAX);
            let old = counts[j];
            counts[j] = old + c;
            j += 1;
        }
        proof {
            assert forall|x: int| 0 <= x < n implies counts@[x] == 1 + won(s, i + 1, x) by {}
        }
        i += 1;
    }
    let mut total: usize = 0;
    let mut m: usize = 0;
    while m < n
        invariant
            m <= n,
            n == s.len(),
            countable(s),
            counts@.len() == n,
            forall|j: int| 0 <= j < n ==> counts@[j] == 1 + won(s, n as int, j),
            total == copies_to(s, m as int),
        decreases n - m,
    {
        proof {
            lemma_won(s, n as int, m as int);
            lemma_copies_to(s, m + 1, n as int);
        }
        total = total + counts[m];
        m += 1;
    }
    total
}

} // verus!
