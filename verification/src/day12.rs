//! Rows of springs, some of unknown condition, with the sizes of the groups
//! of damaged springs in each row.
use crate::text::{
    chars_of, lines, lines_of, parse_usize, split, split_on, unsigned_number, views, within,
};
use vstd::prelude::*;

verus! {

#[derive(Copy, Clone, Debug, PartialEq, Eq, Hash, Structural)]
pub enum Spring {
    Damaged,
    Operational,
    Unknown,
}

#[derive(Clone, Debug, PartialEq, Eq, Hash)]
pub struct Row {
    pub springs: Vec<Spring>,
    pub ecc: Vec<usize>,
}

/// The spring that a character stands for.
pub open spec fn spring_of(s: char) -> Option<Spring> {
    if s == '?' {
        Some(Spring::Unknown)
    } else if s == '#' {
        Some(Spring::Damaged)
    } else if s == '.' {
        Some(Spring::Operational)
    } else {
        None
    }
}

pub fn parse_spring(s: char) -> (r: Spring)
    requires
        spring_of(s) is Some,
    ensures
        Some(r) == spring_of(s),
{
    match s {
        '?' => Spring::Unknown,
        '#' => Spring::Damaged,
        _ => Spring::Operational,
    }
}

/// The number that a word writes, if it is one that fits a machine word.
pub open spec fn size(w: Seq<char>) -> Option<int> {
    within(unsigned_number(w), 0, usize::MAX as int)
}

/// What a line says of a row: before its only space the springs, behind it
/// the group sizes, separated by commas.
pub open spec fn row(line: Seq<char>) -> Option<(Seq<Spring>, Seq<usize>)> {
    let halves = split(line, seq![' ']);
    if halves.len() == 2 {
        let sizes = split(halves[1], seq![',']);
        if (forall|i: int| 0 <= i < halves[0].len() ==> spring_of(#[trigger] halves[0][i]) is Some)
            && (forall|i: int| 0 <= i < sizes.len() ==> size(#[trigger] sizes[i]) is Some) {
            Some(
                (
                    Seq::new(halves[0].len(), |i: int| spring_of(halves[0][i]).unwrap()),
                    Seq::new(sizes.len(), |i: int| size(sizes[i]).unwrap() as usize),
                ),
            )
        } else {
            None
        }
    } else {
        None
    }
}

fn row_of(line: &Vec<char>) -> (r: Option<Row>)
    ensures
        match r {
            Some(x) => row(line@) == Some((x.springs@, x.ecc@)),
            None => row(line@) is None,
        },
{
    let halves = split_on(line, ' ');
    if halves.len() != 2 {
        return None;
    }
    assert(views(halves@)[0] == halves@[0]@ && views(halves@)[1] == halves@[1]@);
    let l = &halves[0];
    let ghost h = split(line@, seq![' ']);
    let mut springs: Vec<Spring> = Vec::new();
    let mut i: usize = 0;
    while i < l.len()
        invariant
            i <= l.len(),
            h == split(line@, seq![' ']),
            h.len() == 2,
            h[0] == l@,
            springs.len() == i,
            forall|j: int| 0 <= j < i ==> spring_of(#[trigger] l@[j]) == Some(springs@[j]),
        decreases l.len() - i,
    {
        let c = l[i];
        if c == '?' || c == '#' || c == '.' {
            springs.push(parse_spring(c));
        } else {
            assert(spring_of(l@[i as int]) is None);
            return None;
        }
        i += 1;
    }
    let sizes = split_on(&halves[1], ',');
    let ghost all = views(sizes@);
    let mut ecc: Vec<usize> = Vec::new();
    let mut k: usize = 0;
    while k < sizes.len()
        invariant
            k <= sizes.len(),
            ecc.len() == k,
            all == views(sizes@),
            h == split(line@, seq![' ']),
            h.len() == 2,
            all == split(h[1], seq![',']),
            forall|j: int| 0 <= j < k ==> size(#[trigger] all[j]) == Some(ecc@[j] as int),
        decreases sizes.len() - k,
    {
        assert(all[k as int] == sizes@[k as int]@);
        match parse_usize(&sizes[k]) {
            Some(v) => {
                ecc.push(v);
            },
            None => {
                assert(size(all[k as int]) is None);
                return None;
            },
        }
        k += 1;
    }
    proof {
        assert(springs@ =~= Seq::new(l@.len(), |i: int| spring_of(l@[i]).unwrap()));
        assert(ecc@ =~= Seq::new(all.len(), |i: int| size(all[i]).unwrap() as usize));
    }
    Some(Row { springs, ecc })
}

/// Reads a row.
pub fn parse_line(line: &str) -> (r: Row)
    requires
        row(line@) is Some,
    ensures
        row(line@) == Some((r.springs@, r.ecc@)),
{
    match row_of(&chars_of(line)) {
        Some(x) => x,
        None => Row { springs: Vec::new(), ecc: Vec::new() },
    }
}

/// The sum of the first `k` sizes.
pub open spec fn sum_to(ecc: Seq<usize>, k: int) -> int
    decreases k,
{
    if k <= 0 {
        0
    } else {
        sum_to(ecc, k - 1) + ecc[k - 1]
    }
}

/// The least number of springs that holds the groups: all their springs and
/// one spring between each two.
pub open spec fn needed(ecc: Seq<usize>) -> int {
    sum_to(ecc, ecc.len() as int) + ecc.len() - 1
}

pub proof fn lemma_sum_to_monotone(ecc: Seq<usize>, a: int, b: int)
    requires
        0 <= a <= b <= ecc.len(),
    ensures
        0 <= sum_to(ecc, a) <= sum_to(ecc, b),
    decreases b,
{
    if a < b {
        lemma_sum_to_monotone(ecc, a, b - 1);
    } else if a > 0 {
        lemma_sum_to_monotone(ecc, a - 1, b - 1);
    }
}

/// The least number of springs that holds the groups.
pub fn min_len(ecc: Vec<usize>) -> (r: usize)
    requires
        0 <= needed(ecc@) <= usize::MAX,
        sum_to(ecc@, ecc@.len() as int) + ecc@.len() <= usize::MAX,
    ensures
        r == needed(ecc@),
{
    let mut sum: usize = 0;
    let mut i: usize = 0;
    while i < ecc.len()
        invariant
            i <= ecc.len(),
            sum == sum_to(ecc@, i as int),
            sum_to(ecc@, ecc@.len() as int) <= usize::MAX,
        decreases ecc.len() - i,
    {
        proof {
            lemma_sum_to_monotone(ecc@, i + 1, ecc@.len() as int);
        }
        sum += ecc[i];
        i += 1;
    }
    sum + ecc.len() - 1
}

/// How far the first group can move towards the end of the row while the
/// others still find room behind it.
pub fn freedom(r: Row) -> (f: usize)
    requires
        0 <= needed(r.ecc@) <= r.springs@.len(),
        sum_to(r.ecc@, r.ecc@.len() as int) + r.ecc@.len() <= usize::MAX,
    ensures
        f == r.springs@.len() - needed(r.ecc@),
{
    let n = r.springs.len();
    n - min_len(r.ecc)
}

/// The row behind the first group, where that group begins at `offset`:
/// without the springs up to the one that follows the group, and without
/// the group's size.
pub fn cut_first(r: Row, offset: usize) -> (c: Row)
    requires
        r.ecc@.len() > 0,
        offset + r.ecc@[0] + 1 <= usize::MAX,
    ensures
        c.ecc@ == r.ecc@.skip(1),
        c.springs@ == behind(r.springs@, r.ecc@[0] as int, offset as int),
{
    cut_of(&r, offset)
}

/// The first group can begin at `offset`: no spring before it is damaged,
/// none of its own is operational, and the spring behind it, if there is
/// one, is not damaged.
pub open spec fn fits_at(springs: Seq<Spring>, size: int, offset: int) -> bool {
    &&& forall|i: int| 0 <= i < offset ==> springs[i] != Spring::Damaged
    &&& forall|i: int| offset <= i < offset + size ==> springs[i] != Spring::Operational
    &&& (springs.len() == offset + size || springs[offset + size] != Spring::Damaged)
}

/// Whether the first group can begin at `offset`.
pub fn feasible(r: Row, offset: usize) -> (f: bool)
    requires
        r.ecc@.len() > 0,
        offset + r.ecc@[0] <= r.springs@.len(),
    ensures
        f == fits_at(r.springs@, r.ecc@[0] as int, offset as int),
{
    feasible_at(&r, offset)
}

/// The element at place `i` of the endless repetition of `s`.
pub open spec fn cycled<T>(s: Seq<T>, i: int) -> T {
    s[i % (s.len() as int)]
}

/// Five copies of the row: of the springs with an unknown spring between
/// each two, and of the sizes.
pub fn unfold(r: Row) -> (u: Row)
    requires
        5 * r.springs@.len() + 4 <= usize::MAX,
        5 * r.ecc@.len() <= usize::MAX,
    ensures
        u.springs@ == Seq::new(
            (5 * r.springs@.len() + 4) as nat,
            |i: int| cycled(r.springs@.push(Spring::Unknown), i),
        ),
        u.ecc@ == Seq::new((5 * r.ecc@.len()) as nat, |i: int| cycled(r.ecc@, i)),
{
    let n = r.springs.len();
    let ghost e = r.springs@.push(Spring::Unknown);
    let mut springs: Vec<Spring> = Vec::new();
    let mut i: usize = 0;
    let mut at: usize = 0;
    while i < 5 * n + 4
        invariant
            n == r.springs@.len(),
            e == r.springs@.push(Spring::Unknown),
            5 * n + 4 <= usize::MAX,
            i <= 5 * n + 4,
            springs.len() == i,
            at as int == (i as int) % (n + 1),
            forall|j: int| 0 <= j < i ==> #[trigger] springs@[j] == cycled(e, j),
        decreases 5 * n + 4 - i,
    {
        if at == n {
            springs.push(Spring::Unknown);
        } else {
            springs.push(r.springs[at]);
        }
        proof {
            assert(springs@[i as int] == e[at as int]);
            lemma_next_in_cycle(i as int, n + 1);
        }
        at = if at == n {
            0
        } else {
            at + 1
        };
        i += 1;
    }
    let m = r.ecc.len();
    let mut ecc: Vec<usize> = Vec::new();
    let mut k: usize = 0;
    let mut b: usize = 0;
    while k < 5 * m
        invariant
            m == r.ecc@.len(),
            5 * m <= usize::MAX,
            k <= 5 * m,
            ecc.len() == k,
            m > 0 ==> b as int == (k as int) % (m as int),
            forall|j: int| 0 <= j < k ==> #[trigger] ecc@[j] == cycled(r.ecc@, j),
        decreases 5 * m - k,
    {
        ecc.push(r.ecc[b]);
        proof {
            lemma_next_in_cycle(k as int, m as int);
        }
        b = if b + 1 == m {
            0
        } else {
            b + 1
        };
        k += 1;
    }
    proof {
        assert(springs@ =~= Seq::new((5 * n + 4) as nat, |i: int| cycled(e, i)));
        assert(ecc@ =~= Seq::new((5 * m) as nat, |i: int| cycled(r.ecc@, i)));
    }
    Row { ecc, springs }
}

/// Counting round a cycle: the place after `i` is one further, or the first
/// again.
pub proof fn lemma_next_in_cycle(i: int, n: int)
    requires
        0 <= i,
        0 < n,
    ensures
        0 <= i % n < n,
        (i + 1) % n == if i % n + 1 == n {
            0
        } else {
            i % n + 1
        },
{
    vstd::arithmetic::div_mod::lemma_fundamental_div_mod(i, n);
    vstd::arithmetic::div_mod::lemma_mod_pos_bound(i, n);
    let q = i / n;
    assert(q * n == n * q && (q + 1) * n == n * q + n) by (nonlinear_arith);
    if i % n + 1 == n {
        vstd::arithmetic::div_mod::lemma_fundamental_div_mod_converse(i + 1, n, i / n + 1, 0);
    } else {
        vstd::arithmetic::div_mod::lemma_fundamental_div_mod_converse(
            i + 1,
            n,
            i / n,
            i % n + 1,
        );
    }
}

/// No spring is damaged.
pub open spec fn no_damaged(sp: Seq<Spring>) -> bool {
    forall|i: int| 0 <= i < sp.len() ==> sp[i] != Spring::Damaged
}

/// The springs behind a group of `size` springs that begins at `offset` and
/// behind the spring that follows it.
pub open spec fn behind(sp: Seq<Spring>, size: int, offset: int) -> Seq<Spring> {
    if offset + size + 1 <= sp.len() {
        sp.skip(offset + size + 1)
    } else {
        Seq::empty()
    }
}

/// The number of ways in which damaged springs can stand for the unknown
/// ones so that the groups of damaged springs have the given sizes: with no
/// group left, one way if no spring is damaged; else, for each place where
/// the first group can begin, the ways for the rest of the row.
pub open spec fn arrangements(sp: Seq<Spring>, ecc: Seq<usize>) -> int
    decreases ecc.len(), 1int, 0int,
{
    if ecc.len() == 0 {
        if no_damaged(sp) {
            1
        } else {
            0
        }
    } else {
        placements(sp, ecc, sp.len() - needed(ecc) + 1)
    }
}

/// The ways in which the first group begins at one of the first `n`
/// places.
pub open spec fn placements(sp: Seq<Spring>, ecc: Seq<usize>, n: int) -> int
    decreases ecc.len(), 0int, n,
{
    if n <= 0 || ecc.len() == 0 {
        0
    } else {
        placements(sp, ecc, n - 1) + if fits_at(sp, ecc[0] as int, n - 1) {
            arrangements(behind(sp, ecc[0] as int, n - 1), ecc.drop_first())
        } else {
            0
        }
    }
}

pub proof fn lemma_sum_to_skip(ecc: Seq<usize>, k: int)
    requires
        ecc.len() > 0,
        0 <= k < ecc.len(),
    ensures
        sum_to(ecc.drop_first(), k) == sum_to(ecc, k + 1) - ecc[0],
    decreases k,
{
    if k > 0 {
        lemma_sum_to_skip(ecc, k - 1);
        assert(ecc.drop_first()[k - 1] == ecc[k]);
    } else {
        assert(sum_to(ecc, 1) == sum_to(ecc, 0) + ecc[0]);
    }
}

/// The groups but the first need what all need, less the first group and
/// the spring behind it.
pub proof fn lemma_needed_rest(ecc: Seq<usize>)
    requires
        ecc.len() > 0,
    ensures
        needed(ecc.drop_first()) == needed(ecc) - ecc[0] - 1,
        sum_to(ecc.drop_first(), ecc.len() - 1) == sum_to(ecc, ecc.len() as int) - ecc[0],
{
    lemma_sum_to_skip(ecc, ecc.len() - 1);
}

pub proof fn lemma_arrangements(sp: Seq<Spring>, ecc: Seq<usize>, n: int)
    ensures
        0 <= arrangements(sp, ecc),
        0 <= placements(sp, ecc, n),
        n > 0 && ecc.len() > 0 ==> placements(sp, ecc, n - 1) <= placements(sp, ecc, n),
    decreases ecc.len(), 1int, n,
{
    if ecc.len() > 0 {
        if n > 0 {
            lemma_arrangements(sp, ecc, n - 1);
            lemma_arrangements(behind(sp, ecc[0] as int, n - 1), ecc.drop_first(), 0);
        }
        lemma_placements_nonnegative(sp, ecc, sp.len() - needed(ecc) + 1);
    }
}

pub proof fn lemma_placements_nonnegative(sp: Seq<Spring>, ecc: Seq<usize>, n: int)
    ensures
        0 <= placements(sp, ecc, n),
    decreases ecc.len(), 0int, n,
{
    if n > 0 && ecc.len() > 0 {
        lemma_placements_nonnegative(sp, ecc, n - 1);
        let rest = ecc.drop_first();
        let b = behind(sp, ecc[0] as int, n - 1);
        if rest.len() > 0 {
            lemma_placements_nonnegative(b, rest, b.len() - needed(rest) + 1);
            assert(arrangements(b, rest) == placements(b, rest, b.len() - needed(rest) + 1));
        } else {
            assert(arrangements(b, rest) >= 0);
        }
    }
}

pub proof fn lemma_placements_monotone(sp: Seq<Spring>, ecc: Seq<usize>, a: int, b: int)
    requires
        a <= b,
    ensures
        placements(sp, ecc, a) <= placements(sp, ecc, b),
    decreases b - a,
{
    if a < b {
        lemma_placements_monotone(sp, ecc, a, b - 1);
        lemma_arrangements(sp, ecc, b);
        lemma_placements_nonnegative(sp, ecc, b - 1);
        lemma_placements_nonnegative(sp, ecc, a);
    }
}

fn damaged_free(sp: &Vec<Spring>) -> (r: bool)
    ensures
        r == no_damaged(sp@),
{
    let mut i: usize = 0;
    while i < sp.len()
        invariant
            i <= sp.len(),
            forall|j: int| 0 <= j < i ==> sp@[j] != Spring::Damaged,
        decreases sp.len() - i,
    {
        if sp[i] == Spring::Damaged {
            return false;
        }
        i += 1;
    }
    true
}

/// The row has room for its groups, and its length and the sizes with the
/// gaps between them fit a machine word.
pub open spec fn roomy(sp: Seq<Spring>, ecc: Seq<usize>) -> bool {
    ecc.len() == 0 || (needed(ecc) <= sp.len() && sp.len() < usize::MAX && sum_to(
        ecc,
        ecc.len() as int,
    ) + ecc.len() <= usize::MAX)
}

fn count_of(r: &Row) -> (n: usize)
    requires
        roomy(r.springs@, r.ecc@),
        arrangements(r.springs@, r.ecc@) <= usize::MAX,
    ensures
        n == arrangements(r.springs@, r.ecc@),
    decreases r.ecc@.len(),
{
    if r.ecc.len() == 0 {
        if damaged_free(&r.springs) {
            return 1;
        }
        return 0;
    }
    let ghost sp = r.springs@;
    let ghost ecc = r.ecc@;
    proof {
        lemma_sum_to_monotone(ecc, 1, ecc.len() as int);
        lemma_sum_to_monotone(ecc, 0, 1);
        assert(sum_to(ecc, 1) == ecc[0]);
    }
    let len = r.springs.len();
    let mut sum: usize = 0;
    let mut j: usize = 0;
    while j < r.ecc.len()
        invariant
            j <= r.ecc.len(),
            ecc == r.ecc@,
            sum == sum_to(ecc, j as int),
            sum_to(ecc, ecc.len() as int) <= usize::MAX,
        decreases r.ecc.len() - j,
    {
        proof {
            lemma_sum_to_monotone(ecc, j + 1, ecc.len() as int);
        }
        sum += r.ecc[j];
        j += 1;
    }
    let free = len - (sum + r.ecc.len() - 1);
    let size = r.ecc[0];
    let mut acc: usize = 0;
    let mut i: usize = 0;
    while i <= free
        invariant
            i <= free + 1,
            sp == r.springs@,
            ecc == r.ecc@,
            ecc.len() > 0,
            size == ecc[0],
            len == sp.len(),
            len < usize::MAX,
            free == sp.len() - needed(ecc),
            ecc[0] <= sum_to(ecc, ecc.len() as int),
            sum_to(ecc, ecc.len() as int) + ecc.len() <= usize::MAX,
            arrangements(sp, ecc) == placements(sp, ecc, free + 1),
            arrangements(sp, ecc) <= usize::MAX,
            acc == placements(sp, ecc, i as int),
        decreases free + 1 - i,
    {
        proof {
            lemma_placements_monotone(sp, ecc, i + 1, free + 1);
            lemma_arrangements(sp, ecc, i + 1);
            lemma_needed_rest(ecc);
        }
        if feasible_at(r, i) {
            let rest = cut_of(r, i);
            proof {
                let b = behind(sp, size as int, i as int);
                assert(rest.springs@ == b);
                assert(rest.ecc@ =~= ecc.drop_first());
                lemma_arrangements(b, ecc.drop_first(), 0);
                lemma_placements_nonnegative(sp, ecc, i as int);
                if ecc.drop_first().len() > 0 {
                    assert(i + size + 1 <= sp.len());
                }
            }
            acc = acc + count_of(&rest);
        }
        if i == free {
            return acc;
        }
        i += 1;
    }
    acc
}

fn feasible_at(r: &Row, offset: usize) -> (f: bool)
    requires
        r.ecc@.len() > 0,
        offset + r.ecc@[0] <= r.springs@.len(),
    ensures
        f == fits_at(r.springs@, r.ecc@[0] as int, offset as int),
{
    let size = r.ecc[0];
    let mut i: usize = 0;
    while i < offset
        invariant
            i <= offset,
            size == r.ecc@[0],
            offset + size <= r.springs.len(),
            forall|j: int| 0 <= j < i ==> r.springs@[j] != Spring::Damaged,
        decreases offset - i,
    {
        if r.springs[i] == Spring::Damaged {
            assert(r.springs@[i as int] == Spring::Damaged);
            return false;
        }
        i += 1;
    }
    while i < offset + size
        invariant
            offset <= i <= offset + size,
            size == r.ecc@[0],
            offset + size <= r.springs.len(),
            forall|j: int| 0 <= j < offset ==> r.springs@[j] != Spring::Damaged,
            forall|j: int| offset <= j < i ==> r.springs@[j] != Spring::Operational,
        decreases offset + size - i,
    {
        if r.springs[i] == Spring::Operational {
            assert(r.springs@[i as int] == Spring::Operational);
            return false;
        }
        i += 1;
    }
    (r.springs.len() == (offset + size)) || (r.springs[offset + size] != Spring::Damaged)
}

fn cut_of(r: &Row, offset: usize) -> (c: Row)
    requires
        r.ecc@.len() > 0,
        offset + r.ecc@[0] + 1 <= usize::MAX,
    ensures
        c.ecc@ == r.ecc@.skip(1),
        c.springs@ == behind(r.springs@, r.ecc@[0] as int, offset as int),
{
    let from = offset + r.ecc[0] + 1;
    let mut springs: Vec<Spring> = Vec::new();
    let mut i: usize = from;
    while i < r.springs.len()
        invariant
            from <= i,
            from <= r.springs.len() ==> i <= r.springs.len(),
            from <= r.springs.len() ==> springs@ == r.springs@.subrange(from as int, i as int),
            from > r.springs.len() ==> springs@.len() == 0,
        decreases r.springs.len() - i,
    {
        springs.push(r.springs[i]);
        proof {
            assert(r.springs@.subrange(from as int, i + 1) =~= r.springs@.subrange(
                from as int,
                i as int,
            ).push(r.springs@[i as int]));
        }
        i += 1;
    }
    let mut ecc: Vec<usize> = Vec::new();
    let mut k: usize = 1;
    while k < r.ecc.len()
        invariant
            1 <= k <= r.ecc.len(),
            ecc@ == r.ecc@.subrange(1, k as int),
        decreases r.ecc.len() - k,
    {
        ecc.push(r.ecc[k]);
        proof {
            assert(r.ecc@.subrange(1, k + 1) =~= r.ecc@.subrange(1, k as int).push(
                r.ecc@[k as int],
            ));
        }
        k += 1;
    }
    proof {
        assert(r.ecc@.subrange(1, r.ecc@.len() as int) =~= r.ecc@.skip(1));
        if from <= r.springs.len() {
            assert(r.springs@.subrange(from as int, r.springs@.len() as int) =~= r.springs@.skip(
                from as int,
            ));
        } else {
            assert(springs@ =~= Seq::<Spring>::empty());
        }
    }
    Row { ecc, springs }
}

/// The number of ways in which damaged springs can stand for the unknown
/// ones of a row.
pub fn count_possibilities_brute_force(r: Row) -> (n: usize)
    requires
        roomy(r.springs@, r.ecc@),
        arrangements(r.springs@, r.ecc@) <= usize::MAX,
    ensures
        n == arrangements(r.springs@, r.ecc@),
{
    count_of(&r)
}

/// The ways of the first `k` lines together.
pub open spec fn ways_to(ls: Seq<Seq<char>>, k: int) -> int
    decreases k,
{
    if k <= 0 {
        0
    } else {
        ways_to(ls, k - 1) + arrangements(row(ls[k - 1]).unwrap().0, row(ls[k - 1]).unwrap().1)
    }
}

/// Every line is a row with room for its groups, and the ways up to any
/// line fit a machine word.
pub open spec fn countable(ls: Seq<Seq<char>>) -> bool {
    forall|k: int|
        0 <= k < ls.len() ==> {
            &&& row(#[trigger] ls[k]) is Some
            &&& roomy(row(ls[k]).unwrap().0, row(ls[k]).unwrap().1)
            &&& ways_to(ls, k + 1) <= usize::MAX
        }
}

pub proof fn lemma_ways_nonnegative(ls: Seq<Seq<char>>, k: int)
    ensures
        0 <= ways_to(ls, k),
    decreases k,
{
    if k > 0 {
        lemma_ways_nonnegative(ls, k - 1);
        lemma_arrangements(row(ls[k - 1]).unwrap().0, row(ls[k - 1]).unwrap().1, 0);
    }
}

/// The sum of the numbers of ways of the rows of a text.
pub fn part1(f: &str) -> (r: usize)
    requires
        countable(lines_of(f@)),
    ensures
        r == ways_to(lines_of(f@), lines_of(f@).len() as int),
{
    let ls = lines(f);
    let ghost all = lines_of(f@);
    let mut acc: usize = 0;
    let mut i: usize = 0;
    while i < ls.len()
        invariant
            i <= ls.len(),
            all == views(ls@),
            countable(all),
            acc == ways_to(all, i as int),
        decreases ls.len() - i,
    {
        proof {
            assert(all[i as int] == ls@[i as int]@);
            assert(row(all[i as int]) is Some && ways_to(all, i + 1) <= usize::MAX);
            lemma_ways_nonnegative(all, i as int);
            lemma_arrangements(row(all[i as int]).unwrap().0, row(all[i as int]).unwrap().1, 0);
        }
        match row_of(&ls[i]) {
            Some(r) => {
                acc = acc + count_of(&r);
            },
            None => {},
        }
        i += 1;
    }
    acc
}

/// The springs of a row unfolded: five copies with an unknown spring
/// between each two.
pub open spec fn unfolded_springs(sp: Seq<Spring>) -> Seq<Spring> {
    Seq::new((5 * sp.len() + 4) as nat, |i: int| cycled(sp.push(Spring::Unknown), i))
}

/// The sizes of a row unfolded: five copies.
pub open spec fn unfolded_sizes(ecc: Seq<usize>) -> Seq<usize> {
    Seq::new((5 * ecc.len()) as nat, |i: int| cycled(ecc, i))
}

/// The ways of the first `k` lines together, each unfolded.
pub open spec fn unfolded_ways_to(ls: Seq<Seq<char>>, k: int) -> int
    decreases k,
{
    if k <= 0 {
        0
    } else {
        unfolded_ways_to(ls, k - 1) + arrangements(
            unfolded_springs(row(ls[k - 1]).unwrap().0),
            unfolded_sizes(row(ls[k - 1]).unwrap().1),
        )
    }
}

/// Every line is a row that, unfolded, has room for its groups, and the
/// ways up to any line fit a machine word.
pub open spec fn unfoldable(ls: Seq<Seq<char>>) -> bool {
    forall|k: int|
        0 <= k < ls.len() ==> {
            &&& row(#[trigger] ls[k]) is Some
            &&& 5 * row(ls[k]).unwrap().0.len() + 4 <= usize::MAX
            &&& 5 * row(ls[k]).unwrap().1.len() <= usize::MAX
            &&& roomy(
                unfolded_springs(row(ls[k]).unwrap().0),
                unfolded_sizes(row(ls[k]).unwrap().1),
            )
            &&& unfolded_ways_to(ls, k + 1) <= usize::MAX
        }
}

pub proof fn lemma_unfolded_ways_nonnegative(ls: Seq<Seq<char>>, k: int)
    ensures
        0 <= unfolded_ways_to(ls, k),
    decreases k,
{
    if k > 0 {
        lemma_unfolded_ways_nonnegative(ls, k - 1);
        lemma_arrangements(
            unfolded_springs(row(ls[k - 1]).unwrap().0),
            unfolded_sizes(row(ls[k - 1]).unwrap().1),
            0,
        );
    }
}

/// The sum of the numbers of ways of the rows of a text, each unfolded.
pub fn part2(f: &str) -> (r: usize)
    requires
        unfoldable(lines_of(f@)),
    ensures
        r == unfolded_ways_to(lines_of(f@), lines_of(f@).len() as int),
{
    let ls = lines(f);
    let ghost all = lines_of(f@);
    let mut acc: usize = 0;
    let mut i: usize = 0;
    while i < ls.len()
        invariant
            i <= ls.len(),
            all == views(ls@),
            unfoldable(all),
            acc == unfolded_ways_to(all, i as int),
        decreases ls.len() - i,
    {
        proof {
            assert(all[i as int] == ls@[i as int]@);
            assert(row(all[i as int]) is Some && unfolded_ways_to(all, i + 1) <= usize::MAX);
            lemma_unfolded_ways_nonnegative(all, i as int);
            lemma_arrangements(
                unfolded_springs(row(all[i as int]).unwrap().0),
                unfolded_sizes(row(all[i as int]).unwrap().1),
                0,
            );
        }
        match row_of(&ls[i]) {
            Some(r) => {
                let u = unfold(r);
                acc = acc + count_of(&u);
            },
            None => {},
        }
        i += 1;
    }
    acc
}

} // verus!
