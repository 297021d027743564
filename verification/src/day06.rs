//! Boat races: the longer the button is held, the faster the boat, and the
//! less time is left to go.
use crate::day09::readings;
use crate::text::{lines, lines_of, parse_i64, signed_number, views, within, words_of};
use vstd::prelude::*;

verus! {

/// How far beyond the record the boat goes that is held `x` of the `time`:
/// `x` times the rest of the time, less the record `distance`.
pub open spec fn margin(x: int, time: int, distance: int) -> int {
    x * (time - x) - distance
}

/// The boat that is held `x` of the time beats the record.
pub open spec fn wins(x: int, time: int, distance: int) -> bool {
    margin(x, time, distance) > 0
}

/// The time and the record are not negative and small enough for the
/// margins to fit 64 bits.
pub open spec fn race_ok(time: int, distance: int) -> bool {
    0 <= time <= 0x7fff_ffff && 0 <= distance <= 0x3fff_ffff_ffff_ffff
}

/// The margin at `w` in terms of the margin at `x` and its slope there: it
/// lies below the tangent by the square of the distance.
pub proof fn lemma_margin_from(x: int, w: int, time: int, distance: int)
    ensures
        margin(w, time, distance) == margin(x, time, distance) + (time - 2 * x) * (w - x) - (w - x)
            * (w - x),
{
    assert(w * (time - w) - distance == (x * (time - x) - distance) + (time - 2 * x) * (w - x)
        - (w - x) * (w - x)) by (nonlinear_arith);
}

/// Between two places where the boat wins, it wins.
pub proof fn lemma_wins_between(y: int, c: int, w: int, time: int, distance: int)
    requires
        y <= c <= w,
        wins(y, time, distance),
        wins(w, time, distance),
    ensures
        wins(c, time, distance),
{
    lemma_margin_from(c, y, time, distance);
    lemma_margin_from(c, w, time, distance);
    let dc = time - 2 * c;
    let a = y - c;
    let b = w - c;
    assert(b * b >= 0 && a * a >= 0) by (nonlinear_arith);
    if dc >= 0 {
        assert(dc * a <= 0) by (nonlinear_arith)
            requires
                dc >= 0,
                a <= 0,
        ;
    } else {
        assert(dc * b <= 0) by (nonlinear_arith)
            requires
                dc <= 0,
                b >= 0,
        ;
    }
}

/// Where the boat wins, it is held some of the time but not all.
pub proof fn lemma_wins_inside(w: int, time: int, distance: int)
    requires
        race_ok(time, distance),
        wins(w, time, distance),
    ensures
        0 < w < time,
{
    assert(w * (time - w) - distance > 0 ==> 0 < w < time) by (nonlinear_arith)
        requires
            0 <= time,
            0 <= distance,
    ;
}

pub proof fn lemma_margin_bounds(x: int, time: int, distance: int)
    requires
        race_ok(time, distance),
        0 <= x <= time,
    ensures
        -0x3fff_ffff_ffff_ffff <= margin(x, time, distance) <= 0x3fff_ffff_0000_0001,
        0 <= x * (time - x) <= 0x3fff_ffff_0000_0001,
{
    assert(0 <= x * (time - x) <= 0x7fff_ffff * 0x7fff_ffff) by (nonlinear_arith)
        requires
            0 <= x <= time,
            time <= 0x7fff_ffff,
    ;
}

fn f(x: i64, time: i64, distance: i64) -> (r: i64)
    requires
        race_ok(time as int, distance as int),
        0 <= x <= time,
    ensures
        r == margin(x as int, time as int, distance as int),
{
    proof {
        lemma_margin_bounds(x as int, time as int, distance as int);
    }
    x * (time - x) - distance
}

/// A step along the tangent towards a place where the boat wins stays
/// before that place, and the boat does not win where it leads: `n` is how
/// far the boat is from winning, `a` how fast that lessens, `g` how far
/// the winning place is and `s` the step.
pub proof fn lemma_tangent_step(n: int, a: int, g: int, s: int, fw: int)
    requires
        fw > 0,
        fw == -n + a * g - g * g,
        n >= 0,
        g > 0,
        a > 0,
        s == n / a,
    ensures
        0 <= s < g,
        -n + a * s - s * s <= 0,
{
    vstd::arithmetic::div_mod::lemma_fundamental_div_mod(n, a);
    vstd::arithmetic::div_mod::lemma_mod_bound(n, a);
    vstd::arithmetic::div_mod::lemma_div_pos_is_pos(n, a);
    assert(a * s <= n);
    assert(s < g) by (nonlinear_arith)
        requires
            fw > 0,
            fw == -n + a * g - g * g,
            a * s <= n,
            a > 0,
            g > 0,
            s >= 0,
    ;
    assert(-n + a * s - s * s <= 0) by (nonlinear_arith)
        requires
            a * s <= n,
    ;
}

/// The least time for which the boat wins, where the search starts at no
/// time with the slope 1, or the greatest, where it starts at the whole
/// time with the slope -1: first a place near the bound is found by steps
/// along the tangent, then the bound itself step by step.
pub fn find_bound(start: i64, time: i64, distance: i64, slope: i64) -> (r: i64)
    requires
        race_ok(time as int, distance as int),
        exists|w: int| wins(w, time as int, distance as int),
        (start == 0 && slope == 1) || (start == time && slope == -1),
    ensures
        wins(r as int, time as int, distance as int),
        slope == 1 ==> forall|y: int| y < r ==> !wins(y, time as int, distance as int),
        slope == -1 ==> forall|y: int| y > r ==> !wins(y, time as int, distance as int),
{
    let ghost w = choose|w: int| wins(w, time as int, distance as int);
    let ghost t = time as int;
    let ghost d = distance as int;
    proof {
        lemma_wins_inside(w, t, d);
        assert(0 * (t - 0) == 0 && t * (t - t) == 0) by (nonlinear_arith);
    }
    let mut curr = start;
    loop
        invariant
            race_ok(t, d),
            t == time,
            d == distance,
            wins(w, t, d),
            0 < w < t,
            slope == 1 || slope == -1,
            slope == 1 ==> 0 <= curr < w,
            slope == -1 ==> w < curr <= t,
            margin(curr as int, t, d) <= 0,
        decreases
                if slope == 1 {
                    w - curr
                } else {
                    curr - w
                },
    {
        let fc = f(curr, time, distance);
        let dc = time - 2 * curr;
        let ghost g: int = if slope == 1 {
            w - curr
        } else {
            curr - w
        };
        let ghost a: int = if slope == 1 {
            dc as int
        } else {
            -dc
        };
        let ghost n: int = -fc;
        proof {
            lemma_margin_from(curr as int, w, t, d);
            lemma_margin_bounds(curr as int, t, d);
            assert((t - 2 * curr) * (w - curr) == a * g) by (nonlinear_arith)
                requires
                    slope == 1 && a == t - 2 * curr && g == w - curr || slope == -1 && a == -(t - 2
                        * curr) && g == curr - w,
            ;
            assert((w - curr) * (w - curr) == g * g) by (nonlinear_arith)
                requires
                    g == w - curr || g == curr - w,
            ;
            assert(a > 0) by (nonlinear_arith)
                requires
                    margin(w, t, d) == -n + a * g - g * g,
                    margin(w, t, d) > 0,
                    n >= 0,
                    g > 0,
            ;
        }
        let s: i64 = if slope == 1 {
            (0 - fc) / dc
        } else {
            (0 - fc) / (0 - dc)
        };
        let next = if slope == 1 {
            curr + s
        } else {
            curr - s
        };
        proof {
            lemma_tangent_step(n, a, g, s as int, margin(w, t, d));
            lemma_margin_from(curr as int, next as int, t, d);
            assert((t - 2 * curr) * (next - curr) == a * s) by (nonlinear_arith)
                requires
                    slope == 1 && a == t - 2 * curr && next - curr == s || slope == -1 && a == -(t
                        - 2 * curr) && next - curr == -s,
            ;
            assert((next - curr) * (next - curr) == s * s) by (nonlinear_arith)
                requires
                    next - curr == s || next - curr == -s,
            ;
        }
        if next == curr {
            break ;
        }
        curr = next;
    }
    proof {
        assert forall|y: int| (slope == 1 && y < curr || slope == -1 && y > curr) implies !wins(
            y,
            t,
            d,
        ) by {
            if wins(y, t, d) {
                if slope == 1 {
                    lemma_wins_between(y, curr as int, w, t, d);
                } else {
                    lemma_wins_between(w, curr as int, y, t, d);
                }
            }
        }
    }
    loop
        invariant
            race_ok(t, d),
            t == time,
            d == distance,
            wins(w, t, d),
            0 < w < t,
            slope == 1 || slope == -1,
            slope == 1 ==> 0 <= curr <= w,
            slope == -1 ==> w <= curr <= t,
            slope == 1 ==> forall|y: int| y < curr ==> !wins(y, t, d),
            slope == -1 ==> forall|y: int| y > curr ==> !wins(y, t, d),
        decreases
                if slope == 1 {
                    w - curr
                } else {
                    curr - w
                },
    {
        if f(curr, time, distance) > 0 {
            return curr;
        }
        curr += slope;
    }
}

/// The least and the greatest time for which the boat wins: it wins for
/// the times from the one to the other and for no others.
pub fn get_range(race: (i64, i64)) -> (r: (i64, i64))
    requires
        race_ok(race.0 as int, race.1 as int),
        exists|w: int| wins(w, race.0 as int, race.1 as int),
    ensures
        wins(r.0 as int, race.0 as int, race.1 as int),
        wins(r.1 as int, race.0 as int, race.1 as int),
        r.0 <= r.1,
        forall|x: int| r.0 <= x <= r.1 ==> #[trigger] wins(x, race.0 as int, race.1 as int),
        forall|x: int| #[trigger] wins(x, race.0 as int, race.1 as int) ==> r.0 <= x <= r.1,
{
    let (time, distance) = race;
    let lo = find_bound(0, time, distance, 1);
    let hi = find_bound(time, time, distance, -1);
    proof {
        assert forall|x: int| lo <= x <= hi implies #[trigger] wins(x, time as int, distance as int) by {
            lemma_wins_between(lo as int, x, hi as int, time as int, distance as int);
        }
    }
    (lo, hi)
}

/// The numbers in a line between blanks; what is no number is left out.
pub fn parse_line_of_numbers(l: &str) -> (r: Vec<i64>)
    ensures
        r@ == readings(words_of(l@)),
{
    crate::day09::parse_line(l)
}

/// The races of a text of two lines: the times on the first and the
/// records on the second, as many as both lines have.
pub open spec fn races(f: Seq<char>) -> Seq<(i64, i64)> {
    let a = readings(words_of(lines_of(f)[0]));
    let b = readings(words_of(lines_of(f)[1]));
    Seq::new(
        if a.len() <= b.len() {
            a.len()
        } else {
            b.len()
        },
        |i: int| (a[i], b[i]),
    )
}

/// Reads the races of a text.
pub fn parse(f: &str) -> (r: Vec<(i64, i64)>)
    requires
        lines_of(f@).len() == 2,
    ensures
        r@ == races(f@),
{
    let ls = lines(f);
    assert(views(ls@)[0] == ls@[0]@ && views(ls@)[1] == ls@[1]@);
    let first = crate::text::string_of(&ls[0]);
    let second = crate::text::string_of(&ls[1]);
    let a = parse_line_of_numbers(first.as_str());
    let b = parse_line_of_numbers(second.as_str());
    let n = if a.len() <= b.len() {
        a.len()
    } else {
        b.len()
    };
    let mut out: Vec<(i64, i64)> = Vec::new();
    let mut i: usize = 0;
    while i < n
        invariant
            i <= n,
            n <= a.len(),
            n <= b.len(),
            out@.len() == i,
            forall|j: int| 0 <= j < i ==> out@[j] == (a@[j], b@[j]),
        decreases n - i,
    {
        out.push((a[i], b[i]));
        i += 1;
    }
    assert(out@ =~= races(f@));
    out
}

/// Whether a character is numeric. What std's `char::is_numeric` says of
/// it.
pub uninterp spec fn numeric(c: char) -> bool;

/// Whether a character is numeric. Calls std's `char::is_numeric`, which
/// tells by the character alone.
#[verifier::external_body]
fn is_numeric(c: char) -> (r: bool)
    ensures
        r == numeric(c),
{
    c.is_numeric()
}

/// The numeric characters of a line, in order.
pub open spec fn kept(l: Seq<char>) -> Seq<char>
    decreases l.len(),
{
    if l.len() == 0 {
        Seq::empty()
    } else if numeric(l.last()) {
        kept(l.drop_last()).push(l.last())
    } else {
        kept(l.drop_last())
    }
}

/// The number that the numeric characters of a line write together, if
/// they write one.
pub open spec fn kerned(l: Seq<char>) -> Option<int> {
    within(signed_number(kept(l)), i64::MIN as int, i64::MAX as int)
}

fn read_kerned(l: &Vec<char>) -> (r: Option<i64>)
    ensures
        match r {
            Some(v) => kerned(l@) == Some(v as int),
            None => kerned(l@) is None,
        },
{
    let mut digits: Vec<char> = Vec::new();
    let mut i: usize = 0;
    proof {
        assert(l@.take(0) =~= Seq::<char>::empty());
    }
    while i < l.len()
        invariant
            i <= l.len(),
            digits@ == kept(l@.take(i as int)),
        decreases l.len() - i,
    {
        proof {
            assert(l@.take(i + 1).drop_last() =~= l@.take(i as int));
            assert(l@.take(i + 1).last() == l@[i as int]);
        }
        if is_numeric(l[i]) {
            digits.push(l[i]);
        }
        i += 1;
    }
    proof {
        assert(l@.take(l@.len() as int) =~= l@);
    }
    parse_i64(&digits)
}

/// The one race of a text of two lines, if the numeric characters of each
/// line write a number: the time from the first line and the record from
/// the second.
pub fn read_race(f: &str) -> (r: Option<(i64, i64)>)
    ensures
        match r {
            Some(race) => lines_of(f@).len() == 2 && kerned(lines_of(f@)[0]) == Some(
                race.0 as int,
            ) && kerned(lines_of(f@)[1]) == Some(race.1 as int),
            None => lines_of(f@).len() != 2 || kerned(lines_of(f@)[0]) is None || kerned(
                lines_of(f@)[1],
            ) is None,
        },
{
    let ls = lines(f);
    if ls.len() != 2 {
        return None;
    }
    assert(views(ls@)[0] == ls@[0]@ && views(ls@)[1] == ls@[1]@);
    match (read_kerned(&ls[0]), read_kerned(&ls[1])) {
        (Some(a), Some(b)) => Some((a, b)),
        _ => None,
    }
}

/// The one race of a text of two lines: the numeric characters of each line
/// write a number together.
pub fn parse2(f: &str) -> (r: (i64, i64))
    requires
        lines_of(f@).len() == 2,
        kerned(lines_of(f@)[0]) is Some,
        kerned(lines_of(f@)[1]) is Some,
    ensures
        kerned(lines_of(f@)[0]) == Some(r.0 as int),
        kerned(lines_of(f@)[1]) == Some(r.1 as int),
{
    match read_race(f) {
        Some(race) => race,
        None => (0, 0),
    }
}

/// The number of times for which the boat wins a race.
#[verifier::opaque]
pub open spec fn ways(race: (i64, i64)) -> int {
    let lo = choose|lo: int|
        wins(lo, race.0 as int, race.1 as int) && forall|y: int|
            y < lo ==> !wins(y, race.0 as int, race.1 as int);
    let hi = choose|hi: int|
        wins(hi, race.0 as int, race.1 as int) && forall|y: int|
            y > hi ==> !wins(y, race.0 as int, race.1 as int);
    hi - lo + 1
}

/// The product of the numbers of ways of the first `k` races.
pub open spec fn ways_to(rs: Seq<(i64, i64)>, k: int) -> int
    decreases k,
{
    if k <= 0 {
        1
    } else {
        ways_to(rs, k - 1) * ways(rs[k - 1])
    }
}

/// The race can be won within 64 bits.
#[verifier::opaque]
pub open spec fn winnable(race: (i64, i64)) -> bool {
    race_ok(race.0 as int, race.1 as int) && exists|w: int| wins(w, race.0 as int, race.1 as int)
}

/// The number of ways to win a race, from its bounds.
pub proof fn lemma_ways(race: (i64, i64), lo: int, hi: int)
    requires
        wins(lo, race.0 as int, race.1 as int),
        wins(hi, race.0 as int, race.1 as int),
        forall|y: int| y < lo ==> !wins(y, race.0 as int, race.1 as int),
        forall|y: int| y > hi ==> !wins(y, race.0 as int, race.1 as int),
    ensures
        ways(race) == hi - lo + 1,
{
    reveal(ways);
    let l = choose|l: int|
        wins(l, race.0 as int, race.1 as int) && forall|y: int|
            y < l ==> !wins(y, race.0 as int, race.1 as int);
    let h = choose|h: int|
        wins(h, race.0 as int, race.1 as int) && forall|y: int|
            y > h ==> !wins(y, race.0 as int, race.1 as int);
    assert(l == lo) by {
        if l < lo {
            assert(!wins(l, race.0 as int, race.1 as int));
        }
        if lo < l {
            assert(!wins(lo, race.0 as int, race.1 as int));
        }
    }
    assert(h == hi) by {
        if h > hi {
            assert(!wins(h, race.0 as int, race.1 as int));
        }
        if hi > h {
            assert(!wins(hi, race.0 as int, race.1 as int));
        }
    }
}

fn count(race: (i64, i64)) -> (r: i64)
    requires
        winnable(race),
    ensures
        r == ways(race),
        1 <= r,
{
    let (time, distance) = race;
    proof {
        reveal(winnable);
    }
    let lo = find_bound(0, time, distance, 1);
    let hi = find_bound(time, time, distance, -1);
    proof {
        lemma_ways(race, lo as int, hi as int);
        lemma_wins_inside(lo as int, time as int, distance as int);
        lemma_wins_inside(hi as int, time as int, distance as int);
        if hi < lo {
            assert(!wins(hi as int, time as int, distance as int));
        }
    }
    hi - lo + 1
}

/// Race `k` can be won, and the product of the numbers of ways up to it
/// fits 64 bits.
pub open spec fn race_ok_at(rs: Seq<(i64, i64)>, k: int) -> bool {
    winnable(rs[k]) && ways_to(rs, k + 1) <= i64::MAX
}

/// Every race can be won, and the products of the numbers of ways fit 64
/// bits.
pub open spec fn raceable(rs: Seq<(i64, i64)>) -> bool {
    forall|k: int| 0 <= k < rs.len() ==> #[trigger] race_ok_at(rs, k)
}

/// The product of the numbers of ways to win the races of a text.
pub fn solve(f: &str) -> (r: i64)
    requires
        lines_of(f@).len() == 2,
        raceable(races(f@)),
    ensures
        r == ways_to(races(f@), races(f@).len() as int),
{
    let rs = parse(f);
    let mut acc: i64 = 1;
    let mut k: usize = 0;
    while k < rs.len()
        invariant
            k <= rs.len(),
            raceable(rs@),
            1 <= acc,
            acc == ways_to(rs@, k as int),
        decreases rs.len() - k,
    {
        assert(race_ok_at(rs@, k as int));
        let c = count(rs[k]);
        proof {
            assert(ways_to(rs@, k + 1) == ways_to(rs@, k as int) * ways(rs@[k as int]));
            assert(1 <= acc * c) by (nonlinear_arith)
                requires
                    1 <= acc,
                    1 <= c,
            ;
        }
        acc = acc * c;
        k += 1;
    }
    acc
}

/// The number of ways to win the one race of a text.
pub fn solve2(f: &str) -> (r: i64)
    requires
        lines_of(f@).len() == 2,
        kerned(lines_of(f@)[0]) is Some,
        kerned(lines_of(f@)[1]) is Some,
        winnable(
            (
                kerned(lines_of(f@)[0]).unwrap() as i64,
                kerned(lines_of(f@)[1]).unwrap() as i64,
            ),
        ),
    ensures
        r == ways(
            (
                kerned(lines_of(f@)[0]).unwrap() as i64,
                kerned(lines_of(f@)[1]).unwrap() as i64,
            ),
        ),
{
    count(parse2(f))
}

} // verus!
