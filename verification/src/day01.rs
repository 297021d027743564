//! Calibration values: the first and the last digit of a line, where a digit
//! may be spelled out.
use crate::text::{
    chars_of, find_first, find_last, first_at, last_at, lines, lines_of, occurs_at, views,
};
use vstd::prelude::*;

verus! {

/// The end of a line from which a digit is sought.
#[derive(Clone, Copy, Debug, PartialEq, Eq, Structural)]
pub enum End {
    Left,
    Right,
}

/// The matchers for the ten digits.
pub fn just_digits() -> (r: Vec<(i32, &'static str)>)
    ensures
        r@.len() == 10,
{
    vec![
        (0, "0"),
        (1, "1"),
        (2, "2"),
        (3, "3"),
        (4, "4"),
        (5, "5"),
        (6, "6"),
        (7, "7"),
        (8, "8"),
        (9, "9"),
    ]
}

/// The matchers for the ten digits and their names.
pub fn digits_and_strings() -> (r: Vec<(i32, &'static str)>)
    ensures
        r@.len() == 20,
{
    vec![
        (0, "0"),
        (0, "zero"),
        (1, "1"),
        (1, "one"),
        (2, "2"),
        (2, "two"),
        (3, "3"),
        (3, "three"),
        (4, "4"),
        (4, "four"),
        (5, "5"),
        (5, "five"),
        (6, "6"),
        (6, "six"),
        (7, "7"),
        (7, "seven"),
        (8, "8"),
        (8, "eight"),
        (9, "9"),
        (9, "nine"),
    ]
}

/// The number with the given tens and ones.
pub fn dgts_to_int(pair: (i32, i32)) -> (r: i32)
    requires
        i32::MIN <= pair.0 * 10 <= i32::MAX,
        i32::MIN <= pair.0 * 10 + pair.1 <= i32::MAX,
    ensures
        r == pair.0 * 10 + pair.1,
{
    let (tens, ones) = pair;
    tens * 10 + ones
}

/// `d` is how far `sub` stands from the given end of `s`: the number of
/// characters before its first occurrence, or behind its last.
pub open spec fn distance_is(end: End, s: Seq<char>, sub: Seq<char>, d: int) -> bool {
    match end {
        End::Left => first_at(s, sub, d),
        End::Right => last_at(s, sub, s.len() - sub.len() - d),
    }
}

/// `sub` stands somewhere in `s`.
pub open spec fn occurs(s: Seq<char>, sub: Seq<char>) -> bool {
    exists|i: int| occurs_at(s, sub, i)
}

/// The matcher's value and how far the matcher's text stands from the given
/// end of `string`, if it stands in it at all.
pub fn index<T: Copy>(end: End, string: &str, matcher: (T, &str)) -> (r: Option<(T, usize)>)
    ensures
        match r {
            Some((c, d)) => c == matcher.0 && distance_is(end, string@, matcher.1@, d as int),
            None => !occurs(string@, matcher.1@),
        },
{
    let (c, sub) = matcher;
    let s = chars_of(string);
    let t = chars_of(sub);
    match end {
        End::Left => match find_first(&s, &t) {
            Some(position) => Some((c, position)),
            None => None,
        },
        End::Right => match find_last(&s, &t) {
            Some(position) => Some((c, s.len() - t.len() - position)),
            None => None,
        },
    }
}

/// The matcher at `k` stands nearest to the given end of `s`, and before it
/// in the list none stands as near.
pub open spec fn nearest<T>(matchers: Seq<(T, &str)>, s: Seq<char>, end: End, k: int) -> bool {
    &&& 0 <= k < matchers.len()
    &&& exists|d: int|
        {
            &&& distance_is(end, s, matchers[k].1@, d)
            &&& forall|j: int, e: int|
                0 <= j < matchers.len() && #[trigger] distance_is(end, s, matchers[j].1@, e) ==> d
                    < e || (d == e && k <= j)
        }
}

/// How far something stands from an end is one number.
pub proof fn lemma_distance_unique(end: End, s: Seq<char>, sub: Seq<char>, d: int, e: int)
    requires
        distance_is(end, s, sub, d),
        distance_is(end, s, sub, e),
    ensures
        d == e,
{
    match end {
        End::Left => {
            if d < e {
                assert(!occurs_at(s, sub, d));
            }
            if e < d {
                assert(!occurs_at(s, sub, e));
            }
        },
        End::Right => {
            let a = s.len() - sub.len() - d;
            let b = s.len() - sub.len() - e;
            if a < b {
                assert(!occurs_at(s, sub, b));
            }
            if b < a {
                assert(!occurs_at(s, sub, a));
            }
        },
    }
}

/// Only one matcher is the nearest.
pub proof fn lemma_nearest_unique<T>(matchers: Seq<(T, &str)>, s: Seq<char>, end: End, a: int, b: int)
    requires
        nearest(matchers, s, end, a),
        nearest(matchers, s, end, b),
    ensures
        a == b,
{
    let d = choose|d: int|
        {
            &&& distance_is(end, s, matchers[a].1@, d)
            &&& forall|j: int, e: int|
                0 <= j < matchers.len() && #[trigger] distance_is(end, s, matchers[j].1@, e) ==> d
                    < e || (d == e && a <= j)
        };
    let f = choose|f: int|
        {
            &&& distance_is(end, s, matchers[b].1@, f)
            &&& forall|j: int, e: int|
                0 <= j < matchers.len() && #[trigger] distance_is(end, s, matchers[j].1@, e) ==> f
                    < e || (f == e && b <= j)
        };
    assert(distance_is(end, s, matchers[b].1@, f));
    assert(distance_is(end, s, matchers[a].1@, d));
}

/// The place in the list of the matcher that stands nearest to the given
/// end of `s`.
pub open spec fn best<T>(matchers: Seq<(T, &str)>, s: Seq<char>, end: End) -> int {
    choose|k: int| nearest(matchers, s, end, k)
}

/// The value of the matcher that stands nearest to the given end of
/// `string`; of two that stand as near, the one that comes first in the
/// list.
pub fn select<T: Copy>(matchers: &[(T, &str)], string: &str, end: End) -> (r: T)
    requires
        exists|k: int| 0 <= k < matchers@.len() && occurs(string@, (#[trigger] matchers@[k]).1@),
    ensures
        exists|k: int| nearest(matchers@, string@, end, k) && r == matchers@[k].0,
        nearest(matchers@, string@, end, best(matchers@, string@, end)),
        r == matchers@[best(matchers@, string@, end)].0,
{
    let mut best: Option<(T, usize)> = None;
    let ghost mut at: int = 0;
    let mut i: usize = 0;
    while i < matchers.len()
        invariant
            i <= matchers.len(),
            match best {
                Some((c, d)) => {
                    &&& 0 <= at < i
                    &&& c == matchers@[at].0
                    &&& distance_is(end, string@, matchers@[at].1@, d as int)
                    &&& forall|j: int, e: int|
                        0 <= j < i && #[trigger] distance_is(end, string@, matchers@[j].1@, e) ==> d
                            < e || (d == e && at <= j)
                },
                None => forall|j: int| 0 <= j < i ==> !occurs(string@, (#[trigger] matchers@[j]).1@),
            },
        decreases matchers.len() - i,
    {
        let m = matchers[i];
        let found = index(end, string, m);
        proof {
            if found is None {
                assert forall|e: int| !distance_is(end, string@, matchers@[i as int].1@, e) by {
                    if distance_is(end, string@, matchers@[i as int].1@, e) {
                        match end {
                            End::Left => {
                                assert(occurs_at(string@, m.1@, e));
                            },
                            End::Right => {
                                assert(occurs_at(string@, m.1@, string@.len() - m.1@.len() - e));
                            },
                        }
                    }
                }
            }
            if best is None {
                assert forall|j: int, e: int| 0 <= j < i implies !#[trigger] distance_is(
                    end,
                    string@,
                    matchers@[j].1@,
                    e,
                ) by {
                    if distance_is(end, string@, matchers@[j].1@, e) {
                        assert(!occurs(string@, matchers@[j].1@));
                        match end {
                            End::Left => {
                                assert(occurs_at(string@, matchers@[j].1@, e));
                            },
                            End::Right => {
                                assert(occurs_at(
                                    string@,
                                    matchers@[j].1@,
                                    string@.len() - matchers@[j].1@.len() - e,
                                ));
                            },
                        }
                    }
                }
            }
        }
        match found {
            Some((c, d)) => {
                let take = match best {
                    Some((_, b)) => d < b,
                    None => true,
                };
                proof {
                    assert forall|e: int|
                        distance_is(end, string@, matchers@[i as int].1@, e) implies e == d by {
                        lemma_distance_unique(end, string@, m.1@, d as int, e);
                    }
                }
                if take {
                    best = Some((c, d));
                    proof {
                        at = i as int;
                    }
                }
            },
            None => {},
        }
        i += 1;
    }
    match best {
        Some((c, d)) => {
            proof {
                assert(nearest(matchers@, string@, end, at));
                lemma_nearest_unique(
                    matchers@,
                    string@,
                    end,
                    at,
                    self::best(matchers@, string@, end),
                );
            }
            c
        },
        None => {
            proof {
                let k = choose|k: int|
                    0 <= k < matchers@.len() && occurs(string@, (#[trigger] matchers@[k]).1@);
                assert(!occurs(string@, matchers@[k].1@));
            }
            matchers[0].0
        },
    }
}

/// Some matcher stands in the line.
pub open spec fn matched<T>(matchers: Seq<(T, &str)>, x: Seq<char>) -> bool {
    exists|k: int| 0 <= k < matchers.len() && occurs(x, (#[trigger] matchers[k]).1@)
}

/// The first and the last digit of a line.
pub fn edge_digits(matchers: &[(i32, &str)], x: &str) -> (r: (i32, i32))
    requires
        matched(matchers@, x@),
    ensures
        r.0 == matchers@[best(matchers@, x@, End::Left)].0,
        r.1 == matchers@[best(matchers@, x@, End::Right)].0,
{
    (select(matchers, x, End::Left), select(matchers, x, End::Right))
}

/// The calibration value of a line: its first digit as tens and its last
/// as ones.
pub open spec fn value(matchers: Seq<(i32, &str)>, x: Seq<char>) -> int {
    10 * matchers[best(matchers, x, End::Left)].0 + matchers[best(matchers, x, End::Right)].0
}

/// The sum of the calibration values of the first `k` lines.
pub open spec fn sum_to(matchers: Seq<(i32, &str)>, ls: Seq<Seq<char>>, k: int) -> int
    decreases k,
{
    if k <= 0 {
        0
    } else {
        sum_to(matchers, ls, k - 1) + value(matchers, ls[k - 1])
    }
}

pub open spec fn fits(x: int) -> bool {
    i32::MIN <= x <= i32::MAX
}

/// Every line holds a digit, and neither ten times the first digit of a
/// line, nor its value, nor the sum of the values up to any line exceeds 32
/// bits.
pub open spec fn summable(matchers: Seq<(i32, &str)>, ls: Seq<Seq<char>>) -> bool {
    forall|k: int|
        0 <= k < ls.len() ==> {
            &&& matched(matchers, #[trigger] ls[k])
            &&& fits(10 * matchers[best(matchers, ls[k], End::Left)].0)
            &&& fits(value(matchers, ls[k]))
            &&& fits(sum_to(matchers, ls, k + 1))
        }
}

/// The sum of the calibration values of the lines of a text.
pub fn solve(matchers: &[(i32, &str)], text: &str) -> (r: i32)
    requires
        summable(matchers@, lines_of(text@)),
    ensures
        r == sum_to(matchers@, lines_of(text@), lines_of(text@).len() as int),
{
    let ls = lines(text);
    let ghost all = lines_of(text@);
    let mut acc: i32 = 0;
    let mut i: usize = 0;
    while i < ls.len()
        invariant
            i <= ls.len(),
            all == views(ls@),
            summable(matchers@, all),
            acc == sum_to(matchers@, all, i as int),
        decreases ls.len() - i,
    {
        let line = crate::text::string_of(&ls[i]);
        proof {
            assert(all[i as int] == ls@[i as int]@);
            assert(matched(matchers@, all[i as int]));
            assert(fits(sum_to(matchers@, all, i + 1)));
        }
        let pair = edge_digits(matchers, line.as_str());
        acc = acc + dgts_to_int(pair);
        i += 1;
    }
    acc
}

} // verus!
