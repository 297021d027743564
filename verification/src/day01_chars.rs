//! Calibration values read from the digit characters of a line.
use crate::text::chars_of;
use vstd::prelude::*;

verus! {

/// Whether `x` is a decimal digit.
pub fn is_digit(x: &char) -> (r: bool)
    ensures
        r == crate::text::is_digit(*x),
{
    *x >= '0' && *x <= '9'
}

/// `i` is the place of a digit of `s`.
pub open spec fn digit_at(s: Seq<char>, i: int) -> bool {
    0 <= i < s.len() && crate::text::is_digit(s[i])
}

/// The first and the last digit of a line.
pub fn edge_digits(x: &str) -> (r: (char, char))
    requires
        exists|i: int| digit_at(x@, i),
    ensures
        exists|i: int| digit_at(x@, i) && x@[i] == r.0 && forall|j: int| 0 <= j < i ==> !digit_at(x@, j),
        exists|i: int| digit_at(x@, i) && x@[i] == r.1 && forall|j: int| i < j ==> !digit_at(x@, j),
{
    let s = chars_of(x);
    let mut i: usize = 0;
    while i < s.len() && !is_digit(&s[i])
        invariant
            i <= s.len(),
            forall|j: int| 0 <= j < i ==> !digit_at(s@, j),
        decreases s.len() - i,
    {
        i += 1;
    }
    proof {
        let w = choose|w: int| digit_at(x@, w);
        assert(i <= w);
    }
    let mut k: usize = s.len() - 1;
    while !is_digit(&s[k])
        invariant
            i <= k < s.len(),
            digit_at(s@, i as int),
            forall|j: int| k < j ==> !digit_at(s@, j),
        decreases k,
    {
        k -= 1;
    }
    assert(digit_at(x@, i as int) && x@[i as int] == s@[i as int]);
    assert(digit_at(x@, k as int) && x@[k as int] == s@[k as int]);
    (s[i], s[k])
}

/// The value of a digit.
pub fn char_to_int(a: char) -> (r: i32)
    requires
        crate::text::is_digit(a),
    ensures
        r == crate::text::digit_value(a),
{
    (a as u32 - 48) as i32
}

/// The number whose tens and ones are the two digits.
pub fn dgts_to_int(a: (char, char)) -> (r: i32)
    requires
        crate::text::is_digit(a.0),
        crate::text::is_digit(a.1),
    ensures
        r == 10 * crate::text::digit_value(a.0) + crate::text::digit_value(a.1),
{
    char_to_int(a.0) * 10 + char_to_int(a.1)
}

/// The matchers for the ten digits.
pub fn just_digits() -> (r: Vec<(char, &'static str)>)
    ensures
        r@.len() == 10,
{
    vec![
        ('0', "0"),
        ('1', "1"),
        ('2', "2"),
        ('3', "3"),
        ('4', "4"),
        ('5', "5"),
        ('6', "6"),
        ('7', "7"),
        ('8', "8"),
        ('9', "9"),
    ]
}

/// The matchers for the ten digits and their names.
pub fn digits_and_strings() -> (r: Vec<(char, &'static str)>)
    ensures
        r@.len() == 20,
{
    vec![
        ('0', "0"),
        ('0', "zero"),
        ('1', "1"),
        ('1', "one"),
        ('2', "2"),
        ('2', "two"),
        ('3', "3"),
        ('3', "three"),
        ('4', "4"),
        ('4', "four"),
        ('5', "5"),
        ('5', "five"),
        ('6', "6"),
        ('6', "six"),
        ('7', "7"),
        ('7', "seven"),
        ('8', "8"),
        ('8', "eight"),
        ('9', "9"),
        ('9', "nine"),
    ]
}

/// The first and the last digit of a line, where a digit may be spelled
/// out.
pub fn edge_digits2(matchers: &[(char, &str)], x: &str) -> (r: (char, char))
    requires
        crate::day01::matched(matchers@, x@),
    ensures
        r.0 == matchers@[crate::day01::best(matchers@, x@, crate::day01::End::Left)].0,
        r.1 == matchers@[crate::day01::best(matchers@, x@, crate::day01::End::Right)].0,
{
    (
        crate::day01::select(matchers, x, crate::day01::End::Left),
        crate::day01::select(matchers, x, crate::day01::End::Right),
    )
}

/// The first digit of a line, or `0` if it has none.
pub open spec fn first_digit(s: Seq<char>) -> char
    decreases s.len(),
{
    if s.len() == 0 {
        '0'
    } else if crate::text::is_digit(s[0]) {
        s[0]
    } else {
        first_digit(s.drop_first())
    }
}

/// The last digit of a line, or `0` if it has none.
pub open spec fn last_digit(s: Seq<char>) -> char
    decreases s.len(),
{
    if s.len() == 0 {
        '0'
    } else if crate::text::is_digit(s.last()) {
        s.last()
    } else {
        last_digit(s.drop_last())
    }
}

/// The first digit of a line is the digit before which the line has none,
/// and the last digit the one behind which it has none.
pub proof fn lemma_edge_digits(s: Seq<char>, i: int)
    requires
        digit_at(s, i),
    ensures
        (forall|j: int| 0 <= j < i ==> !digit_at(s, j)) ==> first_digit(s) == s[i],
        (forall|j: int| i < j ==> !digit_at(s, j)) ==> last_digit(s) == s[i],
        crate::text::is_digit(first_digit(s)),
        crate::text::is_digit(last_digit(s)),
    decreases s.len(),
{
    if i > 0 {
        let t = s.drop_first();
        assert(digit_at(t, i - 1));
        lemma_edge_digits(t, i - 1);
        if forall|j: int| 0 <= j < i ==> !digit_at(s, j) {
            assert(!digit_at(s, 0));
            assert forall|j: int| 0 <= j < i - 1 implies !digit_at(t, j) by {
                assert(!digit_at(s, j + 1));
            }
        }
    }
    if i < s.len() - 1 {
        let t = s.drop_last();
        assert(digit_at(t, i));
        lemma_edge_digits(t, i);
        if forall|j: int| i < j ==> !digit_at(s, j) {
            assert(!digit_at(s, s.len() - 1));
            assert forall|j: int| i < j implies !digit_at(t, j) by {
                if j < t.len() {
                    assert(!digit_at(s, j));
                }
            }
        }
    }
}

/// The calibration value of a line: its first digit as tens and its last
/// as ones.
pub open spec fn value(x: Seq<char>) -> int {
    10 * crate::text::digit_value(first_digit(x)) + crate::text::digit_value(last_digit(x))
}

/// The sum of the calibration values of the first `k` lines.
pub open spec fn sum_to(ls: Seq<Seq<char>>, k: int) -> int
    decreases k,
{
    if k <= 0 {
        0
    } else {
        sum_to(ls, k - 1) + value(ls[k - 1])
    }
}

/// Every line holds a digit, and the sum of the values up to any line fits
/// 32 bits.
pub open spec fn summable(ls: Seq<Seq<char>>) -> bool {
    forall|k: int|
        0 <= k < ls.len() ==> (exists|i: int| digit_at(#[trigger] ls[k], i)) && sum_to(ls, k + 1)
            <= i32::MAX
}

pub proof fn lemma_sum_nonnegative(ls: Seq<Seq<char>>, k: int)
    requires
        summable(ls),
        0 <= k <= ls.len(),
    ensures
        0 <= sum_to(ls, k),
    decreases k,
{
    if k > 0 {
        lemma_sum_nonnegative(ls, k - 1);
        let l = ls[k - 1];
        let i = choose|i: int| digit_at(l, i);
        lemma_edge_digits(l, i);
    }
}

/// The sum of the calibration values of the lines of a text.
pub fn part1(text: &str) -> (r: i32)
    requires
        summable(crate::text::lines_of(text@)),
    ensures
        r == sum_to(crate::text::lines_of(text@), crate::text::lines_of(text@).len() as int),
{
    let ls = crate::text::lines(text);
    let ghost all = crate::text::lines_of(text@);
    let mut acc: i32 = 0;
    let mut i: usize = 0;
    while i < ls.len()
        invariant
            i <= ls.len(),
            all == crate::text::views(ls@),
            summable(all),
            acc == sum_to(all, i as int),
        decreases ls.len() - i,
    {
        let line = crate::text::string_of(&ls[i]);
        proof {
            assert(all[i as int] == ls@[i as int]@);
            assert(sum_to(all, i + 1) <= i32::MAX);
            lemma_sum_nonnegative(all, i as int);
            let l = all[i as int];
            let w = choose|w: int| digit_at(l, w);
            lemma_edge_digits(l, w);
        }
        let pair = edge_digits(line.as_str());
        proof {
            let a = choose|a: int|
                digit_at(line@, a) && line@[a] == pair.0 && forall|j: int|
                    0 <= j < a ==> !digit_at(line@, j);
            lemma_edge_digits(line@, a);
            let b = choose|b: int|
                digit_at(line@, b) && line@[b] == pair.1 && forall|j: int|
                    b < j ==> !digit_at(line@, j);
            lemma_edge_digits(line@, b);
        }
        acc = acc + dgts_to_int(pair);
        i += 1;
    }
    acc
}

/// The calibration value of a line where digits may be spelled out: the
/// value of the nearest matcher from the left as tens and of the nearest
/// from the right as ones.
pub open spec fn value2(matchers: Seq<(char, &str)>, x: Seq<char>) -> int {
    10 * crate::text::digit_value(
        matchers[crate::day01::best(matchers, x, crate::day01::End::Left)].0,
    ) + crate::text::digit_value(
        matchers[crate::day01::best(matchers, x, crate::day01::End::Right)].0,
    )
}

/// The sum of the calibration values of the first `k` lines.
pub open spec fn sum2_to(matchers: Seq<(char, &str)>, ls: Seq<Seq<char>>, k: int) -> int
    decreases k,
{
    if k <= 0 {
        0
    } else {
        sum2_to(matchers, ls, k - 1) + value2(matchers, ls[k - 1])
    }
}

/// A matcher stands in line `k`, and the sum of the values up to it fits
/// 32 bits.
pub open spec fn line_ok(matchers: Seq<(char, &str)>, ls: Seq<Seq<char>>, k: int) -> bool {
    crate::day01::matched(matchers, ls[k]) && sum2_to(matchers, ls, k + 1) <= i32::MAX
}

/// Every matcher stands for a digit.
pub open spec fn digits_only(matchers: Seq<(char, &str)>) -> bool {
    forall|i: int| 0 <= i < matchers.len() ==> crate::text::is_digit((#[trigger] matchers[i]).0)
}

pub proof fn lemma_sum2_nonnegative(matchers: Seq<(char, &str)>, ls: Seq<Seq<char>>, k: int)
    requires
        digits_only(matchers),
        0 <= k <= ls.len(),
        forall|j: int| 0 <= j < ls.len() ==> #[trigger] line_ok(matchers, ls, j),
    ensures
        0 <= sum2_to(matchers, ls, k),
    decreases k,
{
    if k > 0 {
        lemma_sum2_nonnegative(matchers, ls, k - 1);
        assert(line_ok(matchers, ls, k - 1));
        lemma_best_in_range(matchers, ls[k - 1], crate::day01::End::Left);
        lemma_best_in_range(matchers, ls[k - 1], crate::day01::End::Right);
    }
}

/// Where a matcher stands in a line, the nearest is one of the matchers.
pub proof fn lemma_best_in_range(matchers: Seq<(char, &str)>, x: Seq<char>, end: crate::day01::End)
    requires
        crate::day01::matched(matchers, x),
    ensures
        0 <= crate::day01::best(matchers, x, end) < matchers.len(),
        crate::day01::nearest(matchers, x, end, crate::day01::best(matchers, x, end)),
{
    lemma_nearest_exists(matchers, x, end, matchers.len() as int);
}

/// Among the first `n` matchers of which one stands in the line, one is
/// the nearest of them.
pub proof fn lemma_nearest_exists(
    matchers: Seq<(char, &str)>,
    x: Seq<char>,
    end: crate::day01::End,
    n: int,
)
    requires
        crate::day01::matched(matchers, x),
        n == matchers.len(),
    ensures
        exists|k: int| crate::day01::nearest(matchers, x, end, k),
{
    let m = choose|m: int| 0 <= m < matchers.len() && crate::day01::occurs(x, (#[trigger] matchers[m]).1@);
    lemma_least_distance(matchers, x, end, matchers.len() as int, m);
}

/// `d` is how far the matcher `k` stands from the end, no matcher of the
/// first `n` stands nearer, and none before `k` as near.
pub open spec fn nearest_of(
    matchers: Seq<(char, &str)>,
    x: Seq<char>,
    end: crate::day01::End,
    n: int,
    k: int,
    d: int,
) -> bool {
    &&& 0 <= k < n
    &&& crate::day01::distance_is(end, x, matchers[k].1@, d)
    &&& forall|j: int, e: int|
        0 <= j < n && #[trigger] crate::day01::distance_is(end, x, matchers[j].1@, e) ==> d < e || (
        d == e && k <= j)
}

/// How far a text that stands in a line stands from its end.
pub proof fn lemma_distance_exists(x: Seq<char>, sub: Seq<char>, end: crate::day01::End)
    requires
        crate::day01::occurs(x, sub),
    ensures
        exists|d: int| crate::day01::distance_is(end, x, sub, d),
{
    let i = choose|i: int| crate::text::occurs_at(x, sub, i);
    match end {
        crate::day01::End::Left => {
            lemma_first_occurrence(x, sub, i);
            let f = choose|f: int| crate::text::first_at(x, sub, f);
            assert(crate::day01::distance_is(end, x, sub, f));
        },
        crate::day01::End::Right => {
            lemma_last_occurrence(x, sub, i, x.len() as int);
            let l = choose|l: int| crate::text::last_at(x, sub, l);
            assert(crate::day01::distance_is(end, x, sub, x.len() - sub.len() - l));
        },
    }
}

pub proof fn lemma_first_occurrence(x: Seq<char>, sub: Seq<char>, i: int)
    requires
        crate::text::occurs_at(x, sub, i),
    ensures
        exists|f: int| crate::text::first_at(x, sub, f),
    decreases i,
{
    if exists|j: int| 0 <= j < i && crate::text::occurs_at(x, sub, j) {
        let j = choose|j: int| 0 <= j < i && crate::text::occurs_at(x, sub, j);
        lemma_first_occurrence(x, sub, j);
    } else {
        assert(crate::text::first_at(x, sub, i));
    }
}

pub proof fn lemma_last_occurrence(x: Seq<char>, sub: Seq<char>, i: int, n: int)
    requires
        crate::text::occurs_at(x, sub, i),
        n == x.len(),
    ensures
        exists|l: int| crate::text::last_at(x, sub, l),
    decreases n - i,
{
    if exists|j: int| i < j && crate::text::occurs_at(x, sub, j) {
        let j = choose|j: int| i < j && crate::text::occurs_at(x, sub, j);
        lemma_last_occurrence(x, sub, j, n);
    } else {
        assert(crate::text::last_at(x, sub, i));
    }
}

/// Among the first `n` matchers, of which the matcher `m` stands in the
/// line, one is the nearest.
pub proof fn lemma_least_distance(
    matchers: Seq<(char, &str)>,
    x: Seq<char>,
    end: crate::day01::End,
    n: int,
    m: int,
)
    requires
        0 <= m < n <= matchers.len(),
        crate::day01::occurs(x, matchers[m].1@),
    ensures
        exists|k: int, d: int| nearest_of(matchers, x, end, n, k, d),
        n == matchers.len() ==> exists|k: int| crate::day01::nearest(matchers, x, end, k),
    decreases n,
{
    let last = n - 1;
    if exists|j: int| 0 <= j < last && crate::day01::occurs(x, matchers[j].1@) {
        let j = choose|j: int| 0 <= j < last && crate::day01::occurs(x, matchers[j].1@);
        lemma_least_distance(matchers, x, end, last, j);
        let (k, d) = choose|k: int, d: int| nearest_of(matchers, x, end, last, k, d);
        if crate::day01::occurs(x, matchers[last].1@) {
            lemma_distance_exists(x, matchers[last].1@, end);
            let e = choose|e: int| crate::day01::distance_is(end, x, matchers[last].1@, e);
            if e < d {
                assert forall|j2: int, e2: int|
                    0 <= j2 < n && #[trigger] crate::day01::distance_is(
                        end,
                        x,
                        matchers[j2].1@,
                        e2,
                    ) implies e < e2 || (e == e2 && last <= j2) by {
                    if j2 == last {
                        crate::day01::lemma_distance_unique(end, x, matchers[last].1@, e, e2);
                    }
                }
                assert(nearest_of(matchers, x, end, n, last, e));
            } else {
                assert forall|j2: int, e2: int|
                    0 <= j2 < n && #[trigger] crate::day01::distance_is(
                        end,
                        x,
                        matchers[j2].1@,
                        e2,
                    ) implies d < e2 || (d == e2 && k <= j2) by {
                    if j2 == last {
                        crate::day01::lemma_distance_unique(end, x, matchers[last].1@, e, e2);
                    }
                }
                assert(nearest_of(matchers, x, end, n, k, d));
            }
        } else {
            assert forall|j2: int, e2: int|
                0 <= j2 < n && #[trigger] crate::day01::distance_is(
                    end,
                    x,
                    matchers[j2].1@,
                    e2,
                ) implies d < e2 || (d == e2 && k <= j2) by {
                if j2 == last {
                    lemma_occurs_from_distance(x, matchers[last].1@, end, e2);
                }
            }
            assert(nearest_of(matchers, x, end, n, k, d));
        }
    } else {
        assert(m == last);
        lemma_distance_exists(x, matchers[last].1@, end);
        let e = choose|e: int| crate::day01::distance_is(end, x, matchers[last].1@, e);
        assert forall|j2: int, e2: int|
            0 <= j2 < n && #[trigger] crate::day01::distance_is(
                end,
                x,
                matchers[j2].1@,
                e2,
            ) implies e < e2 || (e == e2 && last <= j2) by {
            if j2 == last {
                crate::day01::lemma_distance_unique(end, x, matchers[last].1@, e, e2);
            } else {
                lemma_occurs_from_distance(x, matchers[j2].1@, end, e2);
            }
        }
        assert(nearest_of(matchers, x, end, n, last, e));
    }
    if n == matchers.len() {
        let (k, d) = choose|k: int, d: int| nearest_of(matchers, x, end, n, k, d);
        assert(crate::day01::nearest(matchers, x, end, k));
    }
}

/// What stands so far from an end of a line stands in the line.
pub proof fn lemma_occurs_from_distance(x: Seq<char>, sub: Seq<char>, end: crate::day01::End, d: int)
    requires
        crate::day01::distance_is(end, x, sub, d),
    ensures
        crate::day01::occurs(x, sub),
{
    match end {
        crate::day01::End::Left => {
            assert(crate::text::occurs_at(x, sub, d));
        },
        crate::day01::End::Right => {
            assert(crate::text::occurs_at(x, sub, x.len() - sub.len() - d));
        },
    }
}

/// The sum of the calibration values of the lines of a text, where digits
/// may be spelled out.
pub fn part2(matchers: &[(char, &str)], text: &str) -> (r: i32)
    requires
        digits_only(matchers@),
        forall|j: int|
            0 <= j < crate::text::lines_of(text@).len() ==> #[trigger] line_ok(
                matchers@,
                crate::text::lines_of(text@),
                j,
            ),
    ensures
        r == sum2_to(
            matchers@,
            crate::text::lines_of(text@),
            crate::text::lines_of(text@).len() as int,
        ),
{
    let ls = crate::text::lines(text);
    let ghost all = crate::text::lines_of(text@);
    let mut acc: i32 = 0;
    let mut i: usize = 0;
    while i < ls.len()
        invariant
            i <= ls.len(),
            all == crate::text::views(ls@),
            digits_only(matchers@),
            forall|j: int| 0 <= j < all.len() ==> #[trigger] line_ok(matchers@, all, j),
            acc == sum2_to(matchers@, all, i as int),
        decreases ls.len() - i,
    {
        let line = crate::text::string_of(&ls[i]);
        proof {
            assert(all[i as int] == ls@[i as int]@);
            assert(line_ok(matchers@, all, i as int));
            lemma_sum2_nonnegative(matchers@, all, i as int);
            lemma_best_in_range(matchers@, all[i as int], crate::day01::End::Left);
            lemma_best_in_range(matchers@, all[i as int], crate::day01::End::Right);
        }
        let pair = edge_digits2(matchers, line.as_str());
        acc = acc + dgts_to_int(pair);
        i += 1;
    }
    acc
}

} // verus!
