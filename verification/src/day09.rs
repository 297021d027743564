//! Histories of readings: each is continued forwards and backwards by its
//! table of differences.
use crate::text::{
    chars_of, lines, lines_of, parse_i64, signed_number, string_of, views, within, words, words_of,
};
use vstd::prelude::*;

verus! {

/// The readings among some words, in order; what is no number is left out.
pub open spec fn readings(ws: Seq<Seq<char>>) -> Seq<i64>
    decreases ws.len(),
{
    if ws.len() == 0 {
        Seq::empty()
    } else {
        match within(signed_number(ws.last()), i64::MIN as int, i64::MAX as int) {
            Some(v) => readings(ws.drop_last()).push(v as i64),
            None => readings(ws.drop_last()),
        }
    }
}

/// The numbers in a line between blanks.
pub fn parse_line(l: &str) -> (r: Vec<i64>)
    ensures
        r@ == readings(words_of(l@)),
{
    let c = chars_of(l);
    let ws = words(&c);
    let ghost all = views(ws@);
    let mut out: Vec<i64> = Vec::new();
    let mut i: usize = 0;
    proof {
        assert(all.take(0) =~= Seq::<Seq<char>>::empty());
    }
    while i < ws.len()
        invariant
            i <= ws.len(),
            all == views(ws@),
            out@ == readings(all.take(i as int)),
        decreases ws.len() - i,
    {
        proof {
            assert(all.take(i + 1).drop_last() =~= all.take(i as int));
            assert(all.take(i + 1).last() == ws@[i as int]@);
        }
        match parse_i64(&ws[i]) {
            Some(v) => {
                out.push(v);
            },
            None => {},
        }
        i += 1;
    }
    proof {
        assert(all.take(ws.len() as int) =~= all);
    }
    out
}

/// The readings as numbers without bound.
pub open spec fn ints(v: Seq<i64>) -> Seq<int> {
    Seq::new(v.len(), |i: int| v[i] as int)
}

/// The differences between neighbours.
pub open spec fn differences(s: Seq<int>) -> Seq<int> {
    Seq::new(
        if s.len() > 0 {
            (s.len() - 1) as nat
        } else {
            0
        },
        |i: int| s[i + 1] - s[i],
    )
}

pub open spec fn all_zero(s: Seq<int>) -> bool {
    forall|i: int| 0 <= i < s.len() ==> s[i] == 0
}

pub open spec fn fits(x: int) -> bool {
    i64::MIN <= x <= i64::MAX
}

/// Every line of the table of differences, down to the line of zeros,
/// holds numbers of 64 bits only.
pub open spec fn table_fits(s: Seq<int>) -> bool
    decreases s.len(),
{
    &&& forall|i: int| 0 <= i < s.len() ==> fits(s[i])
    &&& (all_zero(s) || table_fits(differences(s)))
}

/// The number of lines of the table of differences.
pub open spec fn depth(s: Seq<int>) -> nat
    decreases s.len(),
{
    if all_zero(s) {
        1
    } else {
        1 + depth(differences(s))
    }
}

/// The line `k` of the table of differences.
pub open spec fn level(s: Seq<int>, k: nat) -> Seq<int>
    decreases k,
{
    if k == 0 {
        s
    } else {
        differences(level(s, (k - 1) as nat))
    }
}

/// The reading that follows the last: the last reading and what follows the
/// last difference.
pub open spec fn forward(s: Seq<int>) -> int
    decreases s.len(),
{
    if all_zero(s) {
        0
    } else {
        s.last() + forward(differences(s))
    }
}

/// The reading that precedes the first: the first reading less what
/// precedes the first difference.
pub open spec fn backward(s: Seq<int>) -> int
    decreases s.len(),
{
    if all_zero(s) {
        0
    } else {
        s[0] - backward(differences(s))
    }
}

fn diff_of(x: &Vec<i64>) -> (r: Vec<i64>)
    requires
        forall|i: int| 0 <= i < x@.len() - 1 ==> fits(x@[i + 1] - #[trigger] x@[i]),
    ensures
        ints(r@) == differences(ints(x@)),
{
    let mut out: Vec<i64> = Vec::new();
    if x.len() == 0 {
        assert(ints(out@) =~= differences(ints(x@)));
        return out;
    }
    let mut i: usize = 1;
    while i < x.len()
        invariant
            1 <= i <= x.len(),
            out.len() == i - 1,
            forall|i: int| 0 <= i < x@.len() - 1 ==> fits(x@[i + 1] - #[trigger] x@[i]),
            forall|j: int| 0 <= j < i - 1 ==> #[trigger] out@[j] == x@[j + 1] - x@[j],
        decreases x.len() - i,
    {
        assert(fits(x@[(i - 1) + 1] - x@[i - 1]));
        out.push(x[i] - x[i - 1]);
        i += 1;
    }
    assert(ints(out@).len() == differences(ints(x@)).len());
    assert forall|j: int| 0 <= j < out@.len() implies ints(out@)[j] == differences(ints(x@))[j] by {
        assert(out@[j] == x@[j + 1] - x@[j]);
    }
    assert(ints(out@) =~= differences(ints(x@)));
    out
}

/// The differences between neighbours.
pub fn diff(x: Vec<i64>) -> (r: Vec<i64>)
    requires
        forall|i: int| 0 <= i < x@.len() - 1 ==> fits(x@[i + 1] - #[trigger] x@[i]),
    ensures
        ints(r@) == differences(ints(x@)),
{
    diff_of(&x)
}

/// Whether all readings are zero.
pub fn is_flat(x: &Vec<i64>) -> (r: bool)
    ensures
        r == all_zero(ints(x@)),
{
    let mut i: usize = 0;
    while i < x.len()
        invariant
            i <= x.len(),
            forall|j: int| 0 <= j < i ==> x@[j] == 0,
        decreases x.len() - i,
    {
        if x[i] != 0 {
            assert(ints(x@)[i as int] != 0);
            return false;
        }
        i += 1;
    }
    assert forall|j: int| 0 <= j < ints(x@).len() implies ints(x@)[j] == 0 by {
        assert(x@[j] == 0);
    }
    true
}

/// The table of differences: the readings, their differences, the
/// differences of those and so on, down to the first line of zeros.
pub fn make_diffs(x: Vec<i64>) -> (r: Vec<Vec<i64>>)
    requires
        table_fits(ints(x@)),
    ensures
        r@.len() == depth(ints(x@)),
        forall|k: int| 0 <= k < r@.len() ==> ints(#[trigger] r@[k]@) == level(ints(x@), k as nat),
        forall|k: int| 0 <= k < r@.len() - 1 ==> !all_zero(ints(#[trigger] r@[k]@)),
        all_zero(ints(r@.last()@)),
{
    let ghost s = ints(x@);
    let mut out: Vec<Vec<i64>> = Vec::new();
    let mut cur = x;
    loop
        invariant_except_break
            table_fits(ints(cur@)),
            ints(cur@) == level(s, out@.len()),
            depth(s) == out@.len() + depth(ints(cur@)),
            forall|k: int| 0 <= k < out@.len() ==> ints(#[trigger] out@[k]@) == level(s, k as nat),
            forall|k: int| 0 <= k < out@.len() ==> !all_zero(ints(#[trigger] out@[k]@)),
        invariant
            s == ints(x@),
        ensures
            out@.len() == depth(s),
            forall|k: int| 0 <= k < out@.len() ==> ints(#[trigger] out@[k]@) == level(s, k as nat),
            forall|k: int| 0 <= k < out@.len() - 1 ==> !all_zero(ints(#[trigger] out@[k]@)),
            out@.len() > 0,
            all_zero(ints(out@.last()@)),
        decreases cur@.len(),
    {
        let flat = is_flat(&cur);
        let ghost c = ints(cur@);
        if flat {
            let ghost before = out@;
            out.push(cur);
            proof {
                assert(out@.last() == cur);
                assert forall|k: int| 0 <= k < out@.len() implies ints(#[trigger] out@[k]@)
                    == level(s, k as nat) by {
                    if k < before.len() {
                        assert(out@[k] == before[k]);
                    }
                }
                assert forall|k: int| 0 <= k < out@.len() - 1 implies !all_zero(
                    ints(#[trigger] out@[k]@),
                ) by {
                    assert(out@[k] == before[k]);
                }
            }
            break ;
        }
        proof {
            assert(c.len() > 0);
            assert(table_fits(differences(c)));
            assert(forall|i: int|
                0 <= i < differences(c).len() ==> fits(#[trigger] differences(c)[i]));
            assert forall|i: int| 0 <= i < cur@.len() - 1 implies fits(
                cur@[i + 1] - #[trigger] cur@[i],
            ) by {
                assert(differences(c)[i] == c[i + 1] - c[i]);
            }
        }
        let next = diff_of(&cur);
        let ghost before = out@;
        out.push(cur);
        proof {
            assert(ints(next@).len() == next@.len());
            assert forall|k: int| 0 <= k < out@.len() implies ints(#[trigger] out@[k]@) == level(
                s,
                k as nat,
            ) by {
                if k < before.len() {
                    assert(out@[k] == before[k]);
                }
            }
            assert forall|k: int| 0 <= k < out@.len() implies !all_zero(
                ints(#[trigger] out@[k]@),
            ) by {
                if k < before.len() {
                    assert(out@[k] == before[k]);
                }
            }
        }
        cur = next;
    }
    out
}

/// The reading that follows the last.
pub fn forwards(x: Vec<i64>) -> (r: i64)
    requires
        table_fits(ints(x@)),
        fits(forward(ints(x@))),
    ensures
        r == forward(ints(x@)),
{
    let ghost s = ints(x@);
    let levels = make_diffs(x);
    let mut acc: i128 = 0;
    let mut k: usize = 0;
    while k < levels.len()
        invariant
            k <= levels.len(),
            levels@.len() > 0,
            forall|j: int| 0 <= j < levels@.len() ==> ints(#[trigger] levels@[j]@) == level(s, j as nat),
            forall|j: int| 0 <= j < levels@.len() - 1 ==> !all_zero(ints(#[trigger] levels@[j]@)),
            all_zero(ints(levels@.last()@)),
            k < levels.len() ==> forward(s) == acc + forward(level(s, k as nat)),
            k == levels.len() ==> forward(s) == acc,
            -(k as int) * 0x8000_0000_0000_0000 <= acc <= (k as int) * 0x8000_0000_0000_0000,
        decreases levels.len() - k,
    {
        let l = &levels[k];
        let ghost c = ints(l@);
        let last: i64 = if l.len() > 0 {
            l[l.len() - 1]
        } else {
            0
        };
        proof {
            assert(c == level(s, k as nat));
            if k == levels.len() - 1 {
                assert(levels@.last() == levels@[k as int]);
                if l.len() > 0 {
                    assert(c[l.len() - 1] == 0);
                }
            } else {
                assert(!all_zero(c));
                assert(c.last() == l@[l.len() - 1]);
                assert(level(s, (k + 1) as nat) == differences(level(s, k as nat)));
            }
        }
        acc = acc + last as i128;
        k += 1;
    }
    acc as i64
}

/// The reading that precedes the first.
pub fn backwards(x: Vec<i64>) -> (r: i64)
    requires
        table_fits(ints(x@)),
        fits(backward(ints(x@))),
    ensures
        r == backward(ints(x@)),
{
    let ghost s = ints(x@);
    let levels = make_diffs(x);
    let mut acc: i128 = 0;
    let mut k: usize = levels.len();
    while k > 0
        invariant
            k <= levels.len(),
            levels@.len() > 0,
            forall|j: int| 0 <= j < levels@.len() ==> ints(#[trigger] levels@[j]@) == level(s, j as nat),
            forall|j: int| 0 <= j < levels@.len() - 1 ==> !all_zero(ints(#[trigger] levels@[j]@)),
            all_zero(ints(levels@.last()@)),
            k < levels.len() ==> acc == backward(level(s, k as nat)),
            k == levels.len() ==> acc == 0,
            -((levels.len() - k) as int) * 0x8000_0000_0000_0000 <= acc <= ((levels.len()
                - k) as int) * 0x8000_0000_0000_0000,
        decreases k,
    {
        k -= 1;
        let l = &levels[k];
        let ghost c = ints(l@);
        let first: i64 = if l.len() > 0 {
            l[0]
        } else {
            0
        };
        proof {
            assert(c == level(s, k as nat));
            if k == levels.len() - 1 {
                assert(levels@.last() == levels@[k as int]);
                if l.len() > 0 {
                    assert(c[0] == 0);
                }
            } else {
                assert(!all_zero(c));
                assert(c[0] == l@[0]);
                assert(level(s, (k + 1) as nat) == differences(level(s, k as nat)));
            }
        }
        acc = first as i128 - acc;
    }
    acc as i64
}

/// The readings of a line as numbers without bound.
pub open spec fn history(l: Seq<char>) -> Seq<int> {
    ints(readings(words_of(l)))
}

/// The sum of what follows the histories of the first `k` lines.
pub open spec fn forward_to(ls: Seq<Seq<char>>, k: int) -> int
    decreases k,
{
    if k <= 0 {
        0
    } else {
        forward_to(ls, k - 1) + forward(history(ls[k - 1]))
    }
}

/// The sum of what precedes the histories of the first `k` lines.
pub open spec fn backward_to(ls: Seq<Seq<char>>, k: int) -> int
    decreases k,
{
    if k <= 0 {
        0
    } else {
        backward_to(ls, k - 1) + backward(history(ls[k - 1]))
    }
}

/// The tables of differences of all lines hold numbers of 64 bits only.
pub open spec fn tabular(ls: Seq<Seq<char>>) -> bool {
    forall|k: int| 0 <= k < ls.len() ==> table_fits(history(#[trigger] ls[k]))
}

/// The sum of what follows the history of each line.
pub fn part1(text: &str) -> (r: i64)
    requires
        tabular(lines_of(text@)),
        forall|k: int|
            0 <= k < lines_of(text@).len() ==> fits(forward(history(#[trigger] lines_of(text@)[k])))
                && fits(forward_to(lines_of(text@), k + 1)),
    ensures
        r == forward_to(lines_of(text@), lines_of(text@).len() as int),
{
    let ls = lines(text);
    let ghost all = lines_of(text@);
    let mut acc: i64 = 0;
    let mut i: usize = 0;
    while i < ls.len()
        invariant
            i <= ls.len(),
            all == views(ls@),
            tabular(all),
            forall|k: int|
                0 <= k < all.len() ==> fits(forward(history(#[trigger] all[k]))) && fits(
                    forward_to(all, k + 1),
                ),
            acc == forward_to(all, i as int),
        decreases ls.len() - i,
    {
        proof {
            assert(all[i as int] == ls@[i as int]@);
            assert(table_fits(history(all[i as int])));
            assert(fits(forward(history(all[i as int]))) && fits(forward_to(all, i + 1)));
        }
        let line = string_of(&ls[i]);
        acc = acc + forwards(parse_line(line.as_str()));
        i += 1;
    }
    acc
}

/// The sum of what precedes the history of each line.
pub fn part2(text: &str) -> (r: i64)
    requires
        tabular(lines_of(text@)),
        forall|k: int|
            0 <= k < lines_of(text@).len() ==> fits(
                backward(history(#[trigger] lines_of(text@)[k])),
            ) && fits(backward_to(lines_of(text@), k + 1)),
    ensures
        r == backward_to(lines_of(text@), lines_of(text@).len() as int),
{
    let ls = lines(text);
    let ghost all = lines_of(text@);
    let mut acc: i64 = 0;
    let mut i: usize = 0;
    while i < ls.len()
        invariant
            i <= ls.len(),
            all == views(ls@),
            tabular(all),
            forall|k: int|
                0 <= k < all.len() ==> fits(backward(history(#[trigger] all[k]))) && fits(
                    backward_to(all, k + 1),
                ),
            acc == backward_to(all, i as int),
        decreases ls.len() - i,
    {
        proof {
            assert(all[i as int] == ls@[i as int]@);
            assert(table_fits(history(all[i as int])));
            assert(fits(backward(history(all[i as int]))) && fits(backward_to(all, i + 1)));
        }
        let line = string_of(&ls[i]);
        acc = acc + backwards(parse_line(line.as_str()));
        i += 1;
    }
    acc
}

} // verus!
