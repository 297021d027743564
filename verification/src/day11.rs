//! Distances between galaxies in a universe whose empty rows and columns
//! have expanded.
use crate::text::{lines, lines_of, views};
use vstd::prelude::*;

verus! {

/// The sum of the first `k` counts.
pub open spec fn sum_to(d: Seq<usize>, k: int) -> int
    decreases k,
{
    if k <= 0 {
        0
    } else {
        sum_to(d, k - 1) + d[k - 1]
    }
}

/// The pairs of galaxies that the step across line `k` parts: those up to
/// that line times those behind it.
pub open spec fn parted(d: Seq<usize>, k: int) -> int {
    sum_to(d, k + 1) * (sum_to(d, d.len() as int) - sum_to(d, k + 1))
}

/// What the step across line `k` adds: each of the galaxies up to that line
/// is so much further from each of the galaxies behind it, once if the line
/// holds a galaxy and `expansion` times if it is empty.
pub open spec fn crossing(d: Seq<usize>, expansion: usize, k: int) -> int {
    parted(d, k) * (if d[k] == 0 {
        expansion as int
    } else {
        1
    })
}

/// The crossings of the first `k` lines together.
pub open spec fn crossings(d: Seq<usize>, expansion: usize, k: int) -> int
    decreases k,
{
    if k <= 0 {
        0
    } else {
        crossings(d, expansion, k - 1) + crossing(d, expansion, k - 1)
    }
}

/// No number that the count comes by exceeds a machine word.
pub open spec fn countable(d: Seq<usize>, expansion: usize) -> bool {
    &&& sum_to(d, d.len() as int) <= usize::MAX
    &&& forall|k: int| 0 <= k < d.len() ==> #[trigger] parted(d, k) <= usize::MAX
    &&& forall|k: int| 0 <= k <= d.len() ==> crossings(d, expansion, k) <= usize::MAX
}

pub proof fn lemma_sum_to_monotone(d: Seq<usize>, a: int, b: int)
    requires
        0 <= a <= b <= d.len(),
    ensures
        0 <= sum_to(d, a) <= sum_to(d, b),
    decreases b,
{
    if a < b {
        lemma_sum_to_monotone(d, a, b - 1);
    } else if a > 0 {
        lemma_sum_to_monotone(d, a - 1, b - 1);
    }
}

/// The sum of the distances between all pairs of galaxies along one axis,
/// where `d` counts the galaxies in each line across that axis.
pub fn count_distances(d: Vec<usize>, expansion: usize) -> (r: usize)
    requires
        countable(d@, expansion),
    ensures
        r == crossings(d@, expansion, d@.len() as int),
{
    let mut ahead: usize = 0;
    let mut j: usize = 0;
    while j < d.len()
        invariant
            j <= d.len(),
            ahead == sum_to(d@, j as int),
            sum_to(d@, d@.len() as int) <= usize::MAX,
        decreases d.len() - j,
    {
        proof {
            lemma_sum_to_monotone(d@, j + 1, d@.len() as int);
        }
        ahead += d[j];
        j += 1;
    }
    let mut acc: usize = 0;
    let mut visited: usize = 0;
    let mut k: usize = 0;
    while k < d.len()
        invariant
            k <= d.len(),
            countable(d@, expansion),
            visited == sum_to(d@, k as int),
            ahead == sum_to(d@, d@.len() as int) - sum_to(d@, k as int),
            acc == crossings(d@, expansion, k as int),
        decreases d.len() - k,
    {
        let i = d[k];
        proof {
            lemma_sum_to_monotone(d@, k + 1, d@.len() as int);
            assert(crossings(d@, expansion, k + 1) <= usize::MAX);
            assert(parted(d@, k as int) <= usize::MAX);
        }
        ahead -= i;
        visited += i;
        let w: usize = if i == 0 {
            expansion
        } else {
            1
        };
        let both: usize = visited * ahead;
        proof {
            assert(crossing(d@, expansion, k as int) == both * w);
            assert(0 <= both * w) by (nonlinear_arith)
                requires
                    0 <= both,
                    0 <= w,
            ;
        }
        acc += both * w;
        k += 1;
    }
    acc
}

/// The number of galaxies among the first `k` characters of a line.
pub open spec fn galaxies(l: Seq<char>, k: int) -> int
    decreases k,
{
    if k <= 0 {
        0
    } else {
        galaxies(l, k - 1) + if l[k - 1] == '#' {
            1int
        } else {
            0
        }
    }
}

/// The number of the first `k` lines that have a galaxy at place `x`.
pub open spec fn galaxies_at(ls: Seq<Seq<char>>, x: int, k: int) -> int
    decreases k,
{
    if k <= 0 {
        0
    } else {
        galaxies_at(ls, x, k - 1) + if ls[k - 1][x] == '#' {
            1int
        } else {
            0
        }
    }
}

/// No line is shorter than the text has lines.
pub open spec fn tall(ls: Seq<Seq<char>>) -> bool {
    forall|y: int| 0 <= y < ls.len() ==> (#[trigger] ls[y]).len() >= ls.len()
}

/// The numbers of galaxies in each line of an image, and in each of as
/// many columns as the image has lines.
pub fn parse(f: &str) -> (r: (Vec<usize>, Vec<usize>))
    requires
        tall(lines_of(f@)),
    ensures
        r.0@ == Seq::new(
            lines_of(f@).len(),
            |y: int| galaxies(lines_of(f@)[y], lines_of(f@)[y].len() as int) as usize,
        ),
        r.1@ == Seq::new(
            lines_of(f@).len(),
            |x: int| galaxies_at(lines_of(f@), x, lines_of(f@).len() as int) as usize,
        ),
{
    let ls = lines(f);
    let ghost all = lines_of(f@);
    let n = ls.len();
    let mut h: Vec<usize> = Vec::new();
    let mut y: usize = 0;
    while y < n
        invariant
            y <= n,
            n == ls@.len(),
            all == views(ls@),
            h@.len() == y,
            forall|j: int| 0 <= j < y ==> #[trigger] h@[j] == galaxies(all[j], all[j].len() as int),
        decreases n - y,
    {
        let l = &ls[y];
        let mut c: usize = 0;
        let mut x: usize = 0;
        while x < l.len()
            invariant
                x <= l.len(),
                c <= x,
                c == galaxies(l@, x as int),
            decreases l.len() - x,
        {
            if l[x] == '#' {
                c += 1;
            }
            x += 1;
        }
        assert(all[y as int] == l@);
        h.push(c);
        y += 1;
    }
    let mut v: Vec<usize> = Vec::new();
    let mut x: usize = 0;
    while x < n
        invariant
            x <= n,
            n == ls@.len(),
            all == views(ls@),
            tall(all),
            v@.len() == x,
            forall|j: int| 0 <= j < x ==> #[trigger] v@[j] == galaxies_at(all, j, n as int),
        decreases n - x,
    {
        let mut c: usize = 0;
        let mut y: usize = 0;
        while y < n
            invariant
                y <= n,
                x < n,
                n == ls@.len(),
                all == views(ls@),
                tall(all),
                c <= y,
                c == galaxies_at(all, x as int, y as int),
            decreases n - y,
        {
            assert(all[y as int] == ls@[y as int]@);
            assert(all[y as int].len() >= n);
            if ls[y][x] == '#' {
                c += 1;
            }
            y += 1;
        }
        v.push(c);
        x += 1;
    }
    proof {
        assert(h@ =~= Seq::new(all.len(), |y: int| galaxies(all[y], all[y].len() as int) as usize));
        assert(v@ =~= Seq::new(all.len(), |x: int| galaxies_at(all, x, all.len() as int) as usize));
    }
    (h, v)
}

/// The sum of the distances between all pairs of galaxies of an image in
/// which every empty line and column stands for `expansion` of them.
pub fn solve(f: &str, expansion: usize) -> (r: usize)
    requires
        tall(lines_of(f@)),
        ({
            let ls = lines_of(f@);
            let h = Seq::new(ls.len(), |y: int| galaxies(ls[y], ls[y].len() as int) as usize);
            let v = Seq::new(ls.len(), |x: int| galaxies_at(ls, x, ls.len() as int) as usize);
            countable(h, expansion) && countable(v, expansion) && crossings(
                h,
                expansion,
                h.len() as int,
            ) + crossings(v, expansion, v.len() as int) <= usize::MAX
        }),
    ensures
        ({
            let ls = lines_of(f@);
            let h = Seq::new(ls.len(), |y: int| galaxies(ls[y], ls[y].len() as int) as usize);
            let v = Seq::new(ls.len(), |x: int| galaxies_at(ls, x, ls.len() as int) as usize);
            r == crossings(h, expansion, h.len() as int) + crossings(v, expansion, v.len() as int)
        }),
{
    let (h, v) = parse(f);
    count_distances(h, expansion) + count_distances(v, expansion)
}

} // verus!
