//! Patterns of ash and rocks, each with a line of reflection between two of
//! its rows or columns.
use crate::text::{chars_of, lines, lines_of, paragraphs, paragraphs_of, string_of, views};
use vstd::prelude::*;
use vstd::std_specs::cmp::PartialEqSpec;

verus! {

/// The rows of a grid as sequences.
pub open spec fn grid<T>(v: Seq<Vec<T>>) -> Seq<Seq<T>> {
    Seq::new(v.len(), |i: int| v[i]@)
}

/// The grid has a row, and no row is shorter than the first.
pub open spec fn wide<T>(g: Seq<Seq<T>>) -> bool {
    g.len() > 0 && forall|j: int| 0 <= j < g.len() ==> (#[trigger] g[j]).len() >= g[0].len()
}

/// The columns of a grid, as far as its first row reaches, as rows.
pub open spec fn transposed<T>(g: Seq<Seq<T>>) -> Seq<Seq<T>> {
    Seq::new(g[0].len(), |i: int| Seq::new(g.len(), |j: int| g[j][i]))
}

/// The columns of a grid as rows.
pub fn transpose<T: Copy>(v: Vec<Vec<T>>) -> (r: Vec<Vec<T>>)
    requires
        wide(grid(v@)),
    ensures
        grid(r@) == transposed(grid(v@)),
{
    transposed_of(&v)
}

/// The columns of a grid as rows.
pub fn transposed_of<T: Copy>(v: &Vec<Vec<T>>) -> (r: Vec<Vec<T>>)
    requires
        wide(grid(v@)),
    ensures
        grid(r@) == transposed(grid(v@)),
{
    let w = v[0].len();
    let ghost g = grid(v@);
    let mut out: Vec<Vec<T>> = Vec::new();
    let mut i: usize = 0;
    while i < w
        invariant
            i <= w,
            g == grid(v@),
            wide(g),
            w == g[0].len(),
            out.len() == i,
            forall|a: int| 0 <= a < i ==> (#[trigger] out@[a])@ == transposed(g)[a],
        decreases w - i,
    {
        let mut col: Vec<T> = Vec::new();
        let mut j: usize = 0;
        while j < v.len()
            invariant
                j <= v.len(),
                i < w,
                g == grid(v@),
                wide(g),
                w == g[0].len(),
                col.len() == j,
                forall|b: int| 0 <= b < j ==> col@[b] == g[b][i as int],
            decreases v.len() - j,
        {
            assert(g[j as int] == v@[j as int]@);
            assert(g[j as int].len() >= g[0].len());
            col.push(v[j][i]);
            j += 1;
        }
        assert(col@ =~= transposed(g)[i as int]);
        out.push(col);
        i += 1;
    }
    assert(grid(out@) =~= transposed(g));
    out
}

#[derive(Clone, Copy, Debug, Eq)]
pub enum Tile {
    Ash,
    Rocks,
}

impl PartialEq for Tile {
    fn eq(&self, other: &Self) -> (r: bool) {
        match (self, other) {
            (Tile::Ash, Tile::Ash) => true,
            (Tile::Rocks, Tile::Rocks) => true,
            _ => false,
        }
    }
}

impl vstd::std_specs::cmp::PartialEqSpecImpl for Tile {
    open spec fn obeys_eq_spec() -> bool {
        true
    }

    open spec fn eq_spec(&self, other: &Self) -> bool {
        *self == *other
    }
}

pub open spec fn tile_of(t: char) -> Option<Tile> {
    if t == '.' {
        Some(Tile::Ash)
    } else if t == '#' {
        Some(Tile::Rocks)
    } else {
        None
    }
}

pub fn parse_tile(t: char) -> (r: Tile)
    requires
        tile_of(t) is Some,
    ensures
        Some(r) == tile_of(t),
{
    match t {
        '.' => Tile::Ash,
        _ => Tile::Rocks,
    }
}

pub type Field = Vec<Vec<Tile>>;

/// Every character of every line stands for a tile.
pub open spec fn legible(ls: Seq<Seq<char>>) -> bool {
    forall|y: int, x: int|
        0 <= y < ls.len() && 0 <= x < ls[y].len() ==> tile_of(#[trigger] ls[y][x]) is Some
}

/// The tiles of some lines.
pub open spec fn tiles_of(ls: Seq<Seq<char>>) -> Seq<Seq<Tile>> {
    Seq::new(ls.len(), |y: int| Seq::new(ls[y].len(), |x: int| tile_of(ls[y][x]).unwrap()))
}

/// Reads a pattern, one row from each line.
pub fn parse_field(f: &str) -> (r: Field)
    requires
        legible(lines_of(f@)),
    ensures
        grid(r@) == tiles_of(lines_of(f@)),
{
    let ls = lines(f);
    let ghost lsv = lines_of(f@);
    let mut out: Field = Vec::new();
    let mut y: usize = 0;
    while y < ls.len()
        invariant
            y <= ls.len(),
            lsv == views(ls@),
            legible(lsv),
            out.len() == y,
            forall|a: int| 0 <= a < y ==> (#[trigger] out@[a])@ == tiles_of(lsv)[a],
        decreases ls.len() - y,
    {
        let l = &ls[y];
        let mut row: Vec<Tile> = Vec::new();
        let mut x: usize = 0;
        while x < l.len()
            invariant
                x <= l.len(),
                y < ls.len(),
                lsv == views(ls@),
                l@ == lsv[y as int],
                legible(lsv),
                row.len() == x,
                forall|b: int| 0 <= b < x ==> Some(row@[b]) == tile_of(l@[b]),
            decreases l.len() - x,
        {
            assert(tile_of(lsv[y as int][x as int]) is Some);
            row.push(parse_tile(l[x]));
            x += 1;
        }
        assert(row@ =~= tiles_of(lsv)[y as int]);
        out.push(row);
        y += 1;
    }
    assert(grid(out@) =~= tiles_of(lsv));
    out
}

/// The lines at `e` and behind it are equal.
pub open spec fn doubled<T: PartialEq>(u: Seq<T>, e: int) -> bool {
    0 <= e && e + 1 < u.len() && u[e].eq_spec(&u[e + 1])
}

/// The places where two equal lines follow each other, in order.
pub fn find_reflections<T: PartialEq>(u: Vec<T>) -> (r: Vec<usize>)
    requires
        T::obeys_eq_spec(),
    ensures
        forall|k: int| 0 <= k < r@.len() ==> doubled(u@, #[trigger] r@[k] as int),
        forall|k: int, l: int| 0 <= k < l < r@.len() ==> r@[k] < r@[l],
        forall|e: int| doubled(u@, e) ==> r@.contains(e as usize),
{
    let mut out: Vec<usize> = Vec::new();
    let mut e: usize = 0;
    while u.len() > 0 && e < u.len() - 1
        invariant
            e <= u.len(),
            T::obeys_eq_spec(),
            forall|k: int| 0 <= k < out@.len() ==> doubled(u@, #[trigger] out@[k] as int) && out@[k] < e,
            forall|k: int, l: int| 0 <= k < l < out@.len() ==> out@[k] < out@[l],
            forall|x: int| doubled(u@, x) && x < e ==> out@.contains(x as usize),
        decreases u.len() - e,
    {
        let ghost before = out@;
        if u[e] == u[e + 1] {
            out.push(e);
            proof {
                assert(out@[out@.len() - 1] == e);
                assert forall|x: int| doubled(u@, x) && x < e + 1 implies out@.contains(
                    x as usize,
                ) by {
                    if x < e {
                        let k = choose|k: int| 0 <= k < before.len() && before[k] == x as usize;
                        assert(out@[k] == x as usize);
                    }
                }
            }
        }
        e += 1;
    }
    out
}

/// The lines before and behind the gap after `start` mirror each other as
/// far as both reach.
pub open spec fn mirrored<T: PartialEq>(u: Seq<T>, start: int) -> bool {
    start >= u.len() || forall|i: int|
        0 <= i <= start && start + i + 1 < u.len() ==> (#[trigger] u[start - i]).eq_spec(
            &u[start + i + 1],
        )
}

/// Whether the gap after `start` is a line of reflection.
pub fn check_reflection<T: PartialEq>(u: Vec<T>, start: usize) -> (r: bool)
    requires
        T::obeys_eq_spec(),
    ensures
        r == mirrored(u@, start as int),
{
    mirrored_at(&u, start)
}

fn mirrored_at<T: PartialEq>(u: &Vec<T>, start: usize) -> (r: bool)
    requires
        T::obeys_eq_spec(),
    ensures
        r == mirrored(u@, start as int),
{
    if start >= u.len() {
        return true;
    }
    let mut i: usize = 0;
    while i <= start && i < u.len() - start - 1
        invariant
            start < u.len(),
            i <= start + 1,
            T::obeys_eq_spec(),
            forall|j: int|
                0 <= j < i && start + j + 1 < u.len() ==> (#[trigger] u@[start - j]).eq_spec(
                    &u@[start + j + 1],
                ),
        decreases start + 1 - i,
    {
        if u[start - i] != u[start + i + 1] {
            assert(!u@[start - i].eq_spec(&u@[start + i + 1]));
            return false;
        }
        i += 1;
    }
    true
}

/// The gap after `e` lies between two equal lines and is a line of
/// reflection.
pub open spec fn reflects<T: PartialEq>(u: Seq<T>, e: int) -> bool {
    doubled(u, e) && mirrored(u, e)
}

/// `r` is the number of lines before the first line of reflection, or zero
/// if there is none.
pub open spec fn above<T: PartialEq>(u: Seq<T>, r: int) -> bool {
    &&& r == 0 ==> forall|e: int| !reflects(u, e)
    &&& r > 0 ==> reflects(u, r - 1) && forall|e: int| 0 <= e < r - 1 ==> !reflects(u, e)
}

/// The number of lines before the first line of reflection from the gap
/// after `e` on, or zero if there is none.
pub open spec fn first_reflection<T: PartialEq>(u: Seq<T>, e: int) -> int
    decreases u.len() - e,
{
    if e < 0 || e + 1 >= u.len() {
        0
    } else if reflects(u, e) {
        e + 1
    } else {
        first_reflection(u, e + 1)
    }
}

/// The number of lines before the first line of reflection, or zero if
/// there is none.
pub fn above_reflection<T: PartialEq>(u: &Vec<T>) -> (r: usize)
    requires
        T::obeys_eq_spec(),
    ensures
        above(u@, r as int),
        r <= u@.len(),
        r == first_reflection(u@, 0),
{
    let mut e: usize = 0;
    while u.len() > 0 && e < u.len() - 1
        invariant
            e <= u.len(),
            T::obeys_eq_spec(),
            forall|x: int| 0 <= x < e ==> !reflects(u@, x),
            first_reflection(u@, 0) == first_reflection(u@, e as int),
        decreases u.len() - e,
    {
        if u[e] == u[e + 1] && mirrored_at(u, e) {
            return e + 1;
        }
        e += 1;
    }
    0
}

/// The rows before and behind the gap after `start` mirror each other as
/// far as both reach.
pub open spec fn mirror(g: Seq<Seq<Tile>>, start: int) -> bool {
    0 <= start && start + 1 < g.len() && forall|i: int|
        0 <= i <= start && start + i + 1 < g.len() ==> #[trigger] g[start - i] == g[start + i + 1]
}

/// The number of rows before the first gap from `e` on in which the grid
/// mirrors itself, or zero if there is none.
pub open spec fn first_mirror(g: Seq<Seq<Tile>>, e: int) -> int
    decreases g.len() - e,
{
    if e < 0 || e + 1 >= g.len() {
        0
    } else if mirror(g, e) {
        e + 1
    } else {
        first_mirror(g, e + 1)
    }
}

/// Rows are equal as vectors where they hold the same tiles.
pub proof fn lemma_rows_equal(a: Vec<Tile>, b: Vec<Tile>)
    ensures
        a.eq_spec(&b) <==> a@ == b@,
{
    if a.eq_spec(&b) {
        assert(a@ =~= b@);
    }
}

pub proof fn lemma_reflects_is_mirror(u: Seq<Vec<Tile>>, e: int)
    ensures
        reflects(u, e) <==> mirror(grid(u), e),
{
    let g = grid(u);
    if 0 <= e && e + 1 < u.len() {
        lemma_rows_equal(u[e], u[e + 1]);
        if reflects(u, e) {
            assert forall|i: int| 0 <= i <= e && e + i + 1 < g.len() implies #[trigger] g[e - i]
                == g[e + i + 1] by {
                lemma_rows_equal(u[e - i], u[e + i + 1]);
            }
        }
        if mirror(g, e) {
            assert(g[e - 0] == g[e + 0 + 1]);
            assert forall|i: int| 0 <= i <= e && e + i + 1 < u.len() implies (#[trigger] u[e
                - i]).eq_spec(&u[e + i + 1]) by {
                lemma_rows_equal(u[e - i], u[e + i + 1]);
                assert(g[e - i] == g[e + i + 1]);
            }
        }
    }
}

pub proof fn lemma_first_reflection_is_mirror(u: Seq<Vec<Tile>>, e: int)
    ensures
        first_reflection(u, e) == first_mirror(grid(u), e),
    decreases u.len() - e,
{
    if !(e < 0 || e + 1 >= u.len()) {
        lemma_reflects_is_mirror(u, e);
        lemma_first_reflection_is_mirror(u, e + 1);
    }
}

/// The summary of a pattern: the number of rows above its first horizontal
/// line of reflection, a hundredfold, and the number of columns before its
/// first vertical one.
pub open spec fn summary(g: Seq<Seq<Tile>>) -> int {
    100 * first_mirror(g, 0) + first_mirror(transposed(g), 0)
}

/// The number of rows above the first horizontal line of reflection, a
/// hundredfold, and the number of columns before the first vertical one.
pub fn summarize(u: Field) -> (r: usize)
    requires
        wide(grid(u@)),
        100 * u@.len() + u@[0]@.len() <= usize::MAX,
    ensures
        r == summary(grid(u@)),
{
    summary_of(&u)
}

/// The summary of a pattern.
pub fn summary_of(u: &Field) -> (r: usize)
    requires
        wide(grid(u@)),
        100 * u@.len() + u@[0]@.len() <= usize::MAX,
    ensures
        r == summary(grid(u@)),
{
    let a = above_reflection(u);
    assert(grid(u@)[0] == u@[0]@);
    proof {
        lemma_first_reflection_is_mirror(u@, 0);
    }
    let t = transposed_of(u);
    let b = above_reflection(&t);
    proof {
        assert(grid(t@).len() == t@.len());
        lemma_first_reflection_is_mirror(t@, 0);
    }
    100 * a + b
}

/// Every paragraph is a pattern.
pub open spec fn patterns(ps: Seq<Seq<char>>) -> bool {
    forall|k: int| 0 <= k < ps.len() ==> legible(lines_of(#[trigger] ps[k]))
}

/// Reads the patterns of a text, one from each paragraph.
pub fn parse(f: &str) -> (r: Vec<Field>)
    requires
        patterns(paragraphs_of(f@)),
    ensures
        r@.len() == paragraphs_of(f@).len(),
        forall|k: int|
            0 <= k < r@.len() ==> grid((#[trigger] r@[k])@) == tiles_of(
                lines_of(paragraphs_of(f@)[k]),
            ),
{
    let c = chars_of(f);
    let ps = paragraphs(&c);
    let ghost all = paragraphs_of(f@);
    let mut out: Vec<Field> = Vec::new();
    let mut k: usize = 0;
    while k < ps.len()
        invariant
            k <= ps.len(),
            all == views(ps@),
            patterns(all),
            out@.len() == k,
            forall|j: int| 0 <= j < k ==> grid((#[trigger] out@[j])@) == tiles_of(lines_of(all[j])),
        decreases ps.len() - k,
    {
        assert(all[k as int] == ps@[k as int]@);
        assert(legible(lines_of(all[k as int])));
        let text = string_of(&ps[k]);
        let field = parse_field(text.as_str());
        let ghost before = out@;
        out.push(field);
        proof {
            assert forall|j: int| 0 <= j < k + 1 implies grid((#[trigger] out@[j])@) == tiles_of(
                lines_of(all[j]),
            ) by {
                if j < k {
                    assert(out@[j] == before[j]);
                }
            }
        }
        k += 1;
    }
    out
}

/// The pattern of a paragraph.
pub open spec fn pattern(p: Seq<char>) -> Seq<Seq<Tile>> {
    tiles_of(lines_of(p))
}

/// The sum of the summaries of the first `k` paragraphs.
pub open spec fn summaries_to(ps: Seq<Seq<char>>, k: int) -> int
    decreases k,
{
    if k <= 0 {
        0
    } else {
        summaries_to(ps, k - 1) + summary(pattern(ps[k - 1]))
    }
}

/// Every pattern has a row and no row shorter than the first, and neither
/// its summary nor the sum of the summaries up to it exceeds a machine
/// word.
pub open spec fn summable(ps: Seq<Seq<char>>) -> bool {
    forall|k: int|
        0 <= k < ps.len() ==> {
            &&& wide(pattern(#[trigger] ps[k]))
            &&& 100 * pattern(ps[k]).len() + pattern(ps[k])[0].len() <= usize::MAX
            &&& 0 <= summaries_to(ps, k + 1) <= usize::MAX
        }
}

/// The sum of the summaries of the patterns of a text.
pub fn part1(f: &str) -> (r: usize)
    requires
        patterns(paragraphs_of(f@)),
        summable(paragraphs_of(f@)),
    ensures
        r == summaries_to(paragraphs_of(f@), paragraphs_of(f@).len() as int),
{
    let fields = parse(f);
    let ghost all = paragraphs_of(f@);
    let mut acc: usize = 0;
    let mut k: usize = 0;
    while k < fields.len()
        invariant
            k <= fields.len(),
            fields@.len() == all.len(),
            summable(all),
            forall|j: int| 0 <= j < fields@.len() ==> grid((#[trigger] fields@[j])@) == pattern(all[j]),
            acc == summaries_to(all, k as int),
        decreases fields.len() - k,
    {
        let field = &fields[k];
        proof {
            assert(grid(fields@[k as int]@) == pattern(all[k as int]));
            assert(wide(pattern(all[k as int])));
            assert(grid(field@)[0] == field@[0]@);
            assert(0 <= summaries_to(all, k + 1) <= usize::MAX);
        }
        acc = acc + summary_of(field);
        k += 1;
    }
    acc
}

} // verus!
