//! A platform of round and square rocks that is tilted to let the round
//! rocks roll.
use crate::day13::{grid, transpose, transposed, wide};
use crate::text::{lines, lines_of, views};
use vstd::prelude::*;

verus! {

#[derive(Clone, Copy, Debug, PartialEq, Eq, Hash, Structural)]
pub enum Tile {
    Empty,
    Round,
    Square,
}

pub type Platform = Vec<Vec<Tile>>;

pub type Row = Vec<Tile>;

pub open spec fn tile_of(t: char) -> Option<Tile> {
    if t == '.' {
        Some(Tile::Empty)
    } else if t == '#' {
        Some(Tile::Square)
    } else if t == 'O' {
        Some(Tile::Round)
    } else {
        None
    }
}

pub fn parse_tile(t: char) -> (r: Tile)
    requires
        tile_of(t) is Some,
    ensures
        Some(r) == tile_of(t),
{
    match t {
        '.' => Tile::Empty,
        '#' => Tile::Square,
        _ => Tile::Round,
    }
}

/// The rows in the opposite order.
pub open spec fn reversed(g: Seq<Seq<Tile>>) -> Seq<Seq<Tile>> {
    Seq::new(g.len(), |i: int| g[g.len() - 1 - i])
}

/// Each row in the opposite order.
pub open spec fn flipped(g: Seq<Seq<Tile>>) -> Seq<Seq<Tile>> {
    Seq::new(g.len(), |i: int| Seq::new(g[i].len(), |j: int| g[i][g[i].len() - 1 - j]))
}

/// The grid has a tile, and all its rows are of one length.
pub open spec fn rect(g: Seq<Seq<Tile>>) -> bool {
    &&& g.len() > 0
    &&& g[0].len() > 0
    &&& forall|i: int| 0 <= i < g.len() ==> (#[trigger] g[i]).len() == g[0].len()
}

/// Two grids have as many rows, and each row of one is as long as that row
/// of the other.
pub open spec fn same_shape(a: Seq<Seq<Tile>>, b: Seq<Seq<Tile>>) -> bool {
    a.len() == b.len() && forall|i: int| 0 <= i < a.len() ==> (#[trigger] a[i]).len() == b[i].len()
}

/// The number of round rocks from `a` up to `b`.
pub open spec fn rounds(s: Seq<Tile>, a: int, b: int) -> int
    decreases b - a,
{
    if b <= a {
        0
    } else {
        rounds(s, a, b - 1) + if s[b - 1] == Tile::Round {
            1int
        } else {
            0
        }
    }
}

/// Where the stretch without square rocks begins in which `p` lies.
pub open spec fn seg_start(s: Seq<Tile>, p: int) -> int
    decreases p,
{
    if p <= 0 || s[p - 1] == Tile::Square {
        p
    } else {
        seg_start(s, p - 1)
    }
}

/// Where the stretch without square rocks ends in which `p` lies.
pub open spec fn seg_end(s: Seq<Tile>, p: int) -> int
    decreases s.len() - p,
{
    if p >= s.len() || s[p] == Tile::Square {
        p
    } else {
        seg_end(s, p + 1)
    }
}

/// The row after its round rocks have rolled to the right: the square
/// rocks stay, and the round rocks of each stretch between them lie at the
/// end of the stretch.
pub open spec fn tilt(s: Seq<Tile>) -> Seq<Tile> {
    Seq::new(
        s.len(),
        |p: int|
            if s[p] == Tile::Square {
                Tile::Square
            } else if p >= seg_end(s, p) - rounds(s, seg_start(s, p), seg_end(s, p)) {
                Tile::Round
            } else {
                Tile::Empty
            },
    )
}

/// Every row tilted to the right.
pub open spec fn east(g: Seq<Seq<Tile>>) -> Seq<Seq<Tile>> {
    Seq::new(g.len(), |i: int| tilt(g[i]))
}

pub open spec fn west(g: Seq<Seq<Tile>>) -> Seq<Seq<Tile>> {
    flipped(east(flipped(g)))
}

pub open spec fn north(g: Seq<Seq<Tile>>) -> Seq<Seq<Tile>> {
    reversed(transposed(east(transposed(reversed(g)))))
}

pub open spec fn south(g: Seq<Seq<Tile>>) -> Seq<Seq<Tile>> {
    transposed(east(transposed(g)))
}

/// One cycle: tilted north, then west, then south, then east.
pub open spec fn cycle(g: Seq<Seq<Tile>>) -> Seq<Seq<Tile>> {
    east(south(west(north(g))))
}

/// `n` cycles.
pub open spec fn cycles(g: Seq<Seq<Tile>>, n: nat) -> Seq<Seq<Tile>>
    decreases n,
{
    if n == 0 {
        g
    } else {
        cycle(cycles(g, (n - 1) as nat))
    }
}

pub proof fn lemma_seg_start(s: Seq<Tile>, a: int, p: int)
    requires
        0 <= a <= p <= s.len(),
        a == 0 || s[a - 1] == Tile::Square,
        forall|q: int| a <= q < p ==> s[q] != Tile::Square,
    ensures
        seg_start(s, p) == a,
    decreases p - a,
{
    if p > a {
        lemma_seg_start(s, a, p - 1);
    }
}

pub proof fn lemma_seg_end(s: Seq<Tile>, p: int, b: int)
    requires
        0 <= p <= b <= s.len(),
        b == s.len() || s[b] == Tile::Square,
        forall|q: int| p <= q < b ==> s[q] != Tile::Square,
    ensures
        seg_end(s, p) == b,
    decreases b - p,
{
    if p < b {
        lemma_seg_end(s, p + 1, b);
    }
}

pub proof fn lemma_rounds_bound(s: Seq<Tile>, a: int, b: int)
    requires
        a <= b,
    ensures
        0 <= rounds(s, a, b) <= b - a,
    decreases b - a,
{
    if a < b {
        lemma_rounds_bound(s, a, b - 1);
    }
}

fn fill_rounds(m: &mut Row, from: usize, to: usize)
    requires
        from <= to <= old(m)@.len(),
    ensures
        final(m)@.len() == old(m)@.len(),
        forall|p: int| from <= p < to ==> final(m)@[p] == Tile::Round,
        forall|p: int| 0 <= p < old(m)@.len() && !(from <= p < to) ==> final(m)@[p] == old(m)@[p],
{
    let mut i: usize = from;
    while i < to
        invariant
            from <= i <= to,
            to <= m@.len(),
            m@.len() == old(m)@.len(),
            forall|p: int| from <= p < i ==> m@[p] == Tile::Round,
            forall|p: int| 0 <= p < m@.len() && !(from <= p < i) ==> m@[p] == old(m)@[p],
        decreases to - i,
    {
        m[i] = Tile::Round;
        i += 1;
    }
}

/// Lets the round rocks of a row roll to the right.
pub fn shove_line_right(m: &mut Row)
    ensures
        final(m)@ == tilt(old(m)@),
{
    let ghost s = m@;
    let ghost mut a: int = 0;
    let mut stones: usize = 0;
    let mut i: usize = 0;
    while i < m.len()
        invariant
            s == old(m)@,
            m@.len() == s.len(),
            0 <= a <= i <= s.len(),
            a == 0 || s[a - 1] == Tile::Square,
            forall|q: int| a <= q < i ==> s[q] != Tile::Square,
            stones == rounds(s, a, i as int),
            stones <= i - a,
            forall|p: int| 0 <= p < a ==> m@[p] == tilt(s)[p],
            forall|p: int| a <= p < i ==> m@[p] == Tile::Empty,
            forall|p: int| i <= p < s.len() ==> m@[p] == s[p],
        decreases m.len() - i,
    {
        match m[i] {
            Tile::Square => {
                fill_rounds(m, i - stones, i);
                proof {
                    assert forall|p: int| 0 <= p < i + 1 implies m@[p] == tilt(s)[p] by {
                        if a <= p < i {
                            lemma_seg_start(s, a, p);
                            lemma_seg_end(s, p, i as int);
                        }
                    }
                    a = i + 1;
                }
                stones = 0;
            },
            Tile::Round => {
                stones += 1;
                m[i] = Tile::Empty;
            },
            _ => {},
        }
        i += 1;
    }
    let n = m.len();
    fill_rounds(m, n - stones, n);
    proof {
        assert forall|p: int| 0 <= p < n implies m@[p] == tilt(s)[p] by {
            if a <= p {
                lemma_seg_start(s, a, p);
                lemma_seg_end(s, p, n as int);
            }
        }
        assert(m@ =~= tilt(s));
    }
}

/// Lets the round rocks of every row roll to the right.
pub fn shr(a: &mut Platform)
    ensures
        grid(final(a)@) == east(grid(old(a)@)),
{
    let ghost g = grid(a@);
    let mut i: usize = 0;
    while i < a.len()
        invariant
            i <= a.len(),
            a@.len() == g.len(),
            g == grid(old(a)@),
            forall|k: int| 0 <= k < i ==> (#[trigger] a@[k])@ == tilt(g[k]),
            forall|k: int| i <= k < a@.len() ==> (#[trigger] a@[k])@ == g[k],
        decreases a.len() - i,
    {
        let mut row: Row = Vec::new();
        std::mem::swap(&mut row, &mut a[i]);
        shove_line_right(&mut row);
        a[i] = row;
        i += 1;
    }
    assert(grid(a@) =~= east(g));
}

/// The rows in the opposite order.
pub fn reverse(m: Platform) -> (r: Platform)
    ensures
        grid(r@) == reversed(grid(m@)),
{
    let ghost g = grid(m@);
    let mut rest = m;
    let mut out: Platform = Vec::new();
    while rest.len() > 0
        invariant
            rest@.len() + out@.len() == g.len(),
            forall|k: int| 0 <= k < rest@.len() ==> (#[trigger] rest@[k])@ == g[k],
            forall|k: int| 0 <= k < out@.len() ==> (#[trigger] out@[k])@ == g[g.len() - 1 - k],
        decreases rest.len(),
    {
        let row = rest.pop().unwrap();
        out.push(row);
    }
    assert(grid(out@) =~= reversed(g));
    out
}

/// Each row in the opposite order.
pub fn flip(m: Platform) -> (r: Platform)
    ensures
        grid(r@) == flipped(grid(m@)),
{
    let ghost g = grid(m@);
    let mut out: Platform = Vec::new();
    let mut i: usize = 0;
    while i < m.len()
        invariant
            i <= m.len(),
            g == grid(m@),
            out@.len() == i,
            forall|k: int| 0 <= k < i ==> (#[trigger] out@[k])@ == flipped(g)[k],
        decreases m.len() - i,
    {
        let row = &m[i];
        let n = row.len();
        let mut rev: Row = Vec::new();
        let mut j: usize = 0;
        while j < n
            invariant
                j <= n,
                n == row@.len(),
                rev@.len() == j,
                forall|b: int| 0 <= b < j ==> rev@[b] == row@[n - 1 - b],
            decreases n - j,
        {
            rev.push(row[n - 1 - j]);
            j += 1;
        }
        assert(g[i as int] == row@);
        assert(rev@ =~= flipped(g)[i as int]);
        out.push(rev);
        i += 1;
    }
    assert(grid(out@) =~= flipped(g));
    out
}

/// The platform tilted east.
pub fn right(m: Platform) -> (r: Platform)
    ensures
        grid(r@) == east(grid(m@)),
{
    let mut a = m;
    shr(&mut a);
    a
}

/// The platform tilted west.
pub fn left(m: Platform) -> (r: Platform)
    ensures
        grid(r@) == west(grid(m@)),
{
    let mut a = flip(m);
    shr(&mut a);
    flip(a)
}

/// The platform tilted north.
pub fn up(m: Platform) -> (r: Platform)
    requires
        rect(grid(m@)),
    ensures
        grid(r@) == north(grid(m@)),
        rect(grid(r@)),
        same_shape(grid(r@), grid(m@)),
{
    let ghost g = grid(m@);
    let back = reverse(m);
    assert(wide(grid(back@)));
    let mut a = transpose(back);
    shr(&mut a);
    assert(wide(grid(a@)));
    let t = transpose(a);
    reverse(t)
}

/// The platform tilted south.
pub fn down(m: Platform) -> (r: Platform)
    requires
        rect(grid(m@)),
    ensures
        grid(r@) == south(grid(m@)),
        rect(grid(r@)),
        same_shape(grid(r@), grid(m@)),
{
    assert(wide(grid(m@)));
    let mut a = transpose(m);
    shr(&mut a);
    assert(wide(grid(a@)));
    transpose(a)
}

/// One cycle of tilting: north, west, south, east.
pub fn spin(m: Platform) -> (r: Platform)
    requires
        rect(grid(m@)),
    ensures
        grid(r@) == cycle(grid(m@)),
        rect(grid(r@)),
        same_shape(grid(r@), grid(m@)),
{
    let n = up(m);
    let w = left(n);
    assert(rect(grid(w@)));
    let s = down(w);
    right(s)
}

/// `n` cycles of tilting.
pub fn speen(m: Platform, n: usize) -> (r: Platform)
    requires
        rect(grid(m@)),
    ensures
        grid(r@) == cycles(grid(m@), n as nat),
        rect(grid(r@)),
{
    let ghost g = grid(m@);
    let mut a = m;
    let mut i: usize = 0;
    while i < n
        invariant
            i <= n,
            rect(grid(a@)),
            grid(a@) == cycles(g, i as nat),
        decreases n - i,
    {
        a = spin(a);
        i += 1;
    }
    a
}

/// The number of round rocks of a row.
pub fn count_stones(u: &Row) -> (r: usize)
    ensures
        r == rounds(u@, 0, u@.len() as int),
{
    let mut n: usize = 0;
    let mut i: usize = 0;
    while i < u.len()
        invariant
            i <= u.len(),
            n == rounds(u@, 0, i as int),
            n <= i,
        decreases u.len() - i,
    {
        if u[i] == Tile::Round {
            n += 1;
        }
        i += 1;
    }
    n
}

/// The load of the first `k` rows: each round rock weighs as many as there
/// are rows from its own to the last.
pub open spec fn load_to(g: Seq<Seq<Tile>>, k: int) -> int
    decreases k,
{
    if k <= 0 {
        0
    } else {
        load_to(g, k - 1) + (g.len() - (k - 1)) * rounds(g[k - 1], 0, g[k - 1].len() as int)
    }
}

/// The load of the platform on its north side.
pub open spec fn load(g: Seq<Seq<Tile>>) -> int {
    load_to(g, g.len() as int)
}

pub proof fn lemma_load_monotone(g: Seq<Seq<Tile>>, a: int, b: int)
    requires
        0 <= a <= b <= g.len(),
    ensures
        0 <= load_to(g, a) <= load_to(g, b),
    decreases b,
{
    if b > 0 {
        lemma_rounds_bound(g[b - 1], 0, g[b - 1].len() as int);
        let w = g.len() - (b - 1);
        let c = rounds(g[b - 1], 0, g[b - 1].len() as int);
        assert(0 <= w * c) by (nonlinear_arith)
            requires
                0 <= w,
                0 <= c,
        ;
        if a < b {
            lemma_load_monotone(g, a, b - 1);
        } else {
            lemma_load_monotone(g, a - 1, b - 1);
        }
    }
}

/// The load of the platform on its north side.
pub fn calc_load(m: Platform) -> (r: usize)
    requires
        load(grid(m@)) <= usize::MAX,
    ensures
        r == load(grid(m@)),
{
    let ghost g = grid(m@);
    let n = m.len();
    let mut acc: usize = 0;
    let mut k: usize = 0;
    while k < n
        invariant
            k <= n,
            n == m@.len(),
            g == grid(m@),
            load(g) <= usize::MAX,
            acc == load_to(g, k as int),
        decreases n - k,
    {
        let c = count_stones(&m[k]);
        proof {
            assert(g[k as int] == m@[k as int]@);
            lemma_load_monotone(g, k + 1, n as int);
            lemma_load_monotone(g, k as int, k + 1);
            let w = (n - k) as int;
            assert(0 <= c * 1 <= w * c) by (nonlinear_arith)
                requires
                    1 <= w,
                    0 <= c,
            ;
        }
        acc += (n - k) * c;
        k += 1;
    }
    acc
}

/// Every character of every line stands for a tile.
pub open spec fn legible(ls: Seq<Seq<char>>) -> bool {
    forall|y: int, x: int|
        0 <= y < ls.len() && 0 <= x < ls[y].len() ==> tile_of(#[trigger] ls[y][x]) is Some
}

/// The tiles of some lines.
pub open spec fn tiles_of(ls: Seq<Seq<char>>) -> Seq<Seq<Tile>> {
    Seq::new(ls.len(), |y: int| Seq::new(ls[y].len(), |x: int| tile_of(ls[y][x]).unwrap()))
}

/// Reads a platform, one row from each line.
pub fn parse(f: &str) -> (r: Platform)
    requires
        legible(lines_of(f@)),
    ensures
        grid(r@) == tiles_of(lines_of(f@)),
{
    let ls = lines(f);
    let ghost lsv = lines_of(f@);
    let mut out: Platform = Vec::new();
    let mut y: usize = 0;
    while y < ls.len()
        invariant
            y <= ls.len(),
            lsv == views(ls@),
            legible(lsv),
            out.len() == y,
            forall|a: int| 0 <= a < y ==> (#[trigger] out@[a])@ == tiles_of(lsv)[a],
        decreases ls.len() - y,
    {
        let l = &ls[y];
        let mut row: Vec<Tile> = Vec::new();
        let mut x: usize = 0;
        while x < l.len()
            invariant
                x <= l.len(),
                y < ls.len(),
                lsv == views(ls@),
                l@ == lsv[y as int],
                legible(lsv),
                row.len() == x,
                forall|b: int| 0 <= b < x ==> Some(row@[b]) == tile_of(l@[b]),
            decreases l.len() - x,
        {
            assert(tile_of(lsv[y as int][x as int]) is Some);
            row.push(parse_tile(l[x]));
            x += 1;
        }
        assert(row@ =~= tiles_of(lsv)[y as int]);
        out.push(row);
        y += 1;
    }
    assert(grid(out@) =~= tiles_of(lsv));
    out
}

/// The load after the platform has been tilted north.
pub fn part1(f: &str) -> (r: usize)
    requires
        legible(lines_of(f@)),
        rect(tiles_of(lines_of(f@))),
        load(north(tiles_of(lines_of(f@)))) <= usize::MAX,
    ensures
        r == load(north(tiles_of(lines_of(f@)))),
{
    calc_load(up(parse(f)))
}

/// Whether two platforms hold the same tiles.
pub fn same_grid(a: &Platform, b: &Platform) -> (r: bool)
    ensures
        r == (grid(a@) == grid(b@)),
{
    if a.len() != b.len() {
        assert(grid(a@).len() != grid(b@).len());
        return false;
    }
    let mut i: usize = 0;
    while i < a.len()
        invariant
            i <= a.len(),
            a.len() == b.len(),
            forall|k: int| 0 <= k < i ==> (#[trigger] a@[k])@ == b@[k]@,
        decreases a.len() - i,
    {
        let x = &a[i];
        let y = &b[i];
        if x.len() != y.len() {
            assert(grid(a@)[i as int].len() != grid(b@)[i as int].len());
            return false;
        }
        let mut j: usize = 0;
        while j < x.len()
            invariant
                j <= x.len(),
                i < a.len(),
                a.len() == b.len(),
                x@ == a@[i as int]@,
                y@ == b@[i as int]@,
                x.len() == y.len(),
                forall|k: int| 0 <= k < j ==> x@[k] == y@[k],
            decreases x.len() - j,
        {
            if x[j] != y[j] {
                assert(grid(a@)[i as int][j as int] != grid(b@)[i as int][j as int]);
                return false;
            }
            j += 1;
        }
        assert(x@ =~= y@);
        i += 1;
    }
    assert(grid(a@) =~= grid(b@));
    true
}

/// A platform with the same tiles.
pub fn copy_of(a: &Platform) -> (r: Platform)
    ensures
        grid(r@) == grid(a@),
{
    let mut out: Platform = Vec::new();
    let mut i: usize = 0;
    while i < a.len()
        invariant
            i <= a.len(),
            out@.len() == i,
            forall|k: int| 0 <= k < i ==> (#[trigger] out@[k])@ == a@[k]@,
        decreases a.len() - i,
    {
        let x = &a[i];
        let mut row: Row = Vec::new();
        let mut j: usize = 0;
        while j < x.len()
            invariant
                j <= x.len(),
                row@ == x@.take(j as int),
            decreases x.len() - j,
        {
            row.push(x[j]);
            assert(x@.take(j + 1) =~= x@.take(j as int).push(x@[j as int]));
            j += 1;
        }
        assert(x@.take(x@.len() as int) =~= x@);
        out.push(row);
        i += 1;
    }
    assert(grid(out@) =~= grid(a@));
    out
}

/// So many cycles and then so many more are as many cycles as both
/// together.
pub proof fn lemma_cycles_add(g: Seq<Seq<Tile>>, a: nat, b: nat)
    ensures
        cycles(cycles(g, a), b) == cycles(g, a + b),
    decreases b,
{
    if b > 0 {
        lemma_cycles_add(g, a, (b - 1) as nat);
    }
}

/// Once the platform comes back to a state, it comes back to it after any
/// number of periods.
pub proof fn lemma_periodic(g: Seq<Seq<Tile>>, p: nat, period: nat, q: nat)
    requires
        cycles(g, p + period) == cycles(g, p),
    ensures
        cycles(g, p + q * period) == cycles(g, p),
    decreases q,
{
    if q > 0 {
        lemma_periodic(g, p, period, (q - 1) as nat);
        assert(p + q * period == (p + period) + (q - 1) * period) by (nonlinear_arith)
            requires
                q > 0,
        ;
        lemma_cycles_add(g, p + period, ((q - 1) * period) as nat);
        lemma_cycles_add(g, p, ((q - 1) * period) as nat);
    } else {
        assert(p + 0 * period == p) by (nonlinear_arith);
    }
}

/// The load after a thousand million cycles. The platform is spun until it
/// comes to a state in which it has been; from there on it repeats itself.
pub fn part2(f: &str) -> (r: usize)
    requires
        legible(lines_of(f@)),
        rect(tiles_of(lines_of(f@))),
        load(cycles(tiles_of(lines_of(f@)), 1_000_000_000)) <= usize::MAX,
    ensures
        r == load(cycles(tiles_of(lines_of(f@)), 1_000_000_000)),
{
    let mut a = parse(f);
    let ghost g0 = grid(a@);
    let mut seen: Vec<Platform> = Vec::new();
    let target: usize = 1_000_000_000;
    let mut i: usize = 0;
    while i < target
        invariant
            i <= target,
            target == 1_000_000_000,
            g0 == tiles_of(lines_of(f@)),
            rect(grid(a@)),
            grid(a@) == cycles(g0, i as nat),
            load(cycles(g0, 1_000_000_000)) <= usize::MAX,
            seen@.len() == i,
            forall|k: int| 0 <= k < i ==> grid((#[trigger] seen@[k])@) == cycles(g0, k as nat),
        decreases target - i,
    {
        let mut previous: usize = 0;
        let mut found = false;
        while previous < i
            invariant_except_break
                !found,
            invariant
                previous <= i,
                seen@.len() == i,
            ensures
                found ==> previous < i && grid(seen@[previous as int]@) == grid(a@),
            decreases i - previous,
        {
            if same_grid(&seen[previous], &a) {
                found = true;
                break ;
            }
            previous += 1;
        }
        if found {
            let metacycle = i - previous;
            let remaining = target - i;
            let rem = remaining % metacycle;
            proof {
                let p = previous as nat;
                let mc = metacycle as nat;
                let q = (remaining / metacycle) as nat;
                assert(p + mc == i as nat);
                assert(cycles(g0, p + mc) == cycles(g0, p));
                lemma_periodic(g0, p, mc, q + 1);
                let n1: nat = p + (q + 1) * mc;
                assert(cycles(g0, n1) == cycles(g0, p));
                vstd::arithmetic::div_mod::lemma_fundamental_div_mod(
                    remaining as int,
                    metacycle as int,
                );
                assert(target as int == n1 + rem) by (nonlinear_arith)
                    requires
                        target == i + remaining,
                        i == p + mc,
                        remaining as int == mc * q + rem,
                        n1 == p + (q + 1) * mc,
                ;
                lemma_cycles_add(g0, n1, rem as nat);
                assert(cycles(g0, target as nat) == cycles(cycles(g0, n1), rem as nat));
                assert(cycles(g0, n1) == grid(a@));
            }
            return calc_load(speen(a, rem));
        }
        let ghost before = seen@;
        seen.push(copy_of(&a));
        proof {
            assert forall|k: int| 0 <= k < i + 1 implies grid((#[trigger] seen@[k])@) == cycles(
                g0,
                k as nat,
            ) by {
                if k < i {
                    assert(seen@[k] == before[k]);
                }
            }
        }
        a = spin(a);
        i += 1;
    }
    calc_load(a)
}

} // verus!
