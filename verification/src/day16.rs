//! A contraption of mirrors and splitters through which a beam of light
//! travels.
use crate::text::{lines, lines_of, views};
use vstd::prelude::*;

verus! {

#[derive(Clone, Copy, Debug, PartialEq, Eq, Structural)]
pub enum Axis {
    Horizontal,
    Vertical,
}

/// A tile: empty, a splitter that lets light through along its axis, or a
/// mirror that turns light on its axis clockwise.
#[derive(Clone, Copy, Debug, PartialEq, Eq, Structural)]
pub enum Tile {
    Empty,
    Splitter(Axis),
    Mirror(Axis),
}

#[derive(Clone, Copy, Debug, PartialEq, Eq, Hash, Structural)]
pub enum Dir {
    Left,
    Right,
    Down,
    Up,
}

pub type Coord = (usize, usize);

pub open spec fn spec_clockwise(x: Dir) -> Dir {
    match x {
        Dir::Left => Dir::Up,
        Dir::Right => Dir::Down,
        Dir::Down => Dir::Left,
        Dir::Up => Dir::Right,
    }
}

pub open spec fn spec_opposite(x: Dir) -> Dir {
    match x {
        Dir::Left => Dir::Right,
        Dir::Right => Dir::Left,
        Dir::Down => Dir::Up,
        Dir::Up => Dir::Down,
    }
}

pub open spec fn spec_counterclockwise(x: Dir) -> Dir {
    match x {
        Dir::Left => Dir::Down,
        Dir::Right => Dir::Up,
        Dir::Down => Dir::Right,
        Dir::Up => Dir::Left,
    }
}

#[verifier::when_used_as_spec(spec_clockwise)]
pub fn clockwise(x: Dir) -> (r: Dir)
    ensures
        r == spec_clockwise(x),
{
    match x {
        Dir::Left => Dir::Up,
        Dir::Right => Dir::Down,
        Dir::Down => Dir::Left,
        Dir::Up => Dir::Right,
    }
}

#[verifier::when_used_as_spec(spec_opposite)]
pub fn opposite(x: Dir) -> (r: Dir)
    ensures
        r == spec_opposite(x),
{
    clockwise(clockwise(x))
}

#[verifier::when_used_as_spec(spec_counterclockwise)]
pub fn counterclockwise(x: Dir) -> (r: Dir)
    ensures
        r == spec_counterclockwise(x),
{
    clockwise(opposite(x))
}

pub open spec fn spec_axis(d: Dir) -> Axis {
    match d {
        Dir::Up | Dir::Down => Axis::Vertical,
        Dir::Left | Dir::Right => Axis::Horizontal,
    }
}

/// The axis along which a direction points.
#[verifier::when_used_as_spec(spec_axis)]
pub fn axis(d: Dir) -> (r: Axis)
    ensures
        r == spec_axis(d),
{
    match d {
        Dir::Up | Dir::Down => Axis::Vertical,
        Dir::Left | Dir::Right => Axis::Horizontal,
    }
}

/// The directions in which light leaves a tile that it has entered in
/// direction `d`: a mirror turns it, clockwise if it travels along the
/// mirror's axis; a splitter across its way sends it both ways.
pub open spec fn distorted(d: Dir, t: Tile) -> Seq<Dir> {
    match t {
        Tile::Mirror(x) => if x == axis(d) {
            seq![clockwise(d)]
        } else {
            seq![counterclockwise(d)]
        },
        Tile::Splitter(x) => if x == axis(d) {
            seq![d]
        } else {
            seq![clockwise(d), counterclockwise(d)]
        },
        Tile::Empty => seq![d],
    }
}

/// The directions in which light leaves a tile.
pub fn distort(d: Dir, t: Tile) -> (r: Vec<Dir>)
    ensures
        r@ == distorted(d, t),
{
    let a = axis(d);
    let r = match t {
        Tile::Mirror(x) => if x == a {
            vec![clockwise(d)]
        } else {
            vec![counterclockwise(d)]
        },
        Tile::Splitter(x) => if x == a {
            vec![d]
        } else {
            vec![clockwise(d), counterclockwise(d)]
        },
        Tile::Empty => vec![d],
    };
    assert(r@ =~= distorted(d, t));
    r
}

/// The contraption. `size` is its width and height.
#[derive(Debug)]
pub struct Grid {
    pub tiles: Vec<Vec<Tile>>,
    pub size: Coord,
}

impl Grid {
    pub open spec fn inside(&self, c: Coord) -> bool {
        c.0 < self.size.0 && c.1 < self.size.1
    }

    /// The grid is a rectangle of the stated size.
    pub open spec fn wf(&self) -> bool {
        &&& self.tiles@.len() == self.size.1
        &&& forall|y: int|
            0 <= y < self.tiles@.len() ==> (#[trigger] self.tiles@[y])@.len() == self.size.0
    }

    pub open spec fn at(&self, c: Coord) -> Tile {
        self.tiles@[c.1 as int]@[c.0 as int]
    }

    /// The tile at `c`.
    pub fn index(&self, c: Coord) -> (t: Tile)
        requires
            self.wf(),
            self.inside(c),
        ensures
            t == self.at(c),
    {
        self.tiles[c.1][c.0]
    }
}

/// The neighbour of `c` in direction `d` within a grid of the given size.
pub open spec fn neighbour(d: Dir, c: Coord, size: Coord) -> Option<Coord> {
    match d {
        Dir::Left => if c.0 > 0 {
            Some(((c.0 - 1) as usize, c.1))
        } else {
            None
        },
        Dir::Right => if c.0 + 1 < size.0 {
            Some(((c.0 + 1) as usize, c.1))
        } else {
            None
        },
        Dir::Down => if c.1 + 1 < size.1 {
            Some((c.0, (c.1 + 1) as usize))
        } else {
            None
        },
        Dir::Up => if c.1 > 0 {
            Some((c.0, (c.1 - 1) as usize))
        } else {
            None
        },
    }
}

/// The neighbour of `c` in direction `d`, unless that would leave the grid.
pub fn step(d: Dir, c: Coord, m: &Grid) -> (r: Option<Coord>)
    ensures
        r == neighbour(d, c, m.size),
        m.inside(c) && r is Some ==> m.inside(r.unwrap()),
{
    let (x, y) = c;
    let (mx, my) = m.size;
    match d {
        Dir::Left => if x > 0 {
            Some((x - 1, y))
        } else {
            None
        },
        Dir::Right => if mx > 0 && x < mx - 1 {
            Some((x + 1, y))
        } else {
            None
        },
        Dir::Down => if my > 0 && y < my - 1 {
            Some((x, y + 1))
        } else {
            None
        },
        Dir::Up => if y > 0 {
            Some((x, y - 1))
        } else {
            None
        },
    }
}

pub open spec fn tile_of(t: char) -> Option<Tile> {
    if t == '.' {
        Some(Tile::Empty)
    } else if t == '|' {
        Some(Tile::Splitter(Axis::Vertical))
    } else if t == '-' {
        Some(Tile::Splitter(Axis::Horizontal))
    } else if t == '/' {
        Some(Tile::Mirror(Axis::Vertical))
    } else if t == '\\' {
        Some(Tile::Mirror(Axis::Horizontal))
    } else {
        None
    }
}

pub fn parse_tile(t: char) -> (r: Tile)
    requires
        tile_of(t) is Some,
    ensures
        Some(r) == tile_of(t),
{
    match t {
        '.' => Tile::Empty,
        '|' => Tile::Splitter(Axis::Vertical),
        '-' => Tile::Splitter(Axis::Horizontal),
        '/' => Tile::Mirror(Axis::Vertical),
        _ => Tile::Mirror(Axis::Horizontal),
    }
}

/// Light on a tile, travelling in a direction.
#[derive(Clone, Copy, Debug, PartialEq, Eq, Hash)]
pub struct Photon {
    pub dir: Dir,
    pub coord: Coord,
}

/// The photons that follow one of the given directions from `c`, as far as
/// the grid reaches.
pub open spec fn sent(dirs: Seq<Dir>, c: Coord, size: Coord) -> Seq<Photon>
    decreases dirs.len(),
{
    if dirs.len() == 0 {
        Seq::empty()
    } else {
        match neighbour(dirs.last(), c, size) {
            Some(coord) => sent(dirs.drop_last(), c, size).push(Photon { dir: dirs.last(), coord }),
            None => sent(dirs.drop_last(), c, size),
        }
    }
}

/// Where the light of a photon is next: one step on in each of the
/// directions in which it leaves its tile, unless that leaves the grid.
pub fn proceed(m: &Grid, w: Photon) -> (r: Vec<Photon>)
    requires
        m.wf(),
        m.inside(w.coord),
    ensures
        r@ == sent(distorted(w.dir, m.at(w.coord)), w.coord, m.size),
        forall|i: int| 0 <= i < r@.len() ==> m.inside((#[trigger] r@[i]).coord),
{
    let dirs = distort(w.dir, m.index(w.coord));
    let mut out: Vec<Photon> = Vec::new();
    let mut i: usize = 0;
    proof {
        assert(dirs@.take(0) =~= Seq::<Dir>::empty());
    }
    while i < dirs.len()
        invariant
            i <= dirs.len(),
            m.inside(w.coord),
            out@ == sent(dirs@.take(i as int), w.coord, m.size),
            forall|k: int| 0 <= k < out@.len() ==> m.inside((#[trigger] out@[k]).coord),
        decreases dirs.len() - i,
    {
        proof {
            assert(dirs@.take(i + 1).drop_last() =~= dirs@.take(i as int));
            assert(dirs@.take(i + 1).last() == dirs@[i as int]);
        }
        let dir = dirs[i];
        match step(dir, w.coord, m) {
            Some(coord) => {
                out.push(Photon { dir, coord });
            },
            None => {},
        }
        i += 1;
    }
    proof {
        assert(dirs@.take(dirs@.len() as int) =~= dirs@);
    }
    out
}

/// Every character of every line stands for a tile, there is a line, and
/// all lines are as long as the first.
pub open spec fn legible(ls: Seq<Seq<char>>) -> bool {
    &&& ls.len() > 0
    &&& forall|y: int| 0 <= y < ls.len() ==> (#[trigger] ls[y]).len() == ls[0].len()
    &&& forall|y: int, x: int|
        0 <= y < ls.len() && 0 <= x < ls[y].len() ==> tile_of(#[trigger] ls[y][x]) is Some
}

/// Reads a contraption, one row from each line.
pub fn parse(f: &str) -> (r: Grid)
    requires
        legible(lines_of(f@)),
    ensures
        r.wf(),
        r.size == (lines_of(f@)[0].len() as usize, lines_of(f@).len() as usize),
        forall|y: int, x: int|
            0 <= y < r.size.1 && 0 <= x < r.size.0 ==> Some(r.tiles@[y]@[x]) == tile_of(
                #[trigger] lines_of(f@)[y][x],
            ),
{
    let ls = lines(f);
    let ghost all = lines_of(f@);
    let mut tiles: Vec<Vec<Tile>> = Vec::new();
    let mut y: usize = 0;
    while y < ls.len()
        invariant
            y <= ls.len(),
            all == views(ls@),
            legible(all),
            tiles@.len() == y,
            forall|j: int| 0 <= j < y ==> (#[trigger] tiles@[j])@.len() == all[0].len(),
            forall|j: int, x: int|
                0 <= j < y && 0 <= x < all[0].len() ==> Some(tiles@[j]@[x]) == tile_of(
                    #[trigger] all[j][x],
                ),
        decreases ls.len() - y,
    {
        let l = &ls[y];
        assert(all[y as int] == l@);
        assert(all[y as int].len() == all[0].len());
        let mut row: Vec<Tile> = Vec::new();
        let mut x: usize = 0;
        while x < l.len()
            invariant
                x <= l.len(),
                y < ls.len(),
                all == views(ls@),
                all[y as int] == l@,
                legible(all),
                row@.len() == x,
                forall|b: int| 0 <= b < x ==> Some(row@[b]) == tile_of(l@[b]),
            decreases l.len() - x,
        {
            assert(tile_of(all[y as int][x as int]) is Some);
            row.push(parse_tile(l[x]));
            x += 1;
        }
        let ghost before = tiles@;
        tiles.push(row);
        proof {
            assert forall|j: int, x: int|
                0 <= j < y + 1 && 0 <= x < all[0].len() implies Some(tiles@[j]@[x]) == tile_of(
                #[trigger] all[j][x],
            ) by {
                if j < y {
                    assert(tiles@[j] == before[j]);
                }
            }
            assert forall|j: int| 0 <= j < y + 1 implies (#[trigger] tiles@[j])@.len() == all[0].len() by {
                if j < y {
                    assert(tiles@[j] == before[j]);
                }
            }
        }
        y += 1;
    }
    assert(all[0] == ls@[0]@);
    let size = (ls[0].len(), ls.len());
    Grid { tiles, size }
}

/// Light goes in one step from `a` to `b`.
pub open spec fn shines(m: &Grid, a: Photon, b: Photon) -> bool {
    sent(distorted(a.dir, m.at(a.coord)), a.coord, m.size).contains(b)
}

/// Light goes from `from` to `to` along the photons of `way`, each one step
/// from the one before.
pub open spec fn beam(m: &Grid, way: Seq<Photon>, from: Photon, to: Photon) -> bool
    decreases way.len(),
{
    if way.len() == 0 {
        from == to
    } else {
        shines(m, from, way[0]) && beam(m, way.drop_first(), way[0], to)
    }
}

/// Light that starts as `from` comes to be `to`.
pub open spec fn lit(m: &Grid, from: Photon, to: Photon) -> bool {
    exists|way: Seq<Photon>| beam(m, way, from, to)
}

pub proof fn lemma_beam_extend(m: &Grid, way: Seq<Photon>, from: Photon, mid: Photon, to: Photon)
    requires
        beam(m, way, from, mid),
        shines(m, mid, to),
    ensures
        beam(m, way.push(to), from, to),
    decreases way.len(),
{
    if way.len() == 0 {
        assert(way.push(to).drop_first() =~= Seq::<Photon>::empty());
        assert(beam(m, way.push(to).drop_first(), to, to));
    } else {
        lemma_beam_extend(m, way.drop_first(), way[0], mid, to);
        assert(way.push(to).drop_first() =~= way.drop_first().push(to));
    }
}

/// `seen` holds every photon to which light goes in one step from one of
/// its own.
pub open spec fn saturated(m: &Grid, seen: Set<Photon>) -> bool {
    forall|a: Photon, b: Photon| seen.contains(a) && #[trigger] shines(m, a, b) ==> seen.contains(b)
}

pub proof fn lemma_beam_stays(m: &Grid, way: Seq<Photon>, from: Photon, to: Photon, seen: Set<Photon>)
    requires
        beam(m, way, from, to),
        saturated(m, seen),
        seen.contains(from),
    ensures
        seen.contains(to),
    decreases way.len(),
{
    if way.len() > 0 {
        lemma_beam_stays(m, way.drop_first(), way[0], to, seen);
    }
}

/// The place of a direction among the directions.
pub open spec fn dir_rank(d: Dir) -> int {
    match d {
        Dir::Left => 0,
        Dir::Right => 1,
        Dir::Down => 2,
        Dir::Up => 3,
    }
}

/// The number of a photon among the photons of a grid of width `w`.
pub open spec fn number(p: Photon, w: int) -> int {
    (p.coord.1 * w + p.coord.0) * 4 + dir_rank(p.dir)
}

/// Photons within the width have different numbers.
pub proof fn lemma_number_injective(p: Photon, q: Photon, w: int)
    requires
        p.coord.0 < w,
        q.coord.0 < w,
        number(p, w) == number(q, w),
    ensures
        p == q,
{
    let a = p.coord.1 * w + p.coord.0;
    let b = q.coord.1 * w + q.coord.0;
    assert(a * 4 + dir_rank(p.dir) == b * 4 + dir_rank(q.dir));
    assert(a == b && dir_rank(p.dir) == dir_rank(q.dir));
    assert(w * (p.coord.1 as int) == (p.coord.1 as int) * w) by (nonlinear_arith);
    assert(w * (q.coord.1 as int) == (q.coord.1 as int) * w) by (nonlinear_arith);
    vstd::arithmetic::div_mod::lemma_fundamental_div_mod_converse(
        a,
        w,
        p.coord.1 as int,
        p.coord.0 as int,
    );
    vstd::arithmetic::div_mod::lemma_fundamental_div_mod_converse(
        b,
        w,
        q.coord.1 as int,
        q.coord.0 as int,
    );
}

/// The number of entries of a table that are not set.
pub open spec fn unset(t: Seq<bool>) -> int
    decreases t.len(),
{
    if t.len() == 0 {
        0
    } else {
        unset(t.drop_last()) + if t.last() {
            0int
        } else {
            1
        }
    }
}

pub proof fn lemma_unset_bound(t: Seq<bool>)
    ensures
        0 <= unset(t),
    decreases t.len(),
{
    if t.len() > 0 {
        lemma_unset_bound(t.drop_last());
    }
}

/// To set an entry that is not set leaves one entry less that is not set.
pub proof fn lemma_unset_update(t: Seq<bool>, i: int)
    requires
        0 <= i < t.len(),
        !t[i],
    ensures
        unset(t.update(i, true)) == unset(t) - 1,
    decreases t.len(),
{
    if i == t.len() - 1 {
        assert(t.update(i, true).drop_last() =~= t.drop_last());
    } else {
        assert(t.update(i, true).drop_last() =~= t.drop_last().update(i, true));
        lemma_unset_update(t.drop_last(), i);
    }
}

/// The table has the entry of a photon set.
pub open spec fn marked(seen: Seq<bool>, p: Photon, w: int) -> bool {
    0 <= number(p, w) < seen.len() && seen[number(p, w)]
}

/// The number of a photon among the photons of the grid.
pub fn number_of(p: Photon, m: &Grid) -> (r: usize)
    requires
        m.inside(p.coord),
        4 * m.size.0 * m.size.1 <= usize::MAX,
    ensures
        r == number(p, m.size.0 as int),
        r < 4 * m.size.0 * m.size.1,
{
    let w = m.size.0;
    let h = m.size.1;
    proof {
        let x = p.coord.0 as int;
        let y = p.coord.1 as int;
        assert(0 <= y * w && y * w + w <= h * w && 4 * w * h == 4 * (h * w)) by (nonlinear_arith)
            requires
                0 <= y < h,
                0 <= w,
        ;
    }
    let d: usize = match p.dir {
        Dir::Left => 0,
        Dir::Right => 1,
        Dir::Down => 2,
        Dir::Up => 3,
    };
    (p.coord.1 * w + p.coord.0) * 4 + d
}

/// The photons that light which starts as `initial` comes to be, each
/// once.
pub fn run(map: &Grid, initial: Photon) -> (r: Vec<Photon>)
    requires
        map.wf(),
        map.inside(initial.coord),
        4 * map.size.0 * map.size.1 <= usize::MAX,
    ensures
        r@.no_duplicates(),
        forall|p: Photon| r@.contains(p) <==> #[trigger] lit(map, initial, p),
        forall|a: int| 0 <= a < r@.len() ==> map.inside((#[trigger] r@[a]).coord),
{
    proof {
        let a = map.size.0 as int;
        let b = map.size.1 as int;
        assert(a * b <= 4 * a * b && a * b * 4 == 4 * a * b) by (nonlinear_arith)
            requires
                0 <= a,
                0 <= b,
        ;
    }
    let total = map.size.0 * map.size.1 * 4;
    let ghost w = map.size.0 as int;
    let mut seen: Vec<bool> = Vec::new();
    let mut k: usize = 0;
    while k < total
        invariant
            k <= total,
            seen@.len() == k,
            forall|j: int| 0 <= j < k ==> !seen@[j],
        decreases total - k,
    {
        seen.push(false);
        k += 1;
    }
    let mut visited: Vec<Photon> = Vec::new();
    let first = number_of(initial, map);
    seen.set(first, true);
    visited.push(initial);
    let mut head: usize = 0;
    proof {
        assert(beam(map, Seq::<Photon>::empty(), initial, initial));
        assert(lit(map, initial, initial));
        lemma_unset_bound(seen@);
        assert(visited@[0] == initial);
        assert forall|a: int, b: int| 0 <= a < visited@.len() && 0 <= b < visited@.len() && a
            != b implies visited@[a] != visited@[b] by {}
        assert forall|p: Photon| map.inside(p.coord) && #[trigger] marked(seen@, p, w) implies visited@.contains(
            p,
        ) by {
            lemma_number_injective(p, initial, w);
        }
    }
    while head < visited.len()
        invariant
            map.wf(),
            w == map.size.0,
            4 * map.size.0 * map.size.1 <= usize::MAX,
            seen@.len() == 4 * map.size.0 * map.size.1,
            head <= visited.len(),
            visited@.len() >= 1,
            visited@[0] == initial,
            visited@.no_duplicates(),
            forall|a: int| 0 <= a < visited@.len() ==> map.inside((#[trigger] visited@[a]).coord),
            forall|a: int| 0 <= a < visited@.len() ==> lit(map, initial, #[trigger] visited@[a]),
            forall|a: int| 0 <= a < visited@.len() ==> marked(seen@, #[trigger] visited@[a], w),
            forall|p: Photon|
                map.inside(p.coord) && #[trigger] marked(seen@, p, w) ==> visited@.contains(p),
            forall|a: int, b: Photon|
                0 <= a < head && #[trigger] shines(map, visited@[a], b) ==> visited@.contains(b),
            0 <= unset(seen@),
        decreases 2 * unset(seen@) + visited.len() - head,
    {
        let here = visited[head];
        let next = proceed(map, here);
        let ghost seen0 = seen@;
        let ghost len0 = visited@.len();
        let mut i: usize = 0;
        while i < next.len()
            invariant
                map.wf(),
                w == map.size.0,
                4 * map.size.0 * map.size.1 <= usize::MAX,
                seen@.len() == 4 * map.size.0 * map.size.1,
                i <= next.len(),
                head < visited.len(),
                len0 <= visited@.len(),
                visited@[head as int] == here,
                visited@[0] == initial,
                visited@.no_duplicates(),
                next@ == sent(distorted(here.dir, map.at(here.coord)), here.coord, map.size),
                forall|j: int| 0 <= j < next@.len() ==> map.inside((#[trigger] next@[j]).coord),
                forall|a: int| 0 <= a < visited@.len() ==> map.inside((#[trigger] visited@[a]).coord),
                forall|a: int| 0 <= a < visited@.len() ==> lit(map, initial, #[trigger] visited@[a]),
                forall|a: int| 0 <= a < visited@.len() ==> marked(seen@, #[trigger] visited@[a], w),
                forall|p: Photon|
                    map.inside(p.coord) && #[trigger] marked(seen@, p, w) ==> visited@.contains(p),
                forall|a: int, b: Photon|
                    0 <= a < head && #[trigger] shines(map, visited@[a], b) ==> visited@.contains(
                        b,
                    ),
                forall|j: int| 0 <= j < i ==> visited@.contains(#[trigger] next@[j]),
                0 <= unset(seen@),
                2 * unset(seen@) + visited@.len() <= 2 * unset(seen0) + len0,
            decreases next.len() - i,
        {
            let q = next[i];
            let id = number_of(q, map);
            assert(next@.contains(q));
            assert(shines(map, here, q));
            if !seen[id] {
                proof {
                    assert(lit(map, initial, visited@[head as int]));
                    let way = choose|way: Seq<Photon>| beam(map, way, initial, here);
                    lemma_beam_extend(map, way, initial, here, q);
                    assert(lit(map, initial, q));
                    lemma_unset_update(seen@, id as int);
                    lemma_unset_bound(seen@.update(id as int, true));
                    assert(!visited@.contains(q)) by {
                        if visited@.contains(q) {
                            let a = choose|a: int| 0 <= a < visited@.len() && visited@[a] == q;
                            assert(marked(seen@, visited@[a], w));
                        }
                    }
                }
                let ghost before = visited@;
                let ghost table = seen@;
                seen.set(id, true);
                visited.push(q);
                proof {
                    assert forall|c: Photon| visited@.contains(c) <==> before.contains(c) || c
                        == q by {
                        if before.contains(c) {
                            let a = choose|a: int| 0 <= a < before.len() && before[a] == c;
                            assert(visited@[a] == c);
                        }
                        if visited@.contains(c) {
                            let a = choose|a: int| 0 <= a < visited@.len() && visited@[a] == c;
                            if a < before.len() {
                                assert(before[a] == c);
                            }
                        }
                        assert(visited@[visited@.len() - 1] == q);
                    }
                    assert forall|a: int, b: int|
                        0 <= a < visited@.len() && 0 <= b < visited@.len() && a
                            != b implies visited@[a] != visited@[b] by {
                        if a < before.len() && b < before.len() {
                            assert(visited@[a] == before[a] && visited@[b] == before[b]);
                        } else if a < before.len() {
                            assert(before.contains(before[a]));
                        } else {
                            assert(before.contains(before[b]));
                        }
                    }
                    assert forall|a: int| 0 <= a < visited@.len() implies marked(
                        seen@,
                        #[trigger] visited@[a],
                        w,
                    ) by {
                        if a < before.len() {
                            assert(visited@[a] == before[a]);
                            assert(marked(table, before[a], w));
                        }
                    }
                    assert forall|p: Photon|
                        map.inside(p.coord) && #[trigger] marked(seen@, p, w) implies visited@.contains(
                        p,
                    ) by {
                        if number(p, w) == id {
                            lemma_number_injective(p, q, w);
                        } else {
                            assert(marked(table, p, w));
                            assert(before.contains(p));
                        }
                    }
                    assert forall|a: int| 0 <= a < visited@.len() implies lit(
                        map,
                        initial,
                        #[trigger] visited@[a],
                    ) by {
                        if a < before.len() {
                            assert(visited@[a] == before[a]);
                        }
                    }
                    assert forall|a: int| 0 <= a < visited@.len() implies map.inside(
                        (#[trigger] visited@[a]).coord,
                    ) by {
                        if a < before.len() {
                            assert(visited@[a] == before[a]);
                        }
                    }
                    assert forall|a: int, b: Photon|
                        0 <= a < head && #[trigger] shines(map, visited@[a], b) implies visited@.contains(
                        b,
                    ) by {
                        assert(visited@[a] == before[a]);
                        assert(before.contains(b));
                    }
                    assert forall|j: int| 0 <= j < i + 1 implies visited@.contains(
                        #[trigger] next@[j],
                    ) by {
                        if j < i {
                            assert(before.contains(next@[j]));
                        }
                    }
                }
            } else {
                proof {
                    assert(map.inside(next@[i as int].coord));
                    assert(marked(seen@, q, w));
                    assert(visited@.contains(q));
                }
            }
            i += 1;
        }
        proof {
            assert forall|a: int, b: Photon|
                0 <= a < head + 1 && #[trigger] shines(map, visited@[a], b) implies visited@.contains(
                b,
            ) by {
                if a == head {
                    let j = choose|j: int| 0 <= j < next@.len() && next@[j] == b;
                    assert(visited@.contains(next@[j]));
                }
            }
        }
        head += 1;
    }
    proof {
        let reach = visited@.to_set();
        assert forall|a: Photon, b: Photon|
            reach.contains(a) && #[trigger] shines(map, a, b) implies reach.contains(b) by {
            let i = choose|i: int| 0 <= i < visited@.len() && visited@[i] == a;
            assert(shines(map, visited@[i], b));
        }
        assert(reach.contains(initial));
        assert forall|p: Photon| visited@.contains(p) <==> #[trigger] lit(map, initial, p) by {
            if lit(map, initial, p) {
                let way = choose|way: Seq<Photon>| beam(map, way, initial, p);
                lemma_beam_stays(map, way, initial, p, reach);
            }
            if visited@.contains(p) {
                let i = choose|i: int| 0 <= i < visited@.len() && visited@[i] == p;
            }
        }
    }
    visited
}

/// The number of a tile among the tiles of a grid of width `w`.
pub open spec fn tile_number(c: Coord, w: int) -> int {
    c.1 * w + c.0
}

/// Light that starts as `initial` comes to the tile with the number `n`.
pub open spec fn energized(m: &Grid, initial: Photon, n: int) -> bool {
    exists|p: Photon| #[trigger]
        lit(m, initial, p) && m.inside(p.coord) && tile_number(p.coord, m.size.0 as int) == n
}

/// The number of the first `n` tiles to which light comes that starts as
/// `initial`.
pub open spec fn energy(m: &Grid, initial: Photon, n: int) -> int
    decreases n,
{
    if n <= 0 {
        0
    } else {
        energy(m, initial, n - 1) + if energized(m, initial, n - 1) {
            1int
        } else {
            0
        }
    }
}

/// The number of tiles to which light comes that enters the contraption at
/// its top left corner and goes right.
pub fn part1(f: &str) -> (r: usize)
    requires
        legible(lines_of(f@)),
        lines_of(f@)[0].len() > 0,
        4 * lines_of(f@)[0].len() * lines_of(f@).len() <= usize::MAX,
    ensures
        exists|m: Grid|
            {
                &&& m.wf()
                &&& m.size == (lines_of(f@)[0].len() as usize, lines_of(f@).len() as usize)
                &&& forall|y: int, x: int|
                    0 <= y < m.size.1 && 0 <= x < m.size.0 ==> Some(m.tiles@[y]@[x]) == tile_of(
                        #[trigger] lines_of(f@)[y][x],
                    )
                &&& r == energy(
                    &m,
                    Photon { dir: Dir::Right, coord: (0, 0) },
                    m.size.0 * m.size.1,
                )
            },
{
    proof {
        let a = lines_of(f@)[0].len() as int;
        let b = lines_of(f@).len() as int;
        assert(a <= 4 * a * b && b <= 4 * a * b && a * b <= 4 * a * b) by (nonlinear_arith)
            requires
                1 <= a,
                1 <= b,
        ;
    }
    let map = parse(f);
    let initial = Photon { dir: Dir::Right, coord: (0, 0) };
    let w = map.size.0;
    let h = map.size.1;
    let lit_up = run(&map, initial);
    let cells = w * h;
    let mut table: Vec<bool> = Vec::new();
    let mut k: usize = 0;
    while k < cells
        invariant
            k <= cells,
            table@.len() == k,
            forall|j: int| 0 <= j < k ==> !table@[j],
        decreases cells - k,
    {
        table.push(false);
        k += 1;
    }
    let mut i: usize = 0;
    while i < lit_up.len()
        invariant
            i <= lit_up.len(),
            map.wf(),
            w == map.size.0,
            h == map.size.1,
            cells == w * h,
            table@.len() == cells,
            forall|p: Photon| lit_up@.contains(p) <==> #[trigger] lit(&map, initial, p),
            forall|a: int| 0 <= a < lit_up@.len() ==> map.inside((#[trigger] lit_up@[a]).coord),
            forall|n: int|
                0 <= n < cells ==> (table@[n] <==> exists|a: int|
                    0 <= a < i && tile_number((#[trigger] lit_up@[a]).coord, w as int) == n),
        decreases lit_up.len() - i,
    {
        let c = lit_up[i].coord;
        proof {
            assert(map.inside(lit_up@[i as int].coord));
            let x = c.0 as int;
            let y = c.1 as int;
            assert(0 <= y * w && y * w + w <= h * w && h * w == w * h) by (nonlinear_arith)
                requires
                    0 <= y < h,
                    0 <= w,
            ;
        }
        let id = c.1 * w + c.0;
        let ghost before = table@;
        table.set(id, true);
        proof {
            assert forall|n: int| 0 <= n < cells implies (table@[n] <==> exists|a: int|
                0 <= a < i + 1 && tile_number((#[trigger] lit_up@[a]).coord, w as int) == n) by {
                if n == id {
                    assert(tile_number(lit_up@[i as int].coord, w as int) == n);
                } else {
                    if before[n] {
                        let a = choose|a: int|
                            0 <= a < i && tile_number((#[trigger] lit_up@[a]).coord, w as int) == n;
                        assert(tile_number(lit_up@[a].coord, w as int) == n);
                    }
                    if exists|a: int|
                        0 <= a < i + 1 && tile_number((#[trigger] lit_up@[a]).coord, w as int)
                            == n {
                        let a = choose|a: int|
                            0 <= a < i + 1 && tile_number((#[trigger] lit_up@[a]).coord, w as int)
                                == n;
                        assert(a < i);
                    }
                }
            }
        }
        i += 1;
    }
    let mut count: usize = 0;
    let mut n: usize = 0;
    while n < cells
        invariant
            n <= cells,
            count <= n,
            table@.len() == cells,
            w == map.size.0,
            forall|p: Photon| lit_up@.contains(p) <==> #[trigger] lit(&map, initial, p),
            forall|a: int| 0 <= a < lit_up@.len() ==> map.inside((#[trigger] lit_up@[a]).coord),
            forall|n: int|
                0 <= n < cells ==> (table@[n] <==> exists|a: int|
                    0 <= a < lit_up@.len() && tile_number((#[trigger] lit_up@[a]).coord, w as int)
                        == n),
            count == energy(&map, initial, n as int),
        decreases cells - n,
    {
        proof {
            if table@[n as int] {
                let a = choose|a: int|
                    0 <= a < lit_up@.len() && tile_number((#[trigger] lit_up@[a]).coord, w as int)
                        == n;
                assert(lit_up@.contains(lit_up@[a]));
                assert(lit(&map, initial, lit_up@[a]));
                assert(energized(&map, initial, n as int));
            }
            if energized(&map, initial, n as int) {
                let p = choose|p: Photon| #[trigger]
                    lit(&map, initial, p) && map.inside(p.coord) && tile_number(
                        p.coord,
                        map.size.0 as int,
                    ) == n;
                assert(lit_up@.contains(p));
                let a = choose|a: int| 0 <= a < lit_up@.len() && lit_up@[a] == p;
                assert(tile_number(lit_up@[a].coord, w as int) == n);
            }
        }
        if table[n] {
            count += 1;
        }
        n += 1;
    }
    proof {
        assert(cells == map.size.0 * map.size.1);
    }
    count
}

} // verus!
