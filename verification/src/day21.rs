//! A garden that repeats without end in every direction, and the plots that
//! can be reached in a number of steps.
use crate::text::{lines, lines_of, views};
use vstd::prelude::*;

verus! {

#[derive(Clone, Copy, Debug, PartialEq, Eq, Structural)]
pub enum Tile {
    Ground,
    Blocked,
}

#[derive(Clone, Copy, Debug, PartialEq, Eq, Structural)]
pub enum Dir {
    Left,
    Right,
    Down,
    Up,
}

pub type Coord = (i32, i32);

/// The coordinate one step from `c` in direction `d`.
pub open spec fn moved(d: Dir, c: Coord) -> (int, int) {
    match d {
        Dir::Left => (c.0 - 1, c.1 as int),
        Dir::Right => (c.0 + 1, c.1 as int),
        Dir::Down => (c.0 as int, c.1 + 1),
        Dir::Up => (c.0 as int, c.1 - 1),
    }
}

/// The coordinate one step from `c` in direction `d`.
pub fn step(d: Dir, c: Coord) -> (r: Coord)
    requires
        i32::MIN <= moved(d, c).0 <= i32::MAX,
        i32::MIN <= moved(d, c).1 <= i32::MAX,
    ensures
        (r.0 as int, r.1 as int) == moved(d, c),
{
    let (x, y) = c;
    match d {
        Dir::Left => (x - 1, y),
        Dir::Right => (x + 1, y),
        Dir::Down => (x, y + 1),
        Dir::Up => (x, y - 1),
    }
}

/// The place of `a` within a stretch of length `b` that repeats without
/// end.
pub fn modulo(a: i32, b: i32) -> (r: usize)
    requires
        b > 0,
    ensures
        r == a as int % b as int,
        r < b,
{
    let m: i32 = a % b;
    proof {
        vstd::arithmetic::div_mod::lemma_fundamental_div_mod(a as int, b as int);
        vstd::arithmetic::div_mod::lemma_mod_bound(a as int, b as int);
    }
    let wide: i64 = m as i64 + b as i64;
    let r: i64 = wide % (b as i64);
    proof {
        let e = a as int % b as int;
        if a >= 0 {
            assert(m == e);
            vstd::arithmetic::div_mod::lemma_mod_add_multiples_vanish(e, b as int);
            vstd::arithmetic::div_mod::lemma_small_mod(e as nat, b as nat);
        } else {
            assert(m == e || m == e - b) by {
                lemma_truncated_remainder(a as int, b as int);
            }
            if m == e {
                vstd::arithmetic::div_mod::lemma_mod_add_multiples_vanish(e, b as int);
                vstd::arithmetic::div_mod::lemma_small_mod(e as nat, b as nat);
            } else {
                vstd::arithmetic::div_mod::lemma_small_mod(e as nat, b as nat);
            }
        }
    }
    r as usize
}

/// The remainder of a division that rounds towards zero is the remainder
/// of the division that rounds down, or that less the divisor.
pub proof fn lemma_truncated_remainder(a: int, b: int)
    requires
        a < 0,
        b > 0,
    ensures
        ({
            let t = -((-a) % b);
            let e = a % b;
            t == e || t == e - b
        }),
{
    let q = (-a) / b;
    let r = (-a) % b;
    vstd::arithmetic::div_mod::lemma_fundamental_div_mod(-a, b);
    vstd::arithmetic::div_mod::lemma_mod_pos_bound(-a, b);
    assert(a == b * (-q) + (-r)) by (nonlinear_arith)
        requires
            -a == b * q + r,
    ;
    if r == 0 {
        vstd::arithmetic::div_mod::lemma_fundamental_div_mod_converse(a, b, -q, 0);
    } else {
        assert(a == (-q - 1) * b + (b - r)) by (nonlinear_arith)
            requires
                a == b * (-q) + (-r),
        ;
        vstd::arithmetic::div_mod::lemma_fundamental_div_mod_converse(a, b, -q - 1, b - r);
    }
}

pub open spec fn tile_of(t: char) -> Option<Tile> {
    if t == '.' || t == 'S' {
        Some(Tile::Ground)
    } else if t == '#' {
        Some(Tile::Blocked)
    } else {
        None
    }
}

pub fn parse_tile(t: char) -> (r: Tile)
    requires
        tile_of(t) is Some,
    ensures
        Some(r) == tile_of(t),
{
    match t {
        '#' => Tile::Blocked,
        _ => Tile::Ground,
    }
}

#[derive(Clone, Copy, Debug, PartialEq, Eq, Hash, Structural)]
pub enum Mod2 {
    Odd,
    Even,
}

/// Whether a number is odd or even.
pub fn mod2(x: usize) -> (r: Mod2)
    ensures
        r == if x % 2 == 0 {
            Mod2::Even
        } else {
            Mod2::Odd
        },
{
    match x % 2 {
        0 => Mod2::Even,
        _ => Mod2::Odd,
    }
}

/// Whether a number is odd or even.
pub open spec fn parity(x: int) -> Mod2 {
    if x % 2 == 0 {
        Mod2::Even
    } else {
        Mod2::Odd
    }
}

/// A garden: the rows of its tiles, its width and height, and where the
/// walk starts.
pub struct Garden {
    pub start: Coord,
    pub tiles: Vec<Vec<Tile>>,
    pub size: Coord,
}

impl Garden {
    /// The garden has tiles, and `size.0` of them in each of its `size.1`
    /// rows.
    pub open spec fn wf(&self) -> bool {
        &&& self.size.0 > 0
        &&& self.size.1 > 0
        &&& self.tiles@.len() == self.size.1
        &&& forall|y: int| 0 <= y < self.tiles@.len() ==> (#[trigger] self.tiles@[y])@.len() == self.size.0
    }

    /// The tile at a coordinate of the garden repeated without end.
    pub open spec fn at(&self, c: Coord) -> Tile {
        self.tiles@[c.1 as int % self.size.1 as int]@[c.0 as int % self.size.0 as int]
    }

    /// The tile at a coordinate of the garden repeated without end.
    pub fn index(&self, c: Coord) -> (r: Tile)
        requires
            self.wf(),
        ensures
            r == self.at(c),
    {
        self.tiles[modulo(c.1, self.size.1)][modulo(c.0, self.size.0)]
    }
}

/// The place of the last `S` among the first `k` characters of a row, if
/// there is one.
pub open spec fn last_in(row: Seq<char>, k: int) -> Option<int>
    decreases k,
{
    if k <= 0 {
        None
    } else if row[k - 1] == 'S' {
        Some(k - 1)
    } else {
        last_in(row, k - 1)
    }
}

/// The place of the last `S` in the first `n` rows, or the corner if there
/// is none.
pub open spec fn start_of(rows: Seq<Seq<char>>, n: int) -> (int, int)
    decreases n,
{
    if n <= 0 {
        (0, 0)
    } else {
        match last_in(rows[n - 1], rows[n - 1].len() as int) {
            Some(x) => (x, n - 1),
            None => start_of(rows, n - 1),
        }
    }
}

/// The text has a line, no more lines or characters in a line than can be
/// counted, and only characters that stand for tiles.
pub open spec fn legible(text: Seq<char>) -> bool {
    let ls = lines_of(text);
    &&& 1 <= ls.len() <= i32::MAX
    &&& forall|y: int| 0 <= y < ls.len() ==> (#[trigger] ls[y]).len() <= i32::MAX
    &&& forall|y: int, x: int|
        0 <= y < ls.len() && 0 <= x < ls[y].len() ==> tile_of(#[trigger] ls[y][x]) is Some
}

/// The tiles of the rows.
pub open spec fn tiles_of(g: Seq<Vec<Tile>>) -> Seq<Seq<Tile>> {
    Seq::new(g.len(), |y: int| g[y]@)
}

/// Reads a garden, a row to a line. The walk starts at the last `S`; the
/// garden is as wide as its first row.
pub fn parse(text: &str) -> (r: Garden)
    requires
        legible(text@),
    ensures
        tiles_of(r.tiles@) == Seq::new(
            lines_of(text@).len(),
            |y: int|
                Seq::new(
                    lines_of(text@)[y].len(),
                    |x: int| tile_of(lines_of(text@)[y][x]).unwrap(),
                ),
        ),
        (r.start.0 as int, r.start.1 as int) == start_of(
            lines_of(text@),
            lines_of(text@).len() as int,
        ),
        r.size.0 == lines_of(text@)[0].len(),
        r.size.1 == lines_of(text@).len(),
{
    let ls = lines(text);
    let ghost rows = lines_of(text@);
    let mut start: Coord = (0, 0);
    let mut tiles: Vec<Vec<Tile>> = Vec::new();
    let mut y: usize = 0;
    while y < ls.len()
        invariant
            y <= ls.len(),
            views(ls@) == rows,
            rows == lines_of(text@),
            legible(text@),
            tiles@.len() == y,
            forall|j: int|
                0 <= j < y ==> (#[trigger] tiles@[j])@ == Seq::new(
                    rows[j].len(),
                    |x: int| tile_of(rows[j][x]).unwrap(),
                ),
            (start.0 as int, start.1 as int) == start_of(rows, y as int),
        decreases ls.len() - y,
    {
        let l = &ls[y];
        proof {
            assert(views(ls@)[y as int] == l@);
            assert(rows[y as int].len() <= i32::MAX);
        }
        let mut row: Vec<Tile> = Vec::new();
        let mut found: Option<usize> = None;
        let mut x: usize = 0;
        while x < l.len()
            invariant
                x <= l.len(),
                y < rows.len(),
                l@ == rows[y as int],
                rows == lines_of(text@),
                legible(text@),
                row@.len() == x,
                forall|j: int| 0 <= j < x ==> #[trigger] row@[j] == tile_of(l@[j]).unwrap(),
                match found {
                    Some(f) => last_in(l@, x as int) == Some(f as int) && f < x,
                    None => last_in(l@, x as int) is None,
                },
            decreases l.len() - x,
        {
            proof {
                assert(tile_of(rows[y as int][x as int]) is Some);
            }
            if l[x] == 'S' {
                found = Some(x);
            }
            row.push(parse_tile(l[x]));
            x += 1;
        }
        proof {
            assert(row@ =~= Seq::new(rows[y as int].len(), |x: int| tile_of(rows[y as int][x]).unwrap()));
        }
        match found {
            Some(f) => {
                start = (f as i32, y as i32);
            },
            None => {},
        }
        tiles.push(row);
        y += 1;
    }
    proof {
        assert(views(ls@)[0] == ls@[0]@);
        assert(rows[0].len() <= i32::MAX);
        assert(tiles_of(tiles@) =~= Seq::new(
            rows.len(),
            |y: int| Seq::new(rows[y].len(), |x: int| tile_of(rows[y][x]).unwrap()),
        ));
    }
    let size = (tiles[0].len() as i32, tiles.len() as i32);
    Garden { tiles, start, size }
}

/// A walker: where it stands and how many steps it has made.
pub type Walker = (Coord, usize);

/// What a search has seen: for a coordinate and the parity of a number of
/// steps, the greatest such number after which a walker came there.
pub type Seen = Seq<((Coord, Mod2), usize)>;

/// The place of the last entry for `k`, or `-1` if there is none.
pub open spec fn seen_at(t: Seen, k: (Coord, Mod2)) -> int
    decreases t.len(),
{
    if t.len() == 0 {
        -1
    } else if t.last().0 == k {
        t.len() - 1
    } else {
        seen_at(t.drop_last(), k)
    }
}

fn find_seen(t: &Vec<((Coord, Mod2), usize)>, k: (Coord, Mod2)) -> (r: Option<usize>)
    ensures
        match r {
            Some(i) => i == seen_at(t@, k) && i < t@.len(),
            None => seen_at(t@, k) < 0,
        },
{
    let mut i: usize = t.len();
    proof {
        assert(t@.take(t@.len() as int) =~= t@);
    }
    while i > 0
        invariant
            i <= t.len(),
            seen_at(t@, k) == seen_at(t@.take(i as int), k),
        decreases i,
    {
        proof {
            assert(t@.take(i as int).last() == t@[i - 1]);
            assert(t@.take(i as int).drop_last() =~= t@.take(i - 1));
        }
        let e = t[i - 1].0;
        if e.0.0 == k.0.0 && e.0.1 == k.0.1 && e.1 == k.1 {
            return Some(i - 1);
        }
        i -= 1;
    }
    None
}

/// What a search has seen after the walker `w` has looked in direction
/// `dir`, and the walker that it sends there, if any. It sends one where
/// it has steps left, the tile there is free, and no walker came there
/// before after as many steps or more of the same parity. Nothing where the
/// steps or the coordinate cannot be counted.
pub open spec fn child(g: Garden, max: usize, w: Walker, visited: Seen, dir: Dir) -> Option<
    (Seen, Seq<Walker>),
> {
    let c = moved(dir, w.0);
    let t1 = w.1 + 1;
    if w.1 == usize::MAX {
        None
    } else if t1 > max {
        Some((visited, Seq::empty()))
    } else if !(i32::MIN <= c.0 <= i32::MAX && i32::MIN <= c.1 <= i32::MAX) {
        None
    } else {
        let c1 = (c.0 as i32, c.1 as i32);
        let k = (c1, parity(t1));
        let i = seen_at(visited, k);
        if g.at(c1) is Blocked {
            Some((visited, Seq::empty()))
        } else if i >= 0 && visited[i].1 >= t1 {
            Some((visited, Seq::empty()))
        } else if i >= 0 {
            Some((visited.update(i, (k, t1 as usize)), seq![(c1, t1 as usize)]))
        } else {
            Some((visited.push((k, t1 as usize)), seq![(c1, t1 as usize)]))
        }
    }
}

/// Lets a walker look in one direction: a walker is sent there and entered
/// in what has been seen, where `child` says so.
pub fn add_child(
    m: &Garden,
    max: usize,
    w: Walker,
    visited: &mut Vec<((Coord, Mod2), usize)>,
    queue: &mut Vec<Walker>,
    dir: Dir,
)
    requires
        m.wf(),
        child(*m, max, w, old(visited)@, dir) is Some,
    ensures
        final(visited)@ == child(*m, max, w, old(visited)@, dir).unwrap().0,
        final(queue)@ == old(queue)@ + child(*m, max, w, old(visited)@, dir).unwrap().1,
{
    let (coord, t) = w;
    let t1 = t + 1;
    proof {
        assert(queue@ + Seq::<Walker>::empty() =~= queue@);
    }
    if t1 > max {
        return ;
    }
    let coord1 = step(dir, coord);
    match m.index(coord1) {
        Tile::Blocked => {
            return ;
        },
        Tile::Ground => {},
    }
    let k = (coord1, mod2(t1));
    let ghost before = queue@;
    match find_seen(visited, k) {
        Some(i) => {
            if visited[i].1 >= t1 {
            } else {
                visited.set(i, (k, t1));
                queue.push((coord1, t1));
                proof {
                    assert(queue@ =~= before + seq![(coord1, t1)]);
                }
            }
        },
        None => {
            visited.push((k, t1));
            queue.push((coord1, t1));
            proof {
                assert(queue@ =~= before + seq![(coord1, t1)]);
            }
        },
    }
}

/// The directions in the order in which a walker looks.
pub open spec fn directions() -> Seq<Dir> {
    seq![Dir::Left, Dir::Right, Dir::Up, Dir::Down]
}

/// What a search has seen after the walker has looked in the first `n`
/// directions, and the walkers that it sent.
pub open spec fn children(g: Garden, max: usize, w: Walker, visited: Seen, n: int) -> Option<
    (Seen, Seq<Walker>),
>
    decreases n,
{
    if n <= 0 {
        Some((visited, Seq::empty()))
    } else {
        match children(g, max, w, visited, n - 1) {
            None => None,
            Some(before) => match child(g, max, w, before.0, directions()[n - 1]) {
                None => None,
                Some(now) => Some((now.0, before.1 + now.1)),
            },
        }
    }
}

/// Lets a walker look in all four directions.
pub fn add_children(
    m: &Garden,
    max: usize,
    coord: Coord,
    t: usize,
    visited: &mut Vec<((Coord, Mod2), usize)>,
    queue: &mut Vec<Walker>,
)
    requires
        m.wf(),
        children(*m, max, (coord, t), old(visited)@, 4) is Some,
    ensures
        final(visited)@ == children(*m, max, (coord, t), old(visited)@, 4).unwrap().0,
        final(queue)@ == old(queue)@ + children(*m, max, (coord, t), old(visited)@, 4).unwrap().1,
{
    let ghost v0 = visited@;
    let ghost q0 = queue@;
    let dirs = [Dir::Left, Dir::Right, Dir::Up, Dir::Down];
    let mut n: usize = 0;
    proof {
        assert(q0 + Seq::<Walker>::empty() =~= q0);
    }
    while n < 4
        invariant
            n <= 4,
            m.wf(),
            dirs@ == directions(),
            children(*m, max, (coord, t), v0, 4) is Some,
            children(*m, max, (coord, t), v0, n as int) is Some,
            visited@ == children(*m, max, (coord, t), v0, n as int).unwrap().0,
            queue@ == q0 + children(*m, max, (coord, t), v0, n as int).unwrap().1,
        decreases 4 - n,
    {
        proof {
            lemma_children_so_far(*m, max, (coord, t), v0, n + 1, 4);
            let before = children(*m, max, (coord, t), v0, n as int).unwrap();
            let now = child(*m, max, (coord, t), before.0, directions()[n as int]).unwrap();
            assert(q0 + (before.1 + now.1) =~= (q0 + before.1) + now.1);
        }
        add_child(m, max, (coord, t), visited, queue, dirs[n]);
        n += 1;
    }
}

/// A walker that can look in more directions can look in fewer.
pub proof fn lemma_children_so_far(g: Garden, max: usize, w: Walker, visited: Seen, n: int, m: int)
    requires
        n <= m,
        children(g, max, w, visited, m) is Some,
    ensures
        children(g, max, w, visited, n) is Some,
    decreases m - n,
{
    if n < m {
        lemma_children_so_far(g, max, w, visited, n + 1, m);
    }
}

/// A search on its way: what it has seen, and the walkers that have yet
/// to look around, in the order in which they were sent.
pub struct Search {
    pub visited: Seen,
    pub queue: Seq<Walker>,
}

/// The search after its first walker has looked around. Nothing where the
/// steps or a coordinate cannot be counted.
pub open spec fn advanced(g: Garden, max: usize, s: Search) -> Option<Search> {
    match children(g, max, s.queue[0], s.visited, 4) {
        None => None,
        Some(c) => Some(Search { visited: c.0, queue: s.queue.drop_first() + c.1 }),
    }
}

/// What the search has seen when no walker is left, if that is so after
/// `fuel` walkers at most.
#[verifier::opaque]
pub open spec fn searched(g: Garden, max: usize, s: Search, fuel: nat) -> Option<Seen>
    decreases fuel,
{
    if s.queue.len() == 0 {
        Some(s.visited)
    } else if fuel == 0 {
        None
    } else {
        match advanced(g, max, s) {
            None => None,
            Some(next) => searched(g, max, next, (fuel - 1) as nat),
        }
    }
}

/// The search comes to an end.
#[verifier::opaque]
pub open spec fn searchable(g: Garden, max: usize, s: Search) -> bool {
    exists|fuel: nat| #[trigger] searched(g, max, s, fuel) is Some
}

/// The least number of walkers after which the search is known to end.
#[verifier::opaque]
pub open spec fn walkers(g: Garden, max: usize, s: Search) -> nat {
    choose|fuel: nat|
        (#[trigger] searched(g, max, s, fuel)) is Some && forall|f: nat|
            f < fuel ==> (#[trigger] searched(g, max, s, f)) is None
}

/// What the search has seen when it ends.
pub open spec fn found(g: Garden, max: usize, s: Search) -> Seen {
    searched(g, max, s, walkers(g, max, s)).unwrap()
}

proof fn lemma_walkers(g: Garden, max: usize, s: Search, fuel: nat)
    requires
        searched(g, max, s, fuel) is Some,
    ensures
        searched(g, max, s, walkers(g, max, s)) is Some,
        walkers(g, max, s) <= fuel,
        searchable(g, max, s),
    decreases fuel,
{
    reveal(searchable);
    reveal(walkers);
    if exists|f: nat| f < fuel && (#[trigger] searched(g, max, s, f)) is Some {
        let f = choose|f: nat| f < fuel && (#[trigger] searched(g, max, s, f)) is Some;
        lemma_walkers(g, max, s, f);
    } else {
        assert(searched(g, max, s, fuel) is Some && forall|f: nat|
            f < fuel ==> (#[trigger] searched(g, max, s, f)) is None);
        if walkers(g, max, s) > fuel {
            assert(searched(g, max, s, fuel) is None);
        }
    }
}

proof fn lemma_searched_more(g: Garden, max: usize, s: Search, f: nat, h: nat)
    requires
        searched(g, max, s, f) is Some,
        f <= h,
    ensures
        searched(g, max, s, h) == searched(g, max, s, f),
    decreases f,
{
    reveal(searched);
    if s.queue.len() > 0 && f > 0 {
        lemma_searched_more(g, max, advanced(g, max, s).unwrap(), (f - 1) as nat, (h - 1) as nat);
    }
}

/// A search that ends and has a walker left can let it look around, ends
/// sooner after that, and sees the same in the end.
proof fn lemma_advance(g: Garden, max: usize, s: Search)
    requires
        searchable(g, max, s),
        s.queue.len() > 0,
    ensures
        advanced(g, max, s) is Some,
        searchable(g, max, advanced(g, max, s).unwrap()),
        walkers(g, max, advanced(g, max, s).unwrap()) < walkers(g, max, s),
        found(g, max, advanced(g, max, s).unwrap()) == found(g, max, s),
{
    reveal(searchable);
    let f = choose|f: nat| #[trigger] searched(g, max, s, f) is Some;
    lemma_walkers(g, max, s, f);
    let l = walkers(g, max, s);
    reveal(searched);
    let next = advanced(g, max, s).unwrap();
    assert(searched(g, max, s, l) == searched(g, max, next, (l - 1) as nat));
    lemma_walkers(g, max, next, (l - 1) as nat);
    lemma_searched_more(g, max, next, walkers(g, max, next), (l - 1) as nat);
}

/// A search without walkers has ended.
proof fn lemma_search_over(g: Garden, max: usize, s: Search)
    requires
        s.queue.len() == 0,
    ensures
        found(g, max, s) == s.visited,
{
    reveal(searched);
    assert(searched(g, max, s, 0) == Some(s.visited));
    lemma_walkers(g, max, s, 0);
}

/// The most walkers that one walker with `d` steps left can cause to look
/// around, itself included: each sends four at most.
pub open spec fn brood(d: nat) -> nat
    decreases d,
{
    if d == 0 {
        1
    } else {
        1 + 4 * brood((d - 1) as nat)
    }
}

/// The most walkers that the walkers of a queue can cause to look around.
pub open spec fn broods(max: usize, q: Seq<Walker>) -> nat
    decreases q.len(),
{
    if q.len() == 0 {
        0
    } else {
        broods(max, q.drop_last()) + brood((max - q.last().1) as nat)
    }
}

/// The walker has made `max` steps at most and is no further from the start
/// than it has made steps.
pub open spec fn near(g: Garden, max: usize, w: Walker) -> bool {
    &&& w.1 <= max
    &&& g.start.0 - w.1 <= w.0.0 <= g.start.0 + w.1
    &&& g.start.1 - w.1 <= w.0.1 <= g.start.1 + w.1
}

/// Every coordinate within `max` steps of the start can be counted.
pub open spec fn roomy(g: Garden, max: usize) -> bool {
    &&& max < usize::MAX
    &&& i32::MIN <= g.start.0 - max
    &&& g.start.0 + max <= i32::MAX
    &&& i32::MIN <= g.start.1 - max
    &&& g.start.1 + max <= i32::MAX
}

proof fn lemma_broods_concat(max: usize, a: Seq<Walker>, b: Seq<Walker>)
    ensures
        broods(max, a + b) == broods(max, a) + broods(max, b),
    decreases b.len(),
{
    if b.len() == 0 {
        assert(a + b =~= a);
    } else {
        assert((a + b).drop_last() =~= a + b.drop_last());
        lemma_broods_concat(max, a, b.drop_last());
    }
}

proof fn lemma_broods_first(max: usize, q: Seq<Walker>)
    requires
        q.len() > 0,
    ensures
        broods(max, q) == brood((max - q[0].1) as nat) + broods(max, q.drop_first()),
{
    assert(q =~= seq![q[0]] + q.drop_first());
    lemma_broods_concat(max, seq![q[0]], q.drop_first());
    assert(seq![q[0]].drop_last() =~= Seq::<Walker>::empty());
    assert(broods(max, seq![q[0]]) == broods(max, seq![q[0]].drop_last()) + brood(
        (max - q[0].1) as nat,
    ));
}

/// What a walker that is near sends in one direction: nothing, or one
/// walker that is near and has made one step more.
proof fn lemma_child(g: Garden, max: usize, w: Walker, visited: Seen, dir: Dir)
    requires
        roomy(g, max),
        near(g, max, w),
    ensures
        child(g, max, w, visited, dir) is Some,
        ({
            let sent = child(g, max, w, visited, dir).unwrap().1;
            &&& sent.len() <= 1
            &&& sent.len() == 1 ==> near(g, max, sent[0]) && sent[0].1 == w.1 + 1
        }),
{
}

/// What a walker that is near sends in its first `n` directions: `n`
/// walkers at most, each near and with one step more.
proof fn lemma_children(g: Garden, max: usize, w: Walker, visited: Seen, n: int)
    requires
        roomy(g, max),
        near(g, max, w),
        0 <= n <= 4,
    ensures
        children(g, max, w, visited, n) is Some,
        ({
            let sent = children(g, max, w, visited, n).unwrap().1;
            &&& sent.len() <= n
            &&& forall|i: int|
                0 <= i < sent.len() ==> near(g, max, #[trigger] sent[i]) && sent[i].1 == w.1 + 1
            &&& w.1 < max ==> broods(max, sent) <= n * brood((max - w.1 - 1) as nat)
            &&& w.1 >= max ==> sent.len() == 0
        }),
    decreases n,
{
    if n > 0 {
        lemma_children(g, max, w, visited, n - 1);
        let before = children(g, max, w, visited, n - 1).unwrap();
        lemma_child(g, max, w, before.0, directions()[n - 1]);
        let now = child(g, max, w, before.0, directions()[n - 1]).unwrap();
        lemma_broods_concat(max, before.1, now.1);
        if now.1.len() == 1 {
            assert(now.1.drop_last() =~= Seq::<Walker>::empty());
            assert(broods(max, now.1) == broods(max, now.1.drop_last()) + brood(
                (max - now.1.last().1) as nat,
            ));
        } else {
            assert(now.1 =~= Seq::<Walker>::empty());
        }
        assert(n * brood((max - w.1 - 1) as nat) == (n - 1) * brood((max - w.1 - 1) as nat)
            + brood((max - w.1 - 1) as nat)) by (nonlinear_arith);
    }
}

/// A search whose walkers are near comes to an end, after no more walkers
/// than its walkers can cause.
proof fn lemma_search_ends(g: Garden, max: usize, s: Search, fuel: nat)
    requires
        roomy(g, max),
        forall|i: int| 0 <= i < s.queue.len() ==> near(g, max, #[trigger] s.queue[i]),
        broods(max, s.queue) <= fuel,
    ensures
        searched(g, max, s, fuel) is Some,
    decreases fuel,
{
    reveal(searched);
    if s.queue.len() > 0 {
        let w = s.queue[0];
        lemma_broods_first(max, s.queue);
        lemma_children(g, max, w, s.visited, 4);
        let c = children(g, max, w, s.visited, 4).unwrap();
        let next = Search { visited: c.0, queue: s.queue.drop_first() + c.1 };
        lemma_broods_concat(max, s.queue.drop_first(), c.1);
        assert(brood((max - w.1) as nat) >= 1);
        if w.1 < max {
            assert(brood((max - w.1) as nat) == 1 + 4 * brood((max - w.1 - 1) as nat));
        }
        assert forall|i: int| 0 <= i < next.queue.len() implies near(
            g,
            max,
            #[trigger] next.queue[i],
        ) by {
            if i < s.queue.len() - 1 {
                assert(next.queue[i] == s.queue[i + 1]);
            } else {
                assert(next.queue[i] == c.1[i - (s.queue.len() - 1)]);
            }
        }
        lemma_search_ends(g, max, next, (fuel - 1) as nat);
    }
}

/// The search from the start comes to an end.
pub proof fn lemma_searchable(g: Garden, max: usize)
    requires
        roomy(g, max),
    ensures
        searchable(g, max, setting_out(g)),
{
    let s = setting_out(g);
    assert(near(g, max, s.queue[0]));
    lemma_search_ends(g, max, s, broods(max, s.queue));
    reveal(searchable);
}

/// The number of entries with the given parity among the first `n`.
pub open spec fn census(v: Seen, p: Mod2, n: int) -> int
    decreases n,
{
    if n <= 0 {
        0
    } else if v[n - 1].0.1 == p {
        census(v, p, n - 1) + 1
    } else {
        census(v, p, n - 1)
    }
}

/// The search that starts with one walker at the start of the garden.
pub open spec fn setting_out(g: Garden) -> Search {
    Search { visited: Seq::empty(), queue: seq![(g.start, 0usize)] }
}

/// The number of coordinates to which the search sent a walker after a
/// number of steps of the parity of `age`.
pub open spec fn reached(g: Garden, age: usize) -> int {
    let v = found(g, age, setting_out(g));
    census(v, parity(age as int), v.len() as int)
}

/// The number of coordinates to which the search sends a walker after a
/// number of steps of the parity of `age`. Walkers are sent out from the
/// start, breadth first, each to the free tiles beside it, as long as they
/// have steps left; a coordinate and the parity of the steps to it are
/// entered when a walker is sent there.
pub fn part1(m: &Garden, age: usize) -> (r: usize)
    requires
        m.wf(),
        roomy(*m, age),
    ensures
        r == reached(*m, age),
{
    proof {
        lemma_searchable(*m, age);
    }
    let mut visited: Vec<((Coord, Mod2), usize)> = Vec::new();
    let mut queue: Vec<Walker> = Vec::new();
    queue.push((m.start, 0));
    let mut head: usize = 0;
    proof {
        assert(queue@.skip(0) =~= setting_out(*m).queue);
    }
    while head < queue.len()
        invariant
            m.wf(),
            head <= queue.len(),
            searchable(*m, age, Search { visited: visited@, queue: queue@.skip(head as int) }),
            found(*m, age, Search { visited: visited@, queue: queue@.skip(head as int) }) == found(
                *m,
                age,
                setting_out(*m),
            ),
        decreases walkers(*m, age, Search { visited: visited@, queue: queue@.skip(head as int) }),
    {
        let ghost s = Search { visited: visited@, queue: queue@.skip(head as int) };
        let ghost before = queue@;
        proof {
            lemma_advance(*m, age, s);
            assert(s.queue[0] == queue@[head as int]);
        }
        let (c, a) = queue[head];
        head += 1;
        add_children(m, age, c, a, &mut visited, &mut queue);
        proof {
            let sent = children(*m, age, (c, a), s.visited, 4).unwrap().1;
            assert(queue@.skip(head as int) =~= s.queue.drop_first() + sent);
        }
    }
    proof {
        lemma_search_over(*m, age, Search { visited: visited@, queue: queue@.skip(head as int) });
    }
    let wanted = mod2(age);
    let mut res: usize = 0;
    let mut i: usize = 0;
    while i < visited.len()
        invariant
            i <= visited.len(),
            res == census(visited@, wanted, i as int),
            res <= i,
        decreases visited.len() - i,
    {
        let same = match (visited[i].0.1, wanted) {
            (Mod2::Odd, Mod2::Odd) => true,
            (Mod2::Even, Mod2::Even) => true,
            _ => false,
        };
        if same {
            res += 1;
        }
        i += 1;
    }
    res
}

/// How many coordinates fewer the search counts for `age` than the square
/// of `age + 1`.
pub fn diff(m: &Garden, age: usize) -> (r: usize)
    requires
        m.wf(),
        roomy(*m, age),
        (age + 1) * (age + 1) <= usize::MAX,
        reached(*m, age) <= (age + 1) * (age + 1),
    ensures
        r == (age + 1) * (age + 1) - reached(*m, age),
{
    assert(age + 1 <= usize::MAX) by (nonlinear_arith)
        requires
            (age + 1) * (age + 1) <= usize::MAX,
    ;
    let exc = (age + 1) * (age + 1);
    exc - part1(m, age)
}

/// The ages from 60 to 69 can be searched and their differences counted.
pub open spec fn surveyable(g: Garden) -> bool {
    forall|a: usize| 60 <= a < 70 ==> #[trigger] roomy(g, a) && reached(g, a) <= (a + 1) * (a + 1)
}

/// The differences for the ages from 60 to 69, which are there to be
/// looked at, and the number 3.
pub fn part2(m: &Garden, age: usize) -> (r: (Vec<usize>, usize))
    requires
        m.wf(),
        surveyable(*m),
    ensures
        r.1 == 3,
        r.0@.len() == 10,
        forall|i: int|
            0 <= i < 10 ==> #[trigger] r.0@[i] == (61 + i) * (61 + i) - reached(*m, (60 + i) as usize),
{
    let mut shown: Vec<usize> = Vec::new();
    let mut a: usize = 60;
    while a < 70
        invariant
            60 <= a <= 70,
            m.wf(),
            surveyable(*m),
            shown@.len() == a - 60,
            forall|i: int|
                0 <= i < a - 60 ==> #[trigger] shown@[i] == (61 + i) * (61 + i) - reached(
                    *m,
                    (60 + i) as usize,
                ),
        decreases 70 - a,
    {
        proof {
            assert(roomy(*m, a));
            assert((a + 1) * (a + 1) <= 4900) by (nonlinear_arith)
                requires
                    60 <= a < 70,
            ;
        }
        let d = diff(m, a);
        shown.push(d);
        a += 1;
    }
    (shown, 3)
}

} // verus!
