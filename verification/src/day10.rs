//! A field of pipes, one loop of which passes through the starting tile.
use crate::text::{find_char, lines, lines_of, position_of, views};
use vstd::prelude::*;

verus! {

#[derive(Clone, Copy, Debug, PartialEq, Eq, Structural)]
pub enum Dir {
    Left,
    Right,
    Down,
    Up,
}

/// A tile: ground, the starting tile, or a pipe that joins two directions.
#[derive(Clone, Copy, Debug, PartialEq, Eq, Structural)]
pub enum Tile {
    Ground,
    Starting,
    Pipe(Dir, Dir),
}

pub type Coord = (usize, usize);

pub open spec fn spec_opposite(x: Dir) -> Dir {
    match x {
        Dir::Left => Dir::Right,
        Dir::Right => Dir::Left,
        Dir::Down => Dir::Up,
        Dir::Up => Dir::Down,
    }
}

#[verifier::when_used_as_spec(spec_opposite)]
pub fn opposite(x: Dir) -> (r: Dir)
    ensures
        r == spec_opposite(x),
{
    match x {
        Dir::Left => Dir::Right,
        Dir::Right => Dir::Left,
        Dir::Down => Dir::Up,
        Dir::Up => Dir::Down,
    }
}

pub open spec fn spec_counterclockwise(x: Dir) -> Dir {
    match x {
        Dir::Left => Dir::Down,
        Dir::Right => Dir::Up,
        Dir::Down => Dir::Right,
        Dir::Up => Dir::Left,
    }
}

#[verifier::when_used_as_spec(spec_counterclockwise)]
pub fn counterclockwise(x: Dir) -> (r: Dir)
    ensures
        r == spec_counterclockwise(x),
{
    match x {
        Dir::Left => Dir::Down,
        Dir::Right => Dir::Up,
        Dir::Down => Dir::Right,
        Dir::Up => Dir::Left,
    }
}

pub open spec fn spec_clockwise(x: Dir) -> Dir {
    match x {
        Dir::Left => Dir::Up,
        Dir::Right => Dir::Down,
        Dir::Down => Dir::Left,
        Dir::Up => Dir::Right,
    }
}

#[verifier::when_used_as_spec(spec_clockwise)]
pub fn clockwise(x: Dir) -> (r: Dir)
    ensures
        r == spec_clockwise(x),
{
    match x {
        Dir::Left => Dir::Up,
        Dir::Right => Dir::Down,
        Dir::Down => Dir::Left,
        Dir::Up => Dir::Right,
    }
}

/// Turning is consistent: a quarter turn one way undoes a quarter turn the
/// other way, and two quarter turns are a half turn.
pub proof fn lemma_turns(x: Dir)
    ensures
        clockwise(counterclockwise(x)) == x,
        counterclockwise(clockwise(x)) == x,
        clockwise(clockwise(x)) == opposite(x),
        opposite(opposite(x)) == x,
{
}

/// The other end of a pipe that has an end in direction `x`.
pub open spec fn other_end(t: Tile, x: Dir) -> Option<Dir> {
    match t {
        Tile::Pipe(a, b) => if a == x {
            Some(b)
        } else if b == x {
            Some(a)
        } else {
            None
        },
        _ => None,
    }
}

#[verifier::when_used_as_spec(other_end)]
pub fn other(t: Tile, x: Dir) -> (r: Option<Dir>)
    ensures
        r == other_end(t, x),
{
    match t {
        Tile::Pipe(a, b) => if a == x {
            Some(b)
        } else if b == x {
            Some(a)
        } else {
            None
        },
        _ => None,
    }
}

pub fn is_start(t: Tile) -> (r: bool)
    ensures
        r == (t == Tile::Starting),
{
    match t {
        Tile::Starting => true,
        _ => false,
    }
}

/// The coordinate one step from `c` in direction `d`.
pub open spec fn moved(d: Dir, c: Coord) -> (int, int) {
    match d {
        Dir::Left => (c.0 - 1, c.1 as int),
        Dir::Right => (c.0 + 1, c.1 as int),
        Dir::Down => (c.0 as int, c.1 + 1),
        Dir::Up => (c.0 as int, c.1 - 1),
    }
}

/// The coordinate one step from `c` in direction `d`.
pub fn step(d: Dir, c: Coord) -> (r: Coord)
    requires
        0 <= moved(d, c).0 <= usize::MAX,
        0 <= moved(d, c).1 <= usize::MAX,
    ensures
        (r.0 as int, r.1 as int) == moved(d, c),
{
    let (x, y) = c;
    match d {
        Dir::Left => (x - 1, y),
        Dir::Right => (x + 1, y),
        Dir::Down => (x, y + 1),
        Dir::Up => (x, y - 1),
    }
}

/// A sketch of pipes and the place of its starting tile.
#[derive(Debug)]
pub struct Sketch {
    pub start: Coord,
    pub tiles: Vec<Vec<Tile>>,
}

impl Sketch {
    pub open spec fn inside(&self, c: (int, int)) -> bool {
        0 <= c.1 < self.tiles@.len() && 0 <= c.0 < self.tiles@[c.1]@.len()
    }

    pub open spec fn at(&self, c: (int, int)) -> Tile {
        self.tiles@[c.1]@[c.0]
    }

    /// The tile at `c`.
    pub fn index(&self, c: Coord) -> (t: Tile)
        requires
            self.inside((c.0 as int, c.1 as int)),
        ensures
            t == self.at((c.0 as int, c.1 as int)),
    {
        self.tiles[c.1][c.0]
    }
}

pub open spec fn tile_of(t: char) -> Option<Tile> {
    if t == 'S' {
        Some(Tile::Starting)
    } else if t == '.' {
        Some(Tile::Ground)
    } else if t == '|' {
        Some(Tile::Pipe(Dir::Up, Dir::Down))
    } else if t == '-' {
        Some(Tile::Pipe(Dir::Left, Dir::Right))
    } else if t == 'L' {
        Some(Tile::Pipe(Dir::Up, Dir::Right))
    } else if t == 'F' {
        Some(Tile::Pipe(Dir::Down, Dir::Right))
    } else if t == '7' {
        Some(Tile::Pipe(Dir::Down, Dir::Left))
    } else if t == 'J' {
        Some(Tile::Pipe(Dir::Up, Dir::Left))
    } else {
        None
    }
}

pub fn parse_tile(t: char) -> (r: Tile)
    requires
        tile_of(t) is Some,
    ensures
        Some(r) == tile_of(t),
{
    match t {
        'S' => Tile::Starting,
        '.' => Tile::Ground,
        '|' => Tile::Pipe(Dir::Up, Dir::Down),
        '-' => Tile::Pipe(Dir::Left, Dir::Right),
        'L' => Tile::Pipe(Dir::Up, Dir::Right),
        'F' => Tile::Pipe(Dir::Down, Dir::Right),
        '7' => Tile::Pipe(Dir::Down, Dir::Left),
        _ => Tile::Pipe(Dir::Up, Dir::Left),
    }
}

/// A position in the field together with the direction of travel.
#[derive(Clone, Copy, Debug, PartialEq, Eq)]
pub struct Walker {
    pub dir: Dir,
    pub coord: Coord,
}

/// Where the walker is after one step: on the next tile, looking out of the
/// other end of its pipe; nowhere if the next tile is the starting tile.
pub open spec fn walked(m: &Sketch, w: Walker) -> Option<Walker> {
    let target = moved(w.dir, w.coord);
    if target == (m.start.0 as int, m.start.1 as int) {
        None
    } else {
        Some(
            Walker {
                coord: (target.0 as usize, target.1 as usize),
                dir: other_end(m.at(target), opposite(w.dir)).unwrap(),
            },
        )
    }
}

/// The walker can take a step: the next tile is the starting tile, or it
/// lies in the field and is a pipe with an end towards the walker.
pub open spec fn can_walk(m: &Sketch, w: Walker) -> bool {
    let target = moved(w.dir, w.coord);
    &&& 0 <= target.0 <= usize::MAX
    &&& 0 <= target.1 <= usize::MAX
    &&& (target == (m.start.0 as int, m.start.1 as int) || (m.inside(target) && other_end(
        m.at(target),
        opposite(w.dir),
    ) is Some))
}

/// The walker one step further along the pipes.
pub fn proceed(m: &Sketch, w: Walker) -> (r: Option<Walker>)
    requires
        can_walk(m, w),
    ensures
        r == walked(m, w),
{
    let target = step(w.dir, w.coord);
    if target.0 == m.start.0 && target.1 == m.start.1 {
        None
    } else {
        match other(m.index(target), opposite(w.dir)) {
            Some(dir) => Some(Walker { coord: target, dir }),
            None => None,
        }
    }
}

/// The text holds only characters that stand for tiles.
pub open spec fn legible(text: Seq<char>) -> bool {
    let ls = lines_of(text);
    forall|y: int, x: int|
        0 <= y < ls.len() && 0 <= x < ls[y].len() ==> tile_of(#[trigger] ls[y][x]) is Some
}

/// The place of the first `S` in the rows from the `y`-th on, or the
/// corner if there is none.
pub open spec fn start_of(rows: Seq<Seq<char>>, y: int) -> (int, int)
    decreases rows.len() - y,
{
    if y >= rows.len() {
        (0, 0)
    } else if find_char(rows[y], 'S') < rows[y].len() {
        (find_char(rows[y], 'S'), y)
    } else {
        start_of(rows, y + 1)
    }
}

/// The tiles of the rows.
pub open spec fn tiles_of(g: Seq<Vec<Tile>>) -> Seq<Seq<Tile>> {
    Seq::new(g.len(), |y: int| g[y]@)
}

/// Reads a sketch, a row to a line. The starting tile is the first `S`.
pub fn parse(text: &str) -> (r: Sketch)
    requires
        legible(text@),
    ensures
        tiles_of(r.tiles@) == Seq::new(
            lines_of(text@).len(),
            |y: int|
                Seq::new(
                    lines_of(text@)[y].len(),
                    |x: int| tile_of(lines_of(text@)[y][x]).unwrap(),
                ),
        ),
        (r.start.0 as int, r.start.1 as int) == start_of(lines_of(text@), 0),
{
    let ls = lines(text);
    let ghost rows = lines_of(text@);
    let mut tiles: Vec<Vec<Tile>> = Vec::new();
    let mut y: usize = 0;
    while y < ls.len()
        invariant
            y <= ls.len(),
            views(ls@) == rows,
            rows == lines_of(text@),
            legible(text@),
            tiles@.len() == y,
            forall|j: int|
                0 <= j < y ==> (#[trigger] tiles@[j])@ == Seq::new(
                    rows[j].len(),
                    |x: int| tile_of(rows[j][x]).unwrap(),
                ),
        decreases ls.len() - y,
    {
        let l = &ls[y];
        proof {
            assert(views(ls@)[y as int] == l@);
        }
        let mut row: Vec<Tile> = Vec::new();
        let mut x: usize = 0;
        while x < l.len()
            invariant
                x <= l.len(),
                y < rows.len(),
                l@ == rows[y as int],
                rows == lines_of(text@),
                legible(text@),
                row@.len() == x,
                forall|j: int| 0 <= j < x ==> #[trigger] row@[j] == tile_of(l@[j]).unwrap(),
            decreases l.len() - x,
        {
            proof {
                assert(tile_of(rows[y as int][x as int]) is Some);
            }
            row.push(parse_tile(l[x]));
            x += 1;
        }
        proof {
            assert(row@ =~= Seq::new(
                rows[y as int].len(),
                |x: int| tile_of(rows[y as int][x]).unwrap(),
            ));
        }
        tiles.push(row);
        y += 1;
    }
    let mut start: Coord = (0, 0);
    let mut y: usize = 0;
    while y < ls.len()
        invariant_except_break
            start_of(rows, 0) == start_of(rows, y as int),
            start == (0usize, 0usize),
        invariant
            y <= ls.len(),
            views(ls@) == rows,
        ensures
            (start.0 as int, start.1 as int) == start_of(rows, 0),
        decreases ls.len() - y,
    {
        proof {
            assert(views(ls@)[y as int] == ls@[y as int]@);
            assert(ls@[y as int]@.skip(0) =~= ls@[y as int]@);
        }
        let x = position_of(&ls[y], 0, 'S');
        if x < ls[y].len() {
            start = (x, y);
            break ;
        }
        y += 1;
    }
    proof {
        assert(tiles_of(tiles@) =~= Seq::new(
            rows.len(),
            |y: int| Seq::new(rows[y].len(), |x: int| tile_of(rows[y][x]).unwrap()),
        ));
    }
    Sketch { tiles, start }
}

/// The walkers from `w` on until the next tile is the starting tile, if
/// that is so after `fuel` steps at most and every step on the way can be
/// taken.
#[verifier::opaque]
pub open spec fn trail(m: &Sketch, w: Walker, fuel: nat) -> Option<Seq<Walker>>
    decreases fuel,
{
    if !can_walk(m, w) {
        None
    } else {
        match walked(m, w) {
            None => Some(seq![w]),
            Some(next) => if fuel == 0 {
                None
            } else {
                match trail(m, next, (fuel - 1) as nat) {
                    None => None,
                    Some(rest) => Some(seq![w] + rest),
                }
            },
        }
    }
}

/// The walk from `w` comes back to the starting tile.
#[verifier::opaque]
pub open spec fn loops(m: &Sketch, w: Walker) -> bool {
    exists|fuel: nat| #[trigger] trail(m, w, fuel) is Some
}

/// The least number of steps after which the walk is known to come back.
#[verifier::opaque]
pub open spec fn way(m: &Sketch, w: Walker) -> nat {
    choose|fuel: nat|
        (#[trigger] trail(m, w, fuel)) is Some && forall|f: nat|
            f < fuel ==> (#[trigger] trail(m, w, f)) is None
}

/// The walkers from `w` on until the next tile is the starting tile.
pub open spec fn round(m: &Sketch, w: Walker) -> Seq<Walker> {
    trail(m, w, way(m, w)).unwrap()
}

proof fn lemma_way(m: &Sketch, w: Walker, fuel: nat)
    requires
        trail(m, w, fuel) is Some,
    ensures
        trail(m, w, way(m, w)) is Some,
        way(m, w) <= fuel,
        loops(m, w),
    decreases fuel,
{
    reveal(loops);
    reveal(way);
    if exists|f: nat| f < fuel && (#[trigger] trail(m, w, f)) is Some {
        let f = choose|f: nat| f < fuel && (#[trigger] trail(m, w, f)) is Some;
        lemma_way(m, w, f);
    } else {
        assert(trail(m, w, fuel) is Some && forall|f: nat|
            f < fuel ==> (#[trigger] trail(m, w, f)) is None);
        if way(m, w) > fuel {
            assert(trail(m, w, fuel) is None);
        }
    }
}

proof fn lemma_trail_more(m: &Sketch, w: Walker, f: nat, g: nat)
    requires
        trail(m, w, f) is Some,
        f <= g,
    ensures
        trail(m, w, g) == trail(m, w, f),
    decreases f,
{
    reveal(trail);
    if walked(m, w) is Some && f > 0 {
        lemma_trail_more(m, walked(m, w).unwrap(), (f - 1) as nat, (g - 1) as nat);
    }
}

/// What is known of a walk that comes back, before its next step: the
/// step can be taken; and either it leads to the starting tile and the
/// walk ends, or the walk from the next tile comes back sooner, and the
/// walkers from here on are this one and those from there on.
pub proof fn lemma_round(m: &Sketch, w: Walker)
    requires
        loops(m, w),
    ensures
        can_walk(m, w),
        match walked(m, w) {
            None => round(m, w) == seq![w],
            Some(next) => loops(m, next) && way(m, next) < way(m, w) && round(m, w) == seq![w]
                + round(m, next),
        },
{
    reveal(loops);
    let f = choose|f: nat| #[trigger] trail(m, w, f) is Some;
    lemma_way(m, w, f);
    let l = way(m, w);
    reveal(trail);
    match walked(m, w) {
        Some(next) => {
            lemma_way(m, next, (l - 1) as nat);
            lemma_trail_more(m, next, way(m, next), (l - 1) as nat);
        },
        None => {},
    }
}

/// The walkers of the loop through the starting tile, from the one that
/// leaves it in direction `d` on.
pub fn create_loop(m: &Sketch, d: Dir) -> (r: Vec<Walker>)
    requires
        loops(m, Walker { coord: m.start, dir: d }),
    ensures
        r@ == round(m, Walker { coord: m.start, dir: d }),
{
    let ghost first = Walker { coord: m.start, dir: d };
    let mut w = Walker { coord: m.start, dir: d };
    let mut out: Vec<Walker> = Vec::new();
    proof {
        assert(out@ + round(m, w) =~= round(m, first));
    }
    loop
        invariant_except_break
            loops(m, w),
            out@ + round(m, w) == round(m, first),
        ensures
            out@ == round(m, first),
        decreases way(m, w),
    {
        proof {
            lemma_round(m, w);
        }
        let ghost before = out@;
        out.push(w);
        match proceed(m, w) {
            None => {
                proof {
                    assert(out@ =~= before + seq![w]);
                }
                break ;
            },
            Some(next) => {
                proof {
                    assert(out@ + round(m, next) =~= before + (seq![w] + round(m, next)));
                }
                w = next;
            },
        }
    }
    out
}

/// The number of steps to the tile of the loop that is farthest from the
/// starting tile: half the length of the loop.
pub fn part1(m: &Sketch, d: Dir) -> (r: usize)
    requires
        loops(m, Walker { coord: m.start, dir: d }),
    ensures
        r == round(m, Walker { coord: m.start, dir: d }).len() / 2,
{
    create_loop(m, d).len() / 2
}

/// What is known of a place of the field: it lies on the loop, or it has
/// been found to lie beside it, or nothing yet.
#[derive(Clone, Copy, Debug, PartialEq, Eq, Structural)]
pub enum Field {
    Touched,
    Untouched,
    Path,
}

/// The rows of a field as plain values.
pub open spec fn cells(f: Seq<Vec<Field>>) -> Seq<Seq<Field>> {
    Seq::new(f.len(), |y: int| f[y]@)
}

/// The directions in the order in which a place is left.
pub open spec fn directions() -> Seq<Dir> {
    seq![Dir::Left, Dir::Right, Dir::Up, Dir::Down]
}

/// The field after everything untouched that hangs together with `c` has
/// been touched, if that takes no more than `fuel` places in a row and
/// never leads out of the field.
pub open spec fn flooded(g: Seq<Seq<Field>>, c: Coord, fuel: nat) -> Option<Seq<Seq<Field>>>
    decreases fuel, 0int,
{
    if !(c.1 < g.len() && c.0 < g[c.1 as int].len()) {
        None
    } else if g[c.1 as int][c.0 as int] != Field::Untouched {
        Some(g)
    } else if fuel == 0 {
        None
    } else {
        spread(
            g.update(c.1 as int, g[c.1 as int].update(c.0 as int, Field::Touched)),
            c,
            (fuel - 1) as nat,
            4,
        )
    }
}

/// The field after the first `n` neighbours of `c` have been flooded.
pub open spec fn spread(g: Seq<Seq<Field>>, c: Coord, fuel: nat, n: int) -> Option<
    Seq<Seq<Field>>,
>
    decreases fuel, n,
{
    if n <= 0 || n > 4 {
        Some(g)
    } else {
        match spread(g, c, fuel, n - 1) {
            None => None,
            Some(h) => {
                let t = moved(directions()[n - 1], c);
                if 0 <= t.0 <= usize::MAX && 0 <= t.1 <= usize::MAX {
                    flooded(h, (t.0 as usize, t.1 as usize), fuel)
                } else {
                    None
                }
            },
        }
    }
}

/// The field can be flooded from `c`.
#[verifier::opaque]
pub open spec fn floodable(g: Seq<Seq<Field>>, c: Coord) -> bool {
    exists|fuel: nat| #[trigger] flooded(g, c, fuel) is Some
}

/// The least number of places in a row that flooding from `c` takes.
#[verifier::opaque]
pub open spec fn depth(g: Seq<Seq<Field>>, c: Coord) -> nat {
    choose|fuel: nat|
        (#[trigger] flooded(g, c, fuel)) is Some && forall|f: nat|
            f < fuel ==> (#[trigger] flooded(g, c, f)) is None
}

/// The field after everything untouched that hangs together with `c` has
/// been touched.
pub open spec fn flood(g: Seq<Seq<Field>>, c: Coord) -> Seq<Seq<Field>> {
    flooded(g, c, depth(g, c)).unwrap()
}

proof fn lemma_depth(g: Seq<Seq<Field>>, c: Coord, fuel: nat)
    requires
        flooded(g, c, fuel) is Some,
    ensures
        flooded(g, c, depth(g, c)) is Some,
        depth(g, c) <= fuel,
        floodable(g, c),
    decreases fuel,
{
    reveal(floodable);
    reveal(depth);
    if exists|f: nat| f < fuel && (#[trigger] flooded(g, c, f)) is Some {
        let f = choose|f: nat| f < fuel && (#[trigger] flooded(g, c, f)) is Some;
        lemma_depth(g, c, f);
    } else {
        assert(flooded(g, c, fuel) is Some && forall|f: nat|
            f < fuel ==> (#[trigger] flooded(g, c, f)) is None);
        if depth(g, c) > fuel {
            assert(flooded(g, c, fuel) is None);
        }
    }
}

proof fn lemma_flooded_more(g: Seq<Seq<Field>>, c: Coord, f: nat, h: nat)
    requires
        flooded(g, c, f) is Some,
        f <= h,
    ensures
        flooded(g, c, h) == flooded(g, c, f),
    decreases f, 0int,
{
    if c.1 < g.len() && c.0 < g[c.1 as int].len() && g[c.1 as int][c.0 as int]
        == Field::Untouched {
        lemma_spread_more(
            g.update(c.1 as int, g[c.1 as int].update(c.0 as int, Field::Touched)),
            c,
            (f - 1) as nat,
            (h - 1) as nat,
            4,
        );
    }
}

proof fn lemma_spread_more(g: Seq<Seq<Field>>, c: Coord, f: nat, h: nat, n: int)
    requires
        spread(g, c, f, n) is Some,
        f <= h,
    ensures
        spread(g, c, h, n) == spread(g, c, f, n),
    decreases f, n,
{
    if 0 < n <= 4 {
        lemma_spread_more(g, c, f, h, n - 1);
        let before = spread(g, c, f, n - 1).unwrap();
        let t = moved(directions()[n - 1], c);
        lemma_flooded_more(before, (t.0 as usize, t.1 as usize), f, h);
    }
}

/// Touches everything untouched that hangs together with `c`: the place
/// itself, then what hangs together with each of its four neighbours.
pub fn fill(f: &mut Vec<Vec<Field>>, c: Coord)
    requires
        floodable(cells(old(f)@), c),
    ensures
        cells(final(f)@) == flood(cells(old(f)@), c),
    decreases depth(cells(old(f)@), c),
{
    let ghost g = cells(f@);
    let ghost l = depth(g, c);
    proof {
        reveal(floodable);
        let w = choose|fuel: nat| #[trigger] flooded(g, c, fuel) is Some;
        lemma_depth(g, c, w);
        assert(f@[c.1 as int]@ == g[c.1 as int]);
    }
    match f[c.1][c.0] {
        Field::Untouched => {},
        _ => {
            return ;
        },
    }
    let mut row: Vec<Field> = Vec::new();
    std::mem::swap(&mut row, &mut f[c.1]);
    row.set(c.0, Field::Touched);
    let mut row = row;
    std::mem::swap(&mut row, &mut f[c.1]);
    let ghost g1 = g.update(c.1 as int, g[c.1 as int].update(c.0 as int, Field::Touched));
    proof {
        assert(cells(f@) =~= g1);
    }
    let dirs = [Dir::Left, Dir::Right, Dir::Up, Dir::Down];
    let mut n: usize = 0;
    while n < 4
        invariant
            n <= 4,
            l >= 1,
            l == depth(g, c),
            g == cells(old(f)@),
            dirs@ == directions(),
            spread(g1, c, (l - 1) as nat, 4) is Some,
            spread(g1, c, (l - 1) as nat, n as int) == Some(cells(f@)),
        decreases 4 - n,
    {
        proof {
            lemma_spread_so_far(g1, c, (l - 1) as nat, n + 1, 4);
            let t = moved(directions()[n as int], c);
            lemma_depth(cells(f@), (t.0 as usize, t.1 as usize), (l - 1) as nat);
            lemma_flooded_more(
                cells(f@),
                (t.0 as usize, t.1 as usize),
                depth(cells(f@), (t.0 as usize, t.1 as usize)),
                (l - 1) as nat,
            );
        }
        let t = step(dirs[n], c);
        assert(depth(cells(f@), t) < l);
        fill(f, t);
        n += 1;
    }
}

/// A place whose first neighbours cannot be flooded cannot be flooded
/// with more of them.
proof fn lemma_spread_so_far(g: Seq<Seq<Field>>, c: Coord, fuel: nat, n: int, m: int)
    requires
        0 <= n <= m <= 4,
        spread(g, c, fuel, m) is Some,
    ensures
        spread(g, c, fuel, n) is Some,
    decreases m - n,
{
    if n < m {
        lemma_spread_so_far(g, c, fuel, n + 1, m);
    }
}

/// A field of the shape of the sketch on which nothing is known yet.
pub open spec fn blank(m: &Sketch) -> Seq<Seq<Field>> {
    Seq::new(
        m.tiles@.len(),
        |y: int| Seq::new(m.tiles@[y]@.len(), |x: int| Field::Untouched),
    )
}

/// The field with the places of the first `k` walkers entered as path.
pub open spec fn traced(g: Seq<Seq<Field>>, ws: Seq<Walker>, k: int) -> Seq<Seq<Field>>
    decreases k,
{
    if k <= 0 {
        g
    } else {
        let h = traced(g, ws, k - 1);
        let c = ws[k - 1].coord;
        h.update(c.1 as int, h[c.1 as int].update(c.0 as int, Field::Path))
    }
}

/// The field after it has been flooded from the place to the left of each
/// of the first `k` walkers, if each of these places lies where a place can
/// lie and the field can be flooded from it.
pub open spec fn painted(g: Seq<Seq<Field>>, ws: Seq<Walker>, k: int) -> Option<Seq<Seq<Field>>>
    decreases k,
{
    if k <= 0 {
        Some(g)
    } else {
        match painted(g, ws, k - 1) {
            None => None,
            Some(h) => {
                let t = moved(counterclockwise(ws[k - 1].dir), ws[k - 1].coord);
                if 0 <= t.0 <= usize::MAX && 0 <= t.1 <= usize::MAX && floodable(
                    h,
                    (t.0 as usize, t.1 as usize),
                ) {
                    Some(flood(h, (t.0 as usize, t.1 as usize)))
                } else {
                    None
                }
            },
        }
    }
}

/// The number of touched places among the first `n` of a row.
pub open spec fn row_tally(r: Seq<Field>, n: int) -> int
    decreases n,
{
    if n <= 0 {
        0
    } else if r[n - 1] == Field::Touched {
        row_tally(r, n - 1) + 1
    } else {
        row_tally(r, n - 1)
    }
}

/// The number of touched places in the first `n` rows.
pub open spec fn tally(g: Seq<Seq<Field>>, n: int) -> int
    decreases n,
{
    if n <= 0 {
        0
    } else {
        tally(g, n - 1) + row_tally(g[n - 1], g[n - 1].len() as int)
    }
}

/// The field in which the loop from the starting tile in direction `d` is
/// entered and everything to its left is touched.
pub open spec fn picture(m: &Sketch, d: Dir) -> Option<Seq<Seq<Field>>> {
    let ws = round(m, Walker { coord: m.start, dir: d });
    painted(traced(blank(m), ws, ws.len() as int), ws, ws.len() as int)
}

/// The loop comes back, lies in the field, and the field can be flooded
/// from the left of each of its places.
pub open spec fn paintable(m: &Sketch, d: Dir) -> bool {
    let ws = round(m, Walker { coord: m.start, dir: d });
    &&& loops(m, Walker { coord: m.start, dir: d })
    &&& forall|i: int|
        0 <= i < ws.len() ==> m.inside(
            ((#[trigger] ws[i]).coord.0 as int, ws[i].coord.1 as int),
        )
    &&& picture(m, d) is Some
}

/// Enters the loop in a field and touches everything to its left.
pub fn paint(m: &Sketch, d: Dir) -> (r: Vec<Vec<Field>>)
    requires
        paintable(m, d),
    ensures
        Some(cells(r@)) == picture(m, d),
{
    let ghost ws = round(m, Walker { coord: m.start, dir: d });
    let mut x: Vec<Vec<Field>> = Vec::new();
    let mut y: usize = 0;
    while y < m.tiles.len()
        invariant
            y <= m.tiles.len(),
            x@.len() == y,
            forall|j: int|
                0 <= j < y ==> (#[trigger] x@[j])@ == Seq::new(
                    m.tiles@[j]@.len(),
                    |i: int| Field::Untouched,
                ),
        decreases m.tiles.len() - y,
    {
        let mut row: Vec<Field> = Vec::new();
        let mut i: usize = 0;
        while i < m.tiles[y].len()
            invariant
                y < m.tiles.len(),
                i <= m.tiles@[y as int]@.len(),
                row@.len() == i,
                forall|j: int| 0 <= j < i ==> row@[j] == Field::Untouched,
            decreases m.tiles@[y as int]@.len() - i,
        {
            row.push(Field::Untouched);
            i += 1;
        }
        proof {
            assert(row@ =~= Seq::new(m.tiles@[y as int]@.len(), |i: int| Field::Untouched));
        }
        x.push(row);
        y += 1;
    }
    proof {
        assert(cells(x@) =~= blank(m));
    }
    let walkers = create_loop(m, d);
    let mut k: usize = 0;
    while k < walkers.len()
        invariant
            k <= walkers.len(),
            walkers@ == ws,
            paintable(m, d),
            ws == round(m, Walker { coord: m.start, dir: d }),
            x@.len() == m.tiles@.len(),
            forall|j: int| 0 <= j < x@.len() ==> (#[trigger] x@[j])@.len() == m.tiles@[j]@.len(),
            cells(x@) == traced(blank(m), ws, k as int),
        decreases walkers.len() - k,
    {
        let c = walkers[k].coord;
        proof {
            assert(m.inside((ws[k as int].coord.0 as int, ws[k as int].coord.1 as int)));
        }
        let ghost before = cells(x@);
        let mut row: Vec<Field> = Vec::new();
        std::mem::swap(&mut row, &mut x[c.1]);
        row.set(c.0, Field::Path);
        let mut row = row;
        std::mem::swap(&mut row, &mut x[c.1]);
        proof {
            assert(cells(x@) =~= before.update(
                c.1 as int,
                before[c.1 as int].update(c.0 as int, Field::Path),
            ));
        }
        k += 1;
    }
    let mut k: usize = 0;
    while k < walkers.len()
        invariant
            k <= walkers.len(),
            walkers@ == ws,
            paintable(m, d),
            ws == round(m, Walker { coord: m.start, dir: d }),
            painted(traced(blank(m), ws, ws.len() as int), ws, k as int) == Some(cells(x@)),
        decreases walkers.len() - k,
    {
        proof {
            lemma_painted_so_far(
                traced(blank(m), ws, ws.len() as int),
                ws,
                k + 1,
                ws.len() as int,
            );
        }
        let i = walkers[k];
        let c = step(counterclockwise(i.dir), i.coord);
        fill(&mut x, c);
        k += 1;
    }
    x
}

/// A field that cannot be painted along the first walkers cannot be
/// painted along more of them.
proof fn lemma_painted_so_far(g: Seq<Seq<Field>>, ws: Seq<Walker>, n: int, m: int)
    requires
        n <= m,
        painted(g, ws, m) is Some,
    ensures
        painted(g, ws, n) is Some,
    decreases m - n,
{
    if n < m {
        lemma_painted_so_far(g, ws, n + 1, m);
    }
}

/// The number of touched places of a field.
pub fn count_touched(x: &Vec<Vec<Field>>) -> (r: usize)
    requires
        tally(cells(x@), x@.len() as int) <= usize::MAX,
    ensures
        r == tally(cells(x@), x@.len() as int),
{
    let mut total: usize = 0;
    let mut y: usize = 0;
    while y < x.len()
        invariant
            y <= x.len(),
            total == tally(cells(x@), y as int),
            tally(cells(x@), x@.len() as int) <= usize::MAX,
        decreases x.len() - y,
    {
        proof {
            lemma_tally_grows(cells(x@), y + 1, x@.len() as int);
            assert(cells(x@)[y as int] == x@[y as int]@);
        }
        let mut i: usize = 0;
        let ghost base = total;
        while i < x[y].len()
            invariant
                y < x.len(),
                i <= x@[y as int]@.len(),
                total == base + row_tally(x@[y as int]@, i as int),
                base + row_tally(x@[y as int]@, x@[y as int]@.len() as int) <= usize::MAX,
            decreases x@[y as int]@.len() - i,
        {
            proof {
                lemma_row_tally_grows(x@[y as int]@, i + 1, x@[y as int]@.len() as int);
            }
            match x[y][i] {
                Field::Touched => {
                    total += 1;
                },
                _ => {},
            }
            i += 1;
        }
        y += 1;
    }
    total
}

proof fn lemma_row_tally_grows(r: Seq<Field>, n: int, m: int)
    requires
        0 <= n <= m,
    ensures
        row_tally(r, n) <= row_tally(r, m),
        0 <= row_tally(r, n),
    decreases m,
{
    if n < m {
        lemma_row_tally_grows(r, n, m - 1);
    } else if n > 0 {
        lemma_row_tally_grows(r, n - 1, n - 1);
    }
}

proof fn lemma_tally_grows(g: Seq<Seq<Field>>, n: int, m: int)
    requires
        n <= m,
    ensures
        tally(g, n) <= tally(g, m),
    decreases m - n,
{
    if n < m {
        lemma_tally_grows(g, n + 1, m);
        lemma_row_tally_grows(g[n], 0, g[n].len() as int);
    }
}

/// The number of places that are touched when the field has been flooded
/// from the left of every place of the loop that leaves the starting tile
/// in direction `d`.
pub fn part2(m: &Sketch, d: Dir) -> (r: usize)
    requires
        paintable(m, d),
        tally(picture(m, d).unwrap(), picture(m, d).unwrap().len() as int) <= usize::MAX,
    ensures
        r == tally(picture(m, d).unwrap(), picture(m, d).unwrap().len() as int),
{
    let x = paint(m, d);
    count_touched(&x)
}

} // verus!
