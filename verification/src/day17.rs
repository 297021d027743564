//! A city of blocks that lose heat, through which a crucible is steered
//! that can only go so far in a straight line.
use crate::text::{digit_value, is_digit, lines, lines_of, views};
use vstd::prelude::*;

verus! {

#[derive(Clone, Copy, Debug, PartialEq, Eq, Hash, PartialOrd, Ord, Structural)]
pub enum Dir {
    Left,
    Right,
    Down,
    Up,
}

pub type Coord = (usize, usize);

pub open spec fn spec_clockwise(x: Dir) -> Dir {
    match x {
        Dir::Left => Dir::Up,
        Dir::Right => Dir::Down,
        Dir::Down => Dir::Left,
        Dir::Up => Dir::Right,
    }
}

pub open spec fn spec_opposite(x: Dir) -> Dir {
    match x {
        Dir::Left => Dir::Right,
        Dir::Right => Dir::Left,
        Dir::Down => Dir::Up,
        Dir::Up => Dir::Down,
    }
}

pub open spec fn spec_counterclockwise(x: Dir) -> Dir {
    match x {
        Dir::Left => Dir::Down,
        Dir::Right => Dir::Up,
        Dir::Down => Dir::Right,
        Dir::Up => Dir::Left,
    }
}

#[verifier::when_used_as_spec(spec_clockwise)]
pub fn clockwise(x: Dir) -> (r: Dir)
    ensures
        r == spec_clockwise(x),
{
    match x {
        Dir::Left => Dir::Up,
        Dir::Right => Dir::Down,
        Dir::Down => Dir::Left,
        Dir::Up => Dir::Right,
    }
}

#[verifier::when_used_as_spec(spec_opposite)]
pub fn opposite(x: Dir) -> (r: Dir)
    ensures
        r == spec_opposite(x),
{
    clockwise(clockwise(x))
}

#[verifier::when_used_as_spec(spec_counterclockwise)]
pub fn counterclockwise(x: Dir) -> (r: Dir)
    ensures
        r == spec_counterclockwise(x),
{
    clockwise(opposite(x))
}

/// The heat that a block loses.
pub type Tile = usize;

/// A city as plain values: the heat loss of each block, row by row, and
/// the width and height.
pub struct Plan {
    pub tiles: Seq<Seq<Tile>>,
    pub size: Coord,
}

impl Plan {
    pub open spec fn inside(&self, c: Coord) -> bool {
        c.0 < self.size.0 && c.1 < self.size.1
    }

    /// The city is a rectangle of the stated size.
    pub open spec fn wf(&self) -> bool {
        &&& self.tiles.len() == self.size.1
        &&& forall|y: int| 0 <= y < self.tiles.len() ==> (#[trigger] self.tiles[y]).len() == self.size.0
    }

    pub open spec fn at(&self, c: Coord) -> Tile {
        self.tiles[c.1 as int][c.0 as int]
    }
}

/// The city. `size` is its width and height.
#[derive(Debug)]
pub struct City {
    pub tiles: Vec<Vec<Tile>>,
    pub size: Coord,
}

impl City {
    pub open spec fn inside(&self, c: Coord) -> bool {
        c.0 < self.size.0 && c.1 < self.size.1
    }

    /// The city is a rectangle of the stated size.
    pub open spec fn wf(&self) -> bool {
        &&& self.tiles@.len() == self.size.1
        &&& forall|y: int|
            0 <= y < self.tiles@.len() ==> (#[trigger] self.tiles@[y])@.len() == self.size.0
    }

    pub open spec fn at(&self, c: Coord) -> Tile {
        self.tiles@[c.1 as int]@[c.0 as int]
    }

    /// The city as plain values.
    pub open spec fn view(&self) -> Plan {
        Plan { tiles: Seq::new(self.tiles@.len(), |y: int| self.tiles@[y]@), size: self.size }
    }

    /// The heat loss of the block at `c`.
    pub fn index(&self, c: Coord) -> (t: Tile)
        requires
            self.wf(),
            self.inside(c),
        ensures
            t == self.at(c),
    {
        self.tiles[c.1][c.0]
    }
}

/// The neighbour of `c` in direction `d` within a city of the given size.
pub open spec fn neighbour(d: Dir, c: Coord, size: Coord) -> Option<Coord> {
    match d {
        Dir::Left => if c.0 > 0 {
            Some(((c.0 - 1) as usize, c.1))
        } else {
            None
        },
        Dir::Right => if c.0 + 1 < size.0 {
            Some(((c.0 + 1) as usize, c.1))
        } else {
            None
        },
        Dir::Down => if c.1 + 1 < size.1 {
            Some((c.0, (c.1 + 1) as usize))
        } else {
            None
        },
        Dir::Up => if c.1 > 0 {
            Some((c.0, (c.1 - 1) as usize))
        } else {
            None
        },
    }
}

/// The neighbour of `c` in direction `d`, unless that would leave the city.
pub fn step(d: Dir, c: Coord, m: &City) -> (r: Option<Coord>)
    ensures
        r == neighbour(d, c, m.size),
        m.inside(c) && r is Some ==> m.inside(r.unwrap()),
{
    let (x, y) = c;
    let (mx, my) = m.size;
    match d {
        Dir::Left => if x > 0 {
            Some((x - 1, y))
        } else {
            None
        },
        Dir::Right => if mx > 0 && x < mx - 1 {
            Some((x + 1, y))
        } else {
            None
        },
        Dir::Down => if my > 0 && y < my - 1 {
            Some((x, y + 1))
        } else {
            None
        },
        Dir::Up => if y > 0 {
            Some((x, y - 1))
        } else {
            None
        },
    }
}

/// The heat loss that a digit stands for.
pub fn parse_tile(t: char) -> (r: Tile)
    requires
        crate::text::is_digit(t),
    ensures
        r == crate::text::digit_value(t),
{
    (t as u32 - 48) as usize
}

/// A state of the crucible: where it is, which way it faces, how many
/// blocks it has gone straight, the heat it has lost and an estimate of
/// what it will have lost at the goal.
#[derive(Clone, Copy, Debug, PartialEq, Eq, PartialOrd, Ord)]
pub struct Nav {
    pub total_cost: usize,
    pub temp_drop: usize,
    pub dir: Dir,
    pub coord: Coord,
    pub tiles_straight: usize,
}

/// The least and the greatest number of blocks that the crucible goes
/// straight before it turns.
pub type Turning = (usize, usize);

/// The distance to the corner of the city beyond its last block, along the
/// streets.
pub open spec fn distance(u: Coord, size: Coord) -> int {
    (size.0 - u.0) + (size.1 - u.1)
}

/// The distance along the streets to the corner beyond the last block: no
/// more than the heat that is lost on the way there.
pub fn to_end(u: Coord, m: &City) -> (r: usize)
    requires
        u.0 <= m.size.0,
        u.1 <= m.size.1,
        distance(u, m.size) <= usize::MAX,
    ensures
        r == distance(u, m.size),
{
    let (tx, ty) = m.size;
    let (x, y) = u;
    (tx - x) + (ty - y)
}

/// The state after a step in direction `dir`, if the crucible may take it:
/// it may not go straight beyond the greatest number of blocks, nor turn
/// before the least, nor leave the city.
pub open spec fn child(m: Plan, parent: Nav, dir: Dir, t: Turning) -> Option<Nav> {
    if dir == parent.dir && parent.tiles_straight >= t.1 {
        None
    } else if dir != parent.dir && parent.tiles_straight < t.0 {
        None
    } else {
        match neighbour(dir, parent.coord, m.size) {
            None => None,
            Some(coord) => Some(
                Nav {
                    coord,
                    dir,
                    tiles_straight: if parent.dir == dir {
                        (parent.tiles_straight + 1) as usize
                    } else {
                        1
                    },
                    temp_drop: (parent.temp_drop + m.at(coord)) as usize,
                    total_cost: (distance(coord, m.size) + parent.temp_drop + m.at(coord)) as usize,
                },
            ),
        }
    }
}

/// The numbers of the state after a step fit a machine word.
pub open spec fn countable(m: Plan, parent: Nav) -> bool {
    &&& parent.tiles_straight < usize::MAX
    &&& m.size.0 + m.size.1 <= usize::MAX
    &&& forall|c: Coord| #[trigger]
        m.inside(c) ==> parent.temp_drop + m.at(c) + m.size.0 + m.size.1 <= usize::MAX
}

/// The state after a step in direction `dir`, if the crucible may take it.
pub fn create(m: &City, parent: Nav, dir: Dir, t: Turning) -> (r: Option<Nav>)
    requires
        m.wf(),
        m.inside(parent.coord),
        countable(m@, parent),
    ensures
        r == child(m@, parent, dir, t),
{
    let (min, max) = t;
    if dir == parent.dir && parent.tiles_straight >= max {
        return None;
    }
    if dir != parent.dir && parent.tiles_straight < min {
        return None;
    }
    let tiles_straight = if parent.dir == dir {
        parent.tiles_straight + 1
    } else {
        1
    };
    match step(dir, parent.coord, m) {
        None => None,
        Some(coord) => {
            assert(m.inside(coord));
            assert(m@.inside(coord));
            assert(m@.at(coord) == m.at(coord));
            let temp_drop = parent.temp_drop + m.index(coord);
            let dist = to_end(coord, m);
            let total_cost = dist + temp_drop;
            Some(Nav { coord, dir, tiles_straight, temp_drop, total_cost })
        },
    }
}

/// Whether the crucible stands on the last block and may stop there.
pub fn finished(n: Nav, m: &City, t: Turning) -> (r: bool)
    ensures
        r == (m.size.0 == n.coord.0 + 1 && m.size.1 == n.coord.1 + 1 && n.tiles_straight >= t.0),
{
    let (x, y) = n.coord;
    m.size.0 > 0 && m.size.0 - 1 == x && m.size.1 > 0 && m.size.1 - 1 == y && n.tiles_straight
        >= t.0
}

/// The text has a line, and only digits in its lines.
pub open spec fn legible(text: Seq<char>) -> bool {
    let ls = lines_of(text);
    &&& ls.len() >= 1
    &&& forall|y: int, x: int| 0 <= y < ls.len() && 0 <= x < ls[y].len() ==> is_digit(#[trigger] ls[y][x])
}

/// The city that a text shows, a row to a line, as wide as its first row.
pub open spec fn plan_of(text: Seq<char>) -> Plan {
    let ls = lines_of(text);
    Plan {
        tiles: Seq::new(
            ls.len(),
            |y: int| Seq::new(ls[y].len(), |x: int| digit_value(ls[y][x]) as usize),
        ),
        size: (ls[0].len() as usize, ls.len() as usize),
    }
}

/// Reads a city, a row to a line and a block to a digit.
pub fn parse(text: &str) -> (r: City)
    requires
        legible(text@),
    ensures
        r@ == plan_of(text@),
{
    let ls = lines(text);
    let ghost rows = lines_of(text@);
    let mut tiles: Vec<Vec<Tile>> = Vec::new();
    let mut y: usize = 0;
    while y < ls.len()
        invariant
            y <= ls.len(),
            views(ls@) == rows,
            rows == lines_of(text@),
            legible(text@),
            tiles@.len() == y,
            forall|j: int|
                0 <= j < y ==> (#[trigger] tiles@[j])@ == Seq::new(
                    rows[j].len(),
                    |x: int| digit_value(rows[j][x]) as usize,
                ),
        decreases ls.len() - y,
    {
        let l = &ls[y];
        proof {
            assert(views(ls@)[y as int] == l@);
        }
        let mut row: Vec<Tile> = Vec::new();
        let mut x: usize = 0;
        while x < l.len()
            invariant
                x <= l.len(),
                y < rows.len(),
                l@ == rows[y as int],
                rows == lines_of(text@),
                legible(text@),
                row@.len() == x,
                forall|j: int| 0 <= j < x ==> #[trigger] row@[j] == digit_value(l@[j]) as usize,
            decreases l.len() - x,
        {
            proof {
                assert(is_digit(rows[y as int][x as int]));
            }
            row.push(parse_tile(l[x]));
            x += 1;
        }
        proof {
            assert(row@ =~= Seq::new(
                rows[y as int].len(),
                |x: int| digit_value(rows[y as int][x]) as usize,
            ));
        }
        tiles.push(row);
        y += 1;
    }
    let size = (tiles[0].len(), tiles.len());
    let r = City { tiles, size };
    proof {
        assert(views(ls@)[0] == ls@[0]@);
        assert(r@.tiles =~= plan_of(text@).tiles);
    }
    r
}

/// The place of a direction in the order of directions.
pub open spec fn rank(d: Dir) -> int {
    match d {
        Dir::Left => 0,
        Dir::Right => 1,
        Dir::Down => 2,
        Dir::Up => 3,
    }
}

/// The numbers by which states are ordered, the first counting most.
pub open spec fn key(n: Nav) -> Seq<int> {
    seq![
        n.total_cost as int,
        n.temp_drop as int,
        rank(n.dir),
        n.coord.0 as int,
        n.coord.1 as int,
        n.tiles_straight as int,
    ]
}

/// Whether `a` comes before `b`: by the first of the six numbers of
/// `key` in which they differ.
pub open spec fn earlier(a: Seq<int>, b: Seq<int>, from: int) -> bool
    decreases 6 - from,
{
    if from >= 6 {
        false
    } else if a[from] != b[from] {
        a[from] < b[from]
    } else {
        earlier(a, b, from + 1)
    }
}

fn dir_rank(d: Dir) -> (r: u8)
    ensures
        r == rank(d),
{
    match d {
        Dir::Left => 0,
        Dir::Right => 1,
        Dir::Down => 2,
        Dir::Up => 3,
    }
}

/// Whether the state `a` comes before the state `b`: the one with the
/// lower estimate of the whole loss first.
pub fn precedes(a: Nav, b: Nav) -> (r: bool)
    ensures
        r == earlier(key(a), key(b), 0),
{
    reveal_with_fuel(earlier, 7);
    if a.total_cost != b.total_cost {
        a.total_cost < b.total_cost
    } else if a.temp_drop != b.temp_drop {
        a.temp_drop < b.temp_drop
    } else if dir_rank(a.dir) != dir_rank(b.dir) {
        dir_rank(a.dir) < dir_rank(b.dir)
    } else if a.coord.0 != b.coord.0 {
        a.coord.0 < b.coord.0
    } else if a.coord.1 != b.coord.1 {
        a.coord.1 < b.coord.1
    } else {
        a.tiles_straight < b.tiles_straight
    }
}

/// Whether two states are the same.
pub fn same_nav(a: Nav, b: Nav) -> (r: bool)
    ensures
        r == (a == b),
{
    a.total_cost == b.total_cost && a.temp_drop == b.temp_drop && dir_rank(a.dir) == dir_rank(
        b.dir,
    ) && a.coord.0 == b.coord.0 && a.coord.1 == b.coord.1 && a.tiles_straight == b.tiles_straight
}

/// The place of the state that comes first among the first `n`.
pub open spec fn least_at(q: Seq<Nav>, n: int) -> int
    decreases n,
{
    if n <= 1 {
        0
    } else if earlier(key(q[n - 1]), key(q[least_at(q, n - 1)]), 0) {
        n - 1
    } else {
        least_at(q, n - 1)
    }
}

proof fn lemma_least_at(q: Seq<Nav>, n: int)
    requires
        1 <= n <= q.len(),
    ensures
        0 <= least_at(q, n) < n,
    decreases n,
{
    if n > 1 {
        lemma_least_at(q, n - 1);
    }
}

fn pick(q: &Vec<Nav>) -> (r: usize)
    requires
        q@.len() > 0,
    ensures
        r == least_at(q@, q@.len() as int),
        r < q@.len(),
{
    let mut best: usize = 0;
    let mut n: usize = 1;
    while n < q.len()
        invariant
            1 <= n <= q.len(),
            best == least_at(q@, n as int),
            best < n,
        decreases q.len() - n,
    {
        if precedes(q[n], q[best]) {
            best = n;
        }
        n += 1;
    }
    best
}

fn holds(q: &Vec<Nav>, c: Nav) -> (r: bool)
    ensures
        r == q@.contains(c),
{
    let mut i: usize = 0;
    while i < q.len()
        invariant
            i <= q.len(),
            forall|j: int| 0 <= j < i ==> q@[j] != c,
        decreases q.len() - i,
    {
        if same_nav(q[i], c) {
            return true;
        }
        i += 1;
    }
    false
}

/// The least heat loss with which each state was reached: where the
/// crucible was, which way it faced, and how far it had gone straight.
pub type Seen = Seq<((Coord, Dir, usize), usize)>;

/// The place of the last entry for `k`, or `-1` if there is none.
pub open spec fn seen_at(t: Seen, k: (Coord, Dir, usize)) -> int
    decreases t.len(),
{
    if t.len() == 0 {
        -1
    } else if t.last().0 == k {
        t.len() - 1
    } else {
        seen_at(t.drop_last(), k)
    }
}

fn find_seen(t: &Vec<((Coord, Dir, usize), usize)>, k: (Coord, Dir, usize)) -> (r: Option<usize>)
    ensures
        match r {
            Some(i) => i == seen_at(t@, k) && i < t@.len(),
            None => seen_at(t@, k) < 0,
        },
{
    let mut i: usize = t.len();
    proof {
        assert(t@.take(t@.len() as int) =~= t@);
    }
    while i > 0
        invariant
            i <= t.len(),
            seen_at(t@, k) == seen_at(t@.take(i as int), k),
        decreases i,
    {
        proof {
            assert(t@.take(i as int).last() == t@[i - 1]);
            assert(t@.take(i as int).drop_last() =~= t@.take(i - 1));
        }
        let e = t[i - 1].0;
        if e.0.0 == k.0.0 && e.0.1 == k.0.1 && dir_rank(e.1) == dir_rank(k.1) && e.2 == k.2 {
            return Some(i - 1);
        }
        i -= 1;
    }
    None
}

/// A search on its way: the states that have yet to be looked at, each
/// once, and what has been seen.
pub struct Hunt {
    pub queue: Seq<Nav>,
    pub visited: Seen,
}

/// The search after the crucible in state `current` has been offered the
/// step in direction `dir`: where it may take the step, and the state
/// after it was not reached with less loss before, that state is entered
/// and will be looked at.
pub open spec fn offered(m: Plan, t: Turning, h: Hunt, current: Nav, dir: Dir) -> Hunt {
    match child(m, current, dir, t) {
        None => h,
        Some(c) => {
            let k = (c.coord, c.dir, c.tiles_straight);
            let i = seen_at(h.visited, k);
            if i >= 0 && h.visited[i].1 < c.temp_drop {
                h
            } else {
                Hunt {
                    visited: if i >= 0 {
                        h.visited.update(i, (k, c.temp_drop))
                    } else {
                        h.visited.push((k, c.temp_drop))
                    },
                    queue: if h.queue.contains(c) {
                        h.queue
                    } else {
                        h.queue.push(c)
                    },
                }
            }
        },
    }
}

/// The directions that the crucible is offered: straight on, to its right
/// and to its left.
pub open spec fn turns(d: Dir) -> Seq<Dir> {
    seq![d, clockwise(d), counterclockwise(d)]
}

/// The search after the crucible has been offered the first `n` of its
/// directions.
pub open spec fn expanded(m: Plan, t: Turning, h: Hunt, current: Nav, n: int) -> Hunt
    decreases n,
{
    if n <= 0 {
        h
    } else {
        offered(m, t, expanded(m, t, h, current, n - 1), current, turns(current.dir)[n - 1])
    }
}

/// Whether the crucible stands on the last block and may stop there.
pub open spec fn arrived(n: Nav, size: Coord, t: Turning) -> bool {
    size.0 == n.coord.0 + 1 && size.1 == n.coord.1 + 1 && n.tiles_straight >= t.0
}

/// What a search does next.
pub enum Progress {
    Done(usize),
    More(Hunt),
}

/// What the search does with the state that comes first: it is done with
/// the heat lost there, if the crucible has arrived, and else goes on
/// without that state and with those that follow it. Nothing where no
/// state is left, or where the numbers of the next cannot be counted.
pub open spec fn progress(m: Plan, t: Turning, h: Hunt) -> Option<Progress> {
    if h.queue.len() == 0 {
        None
    } else {
        let i = least_at(h.queue, h.queue.len() as int);
        let current = h.queue[i];
        let rest = Hunt { queue: h.queue.remove(i), visited: h.visited };
        if arrived(current, m.size, t) {
            Some(Progress::Done(current.temp_drop))
        } else if !(m.inside(current.coord) && countable(m, current)) {
            None
        } else {
            Some(Progress::More(expanded(m, t, rest, current, 3)))
        }
    }
}

/// The heat lost when the crucible arrives, if the search is done after
/// `fuel` states at most.
#[verifier::opaque]
pub open spec fn hunted(m: Plan, t: Turning, h: Hunt, fuel: nat) -> Option<usize>
    decreases fuel,
{
    match progress(m, t, h) {
        None => None,
        Some(Progress::Done(r)) => Some(r),
        Some(Progress::More(next)) => if fuel == 0 {
            None
        } else {
            hunted(m, t, next, (fuel - 1) as nat)
        },
    }
}

/// The search arrives.
#[verifier::opaque]
pub open spec fn solvable(m: Plan, t: Turning, h: Hunt) -> bool {
    exists|fuel: nat| #[trigger] hunted(m, t, h, fuel) is Some
}

/// The least number of states after which the search is known to arrive.
#[verifier::opaque]
pub open spec fn effort(m: Plan, t: Turning, h: Hunt) -> nat {
    choose|fuel: nat|
        (#[trigger] hunted(m, t, h, fuel)) is Some && forall|f: nat|
            f < fuel ==> (#[trigger] hunted(m, t, h, f)) is None
}

/// The heat lost when the crucible arrives.
pub open spec fn heat(m: Plan, t: Turning, h: Hunt) -> usize {
    hunted(m, t, h, effort(m, t, h)).unwrap()
}

proof fn lemma_effort(m: Plan, t: Turning, h: Hunt, fuel: nat)
    requires
        hunted(m, t, h, fuel) is Some,
    ensures
        hunted(m, t, h, effort(m, t, h)) is Some,
        effort(m, t, h) <= fuel,
        solvable(m, t, h),
    decreases fuel,
{
    reveal(solvable);
    reveal(effort);
    if exists|f: nat| f < fuel && (#[trigger] hunted(m, t, h, f)) is Some {
        let f = choose|f: nat| f < fuel && (#[trigger] hunted(m, t, h, f)) is Some;
        lemma_effort(m, t, h, f);
    } else {
        assert(hunted(m, t, h, fuel) is Some && forall|f: nat|
            f < fuel ==> (#[trigger] hunted(m, t, h, f)) is None);
        if effort(m, t, h) > fuel {
            assert(hunted(m, t, h, fuel) is None);
        }
    }
}

proof fn lemma_hunted_more(m: Plan, t: Turning, h: Hunt, f: nat, g: nat)
    requires
        hunted(m, t, h, f) is Some,
        f <= g,
    ensures
        hunted(m, t, h, g) == hunted(m, t, h, f),
    decreases f,
{
    reveal(hunted);
    match progress(m, t, h) {
        Some(Progress::More(next)) => {
            if f > 0 {
                lemma_hunted_more(m, t, next, (f - 1) as nat, (g - 1) as nat);
            }
        },
        _ => {},
    }
}

/// What is known of a search that arrives, before it looks at its next
/// state.
proof fn lemma_progress(m: Plan, t: Turning, h: Hunt)
    requires
        solvable(m, t, h),
    ensures
        match progress(m, t, h) {
            None => false,
            Some(Progress::Done(r)) => heat(m, t, h) == r,
            Some(Progress::More(next)) => solvable(m, t, next) && effort(m, t, next) < effort(
                m,
                t,
                h,
            ) && heat(m, t, next) == heat(m, t, h),
        },
{
    reveal(solvable);
    let f = choose|f: nat| #[trigger] hunted(m, t, h, f) is Some;
    lemma_effort(m, t, h, f);
    let l = effort(m, t, h);
    reveal(hunted);
    match progress(m, t, h) {
        Some(Progress::More(next)) => {
            assert(hunted(m, t, h, l) == hunted(m, t, next, (l - 1) as nat));
            lemma_effort(m, t, next, (l - 1) as nat);
            lemma_hunted_more(m, t, next, effort(m, t, next), (l - 1) as nat);
        },
        _ => {},
    }
}

fn offer(
    m: &City,
    t: Turning,
    current: Nav,
    dir: Dir,
    queue: &mut Vec<Nav>,
    visited: &mut Vec<((Coord, Dir, usize), usize)>,
)
    requires
        m.wf(),
        m.inside(current.coord),
        countable(m@, current),
    ensures
        (Hunt { queue: final(queue)@, visited: final(visited)@ }) == offered(
            m@,
            t,
            Hunt { queue: old(queue)@, visited: old(visited)@ },
            current,
            dir,
        ),
{
    match create(m, current, dir, t) {
        Some(child) => {
            let k = (child.coord, child.dir, child.tiles_straight);
            let fresh = match find_seen(visited, k) {
                Some(i) => {
                    if visited[i].1 < child.temp_drop {
                        false
                    } else {
                        visited.set(i, (k, child.temp_drop));
                        true
                    }
                },
                None => {
                    visited.push((k, child.temp_drop));
                    true
                },
            };
            if fresh && !holds(queue, child) {
                queue.push(child);
            }
        },
        None => {},
    }
}

/// The search that starts in the first corner, facing right and facing
/// down.
pub open spec fn setting_out(m: Plan) -> Hunt {
    let initial = Nav {
        dir: Dir::Right,
        coord: (0, 0),
        temp_drop: 0,
        total_cost: distance((0, 0), m.size) as usize,
        tiles_straight: 0,
    };
    Hunt {
        queue: seq![
            initial,
            Nav {
                dir: Dir::Down,
                coord: (0, 0),
                temp_drop: 0,
                total_cost: distance((0, 0), m.size) as usize,
                tiles_straight: 0,
            },
        ],
        visited: Seq::empty(),
    }
}

fn hunt(m: &City, t: Turning) -> (r: usize)
    requires
        m.wf(),
        m.size.0 + m.size.1 <= usize::MAX,
        solvable(m@, t, setting_out(m@)),
    ensures
        r == heat(m@, t, setting_out(m@)),
{
    let initial = Nav {
        dir: Dir::Right,
        coord: (0, 0),
        temp_drop: 0,
        total_cost: to_end((0, 0), m),
        tiles_straight: 0,
    };
    let mut queue: Vec<Nav> = Vec::new();
    let mut visited: Vec<((Coord, Dir, usize), usize)> = Vec::new();
    queue.push(initial);
    queue.push(
        Nav {
            dir: Dir::Down,
            coord: initial.coord,
            temp_drop: initial.temp_drop,
            total_cost: initial.total_cost,
            tiles_straight: initial.tiles_straight,
        },
    );
    proof {
        assert(queue@ =~= setting_out(m@).queue);
        assert(visited@ =~= setting_out(m@).visited);
    }
    loop
        invariant
            m.wf(),
            solvable(m@, t, Hunt { queue: queue@, visited: visited@ }),
            heat(m@, t, Hunt { queue: queue@, visited: visited@ }) == heat(m@, t, setting_out(m@)),
        decreases effort(m@, t, Hunt { queue: queue@, visited: visited@ }),
    {
        let ghost h = Hunt { queue: queue@, visited: visited@ };
        proof {
            lemma_progress(m@, t, h);
        }
        let i = pick(&queue);
        let current = queue.remove(i);
        if finished(current, m, t) {
            return current.temp_drop;
        }
        let d = current.dir;
        let dirs = [d, clockwise(d), counterclockwise(d)];
        let ghost rest = Hunt { queue: queue@, visited: visited@ };
        let mut n: usize = 0;
        while n < 3
            invariant
                n <= 3,
                m.wf(),
                m.inside(current.coord),
                countable(m@, current),
                dirs@ == turns(current.dir),
                (Hunt { queue: queue@, visited: visited@ }) == expanded(
                    m@,
                    t,
                    rest,
                    current,
                    n as int,
                ),
            decreases 3 - n,
        {
            offer(m, t, current, dirs[n], &mut queue, &mut visited);
            n += 1;
        }
    }
}

/// The heat that the crucible has lost when the search finds it on the last
/// block of the city, where it goes straight for at least `t.0` and at most
/// `t.1` blocks at a time. The search starts in the first corner and looks
/// at the states in the order of their estimates, the lowest first.
pub fn solve(text: &str, t: Turning) -> (r: usize)
    requires
        legible(text@),
        plan_of(text@).wf(),
        plan_of(text@).size.0 + plan_of(text@).size.1 <= usize::MAX,
        solvable(plan_of(text@), t, setting_out(plan_of(text@))),
    ensures
        r == heat(plan_of(text@), t, setting_out(plan_of(text@))),
{
    let m = parse(text);
    proof {
        assert(m@.tiles.len() == m.tiles@.len());
        assert forall|y: int| 0 <= y < m.tiles@.len() implies (#[trigger] m.tiles@[y])@.len()
            == m.size.0 by {
            assert(m@.tiles[y] == m.tiles@[y]@);
        }
    }
    hunt(&m, t)
}

} // verus!
