//! Bricks of sand that fall until they rest on the ground or on each other.
use crate::text::{
    chars_of, lines, lines_of, parse_isize, signed_number, split, split_on, string_of, views,
    within,
};
use vstd::prelude::*;

verus! {

#[derive(Copy, Clone, Debug, PartialEq, Eq, Hash, Structural)]
pub struct Coord {
    pub x: isize,
    pub y: isize,
    pub z: isize,
}

#[derive(Clone, Copy, Debug, PartialEq, Eq, Hash, Structural)]
pub enum Axis {
    X,
    Y,
    Z,
}

#[derive(Copy, Clone, Debug, PartialEq, Eq, Hash, Structural)]
pub struct Brick {
    pub id: usize,
    pub start: Coord,
    pub end: Coord,
}

impl Coord {
    /// The coordinate along an axis.
    pub open spec fn along(self, k: Axis) -> isize {
        match k {
            Axis::X => self.x,
            Axis::Y => self.y,
            Axis::Z => self.z,
        }
    }

    /// The coordinate along an axis.
    #[verifier::when_used_as_spec(along)]
    pub fn index(self, k: Axis) -> (r: isize)
        ensures
            r == self.along(k),
    {
        match k {
            Axis::X => self.x,
            Axis::Y => self.y,
            Axis::Z => self.z,
        }
    }

    /// The coordinate with another value along an axis.
    pub open spec fn with(self, k: Axis, v: isize) -> Coord {
        match k {
            Axis::X => Coord { x: v, ..self },
            Axis::Y => Coord { y: v, ..self },
            Axis::Z => Coord { z: v, ..self },
        }
    }

    /// Sets the coordinate along an axis.
    pub fn index_mut(&mut self, k: Axis, v: isize)
        ensures
            *final(self) == old(self).with(k, v),
    {
        match k {
            Axis::X => self.x = v,
            Axis::Y => self.y = v,
            Axis::Z => self.z = v,
        }
    }
}

/// The start of one interval or its end lies in the other, or the other
/// lies within it.
pub open spec fn overlap(xs: int, xe: int, ys: int, ye: int) -> bool {
    xs <= ys && ys <= xe || xs <= ye && ye <= xe || ys <= xs && xe <= ye
}

/// `v` lies in both intervals.
pub open spec fn common(v: int, xs: int, xe: int, ys: int, ye: int) -> bool {
    xs <= v <= xe && ys <= v <= ye
}

/// Whether two intervals, each given by its first and last number, have a
/// number in common; for an interval whose ends are out of order, what the
/// test of the ends gives.
pub fn intersects(xs: isize, xe: isize, ys: isize, ye: isize) -> (r: bool)
    ensures
        r == overlap(xs as int, xe as int, ys as int, ye as int),
        xs <= xe && ys <= ye ==> (r <==> exists|v: int|
            common(v, xs as int, xe as int, ys as int, ye as int)),
{
    proof {
        if xs <= xe && ys <= ye {
            if overlap(xs as int, xe as int, ys as int, ye as int) {
                let v: int = if xs <= ys {
                    ys as int
                } else {
                    xs as int
                };
                assert(common(v, xs as int, xe as int, ys as int, ye as int));
            }
        }
    }
    xs <= ys && ys <= xe || xs <= ye && ye <= xe || ys <= xs && xe <= ye
}

/// The extents of two bricks along an axis overlap.
pub open spec fn overlap_along(a: Brick, b: Brick, k: Axis) -> bool {
    overlap(a.start.along(k) as int, a.end.along(k) as int, b.start.along(k) as int, b.end.along(k) as int)
}

pub fn intersects_axis(a: Brick, b: Brick, k: Axis) -> (r: bool)
    ensures
        r == overlap_along(a, b, k),
{
    intersects(a.start.index(k), a.end.index(k), b.start.index(k), b.end.index(k))
}

/// Two bricks of different number overlap along every axis.
pub open spec fn collide(a: Brick, b: Brick) -> bool {
    a.id != b.id && overlap_along(a, b, Axis::X) && overlap_along(a, b, Axis::Y) && overlap_along(
        a,
        b,
        Axis::Z,
    )
}

/// Whether two bricks take up a cube in common. A brick does not collide
/// with one of its own number.
pub fn collides(a: Brick, b: Brick) -> (r: bool)
    ensures
        r == collide(a, b),
{
    if a.id == b.id {
        return false;
    }
    intersects_axis(a, b, Axis::X) && intersects_axis(a, b, Axis::Y) && intersects_axis(
        a,
        b,
        Axis::Z,
    )
}

/// The brick with its ends along an axis in order.
pub open spec fn ordered_along(b: Brick, a: Axis) -> Brick {
    if b.end.along(a) >= b.start.along(a) {
        b
    } else {
        Brick { id: b.id, start: b.start.with(a, b.end.along(a)), end: b.end.with(a, b.start.along(a)) }
    }
}

/// Puts the ends of a brick along an axis in order.
pub fn normalize_axis(b: &mut Brick, a: Axis)
    ensures
        *final(b) == ordered_along(*old(b), a),
{
    let s = b.start.index(a);
    let e = b.end.index(a);
    if e >= s {
        return ;
    }
    b.start.index_mut(a, e);
    b.end.index_mut(a, s);
}

/// The brick with its ends in order along every axis.
pub fn normalize(b: Brick) -> (r: Brick)
    ensures
        r == ordered_along(ordered_along(ordered_along(b, Axis::X), Axis::Y), Axis::Z),
{
    let mut b = b;
    normalize_axis(&mut b, Axis::X);
    normalize_axis(&mut b, Axis::Y);
    normalize_axis(&mut b, Axis::Z);
    b
}

/// Whether the brick lies below the ground.
pub fn inside_grass(x: Brick) -> (r: bool)
    ensures
        r == (x.end.z < 0),
{
    x.end.z < 0
}

/// The brick `alt` higher.
pub open spec fn lifted(x: Brick, alt: int) -> Brick {
    Brick {
        id: x.id,
        start: Coord { z: (x.start.z + alt) as isize, ..x.start },
        end: Coord { z: (x.end.z + alt) as isize, ..x.end },
    }
}

/// The brick `alt` higher.
pub fn move_vertically(x: Brick, alt: isize) -> (r: Brick)
    requires
        isize::MIN <= x.start.z + alt <= isize::MAX,
        isize::MIN <= x.end.z + alt <= isize::MAX,
    ensures
        r == lifted(x, alt as int),
{
    let mut r = x;
    r.start.z += alt;
    r.end.z += alt;
    r
}

/// Whether the brick collides with any of the bricks.
pub fn collides_with_any(bricks: &Vec<Brick>, down: Brick) -> (r: bool)
    ensures
        r == exists|i: int| 0 <= i < bricks@.len() && collide(down, #[trigger] bricks@[i]),
{
    let mut i: usize = 0;
    while i < bricks.len()
        invariant
            i <= bricks.len(),
            forall|j: int| 0 <= j < i ==> !collide(down, #[trigger] bricks@[j]),
        decreases bricks.len() - i,
    {
        if collides(down, bricks[i]) {
            return true;
        }
        i += 1;
    }
    false
}

/// The numbers of the bricks with which the brick collides, in the order of
/// the bricks.
pub open spec fn colliding(bricks: Seq<Brick>, down: Brick) -> Seq<usize>
    decreases bricks.len(),
{
    if bricks.len() == 0 {
        Seq::empty()
    } else if collide(down, bricks.last()) {
        colliding(bricks.drop_last(), down).push(bricks.last().id)
    } else {
        colliding(bricks.drop_last(), down)
    }
}

/// The numbers of the bricks with which the brick collides.
pub fn collisions(bricks: &Vec<Brick>, down: Brick) -> (r: Vec<usize>)
    ensures
        r@ == colliding(bricks@, down),
{
    let mut out: Vec<usize> = Vec::new();
    let mut i: usize = 0;
    proof {
        assert(bricks@.take(0) =~= Seq::<Brick>::empty());
    }
    while i < bricks.len()
        invariant
            i <= bricks.len(),
            out@ == colliding(bricks@.take(i as int), down),
        decreases bricks.len() - i,
    {
        proof {
            assert(bricks@.take(i + 1).drop_last() =~= bricks@.take(i as int));
            assert(bricks@.take(i + 1).last() == bricks@[i as int]);
        }
        if collides(down, bricks[i]) {
            out.push(bricks[i].id);
        }
        i += 1;
    }
    proof {
        assert(bricks@.take(bricks@.len() as int) =~= bricks@);
    }
    out
}

/// The number that a word writes, if it is one that fits a machine word.
pub open spec fn number(w: Seq<char>) -> Option<int> {
    within(signed_number(w), isize::MIN as int, isize::MAX as int)
}

/// The coordinate that three numbers between commas write.
pub open spec fn coord(l: Seq<char>) -> Option<Coord> {
    let p = split(l, seq![',']);
    if p.len() == 3 && number(p[0]) is Some && number(p[1]) is Some && number(p[2]) is Some {
        Some(
            Coord {
                x: number(p[0]).unwrap() as isize,
                y: number(p[1]).unwrap() as isize,
                z: number(p[2]).unwrap() as isize,
            },
        )
    } else {
        None
    }
}

/// The brick that two coordinates on both sides of a tilde describe, its
/// ends in order.
pub open spec fn brick(id: usize, l: Seq<char>) -> Option<Brick> {
    let p = split(l, seq!['~']);
    if p.len() == 2 && coord(p[0]) is Some && coord(p[1]) is Some {
        Some(
            ordered_along(
                ordered_along(
                    ordered_along(
                        Brick { id, start: coord(p[0]).unwrap(), end: coord(p[1]).unwrap() },
                        Axis::X,
                    ),
                    Axis::Y,
                ),
                Axis::Z,
            ),
        )
    } else {
        None
    }
}

fn coord_of(l: &Vec<char>) -> (r: Option<Coord>)
    ensures
        r == coord(l@),
{
    let p = split_on(l, ',');
    if p.len() != 3 {
        return None;
    }
    assert(views(p@)[0] == p@[0]@ && views(p@)[1] == p@[1]@ && views(p@)[2] == p@[2]@);
    match (parse_isize(&p[0]), parse_isize(&p[1]), parse_isize(&p[2])) {
        (Some(x), Some(y), Some(z)) => Some(Coord { x, y, z }),
        _ => None,
    }
}

/// Reads a coordinate.
pub fn parse_coord(l: &str) -> (r: Coord)
    requires
        coord(l@) is Some,
    ensures
        Some(r) == coord(l@),
{
    match coord_of(&chars_of(l)) {
        Some(c) => c,
        None => Coord { x: 0, y: 0, z: 0 },
    }
}

/// Reads a brick and gives it a number.
pub fn parse_brick(line: (usize, &str)) -> (r: Brick)
    requires
        brick(line.0, line.1@) is Some,
    ensures
        Some(r) == brick(line.0, line.1@),
{
    let (id, l) = line;
    let c = chars_of(l);
    let p = split_on(&c, '~');
    assert(views(p@)[0] == p@[0]@ && views(p@)[1] == p@[1]@);
    match (coord_of(&p[0]), coord_of(&p[1])) {
        (Some(start), Some(end)) => normalize(Brick { start, end, id }),
        _ => Brick { id, start: Coord { x: 0, y: 0, z: 0 }, end: Coord { x: 0, y: 0, z: 0 } },
    }
}

/// How far a brick can still fall: the height of its upper end above the
/// ground.
pub open spec fn room(b: Brick) -> int {
    if b.end.z > 0 {
        b.end.z as int
    } else {
        0
    }
}

/// How far all bricks together can still fall.
pub open spec fn rooms(bs: Seq<Brick>) -> int
    decreases bs.len(),
{
    if bs.len() == 0 {
        0
    } else {
        rooms(bs.drop_last()) + room(bs.last())
    }
}

pub proof fn lemma_rooms_nonnegative(bs: Seq<Brick>)
    ensures
        0 <= rooms(bs),
    decreases bs.len(),
{
    if bs.len() > 0 {
        lemma_rooms_nonnegative(bs.drop_last());
    }
}

pub proof fn lemma_rooms_update(bs: Seq<Brick>, i: int, b: Brick)
    requires
        0 <= i < bs.len(),
    ensures
        rooms(bs.update(i, b)) == rooms(bs) - room(bs[i]) + room(b),
    decreases bs.len(),
{
    if i == bs.len() - 1 {
        assert(bs.update(i, b).drop_last() =~= bs.drop_last());
    } else {
        assert(bs.update(i, b).drop_last() =~= bs.drop_last().update(i, b));
        lemma_rooms_update(bs.drop_last(), i, b);
    }
}

/// The brick can fall as far as its room without leaving the numbers of a
/// machine word.
pub open spec fn falls_safely(b: Brick) -> bool {
    b.end.z > isize::MIN && b.start.z - room(b) > isize::MIN
}

/// The brick cannot fall: one step lower it would lie below the ground or
/// collide with another brick.
pub open spec fn rests(bs: Seq<Brick>, b: Brick) -> bool {
    lifted(b, -1).end.z < 0 || exists|j: int| 0 <= j < bs.len() && collide(lifted(b, -1), #[trigger] bs[j])
}

/// The brick `b` is the brick `a` at the same height or lower.
pub open spec fn fallen(a: Brick, b: Brick) -> bool {
    &&& b.id == a.id
    &&& b.start.x == a.start.x
    &&& b.start.y == a.start.y
    &&& b.end.x == a.end.x
    &&& b.end.y == a.end.y
    &&& b.end.z <= a.end.z
    &&& a.start.z - b.start.z == a.end.z - b.end.z
}

/// Lets the bricks fall: as long as one can fall a step, each in turn that
/// can falls a step. In the end every brick rests, each straight below
/// where it was.
pub fn fall(x: Vec<Brick>) -> (r: Vec<Brick>)
    requires
        forall|i: int| 0 <= i < x@.len() ==> falls_safely(#[trigger] x@[i]),
    ensures
        r@.len() == x@.len(),
        forall|i: int| 0 <= i < r@.len() ==> fallen(x@[i], #[trigger] r@[i]),
        forall|i: int| 0 <= i < r@.len() ==> rests(r@, #[trigger] r@[i]),
{
    let ghost first = x@;
    let mut bricks = x;
    proof {
        lemma_rooms_nonnegative(bricks@);
    }
    loop
        invariant
            first == x@,
            bricks@.len() == first.len(),
            forall|i: int| 0 <= i < first.len() ==> falls_safely(#[trigger] bricks@[i]),
            forall|i: int| 0 <= i < first.len() ==> fallen(first[i], #[trigger] bricks@[i]),
            0 <= rooms(bricks@),
        decreases rooms(bricks@),
    {
        let mut moved = false;
        let ghost start = bricks@;
        let mut i: usize = 0;
        while i < bricks.len()
            invariant
                i <= bricks.len(),
                bricks@.len() == first.len(),
                forall|i: int| 0 <= i < first.len() ==> falls_safely(#[trigger] bricks@[i]),
                forall|i: int| 0 <= i < first.len() ==> fallen(first[i], #[trigger] bricks@[i]),
                0 <= rooms(bricks@),
                moved ==> rooms(bricks@) < rooms(start),
                !moved ==> bricks@ == start && forall|j: int|
                    0 <= j < i ==> rests(bricks@, #[trigger] bricks@[j]),
            decreases bricks.len() - i,
        {
            let current = bricks[i];
            assert(falls_safely(bricks@[i as int]));
            assert(fallen(first[i as int], bricks@[i as int]));
            let down = move_vertically(current, -1);
            if !(inside_grass(down) || collides_with_any(&bricks, down)) {
                proof {
                    lemma_rooms_update(bricks@, i as int, down);
                    lemma_rooms_nonnegative(bricks@.update(i as int, down));
                }
                moved = true;
                bricks[i] = down;
            }
            i += 1;
        }
        if !moved {
            return bricks;
        }
    }
}

/// Every line is a brick.
pub open spec fn legible(ls: Seq<Seq<char>>) -> bool {
    forall|k: int| 0 <= k < ls.len() ==> brick(k as usize, #[trigger] ls[k]) is Some
}

/// Reads bricks, one from each line, and numbers them from zero.
pub fn parse(f: &str) -> (r: Vec<Brick>)
    requires
        legible(lines_of(f@)),
    ensures
        r@.len() == lines_of(f@).len(),
        forall|k: int| 0 <= k < r@.len() ==> Some(#[trigger] r@[k]) == brick(k as usize, lines_of(f@)[k]),
{
    let ls = lines(f);
    let ghost all = lines_of(f@);
    let mut out: Vec<Brick> = Vec::new();
    let mut i: usize = 0;
    while i < ls.len()
        invariant
            i <= ls.len(),
            all == views(ls@),
            legible(all),
            out@.len() == i,
            forall|k: int| 0 <= k < i ==> Some(#[trigger] out@[k]) == brick(k as usize, all[k]),
        decreases ls.len() - i,
    {
        assert(all[i as int] == ls@[i as int]@);
        assert(brick(i, all[i as int]) is Some);
        let text = string_of(&ls[i]);
        out.push(parse_brick((i, text.as_str())));
        i += 1;
    }
    out
}

/// The numbers of a list without repetitions: of each the first.
pub open spec fn distinct(s: Seq<usize>) -> Seq<usize>
    decreases s.len(),
{
    if s.len() == 0 {
        Seq::empty()
    } else if s.drop_last().contains(s.last()) {
        distinct(s.drop_last())
    } else {
        distinct(s.drop_last()).push(s.last())
    }
}

/// Whether the list holds the number.
pub fn holds(v: &Vec<usize>, x: usize) -> (r: bool)
    ensures
        r == v@.contains(x),
{
    let mut i: usize = 0;
    while i < v.len()
        invariant
            i <= v.len(),
            forall|j: int| 0 <= j < i ==> v@[j] != x,
        decreases v.len() - i,
    {
        if v[i] == x {
            return true;
        }
        i += 1;
    }
    false
}

pub proof fn lemma_distinct_contains(s: Seq<usize>, x: usize)
    ensures
        distinct(s).contains(x) <==> s.contains(x),
    decreases s.len(),
{
    if s.len() > 0 {
        let t = s.drop_last();
        lemma_distinct_contains(t, x);
        let f = distinct(s);
        if s.contains(x) {
            let i = choose|i: int| 0 <= i < s.len() && s[i] == x;
            if i < t.len() {
                assert(t[i] == x);
            }
        }
        if t.contains(x) {
            let i = choose|i: int| 0 <= i < t.len() && t[i] == x;
            assert(s[i] == x);
        }
        if !t.contains(s.last()) {
            if f.contains(x) {
                let i = choose|i: int| 0 <= i < f.len() && f[i] == x;
                if i < distinct(t).len() {
                    assert(distinct(t)[i] == x);
                }
            }
            if distinct(t).contains(x) {
                let i = choose|i: int| 0 <= i < distinct(t).len() && distinct(t)[i] == x;
                assert(f[i] == x);
            }
            assert(f[f.len() - 1] == s.last());
        }
        assert(s[s.len() - 1] == s.last());
    }
}

/// The numbers of a list without repetitions.
pub fn dedup(v: &Vec<usize>) -> (r: Vec<usize>)
    ensures
        r@ == distinct(v@),
{
    let mut out: Vec<usize> = Vec::new();
    let mut i: usize = 0;
    proof {
        assert(v@.take(0) =~= Seq::<usize>::empty());
    }
    while i < v.len()
        invariant
            i <= v.len(),
            out@ == distinct(v@.take(i as int)),
        decreases v.len() - i,
    {
        proof {
            assert(v@.take(i + 1).drop_last() =~= v@.take(i as int));
            assert(v@.take(i + 1).last() == v@[i as int]);
            lemma_distinct_contains(v@.take(i as int), v@[i as int]);
        }
        if !holds(&out, v[i]) {
            out.push(v[i]);
        }
        i += 1;
    }
    proof {
        assert(v@.take(v@.len() as int) =~= v@);
    }
    out
}

/// What holds a brick and what it holds: for each brick its number, the
/// numbers of the bricks on it and the numbers of the bricks under it.
pub type Dependencies = Vec<(usize, Vec<usize>, Vec<usize>)>;

/// The dependencies as plain values.
pub open spec fn deps(d: Seq<(usize, Vec<usize>, Vec<usize>)>) -> Seq<(usize, Seq<usize>, Seq<usize>)> {
    Seq::new(d.len(), |i: int| (d[i].0, d[i].1@, d[i].2@))
}

/// Every brick can be lifted and lowered by one within a machine word.
pub open spec fn movable(bs: Seq<Brick>) -> bool {
    forall|i: int|
        0 <= i < bs.len() ==> isize::MIN < (#[trigger] bs[i]).start.z < isize::MAX && isize::MIN
            < bs[i].end.z < isize::MAX
}

/// For each brick the bricks with which it collides one step higher, and
/// those with which it collides one step lower.
pub fn make_graph(bricks: Vec<Brick>) -> (r: Dependencies)
    requires
        movable(bricks@),
    ensures
        deps(r@) == Seq::new(
            bricks@.len(),
            |k: int|
                (
                    bricks@[k].id,
                    distinct(colliding(bricks@, lifted(bricks@[k], 1))),
                    distinct(colliding(bricks@, lifted(bricks@[k], -1))),
                ),
        ),
{
    let mut out: Dependencies = Vec::new();
    let mut k: usize = 0;
    while k < bricks.len()
        invariant
            k <= bricks.len(),
            movable(bricks@),
            out@.len() == k,
            forall|j: int|
                0 <= j < k ==> #[trigger] deps(out@)[j] == (
                    bricks@[j].id,
                    distinct(colliding(bricks@, lifted(bricks@[j], 1))),
                    distinct(colliding(bricks@, lifted(bricks@[j], -1))),
                ),
        decreases bricks.len() - k,
    {
        let brick = bricks[k];
        assert(isize::MIN < bricks@[k as int].start.z < isize::MAX);
        let below = dedup(&collisions(&bricks, move_vertically(brick, -1)));
        let above = dedup(&collisions(&bricks, move_vertically(brick, 1)));
        let ghost before = deps(out@);
        out.push((brick.id, above, below));
        proof {
            assert forall|j: int| 0 <= j < k + 1 implies #[trigger] deps(out@)[j] == (
                bricks@[j].id,
                distinct(colliding(bricks@, lifted(bricks@[j], 1))),
                distinct(colliding(bricks@, lifted(bricks@[j], -1))),
            ) by {
                if j < k {
                    assert(deps(out@)[j] == before[j]);
                }
            }
        }
        k += 1;
    }
    assert(deps(out@) =~= Seq::new(
        bricks@.len(),
        |k: int|
            (
                bricks@[k].id,
                distinct(colliding(bricks@, lifted(bricks@[k], 1))),
                distinct(colliding(bricks@, lifted(bricks@[k], -1))),
            ),
    ));
    out
}

/// The brick with the number `i` alone holds one of the first `n` bricks.
pub open spec fn sole_support(bs: Seq<Brick>, i: usize, n: int) -> bool {
    exists|k: int| 0 <= k < n && #[trigger] colliding(bs, lifted(bs[k], -1)) == seq![i]
}

/// The number of the first `n` bricks that bring a new number and can be
/// taken away: that are not alone in holding a brick.
pub open spec fn removable(bs: Seq<Brick>, n: int) -> int
    decreases n,
{
    if n <= 0 {
        0
    } else {
        removable(bs, n - 1) + if !(exists|j: int| 0 <= j < n - 1 && (#[trigger] bs[j]).id == bs[n
            - 1].id) && !sole_support(bs, bs[n - 1].id, bs.len() as int) {
            1int
        } else {
            0
        }
    }
}

/// The number of bricks that can be taken away without another brick
/// falling.
pub fn part1(bricks: Vec<Brick>) -> (r: usize)
    requires
        movable(bricks@),
    ensures
        r == removable(bricks@, bricks@.len() as int),
{
    let n = bricks.len();
    let mut sole: Vec<usize> = Vec::new();
    let mut k: usize = 0;
    while k < n
        invariant
            k <= n,
            n == bricks@.len(),
            movable(bricks@),
            forall|i: usize| sole@.contains(i) <==> #[trigger] sole_support(bricks@, i, k as int),
        decreases n - k,
    {
        let brick = bricks[k];
        assert(isize::MIN < bricks@[k as int].start.z < isize::MAX);
        let supports = collisions(&bricks, move_vertically(brick, -1));
        let ghost before = sole@;
        if supports.len() == 1 {
            let s = supports[0];
            sole.push(s);
            proof {
                assert(supports@ =~= seq![s]);
                assert forall|i: usize| sole@.contains(i) <==> #[trigger] sole_support(
                    bricks@,
                    i,
                    k + 1,
                ) by {
                    if sole@.contains(i) {
                        let a = choose|a: int| 0 <= a < sole@.len() && sole@[a] == i;
                        if a < before.len() {
                            assert(before[a] == i);
                            assert(sole_support(bricks@, i, k as int));
                            let w = choose|w: int|
                                0 <= w < k && #[trigger] colliding(
                                    bricks@,
                                    lifted(bricks@[w], -1),
                                ) == seq![i];
                            assert(colliding(bricks@, lifted(bricks@[w], -1)) == seq![i]);
                        } else {
                            assert(colliding(bricks@, lifted(bricks@[k as int], -1)) == seq![i]);
                        }
                    }
                    if sole_support(bricks@, i, k + 1) {
                        let w = choose|w: int|
                            0 <= w < k + 1 && #[trigger] colliding(
                                bricks@,
                                lifted(bricks@[w], -1),
                            ) == seq![i];
                        if w < k {
                            assert(sole_support(bricks@, i, k as int));
                            let a = choose|a: int| 0 <= a < before.len() && before[a] == i;
                            assert(sole@[a] == i);
                        } else {
                            assert(seq![i][0] == seq![s][0]);
                            assert(sole@[sole@.len() - 1] == i);
                        }
                    }
                }
            }
        } else {
            proof {
                assert forall|i: usize| sole@.contains(i) <==> #[trigger] sole_support(
                    bricks@,
                    i,
                    k + 1,
                ) by {
                    if sole@.contains(i) {
                        assert(sole_support(bricks@, i, k as int));
                        let w = choose|w: int|
                            0 <= w < k && #[trigger] colliding(bricks@, lifted(bricks@[w], -1))
                                == seq![i];
                        assert(colliding(bricks@, lifted(bricks@[w], -1)) == seq![i]);
                    }
                    if sole_support(bricks@, i, k + 1) {
                        let w = choose|w: int|
                            0 <= w < k + 1 && #[trigger] colliding(
                                bricks@,
                                lifted(bricks@[w], -1),
                            ) == seq![i];
                        if w == k {
                            assert(seq![i].len() == 1);
                        }
                        assert(sole_support(bricks@, i, k as int));
                    }
                }
            }
        }
        k += 1;
    }
    let mut ids: Vec<usize> = Vec::new();
    let mut count: usize = 0;
    let mut p: usize = 0;
    while p < n
        invariant
            p <= n,
            n == bricks@.len(),
            count <= p,
            forall|i: usize| sole@.contains(i) <==> #[trigger] sole_support(bricks@, i, n as int),
            forall|i: usize|
                ids@.contains(i) <==> exists|j: int| 0 <= j < p && (#[trigger] bricks@[j]).id == i,
            count == removable(bricks@, p as int),
        decreases n - p,
    {
        let id = bricks[p].id;
        let ghost before = ids@;
        let fresh = !holds(&ids, id);
        if fresh {
            if !holds(&sole, id) {
                count += 1;
            }
            ids.push(id);
        }
        proof {
            assert forall|i: usize|
                ids@.contains(i) <==> exists|j: int|
                    0 <= j < p + 1 && (#[trigger] bricks@[j]).id == i by {
                if ids@.contains(i) {
                    let a = choose|a: int| 0 <= a < ids@.len() && ids@[a] == i;
                    if a < before.len() {
                        assert(before[a] == i);
                        assert(before.contains(i));
                        let j = choose|j: int| 0 <= j < p && (#[trigger] bricks@[j]).id == i;
                        assert(bricks@[j].id == i);
                    } else {
                        assert(bricks@[p as int].id == i);
                    }
                }
                if exists|j: int| 0 <= j < p + 1 && (#[trigger] bricks@[j]).id == i {
                    let j = choose|j: int| 0 <= j < p + 1 && (#[trigger] bricks@[j]).id == i;
                    if j < p {
                        assert(before.contains(i));
                        let a = choose|a: int| 0 <= a < before.len() && before[a] == i;
                        if fresh {
                            assert(ids@[a] == i);
                        }
                    } else {
                        if fresh {
                            assert(ids@[ids@.len() - 1] == i);
                        }
                    }
                }
            }
        }
        p += 1;
    }
    count
}

/// Dependencies as plain values: for each brick its number, the numbers of
/// the bricks on it and the numbers of the bricks under it.
pub type Graph = Seq<(usize, Seq<usize>, Seq<usize>)>;

/// The place of the last entry for the brick with the number `id`, or `-1`
/// if there is none.
pub open spec fn entry(d: Graph, id: usize) -> int
    decreases d.len(),
{
    if d.len() == 0 {
        -1
    } else if d.last().0 == id {
        d.len() - 1
    } else {
        entry(d.drop_last(), id)
    }
}

/// The list without the number `x`.
pub open spec fn without(s: Seq<usize>, x: usize) -> Seq<usize>
    decreases s.len(),
{
    if s.len() == 0 {
        Seq::empty()
    } else if s.last() == x {
        without(s.drop_last(), x)
    } else {
        without(s.drop_last(), x).push(s.last())
    }
}

/// What the disintegration of the brick `current` does to the first `k` of
/// the bricks on it: each loses `current` from under it and is queued if
/// nothing is left under it. Nothing if a brick has no entry.
#[verifier::opaque]
pub open spec fn stripped(
    d: Graph,
    queue: Seq<usize>,
    current: usize,
    aboves: Seq<usize>,
    k: int,
) -> Option<(Graph, Seq<usize>)>
    decreases k,
{
    if k <= 0 {
        Some((d, queue))
    } else {
        match stripped(d, queue, current, aboves, k - 1) {
            None => None,
            Some((d1, q1)) => {
                let above = aboves[k - 1];
                let c = entry(d1, current);
                if c < 0 {
                    None
                } else {
                    let d2 = d1.update(c, (d1[c].0, d1[c].1, without(d1[c].2, above)));
                    let a = entry(d2, above);
                    if a < 0 {
                        None
                    } else {
                        let d3 = d2.update(a, (d2[a].0, d2[a].1, without(d2[a].2, current)));
                        Some(
                            (
                                d3,
                                if d3[a].2.len() == 0 {
                                    q1.push(above)
                                } else {
                                    q1
                                },
                            ),
                        )
                    }
                }
            },
        }
    }
}

/// What the disintegration of the first brick of the queue does.
pub open spec fn popped(d: Graph, queue: Seq<usize>) -> Option<(Graph, Seq<usize>)> {
    let current = queue[0];
    let c = entry(d, current);
    if c < 0 {
        None
    } else {
        stripped(d, queue.drop_first(), current, d[c].1, d[c].1.len() as int)
    }
}

/// The number of bricks that disintegrate after the first, where `ctr` have
/// disintegrated and those of the queue are to follow, if it is known
/// after `fuel` bricks.
#[verifier::opaque]
pub open spec fn chain(d: Graph, queue: Seq<usize>, ctr: int, fuel: nat) -> Option<int>
    decreases fuel,
{
    if queue.len() == 0 {
        Some(ctr - 1)
    } else if fuel == 0 {
        None
    } else {
        match popped(d, queue) {
            None => None,
            Some((d1, q1)) => chain(d1, q1, ctr + 1, (fuel - 1) as nat),
        }
    }
}

/// The chain of disintegrations comes to an end.
#[verifier::opaque]
pub open spec fn ends(d: Graph, queue: Seq<usize>, ctr: int) -> bool {
    exists|fuel: nat| #[trigger] chain(d, queue, ctr, fuel) is Some
}

/// The least number of bricks after which the chain is known to end.
#[verifier::opaque]
pub open spec fn least(d: Graph, queue: Seq<usize>, ctr: int) -> nat {
    choose|fuel: nat|
        (#[trigger] chain(d, queue, ctr, fuel)) is Some && forall|g: nat|
            g < fuel ==> (#[trigger] chain(d, queue, ctr, g)) is None
}

pub proof fn lemma_least_exists(d: Graph, queue: Seq<usize>, ctr: int, fuel: nat)
    requires
        chain(d, queue, ctr, fuel) is Some,
    ensures
        chain(d, queue, ctr, least(d, queue, ctr)) is Some,
        least(d, queue, ctr) <= fuel,
        forall|g: nat| g < least(d, queue, ctr) ==> (#[trigger] chain(d, queue, ctr, g)) is None,
        ends(d, queue, ctr),
    decreases fuel,
{
    reveal(ends);
    reveal(least);
    if exists|g: nat| g < fuel && (#[trigger] chain(d, queue, ctr, g)) is Some {
        let g = choose|g: nat| g < fuel && (#[trigger] chain(d, queue, ctr, g)) is Some;
        lemma_least_exists(d, queue, ctr, g);
    } else {
        assert(chain(d, queue, ctr, fuel) is Some && forall|g: nat|
            g < fuel ==> (#[trigger] chain(d, queue, ctr, g)) is None);
        let l = least(d, queue, ctr);
        if l > fuel {
            assert(chain(d, queue, ctr, fuel) is None);
        }
    }
}

/// The number of bricks that disintegrate after the brick with the number
/// `b`: a brick that disintegrates is taken from under the bricks on it,
/// and each of them under which nothing is left disintegrates in its turn.
#[verifier::opaque]
pub open spec fn impact(d: Graph, b: usize) -> int {
    chain(d, seq![b], 0, least(d, seq![b], 0)).unwrap()
}

fn find(d: &Dependencies, id: usize) -> (r: Option<usize>)
    ensures
        match r {
            Some(i) => i == entry(deps(d@), id) && i < d@.len(),
            None => entry(deps(d@), id) < 0,
        },
{
    let mut i: usize = d.len();
    proof {
        assert(deps(d@).take(d@.len() as int) =~= deps(d@));
    }
    while i > 0
        invariant
            i <= d.len(),
            entry(deps(d@), id) == entry(deps(d@).take(i as int), id),
        decreases i,
    {
        proof {
            let t = deps(d@).take(i as int);
            assert(t.last() == deps(d@)[i - 1]);
            assert(t.drop_last() =~= deps(d@).take(i - 1));
        }
        if d[i - 1].0 == id {
            return Some(i - 1);
        }
        i -= 1;
    }
    None
}

fn remove_from(v: &Vec<usize>, x: usize) -> (r: Vec<usize>)
    ensures
        r@ == without(v@, x),
{
    let mut out: Vec<usize> = Vec::new();
    let mut i: usize = 0;
    proof {
        assert(v@.take(0) =~= Seq::<usize>::empty());
    }
    while i < v.len()
        invariant
            i <= v.len(),
            out@ == without(v@.take(i as int), x),
        decreases v.len() - i,
    {
        proof {
            assert(v@.take(i + 1).drop_last() =~= v@.take(i as int));
            assert(v@.take(i + 1).last() == v@[i as int]);
        }
        if v[i] != x {
            out.push(v[i]);
        }
        i += 1;
    }
    proof {
        assert(v@.take(v@.len() as int) =~= v@);
    }
    out
}

fn copy_list(v: &Vec<usize>) -> (r: Vec<usize>)
    ensures
        r@ == v@,
{
    let mut out: Vec<usize> = Vec::new();
    let mut i: usize = 0;
    while i < v.len()
        invariant
            i <= v.len(),
            out@ == v@.take(i as int),
        decreases v.len() - i,
    {
        out.push(v[i]);
        assert(v@.take(i + 1) =~= v@.take(i as int).push(v@[i as int]));
        i += 1;
    }
    assert(v@.take(v@.len() as int) =~= v@);
    out
}

fn copy_graph(d: &Dependencies) -> (r: Dependencies)
    ensures
        deps(r@) == deps(d@),
{
    let mut out: Dependencies = Vec::new();
    let mut i: usize = 0;
    while i < d.len()
        invariant
            i <= d.len(),
            out@.len() == i,
            forall|j: int| 0 <= j < i ==> #[trigger] deps(out@)[j] == deps(d@)[j],
        decreases d.len() - i,
    {
        let ghost before = deps(out@);
        out.push((d[i].0, copy_list(&d[i].1), copy_list(&d[i].2)));
        proof {
            assert forall|j: int| 0 <= j < i + 1 implies #[trigger] deps(out@)[j] == deps(d@)[j] by {
                if j < i {
                    assert(deps(out@)[j] == before[j]);
                }
            }
        }
        i += 1;
    }
    assert(deps(out@) =~= deps(d@));
    out
}

fn lose(d: &mut Dependencies, at: usize, x: usize)
    requires
        at < old(d)@.len(),
    ensures
        deps(final(d)@) == deps(old(d)@).update(
            at as int,
            (
                deps(old(d)@)[at as int].0,
                deps(old(d)@)[at as int].1,
                without(deps(old(d)@)[at as int].2, x),
            ),
        ),
        final(d)@.len() == old(d)@.len(),
{
    let ghost before = deps(d@);
    let mut e: (usize, Vec<usize>, Vec<usize>) = (0, Vec::new(), Vec::new());
    std::mem::swap(&mut e, &mut d[at]);
    assert((e.0, e.1@, e.2@) == before[at as int]);
    let rest = remove_from(&e.2, x);
    d[at] = (e.0, e.1, rest);
    assert(deps(d@) =~= before.update(
        at as int,
        (before[at as int].0, before[at as int].1, without(before[at as int].2, x)),
    ));
}

/// Where all of the bricks on the disintegrating brick can be stripped,
/// the first of them can.
pub proof fn lemma_stripped_prefix(
    d: Graph,
    queue: Seq<usize>,
    current: usize,
    aboves: Seq<usize>,
    k: int,
    n: int,
)
    requires
        0 <= k <= n,
        stripped(d, queue, current, aboves, n) is Some,
    ensures
        stripped(d, queue, current, aboves, k) is Some,
    decreases n - k,
{
    reveal(stripped);
    if k < n {
        lemma_stripped_prefix(d, queue, current, aboves, k + 1, n);
    }
}

/// A chain that is known to end after some bricks ends the same after
/// more, and no fewer bricks have disintegrated in the end than so far.
pub proof fn lemma_chain_more(d: Graph, queue: Seq<usize>, ctr: int, f: nat, g: nat)
    requires
        chain(d, queue, ctr, f) is Some,
        f <= g,
    ensures
        chain(d, queue, ctr, g) == chain(d, queue, ctr, f),
        chain(d, queue, ctr, f).unwrap() >= ctr - 1,
        queue.len() > 0 ==> chain(d, queue, ctr, f).unwrap() >= ctr,
    decreases f,
{
    reveal(chain);
    if queue.len() > 0 && f > 0 {
        let s = popped(d, queue).unwrap();
        lemma_chain_more(s.0, s.1, ctr + 1, (f - 1) as nat, (g - 1) as nat);
    }
}

/// What is known of a chain that ends when its next brick disintegrates.
pub proof fn lemma_pop(d: Graph, queue: Seq<usize>, ctr: int)
    requires
        ends(d, queue, ctr),
        queue.len() > 0,
    ensures
        popped(d, queue) is Some,
        ends(popped(d, queue).unwrap().0, popped(d, queue).unwrap().1, ctr + 1),
        least(popped(d, queue).unwrap().0, popped(d, queue).unwrap().1, ctr + 1) < least(
            d,
            queue,
            ctr,
        ),
        chain(
            popped(d, queue).unwrap().0,
            popped(d, queue).unwrap().1,
            ctr + 1,
            least(popped(d, queue).unwrap().0, popped(d, queue).unwrap().1, ctr + 1),
        ) == chain(d, queue, ctr, least(d, queue, ctr)),
        chain(d, queue, ctr, least(d, queue, ctr)) is Some,
        chain(d, queue, ctr, least(d, queue, ctr)).unwrap() >= ctr,
{
    reveal(ends);
    let f = choose|f: nat| #[trigger] chain(d, queue, ctr, f) is Some;
    lemma_least_exists(d, queue, ctr, f);
    let l = least(d, queue, ctr);
    reveal(chain);
    assert(l > 0);
    let s = popped(d, queue).unwrap();
    assert(chain(d, queue, ctr, l) == chain(s.0, s.1, ctr + 1, (l - 1) as nat));
    lemma_least_exists(s.0, s.1, ctr + 1, (l - 1) as nat);
    lemma_chain_more(s.0, s.1, ctr + 1, least(s.0, s.1, ctr + 1), (l - 1) as nat);
    lemma_chain_more(d, queue, ctr, l, l);
}

/// A chain without a brick to follow has ended.
pub proof fn lemma_done(d: Graph, queue: Seq<usize>, ctr: int)
    requires
        queue.len() == 0,
    ensures
        chain(d, queue, ctr, least(d, queue, ctr)) == Some(ctr - 1),
{
    reveal(chain);
    assert(chain(d, queue, ctr, 0) == Some(ctr - 1));
    lemma_least_exists(d, queue, ctr, 0);
}

fn strip(g: &mut Dependencies, queue: &mut Vec<usize>, head: usize, current: usize, aboves: &Vec<usize>)
    requires
        head <= old(queue)@.len(),
        stripped(
            deps(old(g)@),
            old(queue)@.skip(head as int),
            current,
            aboves@,
            aboves@.len() as int,
        ) is Some,
    ensures
        head <= final(queue)@.len(),
        Some((deps(final(g)@), final(queue)@.skip(head as int))) == stripped(
            deps(old(g)@),
            old(queue)@.skip(head as int),
            current,
            aboves@,
            aboves@.len() as int,
        ),
{
    let ghost d0 = deps(g@);
    let ghost q0 = queue@.skip(head as int);
    let mut k: usize = 0;
    proof {
        reveal(stripped);
    }
    while k < aboves.len()
        invariant
            k <= aboves.len(),
            head <= queue@.len(),
            stripped(d0, q0, current, aboves@, aboves@.len() as int) is Some,
            stripped(d0, q0, current, aboves@, k as int) == Some(
                (deps(g@), queue@.skip(head as int)),
            ),
        decreases aboves.len() - k,
    {
        let above = aboves[k];
        proof {
            lemma_stripped_prefix(d0, q0, current, aboves@, k + 1, aboves@.len() as int);
            reveal(stripped);
        }
        match find(g, current) {
            Some(c1) => {
                lose(g, c1, above);
                match find(g, above) {
                    Some(a) => {
                        lose(g, a, current);
                        assert(deps(g@)[a as int].2 == g@[a as int].2@);
                        if g[a].2.len() == 0 {
                            let ghost before = queue@;
                            queue.push(above);
                            assert(queue@.skip(head as int) =~= before.skip(head as int).push(above));
                        }
                    },
                    None => {},
                }
            },
            None => {},
        }
        k += 1;
    }
}

/// The number of bricks that disintegrate after the brick with the number
/// `b`.
pub fn desintegration_impact(b: usize, d: &Dependencies) -> (r: usize)
    requires
        ends(deps(d@), seq![b], 0),
        impact(deps(d@), b) < usize::MAX,
    ensures
        r == impact(deps(d@), b),
{
    let ghost d0 = deps(d@);
    let mut g = copy_graph(d);
    let mut queue: Vec<usize> = Vec::new();
    queue.push(b);
    let mut head: usize = 0;
    let mut ctr: usize = 0;
    proof {
        assert(queue@.skip(0) =~= seq![b]);
        reveal(impact);
        lemma_pop(d0, seq![b], 0);
    }
    while head < queue.len()
        invariant
            head <= queue.len(),
            0 <= impact(d0, b) < usize::MAX,
            ends(deps(g@), queue@.skip(head as int), ctr as int),
            chain(
                deps(g@),
                queue@.skip(head as int),
                ctr as int,
                least(deps(g@), queue@.skip(head as int), ctr as int),
            ) == Some(impact(d0, b)),
        decreases least(deps(g@), queue@.skip(head as int), ctr as int),
    {
        let ghost dg = deps(g@);
        let ghost q = queue@.skip(head as int);
        let current = queue[head];
        proof {
            lemma_pop(dg, q, ctr as int);
            assert(q[0] == current);
            assert(q.drop_first() =~= queue@.skip(head + 1));
        }
        head += 1;
        match find(&g, current) {
            Some(c) => {
                let aboves = copy_list(&g[c].1);
                assert(aboves@ == dg[c as int].1);
                ctr += 1;
                strip(&mut g, &mut queue, head, current, &aboves);
            },
            None => {},
        }
    }
    proof {
        assert(queue@.skip(head as int).len() == 0);
        lemma_done(deps(g@), queue@.skip(head as int), ctr as int);
    }
    if ctr == 0 {
        0
    } else {
        ctr - 1
    }
}

/// The impacts of the first `k` bricks together.
pub open spec fn impacts_to(bs: Seq<Brick>, d: Graph, k: int) -> int
    decreases k,
{
    if k <= 0 {
        0
    } else {
        impacts_to(bs, d, k - 1) + impact(d, bs[k - 1].id)
    }
}

/// The dependencies of some bricks.
pub open spec fn graph_of(bs: Seq<Brick>) -> Graph {
    Seq::new(
        bs.len(),
        |k: int|
            (
                bs[k].id,
                distinct(colliding(bs, lifted(bs[k], 1))),
                distinct(colliding(bs, lifted(bs[k], -1))),
            ),
    )
}

/// The chain that begins with brick `k` ends, and the impacts up to it fit
/// a machine word.
pub open spec fn impact_ok(bs: Seq<Brick>, k: int) -> bool {
    &&& ends(graph_of(bs), seq![bs[k].id], 0)
    &&& 0 <= impact(graph_of(bs), bs[k].id) < usize::MAX
    &&& 0 <= impacts_to(bs, graph_of(bs), k) <= usize::MAX
    &&& 0 <= impacts_to(bs, graph_of(bs), k + 1) <= usize::MAX
}

fn copy_bricks(bricks: &Vec<Brick>) -> (copy: Vec<Brick>)
    ensures
        copy@ == bricks@,
{
    let mut copy: Vec<Brick> = Vec::new();
    let mut i: usize = 0;
    while i < bricks.len()
        invariant
            i <= bricks.len(),
            copy@ == bricks@.take(i as int),
        decreases bricks.len() - i,
    {
        copy.push(bricks[i]);
        assert(bricks@.take(i + 1) =~= bricks@.take(i as int).push(bricks@[i as int]));
        i += 1;
    }
    assert(bricks@.take(bricks@.len() as int) =~= bricks@);
    copy
}

/// The sum over all bricks of the number of bricks that disintegrate after
/// each.
pub fn part2(bricks: Vec<Brick>) -> (r: usize)
    requires
        movable(bricks@),
        forall|k: int| 0 <= k < bricks@.len() ==> #[trigger] impact_ok(bricks@, k),
    ensures
        r == impacts_to(bricks@, graph_of(bricks@), bricks@.len() as int),
{
    let d = make_graph(copy_bricks(&bricks));
    let ghost g = graph_of(bricks@);
    let mut acc: usize = 0;
    let mut k: usize = 0;
    while k < bricks.len()
        invariant
            k <= bricks.len(),
            deps(d@) == g,
            g == graph_of(bricks@),
            forall|k: int| 0 <= k < bricks@.len() ==> #[trigger] impact_ok(bricks@, k),
            acc == impacts_to(bricks@, g, k as int),
        decreases bricks.len() - k,
    {
        assert(impact_ok(bricks@, k as int));
        let one = desintegration_impact(bricks[k].id, &d);
        acc = acc + one;
        k += 1;
    }
    acc
}

} // verus!
