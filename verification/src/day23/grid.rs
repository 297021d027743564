//! The maze as a grid of tiles with an entrance in its top row and an exit
//! in its bottom row.
use crate::text::{lines, lines_of, views};
use vstd::prelude::*;

verus! {

pub type Addr = usize;

/// A column and a row, both counted from zero at the top left.
pub type Coord = (Addr, Addr);

#[derive(Clone, Copy, Debug, PartialEq, Eq, Structural)]
pub enum Dir {
    Left,
    Right,
    Down,
    Up,
}

#[derive(Clone, Copy, Debug, PartialEq, Eq, Structural)]
pub enum Tile {
    Path,
    Forest,
    Slope(Dir),
}

/// Whether a slope forces the walker downhill or is walked like any path.
#[derive(Clone, Copy, Debug, PartialEq, Eq, Structural)]
pub enum Rule {
    Enforced,
    Ignored,
}

/// Why a text is not a maze.
#[derive(Clone, Copy, Debug, PartialEq, Eq, Structural)]
pub enum ParseError {
    /// A character stands for no tile.
    Tile,
    /// The rows differ in length.
    Ragged,
    /// The top row does not have exactly one opening.
    Entrance,
    /// The bottom row does not have exactly one opening.
    Exit,
}

/// Whether two coordinates are the same.
pub fn same(a: Coord, b: Coord) -> (r: bool)
    ensures
        r == (a == b),
{
    a.0 == b.0 && a.1 == b.1
}

pub open spec fn spec_clockwise(x: Dir) -> Dir {
    match x {
        Dir::Left => Dir::Up,
        Dir::Right => Dir::Down,
        Dir::Down => Dir::Left,
        Dir::Up => Dir::Right,
    }
}

pub open spec fn spec_opposite(x: Dir) -> Dir {
    match x {
        Dir::Left => Dir::Right,
        Dir::Right => Dir::Left,
        Dir::Down => Dir::Up,
        Dir::Up => Dir::Down,
    }
}

#[verifier::when_used_as_spec(spec_clockwise)]
pub fn clockwise(x: Dir) -> (r: Dir)
    ensures
        r == spec_clockwise(x),
{
    match x {
        Dir::Left => Dir::Up,
        Dir::Right => Dir::Down,
        Dir::Down => Dir::Left,
        Dir::Up => Dir::Right,
    }
}

#[verifier::when_used_as_spec(spec_opposite)]
pub fn opposite(x: Dir) -> (r: Dir)
    ensures
        r == spec_opposite(x),
{
    clockwise(clockwise(x))
}

/// The maze. `size` is its width and height.
#[derive(Debug)]
pub struct Grid {
    pub start: Coord,
    pub end: Coord,
    pub size: Coord,
    pub tiles: Vec<Vec<Tile>>,
}

/// The tile rows of a grid as sequences.
pub open spec fn rows(tiles: Seq<Vec<Tile>>) -> Seq<Seq<Tile>> {
    Seq::new(tiles.len(), |y: int| tiles[y]@)
}

impl Grid {
    pub open spec fn inside(&self, c: Coord) -> bool {
        c.0 < self.size.0 && c.1 < self.size.1
    }

    /// The grid is a rectangle of the stated size, and the entrance and the
    /// exit lie in it.
    pub open spec fn wf(&self) -> bool {
        &&& self.tiles.len() == self.size.1
        &&& forall|y: int| 0 <= y < self.tiles.len() ==> (#[trigger] self.tiles[y]).len() == self.size.0
        &&& self.inside(self.start)
        &&& self.inside(self.end)
    }

    /// The tile at `c`.
    pub open spec fn at(&self, c: Coord) -> Tile {
        self.tiles[c.1 as int][c.0 as int]
    }

    /// The tile at `c`.
    pub fn index(&self, c: Coord) -> (t: Tile)
        requires
            self.wf(),
            self.inside(c),
        ensures
            t == self.at(c),
    {
        self.tiles[c.1][c.0]
    }
}

/// The neighbour of `c` in direction `d` within a grid of the given size.
pub open spec fn neighbour(d: Dir, c: Coord, size: Coord) -> Option<Coord> {
    match d {
        Dir::Left => if c.0 > 0 {
            Some(((c.0 - 1) as usize, c.1))
        } else {
            None
        },
        Dir::Right => if c.0 + 1 < size.0 {
            Some(((c.0 + 1) as usize, c.1))
        } else {
            None
        },
        Dir::Down => if c.1 + 1 < size.1 {
            Some((c.0, (c.1 + 1) as usize))
        } else {
            None
        },
        Dir::Up => if c.1 > 0 {
            Some((c.0, (c.1 - 1) as usize))
        } else {
            None
        },
    }
}

/// The neighbour of `c` in direction `d`, unless that would leave the grid.
pub fn step(d: Dir, c: Coord, m: &Grid) -> (r: Option<Coord>)
    ensures
        r == neighbour(d, c, m.size),
        m.inside(c) && r is Some ==> m.inside(r.unwrap()),
{
    let (x, y) = c;
    let (mx, my) = m.size;
    match d {
        Dir::Left => if x > 0 {
            Some((x - 1, y))
        } else {
            None
        },
        Dir::Right => if mx > 0 && x < mx - 1 {
            Some((x + 1, y))
        } else {
            None
        },
        Dir::Down => if my > 0 && y < my - 1 {
            Some((x, y + 1))
        } else {
            None
        },
        Dir::Up => if y > 0 {
            Some((x, y - 1))
        } else {
            None
        },
    }
}

/// A position on the grid together with the direction of travel.
#[derive(Clone, Copy, Debug, PartialEq, Eq)]
pub struct Scanner {
    pub dir: Dir,
    pub coord: Coord,
}

/// The scanner one step further in its direction, unless that would leave
/// the grid.
pub fn advance(s: Scanner, m: &Grid) -> (r: Option<Scanner>)
    ensures
        r == match neighbour(s.dir, s.coord, m.size) {
            Some(coord) => Some(Scanner { dir: s.dir, coord }),
            None => None,
        },
{
    match step(s.dir, s.coord, m) {
        Some(coord) => Some(Scanner { dir: s.dir, coord }),
        None => None,
    }
}

/// The tile that a character stands for under a rule. Where slopes are
/// ignored, every character but `#` is a path.
pub open spec fn tile_of(c: char, rule: Rule) -> Option<Tile> {
    match rule {
        Rule::Ignored => Some(
            if c == '#' {
                Tile::Forest
            } else {
                Tile::Path
            },
        ),
        Rule::Enforced => if c == '.' {
            Some(Tile::Path)
        } else if c == '#' {
            Some(Tile::Forest)
        } else if c == '>' {
            Some(Tile::Slope(Dir::Right))
        } else if c == '<' {
            Some(Tile::Slope(Dir::Left))
        } else if c == '^' {
            Some(Tile::Slope(Dir::Up))
        } else if c == 'v' {
            Some(Tile::Slope(Dir::Down))
        } else {
            None
        },
    }
}

/// The tile for `t` where slopes are ignored.
pub fn parse_tile_noslip(t: char) -> (r: Tile)
    ensures
        Some(r) == tile_of(t, Rule::Ignored),
{
    match t {
        '#' => Tile::Forest,
        _ => Tile::Path,
    }
}

/// The tile for `t` where slopes are enforced.
pub fn parse_tile(t: char) -> (r: Tile)
    requires
        tile_of(t, Rule::Enforced) is Some,
    ensures
        Some(r) == tile_of(t, Rule::Enforced),
{
    match t {
        '.' => Tile::Path,
        '#' => Tile::Forest,
        '>' => Tile::Slope(Dir::Right),
        '<' => Tile::Slope(Dir::Left),
        '^' => Tile::Slope(Dir::Up),
        _ => Tile::Slope(Dir::Down),
    }
}

/// The tile for `t` under `rule`, if `t` stands for one.
pub fn read_tile(t: char, rule: Rule) -> (r: Option<Tile>)
    ensures
        r == tile_of(t, rule),
{
    match rule {
        Rule::Ignored => Some(parse_tile_noslip(t)),
        Rule::Enforced => if t == '.' || t == '#' || t == '>' || t == '<' || t == '^' || t == 'v' {
            Some(parse_tile(t))
        } else {
            None
        },
    }
}

/// Whether a walker moving in direction `d` may stand on `t`.
pub open spec fn passable(t: Tile, d: Dir) -> bool {
    match t {
        Tile::Path => true,
        Tile::Forest => false,
        Tile::Slope(x) => x == d,
    }
}

#[verifier::when_used_as_spec(passable)]
pub fn traversible_tile(t: Tile, d: Dir) -> (r: bool)
    ensures
        r == passable(t, d),
{
    match t {
        Tile::Path => true,
        Tile::Slope(x) => x == d,
        _ => false,
    }
}

/// Whether the scanner stands on a tile that it may walk in its direction.
pub fn traversible(m: &Grid, s: Scanner) -> (r: bool)
    requires
        m.wf(),
        m.inside(s.coord),
    ensures
        r == passable(m.at(s.coord), s.dir),
{
    traversible_tile(m.index(s.coord), s.dir)
}

/// The scanners that start on the border and look across the grid: from the
/// right border leftwards, from the left border rightwards, from the bottom
/// upwards and from the top downwards.
pub open spec fn border_scanners(size: Coord) -> Seq<Scanner> {
    Seq::new(size.1 as nat, |y: int| Scanner { dir: Dir::Left, coord: ((size.0 - 1) as usize, y as usize) })
        + Seq::new(size.1 as nat, |y: int| Scanner { dir: Dir::Right, coord: (0, y as usize) })
        + Seq::new(size.0 as nat, |x: int| Scanner { dir: Dir::Up, coord: (x as usize, (size.1 - 1) as usize) })
        + Seq::new(size.0 as nat, |x: int| Scanner { dir: Dir::Down, coord: (x as usize, 0) })
}

pub fn all_around(map: &Grid) -> (r: Vec<Scanner>)
    requires
        map.size.0 >= 1,
        map.size.1 >= 1,
    ensures
        r@ == border_scanners(map.size),
{
    let (mx, my) = map.size;
    let mut out: Vec<Scanner> = Vec::new();
    let ghost left = Seq::new(my as nat, |y: int| Scanner { dir: Dir::Left, coord: ((mx - 1) as usize, y as usize) });
    let ghost right = Seq::new(my as nat, |y: int| Scanner { dir: Dir::Right, coord: (0, y as usize) });
    let ghost up = Seq::new(mx as nat, |x: int| Scanner { dir: Dir::Up, coord: (x as usize, (my - 1) as usize) });
    let ghost down = Seq::new(mx as nat, |x: int| Scanner { dir: Dir::Down, coord: (x as usize, 0) });
    let mut y: usize = 0;
    while y < my
        invariant
            y <= my,
            mx >= 1,
            out@ =~= left.take(y as int),
            left == Seq::new(my as nat, |y: int| Scanner { dir: Dir::Left, coord: ((mx - 1) as usize, y as usize) }),
        decreases my - y,
    {
        out.push(Scanner { dir: Dir::Left, coord: (mx - 1, y) });
        y += 1;
    }
    y = 0;
    while y < my
        invariant
            y <= my,
            out@ =~= left + right.take(y as int),
            left.len() == my,
            right == Seq::new(my as nat, |y: int| Scanner { dir: Dir::Right, coord: (0, y as usize) }),
        decreases my - y,
    {
        out.push(Scanner { dir: Dir::Right, coord: (0, y) });
        y += 1;
    }
    let mut x: usize = 0;
    while x < mx
        invariant
            x <= mx,
            my >= 1,
            out@ =~= left + right + up.take(x as int),
            left.len() == my,
            right.len() == my,
            up == Seq::new(mx as nat, |x: int| Scanner { dir: Dir::Up, coord: (x as usize, (my - 1) as usize) }),
        decreases mx - x,
    {
        out.push(Scanner { dir: Dir::Up, coord: (x, my - 1) });
        x += 1;
    }
    x = 0;
    while x < mx
        invariant
            x <= mx,
            out@ =~= left + right + up + down.take(x as int),
            left.len() == my,
            right.len() == my,
            up.len() == mx,
            down == Seq::new(mx as nat, |x: int| Scanner { dir: Dir::Down, coord: (x as usize, 0) }),
        decreases mx - x,
    {
        out.push(Scanner { dir: Dir::Down, coord: (x, 0) });
        x += 1;
    }
    out
}

/// Every character of every line stands for a tile.
pub open spec fn legible(ls: Seq<Seq<char>>, rule: Rule) -> bool {
    forall|y: int, x: int|
        0 <= y < ls.len() && 0 <= x < ls[y].len() ==> tile_of(#[trigger] ls[y][x], rule) is Some
}

/// All lines are as long as the first.
pub open spec fn rectangular(ls: Seq<Seq<char>>) -> bool {
    forall|y: int| 0 <= y < ls.len() ==> (#[trigger] ls[y]).len() == ls[0].len()
}

/// The tiles of a line.
pub open spec fn row_tiles(l: Seq<char>, rule: Rule) -> Seq<Tile> {
    Seq::new(l.len(), |x: int| tile_of(l[x], rule).unwrap())
}

/// The row has a tile at `x` that is not forest.
pub open spec fn opening(row: Seq<Tile>, x: int) -> bool {
    0 <= x < row.len() && row[x] != Tile::Forest
}

/// The row has an opening at `x` and nowhere else.
pub open spec fn sole_opening(row: Seq<Tile>, x: int) -> bool {
    opening(row, x) && forall|z: int| opening(row, z) ==> z == x
}

pub open spec fn has_sole_opening(row: Seq<Tile>) -> bool {
    exists|x: int| sole_opening(row, x)
}

/// What reading a text as a maze gives: the grid of its lines' tiles, with
/// the entrance at the only opening of the top row and the exit at the only
/// opening of the bottom row, or the first of the four defects that the text
/// has.
pub open spec fn parsed(text: Seq<char>, rule: Rule, r: Result<Grid, ParseError>) -> bool {
    let ls = lines_of(text);
    match r {
        Err(ParseError::Tile) => !legible(ls, rule),
        Err(ParseError::Ragged) => legible(ls, rule) && !rectangular(ls),
        Err(ParseError::Entrance) => {
            &&& legible(ls, rule)
            &&& rectangular(ls)
            &&& (ls.len() == 0 || !has_sole_opening(row_tiles(ls[0], rule)))
        },
        Err(ParseError::Exit) => {
            &&& legible(ls, rule)
            &&& rectangular(ls)
            &&& ls.len() > 0
            &&& has_sole_opening(row_tiles(ls[0], rule))
            &&& !has_sole_opening(row_tiles(ls.last(), rule))
        },
        Ok(g) => {
            &&& legible(ls, rule)
            &&& rectangular(ls)
            &&& ls.len() > 0
            &&& g.wf()
            &&& g.size == (ls[0].len() as usize, ls.len() as usize)
            &&& rows(g.tiles@) == Seq::new(ls.len(), |y: int| row_tiles(ls[y], rule))
            &&& g.start.1 == 0
            &&& sole_opening(row_tiles(ls[0], rule), g.start.0 as int)
            &&& g.end.1 == ls.len() - 1
            &&& sole_opening(row_tiles(ls.last(), rule), g.end.0 as int)
        },
    }
}

/// The tiles of a line, if every character stands for one.
pub fn parse_row(l: &Vec<char>, rule: Rule) -> (r: Option<Vec<Tile>>)
    ensures
        match r {
            Some(row) => row@ == row_tiles(l@, rule) && forall|x: int|
                0 <= x < l.len() ==> tile_of(#[trigger] l@[x], rule) is Some,
            None => exists|x: int| 0 <= x < l.len() && tile_of(#[trigger] l@[x], rule) is None,
        },
{
    let mut row: Vec<Tile> = Vec::new();
    let mut x: usize = 0;
    while x < l.len()
        invariant
            x <= l.len(),
            row.len() == x,
            forall|j: int| 0 <= j < x ==> tile_of(#[trigger] l@[j], rule) == Some(row@[j]),
        decreases l.len() - x,
    {
        match read_tile(l[x], rule) {
            Some(t) => row.push(t),
            None => {
                return None;
            },
        }
        x += 1;
    }
    assert(row@ =~= row_tiles(l@, rule));
    Some(row)
}

/// The column of the only opening of a row.
pub fn find_opening(row: &Vec<Tile>) -> (r: Option<usize>)
    ensures
        match r {
            Some(x) => sole_opening(row@, x as int),
            None => !has_sole_opening(row@),
        },
{
    let mut found: Option<usize> = None;
    let mut i: usize = 0;
    while i < row.len()
        invariant
            i <= row.len(),
            match found {
                Some(x) => x < i && opening(row@, x as int) && forall|z: int|
                    0 <= z < i && opening(row@, z) ==> z == x,
                None => forall|z: int| 0 <= z < i ==> !opening(row@, z),
            },
        decreases row.len() - i,
    {
        if row[i] != Tile::Forest {
            match found {
                Some(x) => {
                    assert(opening(row@, x as int) && opening(row@, i as int));
                    return None;
                },
                None => {
                    found = Some(i);
                },
            }
        }
        i += 1;
    }
    found
}

/// Reads a maze.
pub fn parse(text: &str, rule: Rule) -> (r: Result<Grid, ParseError>)
    ensures
        parsed(text@, rule, r),
{
    let ls = lines(text);
    let ghost lsv = lines_of(text@);
    let mut tiles: Vec<Vec<Tile>> = Vec::new();
    let mut y: usize = 0;
    while y < ls.len()
        invariant
            y <= ls.len(),
            lsv == views(ls@),
            lsv == lines_of(text@),
            tiles.len() == y,
            forall|j: int| 0 <= j < y ==> (#[trigger] tiles@[j])@ == row_tiles(lsv[j], rule),
            forall|j: int, x: int|
                0 <= j < y && 0 <= x < lsv[j].len() ==> tile_of(#[trigger] lsv[j][x], rule) is Some,
        decreases ls.len() - y,
    {
        assert(lsv[y as int] == ls@[y as int]@);
        match parse_row(&ls[y], rule) {
            Some(row) => {
                tiles.push(row);
            },
            None => {
                proof {
                    let x = choose|x: int|
                        0 <= x < ls@[y as int].len() && tile_of(
                            #[trigger] ls@[y as int]@[x],
                            rule,
                        ) is None;
                    assert(tile_of(lsv[y as int][x], rule) is None);
                }
                return Err(ParseError::Tile);
            },
        }
        y += 1;
    }
    assert(legible(lsv, rule));
    let h = tiles.len();
    if h == 0 {
        return Err(ParseError::Entrance);
    }
    let w = tiles[0].len();
    y = 1;
    while y < h
        invariant
            1 <= y <= h,
            lsv == lines_of(text@),
            legible(lsv, rule),
            h == tiles.len(),
            h == lsv.len(),
            w == lsv[0].len(),
            forall|j: int| 0 <= j < h ==> (#[trigger] tiles@[j])@ == row_tiles(lsv[j], rule),
            forall|j: int| 0 <= j < y ==> (#[trigger] lsv[j]).len() == w,
        decreases h - y,
    {
        if tiles[y].len() != w {
            assert(tiles@[y as int]@ == row_tiles(lsv[y as int], rule));
            assert(tiles@[0]@ == row_tiles(lsv[0], rule));
            assert(lsv[y as int].len() != lsv[0].len());
            return Err(ParseError::Ragged);
        }
        y += 1;
    }
    assert(rectangular(lsv));
    let start = match find_opening(&tiles[0]) {
        Some(x) => x,
        None => {
            return Err(ParseError::Entrance);
        },
    };
    assert(lsv.last() == lsv[h - 1]);
    let end = match find_opening(&tiles[h - 1]) {
        Some(x) => x,
        None => {
            return Err(ParseError::Exit);
        },
    };
    let g = Grid { start: (start, 0), end: (end, h - 1), size: (w, h), tiles };
    proof {
        assert(rows(g.tiles@) =~= Seq::new(lsv.len(), |y: int| row_tiles(lsv[y], rule)));
        assert(has_sole_opening(row_tiles(lsv[0], rule)));
    }
    Ok(g)
}

} // verus!
