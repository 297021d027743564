//! An engine schematic: numbers next to symbols are part numbers, and a
//! star next to two numbers is a gear.
use crate::text::{is_digit, lines, lines_of, views};
use crate::order::{firsts, unique};
use vstd::prelude::*;

verus! {

/// Whether a character is a symbol: neither a dot nor a digit.
pub fn is_symbol(t: char) -> (r: bool)
    ensures
        r == (t != '.' && !is_digit(t)),
{
    t != '.' && !(t >= '0' && t <= '9')
}

/// The character at column `x` of row `y`, or a dot where the schematic
/// has none.
pub open spec fn cell(g: Seq<Seq<char>>, x: int, y: int) -> char {
    if 0 <= y < g.len() && 0 <= x < g[y].len() {
        g[y][x]
    } else {
        '.'
    }
}

/// The character at a place, or a dot where the schematic has none.
pub fn get(lines: &Vec<Vec<char>>, x: i64, y: i64) -> (c: char)
    ensures
        c == cell(views(lines@), x as int, y as int),
{
    if x < 0 || y < 0 {
        return '.';
    }
    if (y as u64) >= lines.len() as u64 {
        return '.';
    }
    let line = &lines[y as usize];
    assert(views(lines@)[y as int] == line@);
    if (x as u64) >= line.len() as u64 {
        return '.';
    }
    line[x as usize]
}

/// The places around `(x, y)` and that place itself, column by column,
/// without the place in column `x` and row `x`.
pub open spec fn around(x: int, y: int) -> Seq<(int, int)> {
    Seq::new(9, |k: int| (x - 1 + k / 3, y - 1 + k % 3)).filter(|p: (int, int)| !(p.0 == x && p.1 == x))
}

/// One of the places around `(x, y)` holds a symbol.
pub open spec fn touches(g: Seq<Seq<char>>, x: int, y: int) -> bool {
    exists|k: int|
        0 <= k < 9 && !(x - 1 + k / 3 == x && y - 1 + k % 3 == x) && #[trigger] symbol_at(
            g,
            x - 1 + k / 3,
            y - 1 + k % 3,
        )
}

pub open spec fn symbol_at(g: Seq<Seq<char>>, x: int, y: int) -> bool {
    cell(g, x, y) != '.' && !is_digit(cell(g, x, y))
}

/// Whether one of the places around `(x, y)` holds a symbol.
pub fn adjectant_to_symbol(lines: &Vec<Vec<char>>, x: i64, y: i64) -> (r: bool)
    requires
        i64::MIN < x < i64::MAX,
        i64::MIN < y < i64::MAX,
    ensures
        r == touches(views(lines@), x as int, y as int),
{
    let ghost g = views(lines@);
    let mut k: usize = 0;
    while k < 9
        invariant
            k <= 9,
            g == views(lines@),
            i64::MIN < x < i64::MAX,
            i64::MIN < y < i64::MAX,
            forall|j: int|
                0 <= j < k ==> !(!(x - 1 + j / 3 == x && y - 1 + j % 3 == x) && #[trigger] symbol_at(
                    g,
                    x - 1 + j / 3,
                    y - 1 + j % 3,
                )),
        decreases 9 - k,
    {
        let xi = x - 1 + (k / 3) as i64;
        let yi = y - 1 + (k % 3) as i64;
        if !(xi == x && yi == x) {
            if is_symbol(get(lines, xi, yi)) {
                assert(symbol_at(g, x - 1 + (k as int) / 3, y - 1 + (k as int) % 3));
                return true;
            }
        }
        k += 1;
    }
    false
}

/// The column where the number begins that has a digit at `(x, y)`.
pub open spec fn start_of(g: Seq<Seq<char>>, x: int, y: int) -> int
    decreases x,
{
    if x > 0 && is_digit(cell(g, x - 1, y)) {
        start_of(g, x - 1, y)
    } else {
        x
    }
}

/// The place where the number begins that has a digit at `p`, if there is
/// a digit.
pub open spec fn sought(g: Seq<Seq<char>>, p: (int, int)) -> Option<(int, int)> {
    if is_digit(cell(g, p.0, p.1)) {
        Some((start_of(g, p.0, p.1), p.1))
    } else {
        None
    }
}

/// The place where the number begins that has a digit at `p`.
pub fn seek_to_start(lines: &Vec<Vec<char>>, p: (i64, i64)) -> (r: Option<(i64, i64)>)
    ensures
        match r {
            Some(q) => sought(views(lines@), (p.0 as int, p.1 as int)) == Some(
                (q.0 as int, q.1 as int),
            ),
            None => sought(views(lines@), (p.0 as int, p.1 as int)) is None,
        },
{
    let (x, y) = p;
    let c = get(lines, x, y);
    if !(c >= '0' && c <= '9') {
        return None;
    }
    let ghost g = views(lines@);
    let mut xi = x;
    assert(0 <= x);
    while xi > 0 && digit_at(lines, xi - 1, y)
        invariant
            0 <= xi <= x,
            g == views(lines@),
            start_of(g, x as int, y as int) == start_of(g, xi as int, y as int),
        decreases xi,
    {
        xi -= 1;
    }
    Some((xi, y))
}

/// Whether a digit stands at a place.
pub fn digit_at(lines: &Vec<Vec<char>>, x: i64, y: i64) -> (r: bool)
    ensures
        r == is_digit(cell(views(lines@), x as int, y as int)),
{
    let c = get(lines, x, y);
    c >= '0' && c <= '9'
}

/// No line is longer than 32 bits count.
pub open spec fn long(g: Seq<Seq<char>>) -> bool {
    forall|y: int| 0 <= y < g.len() ==> (#[trigger] g[y]).len() <= i32::MAX
}

/// The number that the digits from `(x, y)` on to the right write behind
/// the number `acc`.
pub open spec fn read(g: Seq<Seq<char>>, x: int, y: int, acc: int) -> int
    decreases
            (if 0 <= y < g.len() {
                g[y].len() as int
            } else {
                0
            }) - x,
{
    if x >= 0 && is_digit(cell(g, x, y)) {
        read(g, x + 1, y, acc * 10 + crate::text::digit_value(cell(g, x, y)))
    } else {
        acc
    }
}

/// No number that reading from `(x, y)` on comes by exceeds 32 bits.
pub open spec fn readable(g: Seq<Seq<char>>, x: int, y: int, acc: int) -> bool
    decreases
            (if 0 <= y < g.len() {
                g[y].len() as int
            } else {
                0
            }) - x,
{
    &&& 0 <= acc <= i32::MAX
    &&& (x >= 0 && is_digit(cell(g, x, y)) ==> acc * 10 <= i32::MAX && readable(
        g,
        x + 1,
        y,
        acc * 10 + crate::text::digit_value(cell(g, x, y)),
    ))
}

/// The number that begins at `p`.
pub fn read_from_start(lines: &Vec<Vec<char>>, p: (i64, i64)) -> (r: i32)
    requires
        0 <= p.0,
        long(views(lines@)),
        readable(views(lines@), p.0 as int, p.1 as int, 0),
    ensures
        r == read(views(lines@), p.0 as int, p.1 as int, 0),
{
    let (x, y) = p;
    let ghost g = views(lines@);
    let mut xi = x;
    let mut acc: i32 = 0;
    while digit_at(lines, xi, y)
        invariant
            0 <= x <= xi,
            g == views(lines@),
            long(g),
            readable(g, xi as int, y as int, acc as int),
            read(g, x as int, y as int, 0) == read(g, xi as int, y as int, acc as int),
        decreases
                (if 0 <= y < g.len() {
                    g[y as int].len() as int
                } else {
                    0
                }) - xi,
    {
        let c = get(lines, xi, y);
        proof {
            assert(is_digit(cell(g, xi as int, y as int)));
            assert(g[y as int].len() <= i32::MAX);
            assert(acc * 10 <= i32::MAX && readable(
                g,
                xi + 1,
                y as int,
                acc * 10 + crate::text::digit_value(c),
            ));
        }
        acc = acc * 10 + (c as u32 - 48) as i32;
        xi += 1;
    }
    acc
}

/// The starts of the numbers that have a digit at one of the first `k`
/// places of the nine around `(x, y)`, that place included, column by
/// column; the place in column `x` and row `x` is left out.
pub open spec fn starts(g: Seq<Seq<char>>, x: int, y: int, k: int) -> Seq<(i64, i64)>
    decreases k,
{
    if k <= 0 {
        Seq::empty()
    } else {
        let p = (x - 1 + (k - 1) / 3, y - 1 + (k - 1) % 3);
        if !(p.0 == x && p.1 == x) && sought(g, p) is Some {
            starts(g, x, y, k - 1).push(
                (sought(g, p).unwrap().0 as i64, sought(g, p).unwrap().1 as i64),
            )
        } else {
            starts(g, x, y, k - 1)
        }
    }
}

/// The ratio of the gear at `(x, y)`: the product of the two numbers around
/// it, or zero if there are not exactly two.
pub open spec fn gear(g: Seq<Seq<char>>, x: int, y: int) -> int {
    let s = firsts(starts(g, x, y, 9));
    if s.len() == 2 {
        read(g, s[0].0 as int, s[0].1 as int, 0) * read(g, s[1].0 as int, s[1].1 as int, 0)
    } else {
        0
    }
}

/// The two numbers around `(x, y)`, if there are exactly two, can be read
/// and multiplied within 32 bits.
pub open spec fn gear_ok(g: Seq<Seq<char>>, x: int, y: int) -> bool {
    let s = firsts(starts(g, x, y, 9));
    s.len() == 2 ==> {
        &&& 0 <= s[0].0
        &&& 0 <= s[1].0
        &&& readable(g, s[0].0 as int, s[0].1 as int, 0)
        &&& readable(g, s[1].0 as int, s[1].1 as int, 0)
        &&& i32::MIN <= gear(g, x, y) <= i32::MAX
    }
}

/// The ratio of the gear at `(x, y)`.
pub fn calc_gear_ratio(lines: &Vec<Vec<char>>, x: i64, y: i64) -> (r: i32)
    requires
        i64::MIN < x < i64::MAX,
        i64::MIN < y < i64::MAX,
        long(views(lines@)),
        gear_ok(views(lines@), x as int, y as int),
    ensures
        r == gear(views(lines@), x as int, y as int),
{
    let ghost g = views(lines@);
    let mut found: Vec<(i64, i64)> = Vec::new();
    let mut k: usize = 0;
    while k < 9
        invariant
            k <= 9,
            g == views(lines@),
            i64::MIN < x < i64::MAX,
            i64::MIN < y < i64::MAX,
            found@ == starts(g, x as int, y as int, k as int),
        decreases 9 - k,
    {
        let xi = x - 1 + (k / 3) as i64;
        let yi = y - 1 + (k % 3) as i64;
        if !(xi == x && yi == x) {
            match seek_to_start(lines, (xi, yi)) {
                Some(q) => {
                    found.push(q);
                },
                None => {},
            }
        }
        k += 1;
    }
    let gear_thingies = unique(found);
    if gear_thingies.len() == 2 {
        let a = read_from_start(lines, gear_thingies[0]);
        let b = read_from_start(lines, gear_thingies[1]);
        a * b
    } else {
        0
    }
}

/// The state of the scan for part numbers: the sum so far, the number that
/// is being read, whether one of its digits stands next to a symbol, and
/// whether a number is being read.
pub struct Scan {
    pub acc: i32,
    pub current: i32,
    pub current_counts: bool,
    pub reading: bool,
}

/// The state after the place `(x, y)`: a digit goes into the number that is
/// being read, which counts if the digit stands next to a symbol; anything
/// else ends the number, which is added to the sum if it counts.
pub open spec fn scanned(g: Seq<Seq<char>>, s: (int, int, bool, bool), x: int, y: int) -> (
    int,
    int,
    bool,
    bool,
) {
    let c = cell(g, x, y);
    if is_digit(c) {
        (s.0, s.1 * 10 + crate::text::digit_value(c), s.2 || touches(g, x, y), true)
    } else if s.3 {
        (
            if s.2 {
                s.0 + s.1
            } else {
                s.0
            },
            0,
            false,
            false,
        )
    } else {
        s
    }
}

/// The number of places of a row that the scan visits: those of the first
/// line and one more.
pub open spec fn width(g: Seq<Seq<char>>) -> int {
    g[0].len() as int + 1
}

/// The state of the scan after the first `t` places, row by row, where each
/// row has the places of the first line and one more.
pub open spec fn scan(g: Seq<Seq<char>>, t: int) -> (int, int, bool, bool)
    decreases t,
{
    if t <= 0 {
        (0, 0, false, false)
    } else {
        let w = width(g);
        scanned(g, scan(g, t - 1), (t - 1) % w, (t - 1) / w)
    }
}

/// The sum of the ratios of the gears among the first `t` places.
pub open spec fn gears(g: Seq<Seq<char>>, t: int) -> int
    decreases t,
{
    if t <= 0 {
        0
    } else {
        let w = width(g);
        gears(g, t - 1) + if cell(g, (t - 1) % w, (t - 1) / w) == '*' {
            gear(g, (t - 1) % w, (t - 1) / w)
        } else {
            0
        }
    }
}

pub open spec fn fits(x: int) -> bool {
    i32::MIN <= x <= i32::MAX
}

/// The schematic has a line, neither the number nor the length of its
/// lines exceeds 32 bits, and no number that the scan comes by does.
pub open spec fn scannable(g: Seq<Seq<char>>, part2: bool) -> bool {
    &&& g.len() > 0
    &&& g.len() <= i32::MAX
    &&& g[0].len() < i32::MAX
    &&& long(g)
    &&& part2 ==> forall|t: int|
        0 <= t <= g.len() * width(g) ==> fits(#[trigger] gears(g, t)) && (t > 0 && cell(
            g,
            (t - 1) % width(g),
            (t - 1) / width(g),
        ) == '*' ==> gear_ok(g, (t - 1) % width(g), (t - 1) / width(g)))
    &&& !part2 ==> forall|t: int|
        0 <= t <= g.len() * width(g) ==> fits((#[trigger] scan(g, t)).0) && fits(scan(g, t).1)
            && fits(10 * scan(g, t).1)
}

/// The sum of the part numbers of a schematic, or with `part2` the sum of
/// its gear ratios.
pub fn solve(f: &str, part2: bool) -> (r: i32)
    requires
        scannable(lines_of(f@), part2),
    ensures
        r == if part2 {
            gears(lines_of(f@), lines_of(f@).len() * width(lines_of(f@)))
        } else {
            scan(lines_of(f@), lines_of(f@).len() * width(lines_of(f@))).0
        },
{
    let lines = lines(f);
    let ghost g = lines_of(f@);
    let sizey: i64 = lines.len() as i64;
    assert(g[0] == lines@[0]@);
    let sizex: i64 = lines[0].len() as i64;
    let ghost w: int = sizex + 1;
    assert(w == width(g));
    let mut acc: i32 = 0;
    let mut current: i32 = 0;
    let mut current_counts = false;
    let mut reading = false;
    let mut y: i64 = 0;
    proof {
        assert(0 * w == 0) by (nonlinear_arith);
    }
    while y < sizey
        invariant
            0 <= y <= sizey,
            g == views(lines@),
            sizey == g.len(),
            sizex == g[0].len(),
            w == sizex + 1,
            w == width(g),
            scannable(g, part2),
            part2 ==> acc == gears(g, y * w),
            !part2 ==> (acc as int, current as int, current_counts, reading) == scan(g, y * w),
        decreases sizey - y,
    {
        let mut x: i64 = 0;
        while x <= sizex
            invariant
                0 <= x <= sizex + 1,
                0 <= y < sizey,
                g == views(lines@),
                sizey == g.len(),
                sizex == g[0].len(),
                w == sizex + 1,
                w == width(g),
                scannable(g, part2),
                part2 ==> acc == gears(g, y * w + x),
                !part2 ==> (acc as int, current as int, current_counts, reading) == scan(
                    g,
                    y * w + x,
                ),
            decreases sizex + 1 - x,
        {
            let ghost t = y * w + x + 1;
            proof {
                assert(0 <= y * w && y * w + w <= sizey * w) by (nonlinear_arith)
                    requires
                        0 <= y < sizey,
                        0 < w,
                ;
                assert(sizey * w == g.len() * width(g)) by (nonlinear_arith)
                    requires
                        sizey == g.len(),
                        w == width(g),
                ;
                assert(t - 1 == y * w + x);
                assert(y * w == w * y) by (nonlinear_arith);
                vstd::arithmetic::div_mod::lemma_fundamental_div_mod_converse(
                    t - 1,
                    w,
                    y as int,
                    x as int,
                );
                assert(0 <= t <= g.len() * width(g));
                assert((t - 1) % width(g) == x && (t - 1) / width(g) == y);
                if part2 {
                    assert(fits(gears(g, t)));
                } else {
                    assert(fits(scan(g, t).0) && fits(scan(g, t).1));
                    assert(fits(scan(g, t - 1).0) && fits(10 * scan(g, t - 1).1));
                }
            }
            let c = get(&lines, x, y);
            if part2 {
                if c == '*' {
                    acc = acc + calc_gear_ratio(&lines, x, y);
                }
            } else {
                if c >= '0' && c <= '9' {
                    reading = true;
                    current = current * 10 + (c as u32 - 48) as i32;
                    if !current_counts {
                        if adjectant_to_symbol(&lines, x, y) {
                            current_counts = true;
                        }
                    }
                } else {
                    if reading {
                        if current_counts {
                            acc = acc + current;
                        }
                        current_counts = false;
                        current = 0;
                        reading = false;
                    }
                }
            }
            x += 1;
        }
        proof {
            assert(y * w + (sizex + 1) == (y + 1) * w) by (nonlinear_arith)
                requires
                    w == sizex + 1,
            ;
        }
        y += 1;
    }
    acc
}

} // verus!
