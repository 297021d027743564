//! A lagoon whose edge is dug by following a plan of trenches.
use crate::order::{firsts, in_order, lemma_in_order, plain, sorted, unique, Key};
use crate::text::{
    chars_of, lines, lines_of, parse_isize, part, signed_number, string_of, substring, views,
    within, words, words_of,
};
use vstd::prelude::*;

verus! {

#[derive(Clone, Copy, Debug, PartialEq, Eq, PartialOrd, Ord, Structural)]
pub enum Axis {
    Horizontal,
    Vertical,
}

#[derive(Clone, Copy, Debug, PartialEq, Eq, Hash, PartialOrd, Ord, Structural)]
pub enum Dir {
    Left,
    Right,
    Down,
    Up,
}

pub type Coord = (isize, isize);

pub open spec fn spec_axis(d: Dir) -> Axis {
    match d {
        Dir::Up | Dir::Down => Axis::Vertical,
        Dir::Left | Dir::Right => Axis::Horizontal,
    }
}

/// The axis along which a direction points.
#[verifier::when_used_as_spec(spec_axis)]
pub fn axis(d: Dir) -> (r: Axis)
    ensures
        r == spec_axis(d),
{
    match d {
        Dir::Up | Dir::Down => Axis::Vertical,
        Dir::Left | Dir::Right => Axis::Horizontal,
    }
}

pub open spec fn spec_on(a: Axis, c: Coord) -> isize {
    match a {
        Axis::Vertical => c.1,
        Axis::Horizontal => c.0,
    }
}

/// The coordinate along the axis.
#[verifier::when_used_as_spec(spec_on)]
pub fn on(a: Axis, c: Coord) -> (r: isize)
    ensures
        r == spec_on(a, c),
{
    match a {
        Axis::Vertical => c.1,
        Axis::Horizontal => c.0,
    }
}

pub open spec fn spec_off(a: Axis, c: Coord) -> isize {
    match a {
        Axis::Vertical => c.0,
        Axis::Horizontal => c.1,
    }
}

/// The coordinate across the axis.
#[verifier::when_used_as_spec(spec_off)]
pub fn off(a: Axis, c: Coord) -> (r: isize)
    ensures
        r == spec_off(a, c),
{
    match a {
        Axis::Vertical => c.0,
        Axis::Horizontal => c.1,
    }
}

/// The coordinate `n` steps from `c` in direction `d`.
pub open spec fn moved(d: Dir, c: Coord, n: int) -> (int, int) {
    match d {
        Dir::Left => (c.0 - n, c.1 as int),
        Dir::Right => (c.0 + n, c.1 as int),
        Dir::Down => (c.0 as int, c.1 + n),
        Dir::Up => (c.0 as int, c.1 - n),
    }
}

pub open spec fn fits(x: int) -> bool {
    isize::MIN <= x <= isize::MAX
}

/// The coordinate `n` steps from `c` in direction `d`.
pub fn step(d: Dir, c: Coord, n: isize) -> (r: Coord)
    requires
        fits(moved(d, c, n as int).0),
        fits(moved(d, c, n as int).1),
    ensures
        (r.0 as int, r.1 as int) == moved(d, c, n as int),
{
    let (x, y) = c;
    match d {
        Dir::Left => (x - n, y),
        Dir::Right => (x + n, y),
        Dir::Down => (x, y + n),
        Dir::Up => (x, y - n),
    }
}

#[derive(Copy, Clone, Debug, PartialEq, Eq, Structural)]
pub enum Tile {
    Undug,
    Trench,
    Filling,
}

/// An instruction of the plan: dig so far in a direction.
#[derive(Clone, Copy, Debug, PartialEq, Eq, Structural)]
pub struct Instruction {
    pub dir: Dir,
    pub length: isize,
}

/// The direction that a word names.
pub open spec fn dir_of(d: Seq<char>) -> Option<Dir> {
    if d == seq!['R'] {
        Some(Dir::Right)
    } else if d == seq!['L'] {
        Some(Dir::Left)
    } else if d == seq!['D'] {
        Some(Dir::Down)
    } else if d == seq!['U'] {
        Some(Dir::Up)
    } else {
        None
    }
}

/// The instruction that the first two of the three words of a line write:
/// a direction and a length.
pub open spec fn instruction(l: Seq<char>) -> Option<Instruction> {
    let w = words_of(l);
    if w.len() == 3 && dir_of(w[0]) is Some && within(
        signed_number(w[1]),
        isize::MIN as int,
        isize::MAX as int,
    ) is Some {
        Some(
            Instruction {
                dir: dir_of(w[0]).unwrap(),
                length: within(signed_number(w[1]), isize::MIN as int, isize::MAX as int).unwrap() as isize,
            },
        )
    } else {
        None
    }
}

fn read_dir(d: &Vec<char>) -> (r: Option<Dir>)
    ensures
        r == dir_of(d@),
{
    proof {
        assert(seq!['R'][0] == 'R' && seq!['L'][0] == 'L' && seq!['D'][0] == 'D' && seq!['U'][0]
            == 'U');
        if d.len() == 1 {
            assert(d@ =~= seq![d@[0]]);
        }
    }
    if d.len() != 1 {
        return None;
    }
    match d[0] {
        'R' => Some(Dir::Right),
        'L' => Some(Dir::Left),
        'D' => Some(Dir::Down),
        'U' => Some(Dir::Up),
        _ => None,
    }
}

/// Reads an instruction from the first two words of a line.
pub fn parse_line(l: &str) -> (r: Instruction)
    requires
        instruction(l@) is Some,
    ensures
        Some(r) == instruction(l@),
{
    let c = chars_of(l);
    let w = words(&c);
    assert(views(w@)[0] == w@[0]@ && views(w@)[1] == w@[1]@);
    match (read_dir(&w[0]), parse_isize(&w[1])) {
        (Some(dir), Some(length)) => Instruction { dir, length },
        _ => Instruction { dir: Dir::Right, length: 0 },
    }
}

/// The value of a hexadecimal digit.
pub open spec fn hex_digit(c: char) -> Option<int> {
    if '0' <= c && c <= '9' {
        Some(c as u32 as int - 48)
    } else if 'a' <= c && c <= 'f' {
        Some(c as u32 as int - 87)
    } else if 'A' <= c && c <= 'F' {
        Some(c as u32 as int - 55)
    } else {
        None
    }
}

pub open spec fn all_hex(s: Seq<char>) -> bool {
    forall|i: int| 0 <= i < s.len() ==> hex_digit(#[trigger] s[i]) is Some
}

/// The number that a sequence of hexadecimal digits denotes.
pub open spec fn hex(s: Seq<char>) -> int
    decreases s.len(),
{
    if s.len() == 0 {
        0
    } else {
        16 * hex(s.drop_last()) + hex_digit(s.last()).unwrap()
    }
}

/// The number that up to five hexadecimal digits write, with an optional
/// sign in front.
pub open spec fn short_hex(s: Seq<char>) -> Option<int> {
    let negative = s.len() > 0 && s[0] == '-';
    let d = if s.len() > 0 && (s[0] == '-' || s[0] == '+') {
        s.drop_first()
    } else {
        s
    };
    if 0 < d.len() <= 5 && all_hex(d) {
        Some(
            if negative {
                -hex(d)
            } else {
                hex(d)
            },
        )
    } else {
        None
    }
}

/// The direction that a digit stands for.
pub open spec fn dir_of_digit(c: char) -> Option<Dir> {
    if c == '0' {
        Some(Dir::Right)
    } else if c == '2' {
        Some(Dir::Left)
    } else if c == '1' {
        Some(Dir::Down)
    } else if c == '3' {
        Some(Dir::Up)
    } else {
        None
    }
}

/// The instruction that the third of the three words of a line hides: its
/// characters at the places 2 to 6 are the length in hexadecimal digits,
/// the one at place 7 is the direction.
pub open spec fn hidden(l: Seq<char>) -> Option<Instruction> {
    let w = words_of(l);
    if w.len() == 3 && w[2].len() > 7 && dir_of_digit(w[2][7]) is Some && short_hex(
        part(w[2], 2, 7),
    ) is Some {
        Some(
            Instruction {
                dir: dir_of_digit(w[2][7]).unwrap(),
                length: short_hex(part(w[2], 2, 7)).unwrap() as isize,
            },
        )
    } else {
        None
    }
}

pub proof fn lemma_hex_bound(s: Seq<char>)
    requires
        all_hex(s),
    ensures
        0 <= hex(s),
        s.len() <= 5 ==> hex(s) < 0x100000,
        s.len() <= 4 ==> hex(s) < 0x10000,
        s.len() <= 3 ==> hex(s) < 0x1000,
        s.len() <= 2 ==> hex(s) < 0x100,
        s.len() <= 1 ==> hex(s) < 0x10,
    decreases s.len(),
{
    if s.len() > 0 {
        assert(hex_digit(s[s.len() - 1]) is Some);
        assert forall|i: int| 0 <= i < s.drop_last().len() implies hex_digit(
            #[trigger] s.drop_last()[i],
        ) is Some by {
            assert(s.drop_last()[i] == s[i]);
        }
        lemma_hex_bound(s.drop_last());
    }
}

fn read_hex(s: &Vec<char>, from: usize) -> (r: Option<i32>)
    requires
        from <= s.len(),
    ensures
        match r {
            Some(v) => 0 < s@.len() - from <= 5 && all_hex(s@.skip(from as int)) && v == hex(
                s@.skip(from as int),
            ) && 0 <= v < 0x100000,
            None => !(0 < s@.len() - from <= 5 && all_hex(s@.skip(from as int))),
        },
{
    if s.len() - from == 0 || s.len() - from > 5 {
        return None;
    }
    let ghost d = s@.skip(from as int);
    let mut acc: i32 = 0;
    let mut i: usize = from;
    proof {
        assert(d.take(0) =~= Seq::<char>::empty());
    }
    while i < s.len()
        invariant
            from <= i <= s.len(),
            s.len() - from <= 5,
            d == s@.skip(from as int),
            all_hex(d.take(i - from)),
            acc == hex(d.take(i - from)),
            0 <= acc < 0x100000,
        decreases s.len() - i,
    {
        let c = s[i];
        assert(d[i - from] == c);
        let v: i32 = match hex_value(c) {
            Some(v) => v,
            None => {
                return None;
            },
        };
        proof {
            let t = d.take(i - from + 1);
            assert(t.drop_last() =~= d.take(i - from));
            assert(t.last() == c);
            assert forall|j: int| 0 <= j < t.len() implies hex_digit(#[trigger] t[j]) is Some by {
                if j < i - from {
                    assert(t[j] == d.take(i - from)[j]);
                }
            }
            lemma_hex_bound(t);
        }
        acc = acc * 16 + v;
        i += 1;
    }
    proof {
        assert(d.take(s.len() - from) =~= d);
    }
    Some(acc)
}

/// The value of a hexadecimal digit.
pub fn hex_value(c: char) -> (r: Option<i32>)
    ensures
        match r {
            Some(v) => hex_digit(c) == Some(v as int) && 0 <= v < 16,
            None => hex_digit(c) is None,
        },
{
    if c >= '0' && c <= '9' {
        Some((c as u32 - 48) as i32)
    } else if c >= 'a' && c <= 'f' {
        Some((c as u32 - 87) as i32)
    } else if c >= 'A' && c <= 'F' {
        Some((c as u32 - 55) as i32)
    } else {
        None
    }
}

fn read_short_hex(s: &Vec<char>) -> (r: Option<isize>)
    ensures
        match r {
            Some(v) => short_hex(s@) == Some(v as int),
            None => short_hex(s@) is None,
        },
{
    let negative = s.len() > 0 && s[0] == '-';
    let from: usize = if s.len() > 0 && (s[0] == '-' || s[0] == '+') {
        1
    } else {
        0
    };
    proof {
        assert(s@.skip(0) =~= s@);
        if s@.len() > 0 {
            assert(s@.skip(1) =~= s@.drop_first());
        }
    }
    match read_hex(s, from) {
        Some(v) => Some(
            if negative {
                (0 - v) as isize
            } else {
                v as isize
            },
        ),
        None => None,
    }
}

/// Reads the instruction hidden in the third word of a line.
pub fn parse_line2(l: &str) -> (r: Instruction)
    requires
        hidden(l@) is Some,
    ensures
        Some(r) == hidden(l@),
{
    let chars = chars_of(l);
    let w = words(&chars);
    assert(views(w@)[2] == w@[2]@);
    let c = &w[2];
    let text = string_of(c);
    let l = chars_of(substring(text.as_str(), 2, 7));
    let dir = match c[7] {
        '0' => Dir::Right,
        '2' => Dir::Left,
        '1' => Dir::Down,
        _ => Dir::Up,
    };
    let length = match read_short_hex(&l) {
        Some(v) => v,
        None => 0,
    };
    Instruction { dir, length }
}

/// A trench: it runs along `axis` from `start` to `end` and lies at
/// `altitude` across it.
#[derive(Clone, Copy, Debug, PartialEq, Eq, PartialOrd, Ord, Structural)]
pub struct Segment {
    pub altitude: isize,
    pub axis: Axis,
    pub start: isize,
    pub end: isize,
}

/// Whether `x` lies between the ends of the trench.
pub fn relevant(s: Segment, x: isize) -> (r: bool)
    ensures
        r == (s.start <= x <= s.end),
{
    x >= s.start && x <= s.end
}

#[derive(Clone, Copy, Debug, PartialEq, Eq, PartialOrd, Ord, Structural)]
pub enum Side {
    Inside,
    Outside,
    Left,
    Right,
}

#[derive(Clone, Copy, Debug, PartialEq, Eq, PartialOrd, Ord, Structural)]
pub enum Action {
    Enter,
    Leave,
    Neither,
}

/// Where `x` lies on the trench: at its start, at its end, between them or
/// outside. A trench of one point has its start there.
pub fn edge(s: Segment, x: isize) -> (r: Side)
    ensures
        r == if !(s.start <= x <= s.end) {
            Side::Outside
        } else if x == s.start {
            Side::Left
        } else if x == s.end {
            Side::Right
        } else {
            Side::Inside
        },
{
    if relevant(s, x) {
        if x == s.start {
            return Side::Left;
        }
        if x == s.end {
            return Side::Right;
        }
        return Side::Inside;
    }
    return Side::Outside;
}

/// The trenches that run along the axis, in order.
pub open spec fn along(s: Seq<Segment>, a: Axis) -> Seq<Segment>
    decreases s.len(),
{
    if s.len() == 0 {
        Seq::empty()
    } else if s.last().axis == a {
        along(s.drop_last(), a).push(s.last())
    } else {
        along(s.drop_last(), a)
    }
}

/// The trenches that run along the axis.
pub fn bars(segments: &Vec<Segment>, a: Axis) -> (r: Vec<Segment>)
    ensures
        r@ == along(segments@, a),
{
    let mut out: Vec<Segment> = Vec::new();
    let mut i: usize = 0;
    proof {
        assert(segments@.take(0) =~= Seq::<Segment>::empty());
    }
    while i < segments.len()
        invariant
            i <= segments.len(),
            out@ == along(segments@.take(i as int), a),
        decreases segments.len() - i,
    {
        proof {
            assert(segments@.take(i + 1).drop_last() =~= segments@.take(i as int));
            assert(segments@.take(i + 1).last() == segments@[i as int]);
        }
        if segments[i].axis == a {
            out.push(segments[i]);
        }
        i += 1;
    }
    proof {
        assert(segments@.take(segments@.len() as int) =~= segments@);
    }
    out
}

/// Where the digger stands after the first `k` instructions.
pub open spec fn position(instr: Seq<Instruction>, k: int) -> (int, int)
    decreases k,
{
    if k <= 0 {
        (0, 0)
    } else {
        let p = position(instr, k - 1);
        match instr[k - 1].dir {
            Dir::Left => (p.0 - instr[k - 1].length, p.1),
            Dir::Right => (p.0 + instr[k - 1].length, p.1),
            Dir::Down => (p.0, p.1 + instr[k - 1].length),
            Dir::Up => (p.0, p.1 - instr[k - 1].length),
        }
    }
}

/// The trench that instruction `k` digs: from where the digger stands to
/// where it stands after it, the ends in order.
pub open spec fn trench(instr: Seq<Instruction>, k: int) -> Segment {
    let a = position(instr, k);
    let b = position(instr, k + 1);
    match spec_axis(instr[k].dir) {
        Axis::Horizontal => Segment {
            axis: Axis::Horizontal,
            start: (if a.0 <= b.0 { a.0 } else { b.0 }) as isize,
            end: (if a.0 <= b.0 { b.0 } else { a.0 }) as isize,
            altitude: a.1 as isize,
        },
        Axis::Vertical => Segment {
            axis: Axis::Vertical,
            start: (if a.1 <= b.1 { a.1 } else { b.1 }) as isize,
            end: (if a.1 <= b.1 { b.1 } else { a.1 }) as isize,
            altitude: a.0 as isize,
        },
    }
}

/// The digger never leaves the numbers of a machine word.
pub open spec fn diggable(instr: Seq<Instruction>) -> bool {
    forall|k: int|
        0 <= k <= instr.len() ==> fits((#[trigger] position(instr, k)).0) && fits(
            position(instr, k).1,
        )
}

/// The trenches that the instructions dig, one after the other from the
/// origin.
pub fn segmentize(instr: Vec<Instruction>) -> (r: Vec<Segment>)
    requires
        diggable(instr@),
    ensures
        r@.len() == instr@.len(),
        forall|k: int| 0 <= k < r@.len() ==> #[trigger] r@[k] == trench(instr@, k),
{
    let mut out: Vec<Segment> = Vec::new();
    let mut pos0: Coord = (0, 0);
    let mut k: usize = 0;
    while k < instr.len()
        invariant
            k <= instr.len(),
            diggable(instr@),
            (pos0.0 as int, pos0.1 as int) == position(instr@, k as int),
            out@.len() == k,
            forall|j: int| 0 <= j < k ==> #[trigger] out@[j] == trench(instr@, j),
        decreases instr.len() - k,
    {
        let i = instr[k];
        proof {
            assert(fits(position(instr@, k + 1).0) && fits(position(instr@, k + 1).1));
        }
        let pos1 = step(i.dir, pos0, i.length);
        let axis = axis(i.dir);
        let a = on(axis, pos0);
        let b = on(axis, pos1);
        let start = if b <= a {
            b
        } else {
            a
        };
        let end = if b >= a {
            b
        } else {
            a
        };
        let altitude = off(axis, pos0);
        out.push(Segment { axis, start, end, altitude });
        pos0 = pos1;
        k += 1;
    }
    out
}

/// Reads a plan, one instruction from each line: from the first two words
/// of the line, or with `hidden` from its third word.
pub fn parse(f: &str, hidden: bool) -> (r: Vec<Instruction>)
    requires
        forall|k: int|
            0 <= k < lines_of(f@).len() ==> if hidden {
                self::hidden(#[trigger] lines_of(f@)[k]) is Some
            } else {
                instruction(lines_of(f@)[k]) is Some
            },
    ensures
        r@.len() == lines_of(f@).len(),
        forall|k: int|
            0 <= k < r@.len() ==> Some(#[trigger] r@[k]) == if hidden {
                self::hidden(lines_of(f@)[k])
            } else {
                instruction(lines_of(f@)[k])
            },
{
    let ls = lines(f);
    let ghost all = lines_of(f@);
    let mut out: Vec<Instruction> = Vec::new();
    let mut i: usize = 0;
    while i < ls.len()
        invariant
            i <= ls.len(),
            all == views(ls@),
            forall|k: int|
                0 <= k < all.len() ==> if hidden {
                    self::hidden(#[trigger] all[k]) is Some
                } else {
                    instruction(all[k]) is Some
                },
            out@.len() == i,
            forall|k: int|
                0 <= k < i ==> Some(#[trigger] out@[k]) == if hidden {
                    self::hidden(all[k])
                } else {
                    instruction(all[k])
                },
        decreases ls.len() - i,
    {
        assert(all[i as int] == ls@[i as int]@);
        let text = string_of(&ls[i]);
        if hidden {
            assert(self::hidden(all[i as int]) is Some);
            out.push(parse_line2(text.as_str()));
        } else {
            assert(self::hidden(all[i as int]) is Some || instruction(all[i as int]) is Some);
            out.push(parse_line(text.as_str()));
        }
        i += 1;
    }
    out
}

/// A number as it is ordered among the numbers without sign: the least
/// number is zero.
pub open spec fn shifted(v: isize) -> usize {
    (v - isize::MIN) as usize
}

/// A number as it is ordered among the numbers without sign.
pub fn shift(v: isize) -> (r: usize)
    ensures
        r == shifted(v),
{
    (v as i128 - isize::MIN as i128) as usize
}

/// The number that is ordered as `u` among the numbers without sign.
pub fn unshift(u: usize) -> (r: isize)
    ensures
        shifted(r) == u,
        r == u + isize::MIN,
{
    (u as i128 + isize::MIN as i128) as isize
}

/// The altitudes of the trenches that run along the axis, each as a pair
/// with zero.
pub open spec fn altitudes(s: Seq<Segment>, a: Axis) -> Seq<(i64, i64)>
    decreases s.len(),
{
    if s.len() == 0 {
        Seq::empty()
    } else if s.last().axis == a {
        altitudes(s.drop_last(), a).push((s.last().altitude as i64, 0i64))
    } else {
        altitudes(s.drop_last(), a)
    }
}

pub proof fn lemma_firsts(s: Seq<(i64, i64)>)
    ensures
        firsts(s).no_duplicates(),
        forall|x: (i64, i64)| #[trigger] firsts(s).contains(x) <==> s.contains(x),
    decreases s.len(),
{
    if s.len() > 0 {
        let t = s.drop_last();
        lemma_firsts(t);
        let f = firsts(s);
        assert forall|x: (i64, i64)| #[trigger] f.contains(x) <==> s.contains(x) by {
            if s.contains(x) {
                let i = choose|i: int| 0 <= i < s.len() && s[i] == x;
                if i < t.len() {
                    assert(t[i] == x);
                    assert(t.contains(x));
                }
            }
            if t.contains(x) {
                let i = choose|i: int| 0 <= i < t.len() && t[i] == x;
                assert(s[i] == x);
            }
            if f.contains(x) && !t.contains(s.last()) {
                let i = choose|i: int| 0 <= i < f.len() && f[i] == x;
                if i < firsts(t).len() {
                    assert(firsts(t)[i] == x);
                } else {
                    assert(s[s.len() - 1] == x);
                }
            }
            if firsts(t).contains(x) && !t.contains(s.last()) {
                let i = choose|i: int| 0 <= i < firsts(t).len() && firsts(t)[i] == x;
                assert(f[i] == x);
            }
            if x == s.last() && !t.contains(s.last()) {
                assert(f[f.len() - 1] == x);
            }
            assert(s[s.len() - 1] == s.last());
        }
        if !t.contains(s.last()) {
            assert forall|i: int, j: int| 0 <= i < f.len() && 0 <= j < f.len() && i != j implies f[i]
                != f[j] by {
                if i < firsts(t).len() && j < firsts(t).len() {
                    assert(f[i] == firsts(t)[i] && f[j] == firsts(t)[j]);
                } else if i < firsts(t).len() {
                    assert(firsts(t).contains(firsts(t)[i]));
                } else {
                    assert(firsts(t).contains(firsts(t)[j]));
                }
            }
        }
    }
}

/// No pair stands before one with a smaller first number.
pub open spec fn rising(s: Seq<(i64, i64)>) -> bool {
    forall|i: int, j: int| 0 <= i <= j < s.len() ==> (#[trigger] s[i]).0 <= (#[trigger] s[j]).0
}

/// What is in order stays in order when repetitions are taken out.
pub proof fn lemma_firsts_rising(s: Seq<(i64, i64)>)
    requires
        rising(s),
    ensures
        rising(firsts(s)),
    decreases s.len(),
{
    if s.len() > 0 {
        let t = s.drop_last();
        assert forall|i: int, j: int| 0 <= i <= j < t.len() implies (#[trigger] t[i]).0 <= (
        #[trigger] t[j]).0 by {
            assert(t[i] == s[i] && t[j] == s[j]);
        }
        lemma_firsts_rising(t);
        lemma_firsts(t);
        let f = firsts(s);
        if !t.contains(s.last()) {
            assert forall|i: int, j: int| 0 <= i <= j < f.len() implies (#[trigger] f[i]).0 <= (
            #[trigger] f[j]).0 by {
                if j < firsts(t).len() {
                    assert(f[i] == firsts(t)[i] && f[j] == firsts(t)[j]);
                } else if i < firsts(t).len() {
                    assert(firsts(t).contains(firsts(t)[i]));
                    let w = choose|w: int| 0 <= w < t.len() && t[w] == firsts(t)[i];
                    assert(s[w] == t[w]);
                    assert(s[w].0 <= s[s.len() - 1].0);
                }
            }
        }
    }
}

/// A trench that runs along `a` lies at altitude `v` among the first `n`.
pub open spec fn lies_at(segments: Seq<Segment>, a: Axis, n: int, v: isize) -> bool {
    exists|k: int| 0 <= k < n && (#[trigger] segments[k]).axis == a && segments[k].altitude == v
}

/// One of the keys stands for the altitude `v`.
pub open spec fn keyed(keys: Seq<(usize, Seq<usize>, usize)>, v: isize) -> bool {
    keys.contains((shifted(v), Seq::<usize>::empty(), 0usize))
}

/// The places where the trenches across the axis lie: each altitude of a
/// trench that runs along `a` once, the least first.
pub fn breakpoints(segments: &Vec<Segment>, a: Axis) -> (r: Vec<isize>)
    ensures
        forall|i: int, j: int| 0 <= i < j < r@.len() ==> r@[i] < r@[j],
        forall|v: isize| r@.contains(v) <==> #[trigger] lies_at(segments@, a, segments@.len() as int, v),
{
    let mut keys: Vec<Key> = Vec::new();
    let mut i: usize = 0;
    while i < segments.len()
        invariant
            i <= segments.len(),
            forall|j: int|
                0 <= j < keys@.len() ==> (#[trigger] plain(keys@)[j]).1 == Seq::<usize>::empty()
                    && plain(keys@)[j].2 == 0,
            forall|v: isize| #[trigger] keyed(plain(keys@), v) <==> lies_at(segments@, a, i as int, v),
        decreases segments.len() - i,
    {
        let ghost before = plain(keys@);
        let seg = segments[i];
        if seg.axis == a {
            let none: Vec<usize> = Vec::new();
            assert(none@ =~= Seq::<usize>::empty());
            keys.push((shift(seg.altitude), none, 0));
            proof {
                let now = plain(keys@);
                assert(now =~= before.push((shifted(seg.altitude), Seq::<usize>::empty(), 0usize)));
                assert forall|v: isize| #[trigger] keyed(now, v) <==> lies_at(
                    segments@,
                    a,
                    i + 1,
                    v,
                ) by {
                    let key = (shifted(v), Seq::<usize>::empty(), 0usize);
                    if keyed(now, v) {
                        let j = choose|j: int| 0 <= j < now.len() && now[j] == key;
                        if j < before.len() {
                            assert(before[j] == key);
                            assert(keyed(before, v));
                            let k = choose|k: int|
                                0 <= k < i && (#[trigger] segments@[k]).axis == a
                                    && segments@[k].altitude == v;
                            assert(lies_at(segments@, a, i + 1, v));
                        } else {
                            assert(seg.altitude == v);
                            assert(segments@[i as int].axis == a);
                        }
                    }
                    if lies_at(segments@, a, i + 1, v) {
                        let k = choose|k: int|
                            0 <= k < i + 1 && (#[trigger] segments@[k]).axis == a
                                && segments@[k].altitude == v;
                        if k < i {
                            assert(lies_at(segments@, a, i as int, v));
                            assert(keyed(before, v));
                            let j = choose|j: int| 0 <= j < before.len() && before[j] == key;
                            assert(now[j] == key);
                        } else {
                            assert(now[now.len() - 1] == key);
                        }
                    }
                }
            }
        } else {
            proof {
                assert forall|v: isize| #[trigger] keyed(before, v) <==> lies_at(
                    segments@,
                    a,
                    i + 1,
                    v,
                ) by {
                    if lies_at(segments@, a, i + 1, v) {
                        let k = choose|k: int|
                            0 <= k < i + 1 && (#[trigger] segments@[k]).axis == a
                                && segments@[k].altitude == v;
                        assert(k < i);
                        assert(lies_at(segments@, a, i as int, v));
                    }
                    if lies_at(segments@, a, i as int, v) {
                        let k = choose|k: int|
                            0 <= k < i && (#[trigger] segments@[k]).axis == a
                                && segments@[k].altitude == v;
                        assert(lies_at(segments@, a, i + 1, v));
                    }
                }
            }
        }
        i += 1;
    }
    let ghost unsorted = plain(keys@);
    let sorted = sorted(keys);
    let ghost sk = plain(sorted@);
    let mut pairs: Vec<(i64, i64)> = Vec::new();
    let mut k: usize = 0;
    while k < sorted.len()
        invariant
            k <= sorted.len(),
            sk == plain(sorted@),
            pairs@.len() == k,
            forall|j: int| 0 <= j < k ==> #[trigger] pairs@[j] == ((sk[j].0 + isize::MIN) as i64, 0i64),
        decreases sorted.len() - k,
    {
        assert(sk[k as int].0 == sorted@[k as int].0);
        pairs.push((unshift(sorted[k].0) as i64, 0));
        k += 1;
    }
    let ghost ps = pairs@;
    let u = unique(pairs);
    proof {
        assert forall|i: int, j: int| 0 <= i <= j < ps.len() implies (#[trigger] ps[i]).0 <= (
        #[trigger] ps[j]).0 by {
            assert(crate::order::key_le(sk[i], sk[j]));
        }
        lemma_firsts(ps);
        lemma_firsts_rising(ps);
        assert forall|x: int| 0 <= x < u@.len() implies isize::MIN <= (#[trigger] u@[x]).0
            <= isize::MAX && u@[x].1 == 0 by {
            assert(firsts(ps).contains(u@[x]));
            let w = choose|w: int| 0 <= w < ps.len() && ps[w] == u@[x];
        }
    }
    let mut out: Vec<isize> = Vec::new();
    let mut m: usize = 0;
    while m < u.len()
        invariant
            m <= u.len(),
            out@.len() == m,
            forall|x: int|
                0 <= x < u@.len() ==> isize::MIN <= (#[trigger] u@[x]).0 <= isize::MAX && u@[x].1
                    == 0,
            forall|j: int| 0 <= j < m ==> #[trigger] out@[j] == u@[j].0,
        decreases u.len() - m,
    {
        out.push(u[m].0 as isize);
        m += 1;
    }
    proof {
        assert forall|i: int, j: int| 0 <= i < j < out@.len() implies out@[i] < out@[j] by {
            assert(u@[i].0 <= u@[j].0);
            assert(u@[i] != u@[j]);
        }
        assert forall|v: isize| out@.contains(v) <==> #[trigger] lies_at(
            segments@,
            a,
            segments@.len() as int,
            v,
        ) by {
            let key = (shifted(v), Seq::<usize>::empty(), 0usize);
            vstd::seq_lib::to_multiset_contains(sk, key);
            vstd::seq_lib::to_multiset_contains(unsorted, key);
            assert(keyed(unsorted, v) <==> lies_at(segments@, a, segments@.len() as int, v));
            if out@.contains(v) {
                let j = choose|j: int| 0 <= j < out@.len() && out@[j] == v;
                assert(u@[j] == (v as i64, 0i64));
                assert(firsts(ps).contains(u@[j]));
                let w = choose|w: int| 0 <= w < ps.len() && ps[w] == u@[j];
                vstd::seq_lib::to_multiset_contains(sk, sk[w]);
                vstd::seq_lib::to_multiset_contains(unsorted, sk[w]);
                assert(sk.contains(sk[w]));
                let z = choose|z: int| 0 <= z < unsorted.len() && unsorted[z] == sk[w];
                assert(unsorted[z].1 == Seq::<usize>::empty() && unsorted[z].2 == 0);
                assert(sk[w] == key);
            }
            if keyed(unsorted, v) {
                let w = choose|w: int| 0 <= w < sk.len() && sk[w] == key;
                assert(ps[w] == (v as i64, 0i64));
                assert(ps.contains((v as i64, 0i64)));
                assert(firsts(ps).contains((v as i64, 0i64)));
                assert(u@.contains((v as i64, 0i64)));
                let j = choose|j: int| 0 <= j < u@.len() && u@[j] == (v as i64, 0i64);
                assert(out@[j] == v);
            }
        }
    }
    out
}

/// The place of an axis among the axes.
pub open spec fn axis_rank(a: Axis) -> usize {
    match a {
        Axis::Horizontal => 0,
        Axis::Vertical => 1,
    }
}

/// What trenches are ordered by: the altitude, then the axis, the start and
/// the end.
pub open spec fn seg_key(s: Segment) -> (usize, Seq<usize>, usize) {
    (shifted(s.altitude), seq![axis_rank(s.axis), shifted(s.start), shifted(s.end)], 0usize)
}

/// The keys of the trenches between whose ends `x` lies.
pub open spec fn crossing(ss: Seq<Segment>, x: isize) -> Seq<(usize, Seq<usize>, usize)>
    decreases ss.len(),
{
    if ss.len() == 0 {
        Seq::empty()
    } else if ss.last().start <= x <= ss.last().end {
        crossing(ss.drop_last(), x).push(seg_key(ss.last()))
    } else {
        crossing(ss.drop_last(), x)
    }
}

/// Where `x` lies on the trench of a key.
pub open spec fn side_of(k: (usize, Seq<usize>, usize), x: int) -> Side {
    let start = k.1[1] + isize::MIN;
    let end = k.1[2] + isize::MIN;
    if k.1.len() < 3 || !(start <= x <= end) {
        Side::Outside
    } else if x == start {
        Side::Left
    } else if x == end {
        Side::Right
    } else {
        Side::Inside
    }
}

/// What crossing a trench does to the sweep: where the sweep is afterwards
/// and whether it has entered or left the lagoon. A trench that cannot come
/// next has no answer.
pub open spec fn crossed(state: Side, e: Side) -> Option<(Side, Action)> {
    match (state, e) {
        (_, Side::Outside) => None,
        (Side::Left, Side::Inside) => None,
        (Side::Right, Side::Inside) => None,
        (Side::Outside, e) => Some((e, Action::Enter)),
        (Side::Left, Side::Left) => Some((Side::Outside, Action::Leave)),
        (Side::Right, Side::Right) => Some((Side::Outside, Action::Leave)),
        (Side::Left, Side::Right) => Some((Side::Inside, Action::Neither)),
        (Side::Right, Side::Left) => Some((Side::Inside, Action::Neither)),
        (Side::Inside, Side::Inside) => Some((Side::Outside, Action::Leave)),
        (Side::Inside, Side::Left) => Some((Side::Right, Action::Neither)),
        (Side::Inside, Side::Right) => Some((Side::Left, Action::Neither)),
    }
}

/// The sweep along the line `x` after the first `n` trenches: where it is,
/// at which altitude it has entered the lagoon, and how many points of the
/// line lie in the lagoon so far.
pub open spec fn swept(s: Seq<(usize, Seq<usize>, usize)>, x: int, n: int) -> Option<
    (Side, int, int),
>
    decreases n,
{
    if n <= 0 {
        Some((Side::Outside, 0int, 0int))
    } else {
        match swept(s, x, n - 1) {
            None => None,
            Some((state, entered, acc)) => match crossed(state, side_of(s[n - 1], x)) {
                None => None,
                Some((next, Action::Enter)) => Some((next, s[n - 1].0 + isize::MIN, acc)),
                Some((next, Action::Leave)) => Some(
                    (next, entered, acc + (s[n - 1].0 + isize::MIN) - entered + 1),
                ),
                Some((next, Action::Neither)) => Some((next, entered, acc)),
            },
        }
    }
}

/// Every trench can come when it comes, and the numbers of the sweep fit a
/// machine word.
#[verifier::opaque]
pub open spec fn sweepable(s: Seq<(usize, Seq<usize>, usize)>, x: int) -> bool {
    forall|n: int|
        0 <= n <= s.len() ==> (#[trigger] swept(s, x, n)) is Some && fits(swept(s, x, n).unwrap().2)
            && (n > 0 ==> fits(s[n - 1].0 + isize::MIN - swept(s, x, n - 1).unwrap().1) && fits(
            s[n - 1].0 + isize::MIN - swept(s, x, n - 1).unwrap().1 + 1,
        ))
}

/// The number of points of the line `x` that lie in the lagoon whose edge
/// the trenches are: the trenches that the line meets are crossed in order,
/// and what lies between entering and leaving is counted.
#[verifier::opaque]
pub open spec fn height_of(ss: Seq<Segment>, x: isize) -> int {
    let s = in_order(crossing(ss, x));
    swept(s, x as int, s.len() as int).unwrap().2
}

fn crossing_keys(ss: &Vec<Segment>, x: isize) -> (keys: Vec<Key>)
    ensures
        plain(keys@) == crossing(ss@, x),
{
    let mut keys: Vec<Key> = Vec::new();
    let mut i: usize = 0;
    proof {
        assert(ss@.take(0) =~= Seq::<Segment>::empty());
        assert(plain(keys@) =~= crossing(ss@.take(0), x));
    }
    while i < ss.len()
        invariant
            i <= ss.len(),
            plain(keys@) == crossing(ss@.take(i as int), x),
        decreases ss.len() - i,
    {
        let s = ss[i];
        let ghost before = plain(keys@);
        proof {
            assert(ss@.take(i + 1).drop_last() =~= ss@.take(i as int));
            assert(ss@.take(i + 1).last() == s);
        }
        if relevant(s, x) {
            let key = key_of(s);
            keys.push(key);
            assert(plain(keys@) =~= before.push(seg_key(s)));
        }
        i += 1;
    }
    proof {
        assert(ss@.take(ss@.len() as int) =~= ss@);
    }
    keys
}

fn key_of(s: Segment) -> (k: Key)
    ensures
        (k.0, k.1@, k.2) == seg_key(s),
{
    let mut rest: Vec<usize> = Vec::new();
    rest.push(
        match s.axis {
            Axis::Horizontal => 0,
            Axis::Vertical => 1,
        },
    );
    rest.push(shift(s.start));
    rest.push(shift(s.end));
    assert(rest@ =~= seg_key(s).1);
    (shift(s.altitude), rest, 0)
}

fn side_at(k: &Key, x: isize) -> (e: Side)
    ensures
        e == side_of((k.0, k.1@, k.2), x as int),
{
    if k.1.len() < 3 {
        return Side::Outside;
    }
    let start = unshift(k.1[1]);
    let end = unshift(k.1[2]);
    if !(start <= x && x <= end) {
        Side::Outside
    } else if x == start {
        Side::Left
    } else if x == end {
        Side::Right
    } else {
        Side::Inside
    }
}

fn cross(state: Side, e: Side) -> (r: (Side, Action))
    requires
        crossed(state, e) is Some,
    ensures
        Some(r) == crossed(state, e),
{
    match (state, e) {
        (Side::Outside, Side::Left) => (Side::Left, Action::Enter),
        (Side::Outside, Side::Right) => (Side::Right, Action::Enter),
        (Side::Outside, Side::Inside) => (Side::Inside, Action::Enter),
        (Side::Left, Side::Left) => (Side::Outside, Action::Leave),
        (Side::Right, Side::Right) => (Side::Outside, Action::Leave),
        (Side::Left, Side::Right) => (Side::Inside, Action::Neither),
        (Side::Right, Side::Left) => (Side::Inside, Action::Neither),
        (Side::Inside, Side::Inside) => (Side::Outside, Action::Leave),
        (Side::Inside, Side::Left) => (Side::Right, Action::Neither),
        _ => (Side::Left, Action::Neither),
    }
}

/// What a sweep that can be made knows of its next step.
pub proof fn lemma_sweep_step(s: Seq<(usize, Seq<usize>, usize)>, x: int, n: int)
    requires
        sweepable(s, x),
        0 <= n < s.len(),
    ensures
        swept(s, x, n) is Some,
        swept(s, x, n + 1) is Some,
        fits(swept(s, x, n + 1).unwrap().2),
        fits(s[n].0 + isize::MIN - swept(s, x, n).unwrap().1),
        fits(s[n].0 + isize::MIN - swept(s, x, n).unwrap().1 + 1),
        crossed(swept(s, x, n).unwrap().0, side_of(s[n], x)) is Some,
{
    reveal(sweepable);
    assert(swept(s, x, n) is Some);
    assert(swept(s, x, n + 1) is Some);
}

fn sweep(sorted: &Vec<Key>, x: isize) -> (r: isize)
    requires
        sweepable(plain(sorted@), x as int),
    ensures
        swept(plain(sorted@), x as int, sorted@.len() as int) matches Some(t) && t.2 == r,
{
    let ghost s = plain(sorted@);
    let mut acc: isize = 0;
    let mut state = Side::Outside;
    let mut entered: isize = 0;
    let mut n: usize = 0;
    while n < sorted.len()
        invariant
            n <= sorted.len(),
            s == plain(sorted@),
            sweepable(s, x as int),
            swept(s, x as int, n as int) == Some((state, entered as int, acc as int)),
        decreases sorted.len() - n,
    {
        let k = &sorted[n];
        proof {
            assert(s[n as int] == (k.0, k.1@, k.2));
            lemma_sweep_step(s, x as int, n as int);
        }
        let alt = unshift(k.0);
        let e = side_at(k, x);
        let (next, a) = cross(state, e);
        state = next;
        match a {
            Action::Enter => {
                entered = alt;
            },
            Action::Leave => {
                acc = acc + (alt - entered + 1);
            },
            Action::Neither => {},
        }
        n += 1;
    }
    acc
}

/// The number of points of the line `x` that lie in the lagoon.
pub fn height(ss: &Vec<Segment>, x: isize) -> (r: isize)
    requires
        sweepable(in_order(crossing(ss@, x)), x as int),
    ensures
        r == height_of(ss@, x),
{
    let keys = crossing_keys(ss, x);
    let ghost unsorted = plain(keys@);
    let sorted = sorted(keys);
    proof {
        lemma_in_order(unsorted, plain(sorted@));
        reveal(height_of);
    }
    sweep(&sorted, x)
}

/// The points of the lagoon on the lines up to the breakpoint `k`: on each
/// breakpoint before it the height of its line, and between it and the
/// next breakpoint the height of the line behind it for each line.
pub open spec fn area_to(bars: Seq<Segment>, changes: Seq<isize>, k: int) -> int
    decreases k,
{
    if k <= 0 {
        0
    } else {
        area_to(bars, changes, k - 1) + height_of(bars, changes[k - 1]) + height_of(
            bars,
            (changes[k - 1] + 1) as isize,
        ) * (changes[k] - changes[k - 1] - 1)
    }
}

/// The points of the lagoon: those on the lines up to the last breakpoint
/// and those on its line.
pub open spec fn area(bars: Seq<Segment>, changes: Seq<isize>) -> int {
    area_to(bars, changes, changes.len() - 1) + height_of(bars, changes.last())
}

/// The line of breakpoint `k` and the line behind it can be swept, and the
/// numbers of the count up to the next breakpoint fit a machine word.
pub open spec fn span_ok(bars: Seq<Segment>, changes: Seq<isize>, k: int) -> bool {
    &&& changes[k] < changes[k + 1]
    &&& sweepable(in_order(crossing(bars, changes[k])), changes[k] as int)
    &&& sweepable(in_order(crossing(bars, (changes[k] + 1) as isize)), changes[k] + 1)
    &&& fits(changes[k + 1] - changes[k])
    &&& fits(height_of(bars, (changes[k] + 1) as isize) * (changes[k + 1] - changes[k] - 1))
    &&& fits(area_to(bars, changes, k) + height_of(bars, changes[k]))
    &&& fits(area_to(bars, changes, k + 1))
}

/// Every line can be swept, and the numbers of the count fit a machine
/// word.
pub open spec fn measurable(bars: Seq<Segment>, changes: Seq<isize>) -> bool {
    &&& changes.len() > 0
    &&& sweepable(in_order(crossing(bars, changes.last())), changes.last() as int)
    &&& fits(area(bars, changes))
    &&& forall|k: int| 0 <= k < changes.len() - 1 ==> #[trigger] span_ok(bars, changes, k)
}

fn measure(bars: &Vec<Segment>, changes: &Vec<isize>) -> (r: isize)
    requires
        measurable(bars@, changes@),
    ensures
        r == area(bars@, changes@),
{
    let mut acc: isize = 0;
    let mut k: usize = 0;
    while k + 1 < changes.len()
        invariant
            k + 1 <= changes.len(),
            measurable(bars@, changes@),
            acc == area_to(bars@, changes@, k as int),
        decreases changes.len() - k,
    {
        let i = changes[k];
        let i1 = changes[k + 1];
        proof {
            assert(span_ok(bars@, changes@, k as int));
        }
        let h = height(bars, i);
        let g = height(bars, i + 1);
        let gap = i1 - i - 1;
        acc = acc + h;
        acc = acc + g * gap;
        k += 1;
    }
    assert(changes@.last() == changes@[changes@.len() - 1]);
    acc = acc + height(bars, changes[changes.len() - 1]);
    acc
}

/// The trenches that instructions dig.
pub open spec fn trenches(instr: Seq<Instruction>) -> Seq<Segment> {
    Seq::new(instr.len(), |k: int| trench(instr, k))
}

/// `changes` holds each altitude of a trench that runs along `a` once, the
/// least first.
pub open spec fn breaks(segments: Seq<Segment>, a: Axis, changes: Seq<isize>) -> bool {
    &&& forall|i: int, j: int| 0 <= i < j < changes.len() ==> changes[i] < changes[j]
    &&& forall|v: isize|
        changes.contains(v) <==> #[trigger] lies_at(segments, a, segments.len() as int, v)
}

/// The number of points of the lagoon that the plan digs: the lagoon is
/// swept line by line across the vertical trenches, and the points of a
/// line are counted between the horizontal trenches.
pub fn solve(instr: Vec<Instruction>) -> (r: isize)
    requires
        diggable(instr@),
        forall|changes: Seq<isize>| #[trigger]
            breaks(trenches(instr@), Axis::Vertical, changes) ==> measurable(
                along(trenches(instr@), Axis::Horizontal),
                changes,
            ),
    ensures
        exists|changes: Seq<isize>|
            breaks(trenches(instr@), Axis::Vertical, changes) && r == area(
                along(trenches(instr@), Axis::Horizontal),
                changes,
            ),
{
    let ghost plan = instr@;
    let segments = segmentize(instr);
    assert(segments@ =~= trenches(plan));
    let changes = breakpoints(&segments, Axis::Vertical);
    let bars = bars(&segments, Axis::Horizontal);
    assert(breaks(trenches(plan), Axis::Vertical, changes@));
    measure(&bars, &changes)
}

} // verus!
