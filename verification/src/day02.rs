//! Games of coloured cubes: each game shows several handfuls, each handful
//! so many cubes of each colour.
use crate::text::{
    chars_of, find_char, lines, lines_of, parse_i32, position_of, same_chars, signed_number,
    slice, split, split_on, trim_range, trimmed, views, within,
};
use vstd::prelude::*;
use vstd::string::StrSliceExecFns;

verus! {

#[derive(Clone, Copy, Debug, PartialEq, Eq, Structural)]
pub struct Cubes {
    pub red: i32,
    pub green: i32,
    pub blue: i32,
}

/// The number that `s` writes, if it is one that fits in 32 bits.
pub open spec fn number(s: Seq<char>) -> Option<int> {
    within(signed_number(s), i32::MIN as int, i32::MAX as int)
}

/// What a count of cubes says: the count and the colour. The count ends at
/// the first space after the blanks in front.
pub open spec fn subsection(sub: Seq<char>) -> Option<(int, Seq<char>)> {
    let t = trimmed(sub);
    let p = find_char(t, ' ');
    if p < t.len() && number(t.take(p)) is Some {
        Some((number(t.take(p)).unwrap(), t.skip(p + 1)))
    } else {
        None
    }
}

/// The handful after a count of cubes has been added to it.
pub open spec fn with_subsection(acc: Cubes, sub: Seq<char>) -> Option<Cubes> {
    match subsection(sub) {
        Some((n, colour)) => if colour == "red"@ {
            Some(Cubes { red: n as i32, ..acc })
        } else if colour == "green"@ {
            Some(Cubes { green: n as i32, ..acc })
        } else if colour == "blue"@ {
            Some(Cubes { blue: n as i32, ..acc })
        } else {
            None
        },
        None => None,
    }
}

/// The handful after counts of cubes have been added to it, one after the
/// other.
pub open spec fn with_subsections(acc: Cubes, subs: Seq<Seq<char>>) -> Option<Cubes>
    decreases subs.len(),
{
    if subs.len() == 0 {
        Some(acc)
    } else {
        match with_subsection(acc, subs[0]) {
            Some(next) => with_subsections(next, subs.drop_first()),
            None => None,
        }
    }
}

/// The handful that a list of counts, separated by commas, describes.
pub open spec fn section(s: Seq<char>) -> Option<Cubes> {
    with_subsections(Cubes { red: 0, green: 0, blue: 0 }, split(s, seq![',']))
}

/// The handfuls that a list of sections describes.
pub open spec fn sections(parts: Seq<Seq<char>>) -> Option<Seq<Cubes>>
    decreases parts.len(),
{
    if parts.len() == 0 {
        Some(Seq::empty())
    } else {
        match (sections(parts.drop_last()), section(parts.last())) {
            (Some(before), Some(c)) => Some(before.push(c)),
            _ => None,
        }
    }
}

/// The number and the handfuls of the game that a line describes: the
/// number is the last word before the colon, the handfuls follow it,
/// separated by semicolons.
pub open spec fn game(line: Seq<char>) -> Option<(int, Seq<Cubes>)> {
    let p = find_char(line, ':');
    if p < line.len() {
        let head = split(line.take(p), seq![' ']);
        match (number(head.last()), sections(split(line.skip(p + 1), seq![';']))) {
            (Some(n), Some(cs)) => Some((n, cs)),
            _ => None,
        }
    } else {
        None
    }
}

fn subsection_range(t: &Vec<char>) -> (r: Option<(i32, usize, usize)>)
    ensures
        match r {
            Some((n, from, to)) => from <= to <= t.len() && subsection(t@) == Some(
                (n as int, t@.subrange(from as int, to as int)),
            ),
            None => subsection(t@) is None,
        },
{
    let (a, b) = trim_range(t);
    let inner = slice(t, a, b);
    let p = position_of(&inner, 0, ' ');
    proof {
        assert(inner@.skip(0) =~= inner@);
    }
    if p >= inner.len() {
        return None;
    }
    let num = slice(&inner, 0, p);
    proof {
        assert(inner@.take(p as int) =~= inner@.subrange(0, p as int));
        assert(inner@.skip(p + 1) =~= t@.subrange(a + p + 1, b as int));
    }
    match parse_i32(&num) {
        Some(n) => Some((n, a + p + 1, b)),
        None => None,
    }
}

/// Reads a count of cubes: the count and the colour.
pub fn parse_subsection(sub: &str) -> (r: (i32, &str))
    requires
        subsection(sub@) is Some,
    ensures
        Some((r.0 as int, r.1@)) == subsection(sub@),
{
    let t = chars_of(sub);
    match subsection_range(&t) {
        Some((n, from, to)) => (n, sub.substring_char(from, to)),
        None => (0, sub),
    }
}

fn add_chars(acc: &mut Cubes, new: &Vec<char>)
    requires
        with_subsection(*old(acc), new@) is Some,
    ensures
        Some(*final(acc)) == with_subsection(*old(acc), new@),
{
    match subsection_range(new) {
        Some((n, from, to)) => {
            let colour = slice(new, from, to);
            if same_chars(&colour, &chars_of("red")) {
                acc.red = n;
            } else if same_chars(&colour, &chars_of("green")) {
                acc.green = n;
            } else if same_chars(&colour, &chars_of("blue")) {
                acc.blue = n;
            }
        },
        None => {},
    }
}

/// Adds a count of cubes to a handful.
pub fn add_subsection_(acc: &mut Cubes, new: &str)
    requires
        with_subsection(*old(acc), new@) is Some,
    ensures
        Some(*final(acc)) == with_subsection(*old(acc), new@),
{
    let c = chars_of(new);
    add_chars(acc, &c);
}

fn section_chars(s: &Vec<char>) -> (r: Cubes)
    requires
        section(s@) is Some,
    ensures
        Some(r) == section(s@),
{
    let mut acc = Cubes { red: 0, green: 0, blue: 0 };
    let parts = split_on(s, ',');
    let ghost all = views(parts@);
    let mut i: usize = 0;
    proof {
        assert(all.skip(0) =~= all);
    }
    while i < parts.len()
        invariant
            i <= parts.len(),
            all == views(parts@),
            all == split(s@, seq![',']),
            section(s@) is Some,
            with_subsections(acc, all.skip(i as int)) == section(s@),
        decreases parts.len() - i,
    {
        proof {
            assert(all.skip(i as int)[0] == parts@[i as int]@);
            assert(all.skip(i as int).drop_first() =~= all.skip(i + 1));
        }
        add_chars(&mut acc, &parts[i]);
        i += 1;
    }
    acc
}

/// Reads a handful: counts of cubes separated by commas.
pub fn parse_section(section: &str) -> (r: Cubes)
    requires
        self::section(section@) is Some,
    ensures
        Some(r) == self::section(section@),
{
    section_chars(&chars_of(section))
}

/// Reads a game: its number and its handfuls.
pub fn parse_line(line: &str) -> (r: (i32, Vec<Cubes>))
    requires
        game(line@) is Some,
    ensures
        Some((r.0 as int, r.1@)) == game(line@),
{
    let l = chars_of(line);
    let p = position_of(&l, 0, ':');
    proof {
        assert(l@.skip(0) =~= l@);
    }
    let head = slice(&l, 0, p);
    let rest = slice(&l, p + 1, l.len());
    proof {
        assert(head@ =~= l@.take(p as int));
        assert(rest@ =~= l@.skip(p + 1));
    }
    let words = split_on(&head, ' ');
    assert(views(words@).last() == words@[words.len() - 1]@);
    let nl = match parse_i32(&words[words.len() - 1]) {
        Some(n) => n,
        None => 0,
    };
    let parts = split_on(&rest, ';');
    let ghost all = views(parts@);
    let mut cubess: Vec<Cubes> = Vec::new();
    let mut i: usize = 0;
    proof {
        assert(all.take(0) =~= Seq::<Seq<char>>::empty());
        assert(all.take(parts.len() as int) =~= all);
        lemma_sections_prefix(all, 0);
    }
    while i < parts.len()
        invariant
            i <= parts.len(),
            all == views(parts@),
            sections(all) is Some,
            sections(all.take(i as int)) == Some(cubess@),
        decreases parts.len() - i,
    {
        proof {
            lemma_sections_prefix(all, i + 1);
            assert(all.take(i + 1).drop_last() =~= all.take(i as int));
            assert(all.take(i + 1).last() == parts@[i as int]@);
        }
        cubess.push(section_chars(&parts[i]));
        i += 1;
    }
    proof {
        assert(all.take(parts.len() as int) =~= all);
    }
    (nl, cubess)
}

/// Where a list of sections can be read, each of its beginnings can.
pub proof fn lemma_sections_prefix(parts: Seq<Seq<char>>, k: int)
    requires
        sections(parts) is Some,
        0 <= k <= parts.len(),
    ensures
        sections(parts.take(k)) is Some,
    decreases parts.len(),
{
    if k == parts.len() {
        assert(parts.take(k) =~= parts);
    } else {
        lemma_sections_prefix(parts.drop_last(), k);
        assert(parts.drop_last().take(k) =~= parts.take(k));
    }
}

/// The handful that a game may not exceed.
pub fn max() -> (r: Cubes)
    ensures
        r == (Cubes { red: 12, green: 13, blue: 14 }),
{
    Cubes { red: 12, green: 13, blue: 14 }
}

/// `a` has at least as many cubes of each colour as `b`.
pub open spec fn spec_fits(a: Cubes, b: Cubes) -> bool {
    a.red >= b.red && a.green >= b.green && a.blue >= b.blue
}

/// Whether `a` has at least as many cubes of each colour as `b`.
#[verifier::when_used_as_spec(spec_fits)]
pub fn fits(a: Cubes, b: Cubes) -> (r: bool)
    ensures
        r == spec_fits(a, b),
{
    a.red >= b.red && a.green >= b.green && a.blue >= b.blue
}

/// Whether no handful of the game exceeds the limit.
pub fn game_possible(xs: Vec<Cubes>) -> (r: bool)
    ensures
        r == forall|i: int| 0 <= i < xs@.len() ==> fits(Cubes { red: 12, green: 13, blue: 14 }, xs@[i]),
{
    let mut i: usize = 0;
    while i < xs.len()
        invariant
            i <= xs.len(),
            forall|j: int| 0 <= j < i ==> fits(Cubes { red: 12, green: 13, blue: 14 }, xs@[j]),
        decreases xs.len() - i,
    {
        if !fits(max(), xs[i]) {
            return false;
        }
        i += 1;
    }
    true
}

/// The handful with the larger count of each colour.
pub fn maximum(a: Cubes, b: Cubes) -> (r: Cubes)
    ensures
        r.red == if b.red > a.red { b.red } else { a.red },
        r.green == if b.green > a.green { b.green } else { a.green },
        r.blue == if b.blue > a.blue { b.blue } else { a.blue },
{
    Cubes {
        red: if b.red > a.red { b.red } else { a.red },
        green: if b.green > a.green { b.green } else { a.green },
        blue: if b.blue > a.blue { b.blue } else { a.blue },
    }
}

/// The product of the three counts.
pub fn power(c: Cubes) -> (r: i32)
    requires
        i32::MIN <= c.red * c.green <= i32::MAX,
        i32::MIN <= c.red * c.green * c.blue <= i32::MAX,
    ensures
        r == c.red * c.green * c.blue,
{
    c.red * c.green * c.blue
}

/// Every line is a game.
pub open spec fn legible(ls: Seq<Seq<char>>) -> bool {
    forall|i: int| 0 <= i < ls.len() ==> game(#[trigger] ls[i]) is Some
}

/// No handful of the game exceeds the limit.
pub open spec fn possible(xs: Seq<Cubes>) -> bool {
    forall|i: int| 0 <= i < xs.len() ==> fits(Cubes { red: 12, green: 13, blue: 14 }, xs[i])
}

/// The sum of the numbers of the possible games among the first `k`.
pub open spec fn possible_to(ls: Seq<Seq<char>>, k: int) -> int
    decreases k,
{
    if k <= 0 {
        0
    } else {
        possible_to(ls, k - 1) + if possible(game(ls[k - 1]).unwrap().1) {
            game(ls[k - 1]).unwrap().0
        } else {
            0
        }
    }
}

fn game_of(line: &Vec<char>) -> (r: (i32, Vec<Cubes>))
    requires
        game(line@) is Some,
    ensures
        Some((r.0 as int, r.1@)) == game(line@),
{
    let text = crate::text::string_of(line);
    parse_line(text.as_str())
}

/// The sum of the numbers of the games that are possible.
pub fn solve(text: &str) -> (r: i32)
    requires
        legible(lines_of(text@)),
        forall|k: int|
            0 <= k <= lines_of(text@).len() ==> i32::MIN <= #[trigger] possible_to(
                lines_of(text@),
                k,
            ) <= i32::MAX,
    ensures
        r == possible_to(lines_of(text@), lines_of(text@).len() as int),
{
    let ls = lines(text);
    let ghost all = lines_of(text@);
    let mut acc: i32 = 0;
    let mut i: usize = 0;
    while i < ls.len()
        invariant
            i <= ls.len(),
            all == views(ls@),
            legible(all),
            forall|k: int|
                0 <= k <= all.len() ==> i32::MIN <= #[trigger] possible_to(all, k) <= i32::MAX,
            acc == possible_to(all, i as int),
        decreases ls.len() - i,
    {
        proof {
            assert(all[i as int] == ls@[i as int]@);
            assert(game(all[i as int]) is Some);
            assert(i32::MIN <= possible_to(all, i + 1) <= i32::MAX);
        }
        let (n, xs) = game_of(&ls[i]);
        if game_possible(xs) {
            acc = acc + n;
        }
        i += 1;
    }
    acc
}

/// The larger of two counts.
pub open spec fn larger(a: i32, b: i32) -> i32 {
    if b > a {
        b
    } else {
        a
    }
}

/// The least handful that holds the first `k` handfuls: of each colour the
/// largest count, or none.
pub open spec fn least(xs: Seq<Cubes>, k: int) -> Cubes
    decreases k,
{
    if k <= 0 {
        Cubes { red: 0, green: 0, blue: 0 }
    } else {
        let m = least(xs, k - 1);
        Cubes {
            red: larger(m.red, xs[k - 1].red),
            green: larger(m.green, xs[k - 1].green),
            blue: larger(m.blue, xs[k - 1].blue),
        }
    }
}

/// The power of the least handful that holds all handfuls of a game.
pub open spec fn game_power(l: Seq<char>) -> int {
    let m = least(game(l).unwrap().1, game(l).unwrap().1.len() as int);
    m.red * m.green * m.blue
}

/// The sum of the powers of the first `k` games.
pub open spec fn powers_to(ls: Seq<Seq<char>>, k: int) -> int
    decreases k,
{
    if k <= 0 {
        0
    } else {
        powers_to(ls, k - 1) + game_power(ls[k - 1])
    }
}

/// The products that the power of every game takes and the sums of the
/// powers fit 32 bits.
pub open spec fn powerful(ls: Seq<Seq<char>>) -> bool {
    forall|k: int|
        0 <= k < ls.len() ==> {
            let m = least(game(#[trigger] ls[k]).unwrap().1, game(ls[k]).unwrap().1.len() as int);
            &&& i32::MIN <= m.red * m.green <= i32::MAX
            &&& i32::MIN <= m.red * m.green * m.blue <= i32::MAX
            &&& i32::MIN <= powers_to(ls, k + 1) <= i32::MAX
        }
}

/// The sum of the powers of the least handfuls that hold the games.
pub fn solve2(text: &str) -> (r: i32)
    requires
        legible(lines_of(text@)),
        powerful(lines_of(text@)),
    ensures
        r == powers_to(lines_of(text@), lines_of(text@).len() as int),
{
    let ls = lines(text);
    let ghost all = lines_of(text@);
    let mut acc: i32 = 0;
    let mut i: usize = 0;
    while i < ls.len()
        invariant
            i <= ls.len(),
            all == views(ls@),
            legible(all),
            powerful(all),
            acc == powers_to(all, i as int),
        decreases ls.len() - i,
    {
        proof {
            assert(all[i as int] == ls@[i as int]@);
            assert(game(all[i as int]) is Some);
        }
        let (n, xs) = game_of(&ls[i]);
        let mut m = Cubes { red: 0, green: 0, blue: 0 };
        let mut k: usize = 0;
        while k < xs.len()
            invariant
                k <= xs.len(),
                m == least(xs@, k as int),
            decreases xs.len() - k,
        {
            m = maximum(m, xs[k]);
            k += 1;
        }
        acc = acc + power(m);
        i += 1;
    }
    acc
}

} // verus!
