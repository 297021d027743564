//! Workflows that sort machine parts by their ratings, and the ranges of
//! ratings that they accept.
use crate::text::{
    chars_of, find_char, is_digit, lines, lines_of, paragraphs, paragraphs_of, parse_isize,
    position_of, signed_number, split_any, split_on, string_of, views, within,
};
use vstd::prelude::*;
use vstd::string::StrSliceExecFns;
use vstd::string::StringExecFns;

verus! {

/// Where a part goes next.
#[derive(Clone, Debug, PartialEq, Eq, Hash, PartialOrd, Ord)]
pub enum Target {
    Reject,
    Accept,
    Step(String),
}

#[derive(Clone, Copy, Debug, PartialEq, Eq, Hash, PartialOrd, Ord, Structural)]
pub enum Op {
    Greater,
    Lesser,
}

#[derive(Clone, Copy, Debug, PartialEq, Eq, Hash, PartialOrd, Ord, Structural)]
pub enum Key {
    X,
    M,
    A,
    S,
}

/// A test of one rating of a part against a value.
#[derive(Clone, Copy, Debug, PartialEq, Eq, Hash, PartialOrd, Ord, Structural)]
pub struct Guard {
    pub op: Op,
    pub value: isize,
    pub key: Key,
}

#[derive(Clone, Debug, PartialEq, Eq, Hash, PartialOrd, Ord)]
pub struct Step {
    pub guard: Guard,
    pub on_true: Target,
    pub on_false: Target,
}

#[derive(Clone, Copy, Debug, PartialEq, Eq, Hash, PartialOrd, Ord, Structural)]
pub struct Part {
    pub x: isize,
    pub m: isize,
    pub a: isize,
    pub s: isize,
}

impl Part {
    pub open spec fn rating(self, k: Key) -> isize {
        match k {
            Key::X => self.x,
            Key::M => self.m,
            Key::A => self.a,
            Key::S => self.s,
        }
    }

    /// The rating of the part under a key.
    #[verifier::when_used_as_spec(rating)]
    pub fn index(self, k: Key) -> (r: isize)
        ensures
            r == self.rating(k),
    {
        match k {
            Key::X => self.x,
            Key::M => self.m,
            Key::A => self.a,
            Key::S => self.s,
        }
    }
}

/// The ratings from `min` to `max`, both included.
#[derive(Clone, Copy, Debug, PartialEq, Eq, Hash, PartialOrd, Ord, Structural)]
pub struct Range {
    pub min: isize,
    pub max: isize,
}

#[derive(Clone, Copy, Debug, PartialEq, Eq, Hash, PartialOrd, Ord, Structural)]
pub struct PartRange {
    pub x: Range,
    pub m: Range,
    pub a: Range,
    pub s: Range,
}

impl PartRange {
    pub open spec fn range(self, k: Key) -> Range {
        match k {
            Key::X => self.x,
            Key::M => self.m,
            Key::A => self.a,
            Key::S => self.s,
        }
    }

    /// The range of ratings under a key.
    #[verifier::when_used_as_spec(range)]
    pub fn index(self, k: Key) -> (r: Range)
        ensures
            r == self.range(k),
    {
        match k {
            Key::X => self.x,
            Key::M => self.m,
            Key::A => self.a,
            Key::S => self.s,
        }
    }

    pub open spec fn with(self, k: Key, r: Range) -> PartRange {
        match k {
            Key::X => PartRange { x: r, ..self },
            Key::M => PartRange { m: r, ..self },
            Key::A => PartRange { a: r, ..self },
            Key::S => PartRange { s: r, ..self },
        }
    }

    /// Sets the range of ratings under a key.
    pub fn index_mut(&mut self, k: Key, r: Range)
        ensures
            *final(self) == old(self).with(k, r),
    {
        match k {
            Key::X => self.x = r,
            Key::M => self.m = r,
            Key::A => self.a = r,
            Key::S => self.s = r,
        }
    }
}

/// The part passes the test.
pub open spec fn passes(g: Guard, p: Part) -> bool {
    match g.op {
        Op::Greater => p.rating(g.key) > g.value,
        Op::Lesser => p.rating(g.key) < g.value,
    }
}

/// Whether the part passes the test.
pub fn matches(g: Guard, p: Part) -> (r: bool)
    ensures
        r == passes(g, p),
{
    match g.op {
        Op::Greater => p.index(g.key) > g.value,
        Op::Lesser => p.index(g.key) < g.value,
    }
}

/// Where the step sends the part.
pub fn next(s: Step, p: Part) -> (r: Target)
    ensures
        r == if passes(s.guard, p) {
            s.on_true
        } else {
            s.on_false
        },
{
    if matches(s.guard, p) {
        s.on_true
    } else {
        s.on_false
    }
}

/// The sum of the ratings of a part.
pub fn sum(p: Part) -> (r: isize)
    requires
        isize::MIN <= p.x + p.m <= isize::MAX,
        isize::MIN <= p.x + p.m + p.a <= isize::MAX,
        isize::MIN <= p.x + p.m + p.a + p.s <= isize::MAX,
    ensures
        r == p.x + p.m + p.a + p.s,
{
    p.x + p.m + p.a + p.s
}

/// The number of ratings in a range.
pub fn length(r: Range) -> (n: isize)
    requires
        isize::MIN <= r.max - r.min <= isize::MAX,
        isize::MIN <= r.max - r.min + 1 <= isize::MAX,
    ensures
        n == r.max - r.min + 1,
{
    r.max - r.min + 1
}

pub open spec fn span(r: Range) -> int {
    r.max - r.min + 1
}

pub open spec fn fits(x: int) -> bool {
    isize::MIN <= x <= isize::MAX
}

/// The number of parts whose ratings lie in the ranges.
pub fn possibilities(p: PartRange) -> (n: isize)
    requires
        fits(p.x.max - p.x.min),
        fits(p.m.max - p.m.min),
        fits(p.a.max - p.a.min),
        fits(p.s.max - p.s.min),
        fits(span(p.x)),
        fits(span(p.m)),
        fits(span(p.a)),
        fits(span(p.s)),
        fits(span(p.x) * span(p.m)),
        fits(span(p.x) * span(p.m) * span(p.a)),
        fits(span(p.x) * span(p.m) * span(p.a) * span(p.s)),
    ensures
        n == span(p.x) * span(p.m) * span(p.a) * span(p.s),
{
    length(p.x) * length(p.m) * length(p.a) * length(p.s)
}

/// The ratings of the range below `p`, if there are any.
pub open spec fn below_of(p: int, r: Range) -> Option<Range> {
    if r.min >= p {
        None
    } else {
        Some(
            Range {
                min: r.min,
                max: if r.max <= p - 1 {
                    r.max
                } else {
                    (p - 1) as isize
                },
            },
        )
    }
}

/// The ratings of the range above `p`, if there are any.
pub open spec fn above_of(p: int, r: Range) -> Option<Range> {
    if r.max <= p {
        None
    } else {
        Some(
            Range {
                max: r.max,
                min: if r.min >= p + 1 {
                    r.min
                } else {
                    (p + 1) as isize
                },
            },
        )
    }
}

/// The ratings of the range below `p`, if there are any.
pub fn below(p: isize, r: Range) -> (out: Option<Range>)
    ensures
        out == below_of(p as int, r),
{
    if r.min >= p {
        None
    } else {
        let q = p - 1;
        Some(Range { max: if r.max <= q { r.max } else { q }, ..r })
    }
}

/// The ratings of the range above `p`, if there are any.
pub fn above(p: isize, r: Range) -> (out: Option<Range>)
    ensures
        out == above_of(p as int, r),
{
    if r.max <= p {
        None
    } else {
        let q = p + 1;
        Some(Range { min: if r.min >= q { r.min } else { q }, ..r })
    }
}

/// The ratings of a range that pass a test, and those that fail it.
pub open spec fn sorted_by(g: Guard, r: Range) -> (Option<Range>, Option<Range>) {
    match g.op {
        Op::Lesser => (below_of(g.value as int, r), above_of(g.value - 1, r)),
        Op::Greater => (above_of(g.value as int, r), below_of(g.value + 1, r)),
    }
}

/// The ratings of the range that pass the test, and those that fail it.
pub fn split(g: Guard, r: Range) -> (out: (Option<Range>, Option<Range>))
    requires
        isize::MIN < g.value < isize::MAX,
    ensures
        out == sorted_by(g, r),
{
    match g.op {
        Op::Lesser => (below(g.value, r), above(g.value - 1, r)),
        Op::Greater => (above(g.value, r), below(g.value + 1, r)),
    }
}

/// The rating `v` lies in the range, if there is one.
pub open spec fn holds(r: Option<Range>, v: int) -> bool {
    match r {
        Some(x) => x.min <= v <= x.max,
        None => false,
    }
}

/// The rating `v` passes the test.
pub open spec fn passes_value(g: Guard, v: int) -> bool {
    match g.op {
        Op::Greater => v > g.value,
        Op::Lesser => v < g.value,
    }
}

/// To split a range by a test sorts its ratings: each rating of the range
/// lies in the first part if it passes the test and in the second if it
/// fails, and the parts hold no other ratings.
pub proof fn lemma_split_sorts(g: Guard, r: Range, v: int)
    requires
        isize::MIN < g.value < isize::MAX,
    ensures
        holds(sorted_by(g, r).0, v) <==> r.min <= v <= r.max && passes_value(g, v),
        holds(sorted_by(g, r).1, v) <==> r.min <= v <= r.max && !passes_value(g, v),
{
}

/// The part ranges that pass the test, and those that fail it.
pub fn split_part(g: Guard, r: PartRange) -> (out: (Option<PartRange>, Option<PartRange>))
    requires
        isize::MIN < g.value < isize::MAX,
    ensures
        out.0 == match sorted_by(g, r.range(g.key)).0 {
            Some(x) => Some(r.with(g.key, x)),
            None => None,
        },
        out.1 == match sorted_by(g, r.range(g.key)).1 {
            Some(x) => Some(r.with(g.key, x)),
            None => None,
        },
{
    let (a, b) = split(g, r.index(g.key));
    let first = match a {
        Some(x) => {
            let mut u = r;
            u.index_mut(g.key, x);
            Some(u)
        },
        None => None,
    };
    let second = match b {
        Some(x) => {
            let mut u = r;
            u.index_mut(g.key, x);
            Some(u)
        },
        None => None,
    };
    (first, second)
}

/// The number that a word writes, if it is one that fits a machine word.
pub open spec fn number(w: Seq<char>) -> Option<int> {
    within(signed_number(w), isize::MIN as int, isize::MAX as int)
}

/// The key that a word names.
pub open spec fn key_of(k: Seq<char>) -> Option<Key> {
    if k == seq!['x'] {
        Some(Key::X)
    } else if k == seq!['m'] {
        Some(Key::M)
    } else if k == seq!['a'] {
        Some(Key::A)
    } else if k == seq!['s'] {
        Some(Key::S)
    } else {
        None
    }
}

/// The test that a text writes: a key, the sign `>` or `<` and a value. A
/// text that holds `>` is split at every `>`, another at every `<`.
pub open spec fn guard(g: Seq<char>) -> Option<Guard> {
    let greater = g.contains('>');
    let p = crate::text::split(
        g,
        if greater {
            seq!['>']
        } else {
            seq!['<']
        },
    );
    if p.len() == 2 && key_of(p[0]) is Some && number(p[1]) is Some {
        Some(
            Guard {
                op: if greater {
                    Op::Greater
                } else {
                    Op::Lesser
                },
                value: number(p[1]).unwrap() as isize,
                key: key_of(p[0]).unwrap(),
            },
        )
    } else {
        None
    }
}

fn guard_of(g: &Vec<char>) -> (r: Option<Guard>)
    ensures
        r == guard(g@),
{
    let at = position_of(g, 0, '>');
    proof {
        assert(g@.skip(0) =~= g@);
        if at < g.len() {
            assert(g@.contains('>'));
        } else {
            assert(!g@.contains('>'));
        }
    }
    let (c, op) = if at < g.len() {
        ('>', Op::Greater)
    } else {
        ('<', Op::Lesser)
    };
    let p = split_on(g, c);
    if p.len() != 2 {
        return None;
    }
    assert(views(p@)[0] == p@[0]@ && views(p@)[1] == p@[1]@);
    let k = &p[0];
    if k.len() != 1 {
        return None;
    }
    let key = match k[0] {
        'x' => Key::X,
        'm' => Key::M,
        'a' => Key::A,
        's' => Key::S,
        _ => {
            assert(key_of(k@) is None) by {
                assert(seq!['x'][0] == 'x' && seq!['m'][0] == 'm' && seq!['a'][0] == 'a' && seq![
                    's',
                ][0] == 's');
            }
            return None;
        },
    };
    proof {
        assert(k@ =~= seq![k@[0]]);
        assert(seq!['x'][0] == 'x' && seq!['m'][0] == 'm' && seq!['a'][0] == 'a' && seq!['s'][0]
            == 's');
    }
    match parse_isize(&p[1]) {
        Some(value) => Some(Guard { op, value, key }),
        None => None,
    }
}

/// Reads a test.
pub fn parse_guard(g: &str) -> (r: Guard)
    requires
        guard(g@) is Some,
    ensures
        Some(r) == guard(g@),
{
    match guard_of(&chars_of(g)) {
        Some(x) => x,
        None => Guard { op: Op::Lesser, value: 0, key: Key::X },
    }
}

/// What a target stands for: `A` for acceptance, `R` for rejection and
/// anything else for the step of that name.
pub open spec fn is_target(t: Seq<char>, r: Target) -> bool {
    if t == seq!['A'] {
        r == Target::Accept
    } else if t == seq!['R'] {
        r == Target::Reject
    } else {
        r matches Target::Step(x) && x@ == t
    }
}

/// Reads a target.
pub fn parse_target(t: &str) -> (r: Target)
    ensures
        is_target(t@, r),
{
    let c = chars_of(t);
    proof {
        assert(seq!['A'][0] == 'A' && seq!['R'][0] == 'R');
        if c.len() == 1 {
            assert(c@ =~= seq![c@[0]]);
        }
    }
    if c.len() == 1 && c[0] == 'A' {
        Target::Accept
    } else if c.len() == 1 && c[0] == 'R' {
        Target::Reject
    } else {
        Target::Step(String::from_str(t))
    }
}

/// What an instruction says: a test and, behind the only colon, a target.
pub open spec fn is_instruction(i: Seq<char>, r: (Target, Guard)) -> bool {
    let p = crate::text::split(i, seq![':']);
    p.len() == 2 && guard(p[0]) == Some(r.1) && is_target(p[1], r.0)
}

/// An instruction can be read: it has one colon and a test before it.
pub open spec fn instruction_ok(i: Seq<char>) -> bool {
    let p = crate::text::split(i, seq![':']);
    p.len() == 2 && guard(p[0]) is Some
}

/// Reads an instruction.
pub fn parse_instruction(i: &str) -> (r: (Target, Guard))
    requires
        instruction_ok(i@),
    ensures
        is_instruction(i@, r),
{
    let c = chars_of(i);
    let at = position_of(&c, 0, ':');
    let p = split_on(&c, ':');
    assert(views(p@)[0] == p@[0]@ && views(p@)[1] == p@[1]@);
    proof {
        crate::day15::lemma_first_piece(c@, seq![':'], Seq::empty());
        lemma_two_pieces(c@, ':');
        assert(c@.skip(0) =~= c@);
    }
    let guard = match guard_of(&p[0]) {
        Some(g) => g,
        None => Guard { op: Op::Lesser, value: 0, key: Key::X },
    };
    let target = parse_target(i.substring_char(at + 1, c.len()));
    (target, guard)
}

/// Where a text splits in two at a separator, the second piece is what
/// follows the first separator.
pub proof fn lemma_two_pieces(s: Seq<char>, sep: char)
    requires
        crate::text::split(s, seq![sep]).len() == 2,
    ensures
        find_char(s, sep) < s.len(),
        crate::text::split(s, seq![sep])[0] == s.take(find_char(s, sep)),
        crate::text::split(s, seq![sep])[1] == s.skip(find_char(s, sep) + 1),
{
    lemma_split_at_first(s, sep, Seq::empty());
    let k = find_char(s, sep);
    lemma_no_sep_one_piece(s.skip(k + 1), sep, Seq::empty());
    assert(Seq::<char>::empty() + s.take(k) =~= s.take(k));
    assert(Seq::<char>::empty() + s.skip(k + 1) =~= s.skip(k + 1));
}

/// A split begins with what stands before the first separator; the other
/// pieces are those of what follows it.
pub proof fn lemma_split_at_first(s: Seq<char>, sep: char, cur: Seq<char>)
    ensures
        0 <= find_char(s, sep) <= s.len(),
        find_char(s, sep) == s.len() ==> crate::text::split_from(s, seq![sep], cur) == seq![
            cur + s,
        ],
        find_char(s, sep) < s.len() ==> crate::text::split_from(s, seq![sep], cur) == seq![
            cur + s.take(find_char(s, sep)),
        ] + crate::text::split(s.skip(find_char(s, sep) + 1), seq![sep]),
    decreases s.len(),
{
    if s.len() == 0 {
        assert(cur + s =~= cur);
    } else if s[0] == sep {
        assert(seq![sep].contains(s[0])) by {
            assert(seq![sep][0] == sep);
        }
        assert(cur + s.take(0) =~= cur);
        assert(s.skip(1) =~= s.drop_first());
    } else {
        assert(!seq![sep].contains(s[0]));
        lemma_split_at_first(s.drop_first(), sep, cur.push(s[0]));
        let k = find_char(s.drop_first(), sep);
        assert(cur.push(s[0]) + s.drop_first() =~= cur + s);
        assert(cur.push(s[0]) + s.drop_first().take(k) =~= cur + s.take(k + 1));
        if k < s.drop_first().len() {
            assert(s.drop_first().skip(k + 1) =~= s.skip(k + 2));
        }
    }
}

/// Every split has a piece; one with a single piece had no separator.
pub proof fn lemma_no_sep_one_piece(s: Seq<char>, sep: char, cur: Seq<char>)
    ensures
        crate::text::split_from(s, seq![sep], cur).len() >= 1,
        crate::text::split_from(s, seq![sep], cur).len() == 1 ==> crate::text::split_from(
            s,
            seq![sep],
            cur,
        ) == seq![cur + s],
    decreases s.len(),
{
    lemma_split_at_first(s, sep, cur);
    let k = find_char(s, sep);
    if k < s.len() {
        lemma_no_sep_one_piece(s.skip(k + 1), sep, Seq::empty());
    }
}

/// The rating that a run of digits writes, if it fits a machine word.
pub open spec fn rating_of(run: Seq<char>) -> Seq<isize> {
    match number(run) {
        Some(v) => seq![v as isize],
        None => Seq::empty(),
    }
}

/// The ratings that the runs of digits in a text write, where `cur` is the
/// run that has been begun before `s`.
pub open spec fn ratings(s: Seq<char>, cur: Seq<char>) -> Seq<isize>
    decreases s.len(),
{
    if s.len() == 0 {
        rating_of(cur)
    } else if is_digit(s[0]) {
        ratings(s.drop_first(), cur.push(s[0]))
    } else {
        rating_of(cur) + ratings(s.drop_first(), Seq::empty())
    }
}

/// The part that a text describes: there are four runs of digits in it
/// that write a rating, in the order x, m, a, s.
pub open spec fn part(p: Seq<char>) -> Option<Part> {
    let r = ratings(p, Seq::empty());
    if r.len() == 4 {
        Some(Part { x: r[0], m: r[1], a: r[2], s: r[3] })
    } else {
        None
    }
}

/// Reads a part.
pub fn parse_part(p: &str) -> (r: Part)
    requires
        part(p@) is Some,
    ensures
        Some(r) == part(p@),
{
    let c = chars_of(p);
    let mut out: Vec<isize> = Vec::new();
    let mut cur: Vec<char> = Vec::new();
    let mut i: usize = 0;
    proof {
        assert(c@.skip(0) =~= c@);
        assert(out@ + ratings(c@, Seq::empty()) =~= ratings(c@, Seq::empty()));
    }
    while i < c.len()
        invariant
            i <= c.len(),
            ratings(c@, Seq::empty()) == out@ + ratings(c@.skip(i as int), cur@),
        decreases c.len() - i,
    {
        let ch = c[i];
        let ghost rest = c@.skip(i as int);
        let ghost before = out@;
        let ghost begun = cur@;
        proof {
            assert(rest[0] == ch);
            assert(rest.drop_first() =~= c@.skip(i + 1));
        }
        if ch >= '0' && ch <= '9' {
            cur.push(ch);
        } else {
            match parse_isize(&cur) {
                Some(v) => {
                    out.push(v);
                },
                None => {},
            }
            cur = Vec::new();
            proof {
                assert(out@ =~= before + rating_of(begun));
                assert(cur@ =~= Seq::<char>::empty());
                assert(before + (rating_of(begun) + ratings(rest.drop_first(), Seq::empty()))
                    =~= (before + rating_of(begun)) + ratings(rest.drop_first(), Seq::empty()));
            }
        }
        i += 1;
    }
    let ghost before = out@;
    match parse_isize(&cur) {
        Some(v) => {
            out.push(v);
        },
        None => {},
    }
    proof {
        assert(c@.skip(c@.len() as int).len() == 0);
        assert(out@ =~= before + rating_of(cur@));
    }
    Part { x: out[0], m: out[1], a: out[2], s: out[3] }
}

/// The decimal digits of a number.
pub open spec fn digits(n: int) -> Seq<char>
    decreases n,
{
    if n < 10 {
        seq![(48 + n) as char]
    } else {
        digits(n / 10).push((48 + n % 10) as char)
    }
}

/// The name of the step at place `j` of a workflow: the name of the
/// workflow, with the place behind it if it is not the first.
pub open spec fn step_name(base: Seq<char>, j: int) -> Seq<char> {
    if j == 0 {
        base
    } else {
        base + digits(j)
    }
}

/// A name with a number behind it. Calls std's `format!`, which writes the
/// name and then the number in decimal digits, the first of them not zero
/// unless the number is.
#[verifier::external_body]
fn numbered(base: &String, n: usize) -> (r: String)
    ensures
        r@ == base@ + digits(n as int),
{
    format!("{}{}", base, n)
}

fn target_of(c: &Vec<char>) -> (r: Target)
    ensures
        is_target(c@, r),
{
    proof {
        assert(seq!['A'][0] == 'A' && seq!['R'][0] == 'R');
        if c.len() == 1 {
            assert(c@ =~= seq![c@[0]]);
        }
    }
    if c.len() == 1 && c[0] == 'A' {
        Target::Accept
    } else if c.len() == 1 && c[0] == 'R' {
        Target::Reject
    } else {
        Target::Step(string_of(c))
    }
}

fn instruction_of(c: &Vec<char>) -> (r: (Target, Guard))
    requires
        instruction_ok(c@),
    ensures
        is_instruction(c@, r),
{
    let p = split_on(c, ':');
    assert(views(p@)[0] == p@[0]@ && views(p@)[1] == p@[1]@);
    let guard = match guard_of(&p[0]) {
        Some(g) => g,
        None => Guard { op: Op::Lesser, value: 0, key: Key::X },
    };
    (target_of(&p[1]), guard)
}

/// The text names a workflow and lists, between braces, instructions that
/// can be read and a last target.
pub open spec fn workflow_ok(w: Seq<char>) -> bool {
    let p = crate::text::split(w, seq!['}', '{']);
    p.len() == 3 && {
        let items = crate::text::split(p[1], seq![',']);
        forall|j: int| 0 <= j < items.len() - 1 ==> instruction_ok(#[trigger] items[j])
    }
}

/// The steps of a workflow, the last first: each instruction becomes a step
/// that sends the parts that pass its test to its target and the others to
/// the step behind it, the last instruction to the last target of the
/// list. The first step has the name of the workflow, the others have their
/// place in the list behind it.
#[verifier::opaque]
pub open spec fn unrolled(w: Seq<char>, r: Seq<(String, Step)>) -> bool {
    let p = crate::text::split(w, seq!['}', '{']);
    let items = crate::text::split(p[1], seq![',']);
    let n = items.len() as int;
    &&& r.len() == n - 1
    &&& forall|i: int|
        0 <= i < r.len() ==> {
            let j = n - 2 - i;
            &&& (#[trigger] r[i]).0@ == step_name(p[0], j)
            &&& is_instruction(items[j], (r[i].1.on_true, r[i].1.guard))
            &&& if i == 0 {
                is_target(items[n - 1], r[i].1.on_false)
            } else {
                r[i].1.on_false matches Target::Step(x) && x@ == step_name(p[0], j + 1)
            }
        }
}

/// The number of steps of the workflow that a line describes: one for each
/// but the last of the items between its braces.
pub open spec fn step_count(w: Seq<char>) -> int {
    crate::text::split(crate::text::split(w, seq!['}', '{'])[1], seq![',']).len() - 1
}

/// Reads a workflow as a chain of steps, the last first.
pub fn parse_workflow_unroll(w: &str) -> (r: Vec<(String, Step)>)
    requires
        workflow_ok(w@),
    ensures
        unrolled(w@, r@),
        r@.len() == step_count(w@),
{
    let c = chars_of(w);
    let mut braces: Vec<char> = Vec::new();
    braces.push('}');
    braces.push('{');
    assert(braces@ =~= seq!['}', '{']);
    let p = split_any(&c, &braces);
    assert(views(p@)[0] == p@[0]@ && views(p@)[1] == p@[1]@);
    let basename = string_of(&p[0]);
    let items = split_on(&p[1], ',');
    let ghost all = views(items@);
    let n = items.len();
    assert(all[n - 1] == items@[n - 1]@);
    let default = target_of(&items[n - 1]);
    let mut acc: Vec<(String, Step)> = Vec::new();
    let mut on_false = default;
    let mut pos: usize = n - 1;
    while pos > 0
        invariant
            pos <= n - 1,
            n == items@.len(),
            all == views(items@),
            all == crate::text::split(p@[1]@, seq![',']),
            basename@ == p@[0]@,
            forall|j: int| 0 <= j < n - 1 ==> instruction_ok(#[trigger] all[j]),
            acc@.len() == n - 1 - pos,
            if acc@.len() == 0 {
                is_target(all[n - 1], on_false)
            } else {
                on_false matches Target::Step(x) && x@ == step_name(basename@, pos as int)
            },
            forall|i: int|
                0 <= i < acc@.len() ==> {
                    let j = n - 2 - i;
                    &&& (#[trigger] acc@[i]).0@ == step_name(basename@, j)
                    &&& is_instruction(all[j], (acc@[i].1.on_true, acc@[i].1.guard))
                    &&& if i == 0 {
                        is_target(all[n - 1], acc@[i].1.on_false)
                    } else {
                        acc@[i].1.on_false matches Target::Step(x) && x@ == step_name(
                            basename@,
                            j + 1,
                        )
                    }
                },
        decreases pos,
    {
        pos -= 1;
        assert(all[pos as int] == items@[pos as int]@);
        let (on_true, guard) = instruction_of(&items[pos]);
        let name = if pos == 0 {
            basename.clone()
        } else {
            numbered(&basename, pos)
        };
        let ghost before = acc@;
        let label = name.clone();
        acc.push((label, Step { on_true, on_false, guard }));
        on_false = Target::Step(name);
        proof {
            assert forall|i: int| 0 <= i < acc@.len() implies {
                let j = n - 2 - i;
                &&& (#[trigger] acc@[i]).0@ == step_name(basename@, j)
                &&& is_instruction(all[j], (acc@[i].1.on_true, acc@[i].1.guard))
                &&& if i == 0 {
                    is_target(all[n - 1], acc@[i].1.on_false)
                } else {
                    acc@[i].1.on_false matches Target::Step(x) && x@ == step_name(basename@, j + 1)
                }
            } by {
                if i < before.len() {
                    assert(acc@[i] == before[i]);
                }
            }
        }
    }
    proof {
        reveal(unrolled);
    }
    acc
}

/// The steps of all workflows, each under its name. Of two steps with one
/// name the later counts.
pub type Steps = Vec<(String, Step)>;

/// The place of the last step with the name, or `-1` if there is none.
pub open spec fn step_at(wfs: Seq<(String, Step)>, name: Seq<char>) -> int
    decreases wfs.len(),
{
    if wfs.len() == 0 {
        -1
    } else if wfs.last().0@ == name {
        wfs.len() - 1
    } else {
        step_at(wfs.drop_last(), name)
    }
}

fn find_step(wfs: &Steps, name: &String) -> (r: Option<usize>)
    ensures
        match r {
            Some(i) => i == step_at(wfs@, name@) && i < wfs@.len(),
            None => step_at(wfs@, name@) < 0,
        },
{
    let mut i: usize = wfs.len();
    proof {
        assert(wfs@.take(wfs@.len() as int) =~= wfs@);
    }
    while i > 0
        invariant
            i <= wfs.len(),
            step_at(wfs@, name@) == step_at(wfs@.take(i as int), name@),
        decreases i,
    {
        proof {
            let t = wfs@.take(i as int);
            assert(t.last() == wfs@[i - 1]);
            assert(t.drop_last() =~= wfs@.take(i - 1));
        }
        if wfs[i - 1].0 == *name {
            return Some(i - 1);
        }
        i -= 1;
    }
    None
}

/// Whether the part is accepted by the workflows from the step `current`
/// on, if that is known after `fuel` steps. A step that is missing gives no
/// answer.
#[verifier::opaque]
pub open spec fn verdict(wfs: Seq<(String, Step)>, p: Part, current: Seq<char>, fuel: nat) -> Option<
    bool,
>
    decreases fuel,
{
    let i = step_at(wfs, current);
    if fuel == 0 || i < 0 {
        None
    } else {
        let t = if passes(wfs[i].1.guard, p) {
            wfs[i].1.on_true
        } else {
            wfs[i].1.on_false
        };
        match t {
            Target::Reject => Some(false),
            Target::Accept => Some(true),
            Target::Step(x) => verdict(wfs, p, x@, (fuel - 1) as nat),
        }
    }
}

/// The workflows come to a verdict on the part.
#[verifier::opaque]
pub open spec fn decided(wfs: Seq<(String, Step)>, p: Part, current: Seq<char>) -> bool {
    exists|fuel: nat| #[trigger] verdict(wfs, p, current, fuel) is Some
}

/// The least number of steps after which the verdict is known.
#[verifier::opaque]
pub open spec fn patience(wfs: Seq<(String, Step)>, p: Part, current: Seq<char>) -> nat {
    choose|fuel: nat|
        (#[trigger] verdict(wfs, p, current, fuel)) is Some && forall|g: nat|
            g < fuel ==> (#[trigger] verdict(wfs, p, current, g)) is None
}

/// Whether the workflows accept the part from the step `current` on.
pub open spec fn accepts(wfs: Seq<(String, Step)>, p: Part, current: Seq<char>) -> bool {
    verdict(wfs, p, current, patience(wfs, p, current)) == Some(true)
}

pub proof fn lemma_patience(wfs: Seq<(String, Step)>, p: Part, current: Seq<char>, fuel: nat)
    requires
        verdict(wfs, p, current, fuel) is Some,
    ensures
        verdict(wfs, p, current, patience(wfs, p, current)) is Some,
        patience(wfs, p, current) <= fuel,
        forall|g: nat|
            g < patience(wfs, p, current) ==> (#[trigger] verdict(wfs, p, current, g)) is None,
        decided(wfs, p, current),
    decreases fuel,
{
    reveal(decided);
    reveal(patience);
    if exists|g: nat| g < fuel && (#[trigger] verdict(wfs, p, current, g)) is Some {
        let g = choose|g: nat| g < fuel && (#[trigger] verdict(wfs, p, current, g)) is Some;
        lemma_patience(wfs, p, current, g);
    } else {
        assert(verdict(wfs, p, current, fuel) is Some && forall|g: nat|
            g < fuel ==> (#[trigger] verdict(wfs, p, current, g)) is None);
        let l = patience(wfs, p, current);
        if l > fuel {
            assert(verdict(wfs, p, current, fuel) is None);
        }
    }
}

pub proof fn lemma_verdict_more(wfs: Seq<(String, Step)>, p: Part, current: Seq<char>, f: nat, g: nat)
    requires
        verdict(wfs, p, current, f) is Some,
        f <= g,
    ensures
        verdict(wfs, p, current, g) == verdict(wfs, p, current, f),
    decreases f,
{
    reveal(verdict);
    let i = step_at(wfs, current);
    let t = if passes(wfs[i].1.guard, p) {
        wfs[i].1.on_true
    } else {
        wfs[i].1.on_false
    };
    if let Target::Step(x) = t {
        lemma_verdict_more(wfs, p, x@, (f - 1) as nat, (g - 1) as nat);
    }
}

/// What is known of a verdict that is to come: the step exists, and where
/// it sends the part on, the verdict from there comes sooner and is the
/// same.
pub proof fn lemma_next_step(wfs: Seq<(String, Step)>, p: Part, current: Seq<char>)
    requires
        decided(wfs, p, current),
    ensures
        step_at(wfs, current) >= 0,
        ({
            let i = step_at(wfs, current);
            let t = if passes(wfs[i].1.guard, p) {
                wfs[i].1.on_true
            } else {
                wfs[i].1.on_false
            };
            match t {
                Target::Reject => !accepts(wfs, p, current),
                Target::Accept => accepts(wfs, p, current),
                Target::Step(x) => decided(wfs, p, x@) && patience(wfs, p, x@) < patience(
                    wfs,
                    p,
                    current,
                ) && accepts(wfs, p, x@) == accepts(wfs, p, current),
            }
        }),
{
    reveal(decided);
    let f = choose|f: nat| #[trigger] verdict(wfs, p, current, f) is Some;
    lemma_patience(wfs, p, current, f);
    let l = patience(wfs, p, current);
    reveal(verdict);
    let i = step_at(wfs, current);
    let t = if passes(wfs[i].1.guard, p) {
        wfs[i].1.on_true
    } else {
        wfs[i].1.on_false
    };
    if let Target::Step(x) = t {
        lemma_patience(wfs, p, x@, (l - 1) as nat);
        lemma_verdict_more(wfs, p, x@, patience(wfs, p, x@), (l - 1) as nat);
    }
}

/// Whether the workflows accept the part from the step `current` on.
pub fn accepted(wfs: &Steps, p: Part, current: String) -> (r: bool)
    requires
        decided(wfs@, p, current@),
    ensures
        r == accepts(wfs@, p, current@),
    decreases patience(wfs@, p, current@),
{
    proof {
        lemma_next_step(wfs@, p, current@);
    }
    match find_step(wfs, &current) {
        None => false,
        Some(i) => {
            let step = &wfs[i].1;
            if matches(step.guard, p) {
                match &step.on_true {
                    Target::Reject => false,
                    Target::Accept => true,
                    Target::Step(x) => accepted(wfs, p, x.clone()),
                }
            } else {
                match &step.on_false {
                    Target::Reject => false,
                    Target::Accept => true,
                    Target::Step(x) => accepted(wfs, p, x.clone()),
                }
            }
        },
    }
}

/// The sum of the ratings of those of the first `k` parts that are
/// accepted.
pub open spec fn accepted_to(wfs: Seq<(String, Step)>, ps: Seq<Part>, initial: Seq<char>, k: int) -> int
    decreases k,
{
    if k <= 0 {
        0
    } else {
        accepted_to(wfs, ps, initial, k - 1) + if accepts(wfs, ps[k - 1], initial) {
            ps[k - 1].x + ps[k - 1].m + ps[k - 1].a + ps[k - 1].s
        } else {
            0
        }
    }
}

/// The workflows decide on part `k`, and the sums of its ratings and of
/// the ratings up to it fit a machine word.
pub open spec fn part_ok(wfs: Seq<(String, Step)>, ps: Seq<Part>, initial: Seq<char>, k: int) -> bool {
    &&& decided(wfs, ps[k], initial)
    &&& fits(ps[k].x + ps[k].m)
    &&& fits(ps[k].x + ps[k].m + ps[k].a)
    &&& fits(ps[k].x + ps[k].m + ps[k].a + ps[k].s)
    &&& fits(accepted_to(wfs, ps, initial, k + 1))
}

/// The sum of the ratings of the parts that the workflows accept.
pub fn part1(data: (Steps, Vec<Part>), initial: String) -> (r: isize)
    requires
        forall|k: int| 0 <= k < data.1@.len() ==> #[trigger] part_ok(data.0@, data.1@, initial@, k),
    ensures
        r == accepted_to(data.0@, data.1@, initial@, data.1@.len() as int),
{
    let (ws, ps) = data;
    let mut acc: isize = 0;
    let mut k: usize = 0;
    while k < ps.len()
        invariant
            k <= ps.len(),
            forall|k: int| 0 <= k < ps@.len() ==> #[trigger] part_ok(ws@, ps@, initial@, k),
            acc == accepted_to(ws@, ps@, initial@, k as int),
        decreases ps.len() - k,
    {
        assert(part_ok(ws@, ps@, initial@, k as int));
        let p = ps[k];
        if accepted(&ws, p, initial.clone()) {
            acc = acc + sum(p);
        }
        k += 1;
    }
    acc
}

/// The ranges of parts that the workflows accept of the range `p` from a
/// target on, if known after `fuel` steps: a step sends the parts of the
/// range that pass its test one way and the others the other way. A step
/// that is missing, or whose test has a value at the end of the numbers,
/// gives no answer.
#[verifier::opaque]
pub open spec fn sorted_out(wfs: Seq<(String, Step)>, p: PartRange, t: Target, fuel: nat) -> Option<
    Seq<PartRange>,
>
    decreases fuel,
{
    match t {
        Target::Reject => Some(Seq::empty()),
        Target::Accept => Some(seq![p]),
        Target::Step(x) => {
            let i = step_at(wfs, x@);
            if fuel == 0 || i < 0 || !(isize::MIN < wfs[i].1.guard.value < isize::MAX) {
                None
            } else {
                let g = wfs[i].1.guard;
                let halves = sorted_by(g, p.range(g.key));
                let first = match halves.0 {
                    Some(r) => sorted_out(wfs, p.with(g.key, r), wfs[i].1.on_true, (fuel - 1) as nat),
                    None => Some(Seq::empty()),
                };
                let second = match halves.1 {
                    Some(r) => sorted_out(wfs, p.with(g.key, r), wfs[i].1.on_false, (fuel - 1) as nat),
                    None => Some(Seq::empty()),
                };
                match (first, second) {
                    (Some(a), Some(b)) => Some(a + b),
                    _ => None,
                }
            }
        },
    }
}

/// The workflows come to an end with the range.
#[verifier::opaque]
pub open spec fn sortable(wfs: Seq<(String, Step)>, p: PartRange, t: Target) -> bool {
    exists|fuel: nat| #[trigger] sorted_out(wfs, p, t, fuel) is Some
}

/// The least number of steps after which the ranges are known.
#[verifier::opaque]
pub open spec fn effort(wfs: Seq<(String, Step)>, p: PartRange, t: Target) -> nat {
    choose|fuel: nat|
        (#[trigger] sorted_out(wfs, p, t, fuel)) is Some && forall|g: nat|
            g < fuel ==> (#[trigger] sorted_out(wfs, p, t, g)) is None
}

/// The ranges of parts that the workflows accept of the range `p` from a
/// target on.
pub open spec fn accepted_ranges(wfs: Seq<(String, Step)>, p: PartRange, t: Target) -> Seq<PartRange> {
    sorted_out(wfs, p, t, effort(wfs, p, t)).unwrap()
}

pub proof fn lemma_effort(wfs: Seq<(String, Step)>, p: PartRange, t: Target, fuel: nat)
    requires
        sorted_out(wfs, p, t, fuel) is Some,
    ensures
        sorted_out(wfs, p, t, effort(wfs, p, t)) is Some,
        effort(wfs, p, t) <= fuel,
        forall|g: nat| g < effort(wfs, p, t) ==> (#[trigger] sorted_out(wfs, p, t, g)) is None,
        sortable(wfs, p, t),
    decreases fuel,
{
    reveal(sortable);
    reveal(effort);
    if exists|g: nat| g < fuel && (#[trigger] sorted_out(wfs, p, t, g)) is Some {
        let g = choose|g: nat| g < fuel && (#[trigger] sorted_out(wfs, p, t, g)) is Some;
        lemma_effort(wfs, p, t, g);
    } else {
        assert(sorted_out(wfs, p, t, fuel) is Some && forall|g: nat|
            g < fuel ==> (#[trigger] sorted_out(wfs, p, t, g)) is None);
        let l = effort(wfs, p, t);
        if l > fuel {
            assert(sorted_out(wfs, p, t, fuel) is None);
        }
    }
}

pub proof fn lemma_sorted_out_more(wfs: Seq<(String, Step)>, p: PartRange, t: Target, f: nat, g: nat)
    requires
        sorted_out(wfs, p, t, f) is Some,
        f <= g,
    ensures
        sorted_out(wfs, p, t, g) == sorted_out(wfs, p, t, f),
    decreases f,
{
    reveal(sorted_out);
    if let Target::Step(x) = t {
        let i = step_at(wfs, x@);
        let gd = wfs[i].1.guard;
        let halves = sorted_by(gd, p.range(gd.key));
        if let Some(r) = halves.0 {
            lemma_sorted_out_more(
                wfs,
                p.with(gd.key, r),
                wfs[i].1.on_true,
                (f - 1) as nat,
                (g - 1) as nat,
            );
        }
        if let Some(r) = halves.1 {
            lemma_sorted_out_more(
                wfs,
                p.with(gd.key, r),
                wfs[i].1.on_false,
                (f - 1) as nat,
                (g - 1) as nat,
            );
        }
    }
}

/// What is known of a step that is to sort a range: the step exists, its
/// test can be applied, and the ranges that it sends on are sorted out
/// sooner; what is accepted of the range is what is accepted of them.
pub proof fn lemma_follow(wfs: Seq<(String, Step)>, p: PartRange, x: String)
    requires
        sortable(wfs, p, Target::Step(x)),
    ensures
        step_at(wfs, x@) >= 0,
        isize::MIN < wfs[step_at(wfs, x@)].1.guard.value < isize::MAX,
        ({
            let i = step_at(wfs, x@);
            let g = wfs[i].1.guard;
            let halves = sorted_by(g, p.range(g.key));
            let first = match halves.0 {
                Some(r) => accepted_ranges(wfs, p.with(g.key, r), wfs[i].1.on_true),
                None => Seq::empty(),
            };
            let second = match halves.1 {
                Some(r) => accepted_ranges(wfs, p.with(g.key, r), wfs[i].1.on_false),
                None => Seq::empty(),
            };
            &&& accepted_ranges(wfs, p, Target::Step(x)) == first + second
            &&& (halves.0 matches Some(r) ==> sortable(wfs, p.with(g.key, r), wfs[i].1.on_true)
                && effort(wfs, p.with(g.key, r), wfs[i].1.on_true) < effort(
                wfs,
                p,
                Target::Step(x),
            ))
            &&& (halves.1 matches Some(r) ==> sortable(wfs, p.with(g.key, r), wfs[i].1.on_false)
                && effort(wfs, p.with(g.key, r), wfs[i].1.on_false) < effort(
                wfs,
                p,
                Target::Step(x),
            ))
        }),
{
    reveal(sortable);
    let t = Target::Step(x);
    let f = choose|f: nat| #[trigger] sorted_out(wfs, p, t, f) is Some;
    lemma_effort(wfs, p, t, f);
    let l = effort(wfs, p, t);
    reveal(sorted_out);
    let i = step_at(wfs, x@);
    let g = wfs[i].1.guard;
    let halves = sorted_by(g, p.range(g.key));
    if let Some(r) = halves.0 {
        lemma_effort(wfs, p.with(g.key, r), wfs[i].1.on_true, (l - 1) as nat);
        lemma_sorted_out_more(
            wfs,
            p.with(g.key, r),
            wfs[i].1.on_true,
            effort(wfs, p.with(g.key, r), wfs[i].1.on_true),
            (l - 1) as nat,
        );
    }
    if let Some(r) = halves.1 {
        lemma_effort(wfs, p.with(g.key, r), wfs[i].1.on_false, (l - 1) as nat);
        lemma_sorted_out_more(
            wfs,
            p.with(g.key, r),
            wfs[i].1.on_false,
            effort(wfs, p.with(g.key, r), wfs[i].1.on_false),
            (l - 1) as nat,
        );
    }
}

/// What is accepted of a range that is rejected or accepted at once.
pub proof fn lemma_at_once(wfs: Seq<(String, Step)>, p: PartRange)
    ensures
        accepted_ranges(wfs, p, Target::Reject) == Seq::<PartRange>::empty(),
        accepted_ranges(wfs, p, Target::Accept) == seq![p],
{
    reveal(sorted_out);
    assert(sorted_out(wfs, p, Target::Reject, 0) is Some);
    assert(sorted_out(wfs, p, Target::Accept, 0) is Some);
    lemma_effort(wfs, p, Target::Reject, 0);
    lemma_effort(wfs, p, Target::Accept, 0);
}

/// A target like the given one.
pub fn copy_target(t: &Target) -> (r: Target)
    ensures
        r == *t,
{
    match t {
        Target::Reject => Target::Reject,
        Target::Accept => Target::Accept,
        Target::Step(x) => Target::Step(x.clone()),
    }
}

/// Adds to `acc` the ranges of parts that the workflows accept of the range
/// `p` from the target `current` on.
pub fn try_follow(acc: &mut Vec<PartRange>, wfs: &Steps, p: PartRange, current: Target)
    requires
        sortable(wfs@, p, current),
    ensures
        final(acc)@ == old(acc)@ + accepted_ranges(wfs@, p, current),
    decreases effort(wfs@, p, current), 1int,
{
    proof {
        lemma_at_once(wfs@, p);
    }
    match current {
        Target::Reject => {
            assert(acc@ + Seq::<PartRange>::empty() =~= acc@);
        },
        Target::Accept => {
            let ghost before = acc@;
            acc.push(p);
            assert(acc@ =~= before + seq![p]);
        },
        Target::Step(x) => follow(acc, wfs, p, x),
    }
}

/// Adds to `acc` the ranges of parts that the workflows accept of the range
/// `p` from the step `current` on.
pub fn follow(acc: &mut Vec<PartRange>, ss: &Steps, p: PartRange, current: String)
    requires
        sortable(ss@, p, Target::Step(current)),
    ensures
        final(acc)@ == old(acc)@ + accepted_ranges(ss@, p, Target::Step(current)),
    decreases effort(ss@, p, Target::Step(current)), 0int,
{
    let ghost before = acc@;
    proof {
        lemma_follow(ss@, p, current);
    }
    match find_step(ss, &current) {
        None => {},
        Some(i) => {
            let step = &ss[i].1;
            let (matching, nonmatching) = split_part(step.guard, p);
            let ghost mid = acc@;
            match matching {
                Some(q) => try_follow(acc, ss, q, copy_target(&step.on_true)),
                None => {
                    assert(acc@ + Seq::<PartRange>::empty() =~= acc@);
                },
            }
            let ghost first = acc@;
            match nonmatching {
                Some(q) => try_follow(acc, ss, q, copy_target(&step.on_false)),
                None => {
                    assert(acc@ + Seq::<PartRange>::empty() =~= acc@);
                },
            }
            proof {
                let g = ss@[i as int].1.guard;
                let halves = sorted_by(g, p.range(g.key));
                let a = match halves.0 {
                    Some(r) => accepted_ranges(ss@, p.with(g.key, r), ss@[i as int].1.on_true),
                    None => Seq::empty(),
                };
                let b = match halves.1 {
                    Some(r) => accepted_ranges(ss@, p.with(g.key, r), ss@[i as int].1.on_false),
                    None => Seq::empty(),
                };
                assert(acc@ =~= before + (a + b));
            }
        },
    }
}

/// The range of all parts: every rating from 1 to 4000.
pub open spec fn all_parts() -> PartRange {
    let full = Range { min: 1, max: 4000 };
    PartRange { x: full, m: full, a: full, s: full }
}

/// The number of parts in a range.
pub open spec fn size(p: PartRange) -> int {
    span(p.x) * span(p.m) * span(p.a) * span(p.s)
}

/// The number of parts in the first `k` ranges together.
pub open spec fn sizes_to(rs: Seq<PartRange>, k: int) -> int
    decreases k,
{
    if k <= 0 {
        0
    } else {
        sizes_to(rs, k - 1) + size(rs[k - 1])
    }
}

/// The numbers that the count of range `k` takes, and the counts up to it,
/// fit a machine word.
pub open spec fn range_ok(rs: Seq<PartRange>, k: int) -> bool {
    let p = rs[k];
    &&& fits(p.x.max - p.x.min)
    &&& fits(p.m.max - p.m.min)
    &&& fits(p.a.max - p.a.min)
    &&& fits(p.s.max - p.s.min)
    &&& fits(span(p.x))
    &&& fits(span(p.m))
    &&& fits(span(p.a))
    &&& fits(span(p.s))
    &&& fits(span(p.x) * span(p.m))
    &&& fits(span(p.x) * span(p.m) * span(p.a))
    &&& fits(size(p))
    &&& fits(sizes_to(rs, k + 1))
}

/// The number of parts with ratings from 1 to 4000 that the workflows
/// accept from the step `init` on.
pub fn part2(ws: Steps, init: String) -> (r: isize)
    requires
        sortable(ws@, all_parts(), Target::Step(init)),
        forall|k: int|
            0 <= k < accepted_ranges(ws@, all_parts(), Target::Step(init)).len()
                ==> #[trigger] range_ok(accepted_ranges(ws@, all_parts(), Target::Step(init)), k),
    ensures
        r == sizes_to(
            accepted_ranges(ws@, all_parts(), Target::Step(init)),
            accepted_ranges(ws@, all_parts(), Target::Step(init)).len() as int,
        ),
{
    let mut acc: Vec<PartRange> = Vec::new();
    let full = Range { min: 1, max: 4000 };
    let initial = PartRange { x: full, m: full, a: full, s: full };
    let ghost rs = accepted_ranges(ws@, all_parts(), Target::Step(init));
    follow(&mut acc, &ws, initial, init);
    assert(acc@ =~= rs);
    let mut total: isize = 0;
    let mut k: usize = 0;
    while k < acc.len()
        invariant
            k <= acc.len(),
            acc@ == rs,
            forall|k: int| 0 <= k < rs.len() ==> #[trigger] range_ok(rs, k),
            total == sizes_to(rs, k as int),
        decreases acc.len() - k,
    {
        assert(range_ok(rs, k as int));
        total = total + possibilities(acc[k]);
        k += 1;
    }
    total
}

/// The number of steps of the first `k` workflows together.
pub open spec fn steps_before(ls: Seq<Seq<char>>, k: int) -> int
    decreases k,
{
    if k <= 0 {
        0
    } else {
        steps_before(ls, k - 1) + step_count(ls[k - 1])
    }
}

/// `steps` holds the steps of the first `n` workflows, one workflow after
/// the other.
pub open spec fn workflows(ls: Seq<Seq<char>>, n: int, steps: Seq<(String, Step)>) -> bool {
    &&& steps.len() == steps_before(ls, n)
    &&& forall|k: int|
        0 <= k < n ==> unrolled(
            #[trigger] ls[k],
            steps.subrange(steps_before(ls, k), steps_before(ls, k + 1)),
        )
}

pub proof fn lemma_steps_before(ls: Seq<Seq<char>>, a: int, b: int)
    requires
        0 <= a <= b <= ls.len(),
        forall|k: int| 0 <= k < ls.len() ==> workflow_ok(#[trigger] ls[k]),
    ensures
        0 <= steps_before(ls, a) <= steps_before(ls, b),
    decreases b,
{
    if b > 0 {
        assert(workflow_ok(ls[b - 1]));
        crate::day15::lemma_first_piece(
            crate::text::split(ls[b - 1], seq!['}', '{'])[1],
            seq![','],
            Seq::empty(),
        );
        if a < b {
            lemma_steps_before(ls, a, b - 1);
        } else {
            lemma_steps_before(ls, a - 1, b - 1);
        }
    }
}

/// The text has two paragraphs: workflows that can be read and parts that
/// can be read.
pub open spec fn data_ok(f: Seq<char>) -> bool {
    let p = paragraphs_of(f);
    &&& p.len() == 2
    &&& forall|k: int| 0 <= k < lines_of(p[0]).len() ==> workflow_ok(#[trigger] lines_of(p[0])[k])
    &&& forall|k: int| 0 <= k < lines_of(p[1]).len() ==> part(#[trigger] lines_of(p[1])[k]) is Some
}

/// Reads the workflows and the parts of a text.
pub fn parse(f: &str) -> (r: (Steps, Vec<Part>))
    requires
        data_ok(f@),
    ensures
        workflows(
            lines_of(paragraphs_of(f@)[0]),
            lines_of(paragraphs_of(f@)[0]).len() as int,
            r.0@,
        ),
        r.1@.len() == lines_of(paragraphs_of(f@)[1]).len(),
        forall|k: int|
            0 <= k < r.1@.len() ==> Some(#[trigger] r.1@[k]) == part(
                lines_of(paragraphs_of(f@)[1])[k],
            ),
{
    let c = chars_of(f);
    let ps = paragraphs(&c);
    assert(views(ps@)[0] == ps@[0]@ && views(ps@)[1] == ps@[1]@);
    let head = string_of(&ps[0]);
    let tail = string_of(&ps[1]);
    let ws = lines(head.as_str());
    let ghost wl = lines_of(paragraphs_of(f@)[0]);
    let mut steps: Steps = Vec::new();
    let mut i: usize = 0;
    while i < ws.len()
        invariant
            i <= ws.len(),
            wl == views(ws@),
            forall|k: int| 0 <= k < wl.len() ==> workflow_ok(#[trigger] wl[k]),
            workflows(wl, i as int, steps@),
        decreases ws.len() - i,
    {
        assert(wl[i as int] == ws@[i as int]@);
        assert(workflow_ok(wl[i as int]));
        let text = string_of(&ws[i]);
        let mut more = parse_workflow_unroll(text.as_str());
        let ghost before = steps@;
        let ghost added = more@;
        steps.append(&mut more);
        proof {
            assert(steps@ =~= before + added);
            assert forall|k: int| 0 <= k < i + 1 implies unrolled(
                #[trigger] wl[k],
                steps@.subrange(steps_before(wl, k), steps_before(wl, k + 1)),
            ) by {
                if k < i {
                    lemma_steps_before(wl, k + 1, i as int);
                    lemma_steps_before(wl, k, k + 1);
                    assert(steps@.subrange(steps_before(wl, k), steps_before(wl, k + 1))
                        =~= before.subrange(steps_before(wl, k), steps_before(wl, k + 1)));
                } else {
                    assert(steps@.subrange(steps_before(wl, k), steps_before(wl, k + 1))
                        =~= added);
                }
            }
        }
        i += 1;
    }
    let pl = lines(tail.as_str());
    let ghost pv = lines_of(paragraphs_of(f@)[1]);
    let mut parts: Vec<Part> = Vec::new();
    let mut k: usize = 0;
    while k < pl.len()
        invariant
            k <= pl.len(),
            pv == views(pl@),
            forall|j: int| 0 <= j < pv.len() ==> part(#[trigger] pv[j]) is Some,
            parts@.len() == k,
            forall|j: int| 0 <= j < k ==> Some(#[trigger] parts@[j]) == part(pv[j]),
        decreases pl.len() - k,
    {
        assert(pv[k as int] == pl@[k as int]@);
        assert(part(pv[k as int]) is Some);
        let text = string_of(&pl[k]);
        parts.push(parse_part(text.as_str()));
        k += 1;
    }
    (steps, parts)
}

} // verus!
