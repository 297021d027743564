//! An almanac of maps from one kind of number to the next, applied to
//! ranges of numbers.
use crate::day09::readings;
use crate::text::{
    chars_of, paragraphs, paragraphs_of, split, split_on, string_of, views, words_of,
};
use vstd::prelude::*;

verus! {

/// A line of a map: the `len` numbers from `src` on go to those from `dest`
/// on.
#[derive(Clone, Copy, Debug, PartialEq, Eq, Structural)]
pub struct MapLine {
    pub dest: i64,
    pub src: i64,
    pub len: i64,
}

/// The `len` numbers from `start` on.
#[derive(Clone, Copy, Debug, PartialEq, Eq, Structural)]
pub struct Range {
    pub start: i64,
    pub len: i64,
}

/// A range that a line of a map has moved, or one that it has left alone.
#[derive(Clone, Copy, Debug, PartialEq, Eq, Structural)]
pub enum Res {
    Mapped(Range),
    Unmapped(Range),
}

pub open spec fn mapped(start: int, len: int) -> Res {
    Res::Mapped(Range { start: start as i64, len: len as i64 })
}

pub open spec fn unmapped(start: int, len: int) -> Res {
    Res::Unmapped(Range { start: start as i64, len: len as i64 })
}

/// What a line of a map makes of a range: the part of the range within the
/// line's source moves with it, and what lies before or behind stays. A
/// range that the source does not touch stays whole.
pub open spec fn translated(r: Range, m: MapLine) -> Seq<Res> {
    let rs = r.start as int;
    let re = r.start + r.len;
    let ms = m.src as int;
    let me = m.src + m.len;
    let shift = m.dest - m.src;
    if rs >= me || ms >= re {
        seq![unmapped(rs, r.len as int)]
    } else if re <= me && rs >= ms {
        seq![mapped(rs + shift, r.len as int)]
    } else if rs < ms && re > me {
        seq![unmapped(rs, ms - rs), mapped(m.dest as int, m.len as int), unmapped(me, re - me)]
    } else if re <= me {
        seq![unmapped(rs, ms - rs), mapped(m.dest as int, re - ms)]
    } else {
        seq![mapped(rs + shift, me - rs), unmapped(me, re - me)]
    }
}

pub open spec fn fits(x: int) -> bool {
    i64::MIN <= x <= i64::MAX
}

/// The ends of the range and of the line, the shift of the line and the
/// distance between their starts are numbers of 64 bits, and so is the
/// shifted start of the range.
pub open spec fn translatable(r: Range, m: MapLine) -> bool {
    &&& fits(r.start + r.len)
    &&& fits(m.src + m.len)
    &&& fits(m.dest - m.src)
    &&& fits(m.src - r.start)
    &&& fits(r.start + (m.dest - m.src))
    &&& fits(r.len - (m.src - r.start))
    &&& fits(r.len - (m.src - r.start) - m.len)
    &&& fits(m.src + m.len - r.start)
    &&& fits(r.len - (m.src + m.len))
}

/// Applies a line of a map to a range.
pub fn try_translate_range(r: Range, m: MapLine) -> (out: Vec<Res>)
    requires
        translatable(r, m),
    ensures
        out@ == translated(r, m),
{
    let rs = r.start;
    let re = r.start + r.len;
    let ms = m.src;
    let me = m.src + m.len;
    let transform = m.dest - m.src;
    let dist = ms - rs;
    let out = if rs >= me || ms >= re {
        vec![Res::Unmapped(Range { start: rs, len: r.len })]
    } else if re <= me && rs >= ms {
        let start = rs + transform;
        vec![Res::Mapped(Range { start, len: r.len })]
    } else if rs < ms && re > me {
        let rest = r.len - dist - m.len;
        vec![
            Res::Unmapped(Range { start: rs, len: dist }),
            Res::Mapped(Range { start: m.dest, len: m.len }),
            Res::Unmapped(Range { start: me, len: rest }),
        ]
    } else if re <= me {
        let rest = r.len - dist;
        vec![
            Res::Unmapped(Range { start: rs, len: dist }),
            Res::Mapped(Range { start: m.dest, len: rest }),
        ]
    } else {
        let start = rs + transform;
        let len = me - rs;
        let rest = r.len - me + rs;
        vec![
            Res::Mapped(Range { start, len }),
            Res::Unmapped(Range { start: me, len: rest }),
        ]
    };
    assert(out@ =~= translated(r, m));
    out
}

/// The numbers in a line between blanks; what is no number is left out.
pub fn parse_line_of_numbers(l: &str) -> (r: Vec<i64>)
    ensures
        r@ == readings(words_of(l@)),
{
    crate::day09::parse_line(l)
}

/// The line of a map that three numbers write: where the numbers go, where
/// they come from and how many they are.
pub open spec fn mapping(f: Seq<char>) -> Option<MapLine> {
    let n = readings(words_of(f));
    if n.len() == 3 {
        Some(MapLine { dest: n[0], src: n[1], len: n[2] })
    } else {
        None
    }
}

/// Reads a line of a map.
pub fn parse_mapping(f: &str) -> (r: MapLine)
    requires
        mapping(f@) is Some,
    ensures
        Some(r) == mapping(f@),
{
    let n = parse_line_of_numbers(f);
    MapLine { dest: n[0], src: n[1], len: n[2] }
}

/// The lines of a map among some pieces of text: the empty ones are left
/// out.
pub open spec fn mappings(pieces: Seq<Seq<char>>) -> Seq<MapLine>
    decreases pieces.len(),
{
    if pieces.len() == 0 {
        Seq::empty()
    } else if pieces.last().len() == 0 {
        mappings(pieces.drop_last())
    } else {
        mappings(pieces.drop_last()).push(mapping(pieces.last()).unwrap())
    }
}

/// Every piece that is not empty is a line of a map.
pub open spec fn all_mappings(pieces: Seq<Seq<char>>) -> bool {
    forall|i: int| 0 <= i < pieces.len() ==> (#[trigger] pieces[i]).len() == 0 || mapping(pieces[i]) is Some
}

/// The map that a section of the almanac describes: its lines but the
/// first, each a line of the map.
pub open spec fn section(f: Seq<char>) -> Seq<MapLine> {
    mappings(split(f, seq!['\n']).skip(1))
}

pub open spec fn section_ok(f: Seq<char>) -> bool {
    all_mappings(split(f, seq!['\n']).skip(1))
}

fn section_of(c: &Vec<char>) -> (r: Vec<MapLine>)
    requires
        section_ok(c@),
    ensures
        r@ == section(c@),
{
    let pieces = split_on(c, '\n');
    let ghost all = views(pieces@).skip(1);
    let mut out: Vec<MapLine> = Vec::new();
    let mut i: usize = 1;
    proof {
        assert(all.take(0) =~= Seq::<Seq<char>>::empty());
    }
    while i < pieces.len()
        invariant
            1 <= i <= pieces.len(),
            all == views(pieces@).skip(1),
            all_mappings(all),
            out@ == mappings(all.take(i - 1)),
        decreases pieces.len() - i,
    {
        proof {
            assert(all.take(i - 1 + 1).drop_last() =~= all.take(i - 1));
            assert(all.take(i - 1 + 1).last() == pieces@[i as int]@);
            assert(all[i - 1] == pieces@[i as int]@);
            assert(all[i - 1].len() == 0 || mapping(all[i - 1]) is Some);
        }
        if pieces[i].len() > 0 {
            let text = string_of(&pieces[i]);
            out.push(parse_mapping(text.as_str()));
        }
        i += 1;
    }
    proof {
        assert(all.take(pieces@.len() - 1) =~= all);
    }
    out
}

/// Reads a map from a section of the almanac.
pub fn parse_section(f: &str) -> (r: Vec<MapLine>)
    requires
        section_ok(f@),
    ensures
        r@ == section(f@),
{
    section_of(&chars_of(f))
}

/// The maps as sequences.
pub open spec fn maps(v: Seq<Vec<MapLine>>) -> Seq<Seq<MapLine>> {
    Seq::new(v.len(), |i: int| v[i]@)
}

/// Every paragraph but the first is a section that can be read.
pub open spec fn almanac_ok(f: Seq<char>) -> bool {
    forall|i: int|
        1 <= i < paragraphs_of(f).len() ==> section_ok(#[trigger] paragraphs_of(f)[i])
}

/// The seeds of an almanac: the numbers of its first paragraph.
pub open spec fn seeds(f: Seq<char>) -> Seq<i64> {
    readings(words_of(paragraphs_of(f)[0]))
}

/// The maps of an almanac: one from each paragraph but the first.
pub open spec fn almanac(f: Seq<char>) -> Seq<Seq<MapLine>> {
    Seq::new((paragraphs_of(f).len() - 1) as nat, |i: int| section(paragraphs_of(f)[i + 1]))
}

pub proof fn lemma_paragraphs_nonempty(s: Seq<char>)
    ensures
        paragraphs_of(s).len() >= 1,
    decreases s.len(),
{
    let i = crate::text::find_gap(s);
    if 0 <= i && i + 2 <= s.len() {
        lemma_paragraphs_nonempty(s.skip(i + 2));
    }
}

/// Reads an almanac: the seeds and the maps.
pub fn parse(f: &str) -> (r: (Vec<i64>, Vec<Vec<MapLine>>))
    requires
        almanac_ok(f@),
    ensures
        r.0@ == seeds(f@),
        maps(r.1@) == almanac(f@),
{
    let c = chars_of(f);
    let ps = paragraphs(&c);
    let ghost all = paragraphs_of(f@);
    proof {
        lemma_paragraphs_nonempty(f@);
        assert(all[0] == ps@[0]@);
    }
    let head = string_of(&ps[0]);
    let seeds = parse_line_of_numbers(head.as_str());
    let mut out: Vec<Vec<MapLine>> = Vec::new();
    let mut i: usize = 1;
    while i < ps.len()
        invariant
            1 <= i <= ps.len(),
            all == views(ps@),
            all == paragraphs_of(f@),
            almanac_ok(f@),
            out@.len() == i - 1,
            forall|j: int| 0 <= j < i - 1 ==> (#[trigger] out@[j])@ == section(all[j + 1]),
        decreases ps.len() - i,
    {
        assert(all[i as int] == ps@[i as int]@);
        assert(section_ok(all[i as int]));
        let ghost before = out@;
        out.push(section_of(&ps[i]));
        proof {
            assert forall|j: int| 0 <= j < i implies (#[trigger] out@[j])@ == section(all[j + 1]) by {
                if j < i - 1 {
                    assert(out@[j] == before[j]);
                }
            }
        }
        i += 1;
    }
    assert(maps(out@) =~= almanac(f@));
    (seeds, out)
}

/// The pieces of `pieces` that a line has moved, in order.
pub open spec fn moved(pieces: Seq<Res>) -> Seq<Range>
    decreases pieces.len(),
{
    if pieces.len() == 0 {
        Seq::empty()
    } else {
        match pieces.last() {
            Res::Mapped(x) => moved(pieces.drop_last()).push(x),
            Res::Unmapped(_) => moved(pieces.drop_last()),
        }
    }
}

/// The pieces of `pieces` that a line has left alone, in order.
pub open spec fn stayed(pieces: Seq<Res>) -> Seq<Range>
    decreases pieces.len(),
{
    if pieces.len() == 0 {
        Seq::empty()
    } else {
        match pieces.last() {
            Res::Unmapped(x) => stayed(pieces.drop_last()).push(x),
            Res::Mapped(_) => stayed(pieces.drop_last()),
        }
    }
}

/// What a line of a map makes of some ranges: the pieces that it moves and
/// those that it leaves alone, both in order.
pub open spec fn passed(rs: Seq<Range>, m: MapLine) -> (Seq<Range>, Seq<Range>)
    decreases rs.len(),
{
    if rs.len() == 0 {
        (Seq::empty(), Seq::empty())
    } else {
        let before = passed(rs.drop_last(), m);
        let t = translated(rs.last(), m);
        (before.0 + moved(t), before.1 + stayed(t))
    }
}

/// What the first `k` lines of a map make of some ranges: the pieces that
/// one of them has moved, and those that all have left alone and that the
/// next line will try.
pub open spec fn mapped_by(rs: Seq<Range>, ms: Seq<MapLine>, k: int) -> (Seq<Range>, Seq<Range>)
    decreases k,
{
    if k <= 0 {
        (Seq::empty(), rs)
    } else {
        let before = mapped_by(rs, ms, k - 1);
        let p = passed(before.1, ms[k - 1]);
        (before.0 + p.0, p.1)
    }
}

/// What a map makes of some ranges: the pieces that its lines have moved,
/// then those that none has moved.
pub open spec fn through(rs: Seq<Range>, ms: Seq<MapLine>) -> Seq<Range> {
    mapped_by(rs, ms, ms.len() as int).0 + mapped_by(rs, ms, ms.len() as int).1
}

/// Every piece that a line of the map comes to try can be translated by it
/// within 64 bits.
pub open spec fn mappable(rs: Seq<Range>, ms: Seq<MapLine>) -> bool {
    forall|k: int, i: int|
        0 <= k < ms.len() && 0 <= i < mapped_by(rs, ms, k).1.len() ==> translatable(
            #[trigger] mapped_by(rs, ms, k).1[i],
            ms[k],
        )
}

fn pass(rs: &Vec<Range>, m: MapLine, result: &mut Vec<Range>) -> (rest: Vec<Range>)
    requires
        forall|i: int| 0 <= i < rs@.len() ==> translatable(#[trigger] rs@[i], m),
    ensures
        final(result)@ == old(result)@ + passed(rs@, m).0,
        rest@ == passed(rs@, m).1,
{
    let ghost start = result@;
    let mut rest: Vec<Range> = Vec::new();
    let mut i: usize = 0;
    proof {
        assert(rs@.take(0) =~= Seq::<Range>::empty());
        assert(start + passed(rs@.take(0), m).0 =~= start);
    }
    while i < rs.len()
        invariant
            i <= rs.len(),
            forall|i: int| 0 <= i < rs@.len() ==> translatable(#[trigger] rs@[i], m),
            result@ == start + passed(rs@.take(i as int), m).0,
            rest@ == passed(rs@.take(i as int), m).1,
        decreases rs.len() - i,
    {
        let pieces = try_translate_range(rs[i], m);
        let ghost r0 = result@;
        let ghost s0 = rest@;
        let mut k: usize = 0;
        proof {
            assert(rs@.take(i + 1).drop_last() =~= rs@.take(i as int));
            assert(rs@.take(i + 1).last() == rs@[i as int]);
            assert(pieces@.take(0) =~= Seq::<Res>::empty());
            assert(r0 + moved(pieces@.take(0)) =~= r0);
            assert(s0 + stayed(pieces@.take(0)) =~= s0);
        }
        while k < pieces.len()
            invariant
                k <= pieces.len(),
                result@ == r0 + moved(pieces@.take(k as int)),
                rest@ == s0 + stayed(pieces@.take(k as int)),
            decreases pieces.len() - k,
        {
            proof {
                assert(pieces@.take(k + 1).drop_last() =~= pieces@.take(k as int));
                assert(pieces@.take(k + 1).last() == pieces@[k as int]);
            }
            match pieces[k] {
                Res::Mapped(x) => {
                    result.push(x);
                    assert(result@ =~= r0 + moved(pieces@.take(k + 1)));
                },
                Res::Unmapped(x) => {
                    rest.push(x);
                    assert(rest@ =~= s0 + stayed(pieces@.take(k + 1)));
                },
            }
            k += 1;
        }
        proof {
            assert(pieces@.take(pieces@.len() as int) =~= pieces@);
            let before = passed(rs@.take(i as int), m);
            assert(start + (before.0 + moved(pieces@)) =~= (start + before.0) + moved(pieces@));
        }
        i += 1;
    }
    proof {
        assert(rs@.take(rs@.len() as int) =~= rs@);
    }
    rest
}

/// Applies a map to some ranges: each line in turn is tried on the pieces
/// that no line before it has moved.
pub fn translate_ranges(rs: Vec<Range>, ms: Vec<MapLine>) -> (r: Vec<Range>)
    requires
        mappable(rs@, ms@),
    ensures
        r@ == through(rs@, ms@),
{
    let mut result: Vec<Range> = Vec::new();
    let mut cur = rs;
    let mut k: usize = 0;
    while k < ms.len()
        invariant
            k <= ms.len(),
            mappable(rs@, ms@),
            result@ == mapped_by(rs@, ms@, k as int).0,
            cur@ == mapped_by(rs@, ms@, k as int).1,
        decreases ms.len() - k,
    {
        proof {
            assert forall|i: int| 0 <= i < cur@.len() implies translatable(
                #[trigger] cur@[i],
                ms@[k as int],
            ) by {
                assert(translatable(mapped_by(rs@, ms@, k as int).1[i], ms@[k as int]));
            }
        }
        cur = pass(&cur, ms[k], &mut result);
        k += 1;
    }
    let mut i: usize = 0;
    let ghost moved_all = result@;
    while i < cur.len()
        invariant
            i <= cur.len(),
            result@ == moved_all + cur@.take(i as int),
        decreases cur.len() - i,
    {
        result.push(cur[i]);
        assert(cur@.take(i + 1) =~= cur@.take(i as int).push(cur@[i as int]));
        i += 1;
    }
    assert(cur@.take(cur@.len() as int) =~= cur@);
    result
}

/// What the first `k` maps make of some ranges, one after the other.
pub open spec fn advanced(mappings: Seq<Seq<MapLine>>, rs: Seq<Range>, k: int) -> Seq<Range>
    decreases k,
{
    if k <= 0 {
        rs
    } else {
        through(advanced(mappings, rs, k - 1), mappings[k - 1])
    }
}

/// Every map can be applied in its turn, and ranges are left in the end.
pub open spec fn advanceable(mappings: Seq<Seq<MapLine>>, rs: Seq<Range>) -> bool {
    &&& forall|k: int|
        0 <= k < mappings.len() ==> mappable(#[trigger] advanced(mappings, rs, k), mappings[k])
    &&& advanced(mappings, rs, mappings.len() as int).len() > 0
}

/// `r` is the least start of the ranges.
pub open spec fn least_start(rs: Seq<Range>, r: i64) -> bool {
    &&& exists|i: int| 0 <= i < rs.len() && (#[trigger] rs[i]).start == r
    &&& forall|i: int| 0 <= i < rs.len() ==> r <= (#[trigger] rs[i]).start
}

/// The least start of the ranges that the maps, one after the other, make
/// of some ranges.
pub fn advance_ranges(mappings: Vec<Vec<MapLine>>, seed_ranges: Vec<Range>) -> (r: i64)
    requires
        advanceable(maps(mappings@), seed_ranges@),
    ensures
        least_start(advanced(maps(mappings@), seed_ranges@, mappings@.len() as int), r),
{
    let ghost all = maps(mappings@);
    let ghost first = seed_ranges@;
    let mut cur = seed_ranges;
    let mut k: usize = 0;
    while k < mappings.len()
        invariant
            k <= mappings.len(),
            all == maps(mappings@),
            advanceable(all, first),
            cur@ == advanced(all, first, k as int),
        decreases mappings.len() - k,
    {
        let ms = &mappings[k];
        let mut copy: Vec<MapLine> = Vec::new();
        let mut j: usize = 0;
        while j < ms.len()
            invariant
                j <= ms.len(),
                copy@ == ms@.take(j as int),
            decreases ms.len() - j,
        {
            copy.push(ms[j]);
            assert(ms@.take(j + 1) =~= ms@.take(j as int).push(ms@[j as int]));
            j += 1;
        }
        proof {
            assert(ms@.take(ms@.len() as int) =~= ms@);
            assert(all[k as int] == ms@);
            assert(mappable(advanced(all, first, k as int), all[k as int]));
        }
        cur = translate_ranges(cur, copy);
        k += 1;
    }
    let mut best = cur[0].start;
    let mut i: usize = 1;
    while i < cur.len()
        invariant
            1 <= i <= cur.len(),
            exists|a: int| 0 <= a < i && (#[trigger] cur@[a]).start == best,
            forall|a: int| 0 <= a < i ==> best <= (#[trigger] cur@[a]).start,
        decreases cur.len() - i,
    {
        if cur[i].start < best {
            best = cur[i].start;
        }
        i += 1;
    }
    best
}

/// Each seed as a range of one number.
pub open spec fn singles(s: Seq<i64>) -> Seq<Range> {
    Seq::new(s.len(), |i: int| Range { start: s[i], len: 1 })
}

/// Each two seeds as a range: its start and its length. A seed without a
/// partner is left out.
pub open spec fn pairs(s: Seq<i64>) -> Seq<Range> {
    Seq::new((s.len() / 2) as nat, |i: int| Range { start: s[2 * i], len: s[2 * i + 1] })
}

/// The least number that the maps of an almanac make of its seeds.
pub fn solve(f: &str) -> (r: i64)
    requires
        almanac_ok(f@),
        advanceable(almanac(f@), singles(seeds(f@))),
    ensures
        least_start(advanced(almanac(f@), singles(seeds(f@)), almanac(f@).len() as int), r),
{
    let (s, mappings) = parse(f);
    let mut seed_ranges: Vec<Range> = Vec::new();
    let mut i: usize = 0;
    while i < s.len()
        invariant
            i <= s.len(),
            seed_ranges@.len() == i,
            forall|j: int| 0 <= j < i ==> seed_ranges@[j] == (Range { start: s@[j], len: 1 }),
        decreases s.len() - i,
    {
        seed_ranges.push(Range { start: s[i], len: 1 });
        i += 1;
    }
    assert(seed_ranges@ =~= singles(s@));
    advance_ranges(mappings, seed_ranges)
}

/// The least number that the maps of an almanac make of the ranges of its
/// seeds.
pub fn solve2(f: &str) -> (r: i64)
    requires
        almanac_ok(f@),
        advanceable(almanac(f@), pairs(seeds(f@))),
    ensures
        least_start(advanced(almanac(f@), pairs(seeds(f@)), almanac(f@).len() as int), r),
{
    let (s, mappings) = parse(f);
    let mut seed_ranges: Vec<Range> = Vec::new();
    let len = s.len();
    let n = len / 2;
    let mut i: usize = 0;
    while i < n
        invariant
            i <= n,
            len == s@.len(),
            n == s@.len() / 2,
            seed_ranges@.len() == i,
            forall|j: int|
                0 <= j < i ==> seed_ranges@[j] == (Range { start: s@[2 * j], len: s@[2 * j + 1] }),
        decreases n - i,
    {
        assert(2 * (i as int) + 1 < s@.len());
        seed_ranges.push(Range { start: s[2 * i], len: s[2 * i + 1] });
        i += 1;
    }
    assert(seed_ranges@ =~= pairs(s@));
    advance_ranges(mappings, seed_ranges)
}

} // verus!
