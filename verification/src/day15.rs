//! Lenses in boxes: steps of an initialisation sequence are hashed to a box
//! and put a lens into it or take one out.
use crate::text::{
    chars_of, lines, lines_of, parse_usize, split, split_on, string_of, unsigned_number, views,
    within,
};
use vstd::prelude::*;
use vstd::string::StrSliceExecFns;
use vstd::string::StringSliceAdditionalSpecFns;
use vstd::string::StringExecFns;

verus! {

/// The hash of some bytes, as which a text is read in its encoding as UTF-8:
/// for each byte in turn, the hash so far and the
/// byte, times seventeen, modulo 256.
pub open spec fn hash_of(bytes: Seq<u8>) -> int
    decreases bytes.len(),
{
    if bytes.len() == 0 {
        0
    } else {
        ((hash_of(bytes.drop_last()) + bytes.last()) * 17) % 256
    }
}

/// The hash of a text.
pub fn hash(s: String) -> (r: usize)
    ensures
        r == hash_of(vstd::utf8::encode_utf8(s@)),
        r < 256,
{
    let bytes = s.as_str().as_bytes();
    let mut acc: i32 = 0;
    let mut i: usize = 0;
    proof {
        assert(bytes@.take(0) =~= Seq::<u8>::empty());
    }
    while i < bytes.len()
        invariant
            i <= bytes.len(),
            0 <= acc < 256,
            acc == hash_of(bytes@.take(i as int)),
        decreases bytes.len() - i,
    {
        proof {
            assert(bytes@.take(i + 1).drop_last() =~= bytes@.take(i as int));
            assert(bytes@.take(i + 1).last() == bytes@[i as int]);
        }
        acc = ((acc + bytes[i] as i32) * 17) % 256;
        i += 1;
    }
    proof {
        assert(bytes@.take(bytes.len() as int) =~= bytes@);
    }
    acc as usize
}

/// A step: put the lens `lens` under `label`, or take the lens under
/// `label` away.
pub struct Op {
    pub label: String,
    pub lens: Option<usize>,
}

/// The lenses of a box in order, each with its label.
pub type Lenses = Vec<(String, usize)>;

/// The labels and lenses of a box.
pub open spec fn content(b: Seq<(String, usize)>) -> Seq<(Seq<char>, usize)> {
    Seq::new(b.len(), |i: int| (b[i].0@, b[i].1))
}

/// The place of the first lens with the label.
pub open spec fn first_with(b: Seq<(Seq<char>, usize)>, label: Seq<char>, i: int) -> bool {
    &&& 0 <= i < b.len()
    &&& b[i].0 == label
    &&& forall|j: int| 0 <= j < i ==> b[j].0 != label
}

/// What a step makes of a box: a lens is put in the place of the first with
/// its label, or at the end if there is none; to take a lens away takes the
/// first with its label, if there is one.
pub open spec fn placed(b: Seq<(Seq<char>, usize)>, label: Seq<char>, lens: Option<usize>) -> Seq<
    (Seq<char>, usize),
> {
    if exists|i: int| first_with(b, label, i) {
        let i = choose|i: int| first_with(b, label, i);
        match lens {
            Some(l) => b.update(i, (label, l)),
            None => b.remove(i),
        }
    } else {
        match lens {
            Some(l) => b.push((label, l)),
            None => b,
        }
    }
}

/// `r` is what a step makes of a box.
pub open spec fn applied(
    b: Seq<(Seq<char>, usize)>,
    label: Seq<char>,
    lens: Option<usize>,
    r: Seq<(Seq<char>, usize)>,
) -> bool {
    r == placed(b, label, lens)
}

/// Applies a step to a box.
pub fn apply(b: &mut Lenses, op: Op)
    ensures
        applied(content(old(b)@), op.label@, op.lens, content(final(b)@)),
{
    let ghost before = content(b@);
    let mut pos: Option<usize> = None;
    let mut i: usize = 0;
    while i < b.len()
        invariant_except_break
            pos is None,
            forall|j: int| 0 <= j < i ==> before[j].0 != op.label@,
        invariant
            i <= b.len(),
            before == content(b@),
        ensures
            match pos {
                Some(w) => first_with(before, op.label@, w as int),
                None => forall|j: int| 0 <= j < before.len() ==> before[j].0 != op.label@,
            },
        decreases b.len() - i,
    {
        assert(before[i as int].0 == b@[i as int].0@);
        if b[i].0 == op.label {
            pos = Some(i);
            assert(first_with(before, op.label@, i as int));
            break ;
        }
        i += 1;
    }
    proof {
        if pos is Some {
            let w = choose|w: int| first_with(before, op.label@, w);
            let v = pos.unwrap() as int;
            assert(w == v) by {
                if w < v {
                    assert(before[w].0 != op.label@);
                }
                if v < w {
                    assert(before[v].0 != op.label@);
                }
            }
        } else {
            assert forall|w: int| !first_with(before, op.label@, w) by {
                if first_with(before, op.label@, w) {
                    assert(before[w].0 != op.label@);
                }
            }
        }
    }
    match (op.lens, pos) {
        (Some(lens), None) => {
            b.push((op.label, lens));
            assert(content(b@) =~= before.push((op.label@, lens)));
        },
        (Some(lens), Some(i)) => {
            b[i] = (op.label, lens);
            assert(content(b@) =~= before.update(i as int, (op.label@, lens)));
        },
        (None, Some(i)) => {
            b.remove(i);
            assert(content(b@) =~= before.remove(i as int));
        },
        _ => {},
    }
}

/// What a text says of a step: the label ends at the first `=` or `-`, and
/// what follows, up to the next of them, is the lens if it is a number.
pub open spec fn step(f: Seq<char>) -> Option<(Seq<char>, Option<usize>)> {
    let parts = crate::text::split(f, seq!['=', '-']);
    if parts.len() >= 2 {
        Some(
            (
                parts[0],
                match within(unsigned_number(parts[1]), 0, usize::MAX as int) {
                    Some(v) => Some(v as usize),
                    None => None,
                },
            ),
        )
    } else {
        None
    }
}

/// Reads a step.
pub fn parse(f: String) -> (r: Op)
    requires
        step(f@) is Some,
    ensures
        step(f@) == Some((r.label@, r.lens)),
{
    let c = chars_of(f.as_str());
    let mut seps: Vec<char> = Vec::new();
    seps.push('=');
    seps.push('-');
    assert(seps@ =~= seq!['=', '-']);
    let u = crate::text::split_any(&c, &seps);
    assert(crate::text::views(u@)[0] == u@[0]@ && crate::text::views(u@)[1] == u@[1]@);
    let n = u[0].len();
    proof {
        lemma_first_piece(c@, seps@, Seq::empty());
        assert(c@.subrange(0, n as int) =~= u@[0]@);
    }
    let label = String::from_str(f.as_str().substring_char(0, n));
    let lens = parse_usize(&u[1]);
    Op { label, lens }
}

/// The first piece of a split is a beginning of what was split, behind what
/// had been begun.
pub proof fn lemma_first_piece(s: Seq<char>, seps: Seq<char>, cur: Seq<char>)
    ensures
        crate::text::split_from(s, seps, cur).len() >= 1,
        crate::text::split_from(s, seps, cur)[0].len() <= cur.len() + s.len(),
        crate::text::split_from(s, seps, cur)[0] == cur + s.take(
            crate::text::split_from(s, seps, cur)[0].len() - cur.len(),
        ),
    decreases s.len(),
{
    let p = crate::text::split_from(s, seps, cur);
    if s.len() == 0 {
        assert(cur + s.take(0) =~= cur);
    } else if seps.contains(s[0]) {
        assert(cur + s.take(0) =~= cur);
    } else {
        lemma_first_piece(s.drop_first(), seps, cur.push(s[0]));
        let k = p[0].len() - cur.len();
        assert(cur.push(s[0]) + s.drop_first().take(k - 1) =~= cur + s.take(k));
    }
}

/// The steps of an initialisation sequence: the pieces of the first line of
/// a text between commas.
pub open spec fn sequence(f: Seq<char>) -> Seq<Seq<char>> {
    split(lines_of(f)[0], seq![','])
}

/// Reads the steps of an initialisation sequence from the first line of a
/// text.
pub fn read(f: &str) -> (r: Vec<String>)
    requires
        lines_of(f@).len() > 0,
    ensures
        r@.len() == sequence(f@).len(),
        forall|i: int| 0 <= i < r@.len() ==> (#[trigger] r@[i])@ == sequence(f@)[i],
{
    let ls = lines(f);
    assert(views(ls@)[0] == ls@[0]@);
    let pieces = split_on(&ls[0], ',');
    let ghost all = views(pieces@);
    let mut out: Vec<String> = Vec::new();
    let mut i: usize = 0;
    while i < pieces.len()
        invariant
            i <= pieces.len(),
            all == views(pieces@),
            out@.len() == i,
            forall|j: int| 0 <= j < i ==> (#[trigger] out@[j])@ == all[j],
        decreases pieces.len() - i,
    {
        assert(all[i as int] == pieces@[i as int]@);
        out.push(string_of(&pieces[i]));
        i += 1;
    }
    out
}

/// The hashes of the first `k` steps together.
pub open spec fn hashes_to(steps: Seq<Seq<char>>, k: int) -> int
    decreases k,
{
    if k <= 0 {
        0
    } else {
        hashes_to(steps, k - 1) + hash_of(vstd::utf8::encode_utf8(steps[k - 1]))
    }
}

pub proof fn lemma_hash_bound(bytes: Seq<u8>)
    ensures
        0 <= hash_of(bytes) < 256,
    decreases bytes.len(),
{
    if bytes.len() > 0 {
        lemma_hash_bound(bytes.drop_last());
    }
}

pub proof fn lemma_hashes_bound(steps: Seq<Seq<char>>, k: int)
    requires
        0 <= k,
    ensures
        0 <= hashes_to(steps, k) <= 255 * k,
    decreases k,
{
    if k > 0 {
        lemma_hashes_bound(steps, k - 1);
        lemma_hash_bound(vstd::utf8::encode_utf8(steps[k - 1]));
    }
}

/// The sum of the hashes of the steps of a text.
pub fn part1(f: &str) -> (r: i32)
    requires
        lines_of(f@).len() > 0,
        255 * sequence(f@).len() <= i32::MAX,
    ensures
        r == hashes_to(sequence(f@), sequence(f@).len() as int),
{
    let steps = read(f);
    let ghost all = sequence(f@);
    let mut acc: i32 = 0;
    let mut i: usize = 0;
    while i < steps.len()
        invariant
            i <= steps.len(),
            steps@.len() == all.len(),
            255 * all.len() <= i32::MAX,
            forall|j: int| 0 <= j < steps@.len() ==> (#[trigger] steps@[j])@ == all[j],
            acc == hashes_to(all, i as int),
        decreases steps.len() - i,
    {
        proof {
            lemma_hashes_bound(all, i as int);
            lemma_hashes_bound(all, i + 1);
            assert(steps@[i as int]@ == all[i as int]);
        }
        let h = hash(steps[i].clone());
        acc = acc + h as i32;
        i += 1;
    }
    acc
}

/// The boxes after the first `k` steps: each step is applied to the box
/// with the number of the hash of its label.
pub open spec fn boxes_after(steps: Seq<Seq<char>>, k: int) -> Seq<Seq<(Seq<char>, usize)>>
    decreases k,
{
    if k <= 0 {
        Seq::new(256, |b: int| Seq::empty())
    } else {
        let before = boxes_after(steps, k - 1);
        let s = step(steps[k - 1]).unwrap();
        let h = hash_of(vstd::utf8::encode_utf8(s.0));
        before.update(h, placed(before[h], s.0, s.1))
    }
}

/// The focusing power of the first `k` lenses of box `b`: of each its
/// focal length times its place in the box times the place of the box.
pub open spec fn box_power(lenses: Seq<(Seq<char>, usize)>, b: int, k: int) -> int
    decreases k,
{
    if k <= 0 {
        0
    } else {
        box_power(lenses, b, k - 1) + lenses[k - 1].1 * k * (b + 1)
    }
}

/// The focusing power of the first `k` boxes.
pub open spec fn power_to(boxes: Seq<Seq<(Seq<char>, usize)>>, k: int) -> int
    decreases k,
{
    if k <= 0 {
        0
    } else {
        power_to(boxes, k - 1) + box_power(boxes[k - 1], k - 1, boxes[k - 1].len() as int)
    }
}

/// Every product and sum that the focusing power takes fits a machine
/// word.
pub open spec fn focusable(boxes: Seq<Seq<(Seq<char>, usize)>>) -> bool {
    &&& forall|b: int, k: int|
        0 <= b < boxes.len() && 0 < k <= boxes[b].len() ==> {
            &&& boxes[b][k - 1].1 * k <= usize::MAX
            &&& boxes[b][k - 1].1 * k * (b + 1) <= usize::MAX
            &&& #[trigger] box_power(boxes[b], b, k) <= usize::MAX
        }
    &&& forall|b: int| 0 <= b <= boxes.len() ==> #[trigger] power_to(boxes, b) <= usize::MAX
}

pub proof fn lemma_box_power_nonnegative(lenses: Seq<(Seq<char>, usize)>, b: int, k: int)
    requires
        0 <= b,
    ensures
        0 <= box_power(lenses, b, k),
    decreases k,
{
    if k > 0 {
        lemma_box_power_nonnegative(lenses, b, k - 1);
        let l = lenses[k - 1].1 as int;
        assert(0 <= l * k * (b + 1)) by (nonlinear_arith)
            requires
                0 <= l,
                0 < k,
                0 <= b,
        ;
    }
}

/// Every step of the sequence can be read.
pub open spec fn readable(steps: Seq<Seq<char>>) -> bool {
    forall|i: int| 0 <= i < steps.len() ==> step(#[trigger] steps[i]) is Some
}

/// The focusing power of the lenses after all steps of a text.
pub fn part2(f: &str) -> (r: usize)
    requires
        lines_of(f@).len() > 0,
        readable(sequence(f@)),
        focusable(boxes_after(sequence(f@), sequence(f@).len() as int)),
    ensures
        r == power_to(boxes_after(sequence(f@), sequence(f@).len() as int), 256),
{
    let steps = read(f);
    let ghost all = sequence(f@);
    let mut boxes: Vec<Lenses> = Vec::new();
    let mut b: usize = 0;
    while b < 256
        invariant
            b <= 256,
            boxes@.len() == b,
            forall|j: int| 0 <= j < b ==> (#[trigger] boxes@[j])@.len() == 0,
        decreases 256 - b,
    {
        boxes.push(Vec::new());
        b += 1;
    }
    proof {
        assert forall|j: int| 0 <= j < 256 implies content(#[trigger] boxes@[j]@) == Seq::<
            (Seq<char>, usize),
        >::empty() by {
            assert(content(boxes@[j]@) =~= Seq::<(Seq<char>, usize)>::empty());
        }
        assert(Seq::new(256, |j: int| content(boxes@[j]@)) =~= boxes_after(all, 0));
    }
    let mut i: usize = 0;
    while i < steps.len()
        invariant
            i <= steps.len(),
            steps@.len() == all.len(),
            readable(all),
            forall|j: int| 0 <= j < steps@.len() ==> (#[trigger] steps@[j])@ == all[j],
            boxes@.len() == 256,
            Seq::new(256, |j: int| content(boxes@[j]@)) == boxes_after(all, i as int),
        decreases steps.len() - i,
    {
        assert(steps@[i as int]@ == all[i as int]);
        assert(step(all[i as int]) is Some);
        let ghost before = Seq::new(256, |j: int| content(boxes@[j]@));
        let op = parse(steps[i].clone());
        let h = hash(op.label.clone());
        let ghost label = op.label@;
        let ghost lens = op.lens;
        let mut lenses: Lenses = Vec::new();
        std::mem::swap(&mut lenses, &mut boxes[h]);
        assert(content(lenses@) == before[h as int]);
        apply(&mut lenses, op);
        boxes[h] = lenses;
        proof {
            assert(boxes_after(all, i + 1).len() == 256);
            assert(Seq::new(256, |j: int| content(boxes@[j]@)) =~= before.update(
                h as int,
                placed(before[h as int], label, lens),
            )) by {
                assert forall|j: int| 0 <= j < 256 implies content(#[trigger] boxes@[j]@)
                    == before.update(h as int, placed(before[h as int], label, lens))[j] by {
                    if j != h {
                        assert(before[j] == content(boxes@[j]@));
                    }
                }
            }
        }
        i += 1;
    }
    let ghost last = boxes_after(all, all.len() as int);
    let mut acc: usize = 0;
    let mut b: usize = 0;
    while b < 256
        invariant
            b <= 256,
            boxes@.len() == 256,
            last.len() == 256,
            last == Seq::new(256, |j: int| content(boxes@[j]@)),
            focusable(last),
            acc == power_to(last, b as int),
        decreases 256 - b,
    {
        let x = &boxes[b];
        let mut sub: usize = 0;
        let mut k: usize = 0;
        assert(last[b as int] == content(x@));
        while k < x.len()
            invariant
                k <= x.len(),
                b < 256,
                last.len() == 256,
                last[b as int] == content(x@),
                focusable(last),
                sub == box_power(last[b as int], b as int, k as int),
            decreases x.len() - k,
        {
            proof {
                assert(box_power(last[b as int], b as int, k + 1) <= usize::MAX);
                assert(last[b as int][k as int].1 == x@[k as int].1);
                lemma_box_power_nonnegative(last[b as int], b as int, k as int);
            }
            let l = x[k].1;
            sub = sub + l * (k + 1) * (b + 1);
            k += 1;
        }
        proof {
            assert(power_to(last, b + 1) <= usize::MAX);
            lemma_box_power_nonnegative(last[b as int], b as int, x@.len() as int);
        }
        acc = acc + sub;
        b += 1;
    }
    acc
}

} // verus!
