//! Text handling shared by the puzzle solvers: splitting a text into pieces
//! and reading decimal numbers, each against a mathematical description of
//! the result.
use substring::Substring;
use vstd::prelude::*;

verus! {

/// One `Seq<char>` per vector, in order.
pub open spec fn views(v: Seq<Vec<char>>) -> Seq<Seq<char>> {
    Seq::new(v.len(), |i: int| v[i]@)
}

/// The pieces of `s` between characters of `seps`, where `cur` is the piece
/// that has been begun before `s`.
pub open spec fn split_from(s: Seq<char>, seps: Seq<char>, cur: Seq<char>) -> Seq<Seq<char>>
    decreases s.len(),
{
    if s.len() == 0 {
        seq![cur]
    } else if seps.contains(s[0]) {
        seq![cur] + split_from(s.drop_first(), seps, Seq::empty())
    } else {
        split_from(s.drop_first(), seps, cur.push(s[0]))
    }
}

/// The pieces of `s` between characters of `seps`. There is always at least
/// one piece; two separators in a row enclose an empty piece.
pub open spec fn split(s: Seq<char>, seps: Seq<char>) -> Seq<Seq<char>> {
    split_from(s, seps, Seq::empty())
}

/// The pieces of `s` that are not empty.
pub open spec fn non_empty(p: Seq<Seq<char>>) -> Seq<Seq<char>> {
    p.filter(|l: Seq<char>| l.len() > 0)
}

/// `l` without one trailing carriage return.
pub open spec fn strip_cr(l: Seq<char>) -> Seq<char> {
    if l.len() > 0 && l.last() == '\r' {
        l.drop_last()
    } else {
        l
    }
}

/// The lines of a text: the pieces between line feeds, each without the
/// carriage return that may precede the line feed. A text that ends in a
/// line feed has no empty last line.
pub open spec fn lines_of(s: Seq<char>) -> Seq<Seq<char>> {
    let p = split(s, seq!['\n']);
    let head = Seq::new((p.len() - 1) as nat, |i: int| strip_cr(p[i]));
    if p.last().len() == 0 {
        head
    } else {
        head.push(p.last())
    }
}

/// The characters that separate words.
pub open spec fn blanks() -> Seq<char> {
    seq![
        ' ', '\t', '\n', '\r', '\u{b}', '\u{c}', '\u{85}', '\u{a0}', '\u{1680}', '\u{2000}',
        '\u{2001}', '\u{2002}', '\u{2003}', '\u{2004}', '\u{2005}', '\u{2006}', '\u{2007}',
        '\u{2008}', '\u{2009}', '\u{200a}', '\u{2028}', '\u{2029}', '\u{202f}', '\u{205f}',
        '\u{3000}',
    ]
}

/// The words of a text: the non-empty pieces between blanks.
pub open spec fn words_of(s: Seq<char>) -> Seq<Seq<char>> {
    non_empty(split(s, blanks()))
}

pub open spec fn is_digit(c: char) -> bool {
    '0' <= c && c <= '9'
}

pub open spec fn digit_value(c: char) -> int {
    c as u32 as int - 48
}

pub open spec fn all_digits(s: Seq<char>) -> bool {
    forall|i: int| 0 <= i < s.len() ==> is_digit(#[trigger] s[i])
}

/// The number that a sequence of decimal digits denotes.
pub open spec fn decimal(s: Seq<char>) -> int
    decreases s.len(),
{
    if s.len() == 0 {
        0
    } else {
        10 * decimal(s.drop_last()) + digit_value(s.last())
    }
}

/// The number written in `s` with an optional `+` in front, if `s` is such a
/// number.
pub open spec fn unsigned_number(s: Seq<char>) -> Option<int> {
    let d = if s.len() > 0 && s[0] == '+' {
        s.drop_first()
    } else {
        s
    };
    if d.len() > 0 && all_digits(d) {
        Some(decimal(d))
    } else {
        None
    }
}

/// The number written in `s` with an optional `+` or `-` in front, if `s` is
/// such a number.
pub open spec fn signed_number(s: Seq<char>) -> Option<int> {
    if s.len() > 0 && s[0] == '-' {
        let d = s.drop_first();
        if d.len() > 0 && all_digits(d) {
            Some(-decimal(d))
        } else {
            None
        }
    } else {
        unsigned_number(s)
    }
}

/// `v` if it lies between `lo` and `hi`.
pub open spec fn within(v: Option<int>, lo: int, hi: int) -> Option<int> {
    match v {
        Some(x) if lo <= x <= hi => Some(x),
        _ => None,
    }
}

pub proof fn lemma_decimal_bounds(s: Seq<char>)
    requires
        all_digits(s),
    ensures
        0 <= decimal(s),
    decreases s.len(),
{
    if s.len() > 0 {
        assert(is_digit(s[s.len() - 1]));
        assert forall|i: int| 0 <= i < s.drop_last().len() implies is_digit(
            #[trigger] s.drop_last()[i],
        ) by {
            assert(s.drop_last()[i] == s[i]);
        }
        lemma_decimal_bounds(s.drop_last());
    }
}

/// A number is at least as large as the number that any of its prefixes
/// denotes.
pub proof fn lemma_decimal_prefix(s: Seq<char>, k: int)
    requires
        all_digits(s),
        0 <= k <= s.len(),
    ensures
        0 <= decimal(s.take(k)) <= decimal(s),
    decreases s.len() - k,
{
    assert forall|i: int| 0 <= i < s.take(k).len() implies is_digit(#[trigger] s.take(k)[i]) by {
        assert(s.take(k)[i] == s[i]);
    }
    lemma_decimal_bounds(s.take(k));
    if k == s.len() {
        assert(s.take(k) =~= s);
    } else {
        lemma_decimal_prefix(s, k + 1);
        assert(s.take(k + 1).drop_last() =~= s.take(k));
        assert(is_digit(s[k]));
        assert(s.take(k + 1).last() == s[k]);
    }
}

/// The characters of `s`.
pub fn chars_of(s: &str) -> (v: Vec<char>)
    ensures
        v@ == s@,
{
    let mut v: Vec<char> = Vec::new();
    for c in it: s.chars()
        invariant
            v@ == it.seq().take(it.index() as int),
    {
        v.push(c);
    }
    v
}

/// Whether `seps` holds `c`.
pub fn is_sep(seps: &Vec<char>, c: char) -> (r: bool)
    ensures
        r == seps@.contains(c),
{
    let mut i: usize = 0;
    while i < seps.len()
        invariant
            i <= seps.len(),
            forall|j: int| 0 <= j < i ==> seps@[j] != c,
        decreases seps.len() - i,
    {
        if seps[i] == c {
            return true;
        }
        i += 1;
    }
    false
}

/// Splits `s` at every character of `seps`.
pub fn split_any(s: &Vec<char>, seps: &Vec<char>) -> (r: Vec<Vec<char>>)
    ensures
        views(r@) == split(s@, seps@),
        r.len() >= 1,
{
    let mut pieces: Vec<Vec<char>> = Vec::new();
    let mut cur: Vec<char> = Vec::new();
    let mut i: usize = 0;
    proof {
        assert(s@.skip(0) =~= s@);
        assert(views(pieces@) + split(s@, seps@) =~= split(s@, seps@));
    }
    while i < s.len()
        invariant
            i <= s.len(),
            split(s@, seps@) == views(pieces@) + split_from(s@.skip(i as int), seps@, cur@),
        decreases s.len() - i,
    {
        let c = s[i];
        let ghost rest = s@.skip(i as int);
        let ghost before = views(pieces@);
        let ghost begun = cur@;
        proof {
            assert(rest[0] == c);
            assert(rest.drop_first() =~= s@.skip(i + 1));
        }
        if is_sep(seps, c) {
            pieces.push(cur);
            cur = Vec::new();
            proof {
                assert(views(pieces@) =~= before + seq![begun]);
                assert(cur@ =~= Seq::<char>::empty());
                assert(before + (seq![begun] + split_from(rest.drop_first(), seps@, Seq::empty()))
                    =~= (before + seq![begun]) + split_from(
                    rest.drop_first(),
                    seps@,
                    Seq::empty(),
                ));
            }
        } else {
            cur.push(c);
        }
        i += 1;
    }
    let ghost before = views(pieces@);
    let ghost begun = cur@;
    pieces.push(cur);
    proof {
        assert(s@.skip(s.len() as int).len() == 0);
        assert(views(pieces@) =~= before + seq![begun]);
    }
    pieces
}

/// Splits `s` at every `sep`.
pub fn split_on(s: &Vec<char>, sep: char) -> (r: Vec<Vec<char>>)
    ensures
        views(r@) == split(s@, seq![sep]),
        r.len() >= 1,
{
    let mut seps: Vec<char> = Vec::new();
    seps.push(sep);
    assert(seps@ =~= seq![sep]);
    split_any(s, &seps)
}

/// The pieces that are not empty, in order.
pub fn drop_empty(pieces: Vec<Vec<char>>) -> (r: Vec<Vec<char>>)
    ensures
        views(r@) == non_empty(views(pieces@)),
{
    let mut out: Vec<Vec<char>> = Vec::new();
    let mut i: usize = 0;
    let ghost all = views(pieces@);
    let ghost keep = |l: Seq<char>| l.len() > 0;
    proof {
        assert(all.take(0) =~= Seq::<Seq<char>>::empty());
    }
    while i < pieces.len()
        invariant
            i <= pieces.len(),
            all == views(pieces@),
            keep == |l: Seq<char>| l.len() > 0,
            views(out@) == all.take(i as int).filter(keep),
        decreases pieces.len() - i,
    {
        let ghost before = views(out@);
        proof {
            assert(all.take(i + 1) =~= all.take(i as int).push(all[i as int]));
            Seq::<Seq<char>>::filter_distributes_over_add(
                all.take(i as int),
                seq![all[i as int]],
                keep,
            );
            assert(all.take(i as int).push(all[i as int]) =~= all.take(i as int) + seq![
                all[i as int],
            ]);
            reveal(Seq::filter);
            assert(seq![all[i as int]].filter(keep) =~= if keep(all[i as int]) {
                seq![all[i as int]]
            } else {
                Seq::<Seq<char>>::empty()
            }) by {
                let one = seq![all[i as int]];
                assert(one.drop_last() =~= Seq::<Seq<char>>::empty());
                assert(one.drop_last().filter(keep) =~= Seq::<Seq<char>>::empty());
            }
        }
        if pieces[i].len() > 0 {
            out.push(pieces[i].clone());
            proof {
                assert(views(out@) =~= before + seq![all[i as int]]);
            }
        }
        i += 1;
    }
    proof {
        assert(all.take(pieces.len() as int) =~= all);
    }
    out
}

/// One vector per blank.
pub fn blank_chars() -> (r: Vec<char>)
    ensures
        r@ == blanks(),
{
    let r = vec![
        ' ', '\t', '\n', '\r', '\u{b}', '\u{c}', '\u{85}', '\u{a0}', '\u{1680}', '\u{2000}',
        '\u{2001}', '\u{2002}', '\u{2003}', '\u{2004}', '\u{2005}', '\u{2006}', '\u{2007}',
        '\u{2008}', '\u{2009}', '\u{200a}', '\u{2028}', '\u{2029}', '\u{202f}', '\u{205f}',
        '\u{3000}',
    ];
    assert(r@ =~= blanks());
    r
}

/// The words of `s`.
pub fn words(s: &Vec<char>) -> (r: Vec<Vec<char>>)
    ensures
        views(r@) == words_of(s@),
{
    let seps = blank_chars();
    drop_empty(split_any(s, &seps))
}

/// The lines of `text`.
pub fn lines(text: &str) -> (r: Vec<Vec<char>>)
    ensures
        views(r@) == lines_of(text@),
{
    let chars = chars_of(text);
    let mut pieces = split_on(&chars, '\n');
    let ghost p = views(pieces@);
    let n = pieces.len();
    let mut out: Vec<Vec<char>> = Vec::new();
    let mut i: usize = 0;
    while i + 1 < n
        invariant
            n == pieces.len(),
            n >= 1,
            i + 1 <= n,
            p == views(pieces@),
            views(out@) == Seq::new(i as nat, |j: int| strip_cr(p[j])),
        decreases n - i,
    {
        let ghost before = views(out@);
        let mut line = pieces[i].clone();
        assert(line@ == p[i as int]);
        if line.len() > 0 && line[line.len() - 1] == '\r' {
            line.pop();
        }
        assert(line@ =~= strip_cr(p[i as int]));
        out.push(line);
        proof {
            assert(views(out@) =~= before.push(strip_cr(p[i as int])));
            assert(before.push(strip_cr(p[i as int])) =~= Seq::new(
                (i + 1) as nat,
                |j: int| strip_cr(p[j]),
            ));
        }
        i += 1;
    }
    if pieces[n - 1].len() > 0 {
        let ghost before = views(out@);
        out.push(pieces[n - 1].clone());
        proof {
            assert(p.last() == pieces@[n - 1]@);
            assert(views(out@) =~= before.push(p.last()));
        }
    }
    out
}

/// Reads digits as a number that is at most `max`.
pub fn parse_digits(s: &Vec<char>, from: usize, max: u64) -> (r: Option<u64>)
    requires
        from <= s.len(),
    ensures
        r == (if from < s.len() && all_digits(s@.skip(from as int)) && decimal(
            s@.skip(from as int),
        ) <= max {
            Some(decimal(s@.skip(from as int)) as u64)
        } else {
            None
        }),
{
    if from >= s.len() {
        return None;
    }
    let ghost d = s@.skip(from as int);
    let mut acc: u64 = 0;
    let mut i: usize = from;
    proof {
        assert(d.take(0) =~= Seq::<char>::empty());
    }
    while i < s.len()
        invariant
            from <= i <= s.len(),
            d == s@.skip(from as int),
            all_digits(d.take(i - from)),
            acc == decimal(d.take(i - from)),
            acc <= max,
        decreases s.len() - i,
    {
        let c = s[i];
        assert(d[i - from] == c);
        if !(c >= '0' && c <= '9') {
            assert(!is_digit(d[i - from]));
            return None;
        }
        proof {
            assert(d.take(i - from + 1).drop_last() =~= d.take(i - from));
            assert(d.take(i - from + 1).last() == c);
            assert forall|j: int| 0 <= j < d.take(i - from + 1).len() implies is_digit(
                #[trigger] d.take(i - from + 1)[j],
            ) by {
                if j < i - from {
                    assert(d.take(i - from + 1)[j] == d.take(i - from)[j]);
                }
            }
        }
        let digit: u64 = (c as u32 - 48) as u64;
        let next: u128 = acc as u128 * 10 + digit as u128;
        if next > max as u128 {
            proof {
                if all_digits(d) {
                    lemma_decimal_prefix(d, i - from + 1);
                }
            }
            return None;
        }
        acc = next as u64;
        i += 1;
    }
    proof {
        assert(d.take(s.len() - from) =~= d);
    }
    Some(acc)
}

/// Reads a number without sign, or with `+` in front, that is at most `max`.
pub fn parse_unsigned(s: &Vec<char>, max: u64) -> (r: Option<u64>)
    ensures
        r == match within(unsigned_number(s@), 0, max as int) {
            Some(v) => Some(v as u64),
            None => None,
        },
{
    let from: usize = if s.len() > 0 && s[0] == '+' {
        1
    } else {
        0
    };
    proof {
        assert(s@.skip(0) =~= s@);
        assert(s@.skip(1) =~= s@.drop_first());
        if s@.skip(from as int).len() > 0 && all_digits(s@.skip(from as int)) {
            lemma_decimal_bounds(s@.skip(from as int));
        }
    }
    parse_digits(s, from, max)
}

/// Reads a number with an optional sign that lies between `lo` and `hi`.
pub fn parse_signed(s: &Vec<char>, lo: i64, hi: i64) -> (r: Option<i64>)
    requires
        lo <= 0 <= hi,
    ensures
        r == match within(signed_number(s@), lo as int, hi as int) {
            Some(v) => Some(v as i64),
            None => None,
        },
{
    if s.len() > 0 && s[0] == '-' {
        proof {
            assert(s@.skip(1) =~= s@.drop_first());
            if s@.skip(1).len() > 0 && all_digits(s@.skip(1)) {
                lemma_decimal_bounds(s@.skip(1));
            }
        }
        let bound: u64 = (-(lo as i128)) as u64;
        match parse_digits(s, 1, bound) {
            Some(m) => Some((-(m as i128)) as i64),
            None => None,
        }
    } else {
        proof {
            let d = if s@.len() > 0 && s@[0] == '+' {
                s@.drop_first()
            } else {
                s@
            };
            if d.len() > 0 && all_digits(d) {
                lemma_decimal_bounds(d);
            }
        }
        match parse_unsigned(s, hi as u64) {
            Some(m) => Some(m as i64),
            None => None,
        }
    }
}

pub fn parse_usize(s: &Vec<char>) -> (r: Option<usize>)
    ensures
        r == match within(unsigned_number(s@), 0, usize::MAX as int) {
            Some(v) => Some(v as usize),
            None => None,
        },
{
    match parse_unsigned(s, usize::MAX as u64) {
        Some(v) => Some(v as usize),
        None => None,
    }
}

pub fn parse_i64(s: &Vec<char>) -> (r: Option<i64>)
    ensures
        r == match within(signed_number(s@), i64::MIN as int, i64::MAX as int) {
            Some(v) => Some(v as i64),
            None => None,
        },
{
    parse_signed(s, i64::MIN, i64::MAX)
}

pub fn parse_i32(s: &Vec<char>) -> (r: Option<i32>)
    ensures
        r == match within(signed_number(s@), i32::MIN as int, i32::MAX as int) {
            Some(v) => Some(v as i32),
            None => None,
        },
{
    match parse_signed(s, i32::MIN as i64, i32::MAX as i64) {
        Some(v) => Some(v as i32),
        None => None,
    }
}

pub fn parse_isize(s: &Vec<char>) -> (r: Option<isize>)
    ensures
        r == match within(signed_number(s@), isize::MIN as int, isize::MAX as int) {
            Some(v) => Some(v as isize),
            None => None,
        },
{
    match parse_signed(s, isize::MIN as i64, isize::MAX as i64) {
        Some(v) => Some(v as isize),
        None => None,
    }
}

/// `sub` stands in `s` at place `i`.
pub open spec fn occurs_at(s: Seq<char>, sub: Seq<char>, i: int) -> bool {
    0 <= i && i + sub.len() <= s.len() && s.subrange(i, i + sub.len()) == sub
}

/// `i` is the first place where `sub` stands in `s`.
pub open spec fn first_at(s: Seq<char>, sub: Seq<char>, i: int) -> bool {
    occurs_at(s, sub, i) && forall|j: int| 0 <= j < i ==> !occurs_at(s, sub, j)
}

/// `i` is the last place where `sub` stands in `s`.
pub open spec fn last_at(s: Seq<char>, sub: Seq<char>, i: int) -> bool {
    occurs_at(s, sub, i) && forall|j: int| i < j ==> !occurs_at(s, sub, j)
}

/// Whether `sub` stands in `s` at place `i`.
pub fn matches_at(s: &Vec<char>, sub: &Vec<char>, i: usize) -> (r: bool)
    ensures
        r == occurs_at(s@, sub@, i as int),
{
    if sub.len() > s.len() || i > s.len() - sub.len() {
        return false;
    }
    let mut k: usize = 0;
    while k < sub.len()
        invariant
            k <= sub.len(),
            i + sub.len() <= s.len(),
            forall|j: int| 0 <= j < k ==> s@[i + j] == sub@[j],
        decreases sub.len() - k,
    {
        if s[i + k] != sub[k] {
            assert(s@.subrange(i as int, i + sub.len())[k as int] != sub@[k as int]);
            return false;
        }
        k += 1;
    }
    assert(s@.subrange(i as int, i + sub.len()) =~= sub@);
    true
}

/// The first place where `sub` stands in `s`.
pub fn find_first(s: &Vec<char>, sub: &Vec<char>) -> (r: Option<usize>)
    ensures
        match r {
            Some(i) => first_at(s@, sub@, i as int),
            None => forall|j: int| !occurs_at(s@, sub@, j),
        },
{
    let mut i: usize = 0;
    while i <= s.len()
        invariant
            i <= s.len() + 1,
            forall|j: int| 0 <= j < i ==> !occurs_at(s@, sub@, j),
        decreases s.len() + 1 - i,
    {
        if matches_at(s, sub, i) {
            return Some(i);
        }
        if i == s.len() {
            return None;
        }
        i += 1;
    }
    None
}

/// The last place where `sub` stands in `s`.
pub fn find_last(s: &Vec<char>, sub: &Vec<char>) -> (r: Option<usize>)
    ensures
        match r {
            Some(i) => last_at(s@, sub@, i as int),
            None => forall|j: int| !occurs_at(s@, sub@, j),
        },
{
    let mut i: usize = s.len();
    loop
        invariant
            i <= s.len(),
            forall|j: int| i < j ==> !occurs_at(s@, sub@, j),
        decreases i,
    {
        if matches_at(s, sub, i) {
            return Some(i);
        }
        if i == 0 {
            return None;
        }
        i -= 1;
    }
}

/// The number of blanks at the beginning of `s`.
pub open spec fn blank_prefix(s: Seq<char>) -> int
    decreases s.len(),
{
    if s.len() > 0 && blanks().contains(s[0]) {
        1 + blank_prefix(s.drop_first())
    } else {
        0
    }
}

/// The number of blanks at the end of `s`.
pub open spec fn blank_suffix(s: Seq<char>) -> int
    decreases s.len(),
{
    if s.len() > 0 && blanks().contains(s.last()) {
        1 + blank_suffix(s.drop_last())
    } else {
        0
    }
}

/// `s` without the blanks at its beginning and at its end.
pub open spec fn trimmed(s: Seq<char>) -> Seq<char> {
    if blank_prefix(s) >= s.len() {
        Seq::empty()
    } else {
        s.subrange(blank_prefix(s), s.len() - blank_suffix(s))
    }
}

/// The number of characters of `s` before the first `c`, or the length of
/// `s` if it holds no `c`.
pub open spec fn find_char(s: Seq<char>, c: char) -> int
    decreases s.len(),
{
    if s.len() > 0 && s[0] != c {
        1 + find_char(s.drop_first(), c)
    } else {
        0
    }
}

/// Whether `c` is a blank.
pub fn is_blank(c: char) -> (r: bool)
    ensures
        r == blanks().contains(c),
{
    let b = blank_chars();
    is_sep(&b, c)
}

/// The place of the first `c` in `s` from `from` on, or the length of `s`.
pub fn position_of(s: &Vec<char>, from: usize, c: char) -> (r: usize)
    requires
        from <= s.len(),
    ensures
        r == from + find_char(s@.skip(from as int), c),
        from <= r <= s.len(),
        r < s.len() ==> s@[r as int] == c,
        forall|j: int| from <= j < r ==> s@[j] != c,
{
    let mut i: usize = from;
    while i < s.len() && s[i] != c
        invariant
            from <= i <= s.len(),
            forall|j: int| from <= j < i ==> s@[j] != c,
            find_char(s@.skip(from as int), c) == (i - from) + find_char(s@.skip(i as int), c),
        decreases s.len() - i,
    {
        proof {
            assert(s@.skip(i as int)[0] == s@[i as int]);
            assert(s@.skip(i as int).drop_first() =~= s@.skip(i + 1));
        }
        i += 1;
    }
    proof {
        if i < s.len() {
            assert(s@.skip(i as int)[0] == s@[i as int]);
        } else {
            assert(s@.skip(i as int).len() == 0);
        }
    }
    i
}

/// The range of `s` that is left when the blanks at both ends are taken
/// away.
pub fn trim_range(s: &Vec<char>) -> (r: (usize, usize))
    ensures
        r.0 <= r.1 <= s.len(),
        trimmed(s@) == s@.subrange(r.0 as int, r.1 as int),
{
    let mut a: usize = 0;
    proof {
        assert(s@.skip(0) =~= s@);
        assert(s@.take(s.len() as int) =~= s@);
    }
    while a < s.len() && is_blank(s[a])
        invariant
            a <= s.len(),
            blank_prefix(s@) == a + blank_prefix(s@.skip(a as int)),
        decreases s.len() - a,
    {
        proof {
            assert(s@.skip(a as int)[0] == s@[a as int]);
            assert(s@.skip(a as int).drop_first() =~= s@.skip(a + 1));
        }
        a += 1;
    }
    proof {
        if a < s.len() {
            assert(s@.skip(a as int)[0] == s@[a as int]);
        } else {
            assert(s@.skip(a as int).len() == 0);
        }
        assert(s@.skip(0) =~= s@);
    }
    if a == s.len() {
        assert(s@.subrange(a as int, a as int) =~= Seq::<char>::empty());
        return (a, a);
    }
    let mut b: usize = s.len();
    while is_blank(s[b - 1])
        invariant
            a < b <= s.len(),
            !blanks().contains(s@[a as int]),
            blank_suffix(s@) == (s.len() - b) + blank_suffix(s@.take(b as int)),
        decreases b,
    {
        proof {
            assert(s@.take(b as int).last() == s@[b - 1]);
            assert(s@.take(b as int).drop_last() =~= s@.take(b - 1));
        }
        b -= 1;
    }
    proof {
        assert(s@.take(b as int).last() == s@[b - 1]);
    }
    (a, b)
}

/// The characters of `s` from `from` up to `to`.
pub fn slice(s: &Vec<char>, from: usize, to: usize) -> (r: Vec<char>)
    requires
        from <= to <= s.len(),
    ensures
        r@ == s@.subrange(from as int, to as int),
{
    let mut out: Vec<char> = Vec::new();
    let mut i: usize = from;
    while i < to
        invariant
            from <= i <= to,
            to <= s.len(),
            out@ == s@.subrange(from as int, i as int),
        decreases to - i,
    {
        out.push(s[i]);
        proof {
            assert(s@.subrange(from as int, i + 1) =~= s@.subrange(from as int, i as int).push(
                s@[i as int],
            ));
        }
        i += 1;
    }
    out
}

/// Whether two sequences of characters are the same.
pub fn same_chars(a: &Vec<char>, b: &Vec<char>) -> (r: bool)
    ensures
        r == (a@ == b@),
{
    if a.len() != b.len() {
        return false;
    }
    let mut i: usize = 0;
    while i < a.len()
        invariant
            i <= a.len(),
            a.len() == b.len(),
            forall|j: int| 0 <= j < i ==> a@[j] == b@[j],
        decreases a.len() - i,
    {
        if a[i] != b[i] {
            return false;
        }
        i += 1;
    }
    assert(a@ =~= b@);
    true
}

/// The text that some characters make up. Calls std's `String::from_iter`
/// through `Iterator::collect`, which puts the characters one behind the
/// other.
#[verifier::external_body]
pub(crate) fn string_of(chars: &Vec<char>) -> (r: String)
    ensures
        r@ == chars@,
{
    chars.iter().collect()
}

/// The characters of `s` from place `start` up to place `end`, as far as
/// `s` reaches; nothing if `end` does not lie behind `start`.
pub open spec fn part(s: Seq<char>, start: int, end: int) -> Seq<char> {
    if end <= start {
        Seq::empty()
    } else {
        s.subrange(
            if start <= s.len() {
                start
            } else {
                s.len() as int
            },
            if end <= s.len() {
                end
            } else {
                s.len() as int
            },
        )
    }
}

/// The part of `s` between two places. Calls `Substring::substring` of the
/// crate substring, which counts places in characters, gives nothing where
/// the end does not lie behind the start, and cuts off at the end of `s`
/// what reaches beyond it.
#[verifier::external_body]
pub(crate) fn substring<'a>(s: &'a str, start: usize, end: usize) -> (r: &'a str)
    ensures
        r@ == part(s@, start as int, end as int),
{
    s.substring(start, end)
}

/// The number of characters of `s` before the first empty line, that is
/// before the first two line feeds in a row, or the length of `s` if it has
/// none.
pub open spec fn find_gap(s: Seq<char>) -> int
    decreases s.len(),
{
    if s.len() < 2 {
        s.len() as int
    } else if s[0] == '\n' && s[1] == '\n' {
        0
    } else {
        1 + find_gap(s.drop_first())
    }
}

/// The paragraphs of a text: the pieces between empty lines. After an
/// empty line the next paragraph begins at once, so that three line feeds
/// in a row leave the third at the head of the next paragraph.
pub open spec fn paragraphs_of(s: Seq<char>) -> Seq<Seq<char>>
    decreases s.len(),
{
    let i = find_gap(s);
    if 0 <= i && i + 2 <= s.len() {
        seq![s.take(i)] + paragraphs_of(s.skip(i + 2))
    } else {
        seq![s]
    }
}

pub proof fn lemma_find_gap(s: Seq<char>)
    ensures
        0 <= find_gap(s) <= s.len(),
        find_gap(s) < s.len() ==> find_gap(s) + 2 <= s.len(),
    decreases s.len(),
{
    if s.len() >= 2 && !(s[0] == '\n' && s[1] == '\n') {
        lemma_find_gap(s.drop_first());
    }
}

/// The place of the first empty line of `s` from `from` on.
pub fn gap_from(s: &Vec<char>, from: usize) -> (r: usize)
    requires
        from <= s.len(),
    ensures
        r == from + find_gap(s@.skip(from as int)),
        from <= r <= s.len(),
        r < s.len() ==> r + 2 <= s.len(),
{
    let mut i: usize = from;
    proof {
        lemma_find_gap(s@.skip(from as int));
    }
    while i < s.len() && i + 1 < s.len() && !(s[i] == '\n' && s[i + 1] == '\n')
        invariant
            from <= i <= s.len(),
            find_gap(s@.skip(from as int)) == (i - from) + find_gap(s@.skip(i as int)),
        decreases s.len() - i,
    {
        proof {
            let t = s@.skip(i as int);
            assert(t[0] == s@[i as int] && t[1] == s@[i + 1]);
            assert(t.drop_first() =~= s@.skip(i + 1));
        }
        i += 1;
    }
    proof {
        let t = s@.skip(i as int);
        lemma_find_gap(t);
        if i < s.len() && i + 1 < s.len() {
            assert(t[0] == s@[i as int] && t[1] == s@[i + 1]);
        }
    }
    if i < s.len() && i + 1 < s.len() {
        i
    } else {
        s.len()
    }
}

/// The paragraphs of a text.
pub fn paragraphs(s: &Vec<char>) -> (r: Vec<Vec<char>>)
    ensures
        views(r@) == paragraphs_of(s@),
{
    let mut out: Vec<Vec<char>> = Vec::new();
    let mut from: usize = 0;
    proof {
        assert(s@.skip(0) =~= s@);
        assert(views(out@) + paragraphs_of(s@) =~= paragraphs_of(s@));
    }
    loop
        invariant_except_break
            paragraphs_of(s@) == views(out@) + paragraphs_of(s@.skip(from as int)),
        invariant
            from <= s.len(),
        ensures
            views(out@) == paragraphs_of(s@),
        decreases s.len() - from,
    {
        let at = gap_from(s, from);
        let ghost rest = s@.skip(from as int);
        let ghost before = views(out@);
        let piece = slice(s, from, at);
        proof {
            assert(piece@ =~= rest.take(at - from));
        }
        out.push(piece);
        proof {
            assert(views(out@) =~= before + seq![rest.take(at - from)]);
        }
        if at >= s.len() {
            proof {
                assert(rest.take(at - from) =~= rest);
            }
            break ;
        }
        proof {
            assert(rest.skip(at - from + 2) =~= s@.skip(at + 2));
            assert(before + (seq![rest.take(at - from)] + paragraphs_of(rest.skip(at - from + 2)))
                =~= (before + seq![rest.take(at - from)]) + paragraphs_of(
                rest.skip(at - from + 2),
            ));
        }
        from = at + 2;
    }
    out
}

} // verus!
