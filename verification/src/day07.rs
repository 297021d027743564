//! Hands of cards, ranked by their type. The card `X` is a joker that counts
//! as whatever card makes the hand strongest.
use crate::text::{
    chars_of, lines, lines_of, parse_usize, split, split_on, unsigned_number, views, within,
};
use crate::order::{in_order, lemma_in_order, plain, sorted, Key};
use vstd::prelude::*;

verus! {

#[derive(Clone, Copy, Debug, PartialEq, Eq, PartialOrd, Ord, Structural)]
pub enum HandType {
    FiveofAKind,
    FourofAKind,
    FullHouse,
    ThreeOfAKind,
    TwoPair,
    OnePair,
    HighCard,
}

#[derive(Clone, Copy, Debug, PartialEq, Eq, PartialOrd, Ord, Structural)]
pub enum Card {
    Ace,
    King,
    Queen,
    Jack,
    Ten,
    Nine,
    Eight,
    Seven,
    Six,
    Five,
    Four,
    Three,
    Two,
    Joker,
}

#[derive(Clone, Debug, PartialEq, Eq, PartialOrd, Ord)]
pub struct Hand {
    pub t: HandType,
    pub cards: Vec<Card>,
}

/// The place of a card among the cards, the strongest first and the joker
/// last.
pub open spec fn rank(c: Card) -> int {
    match c {
        Card::Ace => 0,
        Card::King => 1,
        Card::Queen => 2,
        Card::Jack => 3,
        Card::Ten => 4,
        Card::Nine => 5,
        Card::Eight => 6,
        Card::Seven => 7,
        Card::Six => 8,
        Card::Five => 9,
        Card::Four => 10,
        Card::Three => 11,
        Card::Two => 12,
        Card::Joker => 13,
    }
}

/// The place of a card among the cards.
pub fn rank_of(c: Card) -> (r: usize)
    ensures
        r == rank(c),
        r < 14,
{
    match c {
        Card::Ace => 0,
        Card::King => 1,
        Card::Queen => 2,
        Card::Jack => 3,
        Card::Ten => 4,
        Card::Nine => 5,
        Card::Eight => 6,
        Card::Seven => 7,
        Card::Six => 8,
        Card::Five => 9,
        Card::Four => 10,
        Card::Three => 11,
        Card::Two => 12,
        Card::Joker => 13,
    }
}

/// How many of the cards have the rank `r`.
pub open spec fn count(cards: Seq<Card>, r: int) -> int
    decreases cards.len(),
{
    if cards.len() == 0 {
        0
    } else {
        count(cards.drop_last(), r) + if rank(cards.last()) == r {
            1int
        } else {
            0
        }
    }
}

/// How many of the ranks below `r` occur among the cards.
pub open spec fn kinds(cards: Seq<Card>, r: int) -> int
    decreases r,
{
    if r <= 0 {
        0
    } else {
        kinds(cards, r - 1) + if count(cards, r - 1) > 0 {
            1int
        } else {
            0
        }
    }
}

/// How often the most frequent of the ranks below `r` occurs among the
/// cards.
pub open spec fn most(cards: Seq<Card>, r: int) -> int
    decreases r,
{
    if r <= 0 {
        0
    } else if count(cards, r - 1) > most(cards, r - 1) {
        count(cards, r - 1)
    } else {
        most(cards, r - 1)
    }
}

/// The type of a hand with so many different cards, of which the most
/// frequent, with the jokers added to it, occurs so often.
pub open spec fn type_of(different: int, best: int) -> HandType {
    if best == 5 {
        HandType::FiveofAKind
    } else if different == 2 && best == 4 {
        HandType::FourofAKind
    } else if different == 2 && best == 3 {
        HandType::FullHouse
    } else if different == 3 && best == 2 {
        HandType::TwoPair
    } else if different == 3 && best == 3 {
        HandType::ThreeOfAKind
    } else if different == 4 && best == 2 {
        HandType::OnePair
    } else {
        HandType::HighCard
    }
}

/// The type of a hand: by the number of its different cards that are no
/// jokers and the number of the most frequent of them, to which the jokers
/// are added.
pub open spec fn hand_type(cards: Seq<Card>) -> HandType {
    type_of(kinds(cards, 13), most(cards, 13) + count(cards, 13))
}

pub proof fn lemma_count_bound(cards: Seq<Card>, r: int)
    ensures
        0 <= count(cards, r) <= cards.len(),
    decreases cards.len(),
{
    if cards.len() > 0 {
        lemma_count_bound(cards.drop_last(), r);
    }
}

pub proof fn lemma_most_bound(cards: Seq<Card>, r: int)
    ensures
        0 <= most(cards, r) <= cards.len(),
        0 <= kinds(cards, r),
        r >= 0 ==> kinds(cards, r) <= r,
    decreases r,
{
    if r > 0 {
        lemma_most_bound(cards, r - 1);
        lemma_count_bound(cards, r - 1);
    }
}

/// The type of a hand.
pub fn classify(cards: &Vec<Card>) -> (r: HandType)
    ensures
        r == hand_type(cards@),
{
    let mut counts: Vec<usize> = Vec::new();
    let mut r: usize = 0;
    while r < 14
        invariant
            r <= 14,
            counts.len() == r,
            forall|j: int| 0 <= j < r ==> counts@[j] == 0,
        decreases 14 - r,
    {
        counts.push(0);
        r += 1;
    }
    let mut i: usize = 0;
    proof {
        assert(cards@.take(0) =~= Seq::<Card>::empty());
    }
    while i < cards.len()
        invariant
            i <= cards.len(),
            counts.len() == 14,
            forall|j: int| 0 <= j < 14 ==> counts@[j] == count(cards@.take(i as int), j),
        decreases cards.len() - i,
    {
        let k = rank_of(cards[i]);
        proof {
            assert(cards@.take(i + 1).drop_last() =~= cards@.take(i as int));
            assert(cards@.take(i + 1).last() == cards@[i as int]);
            lemma_count_bound(cards@.take(i as int), k as int);
        }
        let c = counts[k];
        counts[k] = c + 1;
        i += 1;
    }
    proof {
        assert(cards@.take(cards@.len() as int) =~= cards@);
    }
    let mut different: usize = 0;
    let mut best: usize = 0;
    let mut k: usize = 0;
    while k < 13
        invariant
            k <= 13,
            counts.len() == 14,
            forall|j: int| 0 <= j < 14 ==> counts@[j] == count(cards@, j),
            different == kinds(cards@, k as int),
            best == most(cards@, k as int),
            different <= k,
        decreases 13 - k,
    {
        if counts[k] > 0 {
            different += 1;
        }
        if counts[k] > best {
            best = counts[k];
        }
        k += 1;
    }
    let jokers = counts[13];
    proof {
        lemma_most_bound(cards@, 13);
        lemma_count_bound(cards@, 13);
    }
    let top: u128 = best as u128 + jokers as u128;
    if top == 5 {
        HandType::FiveofAKind
    } else if different == 2 && top == 4 {
        HandType::FourofAKind
    } else if different == 2 && top == 3 {
        HandType::FullHouse
    } else if different == 3 && top == 2 {
        HandType::TwoPair
    } else if different == 3 && top == 3 {
        HandType::ThreeOfAKind
    } else if different == 4 && top == 2 {
        HandType::OnePair
    } else {
        HandType::HighCard
    }
}

/// The card that a character stands for. `J` is the jack, `X` the joker.
pub open spec fn card_of(c: char) -> Option<Card> {
    if c == 'A' {
        Some(Card::Ace)
    } else if c == 'K' {
        Some(Card::King)
    } else if c == 'Q' {
        Some(Card::Queen)
    } else if c == 'J' {
        Some(Card::Jack)
    } else if c == 'X' {
        Some(Card::Joker)
    } else if c == 'T' {
        Some(Card::Ten)
    } else if c == '9' {
        Some(Card::Nine)
    } else if c == '8' {
        Some(Card::Eight)
    } else if c == '7' {
        Some(Card::Seven)
    } else if c == '6' {
        Some(Card::Six)
    } else if c == '5' {
        Some(Card::Five)
    } else if c == '4' {
        Some(Card::Four)
    } else if c == '3' {
        Some(Card::Three)
    } else if c == '2' {
        Some(Card::Two)
    } else {
        None
    }
}

/// The card for a character, if it stands for one.
pub fn read_card(c: char) -> (r: Option<Card>)
    ensures
        r == card_of(c),
{
    match c {
        'A' => Some(Card::Ace),
        'K' => Some(Card::King),
        'Q' => Some(Card::Queen),
        'J' => Some(Card::Jack),
        'X' => Some(Card::Joker),
        'T' => Some(Card::Ten),
        '9' => Some(Card::Nine),
        '8' => Some(Card::Eight),
        '7' => Some(Card::Seven),
        '6' => Some(Card::Six),
        '5' => Some(Card::Five),
        '4' => Some(Card::Four),
        '3' => Some(Card::Three),
        '2' => Some(Card::Two),
        _ => None,
    }
}

pub fn parse_card(c: char) -> (r: Card)
    requires
        card_of(c) is Some,
    ensures
        Some(r) == card_of(c),
{
    match read_card(c) {
        Some(x) => x,
        None => Card::Joker,
    }
}

/// Every character stands for a card.
pub open spec fn legible(h: Seq<char>) -> bool {
    forall|i: int| 0 <= i < h.len() ==> card_of(#[trigger] h[i]) is Some
}

/// The cards that some characters stand for.
pub open spec fn cards_of(h: Seq<char>) -> Seq<Card> {
    Seq::new(h.len(), |i: int| card_of(h[i]).unwrap())
}

fn hand_of(h: &Vec<char>) -> (r: Option<Hand>)
    ensures
        match r {
            Some(x) => legible(h@) && x.cards@ == cards_of(h@) && x.t == hand_type(x.cards@),
            None => !legible(h@),
        },
{
    let mut cards: Vec<Card> = Vec::new();
    let mut i: usize = 0;
    while i < h.len()
        invariant
            i <= h.len(),
            cards.len() == i,
            forall|j: int| 0 <= j < i ==> card_of(#[trigger] h@[j]) == Some(cards@[j]),
        decreases h.len() - i,
    {
        match read_card(h[i]) {
            Some(c) => {
                cards.push(c);
            },
            None => {
                assert(card_of(h@[i as int]) is None);
                return None;
            },
        }
        i += 1;
    }
    assert(cards@ =~= cards_of(h@));
    let t = classify(&cards);
    Some(Hand { cards, t })
}

/// Reads a hand and finds its type.
pub fn parse_hand(h: &str) -> (r: Hand)
    requires
        legible(h@),
    ensures
        r.cards@ == cards_of(h@),
        r.t == hand_type(r.cards@),
{
    match hand_of(&chars_of(h)) {
        Some(x) => x,
        None => Hand { t: HandType::HighCard, cards: Vec::new() },
    }
}

/// What a line says: a hand and, behind the only space, its bid.
pub open spec fn entry(l: Seq<char>) -> Option<(Seq<Card>, int)> {
    let p = split(l, seq![' ']);
    if p.len() == 2 && legible(p[0]) && within(unsigned_number(p[1]), 0, usize::MAX as int)
        is Some {
        Some((cards_of(p[0]), within(unsigned_number(p[1]), 0, usize::MAX as int).unwrap()))
    } else {
        None
    }
}

/// Reads a hand and its bid.
pub fn parse_line(l: &str) -> (r: (Hand, usize))
    requires
        entry(l@) is Some,
    ensures
        entry(l@) == Some((r.0.cards@, r.1 as int)),
        r.0.t == hand_type(r.0.cards@),
{
    let c = chars_of(l);
    let p = split_on(&c, ' ');
    assert(views(p@)[0] == p@[0]@ && views(p@)[1] == p@[1]@);
    match (hand_of(&p[0]), parse_usize(&p[1])) {
        (Some(h), Some(bid)) => (h, bid),
        _ => (Hand { t: HandType::HighCard, cards: Vec::new() }, 0),
    }
}

/// The place of a type among the types, the strongest first.
pub open spec fn type_rank(t: HandType) -> int {
    match t {
        HandType::FiveofAKind => 0,
        HandType::FourofAKind => 1,
        HandType::FullHouse => 2,
        HandType::ThreeOfAKind => 3,
        HandType::TwoPair => 4,
        HandType::OnePair => 5,
        HandType::HighCard => 6,
    }
}

/// The place of a type among the types.
pub fn type_rank_of(t: HandType) -> (r: usize)
    ensures
        r == type_rank(t),
{
    match t {
        HandType::FiveofAKind => 0,
        HandType::FourofAKind => 1,
        HandType::FullHouse => 2,
        HandType::ThreeOfAKind => 3,
        HandType::TwoPair => 4,
        HandType::OnePair => 5,
        HandType::HighCard => 6,
    }
}

/// The key of a hand and its bid.
pub open spec fn key_of(h: Hand, bid: usize) -> (usize, Seq<usize>, usize) {
    (type_rank(h.t) as usize, Seq::new(h.cards@.len(), |i: int| rank(h.cards@[i]) as usize), bid)
}

/// The keys of a deck.
pub open spec fn keys_of(deck: Seq<(Hand, usize)>) -> Seq<(usize, Seq<usize>, usize)> {
    Seq::new(deck.len(), |i: int| key_of(deck[i].0, deck[i].1))
}

/// The winnings of the first `k` hands of a deck in ascending order: each
/// bid times the number of hands from its own to the last, so that the
/// weakest hand has rank one.
pub open spec fn winnings_to(s: Seq<(usize, Seq<usize>, usize)>, k: int) -> int
    decreases k,
{
    if k <= 0 {
        0
    } else {
        winnings_to(s, k - 1) + (s.len() - (k - 1)) * s[k - 1].2
    }
}

pub proof fn lemma_winnings_monotone(s: Seq<(usize, Seq<usize>, usize)>, a: int, b: int)
    requires
        0 <= a <= b <= s.len(),
    ensures
        0 <= winnings_to(s, a) <= winnings_to(s, b),
    decreases b,
{
    if b > 0 {
        let w = s.len() - (b - 1);
        let v = s[b - 1].2 as int;
        assert(0 <= w * v) by (nonlinear_arith)
            requires
                0 <= w,
                0 <= v,
        ;
        if a < b {
            lemma_winnings_monotone(s, a, b - 1);
        } else {
            lemma_winnings_monotone(s, a - 1, b - 1);
        }
    }
}

/// The total winnings of a deck: the hands are ordered from the weakest to
/// the strongest, and each wins its bid times its rank.
pub fn solve(deck: Vec<(Hand, usize)>) -> (r: usize)
    requires
        winnings_to(in_order(keys_of(deck@)), deck@.len() as int) <= usize::MAX,
    ensures
        r == winnings_to(in_order(keys_of(deck@)), deck@.len() as int),
{
    let mut keys: Vec<Key> = Vec::new();
    let mut i: usize = 0;
    while i < deck.len()
        invariant
            i <= deck.len(),
            keys@.len() == i,
            forall|j: int| 0 <= j < i ==> #[trigger] plain(keys@)[j] == keys_of(deck@)[j],
        decreases deck.len() - i,
    {
        let hand = &deck[i].0;
        let mut ranks: Vec<usize> = Vec::new();
        let mut k: usize = 0;
        while k < hand.cards.len()
            invariant
                k <= hand.cards.len(),
                ranks@.len() == k,
                forall|j: int| 0 <= j < k ==> ranks@[j] == rank(hand.cards@[j]),
            decreases hand.cards.len() - k,
        {
            ranks.push(rank_of(hand.cards[k]));
            k += 1;
        }
        let ghost before = plain(keys@);
        assert(ranks@ =~= key_of(deck@[i as int].0, deck@[i as int].1).1);
        keys.push((type_rank_of(hand.t), ranks, deck[i].1));
        proof {
            assert forall|j: int| 0 <= j < i + 1 implies #[trigger] plain(keys@)[j] == keys_of(
                deck@,
            )[j] by {
                if j < i {
                    assert(plain(keys@)[j] == before[j]);
                }
            }
        }
        i += 1;
    }
    assert(plain(keys@) =~= keys_of(deck@));
    let s = sorted(keys);
    let ghost p = plain(s@);
    let n = s.len();
    proof {
        lemma_in_order(keys_of(deck@), p);
        vstd::seq_lib::to_multiset_len(p);
        vstd::seq_lib::to_multiset_len(keys_of(deck@));
    }
    let mut acc: usize = 0;
    let mut idx: usize = 0;
    while idx < n
        invariant
            idx <= n,
            n == s@.len(),
            p == plain(s@),
            winnings_to(p, n as int) <= usize::MAX,
            acc == winnings_to(p, idx as int),
        decreases n - idx,
    {
        proof {
            lemma_winnings_monotone(p, idx + 1, n as int);
            lemma_winnings_monotone(p, idx as int, idx + 1);
            assert(p[idx as int].2 == s@[idx as int].2);
            let w = (n - idx) as int;
            let v = s@[idx as int].2 as int;
            assert(0 <= v * 1 <= w * v) by (nonlinear_arith)
                requires
                    1 <= w,
                    0 <= v,
            ;
        }
        acc = acc + (n - idx) * s[idx].2;
        idx += 1;
    }
    acc
}

/// Every line of a text is a hand and its bid.
pub open spec fn deck_ok(ls: Seq<Seq<char>>) -> bool {
    forall|k: int| 0 <= k < ls.len() ==> entry(#[trigger] ls[k]) is Some
}

/// A line in which every `J` has given way to `r`.
pub open spec fn replaced(l: Seq<char>, r: char) -> Seq<char> {
    Seq::new(
        l.len(),
        |i: int|
            if l[i] == 'J' {
                r
            } else {
                l[i]
            },
    )
}

/// Reads a deck of hands and bids, one from each line, where `J` stands
/// for the card `j`: the jack or the joker.
pub fn parse(f: &str, j: Card) -> (r: Vec<(Hand, usize)>)
    requires
        j == Card::Joker || j == Card::Jack,
        forall|k: int|
            0 <= k < lines_of(f@).len() ==> entry(
                replaced(
                    #[trigger] lines_of(f@)[k],
                    if j == Card::Joker {
                        'X'
                    } else {
                        'J'
                    },
                ),
            ) is Some,
    ensures
        r@.len() == lines_of(f@).len(),
        forall|k: int|
            0 <= k < r@.len() ==> entry(
                replaced(
                    lines_of(f@)[k],
                    if j == Card::Joker {
                        'X'
                    } else {
                        'J'
                    },
                ),
            ) == Some(((#[trigger] r@[k]).0.cards@, r@[k].1 as int)) && r@[k].0.t == hand_type(
                r@[k].0.cards@,
            ),
{
    let c: char = match j {
        Card::Joker => 'X',
        _ => 'J',
    };
    let ls = lines(f);
    let ghost all = lines_of(f@);
    let mut out: Vec<(Hand, usize)> = Vec::new();
    let mut i: usize = 0;
    while i < ls.len()
        invariant
            i <= ls.len(),
            all == views(ls@),
            forall|k: int| 0 <= k < all.len() ==> entry(replaced(#[trigger] all[k], c)) is Some,
            out@.len() == i,
            forall|k: int|
                0 <= k < i ==> entry(replaced(all[k], c)) == Some(
                    ((#[trigger] out@[k]).0.cards@, out@[k].1 as int),
                ) && out@[k].0.t == hand_type(out@[k].0.cards@),
        decreases ls.len() - i,
    {
        let l = &ls[i];
        let mut line: Vec<char> = Vec::new();
        let mut x: usize = 0;
        while x < l.len()
            invariant
                x <= l.len(),
                line@.len() == x,
                forall|b: int| 0 <= b < x ==> line@[b] == replaced(l@, c)[b],
            decreases l.len() - x,
        {
            line.push(if l[x] == 'J' { c } else { l[x] });
            x += 1;
        }
        assert(all[i as int] == l@);
        assert(line@ =~= replaced(all[i as int], c));
        assert(entry(replaced(all[i as int], c)) is Some);
        let text = crate::text::string_of(&line);
        let pair = parse_line(text.as_str());
        let ghost before = out@;
        out.push(pair);
        proof {
            assert forall|k: int| 0 <= k < i + 1 implies entry(replaced(all[k], c)) == Some(
                ((#[trigger] out@[k]).0.cards@, out@[k].1 as int),
            ) && out@[k].0.t == hand_type(out@[k].0.cards@) by {
                if k < i {
                    assert(out@[k] == before[k]);
                }
            }
        }
        i += 1;
    }
    out
}

} // verus!
