//! Hands of cards in which `J` is a joker.
use crate::day07::{hand_type, winnings_to, Card, Hand, HandType};
use crate::order::in_order;
use crate::text::{lines_of, string_of};
use vstd::prelude::*;

verus! {

/// The card that a character stands for. `J` is the joker.
pub open spec fn card_of(c: char) -> Option<Card> {
    if c == 'J' {
        Some(Card::Joker)
    } else if c == 'X' {
        None
    } else {
        crate::day07::card_of(c)
    }
}

pub fn parse_card(c: char) -> (r: Card)
    requires
        card_of(c) is Some,
    ensures
        Some(r) == card_of(c),
{
    if c == 'J' {
        Card::Joker
    } else {
        crate::day07::parse_card(c)
    }
}

/// The line as the game without wild cards writes it: with `X` for the
/// joker.
pub open spec fn plain_line(l: Seq<char>) -> Seq<char> {
    crate::day07::replaced(l, 'X')
}

/// Every character stands for a card.
pub open spec fn legible(h: Seq<char>) -> bool {
    forall|i: int| 0 <= i < h.len() ==> card_of(#[trigger] h[i]) is Some
}

/// The cards that some characters stand for.
pub open spec fn cards_of(h: Seq<char>) -> Seq<Card> {
    Seq::new(h.len(), |i: int| card_of(h[i]).unwrap())
}

/// Reads a hand and finds its type.
pub fn parse_hand(h: &str) -> (r: Hand)
    requires
        legible(h@),
    ensures
        r.cards@ == cards_of(h@),
        r.t == hand_type(r.cards@),
{
    let c = crate::text::chars_of(h);
    let mut cards: Vec<Card> = Vec::new();
    let mut i: usize = 0;
    while i < c.len()
        invariant
            i <= c.len(),
            legible(c@),
            cards@.len() == i,
            forall|j: int| 0 <= j < i ==> card_of(#[trigger] c@[j]) == Some(cards@[j]),
        decreases c.len() - i,
    {
        assert(card_of(c@[i as int]) is Some);
        cards.push(parse_card(c[i]));
        i += 1;
    }
    assert(cards@ =~= cards_of(h@));
    let t = crate::day07::classify(&cards);
    Hand { cards, t }
}

/// No line of the text holds an `X`, and with `X` for every `J` each is a
/// hand and its bid.
pub open spec fn deck_ok(ls: Seq<Seq<char>>) -> bool {
    forall|k: int|
        0 <= k < ls.len() ==> !(#[trigger] ls[k]).contains('X') && crate::day07::entry(
            plain_line(ls[k]),
        ) is Some
}

/// Reads a deck of hands and bids, one from each line.
pub fn parse(f: &str) -> (r: Vec<(Hand, usize)>)
    requires
        deck_ok(lines_of(f@)),
    ensures
        r@.len() == lines_of(f@).len(),
        forall|k: int|
            0 <= k < r@.len() ==> crate::day07::entry(plain_line(lines_of(f@)[k])) == Some(
                ((#[trigger] r@[k]).0.cards@, r@[k].1 as int),
            ) && r@[k].0.t == hand_type(r@[k].0.cards@),
{
    proof {
        assert forall|k: int| 0 <= k < lines_of(f@).len() implies crate::day07::entry(
            crate::day07::replaced(#[trigger] lines_of(f@)[k], 'X'),
        ) is Some by {
            assert(!lines_of(f@)[k].contains('X'));
        }
    }
    crate::day07::parse(f, Card::Joker)
}

/// The keys by which the hands of a text are ordered: of each line the
/// rank of the type of its hand, the ranks of its cards and its bid.
pub open spec fn deck_keys(ls: Seq<Seq<char>>) -> Seq<(usize, Seq<usize>, usize)> {
    Seq::new(
        ls.len(),
        |k: int|
            {
                let e = crate::day07::entry(plain_line(ls[k])).unwrap();
                (
                    crate::day07::type_rank(hand_type(e.0)) as usize,
                    Seq::new(e.0.len(), |i: int| crate::day07::rank(e.0[i]) as usize),
                    e.1 as usize,
                )
            },
    )
}

/// The total winnings of the deck that a text describes: the hands are
/// ordered from the weakest to the strongest, and each wins its bid times
/// its rank.
pub fn solve(f: &str) -> (r: usize)
    requires
        deck_ok(lines_of(f@)),
        winnings_to(in_order(deck_keys(lines_of(f@))), lines_of(f@).len() as int) <= usize::MAX,
    ensures
        r == winnings_to(in_order(deck_keys(lines_of(f@))), lines_of(f@).len() as int),
{
    let deck = parse(f);
    let ghost d = deck@;
    proof {
        assert(crate::day07::keys_of(d) =~= deck_keys(lines_of(f@))) by {
            assert forall|k: int| 0 <= k < d.len() implies crate::day07::keys_of(d)[k]
                == deck_keys(lines_of(f@))[k] by {
                let e = crate::day07::entry(plain_line(lines_of(f@)[k])).unwrap();
                assert(e == (d[k].0.cards@, d[k].1 as int));
                assert(crate::day07::key_of(d[k].0, d[k].1).1 =~= Seq::new(
                    e.0.len(),
                    |i: int| crate::day07::rank(e.0[i]) as usize,
                ));
            }
        }
    }
    crate::day07::solve(deck)
}

} // verus!
