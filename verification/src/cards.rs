//! Cards, the deck and the short text form of a card.

use vstd::prelude::*;

verus! {

/// The four suits.
#[derive(Clone, Copy, Debug, PartialEq, Eq, Structural)]
pub enum Suit {
    Clubs,
    Diamonds,
    Hearts,
    Spades,
}

/// A playing card; `rank` runs from 2 to 14 (14 is the ace).
#[derive(Clone, Copy, Debug, PartialEq, Eq, Structural)]
pub struct Card {
    pub rank: u8,
    pub suit: Suit,
}

impl Card {
    pub fn new(rank: u8, suit: Suit) -> (c: Card)
        ensures
            c.rank == rank,
            c.suit == suit,
    {
        Card { rank, suit }
    }
}

/// The position of a suit in the deck order Clubs, Diamonds, Hearts, Spades.
pub open spec fn suit_index(s: Suit) -> int {
    match s {
        Suit::Clubs => 0,
        Suit::Diamonds => 1,
        Suit::Hearts => 2,
        Suit::Spades => 3,
    }
}

/// The suit at a position of the deck order.
pub open spec fn suit_at(i: int) -> Suit {
    if i == 0 {
        Suit::Clubs
    } else if i == 1 {
        Suit::Diamonds
    } else if i == 2 {
        Suit::Hearts
    } else {
        Suit::Spades
    }
}

/// A card of a standard deck: rank between 2 and 14.
pub open spec fn valid_card(c: Card) -> bool {
    2 <= c.rank <= 14
}

/// The `i`-th card of a fresh deck: ranks ascend, and within a rank the suits
/// come in the order Clubs, Diamonds, Hearts, Spades.
pub open spec fn deck_card(i: int) -> Card {
    Card { rank: (2 + i / 4) as u8, suit: suit_at(i % 4) }
}

/// Where a valid card sits in a fresh deck.
pub open spec fn deck_position(c: Card) -> int {
    (c.rank - 2) * 4 + suit_index(c.suit)
}

/// A fresh, ordered deck of the 52 cards.
pub fn full_deck() -> (deck: Vec<Card>)
    ensures
        deck@.len() == 52,
        forall|i: int| 0 <= i < 52 ==> #[trigger] deck@[i] == deck_card(i),
{
    let suits = [Suit::Clubs, Suit::Diamonds, Suit::Hearts, Suit::Spades];
    let mut deck: Vec<Card> = Vec::with_capacity(52);
    let mut rank: u8 = 2;
    while rank <= 14
        invariant
            2 <= rank <= 15,
            deck@.len() == (rank - 2) * 4,
            suits@ == seq![Suit::Clubs, Suit::Diamonds, Suit::Hearts, Suit::Spades],
            forall|i: int| 0 <= i < deck@.len() ==> #[trigger] deck@[i] == deck_card(i),
        decreases 15 - rank,
    {
        let mut j: usize = 0;
        while j < 4
            invariant
                2 <= rank <= 14,
                j <= 4,
                deck@.len() == (rank - 2) * 4 + j,
                suits@ == seq![Suit::Clubs, Suit::Diamonds, Suit::Hearts, Suit::Spades],
                forall|i: int| 0 <= i < deck@.len() ==> #[trigger] deck@[i] == deck_card(i),
            decreases 4 - j,
        {
            let ghost k = deck@.len() as int;
            deck.push(Card::new(rank, suits[j]));
            assert(k / 4 == rank - 2 && k % 4 == j);
            assert(deck@[k] == deck_card(k));
            j = j + 1;
        }
        rank = rank + 1;
    }
    deck
}

/// Every valid card occurs in the fresh deck, at its deck position, and the
/// fresh deck holds each card once.
pub proof fn lemma_deck_complete_and_distinct(c: Card, i: int, j: int)
    ensures
        valid_card(c) ==> 0 <= deck_position(c) < 52 && deck_card(deck_position(c)) == c,
        0 <= i < 52 && 0 <= j < 52 && i != j ==> deck_card(i) != deck_card(j),
        0 <= i < 52 ==> valid_card(deck_card(i)) && deck_position(deck_card(i)) == i,
{
}

/// The character that names a rank; ranks outside 3..14 print as `2`.
pub open spec fn rank_symbol(r: u8) -> char {
    if r == 14 { 'A' }
    else if r == 13 { 'K' }
    else if r == 12 { 'Q' }
    else if r == 11 { 'J' }
    else if r == 10 { 'T' }
    else if r == 9 { '9' }
    else if r == 8 { '8' }
    else if r == 7 { '7' }
    else if r == 6 { '6' }
    else if r == 5 { '5' }
    else if r == 4 { '4' }
    else if r == 3 { '3' }
    else { '2' }
}

/// The suit symbol: ♣ ♦ ♥ ♠.
pub open spec fn suit_symbol(s: Suit) -> char {
    match s {
        Suit::Clubs => '\u{2663}',
        Suit::Diamonds => '\u{2666}',
        Suit::Hearts => '\u{2665}',
        Suit::Spades => '\u{2660}',
    }
}

/// The two-character name of a card, such as `A♠`.
pub open spec fn card_text(c: Card) -> Seq<char> {
    seq![rank_symbol(c.rank), suit_symbol(c.suit)]
}

fn rank_str(r: u8) -> (s: &'static str)
    ensures
        s@ == seq![rank_symbol(r)],
{
    match r {
        14 => { proof { reveal_strlit("A"); } "A" },
        13 => { proof { reveal_strlit("K"); } "K" },
        12 => { proof { reveal_strlit("Q"); } "Q" },
        11 => { proof { reveal_strlit("J"); } "J" },
        10 => { proof { reveal_strlit("T"); } "T" },
        9 => { proof { reveal_strlit("9"); } "9" },
        8 => { proof { reveal_strlit("8"); } "8" },
        7 => { proof { reveal_strlit("7"); } "7" },
        6 => { proof { reveal_strlit("6"); } "6" },
        5 => { proof { reveal_strlit("5"); } "5" },
        4 => { proof { reveal_strlit("4"); } "4" },
        3 => { proof { reveal_strlit("3"); } "3" },
        _ => { proof { reveal_strlit("2"); } "2" },
    }
}

fn suit_str(s: Suit) -> (t: &'static str)
    ensures
        t@ == seq![suit_symbol(s)],
{
    match s {
        Suit::Clubs => { proof { reveal_strlit("\u{2663}"); } "\u{2663}" },
        Suit::Diamonds => { proof { reveal_strlit("\u{2666}"); } "\u{2666}" },
        Suit::Hearts => { proof { reveal_strlit("\u{2665}"); } "\u{2665}" },
        Suit::Spades => { proof { reveal_strlit("\u{2660}"); } "\u{2660}" },
    }
}

/// The name of a card: rank symbol then suit symbol.
pub fn card_str(c: &Card) -> (s: String)
    ensures
        s@ == card_text(*c),
{
    let mut s = rank_str(c.rank).to_owned();
    s.append(suit_str(c.suit));
    s
}

/// Two valid cards with the same name are the same card.
pub proof fn lemma_card_text_injective(a: Card, b: Card)
    requires
        valid_card(a),
        valid_card(b),
        card_text(a) == card_text(b),
    ensures
        a == b,
{
    assert(card_text(a)[0] == card_text(b)[0]);
    assert(card_text(a)[1] == card_text(b)[1]);
}

/// The crude pre-flop strength used by the bots: the sum of the two ranks.
pub open spec fn strength_of(hole: [Card; 2]) -> int {
    hole@[0].rank + hole@[1].rank
}

pub fn hand_strength(hole: &[Card; 2]) -> (s: u32)
    ensures
        s == strength_of(*hole),
{
    hole[0].rank as u32 + hole[1].rank as u32
}

} // verus!
