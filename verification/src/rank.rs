//! Hand ranking, done by the `rs_poker` evaluator.
//!
//! A ranked hand is kept as its category and the evaluator's sub-rank within
//! the category; comparing `rank_key`s compares hands the way `rs_poker`'s
//! `Rank` ordering does.

use vstd::prelude::*;
use crate::cards::{Card, Suit};

verus! {

/// The hand classes, weakest first.
#[derive(Clone, Copy, Debug, PartialEq, Eq, Structural)]
pub enum HandCategory {
    HighCard,
    OnePair,
    TwoPair,
    ThreeOfAKind,
    Straight,
    Flush,
    FullHouse,
    FourOfAKind,
    StraightFlush,
}

/// A ranked hand: its class and the tie-breaking sub-rank inside the class.
#[derive(Clone, Copy, Debug, PartialEq, Eq, Structural)]
pub struct HandRank {
    pub category: HandCategory,
    pub sub: u16,
}

pub open spec fn category_index(c: HandCategory) -> int {
    match c {
        HandCategory::HighCard => 0,
        HandCategory::OnePair => 1,
        HandCategory::TwoPair => 2,
        HandCategory::ThreeOfAKind => 3,
        HandCategory::Straight => 4,
        HandCategory::Flush => 5,
        HandCategory::FullHouse => 6,
        HandCategory::FourOfAKind => 7,
        HandCategory::StraightFlush => 8,
    }
}

/// The strength of a ranked hand as one number: higher is better.
pub open spec fn rank_key(r: HandRank) -> int {
    category_index(r.category) * 4096 + r.sub
}

/// The `rs_poker` value index of a rank (Two is 0, Ace is 12); ranks outside
/// 2..13 count as aces.
pub open spec fn rs_value(rank: u8) -> u8 {
    if 2 <= rank <= 13 {
        (rank - 2) as u8
    } else {
        12
    }
}

/// The `rs_poker` suit index (Spade 0, Club 1, Heart 2, Diamond 3).
pub open spec fn rs_suit(s: Suit) -> u8 {
    match s {
        Suit::Clubs => 1,
        Suit::Diamonds => 3,
        Suit::Hearts => 2,
        Suit::Spades => 0,
    }
}

/// A card as the index `suit * 13 + value` that `rs_poker`'s `Card::from(u8)`
/// reads back as that value and suit.
pub open spec fn rs_code(c: Card) -> u8 {
    (rs_suit(c.suit) * 13 + rs_value(c.rank)) as u8
}

/// The rank that `rs_poker` gives the cards with these indices.
pub uninterp spec fn hand_rank(cards: Seq<u8>) -> HandRank;

/// Calls `Rankable::rank` of `rs_poker` on the `Vec<rs_poker::core::Card>`
/// built with `Card::from(u8)` (value `i % 13`, suit `i / 13`), then reads the rank's
/// `category()` and `value_bits()`. The contract names the result and adds
/// that the sub-rank is the low twelve bits of the score, as `value_bits`
/// masks them. That the category bits lie in 1..=9, so that comparing
/// `rank_key`s orders hands as `Rank`'s `Ord` does, is what the crate's
/// documentation says of every score its evaluator produces; it is not stated.
#[verifier::external_body]
fn rank_codes(cards: &Vec<u8>) -> (r: HandRank)
    requires
        cards@.len() <= 7,
    ensures
        r == hand_rank(cards@),
        r.sub < 4096,
{
    let rs: Vec<rs_poker::core::Card> = cards.iter().map(|&i| rs_poker::core::Card::from(i)).collect();
    let rank = rs_poker::core::Rankable::rank(&rs);
    let category = match rank.category() {
        rs_poker::core::CoreRank::HighCard => HandCategory::HighCard, rs_poker::core::CoreRank::OnePair => HandCategory::OnePair,
        rs_poker::core::CoreRank::TwoPair => HandCategory::TwoPair, rs_poker::core::CoreRank::ThreeOfAKind => HandCategory::ThreeOfAKind,
        rs_poker::core::CoreRank::Straight => HandCategory::Straight, rs_poker::core::CoreRank::Flush => HandCategory::Flush,
        rs_poker::core::CoreRank::FullHouse => HandCategory::FullHouse, rs_poker::core::CoreRank::FourOfAKind => HandCategory::FourOfAKind,
        rs_poker::core::CoreRank::StraightFlush => HandCategory::StraightFlush,
    };
    HandRank { category, sub: rank.value_bits() }
}

/// The name that `rs_poker` displays for a hand class.
pub open spec fn category_label(c: HandCategory) -> Seq<char> {
    match c {
        HandCategory::HighCard => "High Card"@,
        HandCategory::OnePair => "One Pair"@,
        HandCategory::TwoPair => "Two Pair"@,
        HandCategory::ThreeOfAKind => "Three of a Kind"@,
        HandCategory::Straight => "Straight"@,
        HandCategory::Flush => "Flush"@,
        HandCategory::FullHouse => "Full House"@,
        HandCategory::FourOfAKind => "Four of a Kind"@,
        HandCategory::StraightFlush => "Straight Flush"@,
    }
}

/// Calls `to_string` (the `Display` impl) of `rs_poker`'s `CoreRank` on the
/// matching class; the contract states the nine names that impl writes.
#[verifier::external_body]
pub(crate) fn category_name(c: HandCategory) -> (s: String)
    ensures
        s@ == category_label(c),
{
    let core = match c {
        HandCategory::HighCard => rs_poker::core::CoreRank::HighCard, HandCategory::OnePair => rs_poker::core::CoreRank::OnePair,
        HandCategory::TwoPair => rs_poker::core::CoreRank::TwoPair, HandCategory::ThreeOfAKind => rs_poker::core::CoreRank::ThreeOfAKind,
        HandCategory::Straight => rs_poker::core::CoreRank::Straight, HandCategory::Flush => rs_poker::core::CoreRank::Flush,
        HandCategory::FullHouse => rs_poker::core::CoreRank::FullHouse, HandCategory::FourOfAKind => rs_poker::core::CoreRank::FourOfAKind,
        HandCategory::StraightFlush => rs_poker::core::CoreRank::StraightFlush,
    };
    core.to_string()
}

/// The index of a card for `rs_poker`.
pub fn to_rs(c: &Card) -> (r: u8)
    ensures
        r == rs_code(*c),
{
    let v: u8 = if 2 <= c.rank && c.rank <= 13 { c.rank - 2 } else { 12 };
    let s: u8 = match c.suit {
        Suit::Clubs => 1,
        Suit::Diamonds => 3,
        Suit::Hearts => 2,
        Suit::Spades => 0,
    };
    s * 13 + v
}

/// The codes of a sequence of cards.
pub open spec fn codes(cards: Seq<Card>) -> Seq<u8> {
    cards.map_values(|c: Card| rs_code(c))
}

/// Ranks up to seven cards.
pub fn rank_cards(cards: &[Card]) -> (r: HandRank)
    requires
        cards@.len() <= 7,
    ensures
        r == hand_rank(codes(cards@)),
        r.sub < 4096,
{
    let mut v: Vec<u8> = Vec::with_capacity(cards.len());
    let mut i: usize = 0;
    while i < cards.len()
        invariant
            i <= cards@.len(),
            v@ =~= codes(cards@.take(i as int)),
        decreases cards.len() - i,
    {
        v.push(to_rs(&cards[i]));
        i = i + 1;
        assert(v@ =~= codes(cards@.take(i as int)));
    }
    assert(cards@.take(cards@.len() as int) =~= cards@);
    rank_codes(&v)
}

/// Whether the first hand beats, ties or loses to the second.
pub fn beats(a: HandRank, b: HandRank) -> (r: bool)
    requires
        a.sub < 4096,
        b.sub < 4096,
    ensures
        r == (rank_key(a) > rank_key(b)),
{
    let ca = category_number(a.category);
    let cb = category_number(b.category);
    ca > cb || (ca == cb && a.sub > b.sub)
}

pub fn ties(a: HandRank, b: HandRank) -> (r: bool)
    requires
        a.sub < 4096,
        b.sub < 4096,
    ensures
        r == (rank_key(a) == rank_key(b)),
{
    let ca = category_number(a.category);
    let cb = category_number(b.category);
    ca == cb && a.sub == b.sub
}

fn category_number(c: HandCategory) -> (n: u8)
    ensures
        n == category_index(c),
{
    match c {
        HandCategory::HighCard => 0,
        HandCategory::OnePair => 1,
        HandCategory::TwoPair => 2,
        HandCategory::ThreeOfAKind => 3,
        HandCategory::Straight => 4,
        HandCategory::Flush => 5,
        HandCategory::FullHouse => 6,
        HandCategory::FourOfAKind => 7,
        HandCategory::StraightFlush => 8,
    }
}

} // verus!
