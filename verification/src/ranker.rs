//! Card ranking: the 45s strength function and the trump / top-trump predicates.
//!
//! Three bowers sit at the top of trump in every hand: the 5 of trump, the
//! J of trump and the Ace of Hearts (which is trump whatever suit is trump).
//! The Ace of trump comes next (when trump is not Hearts), then K and Q, then
//! the number cards. Number cards run high-to-low in red suits and
//! low-to-high in black suits.
//!
//! Strengths are integers, higher is stronger: trumps take values in 100..=199,
//! non-trumps in 1..=13.

use vstd::prelude::*;
use crate::cards::{Card, Rank, Suit};

verus! {

/// The Ace of Hearts.
pub open spec fn is_ace_of_hearts(card: Card) -> bool {
    card.suit == Suit::Hearts && card.rank == Rank::Ace
}

/// A card is trump when it is of the trump suit, or is the Ace of Hearts.
pub open spec fn trump_card(card: Card, trump: Suit) -> bool {
    is_ace_of_hearts(card) || card.suit == trump
}

/// The top trumps (bowers): 5 of trump, J of trump, Ace of Hearts.
pub open spec fn top_trump(card: Card, trump: Suit) -> bool {
    is_ace_of_hearts(card) || (card.suit == trump && (card.rank == Rank::Five || card.rank
        == Rank::Jack))
}

/// Rank within trump of the number cards 2, 3, 4, 6, 7, 8, 9, 10 (1..=8, 8 highest):
/// red trump 10 9 8 7 6 4 3 2, black trump 2 3 4 6 7 8 9 10. Other ranks give 0.
pub open spec fn number_order(rank: Rank, trump: Suit) -> int {
    if trump.red() {
        match rank {
            Rank::Ten => 8,
            Rank::Nine => 7,
            Rank::Eight => 6,
            Rank::Seven => 5,
            Rank::Six => 4,
            Rank::Four => 3,
            Rank::Three => 2,
            Rank::Two => 1,
            _ => 0,
        }
    } else {
        match rank {
            Rank::Two => 8,
            Rank::Three => 7,
            Rank::Four => 6,
            Rank::Six => 5,
            Rank::Seven => 4,
            Rank::Eight => 3,
            Rank::Nine => 2,
            Rank::Ten => 1,
            _ => 0,
        }
    }
}

/// Strength of a trump card: 5 of trump 199, J of trump 198, A of Hearts 197,
/// A of trump 196, K 113, Q 112, number cards 100 + `number_order`.
pub open spec fn trump_strength_of(card: Card, trump: Suit) -> int {
    if card.rank == Rank::Five && card.suit == trump {
        199
    } else if card.rank == Rank::Jack && card.suit == trump {
        198
    } else if is_ace_of_hearts(card) {
        197
    } else if card.rank == Rank::Ace && card.suit == trump {
        196
    } else if card.rank == Rank::King {
        113
    } else if card.rank == Rank::Queen {
        112
    } else {
        100 + number_order(card.rank, trump)
    }
}

/// Strength of a red non-trump card: K Q J 10 9 ... 2 A (13 down to 1).
pub open spec fn red_strength_of(rank: Rank) -> int {
    match rank {
        Rank::King => 13,
        Rank::Queen => 12,
        Rank::Jack => 11,
        Rank::Ten => 10,
        Rank::Nine => 9,
        Rank::Eight => 8,
        Rank::Seven => 7,
        Rank::Six => 6,
        Rank::Five => 5,
        Rank::Four => 4,
        Rank::Three => 3,
        Rank::Two => 2,
        Rank::Ace => 1,
    }
}

/// Strength of a black non-trump card: K Q J A 10 9 ... 2 ranked with the
/// number cards low-to-high (K 13, Q 12, J 11, A 10, 10 9, ..., 2 1).
pub open spec fn black_strength_of(rank: Rank) -> int {
    match rank {
        Rank::King => 13,
        Rank::Queen => 12,
        Rank::Jack => 11,
        Rank::Ace => 10,
        Rank::Two => 1,
        Rank::Three => 2,
        Rank::Four => 3,
        Rank::Five => 4,
        Rank::Six => 5,
        Rank::Seven => 6,
        Rank::Eight => 7,
        Rank::Nine => 8,
        Rank::Ten => 9,
    }
}

pub open spec fn non_trump_strength_of(card: Card) -> int {
    if card.suit.red() {
        red_strength_of(card.rank)
    } else {
        black_strength_of(card.rank)
    }
}

/// Strength of a card given the trump suit. Higher = stronger.
pub open spec fn strength_of(card: Card, trump: Suit) -> int {
    if trump_card(card, trump) {
        trump_strength_of(card, trump)
    } else {
        non_trump_strength_of(card)
    }
}

/// Is this card a trump, given the current trump suit?
/// The Ace of Hearts is always trump.
pub fn is_trump(card: Card, trump: Suit) -> (r: bool)
    ensures
        r == trump_card(card, trump),
{
    if card.suit == Suit::Hearts && card.rank == Rank::Ace {
        return true;
    }
    card.suit == trump
}

/// Is this one of the three top trumps (5 of trump, J of trump, A of Hearts)?
/// These cannot be forced out by a lower trump lead.
pub fn is_top_trump(card: Card, trump: Suit) -> (r: bool)
    ensures
        r == top_trump(card, trump),
{
    if card.rank == Rank::Ace && card.suit == Suit::Hearts {
        return true;
    }
    if card.suit != trump {
        return false;
    }
    match card.rank {
        Rank::Five | Rank::Jack => true,
        _ => false,
    }
}

/// Strength of a card given the trump suit. Higher = stronger.
pub fn strength(card: Card, trump: Suit) -> (s: i32)
    ensures
        s == strength_of(card, trump),
{
    if is_trump(card, trump) {
        trump_strength(card, trump)
    } else {
        non_trump_strength(card)
    }
}

fn trump_strength(card: Card, trump: Suit) -> (s: i32)
    ensures
        s == trump_strength_of(card, trump),
{
    if card.rank == Rank::Five && card.suit == trump {
        return 199;
    }
    if card.rank == Rank::Jack && card.suit == trump {
        return 198;
    }
    if card.rank == Rank::Ace && card.suit == Suit::Hearts {
        return 197;
    }
    if card.rank == Rank::Ace && card.suit == trump {
        return 196;
    }
    if card.rank == Rank::King {
        return 113;
    }
    if card.rank == Rank::Queen {
        return 112;
    }
    100 + number_rank_order(card.rank, trump)
}

fn non_trump_strength(card: Card) -> (s: i32)
    ensures
        s == non_trump_strength_of(card),
{
    if card.suit.is_red() {
        red_non_trump_strength(card)
    } else {
        black_non_trump_strength(card)
    }
}

fn red_non_trump_strength(card: Card) -> (s: i32)
    ensures
        s == red_strength_of(card.rank),
{
    match card.rank {
        Rank::King => 13,
        Rank::Queen => 12,
        Rank::Jack => 11,
        Rank::Ten => 10,
        Rank::Nine => 9,
        Rank::Eight => 8,
        Rank::Seven => 7,
        Rank::Six => 6,
        Rank::Five => 5,
        Rank::Four => 4,
        Rank::Three => 3,
        Rank::Two => 2,
        Rank::Ace => 1,
    }
}

fn black_non_trump_strength(card: Card) -> (s: i32)
    ensures
        s == black_strength_of(card.rank),
{
    match card.rank {
        Rank::King => 13,
        Rank::Queen => 12,
        Rank::Jack => 11,
        Rank::Ace => 10,
        Rank::Two => 1,
        Rank::Three => 2,
        Rank::Four => 3,
        Rank::Five => 4,
        Rank::Six => 5,
        Rank::Seven => 6,
        Rank::Eight => 7,
        Rank::Nine => 8,
        Rank::Ten => 9,
    }
}

fn number_rank_order(rank: Rank, trump: Suit) -> (o: i32)
    ensures
        o == number_order(rank, trump),
{
    if trump.is_red() {
        match rank {
            Rank::Ten => 8,
            Rank::Nine => 7,
            Rank::Eight => 6,
            Rank::Seven => 5,
            Rank::Six => 4,
            Rank::Four => 3,
            Rank::Three => 2,
            Rank::Two => 1,
            _ => 0,
        }
    } else {
        match rank {
            Rank::Two => 8,
            Rank::Three => 7,
            Rank::Four => 6,
            Rank::Six => 5,
            Rank::Seven => 4,
            Rank::Eight => 3,
            Rank::Nine => 2,
            Rank::Ten => 1,
            _ => 0,
        }
    }
}

/// The Ace of Hearts is trump whatever the trump suit, and is a top trump.
pub proof fn lemma_ace_of_hearts_always_trump(trump: Suit)
    ensures
        trump_card(Card { suit: Suit::Hearts, rank: Rank::Ace }, trump),
        top_trump(Card { suit: Suit::Hearts, rank: Rank::Ace }, trump),
{
}

/// Every top trump is a trump.
pub proof fn lemma_top_trump_is_trump(card: Card, trump: Suit)
    requires
        top_trump(card, trump),
    ensures
        trump_card(card, trump),
{
}

/// Trumps take strengths in 101..=199, non-trumps in 1..=13: every trump is
/// stronger than every non-trump.
pub proof fn lemma_strength_tiers(card: Card, trump: Suit)
    ensures
        trump_card(card, trump) ==> 101 <= strength_of(card, trump) <= 199,
        !trump_card(card, trump) ==> 1 <= strength_of(card, trump) <= 13,
{
}

/// Within one trump suit, no two distinct trumps have the same strength.
pub proof fn lemma_trump_strength_injective(a: Card, b: Card, trump: Suit)
    requires
        trump_card(a, trump),
        trump_card(b, trump),
        a != b,
    ensures
        strength_of(a, trump) != strength_of(b, trump),
{
}

/// Two distinct non-trump cards of the same suit never have the same strength.
pub proof fn lemma_same_suit_strength_injective(a: Card, b: Card, trump: Suit)
    requires
        !trump_card(a, trump),
        !trump_card(b, trump),
        a.suit == b.suit,
        a != b,
    ensures
        strength_of(a, trump) != strength_of(b, trump),
{
}

/// The top of trump, in order: 5 of trump > J of trump > A of Hearts > A of trump
/// (when trump is not Hearts) > K of trump > Q of trump > every trump number card.
pub proof fn lemma_bower_order(trump: Suit, n: Rank)
    requires
        n != Rank::Five && n != Rank::Jack && n != Rank::Ace && n != Rank::King && n
            != Rank::Queen,
    ensures
        strength_of(Card { suit: trump, rank: Rank::Five }, trump) > strength_of(
            Card { suit: trump, rank: Rank::Jack },
            trump,
        ),
        strength_of(Card { suit: trump, rank: Rank::Jack }, trump) > strength_of(
            Card { suit: Suit::Hearts, rank: Rank::Ace },
            trump,
        ),
        trump != Suit::Hearts ==> strength_of(Card { suit: Suit::Hearts, rank: Rank::Ace }, trump)
            > strength_of(Card { suit: trump, rank: Rank::Ace }, trump),
        strength_of(Card { suit: Suit::Hearts, rank: Rank::Ace }, trump) > strength_of(
            Card { suit: trump, rank: Rank::King },
            trump,
        ),
        strength_of(Card { suit: trump, rank: Rank::Ace }, trump) > strength_of(
            Card { suit: trump, rank: Rank::King },
            trump,
        ),
        strength_of(Card { suit: trump, rank: Rank::King }, trump) > strength_of(
            Card { suit: trump, rank: Rank::Queen },
            trump,
        ),
        strength_of(Card { suit: trump, rank: Rank::Queen }, trump) > strength_of(
            Card { suit: trump, rank: n },
            trump,
        ),
{
}

/// Strength of the card of `suit` and `rank` when `trump` is trump.
pub open spec fn strength_in(suit: Suit, rank: Rank, trump: Suit) -> int {
    strength_of(Card { suit, rank }, trump)
}

/// The number cards of trump: in a red trump suit 10 9 8 7 6 4 3 2 from
/// strongest down, in a black one 2 3 4 6 7 8 9 10; every one of them ranks
/// below the queen of trump.
pub proof fn lemma_trump_number_order(trump: Suit)
    ensures
        trump.red() ==> strength_in(trump, Rank::Ten, trump) > strength_in(trump, Rank::Nine, trump),
        trump.red() ==> strength_in(trump, Rank::Nine, trump) > strength_in(trump, Rank::Eight, trump),
        trump.red() ==> strength_in(trump, Rank::Eight, trump) > strength_in(trump, Rank::Seven, trump),
        trump.red() ==> strength_in(trump, Rank::Seven, trump) > strength_in(trump, Rank::Six, trump),
        trump.red() ==> strength_in(trump, Rank::Six, trump) > strength_in(trump, Rank::Four, trump),
        trump.red() ==> strength_in(trump, Rank::Four, trump) > strength_in(trump, Rank::Three, trump),
        trump.red() ==> strength_in(trump, Rank::Three, trump) > strength_in(trump, Rank::Two, trump),
        !trump.red() ==> strength_in(trump, Rank::Two, trump) > strength_in(trump, Rank::Three, trump),
        !trump.red() ==> strength_in(trump, Rank::Three, trump) > strength_in(trump, Rank::Four, trump),
        !trump.red() ==> strength_in(trump, Rank::Four, trump) > strength_in(trump, Rank::Six, trump),
        !trump.red() ==> strength_in(trump, Rank::Six, trump) > strength_in(trump, Rank::Seven, trump),
        !trump.red() ==> strength_in(trump, Rank::Seven, trump) > strength_in(trump, Rank::Eight, trump),
        !trump.red() ==> strength_in(trump, Rank::Eight, trump) > strength_in(trump, Rank::Nine, trump),
        !trump.red() ==> strength_in(trump, Rank::Nine, trump) > strength_in(trump, Rank::Ten, trump),
        strength_in(trump, Rank::Queen, trump) > strength_in(trump, Rank::Ten, trump),
        strength_in(trump, Rank::Queen, trump) > strength_in(trump, Rank::Two, trump),
{
}

/// The cards of a suit that is not trump: in a red suit K Q J 10 9 8 7 6 5 4
/// 3 2 from strongest down, with the ace of diamonds below the two; in a
/// black suit K Q J A 10 9 8 7 6 5 4 3 2.
pub proof fn lemma_non_trump_order(suit: Suit, trump: Suit)
    requires
        suit != trump,
    ensures
        suit.red() ==> strength_in(suit, Rank::King, trump) > strength_in(suit, Rank::Queen, trump),
        suit.red() ==> strength_in(suit, Rank::Queen, trump) > strength_in(suit, Rank::Jack, trump),
        suit.red() ==> strength_in(suit, Rank::Jack, trump) > strength_in(suit, Rank::Ten, trump),
        suit.red() ==> strength_in(suit, Rank::Ten, trump) > strength_in(suit, Rank::Nine, trump),
        suit.red() ==> strength_in(suit, Rank::Nine, trump) > strength_in(suit, Rank::Eight, trump),
        suit.red() ==> strength_in(suit, Rank::Eight, trump) > strength_in(suit, Rank::Seven, trump),
        suit.red() ==> strength_in(suit, Rank::Seven, trump) > strength_in(suit, Rank::Six, trump),
        suit.red() ==> strength_in(suit, Rank::Six, trump) > strength_in(suit, Rank::Five, trump),
        suit.red() ==> strength_in(suit, Rank::Five, trump) > strength_in(suit, Rank::Four, trump),
        suit.red() ==> strength_in(suit, Rank::Four, trump) > strength_in(suit, Rank::Three, trump),
        suit.red() ==> strength_in(suit, Rank::Three, trump) > strength_in(suit, Rank::Two, trump),
        suit == Suit::Diamonds ==> strength_in(suit, Rank::Two, trump) > strength_in(suit, Rank::Ace, trump),
        !suit.red() ==> strength_in(suit, Rank::King, trump) > strength_in(suit, Rank::Queen, trump),
        !suit.red() ==> strength_in(suit, Rank::Queen, trump) > strength_in(suit, Rank::Jack, trump),
        !suit.red() ==> strength_in(suit, Rank::Jack, trump) > strength_in(suit, Rank::Ace, trump),
        !suit.red() ==> strength_in(suit, Rank::Ace, trump) > strength_in(suit, Rank::Ten, trump),
        !suit.red() ==> strength_in(suit, Rank::Ten, trump) > strength_in(suit, Rank::Nine, trump),
        !suit.red() ==> strength_in(suit, Rank::Nine, trump) > strength_in(suit, Rank::Eight, trump),
        !suit.red() ==> strength_in(suit, Rank::Eight, trump) > strength_in(suit, Rank::Seven, trump),
        !suit.red() ==> strength_in(suit, Rank::Seven, trump) > strength_in(suit, Rank::Six, trump),
        !suit.red() ==> strength_in(suit, Rank::Six, trump) > strength_in(suit, Rank::Five, trump),
        !suit.red() ==> strength_in(suit, Rank::Five, trump) > strength_in(suit, Rank::Four, trump),
        !suit.red() ==> strength_in(suit, Rank::Four, trump) > strength_in(suit, Rank::Three, trump),
        !suit.red() ==> strength_in(suit, Rank::Three, trump) > strength_in(suit, Rank::Two, trump),
{
}

} // verus!
