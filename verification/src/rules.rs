//! Trick resolution and legal-move validation: pure functions of a hand,
//! a trick and the trump suit.
//!
//! The five legal-play rules:
//! 1. Leading: anything is legal.
//! 2. Trump can always be played instead of following suit.
//! 3. If trump was led and you hold a trump you are obliged to play, you must
//!    play trump. Top trumps (5, J of trump, A of Hearts) cannot be forced out
//!    by a lower trump lead.
//! 4. If a non-trump suit was led and you hold a non-trump card of that suit,
//!    you must follow suit (or play trump, rule 2).
//! 5. If you are void in the lead suit, anything is legal.

use vstd::prelude::*;
use crate::cards::{Card, Suit};
use crate::ranker::{is_top_trump, is_trump, strength, strength_of, top_trump, trump_card};

verus! {

/// The suit a trick is resolved by: the trump suit when the lead card is a
/// trump (the Ace of Hearts included), else the lead card's suit.
pub open spec fn lead_suit_of(lead: Card, trump: Suit) -> Suit {
    if trump_card(lead, trump) {
        trump
    } else {
        lead.suit
    }
}

/// How strongly a card stands in a trick: trumps above lead-suit cards above
/// off-suit cards, and by strength within each tier.
pub open spec fn trick_rank(card: Card, lead_suit: Suit, trump: Suit) -> int {
    if trump_card(card, trump) {
        2000 + strength_of(card, trump)
    } else if card.suit == lead_suit {
        1000 + strength_of(card, trump)
    } else {
        strength_of(card, trump)
    }
}

/// `i` is the winning position of `plays`: its card ranks at least as high as
/// every card of the trick, and strictly higher than every card played before it.
pub open spec fn wins_trick(plays: Seq<Card>, trump: Suit, i: int) -> bool {
    let lead_suit = lead_suit_of(plays[0], trump);
    &&& 0 <= i < plays.len()
    &&& forall|j: int|
        0 <= j < plays.len() ==> #[trigger] trick_rank(plays[j], lead_suit, trump) <= trick_rank(
            plays[i],
            lead_suit,
            trump,
        )
    &&& forall|j: int|
        0 <= j < i ==> #[trigger] trick_rank(plays[j], lead_suit, trump) < trick_rank(
            plays[i],
            lead_suit,
            trump,
        )
}

/// Determine which position of a completed trick wins it.
///
/// `plays[0]` is the lead card; the result is a position within `plays`.
pub fn winning_index(plays: &[Card], trump: Suit) -> (w: usize)
    requires
        plays@.len() > 0,
    ensures
        wins_trick(plays@, trump, w as int),
{
    let lead_card = plays[0];
    let lead_suit = if is_trump(lead_card, trump) {
        trump
    } else {
        lead_card.suit
    };
    let ghost ls = lead_suit_of(plays@[0], trump);
    let mut best: usize = 0;
    let mut i: usize = 1;
    while i < plays.len()
        invariant
            lead_suit == ls,
            ls == lead_suit_of(plays@[0], trump),
            1 <= i <= plays@.len(),
            best < i,
            forall|j: int|
                0 <= j < i ==> #[trigger] trick_rank(plays@[j], ls, trump) <= trick_rank(
                    plays@[best as int],
                    ls,
                    trump,
                ),
            forall|j: int|
                0 <= j < best ==> #[trigger] trick_rank(plays@[j], ls, trump) < trick_rank(
                    plays@[best as int],
                    ls,
                    trump,
                ),
        decreases plays@.len() - i,
    {
        if beats(plays[i], plays[best], lead_suit, trump) {
            best = i;
        }
        i = i + 1;
    }
    best
}

/// Does `candidate` beat `current_best` given the lead suit and trump?
/// A trump beats a non-trump; among non-trumps a lead-suit card beats an
/// off-suit card; within the same tier the higher strength wins.
fn beats(candidate: Card, current_best: Card, lead_suit: Suit, trump: Suit) -> (r: bool)
    ensures
        r == (trick_rank(candidate, lead_suit, trump) > trick_rank(current_best, lead_suit, trump)),
{
    proof {
        crate::ranker::lemma_strength_tiers(candidate, trump);
        crate::ranker::lemma_strength_tiers(current_best, trump);
    }
    let cand_trump = is_trump(candidate, trump);
    let best_trump = is_trump(current_best, trump);

    if cand_trump && !best_trump {
        return true;
    }
    if !cand_trump && best_trump {
        return false;
    }
    if !cand_trump && !best_trump {
        let cand_lead = candidate.suit == lead_suit;
        let best_lead = current_best.suit == lead_suit;
        if cand_lead && !best_lead {
            return true;
        }
        if !cand_lead && best_lead {
            return false;
        }
    }
    strength(candidate, trump) > strength(current_best, trump)
}

/// The hand holds a trump its owner must play against the trump `lead`:
/// any trump when the lead is a top trump, else a trump that is not a top trump.
pub open spec fn holds_obliged_trump(hand: Seq<Card>, lead: Card, trump: Suit) -> bool {
    exists|i: int|
        0 <= i < hand.len() && #[trigger] trump_card(hand[i], trump) && (top_trump(lead, trump)
            || !top_trump(hand[i], trump))
}

/// The hand holds a non-trump card of `suit`.
pub open spec fn holds_plain_suit(hand: Seq<Card>, suit: Suit, trump: Suit) -> bool {
    exists|i: int| 0 <= i < hand.len() && #[trigger] hand[i].suit == suit && !trump_card(hand[i], trump)
}

/// The five legal-play rules.
pub open spec fn playable(hand: Seq<Card>, play: Card, lead: Option<Card>, trump: Suit) -> bool {
    match lead {
        None => true,
        Some(lead_card) => {
            if trump_card(play, trump) {
                true
            } else if trump_card(lead_card, trump) {
                !holds_obliged_trump(hand, lead_card, trump)
            } else if holds_plain_suit(hand, lead_card.suit, trump) {
                play.suit == lead_card.suit
            } else {
                true
            }
        },
    }
}

/// The cards of `hand` that are legal plays, in hand order.
pub open spec fn legal_cards(hand: Seq<Card>, lead: Option<Card>, trump: Suit) -> Seq<Card> {
    hand.filter(|c: Card| playable(hand, c, lead, trump))
}

/// Check whether `play` is a legal move given the current trick context.
/// `lead` is `None` when the player leads the trick.
pub fn can_play_card(hand: &[Card], play: Card, lead: Option<Card>, trump: Suit) -> (r: bool)
    ensures
        r == playable(hand@, play, lead, trump),
{
    let lead_card = match lead {
        None => {
            return true;
        },
        Some(c) => c,
    };

    let play_is_trump = is_trump(play, trump);
    let lead_is_trump = is_trump(lead_card, trump);

    if play_is_trump {
        return true;
    }
    if lead_is_trump {
        return !has_playable_trump(hand, lead_card, trump);
    }

    let lead_suit = lead_card.suit;
    let mut has_lead_suit = false;
    let mut i: usize = 0;
    while i < hand.len()
        invariant
            i <= hand@.len(),
            has_lead_suit == exists|j: int|
                0 <= j < i && #[trigger] hand@[j].suit == lead_suit && !trump_card(hand@[j], trump),
        decreases hand@.len() - i,
    {
        let c = hand[i];
        if c.suit == lead_suit && !is_trump(c, trump) {
            has_lead_suit = true;
        }
        i = i + 1;
    }
    if has_lead_suit {
        return play.suit == lead_suit;
    }
    true
}

/// List all legal moves from `hand`, in hand order.
pub fn legal_moves(hand: &[Card], lead: Option<Card>, trump: Suit) -> (moves: Vec<Card>)
    ensures
        moves@ == legal_cards(hand@, lead, trump),
{
    let ghost pred = |c: Card| playable(hand@, c, lead, trump);
    let mut moves: Vec<Card> = Vec::new();
    let mut i: usize = 0;
    while i < hand.len()
        invariant
            i <= hand@.len(),
            pred == (|c: Card| playable(hand@, c, lead, trump)),
            moves@ == hand@.take(i as int).filter(pred),
        decreases hand@.len() - i,
    {
        let card = hand[i];
        proof {
            assert(hand@.take(i as int + 1) =~= hand@.take(i as int).push(card));
            hand@.take(i as int).lemma_filter_push(card, pred);
        }
        if can_play_card(hand, card, lead, trump) {
            moves.push(card);
        }
        i = i + 1;
    }
    assert(hand@.take(hand@.len() as int) =~= hand@);
    moves
}

/// Does the hand contain a trump that the player must play against the trump lead?
fn has_playable_trump(hand: &[Card], lead_card: Card, trump: Suit) -> (r: bool)
    ensures
        r == holds_obliged_trump(hand@, lead_card, trump),
{
    let lead_is_top_trump = is_top_trump(lead_card, trump);
    let mut i: usize = 0;
    while i < hand.len()
        invariant
            i <= hand@.len(),
            lead_is_top_trump == top_trump(lead_card, trump),
            forall|j: int|
                0 <= j < i ==> !(#[trigger] trump_card(hand@[j], trump) && (top_trump(
                    lead_card,
                    trump,
                ) || !top_trump(hand@[j], trump))),
        decreases hand@.len() - i,
    {
        let card = hand[i];
        if is_trump(card, trump) {
            if lead_is_top_trump {
                return true;
            }
            if !is_top_trump(card, trump) {
                return true;
            }
        }
        i = i + 1;
    }
    false
}

/// A player with a non-empty hand always has at least one legal move.
pub proof fn lemma_some_move_is_legal(hand: Seq<Card>, lead: Option<Card>, trump: Suit)
    requires
        hand.len() > 0,
    ensures
        legal_cards(hand, lead, trump).len() > 0,
{
    let pred = |c: Card| playable(hand, c, lead, trump);
    let witness: int = match lead {
        None => 0,
        Some(l) => {
            if trump_card(l, trump) && holds_obliged_trump(hand, l, trump) {
                choose|i: int|
                    0 <= i < hand.len() && #[trigger] trump_card(hand[i], trump) && (top_trump(
                        l,
                        trump,
                    ) || !top_trump(hand[i], trump))
            } else if !trump_card(l, trump) && holds_plain_suit(hand, l.suit, trump) {
                choose|i: int|
                    0 <= i < hand.len() && #[trigger] hand[i].suit == l.suit && !trump_card(
                        hand[i],
                        trump,
                    )
            } else {
                0
            }
        },
    };
    assert(pred(hand[witness]));
    hand.lemma_filter_contains(pred, witness);
}

/// If a trick holds any trump, the winning card is a trump; otherwise it is a
/// card of the lead suit.
pub proof fn lemma_winner_tier(plays: Seq<Card>, trump: Suit, w: int)
    requires
        plays.len() > 0,
        wins_trick(plays, trump, w),
    ensures
        (exists|j: int| 0 <= j < plays.len() && #[trigger] trump_card(plays[j], trump))
            ==> trump_card(plays[w], trump),
        !trump_card(plays[w], trump) ==> plays[w].suit == lead_suit_of(plays[0], trump),
{
    let ls = lead_suit_of(plays[0], trump);
    crate::ranker::lemma_strength_tiers(plays[w], trump);
    crate::ranker::lemma_strength_tiers(plays[0], trump);
    assert(trick_rank(plays[0], ls, trump) <= trick_rank(plays[w], ls, trump));
    if exists|j: int| 0 <= j < plays.len() && #[trigger] trump_card(plays[j], trump) {
        let j = choose|j: int| 0 <= j < plays.len() && #[trigger] trump_card(plays[j], trump);
        crate::ranker::lemma_strength_tiers(plays[j], trump);
        assert(trick_rank(plays[j], ls, trump) <= trick_rank(plays[w], ls, trump));
    }
}

/// How one card outranks another in a trick: a trump beats a non-trump;
/// between non-trumps a card of the lead suit beats an off-suit card; within
/// the same tier the stronger card wins. So no card outranks itself, and two
/// cards never outrank each other.
pub proof fn lemma_trick_rank_order(a: Card, b: Card, lead_suit: Suit, trump: Suit)
    ensures
        (trick_rank(a, lead_suit, trump) > trick_rank(b, lead_suit, trump)) == if trump_card(a, trump)
            != trump_card(b, trump) {
            trump_card(a, trump)
        } else if !trump_card(a, trump) && (a.suit == lead_suit) != (b.suit == lead_suit) {
            a.suit == lead_suit
        } else {
            strength_of(a, trump) > strength_of(b, trump)
        },
        !(trick_rank(a, lead_suit, trump) > trick_rank(a, lead_suit, trump)),
        !(trick_rank(a, lead_suit, trump) > trick_rank(b, lead_suit, trump) && trick_rank(b, lead_suit, trump)
            > trick_rank(a, lead_suit, trump)),
{
    crate::ranker::lemma_strength_tiers(a, trump);
    crate::ranker::lemma_strength_tiers(b, trump);
}

/// What a trump lead obliges: a trump may always be played; against a top
/// trump lead (5 or J of trump, or the Ace of Hearts) a player holding any
/// trump may play no other card; against a lower trump lead a player holding
/// a trump that is not a top trump may play no other card, while a player
/// whose only trumps are top trumps (or who holds none) may play anything.
pub proof fn lemma_trump_lead_obligation(hand: Seq<Card>, lead: Card, play: Card, trump: Suit)
    requires
        trump_card(lead, trump),
    ensures
        trump_card(play, trump) ==> playable(hand, play, Some(lead), trump),
        top_trump(lead, trump) && (exists|i: int| 0 <= i < hand.len() && #[trigger] trump_card(hand[i], trump))
            && !trump_card(play, trump) ==> !playable(hand, play, Some(lead), trump),
        !top_trump(lead, trump) && (exists|i: int|
            0 <= i < hand.len() && #[trigger] trump_card(hand[i], trump) && !top_trump(hand[i], trump))
            && !trump_card(play, trump) ==> !playable(hand, play, Some(lead), trump),
        !top_trump(lead, trump) && (forall|i: int|
            0 <= i < hand.len() && #[trigger] trump_card(hand[i], trump) ==> top_trump(hand[i], trump))
            ==> playable(hand, play, Some(lead), trump),
{
}

/// What a non-trump lead obliges: a trump may always be played; a player
/// holding a non-trump card of the lead suit must otherwise follow suit; a
/// player void in it may play anything. With no lead, anything may be played.
pub proof fn lemma_suit_lead_obligation(hand: Seq<Card>, lead: Card, play: Card, trump: Suit)
    requires
        !trump_card(lead, trump),
    ensures
        playable(hand, play, None, trump),
        trump_card(play, trump) ==> playable(hand, play, Some(lead), trump),
        (exists|i: int| 0 <= i < hand.len() && #[trigger] hand[i].suit == lead.suit && !trump_card(hand[i], trump))
            && !trump_card(play, trump) ==> (playable(hand, play, Some(lead), trump) <==> play.suit == lead.suit),
        (forall|i: int| 0 <= i < hand.len() && !trump_card(#[trigger] hand[i], trump) ==> hand[i].suit != lead.suit)
            ==> playable(hand, play, Some(lead), trump),
{
}

} // verus!
