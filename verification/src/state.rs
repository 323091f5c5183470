//! Game state machine for 45s: one hand from deal to score, and the
//! multi-hand loop through `next_hand`.
//!
//! A hand runs through bidding, trump declaration, discarding (with a dealer
//! extra draw in the 6-player variant), five tricks of play, and scoring.
//! `GameState::apply` is the only move entry point; its effect is the spec
//! function `step` on the state's model (`GameModel`).

use vstd::prelude::*;
use vstd::multiset::Multiset;
use crate::cards::{canonical_deck, Card, Suit};
use crate::error::EngineError;
use crate::ranker::{strength_of, trump_card};
use crate::rules::{playable, wins_trick};
use rand::seq::SliceRandom;
use rand::SeedableRng;
use rand_chacha::ChaCha8Rng;

verus! {

pub type Seat = u8;

/// Partnership team index: seats {0, 2, 4} are team 0 and seats {1, 3, 5} team 1.
pub type Team = u8;

pub const NUM_TRICKS: usize = 5;

pub const KITTY_SIZE: usize = 3;

pub const HAND_SIZE: usize = 5;

pub const SEAT_OUT_OF_RANGE: &'static str = "seat out of range";

pub const DECK_UNDERFLOW: &'static str = "deck underflow on refill";

pub const NO_EXTRAS: &'static str = "dealer_extra_draw with no extras";

#[derive(Debug, Clone, Copy, PartialEq, Eq, Structural)]
pub struct GameConfig {
    pub num_players: u8,
    /// Score target for game-over (Chartrand default: 120; classic: 45).
    pub target_score: i32,
    /// Allow the "30-for-60" bid (amount 60).
    pub enable_30_for_60: bool,
}

impl GameConfig {
    pub fn four_player() -> (c: GameConfig)
        ensures
            c == (GameConfig { num_players: 4, target_score: 120, enable_30_for_60: true }),
    {
        GameConfig { num_players: 4, target_score: 120, enable_30_for_60: true }
    }

    pub fn six_player() -> (c: GameConfig)
        ensures
            c == (GameConfig { num_players: 6, target_score: 120, enable_30_for_60: true }),
    {
        GameConfig { num_players: 6, target_score: 120, enable_30_for_60: true }
    }
}

/// Which team a seat belongs to.
pub fn team_of(seat: Seat) -> (t: Team)
    ensures
        t == seat % 2,
{
    seat % 2
}

#[derive(Debug, Clone, Copy, PartialEq, Eq, Structural)]
pub enum Phase {
    /// Clockwise single-round bidding starting at `dealer + 1`.
    Bidding,
    /// Bidding is closed; the winning bidder declares trump.
    DeclareTrump,
    /// Every player trims their hand and is refilled from the deck remainder.
    Discard,
    /// 6-player only: the dealer takes the rest of the deck and discards back to 5.
    DealerExtraDraw,
    /// Trick play, 5 tricks per hand.
    Play,
    /// Hand scored; `next_hand` deals the next one.
    HandComplete,
    /// A team has won. Terminal.
    GameOver,
}

/// The lower-case label of a phase.
pub open spec fn phase_text(p: Phase) -> Seq<char> {
    match p {
        Phase::Bidding => "bidding"@,
        Phase::DeclareTrump => "declare_trump"@,
        Phase::Discard => "discard"@,
        Phase::DealerExtraDraw => "dealer_extra_draw"@,
        Phase::Play => "play"@,
        Phase::HandComplete => "hand_complete"@,
        Phase::GameOver => "game_over"@,
    }
}

impl Phase {
    /// Lower-case label of the phase ("bidding", "declare_trump", ...).
    pub fn label(self) -> (s: &'static str)
        ensures
            s@ == phase_text(self),
    {
        match self {
            Phase::Bidding => "bidding",
            Phase::DeclareTrump => "declare_trump",
            Phase::Discard => "discard",
            Phase::DealerExtraDraw => "dealer_extra_draw",
            Phase::Play => "play",
            Phase::HandComplete => "hand_complete",
            Phase::GameOver => "game_over",
        }
    }
}

/// A bid: `amount` is 15, 20, 25, 30 or 60 (30-for-60).
#[derive(Debug, Clone, Copy, PartialEq, Eq, Structural)]
pub struct Bid {
    pub seat: Seat,
    pub amount: u8,
}

/// A completed trick: who led, the plays in order, and the winning seat.
#[derive(Debug, Clone)]
pub struct CompletedTrick {
    pub leader: Seat,
    pub plays: Vec<(Seat, Card)>,
    pub winner: Seat,
}

/// A seat-attributed move.
#[derive(Debug, Clone)]
pub struct Move {
    pub seat: Seat,
    pub action: Action,
}

#[derive(Debug, Clone)]
pub enum Action {
    /// `amount = 0` means pass.
    Bid { amount: u8 },
    DeclareTrump(Suit),
    /// Cards to discard.
    Discard(Vec<Card>),
    Play(Card),
}

/// Whole-game state. The fields are public so that scenarios can be staged
/// directly; the operations require the state to be well formed (`wf`).
#[derive(Debug, Clone)]
pub struct GameState {
    pub config: GameConfig,
    pub dealer: Seat,
    pub hands: Vec<Vec<Card>>,
    pub kitty: Vec<Card>,
    pub deck_remainder: Vec<Card>,
    pub phase: Phase,
    pub to_act: Seat,
    pub current_bid: Option<Bid>,
    pub passes: u8,
    pub has_bid_or_passed: Vec<bool>,
    pub dealer_held: bool,
    pub bidding_closed_bid: Option<Bid>,
    pub trump: Option<Suit>,
    pub bidder: Option<Seat>,
    pub is_30_for_60: bool,
    pub kitty_absorbed: bool,
    pub discard_done: Vec<bool>,
    pub discarded: Vec<Card>,
    pub current_trick: Vec<(Seat, Card)>,
    pub completed_tricks: Vec<CompletedTrick>,
    pub scores: [i32; 2],
    pub sets: [u8; 2],
    pub hand_points: [i32; 2],
    pub bid_made: Option<bool>,
    pub hands_played: u32,
    pub winner: Option<Team>,
}

// ---------------------------------------------------------------------------
// Mathematical model
// ---------------------------------------------------------------------------

#[verifier::ext_equal]
pub struct TrickModel {
    pub leader: Seat,
    pub plays: Seq<(Seat, Card)>,
    pub winner: Seat,
}

impl View for CompletedTrick {
    type V = TrickModel;

    open spec fn view(&self) -> TrickModel {
        TrickModel { leader: self.leader, plays: self.plays@, winner: self.winner }
    }
}

pub enum ActionModel {
    Bid { amount: u8 },
    DeclareTrump(Suit),
    Discard(Seq<Card>),
    Play(Card),
}

impl View for Action {
    type V = ActionModel;

    open spec fn view(&self) -> ActionModel {
        match self {
            Action::Bid { amount } => ActionModel::Bid { amount: *amount },
            Action::DeclareTrump(s) => ActionModel::DeclareTrump(*s),
            Action::Discard(cards) => ActionModel::Discard(cards@),
            Action::Play(c) => ActionModel::Play(*c),
        }
    }
}

#[verifier::ext_equal]
pub struct GameModel {
    pub config: GameConfig,
    pub dealer: Seat,
    pub hands: Seq<Seq<Card>>,
    pub kitty: Seq<Card>,
    pub deck_remainder: Seq<Card>,
    pub phase: Phase,
    pub to_act: Seat,
    pub current_bid: Option<Bid>,
    pub passes: u8,
    pub has_bid_or_passed: Seq<bool>,
    pub dealer_held: bool,
    pub bidding_closed_bid: Option<Bid>,
    pub trump: Option<Suit>,
    pub bidder: Option<Seat>,
    pub is_30_for_60: bool,
    pub kitty_absorbed: bool,
    pub discard_done: Seq<bool>,
    pub discarded: Seq<Card>,
    pub current_trick: Seq<(Seat, Card)>,
    pub completed_tricks: Seq<TrickModel>,
    pub scores: Seq<i32>,
    pub sets: Seq<u8>,
    pub hand_points: Seq<i32>,
    pub bid_made: Option<bool>,
    pub hands_played: u32,
    pub winner: Option<Team>,
}

pub open spec fn hands_model(hands: Seq<Vec<Card>>) -> Seq<Seq<Card>> {
    hands.map_values(|h: Vec<Card>| h@)
}

pub open spec fn tricks_model(tricks: Seq<CompletedTrick>) -> Seq<TrickModel> {
    tricks.map_values(|t: CompletedTrick| t@)
}

impl View for GameState {
    type V = GameModel;

    open spec fn view(&self) -> GameModel {
        GameModel {
            config: self.config,
            dealer: self.dealer,
            hands: hands_model(self.hands@),
            kitty: self.kitty@,
            deck_remainder: self.deck_remainder@,
            phase: self.phase,
            to_act: self.to_act,
            current_bid: self.current_bid,
            passes: self.passes,
            has_bid_or_passed: self.has_bid_or_passed@,
            dealer_held: self.dealer_held,
            bidding_closed_bid: self.bidding_closed_bid,
            trump: self.trump,
            bidder: self.bidder,
            is_30_for_60: self.is_30_for_60,
            kitty_absorbed: self.kitty_absorbed,
            discard_done: self.discard_done@,
            discarded: self.discarded@,
            current_trick: self.current_trick@,
            completed_tricks: tricks_model(self.completed_tricks@),
            scores: self.scores@,
            sets: self.sets@,
            hand_points: self.hand_points@,
            bid_made: self.bid_made,
            hands_played: self.hands_played,
            winner: self.winner,
        }
    }
}

// ---------------------------------------------------------------------------
// Cards held by the state
// ---------------------------------------------------------------------------

/// A hand in canonical order (suit, then rank): the canonical deck filtered
/// to the cards the hand holds.
pub open spec fn sort_cards(s: Seq<Card>) -> Seq<Card> {
    canonical_deck().filter(|c: Card| s.contains(c))
}

/// `hand` without the card `card`.
pub open spec fn remove_card(hand: Seq<Card>, card: Card) -> Seq<Card> {
    hand.filter(other_than(card))
}

/// The test "is not `card`".
pub open spec fn other_than(card: Card) -> spec_fn(Card) -> bool {
    |c: Card| c != card
}

/// `hand` without the cards listed in `cards`.
pub open spec fn remove_cards(hand: Seq<Card>, cards: Seq<Card>) -> Seq<Card> {
    hand.filter(|c: Card| !cards.contains(c))
}

/// The cards of a sequence of (seat, card) plays.
pub open spec fn play_cards(plays: Seq<(Seat, Card)>) -> Seq<Card> {
    plays.map_values(|p: (Seat, Card)| p.1)
}

/// All plays of a sequence of tricks, trick by trick, in play order.
pub open spec fn plays_of(tricks: Seq<TrickModel>) -> Seq<(Seat, Card)>
    decreases tricks.len(),
{
    if tricks.len() == 0 {
        Seq::empty()
    } else {
        plays_of(tricks.drop_last()) + tricks.last().plays
    }
}

/// The multiset union of the hands.
pub open spec fn hands_cards(hands: Seq<Seq<Card>>) -> Multiset<Card>
    decreases hands.len(),
{
    if hands.len() == 0 {
        Multiset::empty()
    } else {
        hands_cards(hands.drop_last()).add(hands.last().to_multiset())
    }
}

/// Every card the state tracks: hands, kitty, deck remainder, discards, the
/// trick on the table and the completed tricks.
pub open spec fn all_cards(m: GameModel) -> Multiset<Card> {
    hands_cards(m.hands).add(m.kitty.to_multiset()).add(m.deck_remainder.to_multiset()).add(
        m.discarded.to_multiset(),
    ).add(play_cards(m.current_trick).to_multiset()).add(
        play_cards(plays_of(m.completed_tricks)).to_multiset(),
    )
}

/// Card conservation: the state holds each of the 52 cards exactly once.
pub open spec fn cards_conserved(m: GameModel) -> bool {
    all_cards(m) == canonical_deck().to_multiset()
}

// ---------------------------------------------------------------------------
// Well-formedness
// ---------------------------------------------------------------------------

pub open spec fn nplayers(m: GameModel) -> int {
    m.config.num_players as int
}

pub open spec fn valid_bid_amount(amount: u8, config: GameConfig) -> bool {
    amount == 15 || amount == 20 || amount == 25 || amount == 30 || (amount == 60
        && config.enable_30_for_60)
}

/// Number of seats marked `true`.
pub open spec fn count_true(s: Seq<bool>) -> nat {
    s.to_multiset().count(true)
}

pub open spec fn all_true(s: Seq<bool>) -> bool {
    forall|i: int| 0 <= i < s.len() ==> #[trigger] s[i]
}

/// The bidding has closed on a valid bid held by a seat of the table.
pub open spec fn bid_closed(m: GameModel) -> bool {
    &&& m.bidder is Some
    &&& m.bidder.unwrap() < nplayers(m)
    &&& m.bidding_closed_bid is Some
    &&& m.bidding_closed_bid.unwrap().seat == m.bidder.unwrap()
    &&& valid_bid_amount(m.bidding_closed_bid.unwrap().amount, m.config)
}

/// How many seats clockwise from the dealer's left `s` sits (0 for the
/// dealer's left, `n - 1` for the dealer).
pub open spec fn seat_offset(s: int, dealer: int, n: int) -> int {
    (s + n - dealer - 1) % n
}

/// Bidding goes once round the table clockwise from the dealer's left: the
/// seats that have acted are the first ones from there, and the next one is on turn.
pub open spec fn bidding_in_turn(m: GameModel) -> bool {
    let n = nplayers(m);
    let k = count_true(m.has_bid_or_passed);
    &&& forall|s: int|
        0 <= s < n ==> (#[trigger] m.has_bid_or_passed[s]) == (seat_offset(s, m.dealer as int, n) < k)
    &&& m.to_act == (m.dealer + 1 + k) % n
}

/// The invariants every state reached through the public operations keeps.
pub open spec fn wf(m: GameModel) -> bool {
    let n = nplayers(m);
    &&& n == 4 || n == 6
    &&& m.dealer < n
    &&& m.to_act < n
    &&& m.hands.len() == n
    &&& m.has_bid_or_passed.len() == n
    &&& m.discard_done.len() == n
    &&& m.scores.len() == 2
    &&& m.sets.len() == 2
    &&& m.hand_points.len() == 2
    &&& cards_conserved(m)
    &&& hands_sorted(m.hands)
    &&& hand_sizes(m)
    &&& (m.winner is Some <==> m.phase == Phase::GameOver)
    &&& (m.winner matches Some(t) ==> t < 2)
    &&& match m.phase {
        Phase::Bidding => {
            &&& !m.has_bid_or_passed[m.to_act as int]
            &&& bidding_in_turn(m)
            &&& m.passes <= count_true(m.has_bid_or_passed)
            &&& (m.current_bid matches Some(b) ==> b.seat < n && valid_bid_amount(
                b.amount,
                m.config,
            ))
            &&& m.current_trick.len() == 0
            &&& m.completed_tricks.len() == 0
        },
        Phase::DeclareTrump => {
            &&& bid_closed(m)
            &&& m.to_act == m.bidder.unwrap()
            &&& m.current_trick.len() == 0
            &&& m.completed_tricks.len() == 0
        },
        Phase::Discard | Phase::DealerExtraDraw => {
            &&& bid_closed(m)
            &&& m.trump is Some
            &&& m.current_trick.len() == 0
            &&& m.completed_tricks.len() == 0
            &&& (m.phase == Phase::DealerExtraDraw ==> n == 6 && m.to_act == m.dealer)
        },
        Phase::Play => {
            &&& bid_closed(m)
            &&& m.trump is Some
            &&& m.current_trick.len() < n
            &&& m.completed_tricks.len() < NUM_TRICKS
            &&& forall|i: int| 0 <= i < m.current_trick.len() ==> (#[trigger] m.current_trick[i]).0 < n
            &&& tricks_shaped(m.completed_tricks, n)
            &&& tricks_in_order(m.completed_tricks, n, m.trump.unwrap(), m.bidder.unwrap())
            &&& (m.to_act + n - m.current_trick.len()) % n == next_leader(m.completed_tricks, m.bidder.unwrap())
        },
        Phase::HandComplete | Phase::GameOver => {
            &&& bid_closed(m)
            &&& m.trump is Some
            &&& m.current_trick.len() == 0
            &&& m.completed_tricks.len() == NUM_TRICKS
            &&& tricks_shaped(m.completed_tricks, n)
            &&& tricks_in_order(m.completed_tricks, n, m.trump.unwrap(), m.bidder.unwrap())
            &&& m.hand_points == hand_points_of(m.completed_tricks, m.trump.unwrap())
        },
    }
}

/// Every hand is in canonical order (by suit, then rank).
pub open spec fn hands_sorted(hands: Seq<Seq<Card>>) -> bool {
    forall|s: int| 0 <= s < hands.len() ==> sort_cards(#[trigger] hands[s]) == hands[s]
}

/// The most cards one seat can draw when its hand is refilled after a discard:
/// 5 with 4 players, 3 with 6 (where nobody may drop more than 3).
pub open spec fn refill_cap(n: int) -> int {
    if n == 4 {
        5
    } else {
        3
    }
}

/// Seat `s` has played to the trick on the table.
pub open spec fn has_played(trick: Seq<(Seat, Card)>, s: int) -> bool {
    exists|i: int| 0 <= i < trick.len() && (#[trigger] trick[i]).0 == s
}

/// The trick on the table was played clockwise by the seats just before `to_act`.
pub open spec fn trick_in_turn(trick: Seq<(Seat, Card)>, to_act: int, n: int) -> bool {
    forall|i: int| 0 <= i < trick.len() ==> (#[trigger] trick[i]).0 == (to_act + n - trick.len() + i) % n
}

/// How many cards each seat holds, phase by phase: 5 each until the discard,
/// 8 for the bidder who took the kitty, 5 after a seat's discard and refill,
/// the rest of the deck on top for the 6-player dealer's extra draw, and one
/// card fewer per trick played. The deck remainder always covers the refills
/// still to come.
pub open spec fn hand_sizes(m: GameModel) -> bool {
    let n = nplayers(m);
    match m.phase {
        Phase::Bidding | Phase::DeclareTrump => {
            &&& forall|s: int| 0 <= s < n ==> (#[trigger] m.hands[s]).len() == HAND_SIZE
            &&& forall|s: int| 0 <= s < n ==> !(#[trigger] m.discard_done[s])
            &&& m.kitty.len() == KITTY_SIZE
            &&& m.deck_remainder.len() == 52 - 5 * n - 3
        },
        Phase::Discard => {
            &&& forall|s: int|
                0 <= s < n ==> (#[trigger] m.hands[s]).len() == if m.discard_done[s] {
                    5int
                } else if m.bidder == Some(s as u8) {
                    8int
                } else {
                    5int
                }
            &&& m.deck_remainder.len() >= refill_cap(n) * (n - count_true(m.discard_done))
        },
        Phase::DealerExtraDraw => {
            &&& forall|s: int| 0 <= s < n && s != m.dealer ==> (#[trigger] m.hands[s]).len() == HAND_SIZE
            &&& m.hands[m.dealer as int].len() > HAND_SIZE
        },
        Phase::Play => {
            &&& trick_in_turn(m.current_trick, m.to_act as int, n)
            &&& forall|s: int|
                0 <= s < n ==> (#[trigger] m.hands[s]).len() + (if has_played(m.current_trick, s) {
                    1int
                } else {
                    0int
                }) == NUM_TRICKS - m.completed_tricks.len()
        },
        Phase::HandComplete | Phase::GameOver => true,
    }
}

/// A trick was played clockwise from its leader, who made the first play,
/// and was won by the seat of its winning play.
pub open spec fn trick_in_order(t: TrickModel, n: int, trump: Suit) -> bool {
    &&& t.plays.len() > 0
    &&& t.leader == t.plays[0].0
    &&& forall|i: int| 0 <= i < t.plays.len() ==> (#[trigger] t.plays[i]).0 == (t.leader + i) % n
    &&& t.winner == t.plays[trick_winner(play_cards(t.plays), trump)].0
}

/// The seat that leads the next trick: the bidder first, then the winner of
/// the last trick.
pub open spec fn next_leader(tricks: Seq<TrickModel>, bidder: Seat) -> Seat {
    if tricks.len() == 0 {
        bidder
    } else {
        tricks.last().winner
    }
}

/// Every trick was played in order; the bidder led the first, and the winner
/// of each trick led the next.
pub open spec fn tricks_in_order(tricks: Seq<TrickModel>, n: int, trump: Suit, bidder: Seat) -> bool {
    &&& forall|k: int| 0 <= k < tricks.len() ==> trick_in_order(#[trigger] tricks[k], n, trump)
    &&& forall|k: int| 0 <= k < tricks.len() ==> (#[trigger] tricks[k]).leader == next_leader(tricks.take(k), bidder)
}

/// Each trick holds one play per seat, and was led and won by a seat at the table.
pub open spec fn tricks_shaped(tricks: Seq<TrickModel>, n: int) -> bool {
    forall|k: int|
        0 <= k < tricks.len() ==> {
            &&& (#[trigger] tricks[k]).plays.len() == n
            &&& tricks[k].leader < n
            &&& tricks[k].winner < n
        }
}

/// The move may finish the hand and so be scored: a card played to the last
/// open place of the fifth trick.
pub open spec fn move_may_score(m: GameModel, a: ActionModel) -> bool {
    &&& m.phase == Phase::Play
    &&& a is Play
    &&& m.current_trick.len() + 1 == nplayers(m)
    &&& m.completed_tricks.len() + 1 == NUM_TRICKS
}

/// Room left in the score counters for one more hand to be scored.
pub open spec fn score_room(m: GameModel) -> bool {
    &&& m.scores.len() == 2
    &&& m.sets.len() == 2
    &&& forall|t: int|
        0 <= t < 2 ==> i32::MIN + 60 <= #[trigger] m.scores[t] <= i32::MAX - 60 && m.sets[t]
            < 255
}

// ---------------------------------------------------------------------------
// Transitions
// ---------------------------------------------------------------------------

/// Offset `k' >= k` (below the table size) of the first seat clockwise from
/// `from` that has not acted yet; the table size when there is none.
pub open spec fn open_seat_offset(acted: Seq<bool>, from: int, k: int) -> int
    decreases acted.len() - k,
{
    if k >= acted.len() {
        k
    } else if !acted[(from + k) % (acted.len() as int)] {
        k
    } else {
        open_seat_offset(acted, from, k + 1)
    }
}

/// The first seat clockwise after `from` that has not acted yet.
pub open spec fn next_open_seat(acted: Seq<bool>, from: int) -> int {
    (from + open_seat_offset(acted, from, 1)) % (acted.len() as int)
}

/// Bidding closes on the current bid, or on a forced 15 by the dealer when
/// every seat passed. The bidder then declares trump.
pub open spec fn close_bidding(m: GameModel) -> GameModel {
    let bid = match m.current_bid {
        Some(b) => b,
        None => Bid { seat: m.dealer, amount: 15 },
    };
    GameModel {
        bidding_closed_bid: Some(bid),
        bidder: Some(bid.seat),
        is_30_for_60: bid.amount == 60,
        phase: Phase::DeclareTrump,
        to_act: bid.seat,
        ..m
    }
}

/// After a seat acts in the bidding: close it once every seat has acted,
/// else pass the turn to the next seat clockwise that has not acted.
pub open spec fn advance_bidding(m: GameModel) -> GameModel {
    if all_true(m.has_bid_or_passed) {
        close_bidding(m)
    } else {
        GameModel { to_act: next_open_seat(m.has_bid_or_passed, m.to_act as int) as u8, ..m }
    }
}

/// A bid of `amount` (0 = pass) by `seat`. Each seat acts exactly once;
/// a non-dealer must raise the current bid, the dealer may hold (match) it.
pub open spec fn bid_step(m: GameModel, seat: Seat, amount: u8) -> (GameModel, Result<(), EngineError>) {
    if seat != m.to_act {
        (m, Err(EngineError::NotYourTurn))
    } else if amount == 0 {
        (
            advance_bidding(
                GameModel {
                    has_bid_or_passed: m.has_bid_or_passed.update(seat as int, true),
                    passes: (m.passes + 1) as u8,
                    ..m
                },
            ),
            Ok(()),
        )
    } else if !valid_bid_amount(amount, m.config) {
        (m, Err(EngineError::InvalidBid))
    } else {
        let is_dealer = seat == m.dealer;
        let too_low = match m.current_bid {
            None => false,
            Some(prev) => if is_dealer {
                amount < prev.amount
            } else {
                amount <= prev.amount
            },
        };
        let held = match m.current_bid {
            None => false,
            Some(prev) => is_dealer && amount == prev.amount,
        };
        if too_low {
            (m, Err(EngineError::InvalidBid))
        } else {
            (
                advance_bidding(
                    GameModel {
                        current_bid: Some(Bid { seat, amount }),
                        has_bid_or_passed: m.has_bid_or_passed.update(seat as int, true),
                        dealer_held: m.dealer_held || held,
                        ..m
                    },
                ),
                Ok(()),
            )
        }
    }
}

/// The bidder names trump and takes the kitty into their hand.
pub open spec fn declare_step(m: GameModel, seat: Seat, suit: Suit) -> (GameModel, Result<(), EngineError>) {
    if seat != m.to_act {
        (m, Err(EngineError::NotYourTurn))
    } else {
        let b = m.bidder.unwrap() as int;
        (
            GameModel {
                trump: Some(suit),
                hands: m.hands.update(b, sort_cards(m.hands[b] + m.kitty)),
                kitty: Seq::empty(),
                kitty_absorbed: true,
                phase: Phase::Discard,
                ..m
            },
            Ok(()),
        )
    }
}

/// The bidder's trump-keeper rule: a trump may be discarded only when the
/// hand lacks enough non-trumps to make the required drop.
pub open spec fn discards_kept_trump(hand: Seq<Card>, cards: Seq<Card>, trump: Suit, required: int) -> bool {
    &&& exists|i: int| 0 <= i < cards.len() && #[trigger] trump_card(cards[i], trump)
    &&& non_trumps(hand, trump).len() >= required
}

/// The non-trump cards of `hand`.
pub open spec fn non_trumps(hand: Seq<Card>, trump: Suit) -> Seq<Card> {
    hand.filter(|c: Card| !trump_card(c, trump))
}

/// Once every seat has discarded: in the 6-player game with cards left, the
/// dealer takes them and must discard back to 5; otherwise play starts with
/// the bidder on lead.
pub open spec fn finish_discards(m: GameModel) -> GameModel {
    if all_true(m.discard_done) {
        if nplayers(m) == 6 && m.deck_remainder.len() > 0 {
            let d = m.dealer as int;
            GameModel {
                hands: m.hands.update(d, sort_cards(m.hands[d] + m.deck_remainder)),
                deck_remainder: Seq::empty(),
                phase: Phase::DealerExtraDraw,
                to_act: m.dealer,
                ..m
            }
        } else {
            GameModel { phase: Phase::Play, to_act: m.bidder.unwrap(), ..m }
        }
    } else {
        m
    }
}

/// Discard of `cards` by `seat`, then refill to 5 from the end of the deck remainder.
/// 4 players: the bidder (8 cards) drops at least 3, others drop 0..=5.
/// 6 players: at most 3 drops, so the bidder drops exactly 3.
pub open spec fn discard_step(m: GameModel, seat: Seat, cards: Seq<Card>) -> (GameModel, Result<(), EngineError>) {
    if seat >= m.hands.len() {
        (m, Err(EngineError::Invariant(SEAT_OUT_OF_RANGE)))
    } else if m.discard_done[seat as int] {
        (m, Err(EngineError::WrongPhase))
    } else {
        let hand = m.hands[seat as int];
        let hs = hand.len() as int;
        let required = if hs > 5 {
            hs - 5
        } else {
            0
        };
        let nd = cards.len() as int;
        if nd < required || nd > hs {
            (m, Err(EngineError::InvalidDiscard))
        } else if nplayers(m) == 6 && nd > 3 {
            (m, Err(EngineError::InvalidDiscard))
        } else if exists|i: int| 0 <= i < nd && !hand.contains(#[trigger] cards[i]) {
            (m, Err(EngineError::CardNotInHand))
        } else if !cards.no_duplicates() {
            (m, Err(EngineError::InvalidDiscard))
        } else if m.bidder == Some(seat) && discards_kept_trump(
            hand,
            cards,
            m.trump.unwrap(),
            required,
        ) {
            (m, Err(EngineError::InvalidDiscard))
        } else {
            refill_step(m, seat, cards)
        }
    }
}

/// After a valid discard: the discarded cards leave the hand, which is
/// refilled to 5 from the end of the deck remainder and sorted. If the
/// remainder runs out first, the hand keeps what it drew, unsorted, and the
/// move fails with `Invariant(DECK_UNDERFLOW)`.
pub open spec fn refill_step(m: GameModel, seat: Seat, cards: Seq<Card>) -> (GameModel, Result<(), EngineError>) {
    let hand = m.hands[seat as int];
    let kept = remove_cards(hand, cards);
    let deck = m.deck_remainder;
    let need = if kept.len() < 5 {
        5 - kept.len()
    } else {
        0
    };
    if deck.len() < need {
        (
            GameModel {
                hands: m.hands.update(seat as int, kept + deck.reverse()),
                deck_remainder: Seq::empty(),
                discarded: m.discarded + cards,
                ..m
            },
            Err(EngineError::Invariant(DECK_UNDERFLOW)),
        )
    } else {
        let drawn = deck.subrange(deck.len() - need, deck.len() as int).reverse();
        (
            finish_discards(
                GameModel {
                    hands: m.hands.update(seat as int, sort_cards(kept + drawn)),
                    deck_remainder: deck.subrange(0, deck.len() - need),
                    discarded: m.discarded + cards,
                    discard_done: m.discard_done.update(seat as int, true),
                    ..m
                },
            ),
            Ok(()),
        )
    }
}

/// 6-player dealer extra draw: the dealer discards exactly the cards above 5.
pub open spec fn extra_draw_step(m: GameModel, seat: Seat, cards: Seq<Card>) -> (GameModel, Result<(), EngineError>) {
    if seat != m.dealer {
        (m, Err(EngineError::NotYourTurn))
    } else {
        let hand = m.hands[seat as int];
        if hand.len() <= 5 {
            (m, Err(EngineError::Invariant(NO_EXTRAS)))
        } else if cards.len() != hand.len() - 5 {
            (m, Err(EngineError::InvalidDiscard))
        } else if exists|i: int| 0 <= i < cards.len() && !hand.contains(#[trigger] cards[i]) {
            (m, Err(EngineError::CardNotInHand))
        } else if !cards.no_duplicates() {
            (m, Err(EngineError::InvalidDiscard))
        } else {
            (
                GameModel {
                    hands: m.hands.update(
                        seat as int,
                        sort_cards(remove_cards(hand, cards)),
                    ),
                    discarded: m.discarded + cards,
                    phase: Phase::Play,
                    to_act: m.bidder.unwrap(),
                    ..m
                },
                Ok(()),
            )
        }
    }
}

/// The position that wins a trick (`rules::winning_index`).
pub open spec fn trick_winner(plays: Seq<Card>, trump: Suit) -> int {
    choose|w: int| wins_trick(plays, trump, w)
}

/// Number of tricks won by `team`.
pub open spec fn tricks_won(tricks: Seq<TrickModel>, team: int) -> int
    decreases tricks.len(),
{
    if tricks.len() == 0 {
        0
    } else {
        tricks_won(tricks.drop_last(), team) + if tricks.last().winner % 2 == team {
            1int
        } else {
            0int
        }
    }
}

/// Position `i` of `plays` holds the highest trump played: a trump at least
/// as strong as every trump, and stronger than every trump played before it.
pub open spec fn is_high_trump(plays: Seq<(Seat, Card)>, trump: Suit, i: int) -> bool {
    &&& 0 <= i < plays.len()
    &&& trump_card(plays[i].1, trump)
    &&& forall|j: int|
        0 <= j < plays.len() && #[trigger] trump_card(plays[j].1, trump) ==> strength_of(
            plays[j].1,
            trump,
        ) <= strength_of(plays[i].1, trump)
    &&& forall|j: int|
        0 <= j < i && #[trigger] trump_card(plays[j].1, trump) ==> strength_of(plays[j].1, trump)
            < strength_of(plays[i].1, trump)
}

/// The team of the seat that played the highest trump of the hand, if any trump was played.
pub open spec fn high_trump_team(tricks: Seq<TrickModel>, trump: Suit) -> Option<int> {
    let ps = plays_of(tricks);
    if exists|i: int| is_high_trump(ps, trump, i) {
        Some((ps[choose|i: int| is_high_trump(ps, trump, i)].0 % 2) as int)
    } else {
        None
    }
}

/// Some card of the tricks is a trump.
pub open spec fn trump_played(tricks: Seq<TrickModel>, trump: Suit) -> bool {
    let ps = plays_of(tricks);
    exists|i: int| 0 <= i < ps.len() && #[trigger] trump_card(ps[i].1, trump)
}

/// Hand points per team: 5 per trick won, plus 5 to the team that played the highest trump.
pub open spec fn hand_points_of(tricks: Seq<TrickModel>, trump: Suit) -> Seq<i32> {
    let bonus = high_trump_team(tricks, trump);
    seq![
        (5 * tricks_won(tricks, 0) + if bonus == Some(0int) {
            5int
        } else {
            0int
        }) as i32,
        (5 * tricks_won(tricks, 1) + if bonus == Some(1int) {
            5int
        } else {
            0int
        }) as i32,
    ]
}

/// Scoring at the end of the hand. A made bid scores the bidder team's hand
/// points (60 for a made 30-for-60, which needs all 30 points); a failed bid
/// costs its amount (60 for 30-for-60) and a set. The other team scores its
/// hand points. Three sets lose the game; a made bid reaching the target wins it.
pub open spec fn score_hand(m: GameModel) -> GameModel {
    let trump = m.trump.unwrap();
    let bid = m.bidding_closed_bid.unwrap();
    let hp = hand_points_of(m.completed_tricks, trump);
    let bt = (bid.seat % 2) as int;
    let ot = 1 - bt;
    let made = if m.is_30_for_60 {
        hp[bt] >= 30
    } else {
        hp[bt] >= bid.amount
    };
    let scores1 = if made {
        m.scores.update(
            bt,
            (m.scores[bt] + if m.is_30_for_60 {
                60
            } else {
                hp[bt] as int
            }) as i32,
        )
    } else {
        m.scores.update(
            bt,
            (m.scores[bt] - if m.is_30_for_60 {
                60
            } else {
                bid.amount as int
            }) as i32,
        )
    };
    let sets1 = if made {
        m.sets
    } else {
        m.sets.update(bt, (m.sets[bt] + 1) as u8)
    };
    let scores2 = scores1.update(ot, (scores1[ot] + hp[ot]) as i32);
    let m1 = GameModel {
        hand_points: hp,
        scores: scores2,
        sets: sets1,
        bid_made: Some(made),
        phase: Phase::HandComplete,
        ..m
    };
    if sets1[0] >= 3 {
        GameModel { winner: Some(1), phase: Phase::GameOver, ..m1 }
    } else if sets1[1] >= 3 {
        GameModel { winner: Some(0), phase: Phase::GameOver, ..m1 }
    } else if made && scores2[bt] >= m.config.target_score {
        GameModel { winner: Some(bt as u8), phase: Phase::GameOver, ..m1 }
    } else {
        m1
    }
}

/// A full trick is resolved: it joins the completed tricks, its winner leads
/// next, and after the fifth trick the hand is scored.
pub open spec fn resolve_trick(m: GameModel) -> GameModel {
    let trump = m.trump.unwrap();
    let w = trick_winner(play_cards(m.current_trick), trump);
    let winner_seat = m.current_trick[w].0;
    let trick = TrickModel {
        leader: m.current_trick[0].0,
        plays: m.current_trick,
        winner: winner_seat,
    };
    let m1 = GameModel {
        completed_tricks: m.completed_tricks.push(trick),
        current_trick: Seq::empty(),
        ..m
    };
    if m1.completed_tricks.len() == NUM_TRICKS {
        score_hand(m1)
    } else {
        GameModel { to_act: winner_seat, ..m1 }
    }
}

/// The lead card of the trick in progress, if any.
pub open spec fn lead_of(trick: Seq<(Seat, Card)>) -> Option<Card> {
    if trick.len() == 0 {
        None
    } else {
        Some(trick[0].1)
    }
}

/// `seat` plays `card`: it must be on turn, hold the card, and the play must be legal.
pub open spec fn play_step(m: GameModel, seat: Seat, card: Card) -> (GameModel, Result<(), EngineError>) {
    if seat != m.to_act {
        (m, Err(EngineError::NotYourTurn))
    } else {
        let trump = m.trump.unwrap();
        let hand = m.hands[seat as int];
        if !hand.contains(card) {
            (m, Err(EngineError::CardNotInHand))
        } else if !playable(hand, card, lead_of(m.current_trick), trump) {
            (m, Err(EngineError::IllegalCard))
        } else {
            let m1 = GameModel {
                hands: m.hands.update(seat as int, remove_card(hand, card)),
                current_trick: m.current_trick.push((seat, card)),
                ..m
            };
            if m1.current_trick.len() == nplayers(m) {
                (resolve_trick(m1), Ok(()))
            } else {
                (GameModel { to_act: ((m.to_act + 1) % nplayers(m)) as u8, ..m1 }, Ok(()))
            }
        }
    }
}

/// The effect of a move: a phase/action mismatch is rejected with `WrongPhase`.
pub open spec fn step(m: GameModel, seat: Seat, a: ActionModel) -> (GameModel, Result<(), EngineError>) {
    match (m.phase, a) {
        (Phase::Bidding, ActionModel::Bid { amount }) => bid_step(m, seat, amount),
        (Phase::DeclareTrump, ActionModel::DeclareTrump(suit)) => declare_step(m, seat, suit),
        (Phase::Discard, ActionModel::Discard(cards)) => discard_step(m, seat, cards),
        (Phase::DealerExtraDraw, ActionModel::Discard(cards)) => extra_draw_step(m, seat, cards),
        (Phase::Play, ActionModel::Play(card)) => play_step(m, seat, card),
        _ => (m, Err(EngineError::WrongPhase)),
    }
}

// ---------------------------------------------------------------------------
// Executable state machine
// ---------------------------------------------------------------------------

/// The structural facts the bidding operations rely on.
pub open spec fn table_ok(m: GameModel) -> bool {
    let n = nplayers(m);
    &&& n == 4 || n == 6
    &&& m.dealer < n
    &&& m.to_act < n
    &&& m.hands.len() == n
    &&& m.has_bid_or_passed.len() == n
    &&& m.discard_done.len() == n
}

pub(crate) proof fn lemma_count_true_split(s: Seq<bool>)
    ensures
        s.to_multiset().count(true) + s.to_multiset().count(false) == s.len(),
    decreases s.len(),
{
    broadcast use vstd::seq_lib::group_to_multiset_ensures;

    if s.len() > 0 {
        lemma_count_true_split(s.drop_last());
        assert(s =~= s.drop_last().push(s.last()));
    }
}

/// With a seat that has not acted, fewer seats than the table size have acted.
pub(crate) proof fn lemma_count_true_below(s: Seq<bool>, i: int)
    requires
        0 <= i < s.len(),
        !s[i],
    ensures
        count_true(s) < s.len(),
{
    broadcast use vstd::seq_lib::group_to_multiset_ensures;

    lemma_count_true_split(s);
    assert(s.contains(false));
}

impl GameState {
    fn all_acted(&self) -> (r: bool)
        ensures
            r == all_true(self.has_bid_or_passed@),
    {
        let mut i: usize = 0;
        while i < self.has_bid_or_passed.len()
            invariant
                i <= self.has_bid_or_passed@.len(),
                forall|j: int| 0 <= j < i ==> #[trigger] self.has_bid_or_passed@[j],
            decreases self.has_bid_or_passed@.len() - i,
        {
            if !self.has_bid_or_passed[i] {
                return false;
            }
            i = i + 1;
        }
        true
    }

    fn close_bidding(&mut self)
        ensures
            final(self)@ == close_bidding(old(self)@),
    {
        let bid = match self.current_bid {
            Some(b) => b,
            None => Bid { seat: self.dealer, amount: 15 },
        };
        self.bidding_closed_bid = Some(bid);
        self.bidder = Some(bid.seat);
        self.is_30_for_60 = bid.amount == 60;
        self.phase = Phase::DeclareTrump;
        self.to_act = bid.seat;
    }

    /// Move to the next bidder, or close bidding once every seat has acted.
    fn advance_bidding_turn(&mut self)
        requires
            table_ok(old(self)@),
        ensures
            final(self)@ == advance_bidding(old(self)@),
    {
        if self.all_acted() {
            self.close_bidding();
            return;
        }
        let n = self.config.num_players;
        let ghost acted = self.has_bid_or_passed@;
        let ghost from = self.to_act as int;
        let mut k: u8 = 1;
        while k < n && self.has_bid_or_passed[((self.to_act + k) % n) as usize]
            invariant
                1 <= k <= n,
                n == acted.len(),
                n == 4 || n == 6,
                from < n,
                self.to_act == from,
                self.has_bid_or_passed@ == acted,
                open_seat_offset(acted, from, k as int) == open_seat_offset(acted, from, 1),
            decreases n - k,
        {
            k = k + 1;
        }
        self.to_act = (self.to_act + k) % n;
    }

    fn apply_bid(&mut self, seat: Seat, amount: u8) -> (r: Result<(), EngineError>)
        requires
            wf(old(self)@),
            old(self)@.phase == Phase::Bidding,
        ensures
            (final(self)@, r) == bid_step(old(self)@, seat, amount),
    {
        if seat != self.to_act {
            return Err(EngineError::NotYourTurn);
        }
        proof {
            lemma_count_true_below(self.has_bid_or_passed@, self.to_act as int);
        }
        if amount == 0 {
            self.has_bid_or_passed.set(seat as usize, true);
            self.passes = self.passes + 1;
            self.advance_bidding_turn();
            return Ok(());
        }
        let valid = match amount {
            15 | 20 | 25 | 30 => true,
            60 => self.config.enable_30_for_60,
            _ => false,
        };
        if !valid {
            return Err(EngineError::InvalidBid);
        }
        let is_dealer = seat == self.dealer;
        match self.current_bid {
            None => {},
            Some(prev) => {
                if is_dealer {
                    if amount < prev.amount {
                        return Err(EngineError::InvalidBid);
                    }
                    if amount == prev.amount {
                        self.dealer_held = true;
                    }
                } else {
                    if amount <= prev.amount {
                        return Err(EngineError::InvalidBid);
                    }
                }
            },
        }
        self.current_bid = Some(Bid { seat, amount });
        self.has_bid_or_passed.set(seat as usize, true);
        self.advance_bidding_turn();
        Ok(())
    }
}

/// Membership of a card in a list.
fn contains_card(v: &[Card], c: Card) -> (r: bool)
    ensures
        r == v@.contains(c),
{
    let mut i: usize = 0;
    while i < v.len()
        invariant
            i <= v@.len(),
            forall|j: int| 0 <= j < i ==> v@[j] != c,
        decreases v@.len() - i,
    {
        if v[i] == c {
            return true;
        }
        i = i + 1;
    }
    false
}

/// The cards of `v` in canonical order (suit, then rank).
fn sort_hand(v: &Vec<Card>) -> (r: Vec<Card>)
    ensures
        r@ == sort_cards(v@),
{
    let deck = crate::cards::standard_deck();
    let ghost pred = |c: Card| v@.contains(c);
    let mut out: Vec<Card> = Vec::new();
    let mut i: usize = 0;
    while i < deck.len()
        invariant
            i <= deck@.len(),
            deck@ == canonical_deck(),
            pred == (|c: Card| v@.contains(c)),
            out@ == deck@.take(i as int).filter(pred),
        decreases deck@.len() - i,
    {
        let c = deck[i];
        proof {
            assert(deck@.take(i as int + 1) =~= deck@.take(i as int).push(c));
            deck@.take(i as int).lemma_filter_push(c, pred);
        }
        if contains_card(v.as_slice(), c) {
            out.push(c);
        }
        i = i + 1;
    }
    assert(deck@.take(deck@.len() as int) =~= deck@);
    out
}

/// `v` without the cards listed in `drop`, in order.
fn without_cards(v: &Vec<Card>, drop: &[Card]) -> (r: Vec<Card>)
    ensures
        r@ == remove_cards(v@, drop@),
{
    let mut out: Vec<Card> = Vec::new();
    let mut i: usize = 0;
    while i < v.len()
        invariant
            i <= v@.len(),
            out@ == remove_cards(v@.take(i as int), drop@),
        decreases v@.len() - i,
    {
        let c = v[i];
        proof {
            broadcast use vstd::seq::Seq::lemma_filter_push;

            assert(v@.take(i as int + 1) =~= v@.take(i as int).push(c));
        }
        if !contains_card(drop, c) {
            out.push(c);
        }
        i = i + 1;
    }
    assert(v@.take(v@.len() as int) =~= v@);
    out
}

/// `v` without the card `card`, in order.
fn without_card(v: &Vec<Card>, card: Card) -> (r: Vec<Card>)
    ensures
        r@ == remove_card(v@, card),
{
    let mut out: Vec<Card> = Vec::new();
    let mut i: usize = 0;
    while i < v.len()
        invariant
            i <= v@.len(),
            out@ == remove_card(v@.take(i as int), card),
        decreases v@.len() - i,
    {
        let c = v[i];
        proof {
            broadcast use vstd::seq::Seq::lemma_filter_push;

            assert(v@.take(i as int + 1) =~= v@.take(i as int).push(c));
        }
        if c != card {
            out.push(c);
        }
        i = i + 1;
    }
    assert(v@.take(v@.len() as int) =~= v@);
    out
}

impl GameState {
    /// Takes seat `i`'s hand out of the state, leaving an empty hand behind.
    fn take_hand(&mut self, i: usize) -> (h: Vec<Card>)
        requires
            i < old(self).hands@.len(),
        ensures
            h@ == old(self)@.hands[i as int],
            final(self).hands@.len() == old(self).hands@.len(),
            final(self)@ == (GameModel { hands: old(self)@.hands.update(i as int, Seq::empty()), ..old(self)@ }),
    {
        let mut h: Vec<Card> = Vec::new();
        self.hands.set_and_swap(i, &mut h);
        assert(hands_model(self.hands@) =~= old(self)@.hands.update(i as int, Seq::empty()));
        h
    }

    /// Puts `h` in as seat `i`'s hand.
    fn put_hand(&mut self, i: usize, h: Vec<Card>)
        requires
            i < old(self).hands@.len(),
        ensures
            final(self).hands@.len() == old(self).hands@.len(),
            final(self)@ == (GameModel { hands: old(self)@.hands.update(i as int, h@), ..old(self)@ }),
    {
        self.hands.set(i, h);
        assert(hands_model(self.hands@) =~= old(self)@.hands.update(i as int, h@));
    }

    fn apply_declare_trump(&mut self, seat: Seat, suit: Suit) -> (r: Result<(), EngineError>)
        requires
            wf(old(self)@),
            old(self)@.phase == Phase::DeclareTrump,
        ensures
            (final(self)@, r) == declare_step(old(self)@, seat, suit),
    {
        if seat != self.to_act {
            return Err(EngineError::NotYourTurn);
        }
        self.trump = Some(suit);
        let b = self.bidder.unwrap() as usize;
        let ghost m0 = self@;
        let mut hand = self.take_hand(b);
        let mut kitty: Vec<Card> = Vec::new();
        std::mem::swap(&mut kitty, &mut self.kitty);
        hand.append(&mut kitty);
        let sorted = sort_hand(&hand);
        self.put_hand(b, sorted);
        self.kitty_absorbed = true;
        self.phase = Phase::Discard;
        assert(self@.hands =~= m0.hands.update(b as int, sort_cards(m0.hands[b as int] + m0.kitty)));
        Ok(())
    }
}

/// At most one position wins a trick.
pub proof fn lemma_trick_winner_unique(plays: Seq<Card>, trump: Suit, w1: int, w2: int)
    requires
        wins_trick(plays, trump, w1),
        wins_trick(plays, trump, w2),
    ensures
        w1 == w2,
{
    let ls = crate::rules::lead_suit_of(plays[0], trump);
    if w1 < w2 {
        assert(crate::rules::trick_rank(plays[w1], ls, trump) < crate::rules::trick_rank(plays[w2], ls, trump));
    } else if w2 < w1 {
        assert(crate::rules::trick_rank(plays[w2], ls, trump) < crate::rules::trick_rank(plays[w1], ls, trump));
    }
}

/// `trick_winner` is the position `winning_index` returns.
pub proof fn lemma_trick_winner_is(plays: Seq<Card>, trump: Suit, w: int)
    requires
        wins_trick(plays, trump, w),
    ensures
        trick_winner(plays, trump) == w,
{
    let c = trick_winner(plays, trump);
    assert(wins_trick(plays, trump, c));
    lemma_trick_winner_unique(plays, trump, c, w);
}

/// At most one position holds the highest trump.
pub proof fn lemma_high_trump_unique(plays: Seq<(Seat, Card)>, trump: Suit, i1: int, i2: int)
    requires
        is_high_trump(plays, trump, i1),
        is_high_trump(plays, trump, i2),
    ensures
        i1 == i2,
{
    if i1 < i2 {
        assert(trump_card(plays[i1].1, trump));
    } else if i2 < i1 {
        assert(trump_card(plays[i2].1, trump));
    }
}

fn flat_plays(tricks: &Vec<CompletedTrick>) -> (r: Vec<(Seat, Card)>)
    ensures
        r@ == plays_of(tricks_model(tricks@)),
{
    let ghost tm = tricks_model(tricks@);
    let mut out: Vec<(Seat, Card)> = Vec::new();
    let mut i: usize = 0;
    while i < tricks.len()
        invariant
            i <= tricks@.len(),
            tm == tricks_model(tricks@),
            out@ == plays_of(tm.take(i as int)),
        decreases tricks@.len() - i,
    {
        let t = &tricks[i];
        let ghost before = out@;
        let mut j: usize = 0;
        while j < t.plays.len()
            invariant
                j <= t.plays@.len(),
                out@ == before + t.plays@.take(j as int),
            decreases t.plays@.len() - j,
        {
            out.push(t.plays[j]);
            assert(t.plays@.take(j as int + 1) =~= t.plays@.take(j as int).push(t.plays@[j as int]));
            j = j + 1;
        }
        assert(t.plays@.take(t.plays@.len() as int) =~= t.plays@);
        assert(tm.take(i as int + 1).drop_last() =~= tm.take(i as int));
        i = i + 1;
    }
    assert(tm.take(tricks@.len() as int) =~= tm);
    out
}

impl GameState {
    fn score_hand(&mut self)
        requires
            old(self)@.trump is Some,
            old(self)@.bidding_closed_bid is Some,
            old(self)@.bidding_closed_bid.unwrap().amount <= 60,
            old(self)@.completed_tricks.len() == NUM_TRICKS,
            score_room(old(self)@),
        ensures
            final(self)@ == score_hand(old(self)@),
    {
        let trump = self.trump.unwrap();
        let bid = self.bidding_closed_bid.unwrap();
        let ghost tm = self@.completed_tricks;

        // 5 points per trick to the winning team.
        let mut won0: i32 = 0;
        let mut won1: i32 = 0;
        let mut i: usize = 0;
        while i < self.completed_tricks.len()
            invariant
                i <= self.completed_tricks@.len(),
                self.completed_tricks@.len() == NUM_TRICKS,
                tm == tricks_model(self.completed_tricks@),
                won0 == tricks_won(tm.take(i as int), 0),
                won1 == tricks_won(tm.take(i as int), 1),
                0 <= won0 <= i,
                0 <= won1 <= i,
            decreases self.completed_tricks@.len() - i,
        {
            assert(tm.take(i as int + 1).drop_last() =~= tm.take(i as int));
            if team_of(self.completed_tricks[i].winner) == 0 {
                won0 = won0 + 1;
            } else {
                won1 = won1 + 1;
            }
            i = i + 1;
        }
        assert(tm.take(NUM_TRICKS as int) =~= tm);

        // High-trump bonus: +5 to the team of whoever played the highest trump.
        let all = flat_plays(&self.completed_tricks);
        let ghost ps = all@;
        let mut best: Option<(i32, Seat)> = None;
        let ghost mut bi: int = 0;
        let mut j: usize = 0;
        while j < all.len()
            invariant
                j <= all@.len(),
                ps == all@,
                best is None ==> forall|k: int| 0 <= k < j ==> !#[trigger] trump_card(ps[k].1, trump),
                best is Some ==> is_high_trump(ps.take(j as int), trump, bi) && best == Some(
                    (strength_of(ps[bi].1, trump) as i32, ps[bi].0),
                ),
            decreases all@.len() - j,
        {
            let (seat, card) = all[j];
            if crate::ranker::is_trump(card, trump) {
                let st = crate::ranker::strength(card, trump);
                let better = match best {
                    None => true,
                    Some((bs, _)) => st > bs,
                };
                if better {
                    proof {
                        bi = j as int;
                    }
                    best = Some((st, seat));
                }
            }
            j = j + 1;
        }
        assert(ps.take(ps.len() as int) =~= ps);
        let mut pts0: i32 = 5 * won0;
        let mut pts1: i32 = 5 * won1;
        match best {
            Some((_, seat)) => {
                proof {
                    assert(is_high_trump(ps, trump, bi));
                    let c = choose|k: int| is_high_trump(ps, trump, k);
                    lemma_high_trump_unique(ps, trump, c, bi);
                }
                if team_of(seat) == 0 {
                    pts0 = pts0 + 5;
                } else {
                    pts1 = pts1 + 5;
                }
            },
            None => {
                assert(!exists|k: int| is_high_trump(ps, trump, k));
            },
        }
        let hp: [i32; 2] = [pts0, pts1];
        assert(hp@ =~= hand_points_of(tm, trump));
        self.hand_points = hp;

        let bt: usize = (bid.seat % 2) as usize;
        let ot: usize = 1 - bt;
        let bidder_pts = hp[bt];
        let made = if self.is_30_for_60 {
            bidder_pts >= 30
        } else {
            bidder_pts >= bid.amount as i32
        };
        if made {
            let delta = if self.is_30_for_60 {
                60
            } else {
                bidder_pts
            };
            self.scores[bt] = self.scores[bt] + delta;
            self.bid_made = Some(true);
        } else {
            let penalty = if self.is_30_for_60 {
                60
            } else {
                bid.amount as i32
            };
            self.scores[bt] = self.scores[bt] - penalty;
            self.sets[bt] = self.sets[bt] + 1;
            self.bid_made = Some(false);
        }
        self.scores[ot] = self.scores[ot] + hp[ot];

        self.phase = Phase::HandComplete;

        if self.sets[0] >= 3 {
            self.winner = Some(1);
            self.phase = Phase::GameOver;
        } else if self.sets[1] >= 3 {
            self.winner = Some(0);
            self.phase = Phase::GameOver;
        } else if made && self.scores[bt] >= self.config.target_score {
            self.winner = Some(bt as Team);
            self.phase = Phase::GameOver;
        }
    }
}

impl GameState {
    fn resolve_trick(&mut self)
        requires
            old(self)@.trump is Some,
            old(self)@.current_trick.len() > 0,
            old(self)@.completed_tricks.len() < NUM_TRICKS,
            old(self)@.bidding_closed_bid is Some,
            old(self)@.bidding_closed_bid.unwrap().amount <= 60,
            old(self)@.completed_tricks.len() + 1 == NUM_TRICKS ==> score_room(old(self)@),
        ensures
            final(self)@ == resolve_trick(old(self)@),
    {
        let trump = self.trump.unwrap();
        let ghost ct = self.current_trick@;
        let mut plays: Vec<Card> = Vec::new();
        let mut i: usize = 0;
        while i < self.current_trick.len()
            invariant
                i <= ct.len(),
                ct == self.current_trick@,
                plays@ == play_cards(ct.take(i as int)),
            decreases ct.len() - i,
        {
            plays.push(self.current_trick[i].1);
            assert(play_cards(ct.take(i as int + 1)) =~= play_cards(ct.take(i as int)).push(ct[i as int].1));
            i = i + 1;
        }
        assert(ct.take(ct.len() as int) =~= ct);
        let idx = crate::rules::winning_index(plays.as_slice(), trump);
        proof {
            lemma_trick_winner_is(play_cards(ct), trump, idx as int);
        }
        let winner_seat = self.current_trick[idx].0;
        let leader = self.current_trick[0].0;
        let mut taken: Vec<(Seat, Card)> = Vec::new();
        std::mem::swap(&mut taken, &mut self.current_trick);
        let ghost before = self.completed_tricks@;
        self.completed_tricks.push(CompletedTrick { leader, plays: taken, winner: winner_seat });
        assert(tricks_model(self.completed_tricks@) =~= tricks_model(before).push(
            TrickModel { leader, plays: ct, winner: winner_seat },
        ));
        if self.completed_tricks.len() == NUM_TRICKS {
            self.score_hand();
        } else {
            self.to_act = winner_seat;
        }
    }

    fn apply_play(&mut self, seat: Seat, card: Card) -> (r: Result<(), EngineError>)
        requires
            wf(old(self)@),
            old(self)@.phase == Phase::Play,
            old(self)@.current_trick.len() + 1 == nplayers(old(self)@) && old(self)@.completed_tricks.len() + 1
                == NUM_TRICKS ==> score_room(old(self)@),
        ensures
            (final(self)@, r) == play_step(old(self)@, seat, card),
    {
        if seat != self.to_act {
            return Err(EngineError::NotYourTurn);
        }
        let trump = self.trump.unwrap();
        let s = seat as usize;
        assert(self@.hands[seat as int] == self.hands@[seat as int]@);
        if !contains_card(self.hands[s].as_slice(), card) {
            return Err(EngineError::CardNotInHand);
        }
        let lead = if self.current_trick.len() == 0 {
            None
        } else {
            Some(self.current_trick[0].1)
        };
        assert(lead == lead_of(self@.current_trick));
        if !crate::rules::can_play_card(self.hands[s].as_slice(), card, lead, trump) {
            return Err(EngineError::IllegalCard);
        }
        let ghost m = self@;
        let h = without_card(&self.hands[s], card);
        self.put_hand(s, h);
        self.current_trick.push((seat, card));
        assert(self@ == (GameModel {
            hands: m.hands.update(seat as int, remove_card(m.hands[seat as int], card)),
            current_trick: m.current_trick.push((seat, card)),
            ..m
        }));
        let n = self.config.num_players as usize;
        if self.current_trick.len() == n {
            self.resolve_trick();
        } else {
            self.to_act = (self.to_act + 1) % self.config.num_players;
        }
        Ok(())
    }
}

/// Does the list repeat a card?
fn has_duplicate(v: &[Card]) -> (r: bool)
    ensures
        r == !v@.no_duplicates(),
{
    let mut i: usize = 0;
    while i < v.len()
        invariant
            i <= v@.len(),
            forall|a: int, b: int| 0 <= a < i && 0 <= b < v@.len() && a != b ==> v@[a] != v@[b],
        decreases v@.len() - i,
    {
        let mut j: usize = 0;
        while j < v.len()
            invariant
                i < v@.len(),
                j <= v@.len(),
                forall|a: int, b: int| 0 <= a < i && 0 <= b < v@.len() && a != b ==> v@[a] != v@[b],
                forall|b: int| 0 <= b < j && b != i ==> v@[i as int] != v@[b],
            decreases v@.len() - j,
        {
            if j != i && v[i] == v[j] {
                return true;
            }
            j = j + 1;
        }
        i = i + 1;
    }
    false
}

/// Is every card of `cards` in `hand`?
fn all_in_hand(hand: &[Card], cards: &[Card]) -> (r: bool)
    ensures
        r == !(exists|i: int| 0 <= i < cards@.len() && !hand@.contains(#[trigger] cards@[i])),
{
    let mut i: usize = 0;
    while i < cards.len()
        invariant
            i <= cards@.len(),
            forall|j: int| 0 <= j < i ==> hand@.contains(#[trigger] cards@[j]),
        decreases cards@.len() - i,
    {
        if !contains_card(hand, cards[i]) {
            return false;
        }
        i = i + 1;
    }
    true
}

/// Number of non-trump cards in `hand`.
fn count_non_trumps(hand: &[Card], trump: Suit) -> (r: usize)
    ensures
        r == non_trumps(hand@, trump).len(),
{
    let mut count: usize = 0;
    let mut i: usize = 0;
    while i < hand.len()
        invariant
            i <= hand@.len(),
            count == non_trumps(hand@.take(i as int), trump).len(),
            count <= i,
        decreases hand@.len() - i,
    {
        let c = hand[i];
        proof {
            broadcast use vstd::seq::Seq::lemma_filter_push;

            assert(hand@.take(i as int + 1) =~= hand@.take(i as int).push(c));
        }
        if !crate::ranker::is_trump(c, trump) {
            count = count + 1;
        }
        i = i + 1;
    }
    assert(hand@.take(hand@.len() as int) =~= hand@);
    count
}

/// Does `cards` hold a trump?
fn any_trump(cards: &[Card], trump: Suit) -> (r: bool)
    ensures
        r == exists|i: int| 0 <= i < cards@.len() && #[trigger] trump_card(cards@[i], trump),
{
    let mut i: usize = 0;
    while i < cards.len()
        invariant
            i <= cards@.len(),
            forall|j: int| 0 <= j < i ==> !#[trigger] trump_card(cards@[j], trump),
        decreases cards@.len() - i,
    {
        if crate::ranker::is_trump(cards[i], trump) {
            return true;
        }
        i = i + 1;
    }
    false
}

impl GameState {
    fn all_discarded(&self) -> (r: bool)
        ensures
            r == all_true(self.discard_done@),
    {
        let mut i: usize = 0;
        while i < self.discard_done.len()
            invariant
                i <= self.discard_done@.len(),
                forall|j: int| 0 <= j < i ==> #[trigger] self.discard_done@[j],
            decreases self.discard_done@.len() - i,
        {
            if !self.discard_done[i] {
                return false;
            }
            i = i + 1;
        }
        true
    }

    fn apply_discard(&mut self, seat: Seat, cards: &Vec<Card>) -> (r: Result<(), EngineError>)
        requires
            wf(old(self)@),
            old(self)@.phase == Phase::Discard,
        ensures
            (final(self)@, r) == discard_step(old(self)@, seat, cards@),
    {
        let ghost m = self@;
        if seat as usize >= self.hands.len() {
            return Err(EngineError::Invariant(SEAT_OUT_OF_RANGE));
        }
        let s = seat as usize;
        if self.discard_done[s] {
            return Err(EngineError::WrongPhase);
        }
        assert(m.hands[seat as int] == self.hands@[s as int]@);
        let is_bidder = match self.bidder {
            Some(b) => b == seat,
            None => false,
        };
        let is_six_player = self.config.num_players == 6;
        let hand_size = self.hands[s].len();
        let required: usize = if hand_size > HAND_SIZE {
            hand_size - HAND_SIZE
        } else {
            0
        };
        let n_discards = cards.len();
        if n_discards < required || n_discards > hand_size {
            return Err(EngineError::InvalidDiscard);
        }
        if is_six_player && n_discards > 3 {
            return Err(EngineError::InvalidDiscard);
        }
        if !all_in_hand(self.hands[s].as_slice(), cards.as_slice()) {
            return Err(EngineError::CardNotInHand);
        }
        if has_duplicate(cards.as_slice()) {
            return Err(EngineError::InvalidDiscard);
        }
        if is_bidder {
            let trump = self.trump.unwrap();
            let non_trump_count = count_non_trumps(self.hands[s].as_slice(), trump);
            if any_trump(cards.as_slice(), trump) && non_trump_count >= required {
                return Err(EngineError::InvalidDiscard);
            }
        }
        let hand = self.take_hand(s);
        let mut h = without_cards(&hand, cards.as_slice());
        let ghost kept = h@;
        assert(cards@.take(0) =~= Seq::<Card>::empty());
        assert(m.discarded + cards@.take(0) =~= m.discarded);
        let mut k: usize = 0;
        while k < cards.len()
            invariant
                s == seat as usize,
                s < m.hands.len(),
                k <= cards@.len(),
                self@ == (GameModel {
                    hands: m.hands.update(seat as int, Seq::empty()),
                    discarded: m.discarded + cards@.take(k as int),
                    ..m
                }),
                self.hands@.len() == m.hands.len(),
            decreases cards@.len() - k,
        {
            self.discarded.push(cards[k]);
            assert(cards@.take(k as int + 1) =~= cards@.take(k as int).push(cards@[k as int]));
            assert(m.discarded + cards@.take(k as int + 1) =~= (m.discarded + cards@.take(k as int)).push(cards@[k as int]));
            k = k + 1;
        }
        assert(cards@.take(cards@.len() as int) =~= cards@);
        let ghost deck = m.deck_remainder;
        let ghost need: int = if kept.len() < 5 {
            5 - kept.len()
        } else {
            0
        };
        assert(deck.subrange(0, deck.len() as int) =~= deck);
        assert(kept + deck.subrange(deck.len() as int, deck.len() as int).reverse() =~= kept);
        while h.len() < HAND_SIZE
            invariant
                s == seat as usize,
                s < m.hands.len(),
                discard_step(m, seat, cards@) == refill_step(m, seat, cards@),
                deck == m.deck_remainder,
                m == old(self)@,
                kept == remove_cards(m.hands[seat as int], cards@),
                need == (if kept.len() < 5 {
                    5 - kept.len()
                } else {
                    0
                }),
                h@.len() >= kept.len(),
                h@.len() <= 5 || h@.len() == kept.len(),
                h@.len() - kept.len() <= deck.len(),
                h@ == kept + deck.subrange(deck.len() - (h@.len() - kept.len()), deck.len() as int).reverse(),
                self@ == (GameModel {
                    hands: m.hands.update(seat as int, Seq::empty()),
                    discarded: m.discarded + cards@,
                    deck_remainder: deck.subrange(0, deck.len() - (h@.len() - kept.len())),
                    ..m
                }),
                self.hands@.len() == m.hands.len(),
            decreases HAND_SIZE - h@.len(),
        {
            let ghost taken = h@.len() - kept.len();
            match self.deck_remainder.pop() {
                Some(c) => {
                    h.push(c);
                    assert(deck.subrange(deck.len() - (taken + 1), deck.len() as int).reverse() =~=
                        deck.subrange(deck.len() - taken, deck.len() as int).reverse().push(c));
                    assert(deck.subrange(0, deck.len() - taken).subrange(0, deck.len() - taken - 1) =~=
                        deck.subrange(0, deck.len() - (taken + 1)));
                },
                None => {
                    assert(deck.subrange(deck.len() - taken, deck.len() as int) =~= deck);
                    assert(deck.len() < need);
                    assert(deck.subrange(0, 0) =~= Seq::<Card>::empty());
                    self.put_hand(s, h);
                    assert(self@.hands =~= m.hands.update(seat as int, kept + deck.reverse()));
                    assert(self@.deck_remainder =~= Seq::<Card>::empty());



                    return Err(EngineError::Invariant(DECK_UNDERFLOW));
                },
            }
        }
        assert(h@.len() - kept.len() == need);
        let sorted = sort_hand(&h);
        self.put_hand(s, sorted);
        assert(self@.hands =~= m.hands.update(seat as int, sorted@));
        self.discard_done.set(s, true);
        let ghost m1 = self@;
        assert(m1 == (GameModel {
            hands: m.hands.update(seat as int, sort_cards(kept + deck.subrange(deck.len() - need, deck.len() as int).reverse())),
            deck_remainder: deck.subrange(0, deck.len() - need),
            discarded: m.discarded + cards@,
            discard_done: m.discard_done.update(seat as int, true),
            ..m
        }));
        if self.all_discarded() {
            if is_six_player && self.deck_remainder.len() > 0 {
                let d = self.dealer as usize;
                let mut extras: Vec<Card> = Vec::new();
                std::mem::swap(&mut extras, &mut self.deck_remainder);
                let mut dh = self.take_hand(d);
                dh.append(&mut extras);
                let sorted_d = sort_hand(&dh);
                self.put_hand(d, sorted_d);
                self.phase = Phase::DealerExtraDraw;
                self.to_act = self.dealer;
                assert(self@.hands =~= m1.hands.update(d as int, sort_cards(m1.hands[d as int] + m1.deck_remainder)));
            } else {
                self.phase = Phase::Play;
                self.to_act = self.bidder.unwrap();
            }
        }
        Ok(())
    }

    fn apply_dealer_extra_draw(&mut self, seat: Seat, cards: &Vec<Card>) -> (r: Result<(), EngineError>)
        requires
            wf(old(self)@),
            old(self)@.phase == Phase::DealerExtraDraw,
        ensures
            (final(self)@, r) == extra_draw_step(old(self)@, seat, cards@),
    {
        let ghost m = self@;
        if seat != self.dealer {
            return Err(EngineError::NotYourTurn);
        }
        let s = seat as usize;
        assert(m.hands[seat as int] == self.hands@[s as int]@);
        let hand_size = self.hands[s].len();
        if hand_size <= HAND_SIZE {
            return Err(EngineError::Invariant(NO_EXTRAS));
        }
        let needed = hand_size - HAND_SIZE;
        if cards.len() != needed {
            return Err(EngineError::InvalidDiscard);
        }
        if !all_in_hand(self.hands[s].as_slice(), cards.as_slice()) {
            return Err(EngineError::CardNotInHand);
        }
        if has_duplicate(cards.as_slice()) {
            return Err(EngineError::InvalidDiscard);
        }
        let hand = self.take_hand(s);
        let kept = without_cards(&hand, cards.as_slice());
        let sorted = sort_hand(&kept);
        self.put_hand(s, sorted);
        assert(self@.hands =~= m.hands.update(seat as int, sort_cards(remove_cards(m.hands[seat as int], cards@))));
        assert(cards@.take(0) =~= Seq::<Card>::empty());
        assert(m.discarded + cards@.take(0) =~= m.discarded);
        let mut k: usize = 0;
        while k < cards.len()
            invariant
                s == seat as usize,
                s < m.hands.len(),
                k <= cards@.len(),
                self@ == (GameModel {
                    hands: m.hands.update(seat as int, sort_cards(remove_cards(m.hands[seat as int], cards@))),
                    discarded: m.discarded + cards@.take(k as int),
                    ..m
                }),
            decreases cards@.len() - k,
        {
            self.discarded.push(cards[k]);
            assert(cards@.take(k as int + 1) =~= cards@.take(k as int).push(cards@[k as int]));
            assert(m.discarded + cards@.take(k as int + 1) =~= (m.discarded + cards@.take(k as int)).push(cards@[k as int]));
            k = k + 1;
        }
        assert(cards@.take(cards@.len() as int) =~= cards@);
        self.phase = Phase::Play;
        self.to_act = self.bidder.unwrap();
        Ok(())
    }
}

// ---------------------------------------------------------------------------
// Legal actions
// ---------------------------------------------------------------------------

/// The lowest bid `seat` may make: 15 when nothing was bid, the current bid
/// for the dealer (who may hold), 5 more than the current bid for anyone else.
pub open spec fn bid_floor(m: GameModel, seat: Seat) -> int {
    match m.current_bid {
        None => 15,
        Some(prev) => if seat == m.dealer {
            prev.amount as int
        } else if prev.amount > 250 {
            255
        } else {
            prev.amount + 5
        },
    }
}

/// The bid amounts the configuration allows, ascending.
pub open spec fn bid_amounts(config: GameConfig) -> Seq<u8> {
    if config.enable_30_for_60 {
        seq![15u8, 20u8, 25u8, 30u8, 60u8]
    } else {
        seq![15u8, 20u8, 25u8, 30u8]
    }
}

/// The amounts `seat` may bid: 0 (pass) first, then the allowed amounts at or above the floor.
pub open spec fn legal_bid_amounts(m: GameModel, seat: Seat) -> Seq<u8> {
    seq![0u8] + amounts_at_least(bid_amounts(m.config), bid_floor(m, seat))
}

/// The amounts at or above `floor`, in order.
pub open spec fn amounts_at_least(amounts: Seq<u8>, floor: int) -> Seq<u8> {
    amounts.filter(|a: u8| a as int >= floor)
}

/// The legal actions of `seat`: its bids when bidding, the four suits when
/// declaring trump, its legal cards when playing; nothing when the seat is not
/// on turn, and nothing during discards (a discard is any subset the rules allow).
pub open spec fn legal_actions_of(m: GameModel, seat: Seat) -> Seq<ActionModel> {
    match m.phase {
        Phase::Bidding => if seat != m.to_act {
            Seq::empty()
        } else {
            legal_bid_amounts(m, seat).map_values(|a: u8| ActionModel::Bid { amount: a })
        },
        Phase::DeclareTrump => if seat != m.to_act {
            Seq::empty()
        } else {
            seq![
                ActionModel::DeclareTrump(Suit::Clubs),
                ActionModel::DeclareTrump(Suit::Diamonds),
                ActionModel::DeclareTrump(Suit::Hearts),
                ActionModel::DeclareTrump(Suit::Spades),
            ]
        },
        Phase::Play => if seat != m.to_act {
            Seq::empty()
        } else {
            crate::rules::legal_cards(
                m.hands[seat as int],
                lead_of(m.current_trick),
                m.trump.unwrap(),
            ).map_values(|c: Card| ActionModel::Play(c))
        },
        _ => Seq::empty(),
    }
}

/// The actions of a list, as models.
pub open spec fn actions_model(v: Seq<Action>) -> Seq<ActionModel> {
    v.map_values(|a: Action| a@)
}

impl GameState {
    fn legal_bids(&self, seat: Seat) -> (r: Vec<Action>)
        ensures
            actions_model(r@) == legal_bid_amounts(self@, seat).map_values(|a: u8| ActionModel::Bid { amount: a }),
    {
        let is_dealer = seat == self.dealer;
        let floor: u8 = match self.current_bid {
            None => 15,
            Some(prev) => if is_dealer {
                prev.amount
            } else if prev.amount > 250 {
                255
            } else {
                prev.amount + 5
            },
        };
        let mut amounts: Vec<u8> = vec![15, 20, 25, 30];
        if self.config.enable_30_for_60 {
            amounts.push(60);
        }
        assert(amounts@ =~= bid_amounts(self.config));
        let ghost spec = legal_bid_amounts(self@, seat);
        let mut out: Vec<Action> = vec![Action::Bid { amount: 0 }];
        let mut i: usize = 0;
        while i < amounts.len()
            invariant
                i <= amounts@.len(),
                amounts@ == bid_amounts(self.config),
                floor == bid_floor(self@, seat),
                out@.len() == 1 + amounts_at_least(amounts@.take(i as int), floor as int).len(),
                forall|j: int| 0 <= j < out@.len() ==> #[trigger] out@[j]@ == (ActionModel::Bid { amount: (seq![0u8] + amounts_at_least(amounts@.take(i as int), floor as int))[j] }),
            decreases amounts@.len() - i,
        {
            let a = amounts[i];
            proof {
                broadcast use vstd::seq::Seq::lemma_filter_push;

                assert(amounts@.take(i as int + 1) =~= amounts@.take(i as int).push(a));
            }
            if a >= floor {
                out.push(Action::Bid { amount: a });
            }
            proof {
                let f = amounts_at_least(amounts@.take(i as int + 1), floor as int);
                let f0 = amounts_at_least(amounts@.take(i as int), floor as int);
                assert(seq![0u8] + f =~= if a >= floor { (seq![0u8] + f0).push(a) } else { seq![0u8] + f0 });
            }
            i = i + 1;
        }
        assert(amounts@.take(amounts@.len() as int) =~= amounts@);
        assert(actions_model(out@) =~= legal_bid_amounts(self@, seat).map_values(|a: u8| ActionModel::Bid { amount: a }));
        out
    }

    /// Legal `Action`s for the given seat in the current phase. During the
    /// discard phases no action is listed: enumerating every discard subset is
    /// exponential, and `apply` validates whatever discard the caller picks.
    pub fn legal_actions(&self, seat: Seat) -> (r: Vec<Action>)
        requires
            wf(self@),
        ensures
            actions_model(r@) == legal_actions_of(self@, seat),
    {
        match self.phase {
            Phase::Bidding => {
                if seat != self.to_act {
                    return Vec::new();
                }
                self.legal_bids(seat)
            },
            Phase::DeclareTrump => {
                if seat != self.to_act {
                    return Vec::new();
                }
                let r = vec![
                    Action::DeclareTrump(Suit::Clubs),
                    Action::DeclareTrump(Suit::Diamonds),
                    Action::DeclareTrump(Suit::Hearts),
                    Action::DeclareTrump(Suit::Spades),
                ];
                assert(actions_model(r@) =~= legal_actions_of(self@, seat));
                r
            },
            Phase::Play => {
                if seat != self.to_act {
                    return Vec::new();
                }
                let trump = self.trump.unwrap();
                let lead = if self.current_trick.len() == 0 {
                    None
                } else {
                    Some(self.current_trick[0].1)
                };
                let s = seat as usize;
                assert(self@.hands[seat as int] == self.hands@[s as int]@);
                let cards = crate::rules::legal_moves(self.hands[s].as_slice(), lead, trump);
                let mut out: Vec<Action> = Vec::new();
                let mut i: usize = 0;
                while i < cards.len()
                    invariant
                        i <= cards@.len(),
                        out@.len() == i,
                        forall|j: int| 0 <= j < i ==> #[trigger] out@[j]@ == ActionModel::Play(cards@[j]),
                    decreases cards@.len() - i,
                {
                    out.push(Action::Play(cards[i]));
                    i = i + 1;
                }
                assert(actions_model(out@) =~= legal_actions_of(self@, seat));
                out
            },
            _ => {
                let r: Vec<Action> = Vec::new();
                assert(actions_model(r@) =~= legal_actions_of(self@, seat));
                r
            },
        }
    }

    // --- Apply a move ---

    /// Applies a move. The result and the new state are those of `step`.
    pub fn apply(&mut self, m: Move) -> (r: Result<(), EngineError>)
        requires
            wf(old(self)@),
            move_may_score(old(self)@, m.action@) ==> score_room(old(self)@),
        ensures
            (final(self)@, r) == step(old(self)@, m.seat, m.action@),
            wf(final(self)@),
    {
        proof {
            crate::laws::lemma_step_preserves_wf(self@, m.seat, m.action@);
        }
        match (self.phase, &m.action) {
            (Phase::Bidding, Action::Bid { amount }) => self.apply_bid(m.seat, *amount),
            (Phase::DeclareTrump, Action::DeclareTrump(suit)) => self.apply_declare_trump(m.seat, *suit),
            (Phase::Discard, Action::Discard(cards)) => self.apply_discard(m.seat, cards),
            (Phase::DealerExtraDraw, Action::Discard(cards)) => self.apply_dealer_extra_draw(m.seat, cards),
            (Phase::Play, Action::Play(card)) => self.apply_play(m.seat, *card),
            _ => Err(EngineError::WrongPhase),
        }
    }

    // --- Read accessors ---

    pub fn phase(&self) -> (p: Phase)
        ensures
            p == self.phase,
    {
        self.phase
    }

    pub fn dealer(&self) -> (d: Seat)
        ensures
            d == self.dealer,
    {
        self.dealer
    }

    pub fn num_players(&self) -> (n: u8)
        ensures
            n == self.config.num_players,
    {
        self.config.num_players
    }

    pub fn config(&self) -> (c: GameConfig)
        ensures
            c == self.config,
    {
        self.config
    }

    /// The seat on turn; `None` during discards and once the hand is over.
    pub fn to_act(&self) -> (s: Option<Seat>)
        ensures
            s == (match self.phase {
                Phase::Bidding | Phase::DeclareTrump | Phase::Play | Phase::DealerExtraDraw => Some(
                    self.to_act,
                ),
                Phase::Discard | Phase::HandComplete | Phase::GameOver => None,
            }),
    {
        match self.phase {
            Phase::Bidding | Phase::DeclareTrump | Phase::Play | Phase::DealerExtraDraw => Some(
                self.to_act,
            ),
            Phase::Discard | Phase::HandComplete | Phase::GameOver => None,
        }
    }

    pub fn hand(&self, seat: Seat) -> (h: &[Card])
        requires
            seat < self.hands@.len(),
        ensures
            h@ == self@.hands[seat as int],
    {
        self.hands[seat as usize].as_slice()
    }

    pub fn kitty(&self) -> (k: &[Card])
        ensures
            k@ == self.kitty@,
    {
        self.kitty.as_slice()
    }

    pub fn current_bid(&self) -> (b: Option<Bid>)
        ensures
            b == self.current_bid,
    {
        self.current_bid
    }

    /// The bid that closed the bidding.
    pub fn winning_bid(&self) -> (b: Option<Bid>)
        ensures
            b == self.bidding_closed_bid,
    {
        self.bidding_closed_bid
    }

    pub fn trump(&self) -> (t: Option<Suit>)
        ensures
            t == self.trump,
    {
        self.trump
    }

    pub fn bidder(&self) -> (b: Option<Seat>)
        ensures
            b == self.bidder,
    {
        self.bidder
    }

    pub fn scores(&self) -> (s: [i32; 2])
        ensures
            s == self.scores,
    {
        self.scores
    }

    pub fn sets(&self) -> (s: [u8; 2])
        ensures
            s == self.sets,
    {
        self.sets
    }

    pub fn hand_points(&self) -> (p: [i32; 2])
        ensures
            p == self.hand_points,
    {
        self.hand_points
    }

    pub fn bid_made(&self) -> (b: Option<bool>)
        ensures
            b == self.bid_made,
    {
        self.bid_made
    }

    pub fn is_30_for_60(&self) -> (b: bool)
        ensures
            b == self.is_30_for_60,
    {
        self.is_30_for_60
    }

    pub fn winner(&self) -> (w: Option<Team>)
        ensures
            w == self.winner,
    {
        self.winner
    }

    pub fn hands_played(&self) -> (n: u32)
        ensures
            n == self.hands_played,
    {
        self.hands_played
    }

    pub fn completed_tricks(&self) -> (t: &[CompletedTrick])
        ensures
            t@ == self.completed_tricks@,
    {
        self.completed_tricks.as_slice()
    }

    pub fn current_trick(&self) -> (t: &[(Seat, Card)])
        ensures
            t@ == self.current_trick@,
    {
        self.current_trick.as_slice()
    }

    pub fn deck_remainder(&self) -> (d: &[Card])
        ensures
            d@ == self.deck_remainder@,
    {
        self.deck_remainder.as_slice()
    }

    /// Cards discarded during the current hand (cleared on each deal).
    pub fn discarded(&self) -> (d: &[Card])
        ensures
            d@ == self.discarded@,
    {
        self.discarded.as_slice()
    }
}

// ---------------------------------------------------------------------------
// Dealing
// ---------------------------------------------------------------------------

/// The order in which `SliceRandom::shuffle`, driven by a `ChaCha8Rng` seeded
/// with `seed_from_u64(seed)`, leaves `items`.
pub uninterp spec fn shuffled(seed: u64, items: Seq<u8>) -> Seq<u8>;

/// Shuffles `items` in place with a `ChaCha8Rng` seeded from `seed`
/// (`SeedableRng::seed_from_u64`, then `SliceRandom::shuffle`). Claims the
/// result is `shuffled(seed, items)`, and that it is a permutation of the
/// input (the shuffle only swaps elements).
#[verifier::external_body]
fn shuffle_with_seed(seed: u64, items: &mut Vec<u8>)
    ensures
        final(items)@ == shuffled(seed, old(items)@),
        final(items)@.to_multiset() == old(items)@.to_multiset(),
{
    let mut rng = ChaCha8Rng::seed_from_u64(seed);
    items.shuffle(&mut rng);
}

/// The positions 0..52 of the canonical deck.
pub open spec fn deck_positions() -> Seq<u8> {
    Seq::new(52, |i: int| i as u8)
}

/// The deck dealt for a seed: the canonical deck permuted by the seeded shuffle
/// (shuffling positions permutes the same way as shuffling the cards).
pub open spec fn deck_for_seed(seed: u64) -> Seq<Card> {
    cards_at(shuffled(seed, deck_positions()))
}

/// The cards of the canonical deck at the given positions.
pub open spec fn cards_at(order: Seq<u8>) -> Seq<Card> {
    order.map_values(|i: u8| canonical_deck()[i as int])
}

/// Round-robin deal: seat `s` receives cards `s`, `s + n`, `s + 2n`, ... (5 cards).
pub open spec fn dealt_cards(deck: Seq<Card>, n: int, seat: int) -> Seq<Card> {
    Seq::new(5, |r: int| deck[r * n + seat])
}

/// A fresh deal from `deck`: 5 cards to each seat (round-robin, sorted), the
/// next 3 to the kitty, the rest to the deck remainder; every per-hand field
/// reset, bidding opened at the dealer's left. Scores, sets, the winner, the
/// configuration and the dealer carry over; `hands_played` counts the deal.
pub open spec fn deal(m: GameModel, deck: Seq<Card>) -> GameModel {
    let n = nplayers(m);
    GameModel {
        hands: Seq::new(n as nat, |s: int| sort_cards(dealt_cards(deck, n, s))),
        kitty: deck.subrange(5 * n, 5 * n + 3),
        deck_remainder: deck.subrange(5 * n + 3, deck.len() as int),
        phase: Phase::Bidding,
        to_act: ((m.dealer + 1) % n) as u8,
        current_bid: None,
        passes: 0,
        has_bid_or_passed: Seq::new(n as nat, |i: int| false),
        dealer_held: false,
        bidding_closed_bid: None,
        trump: None,
        bidder: None,
        is_30_for_60: false,
        kitty_absorbed: false,
        discard_done: Seq::new(n as nat, |i: int| false),
        discarded: Seq::empty(),
        current_trick: Seq::empty(),
        completed_tricks: Seq::empty(),
        hand_points: seq![0i32, 0i32],
        bid_made: None,
        hands_played: (m.hands_played + 1) as u32,
        ..m
    }
}

/// The state `new_hand` starts from before its first deal.
pub open spec fn initial_model(config: GameConfig, dealer: Seat) -> GameModel {
    GameModel {
        config,
        dealer,
        hands: Seq::empty(),
        kitty: Seq::empty(),
        deck_remainder: Seq::empty(),
        phase: Phase::Bidding,
        to_act: 0,
        current_bid: None,
        passes: 0,
        has_bid_or_passed: Seq::empty(),
        dealer_held: false,
        bidding_closed_bid: None,
        trump: None,
        bidder: None,
        is_30_for_60: false,
        kitty_absorbed: false,
        discard_done: Seq::empty(),
        discarded: Seq::empty(),
        current_trick: Seq::empty(),
        completed_tricks: Seq::empty(),
        scores: seq![0i32, 0i32],
        sets: seq![0u8, 0u8],
        hand_points: seq![0i32, 0i32],
        bid_made: None,
        hands_played: 0,
        winner: None,
    }
}

/// The inputs `from_state` accepts: 4 or 6 players, a dealer at the table,
/// 5 cards per seat, 3 in the kitty, and all 52 cards present exactly once.
pub open spec fn valid_deal_input(
    hands: Seq<Seq<Card>>,
    kitty: Seq<Card>,
    deck_remainder: Seq<Card>,
    config: GameConfig,
    dealer: Seat,
) -> bool {
    &&& config.num_players == 4 || config.num_players == 6
    &&& dealer < config.num_players
    &&& hands.len() == config.num_players
    &&& forall|s: int| 0 <= s < hands.len() ==> (#[trigger] hands[s]).len() == HAND_SIZE
    &&& kitty.len() == KITTY_SIZE
    &&& hands_cards(hands).add(kitty.to_multiset()).add(deck_remainder.to_multiset())
        == canonical_deck().to_multiset()
}

/// The state `from_state` builds: the given deal with each hand sorted, bidding
/// open at the dealer's left, scores and sets at zero, one hand played.
pub open spec fn staged_model(
    hands: Seq<Seq<Card>>,
    kitty: Seq<Card>,
    deck_remainder: Seq<Card>,
    config: GameConfig,
    dealer: Seat,
) -> GameModel {
    let n = config.num_players as int;
    GameModel {
        config,
        dealer,
        hands: Seq::new(n as nat, |s: int| sort_cards(hands[s])),
        kitty,
        deck_remainder,
        phase: Phase::Bidding,
        to_act: ((dealer + 1) % n) as u8,
        current_bid: None,
        passes: 0,
        has_bid_or_passed: Seq::new(n as nat, |i: int| false),
        dealer_held: false,
        bidding_closed_bid: None,
        trump: None,
        bidder: None,
        is_30_for_60: false,
        kitty_absorbed: false,
        discard_done: Seq::new(n as nat, |i: int| false),
        discarded: Seq::empty(),
        current_trick: Seq::empty(),
        completed_tricks: Seq::empty(),
        scores: seq![0i32, 0i32],
        sets: seq![0u8, 0u8],
        hand_points: seq![0i32, 0i32],
        bid_made: None,
        hands_played: 1,
        winner: None,
    }
}

fn copy_range(v: &Vec<Card>, from: usize, to: usize) -> (r: Vec<Card>)
    requires
        from <= to <= v@.len(),
    ensures
        r@ == v@.subrange(from as int, to as int),
{
    let mut out: Vec<Card> = Vec::new();
    let mut i = from;
    while i < to
        invariant
            from <= i <= to,
            to <= v@.len(),
            out@ == v@.subrange(from as int, i as int),
        decreases to - i,
    {
        out.push(v[i]);
        assert(v@.subrange(from as int, i as int + 1) =~= v@.subrange(from as int, i as int).push(v@[i as int]));
        i = i + 1;
    }
    out
}

fn falses(n: usize) -> (r: Vec<bool>)
    ensures
        r@ == Seq::new(n as nat, |i: int| false),
{
    let mut out: Vec<bool> = Vec::new();
    let mut i: usize = 0;
    while i < n
        invariant
            i <= n,
            out@ == Seq::new(i as nat, |j: int| false),
        decreases n - i,
    {
        out.push(false);
        assert(out@ =~= Seq::new(i as nat + 1, |j: int| false));
        i = i + 1;
    }
    out
}

impl GameState {
    /// Deals a hand from `deck` (52 cards, top first), as `deal` describes.
    pub fn deal_from_deck(&mut self, deck: &Vec<Card>)
        requires
            old(self).config.num_players == 4 || old(self).config.num_players == 6,
            old(self).dealer < old(self).config.num_players,
            deck@.len() == 52,
            old(self).hands_played < u32::MAX,
        ensures
            final(self)@ == deal(old(self)@, deck@),
            deck@.to_multiset() == canonical_deck().to_multiset() && old(self).winner is None ==> wf(final(self)@),
    {
        let ghost m = self@;
        let n = self.config.num_players as usize;
        let ghost ni = n as int;
        let ghost perm = deck@.to_multiset() == canonical_deck().to_multiset();
        let mut hands: Vec<Vec<Card>> = Vec::new();
        let mut s: usize = 0;
        while s < n
            invariant
                s <= n,
                hands@.len() == s,
                forall|k: int| 0 <= k < s ==> (#[trigger] hands@[k])@ == Seq::<Card>::empty(),
                hands_cards(hands_model(hands@)) == Multiset::<Card>::empty(),
            decreases n - s,
        {
            let ghost before = hands_model(hands@);
            hands.push(Vec::new());
            proof {
                broadcast use {vstd::seq_lib::group_to_multiset_ensures, vstd::multiset::group_multiset_axioms};

                assert(hands_model(hands@).drop_last() =~= before);
                assert(Seq::<Card>::empty().to_multiset() =~= Multiset::empty());
                assert(hands_cards(hands_model(hands@)) =~= Multiset::empty());
            }
            s = s + 1;
        }
        assert forall|k: int| 0 <= k < n implies (#[trigger] hands@[k])@ =~= Seq::new(0, |r: int| deck@[r * ni + k]) by {}
        assert(deck@.take(0) =~= Seq::<Card>::empty());
        assert(Seq::<Card>::empty().to_multiset() =~= Multiset::empty());
        let mut round: usize = 0;
        while round < HAND_SIZE
            invariant
                n == 4 || n == 6,
                ni == n as int,
                deck@.len() == 52,
                round <= HAND_SIZE,
                hands@.len() == n,
                forall|k: int| 0 <= k < n ==> (#[trigger] hands@[k])@ == Seq::new(round as nat, |r: int| deck@[r * ni + k]),
                hands_cards(hands_model(hands@)) == deck@.take(round * ni).to_multiset(),
            decreases HAND_SIZE - round,
        {
            let mut seat: usize = 0;
            while seat < n
                invariant
                    n == 4 || n == 6,
                    ni == n as int,
                    deck@.len() == 52,
                    round < HAND_SIZE,
                    seat <= n,
                    hands@.len() == n,
                    forall|k: int| 0 <= k < seat ==> (#[trigger] hands@[k])@ == Seq::new(round as nat + 1, |r: int| deck@[r * ni + k]),
                    forall|k: int| seat <= k < n ==> (#[trigger] hands@[k])@ == Seq::new(round as nat, |r: int| deck@[r * ni + k]),
                    hands_cards(hands_model(hands@)) == deck@.take(round * ni + seat).to_multiset(),
                decreases n - seat,
            {
                assert(round * n + seat < 30) by (nonlinear_arith)
                    requires
                        round < 5,
                        seat < n,
                        n <= 6,
                ;
                let ghost hm0 = hands_model(hands@);
                let mut h: Vec<Card> = Vec::new();
                hands.set_and_swap(seat, &mut h);
                let ghost old_h = h@;
                let c = deck[round * n + seat];
                h.push(c);
                assert(h@ =~= Seq::new(round as nat + 1, |r: int| deck@[r * ni + seat as int]));
                hands.set(seat, h);
                proof {
                broadcast use {vstd::seq_lib::group_to_multiset_ensures, vstd::multiset::group_multiset_axioms};

                    let k = round * ni + seat;
                    assert(hands_model(hands@) =~= hm0.update(seat as int, old_h.push(c)));
                    assert(hm0[seat as int] == old_h);
                    crate::laws::lemma_hands_cards_update(hm0, seat as int, old_h.push(c));
                    assert(deck@.take(k + 1) =~= deck@.take(k).push(c));
                    assert forall|x: Card| #[trigger] hands_cards(hands_model(hands@)).count(x) == deck@.take(k + 1).to_multiset().count(x) by {
                        assert(hands_cards(hands_model(hands@)).add(old_h.to_multiset()).count(x)
                            == hands_cards(hm0).add(old_h.push(c).to_multiset()).count(x));
                    }
                    assert(hands_cards(hands_model(hands@)) =~= deck@.take(k + 1).to_multiset());
                }
                seat = seat + 1;
            }
            assert(round * ni + ni == (round + 1) * ni) by (nonlinear_arith);
            round = round + 1;
        }
        assert(5 * ni <= 30);
        let mut s: usize = 0;
        while s < n
            invariant
                n == 4 || n == 6,
                ni == n as int,
                deck@.len() == 52,
                perm == (deck@.to_multiset() == canonical_deck().to_multiset()),
                s <= n,
                hands@.len() == n,
                forall|k: int| 0 <= k < s ==> (#[trigger] hands@[k])@ == sort_cards(dealt_cards(deck@, ni, k)),
                forall|k: int| s <= k < n ==> (#[trigger] hands@[k])@ == Seq::new(5, |r: int| deck@[r * ni + k]),
                perm ==> hands_cards(hands_model(hands@)) == deck@.take(5 * ni).to_multiset(),
                perm ==> forall|k: int| 0 <= k < s ==> (#[trigger] hands@[k])@.len() == HAND_SIZE,
                forall|k: int| 0 <= k < s ==> sort_cards((#[trigger] hands@[k])@) == hands@[k]@,
            decreases n - s,
        {
            let ghost hm0 = hands_model(hands@);
            let mut h: Vec<Card> = Vec::new();
            hands.set_and_swap(s, &mut h);
            assert(h@ =~= dealt_cards(deck@, ni, s as int));
            let sorted = sort_hand(&h);
            proof {
                crate::laws::lemma_sort_cards_idem(h@);
            }
            hands.set(s, sorted);
            proof {
                broadcast use {vstd::seq_lib::group_to_multiset_ensures, vstd::multiset::group_multiset_axioms};

                if perm {
                    assert(hm0[s as int] == h@);
                    assert(deck@ =~= deck@.take(5 * ni) + deck@.skip(5 * ni));
                    vstd::seq_lib::lemma_multiset_commutative(deck@.take(5 * ni), deck@.skip(5 * ni));
                    assert forall|x: Card| h@.to_multiset().count(x) <= 1 by {
                        crate::laws::lemma_hand_in_hands(hm0, s as int, x);
                        crate::laws::lemma_deck_count(x);
                    }
                    crate::laws::lemma_count_le_one_no_dup(h@);
                    crate::laws::lemma_sort_cards_multiset(h@);
                    crate::laws::lemma_sorted_len(h@);
                    assert(hands_model(hands@) =~= hm0.update(s as int, sorted@));
                    crate::laws::lemma_hands_cards_update(hm0, s as int, sorted@);
                    assert forall|x: Card| #[trigger] hands_cards(hands_model(hands@)).count(x) == hands_cards(hm0).count(x) by {
                        assert(hands_cards(hands_model(hands@)).add(h@.to_multiset()).count(x)
                            == hands_cards(hm0).add(sorted@.to_multiset()).count(x));
                    }
                    assert(hands_cards(hands_model(hands@)) =~= hands_cards(hm0));
                }
            }
            s = s + 1;
        }
        let kitty_start = n * HAND_SIZE;
        let kitty = copy_range(deck, kitty_start, kitty_start + KITTY_SIZE);
        let deck_remainder = copy_range(deck, kitty_start + KITTY_SIZE, deck.len());
        let first_bidder = (self.dealer + 1) % self.config.num_players;

        self.hands = hands;
        self.kitty = kitty;
        self.deck_remainder = deck_remainder;
        self.phase = Phase::Bidding;
        self.to_act = first_bidder;
        self.current_bid = None;
        self.passes = 0;
        self.has_bid_or_passed = falses(n);
        self.dealer_held = false;
        self.bidding_closed_bid = None;
        self.trump = None;
        self.bidder = None;
        self.is_30_for_60 = false;
        self.kitty_absorbed = false;
        self.discard_done = falses(n);
        self.discarded = Vec::new();
        self.current_trick = Vec::new();
        self.completed_tricks = Vec::new();
        self.hand_points = [0, 0];
        self.bid_made = None;
        self.hands_played = self.hands_played + 1;
        assert(self@.hands =~= deal(m, deck@).hands);
        assert(self@.completed_tricks =~= Seq::<TrickModel>::empty());
        assert(self@.hand_points =~= seq![0i32, 0i32]);
        proof {
                broadcast use {vstd::seq_lib::group_to_multiset_ensures, vstd::multiset::group_multiset_axioms};

            if perm {
                let d = deck@;
                let k = 5 * ni;
                assert(d =~= d.take(k) + (d.subrange(k, k + 3) + d.subrange(k + 3, 52)));
                vstd::seq_lib::lemma_multiset_commutative(d.take(k), d.subrange(k, k + 3) + d.subrange(k + 3, 52));
                vstd::seq_lib::lemma_multiset_commutative(d.subrange(k, k + 3), d.subrange(k + 3, 52));
                assert(play_cards(Seq::<(Seat, Card)>::empty()) =~= Seq::<Card>::empty());
                assert(Seq::<Card>::empty().to_multiset() =~= Multiset::empty());
                assert(all_cards(self@) =~= d.to_multiset());
                assert(!self@.has_bid_or_passed[self@.to_act as int]);
                assert(hand_sizes(self@));
            }
        }
    }

    /// Shuffles a fresh deck with the seeded generator and deals from it.
    fn deal_hand(&mut self, seed: u64)
        requires
            old(self).config.num_players == 4 || old(self).config.num_players == 6,
            old(self).dealer < old(self).config.num_players,
            old(self).hands_played < u32::MAX,
            old(self).winner is None,
        ensures
            final(self)@ == deal(old(self)@, deck_for_seed(seed)),
            wf(final(self)@),
    {
        let mut order: Vec<u8> = Vec::new();
        let mut i: u8 = 0;
        while i < 52
            invariant
                i <= 52,
                order@ == deck_positions().take(i as int),
            decreases 52 - i,
        {
            order.push(i);
            assert(deck_positions().take(i as int + 1) =~= deck_positions().take(i as int).push(i));
            i = i + 1;
        }
        assert(deck_positions().take(52) =~= deck_positions());
        shuffle_with_seed(seed, &mut order);
        proof {
            broadcast use vstd::seq_lib::group_to_multiset_ensures;

            vstd::seq_lib::to_multiset_len(order@);
            vstd::seq_lib::to_multiset_len(deck_positions());
            assert(order@.len() == 52);
            assert forall|k: int| 0 <= k < order@.len() implies order@[k] < 52 by {
                assert(order@.to_multiset().contains(order@[k]));
                assert(deck_positions().contains(order@[k]));
            }
        }
        let full = crate::cards::standard_deck();
        let mut deck: Vec<Card> = Vec::new();
        let mut j: usize = 0;
        while j < order.len()
            invariant
                j <= order@.len(),
                order@.len() == 52,
                full@ == canonical_deck(),
                forall|k: int| 0 <= k < order@.len() ==> order@[k] < 52,
                deck@.len() == j,
                forall|k: int| 0 <= k < j ==> #[trigger] deck@[k] == canonical_deck()[order@[k] as int],
            decreases order@.len() - j,
        {
            deck.push(full[order[j] as usize]);
            j = j + 1;
        }
        assert(deck@ =~= deck_for_seed(seed));
        proof {
            assert forall|x: Card| #[trigger] deck@.to_multiset().count(x) == canonical_deck().to_multiset().count(x) by {
                crate::laws::lemma_cards_at_count(order@, x);
                crate::laws::lemma_positions_count(x);
                crate::laws::lemma_deck_count(x);
            }
            assert(deck@.to_multiset() =~= canonical_deck().to_multiset());
        }
        self.deal_from_deck(&deck);
    }

    /// Start a new game: deal the first hand. Supports 4 and 6 players.
    pub fn new_hand(seed: u64, config: GameConfig, dealer: Seat) -> (g: GameState)
        requires
            config.num_players == 4 || config.num_players == 6,
            dealer < config.num_players,
        ensures
            g@ == deal(initial_model(config, dealer), deck_for_seed(seed)),
            wf(g@),
    {
        let mut g = GameState {
            config,
            dealer,
            hands: Vec::new(),
            kitty: Vec::new(),
            deck_remainder: Vec::new(),
            phase: Phase::Bidding,
            to_act: 0,
            current_bid: None,
            passes: 0,
            has_bid_or_passed: Vec::new(),
            dealer_held: false,
            bidding_closed_bid: None,
            trump: None,
            bidder: None,
            is_30_for_60: false,
            kitty_absorbed: false,
            discard_done: Vec::new(),
            discarded: Vec::new(),
            current_trick: Vec::new(),
            completed_tricks: Vec::new(),
            scores: [0, 0],
            sets: [0, 0],
            hand_points: [0, 0],
            bid_made: None,
            hands_played: 0,
            winner: None,
        };
        assert(g@ =~= initial_model(config, dealer));
        g.deal_hand(seed);
        g
    }

    /// Construct a hand from a fully specified deal: the hands (5 cards each),
    /// the kitty (3 cards) and the deck remainder, together all 52 cards once.
    /// Each hand is sorted; bidding opens at the dealer's left.
    pub fn from_state(
        hands: Vec<Vec<Card>>,
        kitty: Vec<Card>,
        deck_remainder: Vec<Card>,
        config: GameConfig,
        dealer: Seat,
    ) -> (g: GameState)
        requires
            valid_deal_input(hands_model(hands@), kitty@, deck_remainder@, config, dealer),
        ensures
            g@ == staged_model(hands_model(hands@), kitty@, deck_remainder@, config, dealer),
            wf(g@),
    {
        let n = config.num_players as usize;
        let ghost ni = n as int;
        let ghost hm = hands_model(hands@);
        let mut sorted_hands: Vec<Vec<Card>> = Vec::new();
        let mut s: usize = 0;
        while s < n
            invariant
                s <= n,
                n == hands@.len(),
                hm == hands_model(hands@),
                sorted_hands@.len() == s,
                forall|k: int| 0 <= k < s ==> (#[trigger] sorted_hands@[k])@ == sort_cards(hm[k]),
            decreases n - s,
        {
            sorted_hands.push(sort_hand(&hands[s]));
            s = s + 1;
        }
        let first_bidder = (dealer + 1) % config.num_players;
        let g = GameState {
            config,
            dealer,
            hands: sorted_hands,
            kitty,
            deck_remainder,
            phase: Phase::Bidding,
            to_act: first_bidder,
            current_bid: None,
            passes: 0,
            has_bid_or_passed: falses(n),
            dealer_held: false,
            bidding_closed_bid: None,
            trump: None,
            bidder: None,
            is_30_for_60: false,
            kitty_absorbed: false,
            discard_done: falses(n),
            discarded: Vec::new(),
            current_trick: Vec::new(),
            completed_tricks: Vec::new(),
            scores: [0, 0],
            sets: [0, 0],
            hand_points: [0, 0],
            bid_made: None,
            hands_played: 1,
            winner: None,
        };
        assert(g@.hands =~= Seq::new(ni as nat, |k: int| sort_cards(hm[k])));
        assert(g@ =~= staged_model(hm, kitty@, deck_remainder@, config, dealer));
        proof {
            crate::laws::lemma_staged_wf(hm, kitty@, deck_remainder@, config, dealer);
        }
        g
    }

    /// Deal the next hand after `HandComplete`: the dealer rotates clockwise;
    /// scores and sets persist. Any other phase is rejected with `WrongPhase`.
    pub fn next_hand(&mut self, seed: u64) -> (r: Result<(), EngineError>)
        requires
            wf(old(self)@),
            old(self).phase == Phase::HandComplete ==> old(self).hands_played < u32::MAX,
        ensures
            old(self).phase != Phase::HandComplete ==> r == Err::<(), EngineError>(EngineError::WrongPhase)
                && final(self)@ == old(self)@,
            old(self).phase == Phase::HandComplete ==> r == Ok::<(), EngineError>(()) && final(self)@
                == deal(
                GameModel { dealer: ((old(self).dealer + 1) % (old(self).config.num_players as int)) as u8, ..old(self)@ },
                deck_for_seed(seed),
            ),
            old(self).phase == Phase::HandComplete ==> {
                &&& final(self).dealer == (old(self).dealer + 1) % (old(self).config.num_players as int)
                &&& final(self).phase == Phase::Bidding
                &&& final(self).scores == old(self).scores
                &&& final(self).sets == old(self).sets
                &&& final(self).hands_played == old(self).hands_played + 1
                &&& final(self).config == old(self).config
                &&& final(self).to_act == (final(self).dealer + 1) % (old(self).config.num_players as int)
                &&& final(self)@.current_trick.len() == 0
                &&& final(self)@.completed_tricks.len() == 0
                &&& final(self)@.discarded.len() == 0
                &&& final(self).hand_points == [0i32, 0i32]
                &&& final(self).bid_made is None
                &&& final(self).trump is None
                &&& final(self).bidder is None
                &&& final(self).bidding_closed_bid is None
                &&& final(self).current_bid is None
            },
            wf(final(self)@),
    {
        if self.phase != Phase::HandComplete {
            return Err(EngineError::WrongPhase);
        }
        self.dealer = (self.dealer + 1) % self.config.num_players;
        self.deal_hand(seed);
        Ok(())
    }
}

} // verus!
