//! Further engine scenarios: the error variants, the agreement between the
//! legal actions and the moves accepted, card conservation, scoring edges.

use f45_engine::cards::{standard_deck, Card, Rank, Suit};
use f45_engine::error::EngineError;
use f45_engine::state::{team_of, Action, GameConfig, GameState, Move, Phase};
use std::collections::HashSet;
use std::str::FromStr;

fn c(s: &str) -> Card {
    Card::from_str(s).unwrap()
}

fn cards(codes: &[&str]) -> Vec<Card> {
    codes.iter().map(|s| c(s)).collect()
}

fn remainder_excluding(used: &[Card]) -> Vec<Card> {
    let used: HashSet<Card> = used.iter().copied().collect();
    standard_deck().into_iter().filter(|c| !used.contains(c)).collect()
}

fn staged(hands: Vec<Vec<Card>>, kitty: Vec<Card>) -> GameState {
    let mut used: Vec<Card> = hands.iter().flatten().copied().collect();
    used.extend(kitty.iter().copied());
    let rest = remainder_excluding(&used);
    GameState::from_state(hands, kitty, rest, GameConfig::four_player(), 0)
}

/// Every card the state tracks, in one list.
fn held_cards(g: &GameState) -> Vec<Card> {
    let mut out: Vec<Card> = Vec::new();
    for seat in 0..g.num_players() {
        out.extend_from_slice(g.hand(seat));
    }
    out.extend_from_slice(g.kitty());
    out.extend_from_slice(g.deck_remainder());
    out.extend_from_slice(g.discarded());
    for (_, card) in g.current_trick() {
        out.push(*card);
    }
    for t in g.completed_tricks() {
        for (_, card) in &t.plays {
            out.push(*card);
        }
    }
    out
}

fn conserved(g: &GameState) -> bool {
    let all = held_cards(g);
    let set: HashSet<Card> = all.iter().copied().collect();
    all.len() == 52 && set.len() == 52
}

fn bid(g: &mut GameState, seat: u8, amount: u8) -> Result<(), EngineError> {
    g.apply(Move { seat, action: Action::Bid { amount } })
}

/// A deal in which no spade and no ace of hearts is ever played.
fn trumpless_hand() -> GameState {
    staged(
        vec![
            cards(&["2C", "3C", "4C", "5C", "6C"]),
            cards(&["7C", "8C", "9C", "10C", "JC"]),
            cards(&["2D", "3D", "4D", "5D", "6D"]),
            cards(&["7D", "8D", "9D", "10D", "JD"]),
        ],
        cards(&["QC", "KC", "AC"]),
    )
}

// ---------------------------------------------------------------------------
// Error variants
// ---------------------------------------------------------------------------

#[test]
fn wrong_phase_for_the_move() {
    let mut g = GameState::new_hand(7, GameConfig::four_player(), 0);
    let err = g.apply(Move { seat: 1, action: Action::Play(c("AH")) });
    assert_eq!(err, Err(EngineError::WrongPhase));
    // Dealing the next hand is only possible once the hand is scored.
    assert_eq!(g.next_hand(3), Err(EngineError::WrongPhase));
    assert_eq!(g.phase(), Phase::Bidding);
    assert_eq!(g.hands_played(), 1);
}

#[test]
fn discard_errors() {
    let mut g = trumpless_hand();
    for seat in [1u8, 2, 3, 0] {
        bid(&mut g, seat, 0).unwrap();
    }
    g.apply(Move { seat: 0, action: Action::DeclareTrump(Suit::Spades) }).unwrap();
    // A seat that is not at the table.
    let err = g.apply(Move { seat: 9, action: Action::Discard(vec![]) });
    assert_eq!(err, Err(EngineError::Invariant("seat out of range")));
    // A card the seat does not hold.
    let err = g.apply(Move { seat: 1, action: Action::Discard(cards(&["2D"])) });
    assert_eq!(err, Err(EngineError::CardNotInHand));
    // The same card twice.
    let err = g.apply(Move { seat: 1, action: Action::Discard(cards(&["7C", "7C"])) });
    assert_eq!(err, Err(EngineError::InvalidDiscard));
    // The bidder must drop at least three.
    let err = g.apply(Move { seat: 0, action: Action::Discard(cards(&["QC", "KC"])) });
    assert_eq!(err, Err(EngineError::InvalidDiscard));
    // A seat discards once.
    g.apply(Move { seat: 1, action: Action::Discard(vec![]) }).unwrap();
    let err = g.apply(Move { seat: 1, action: Action::Discard(vec![]) });
    assert_eq!(err, Err(EngineError::WrongPhase));
}

#[test]
fn bidder_keeps_trump_while_non_trumps_remain() {
    let mut g = staged(
        vec![
            cards(&["2S", "3C", "4C", "5C", "6C"]),
            cards(&["7C", "8C", "9C", "10C", "JC"]),
            cards(&["2D", "3D", "4D", "5D", "6D"]),
            cards(&["7D", "8D", "9D", "10D", "JD"]),
        ],
        cards(&["QC", "KC", "AC"]),
    );
    for seat in [1u8, 2, 3, 0] {
        bid(&mut g, seat, 0).unwrap();
    }
    g.apply(Move { seat: 0, action: Action::DeclareTrump(Suit::Spades) }).unwrap();
    // Seven non-trumps remain: dropping the two of spades is refused.
    let err = g.apply(Move { seat: 0, action: Action::Discard(cards(&["2S", "QC", "KC"])) });
    assert_eq!(err, Err(EngineError::InvalidDiscard));
    // Dropping more than three non-trumps is allowed; the hand is refilled to five.
    g.apply(Move { seat: 0, action: Action::Discard(cards(&["3C", "QC", "KC", "AC"])) }).unwrap();
    assert_eq!(g.hand(0).len(), 5);
    assert!(conserved(&g));
}

#[test]
fn play_errors() {
    let mut g = trumpless_hand();
    for seat in [1u8, 2, 3, 0] {
        bid(&mut g, seat, 0).unwrap();
    }
    g.apply(Move { seat: 0, action: Action::DeclareTrump(Suit::Spades) }).unwrap();
    g.apply(Move { seat: 0, action: Action::Discard(cards(&["QC", "KC", "AC"])) }).unwrap();
    for seat in [1u8, 2, 3] {
        g.apply(Move { seat, action: Action::Discard(vec![]) }).unwrap();
    }
    assert_eq!(g.phase(), Phase::Play);
    assert_eq!(g.to_act(), Some(0));
    let err = g.apply(Move { seat: 1, action: Action::Play(c("7C")) });
    assert_eq!(err, Err(EngineError::NotYourTurn));
    let err = g.apply(Move { seat: 0, action: Action::Play(c("7C")) });
    assert_eq!(err, Err(EngineError::CardNotInHand));
    g.apply(Move { seat: 0, action: Action::Play(c("2C")) }).unwrap();
    // Seat 1 holds clubs and must follow clubs.
    let err = g.apply(Move { seat: 1, action: Action::DeclareTrump(Suit::Clubs) });
    assert_eq!(err, Err(EngineError::WrongPhase));
    g.apply(Move { seat: 1, action: Action::Play(c("7C")) }).unwrap();
    // Seat 2 holds no club: anything goes.
    g.apply(Move { seat: 2, action: Action::Play(c("6D")) }).unwrap();
    assert_eq!(g.current_trick().len(), 3);
}

#[test]
fn illegal_card_is_refused() {
    let mut g = staged(
        vec![
            cards(&["2C", "3C", "4C", "5C", "6C"]),
            cards(&["7C", "2D", "3D", "4D", "5D"]),
            cards(&["8C", "9C", "10C", "JC", "QC"]),
            cards(&["6D", "7D", "8D", "9D", "10D"]),
        ],
        cards(&["KC", "AC", "JD"]),
    );
    for seat in [1u8, 2, 3, 0] {
        bid(&mut g, seat, 0).unwrap();
    }
    g.apply(Move { seat: 0, action: Action::DeclareTrump(Suit::Spades) }).unwrap();
    g.apply(Move { seat: 0, action: Action::Discard(cards(&["KC", "AC", "JD"])) }).unwrap();
    for seat in [1u8, 2, 3] {
        g.apply(Move { seat, action: Action::Discard(vec![]) }).unwrap();
    }
    g.apply(Move { seat: 0, action: Action::Play(c("2C")) }).unwrap();
    // Seat 1 holds a club: it must follow clubs.
    let plays: Vec<Action> = g.legal_actions(1);
    assert_eq!(plays.len(), 1);
    let err = g.apply(Move { seat: 1, action: Action::Play(c("2D")) });
    assert_eq!(err, Err(EngineError::IllegalCard));
    assert_eq!(g.current_trick().len(), 1);
    g.apply(Move { seat: 1, action: Action::Play(c("7C")) }).unwrap();
    assert_eq!(g.current_trick().len(), 2);
}

#[test]
fn engine_error_messages() {
    assert_eq!(EngineError::NotYourTurn.message(), "not your turn");
    assert_eq!(EngineError::WrongPhase.message(), "wrong phase for this move");
    assert_eq!(EngineError::IllegalCard.message(), "illegal card under 45s rules");
    assert_eq!(EngineError::CardNotInHand.message(), "card not in hand");
    assert_eq!(EngineError::InvalidBid.message(), "invalid bid");
    assert_eq!(EngineError::InvalidDiscard.message(), "invalid discard");
    assert_eq!(EngineError::InvalidTrumpDeclare.message(), "invalid trump declaration");
    assert_eq!(
        EngineError::Invariant("deck underflow on refill").message(),
        "engine invariant violated: deck underflow on refill"
    );
}

#[test]
fn phase_labels() {
    assert_eq!(Phase::Bidding.label(), "bidding");
    assert_eq!(Phase::DeclareTrump.label(), "declare_trump");
    assert_eq!(Phase::Discard.label(), "discard");
    assert_eq!(Phase::DealerExtraDraw.label(), "dealer_extra_draw");
    assert_eq!(Phase::Play.label(), "play");
    assert_eq!(Phase::HandComplete.label(), "hand_complete");
    assert_eq!(Phase::GameOver.label(), "game_over");
}

// ---------------------------------------------------------------------------
// Legal actions and accepted moves
// ---------------------------------------------------------------------------

#[test]
fn legal_bids_follow_the_current_bid() {
    let mut g = GameState::new_hand(5, GameConfig::four_player(), 0);
    let amounts = |g: &GameState, seat: u8| -> Vec<u8> {
        g.legal_actions(seat)
            .into_iter()
            .map(|a| match a {
                Action::Bid { amount } => amount,
                _ => panic!("not a bid"),
            })
            .collect()
    };
    assert_eq!(amounts(&g, 1), vec![0, 15, 20, 25, 30, 60]);
    assert_eq!(amounts(&g, 2), Vec::<u8>::new());
    bid(&mut g, 1, 20).unwrap();
    assert_eq!(amounts(&g, 2), vec![0, 25, 30, 60]);
    bid(&mut g, 2, 25).unwrap();
    bid(&mut g, 3, 0).unwrap();
    // The dealer may hold the current bid.
    assert_eq!(amounts(&g, 0), vec![0, 25, 30, 60]);
    let mut cfg = GameConfig::four_player();
    cfg.enable_30_for_60 = false;
    let g2 = GameState::new_hand(5, cfg, 0);
    assert_eq!(amounts(&g2, 1), vec![0, 15, 20, 25, 30]);
}

#[test]
fn every_listed_action_is_accepted() {
    for seed in 0u64..20 {
        let mut g = GameState::new_hand(seed, GameConfig::four_player(), (seed % 4) as u8);
        let mut steps = 0;
        while g.phase() != Phase::HandComplete && g.phase() != Phase::GameOver && steps < 200 {
            match g.phase() {
                Phase::Discard => {
                    let bidder = g.bidder().unwrap();
                    let trump = g.trump().unwrap();
                    for seat in 0..4u8 {
                        let drop: Vec<Card> = if seat == bidder {
                            let mut h: Vec<Card> = g
                                .hand(seat)
                                .iter()
                                .copied()
                                .filter(|c| !f45_engine::ranker::is_trump(*c, trump))
                                .take(3)
                                .collect();
                            let more: Vec<Card> = g
                                .hand(seat)
                                .iter()
                                .copied()
                                .filter(|c| f45_engine::ranker::is_trump(*c, trump))
                                .take(3 - h.len())
                                .collect();
                            h.extend(more);
                            h
                        } else {
                            vec![]
                        };
                        g.apply(Move { seat, action: Action::Discard(drop) }).unwrap();
                    }
                }
                _ => {
                    let seat = g.to_act().unwrap();
                    let legal = g.legal_actions(seat);
                    assert!(!legal.is_empty());
                    for a in legal.iter() {
                        let mut probe = g.clone();
                        assert_eq!(probe.apply(Move { seat, action: a.clone() }), Ok(()));
                        assert!(conserved(&probe));
                    }
                    let pick = legal[(seed as usize + steps) % legal.len()].clone();
                    g.apply(Move { seat, action: pick }).unwrap();
                }
            }
            assert!(conserved(&g));
            steps += 1;
        }
        assert_eq!(g.completed_tricks().len(), 5);
        for t in g.completed_tricks() {
            assert_eq!(t.plays.len(), 4);
            assert!(t.leader < 4 && t.winner < 4);
        }
    }
}

#[test]
fn discard_phases_list_no_actions() {
    let mut g = GameState::new_hand(11, GameConfig::four_player(), 0);
    for seat in [1u8, 2, 3, 0] {
        bid(&mut g, seat, 0).unwrap();
    }
    g.apply(Move { seat: 0, action: Action::DeclareTrump(Suit::Hearts) }).unwrap();
    assert_eq!(g.phase(), Phase::Discard);
    assert_eq!(g.to_act(), None);
    for seat in 0..4 {
        assert!(g.legal_actions(seat).is_empty());
    }
}

// ---------------------------------------------------------------------------
// Dealing
// ---------------------------------------------------------------------------

#[test]
fn deal_is_shuffled_and_conserving() {
    let g = GameState::new_hand(42, GameConfig::four_player(), 0);
    assert!(conserved(&g));
    // The round-robin deal of an unshuffled deck would give seat 0 the cards
    // at positions 0, 4, 8, 12, 16 of the canonical deck.
    let deck = standard_deck();
    let unshuffled: Vec<Card> = vec![deck[0], deck[4], deck[8], deck[12], deck[16]];
    assert_ne!(g.hand(0).to_vec(), unshuffled);
    let other = GameState::new_hand(43, GameConfig::four_player(), 0);
    assert_ne!(held_cards(&g), held_cards(&other));
    let six = GameState::new_hand(42, GameConfig::six_player(), 5);
    assert!(conserved(&six));
    assert_eq!(six.to_act(), Some(0));
}

#[test]
fn staged_hands_are_sorted() {
    let g = staged(
        vec![
            cards(&["JD", "2D", "5D", "3D", "4D"]),
            cards(&["6C", "2C", "3C", "4C", "5C"]),
            cards(&["2S", "3S", "4S", "5S", "6S"]),
            cards(&["AH", "8C", "9C", "10C", "7C"]),
        ],
        cards(&["7S", "8S", "9S"]),
    );
    assert_eq!(g.hand(0).to_vec(), cards(&["2D", "3D", "4D", "5D", "JD"]));
    assert_eq!(g.hand(3).to_vec(), cards(&["7C", "8C", "9C", "10C", "AH"]));
    assert_eq!(g.hands_played(), 1);
    assert_eq!(g.to_act(), Some(1));
    assert!(conserved(&g));
}

// ---------------------------------------------------------------------------
// Scoring
// ---------------------------------------------------------------------------

fn play_first_legal(g: &mut GameState) {
    while g.phase() == Phase::Play {
        let seat = g.to_act().unwrap();
        let a = g.legal_actions(seat)[0].clone();
        g.apply(Move { seat, action: a }).unwrap();
    }
}

#[test]
fn hand_without_trump_scores_twenty_five() {
    let mut g = trumpless_hand();
    for seat in [1u8, 2, 3, 0] {
        bid(&mut g, seat, 0).unwrap();
    }
    g.apply(Move { seat: 0, action: Action::DeclareTrump(Suit::Spades) }).unwrap();
    g.apply(Move { seat: 0, action: Action::Discard(cards(&["QC", "KC", "AC"])) }).unwrap();
    for seat in [1u8, 2, 3] {
        g.apply(Move { seat, action: Action::Discard(vec![]) }).unwrap();
    }
    play_first_legal(&mut g);
    assert_eq!(g.phase(), Phase::HandComplete);
    let hp = g.hand_points();
    assert_eq!(hp[0] + hp[1], 25);
    assert!(conserved(&g));
}

fn sweep_deal() -> GameState {
    staged(
        vec![
            cards(&["2C", "3C", "4C", "5C", "6C"]),
            cards(&["5D", "JD", "AH", "KD", "QD"]),
            cards(&["7C", "8C", "9C", "10C", "JC"]),
            cards(&["2S", "3S", "4S", "5S", "6S"]),
        ],
        cards(&["7S", "8S", "9S"]),
    )
}

#[test]
fn thirty_for_sixty_sweep_scores_sixty() {
    let mut g = sweep_deal();
    bid(&mut g, 1, 60).unwrap();
    for seat in [2u8, 3, 0] {
        bid(&mut g, seat, 0).unwrap();
    }
    assert!(g.is_30_for_60());
    g.apply(Move { seat: 1, action: Action::DeclareTrump(Suit::Diamonds) }).unwrap();
    g.apply(Move { seat: 1, action: Action::Discard(cards(&["7S", "8S", "9S"])) }).unwrap();
    for seat in [0u8, 2, 3] {
        g.apply(Move { seat, action: Action::Discard(vec![]) }).unwrap();
    }
    play_first_legal(&mut g);
    assert_eq!(g.hand_points(), [0, 30]);
    assert_eq!(g.bid_made(), Some(true));
    assert_eq!(g.scores(), [0, 60]);
    assert_eq!(g.sets(), [0, 0]);
}

#[test]
fn thirty_for_sixty_short_of_a_sweep_costs_sixty() {
    // Seat 0 bids 30-for-60 with the weak hand; the strong hand is the opponents'.
    let mut g = sweep_deal();
    bid(&mut g, 1, 0).unwrap();
    bid(&mut g, 2, 0).unwrap();
    bid(&mut g, 3, 0).unwrap();
    bid(&mut g, 0, 60).unwrap();
    assert_eq!(g.bidder(), Some(0));
    g.apply(Move { seat: 0, action: Action::DeclareTrump(Suit::Diamonds) }).unwrap();
    g.apply(Move { seat: 0, action: Action::Discard(cards(&["7S", "8S", "9S"])) }).unwrap();
    for seat in [1u8, 2, 3] {
        g.apply(Move { seat, action: Action::Discard(vec![]) }).unwrap();
    }
    play_first_legal(&mut g);
    assert_eq!(g.bid_made(), Some(false));
    let hp = g.hand_points();
    assert_eq!(g.scores(), [-60, hp[1]]);
    assert_eq!(g.sets(), [1, 0]);
}

#[test]
fn teams_and_configs() {
    assert_eq!(team_of(0), 0);
    assert_eq!(team_of(3), 1);
    assert_eq!(team_of(4), 0);
    assert_eq!(team_of(5), 1);
    let four = GameConfig::four_player();
    assert_eq!((four.num_players, four.target_score, four.enable_30_for_60), (4, 120, true));
    let six = GameConfig::six_player();
    assert_eq!((six.num_players, six.target_score, six.enable_30_for_60), (6, 120, true));
}

#[test]
fn next_hand_keeps_scores_and_counts_hands() {
    let mut g = trumpless_hand();
    for seat in [1u8, 2, 3, 0] {
        bid(&mut g, seat, 0).unwrap();
    }
    g.apply(Move { seat: 0, action: Action::DeclareTrump(Suit::Spades) }).unwrap();
    g.apply(Move { seat: 0, action: Action::Discard(cards(&["QC", "KC", "AC"])) }).unwrap();
    for seat in [1u8, 2, 3] {
        g.apply(Move { seat, action: Action::Discard(vec![]) }).unwrap();
    }
    play_first_legal(&mut g);
    assert_eq!(g.phase(), Phase::HandComplete);
    let scores = g.scores();
    let sets = g.sets();
    g.next_hand(1).unwrap();
    assert_eq!(g.scores(), scores);
    assert_eq!(g.sets(), sets);
    assert_eq!(g.dealer(), 1);
    assert_eq!(g.to_act(), Some(2));
    assert_eq!(g.hands_played(), 2);
    assert_eq!(g.completed_tricks().len(), 0);
    assert_eq!(g.hand_points(), [0, 0]);
    assert_eq!(g.bid_made(), None);
    assert!(conserved(&g));
}

/// The parts of a state a move can change, for comparisons.
fn snapshot(g: &GameState) -> String {
    let mut hands: Vec<Vec<Card>> = Vec::new();
    for seat in 0..g.num_players() {
        hands.push(g.hand(seat).to_vec());
    }
    format!(
        "{:?} {:?} {:?} {:?} {:?} {:?} {:?} {:?} {:?} {:?} {:?}",
        g.phase(),
        g.to_act(),
        hands,
        g.kitty(),
        g.deck_remainder(),
        g.current_bid(),
        g.trump(),
        g.discarded(),
        g.current_trick(),
        g.scores(),
        g.completed_tricks().len()
    )
}

#[test]
fn refused_moves_leave_state_unchanged() {
    let mut g = trumpless_hand();
    let before = snapshot(&g);
    assert!(bid(&mut g, 2, 15).is_err());
    assert!(bid(&mut g, 1, 35).is_err());
    assert!(g.apply(Move { seat: 1, action: Action::Play(c("7C")) }).is_err());
    assert_eq!(snapshot(&g), before);
    for seat in [1u8, 2, 3, 0] {
        bid(&mut g, seat, 0).unwrap();
    }
    g.apply(Move { seat: 0, action: Action::DeclareTrump(Suit::Spades) }).unwrap();
    let before = snapshot(&g);
    assert!(g.apply(Move { seat: 0, action: Action::Discard(cards(&["QC"])) }).is_err());
    assert!(g.apply(Move { seat: 2, action: Action::Discard(cards(&["2C"])) }).is_err());
    assert!(g.apply(Move { seat: 7, action: Action::Discard(vec![]) }).is_err());
    assert_eq!(snapshot(&g), before);
}

#[test]
fn deal_from_a_given_deck() {
    let mut g = GameState::new_hand(9, GameConfig::four_player(), 0);
    let deck = standard_deck();
    g.deal_from_deck(&deck);
    // Round robin: seat 0 takes positions 0, 4, 8, 12, 16, then the hand is sorted.
    assert_eq!(g.hand(0).to_vec(), cards(&["2C", "6C", "10C", "AC", "5D"]));
    assert_eq!(g.hand(1).to_vec(), cards(&["3C", "7C", "JC", "2D", "6D"]));
    assert_eq!(g.kitty().to_vec(), cards(&["9D", "10D", "JD"]));
    assert_eq!(g.deck_remainder().len(), 29);
    assert_eq!(g.deck_remainder()[0], c("QD"));
    assert_eq!(g.hands_played(), 2);
    assert_eq!(g.phase(), Phase::Bidding);
    assert!(conserved(&g));
}

fn sorted_by_position(h: &[Card]) -> bool {
    h.windows(2).all(|w| (w[0].suit as u8, w[0].rank as u8) < (w[1].suit as u8, w[1].rank as u8))
}

#[test]
fn tricks_follow_turn_order_and_hands_stay_sorted() {
    for seed in 0u64..10 {
        let mut g = GameState::new_hand(seed, GameConfig::four_player(), (seed % 4) as u8);
        let dealer = g.dealer();
        // Bidding goes clockwise from the dealer's left.
        for i in 1..=4u8 {
            assert_eq!(g.to_act(), Some((dealer + i) % 4));
            bid(&mut g, (dealer + i) % 4, 0).unwrap();
        }
        assert_eq!(g.winning_bid().unwrap().seat, dealer);
        assert_eq!(g.to_act(), g.bidder());
        g.apply(Move { seat: dealer, action: Action::DeclareTrump(Suit::Clubs) }).unwrap();
        let trump = g.trump().unwrap();
        let mut drop: Vec<Card> = g.hand(dealer).iter().copied().filter(|c| !f45_engine::ranker::is_trump(*c, trump)).take(3).collect();
        let more: Vec<Card> = g.hand(dealer).iter().copied().filter(|c| f45_engine::ranker::is_trump(*c, trump)).take(3 - drop.len()).collect();
        drop.extend(more);
        g.apply(Move { seat: dealer, action: Action::Discard(drop) }).unwrap();
        for seat in 0..4u8 {
            if seat != dealer {
                g.apply(Move { seat, action: Action::Discard(vec![]) }).unwrap();
            }
        }
        while g.phase() == Phase::Play {
            for seat in 0..4u8 {
                assert!(sorted_by_position(g.hand(seat)));
            }
            let seat = g.to_act().unwrap();
            let a = g.legal_actions(seat)[0].clone();
            g.apply(Move { seat, action: a }).unwrap();
        }
        let tricks = g.completed_tricks();
        assert_eq!(tricks.len(), 5);
        let mut leader = dealer;
        for t in tricks {
            assert_eq!(t.leader, leader);
            assert_eq!(t.plays[0].0, t.leader);
            for (i, (s, _)) in t.plays.iter().enumerate() {
                assert_eq!(*s, (t.leader + i as u8) % 4);
            }
            let played: Vec<Card> = t.plays.iter().map(|(_, c)| *c).collect();
            let w = f45_engine::rules::winning_index(&played, trump);
            assert_eq!(t.winner, t.plays[w].0);
            leader = t.winner;
        }
    }
}

#[test]
fn unicode_white_space_is_trimmed() {
    assert_eq!("\u{a0}ah\u{2003}".parse::<Card>(), Ok(Card::new(Suit::Hearts, Rank::Ace)));
    assert_eq!(Suit::parse_label("\u{3000} spades\t"), Some(Suit::Spades));
}
