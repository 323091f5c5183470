use f45_engine::cards::{Card, Suit};
use f45_engine::error::EngineError;
use f45_engine::ranker::is_trump;
use f45_engine::state::{team_of, Action, GameConfig, GameState, Move, Phase, HAND_SIZE, KITTY_SIZE, NUM_TRICKS};

fn make(seed: u64) -> GameState {
    GameState::new_hand(seed, GameConfig::four_player(), 0)
}

#[test]
fn new_hand_deals_correctly() {
    let g = make(42);
    assert_eq!(g.phase(), Phase::Bidding);
    assert_eq!(g.to_act(), Some(1));
    for seat in 0..4 {
        assert_eq!(g.hand(seat).len(), HAND_SIZE);
    }
    assert_eq!(g.kitty().len(), KITTY_SIZE);
    assert_eq!(g.deck_remainder.len(), 29);
}

#[test]
fn new_hand_is_deterministic() {
    let g1 = make(42);
    let g2 = make(42);
    for seat in 0..4 {
        assert_eq!(g1.hand(seat), g2.hand(seat));
    }
    assert_eq!(g1.kitty(), g2.kitty());
}

#[test]
fn all_pass_forces_dealer_fifteen() {
    let mut g = make(42);
    for seat in [1u8, 2, 3, 0] {
        g.apply(Move { seat, action: Action::Bid { amount: 0 } }).unwrap();
    }
    assert_eq!(g.phase(), Phase::DeclareTrump);
    let bid = g.winning_bid().unwrap();
    assert_eq!(bid.seat, 0);
    assert_eq!(bid.amount, 15);
}

#[test]
fn dealer_can_hold() {
    let mut g = make(42);
    g.apply(Move { seat: 1, action: Action::Bid { amount: 20 } }).unwrap();
    g.apply(Move { seat: 2, action: Action::Bid { amount: 0 } }).unwrap();
    g.apply(Move { seat: 3, action: Action::Bid { amount: 0 } }).unwrap();
    g.apply(Move { seat: 0, action: Action::Bid { amount: 20 } }).unwrap();
    assert_eq!(g.phase(), Phase::DeclareTrump);
    let bid = g.winning_bid().unwrap();
    assert_eq!(bid.seat, 0);
    assert_eq!(bid.amount, 20);
}

#[test]
fn non_dealer_cannot_hold() {
    let mut g = make(42);
    g.apply(Move { seat: 1, action: Action::Bid { amount: 20 } }).unwrap();
    let err = g.apply(Move { seat: 2, action: Action::Bid { amount: 20 } });
    assert_eq!(err, Err(EngineError::InvalidBid));
}

#[test]
fn bid_must_be_valid_amount() {
    let mut g = make(42);
    let err = g.apply(Move { seat: 1, action: Action::Bid { amount: 17 } });
    assert_eq!(err, Err(EngineError::InvalidBid));
}

#[test]
fn not_your_turn_rejected() {
    let mut g = make(42);
    let err = g.apply(Move { seat: 2, action: Action::Bid { amount: 20 } });
    assert_eq!(err, Err(EngineError::NotYourTurn));
}

#[test]
fn full_hand_play_through() {
    let mut g = make(12345);

    g.apply(Move { seat: 1, action: Action::Bid { amount: 15 } }).unwrap();
    g.apply(Move { seat: 2, action: Action::Bid { amount: 0 } }).unwrap();
    g.apply(Move { seat: 3, action: Action::Bid { amount: 0 } }).unwrap();
    g.apply(Move { seat: 0, action: Action::Bid { amount: 0 } }).unwrap();
    assert_eq!(g.winning_bid().unwrap().seat, 1);
    assert_eq!(g.winning_bid().unwrap().amount, 15);

    g.apply(Move { seat: 1, action: Action::DeclareTrump(Suit::Spades) }).unwrap();
    assert_eq!(g.phase(), Phase::Discard);
    assert_eq!(g.hand(1).len(), 5 + KITTY_SIZE);

    let trump = Suit::Spades;
    let bidder_hand = g.hand(1).to_vec();
    let mut non_trumps: Vec<Card> = bidder_hand.iter().copied().filter(|c| !is_trump(*c, trump)).collect();
    non_trumps.truncate(3);
    assert!(non_trumps.len() >= 3, "bidder needs 3 non-trumps to discard");
    g.apply(Move { seat: 1, action: Action::Discard(non_trumps) }).unwrap();

    for seat in [0u8, 2, 3] {
        g.apply(Move { seat, action: Action::Discard(vec![]) }).unwrap();
    }
    assert_eq!(g.phase(), Phase::Play);

    for _ in 0..NUM_TRICKS {
        for _ in 0..4 {
            let seat = g.to_act().unwrap();
            let legal = g.legal_actions(seat);
            let action = legal.into_iter().next().expect("at least one legal play");
            g.apply(Move { seat, action }).unwrap();
        }
    }

    assert_eq!(g.phase(), Phase::HandComplete);
    let hp = g.hand_points();
    assert_eq!(hp[0] + hp[1], 30, "hand points sum to 30 (25 tricks + 5 high-trump)");

    let bidder_team = team_of(g.winning_bid().unwrap().seat) as usize;
    let other_team = 1 - bidder_team;
    let bidder_pts = hp[bidder_team];
    let expected_bidder_score = if bidder_pts >= 15 { bidder_pts } else { -15 };
    assert_eq!(g.scores()[bidder_team], expected_bidder_score);
    assert_eq!(g.scores()[other_team], hp[other_team]);
}

#[test]
fn thirty_for_sixty_is_a_valid_bid() {
    let mut g = make(42);
    g.apply(Move { seat: 1, action: Action::Bid { amount: 60 } }).unwrap();
    g.apply(Move { seat: 2, action: Action::Bid { amount: 0 } }).unwrap();
    g.apply(Move { seat: 3, action: Action::Bid { amount: 0 } }).unwrap();
    g.apply(Move { seat: 0, action: Action::Bid { amount: 60 } }).unwrap();
    assert_eq!(g.winning_bid().unwrap().amount, 60);
    assert!(g.is_30_for_60());
    assert_eq!(g.winning_bid().unwrap().seat, 0);
}

#[test]
fn thirty_for_sixty_disabled_rejects_bid() {
    let mut cfg = GameConfig::four_player();
    cfg.enable_30_for_60 = false;
    let mut g = GameState::new_hand(42, cfg, 0);
    let err = g.apply(Move { seat: 1, action: Action::Bid { amount: 60 } });
    assert_eq!(err, Err(EngineError::InvalidBid));
}

#[test]
fn bid_fail_records_a_set() {
    let mut g = make(42);
    g.sets = [2, 0];
    g.phase = Phase::HandComplete;
    g.sets[0] = 3;
    g.winner = Some(1);
    g.phase = Phase::GameOver;
    assert_eq!(g.winner(), Some(1));
    assert_eq!(g.phase(), Phase::GameOver);
}

#[test]
fn next_hand_rotates_dealer_and_resets_per_hand_state() {
    let mut g = make(42);
    for seat in [1u8, 2, 3, 0] {
        g.apply(Move { seat, action: Action::Bid { amount: 0 } }).unwrap();
    }
    g.apply(Move { seat: 0, action: Action::DeclareTrump(Suit::Spades) }).unwrap();
    let drop: Vec<Card> = g.hand(0).iter().copied().filter(|c| !is_trump(*c, Suit::Spades)).take(3).collect();
    g.apply(Move { seat: 0, action: Action::Discard(drop) }).unwrap();
    for seat in [1u8, 2, 3] {
        g.apply(Move { seat, action: Action::Discard(vec![]) }).unwrap();
    }
    while g.phase() != Phase::HandComplete && g.phase() != Phase::GameOver {
        let seat = g.to_act().unwrap();
        let action = g.legal_actions(seat).into_iter().next().unwrap();
        g.apply(Move { seat, action }).unwrap();
    }
    if g.phase() == Phase::GameOver {
        return;
    }
    let dealer_before = g.dealer();
    let scores_before = g.scores();
    g.next_hand(99).unwrap();
    assert_eq!(g.dealer(), (dealer_before + 1) % 4);
    assert_eq!(g.phase(), Phase::Bidding);
    assert_eq!(g.scores(), scores_before, "scores persist across hands");
}

fn make_six(seed: u64) -> GameState {
    GameState::new_hand(seed, GameConfig::six_player(), 0)
}

#[test]
fn six_player_deals_correctly() {
    let g = make_six(42);
    for seat in 0..6 {
        assert_eq!(g.hand(seat).len(), HAND_SIZE);
    }
    assert_eq!(g.kitty().len(), KITTY_SIZE);
    assert_eq!(g.deck_remainder().len(), 19);
}

#[test]
fn six_player_non_bidder_discard_capped_at_three() {
    let mut g = make_six(42);
    for seat in [1u8, 2, 3, 4, 5, 0] {
        g.apply(Move { seat, action: Action::Bid { amount: 0 } }).unwrap();
    }
    g.apply(Move { seat: 0, action: Action::DeclareTrump(Suit::Spades) }).unwrap();

    let four: Vec<Card> = g.hand(1).iter().copied().take(4).collect();
    let err = g.apply(Move { seat: 1, action: Action::Discard(four) });
    assert_eq!(err, Err(EngineError::InvalidDiscard));
}

#[test]
fn six_player_bidder_must_discard_exactly_three() {
    let mut g = make_six(42);
    for seat in [1u8, 2, 3, 4, 5, 0] {
        g.apply(Move { seat, action: Action::Bid { amount: 0 } }).unwrap();
    }
    g.apply(Move { seat: 0, action: Action::DeclareTrump(Suit::Spades) }).unwrap();
    let two: Vec<Card> = g.hand(0).iter().copied().filter(|c| !is_trump(*c, Suit::Spades)).take(2).collect();
    let err = g.apply(Move { seat: 0, action: Action::Discard(two) });
    assert_eq!(err, Err(EngineError::InvalidDiscard));
}

#[test]
fn six_player_full_play_through() {
    for seed in 0u64..10 {
        let mut g = make_six(seed);
        g.apply(Move { seat: 1, action: Action::Bid { amount: 15 } }).unwrap();
        for seat in [2u8, 3, 4, 5, 0] {
            g.apply(Move { seat, action: Action::Bid { amount: 0 } }).unwrap();
        }
        g.apply(Move { seat: 1, action: Action::DeclareTrump(Suit::Spades) }).unwrap();

        let trump = Suit::Spades;
        let mut drop: Vec<Card> = g.hand(1).iter().copied().filter(|c| !is_trump(*c, trump)).take(3).collect();
        if drop.len() < 3 {
            let need = 3 - drop.len();
            let trumps: Vec<Card> = g.hand(1).iter().copied().filter(|c| is_trump(*c, trump)).take(need).collect();
            drop.extend(trumps);
        }
        g.apply(Move { seat: 1, action: Action::Discard(drop) }).unwrap();

        for seat in [0u8, 2, 3, 4, 5] {
            g.apply(Move { seat, action: Action::Discard(vec![]) }).unwrap();
        }

        assert_eq!(g.phase(), Phase::DealerExtraDraw, "seed {}", seed);
        let n = g.hand(0).len();
        let extras: Vec<Card> = g.hand(0).iter().copied().take(n - 5).collect();
        g.apply(Move { seat: 0, action: Action::Discard(extras) }).unwrap();

        while g.phase() != Phase::HandComplete && g.phase() != Phase::GameOver {
            let seat = g.to_act().unwrap();
            let action = g.legal_actions(seat).into_iter().next().unwrap();
            g.apply(Move { seat, action }).unwrap();
        }

        let hp = g.hand_points();
        assert_eq!(hp[0] + hp[1], 30, "seed {}: hand points must sum to 30", seed);
        assert_eq!(g.completed_tricks().len(), NUM_TRICKS);
    }
}

#[test]
fn full_hand_trump_and_bonus_invariants_many_seeds() {
    for seed in 0u64..50 {
        let mut g = make(seed);
        g.apply(Move { seat: 1, action: Action::Bid { amount: 15 } }).unwrap();
        g.apply(Move { seat: 2, action: Action::Bid { amount: 0 } }).unwrap();
        g.apply(Move { seat: 3, action: Action::Bid { amount: 0 } }).unwrap();
        g.apply(Move { seat: 0, action: Action::Bid { amount: 0 } }).unwrap();

        g.apply(Move { seat: 1, action: Action::DeclareTrump(Suit::Spades) }).unwrap();

        let trump = Suit::Spades;
        let bidder_hand = g.hand(1).to_vec();
        let mut drop: Vec<Card> = bidder_hand.iter().copied().filter(|c| !is_trump(*c, trump)).take(3).collect();
        if drop.len() < 3 {
            let need = 3 - drop.len();
            let trumps: Vec<Card> = bidder_hand.iter().copied().filter(|c| is_trump(*c, trump)).take(need).collect();
            drop.extend(trumps);
        }
        g.apply(Move { seat: 1, action: Action::Discard(drop) }).unwrap();
        for seat in [0u8, 2, 3] {
            g.apply(Move { seat, action: Action::Discard(vec![]) }).unwrap();
        }

        while g.phase() != Phase::HandComplete {
            let seat = g.to_act().unwrap();
            let legal = g.legal_actions(seat);
            let action = legal.into_iter().next().unwrap();
            g.apply(Move { seat, action }).unwrap();
        }

        let hp = g.hand_points();
        assert_eq!(hp[0] + hp[1], 30, "seed {}: hand points must total 30", seed);
        assert_eq!(g.completed_tricks().len(), NUM_TRICKS);
    }
}
