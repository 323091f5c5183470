use f45_engine::cards::{Card, Rank, Suit};
use f45_engine::ranker::{is_top_trump, is_trump, strength};

fn c(suit: Suit, rank: Rank) -> Card {
    Card::new(suit, rank)
}

#[test]
fn ace_of_hearts_is_always_trump() {
    for trump in Suit::ALL {
        assert!(is_trump(c(Suit::Hearts, Rank::Ace), trump), "AH should be trump when trump = {:?}", trump);
    }
}

#[test]
fn trump_suit_membership() {
    let trump = Suit::Spades;
    assert!(is_trump(c(Suit::Spades, Rank::Two), trump));
    assert!(is_trump(c(Suit::Spades, Rank::King), trump));
    assert!(!is_trump(c(Suit::Clubs, Rank::Ace), trump));
    assert!(!is_trump(c(Suit::Diamonds, Rank::Ace), trump));
    assert!(is_trump(c(Suit::Hearts, Rank::Ace), trump));
    assert!(!is_trump(c(Suit::Hearts, Rank::King), trump));
}

#[test]
fn top_trumps_identification() {
    let trump = Suit::Clubs;
    assert!(is_top_trump(c(Suit::Clubs, Rank::Five), trump));
    assert!(is_top_trump(c(Suit::Clubs, Rank::Jack), trump));
    assert!(is_top_trump(c(Suit::Hearts, Rank::Ace), trump));
    assert!(!is_top_trump(c(Suit::Clubs, Rank::Ace), trump));
    assert!(!is_top_trump(c(Suit::Clubs, Rank::King), trump));
    assert!(!is_top_trump(c(Suit::Hearts, Rank::Five), trump));
}

#[test]
fn bower_ordering_when_trump_not_hearts() {
    let trump = Suit::Spades;
    let s_5 = strength(c(Suit::Spades, Rank::Five), trump);
    let s_j = strength(c(Suit::Spades, Rank::Jack), trump);
    let ah = strength(c(Suit::Hearts, Rank::Ace), trump);
    let as_ = strength(c(Suit::Spades, Rank::Ace), trump);
    let ks = strength(c(Suit::Spades, Rank::King), trump);
    let qs = strength(c(Suit::Spades, Rank::Queen), trump);
    assert!(
        s_5 > s_j && s_j > ah && ah > as_ && as_ > ks && ks > qs,
        "got 5S={s_5} JS={s_j} AH={ah} AS={as_} KS={ks} QS={qs}"
    );
}

#[test]
fn bower_ordering_when_trump_is_hearts() {
    let trump = Suit::Hearts;
    let s_5 = strength(c(Suit::Hearts, Rank::Five), trump);
    let s_j = strength(c(Suit::Hearts, Rank::Jack), trump);
    let ah = strength(c(Suit::Hearts, Rank::Ace), trump);
    let kh = strength(c(Suit::Hearts, Rank::King), trump);
    assert!(s_5 > s_j && s_j > ah && ah > kh);
}

#[test]
fn black_trump_numbers_rank_low_to_high() {
    let trump = Suit::Clubs;
    let two = strength(c(Suit::Clubs, Rank::Two), trump);
    let ten = strength(c(Suit::Clubs, Rank::Ten), trump);
    assert!(two > ten, "2C={two} should beat 10C={ten}");
}

#[test]
fn red_trump_numbers_rank_high_to_low() {
    let trump = Suit::Diamonds;
    let ten = strength(c(Suit::Diamonds, Rank::Ten), trump);
    let two = strength(c(Suit::Diamonds, Rank::Two), trump);
    assert!(ten > two, "10D={ten} should beat 2D={two}");
}

#[test]
fn ace_of_diamonds_lowest_when_non_trump() {
    let trump = Suit::Clubs;
    let ad = strength(c(Suit::Diamonds, Rank::Ace), trump);
    let d2 = strength(c(Suit::Diamonds, Rank::Two), trump);
    assert!(d2 > ad, "2D={d2} should beat AD={ad}");
}

#[test]
fn black_non_trump_ace_ranks_fourth() {
    let trump = Suit::Hearts;
    let kc = strength(c(Suit::Clubs, Rank::King), trump);
    let qc = strength(c(Suit::Clubs, Rank::Queen), trump);
    let jc = strength(c(Suit::Clubs, Rank::Jack), trump);
    let ac = strength(c(Suit::Clubs, Rank::Ace), trump);
    let c10 = strength(c(Suit::Clubs, Rank::Ten), trump);
    let c2 = strength(c(Suit::Clubs, Rank::Two), trump);
    assert!(kc > qc && qc > jc && jc > ac && ac > c10 && c10 > c2);
}

// ---------------------------------------------------------------------------
// Exact strengths
// ---------------------------------------------------------------------------

#[test]
fn exact_strength_values() {
    // Top trumps.
    assert_eq!(strength(c(Suit::Clubs, Rank::Five), Suit::Clubs), 199);
    assert_eq!(strength(c(Suit::Clubs, Rank::Jack), Suit::Clubs), 198);
    assert_eq!(strength(c(Suit::Hearts, Rank::Ace), Suit::Clubs), 197);
    assert_eq!(strength(c(Suit::Clubs, Rank::Ace), Suit::Clubs), 196);
    // A king of trump sits above every number of trump.
    assert_eq!(strength(c(Suit::Clubs, Rank::King), Suit::Clubs), 113);
    // Non-trump: red numbers rank by face, the red ace lowest.
    assert_eq!(strength(c(Suit::Diamonds, Rank::Seven), Suit::Clubs), 7);
}

#[test]
fn every_trump_outranks_every_non_trump() {
    for trump in Suit::ALL {
        for a in f45_engine::cards::standard_deck() {
            for b in f45_engine::cards::standard_deck() {
                if is_trump(a, trump) && !is_trump(b, trump) {
                    assert!(strength(a, trump) > strength(b, trump));
                }
            }
        }
    }
}
