//! Properties of the state machine that span its operations: the invariant
//! `wf` (card conservation, sorted hands, hand sizes, turn order included)
//! holds after every move and every deal; a refused move changes nothing; the
//! legal actions listed are exactly the moves accepted, and the seat on turn
//! always has one; no internal error arises beyond a seat out of range; the
//! bidding goes once round clockwise from the dealer's left; the discard pile
//! grows only by accepted discards; a scored hand has five tricks played in
//! turn order, with 30 hand points when a trump was played (25 otherwise).

use vstd::prelude::*;
use vstd::multiset::Multiset;
use crate::error::EngineError;
use crate::cards::{canonical_deck, lemma_standard_deck_complete, Card, Suit};
use crate::ranker::{strength_of, trump_card};
use crate::rules::{lead_suit_of, playable, trick_rank, wins_trick};
use crate::state::{
    advance_bidding, all_cards, all_true, bid_closed, bid_step, cards_conserved, close_bidding,
    count_true, declare_step, hands_cards, hand_points_of, play_cards, play_step, plays_of,
    remove_card, remove_cards, refill_step, discard_step, extra_draw_step, finish_discards,
    resolve_trick, step, ActionModel, cards_at, deck_positions, score_hand, trick_winner, TrickModel, NUM_TRICKS, lemma_count_true_below, next_open_seat, nplayers, open_seat_offset,
    sort_cards, score_room, non_trumps, other_than, hands_sorted, seat_offset, bidding_in_turn, tricks_in_order, trick_in_order, next_leader, staged_model, tricks_shaped, DECK_UNDERFLOW, SEAT_OUT_OF_RANGE, HAND_SIZE, NO_EXTRAS, hand_sizes, refill_cap, has_played, trick_in_turn, tricks_won, trump_played, high_trump_team, is_high_trump, amounts_at_least, bid_amounts, bid_floor, lead_of, legal_actions_of, legal_bid_amounts, valid_bid_amount, valid_deal_input, wf, GameConfig, GameModel, Phase, Seat,
};

verus! {

broadcast use {vstd::seq_lib::group_to_multiset_ensures, vstd::multiset::group_multiset_axioms};

/// Filtering keeps the occurrences of the elements the predicate accepts and
/// drops the others.
pub(crate) broadcast proof fn lemma_filter_count<A>(s: Seq<A>, p: spec_fn(A) -> bool, x: A)
    ensures
        #[trigger] s.filter(p).to_multiset().count(x) == if p(x) {
            s.to_multiset().count(x)
        } else {
            0
        },
    decreases s.len(),
{
    if s.len() == 0 {
        assert(s.filter(p) =~= Seq::<A>::empty());
    } else {
        let t = s.drop_last();
        lemma_filter_count(t, p, x);
        assert(s =~= t.push(s.last()));
        t.lemma_filter_push(s.last(), p);
    }
}

/// In a sequence without duplicates every element occurs once.
pub(crate) proof fn lemma_no_dup_count<A>(s: Seq<A>, x: A)
    requires
        s.no_duplicates(),
    ensures
        s.to_multiset().count(x) == if s.contains(x) {
            1nat
        } else {
            0nat
        },
{
    s.lemma_multiset_has_no_duplicates();
}

/// A sequence in which no element occurs twice has no duplicates.
pub(crate) proof fn lemma_count_le_one_no_dup<A>(s: Seq<A>)
    requires
        forall|x: A| s.to_multiset().count(x) <= 1,
    ensures
        s.no_duplicates(),
{
    s.lemma_multiset_has_no_duplicates_conv();
}

/// Every card occurs once in the canonical deck.
pub(crate) proof fn lemma_deck_count(x: Card)
    ensures
        canonical_deck().to_multiset().count(x) == 1,
{
    lemma_standard_deck_complete();
    lemma_no_dup_count(canonical_deck(), x);
}

/// Sorting a hand without duplicates keeps its cards.
pub(crate) proof fn lemma_sort_cards_multiset(s: Seq<Card>)
    requires
        s.no_duplicates(),
    ensures
        sort_cards(s).to_multiset() == s.to_multiset(),
{
    assert forall|x: Card| #[trigger] sort_cards(s).to_multiset().count(x) == s.to_multiset().count(x) by {
        broadcast use lemma_filter_count;

        assert(sort_cards(s).to_multiset().count(x) == if s.contains(x) {
            canonical_deck().to_multiset().count(x)
        } else {
            0
        });
        lemma_deck_count(x);
        lemma_no_dup_count(s, x);
    }
    assert(sort_cards(s).to_multiset() =~= s.to_multiset());
}

/// Replacing one hand changes the union of the hands by exactly that hand.
pub(crate) proof fn lemma_hands_cards_update(h: Seq<Seq<Card>>, i: int, t: Seq<Card>)
    requires
        0 <= i < h.len(),
    ensures
        hands_cards(h.update(i, t)).add(h[i].to_multiset()) == hands_cards(h).add(t.to_multiset()),
    decreases h.len(),
{
    let u = h.update(i, t);
    if i == h.len() - 1 {
        assert(u.drop_last() =~= h.drop_last());
        assert(hands_cards(u) == hands_cards(h.drop_last()).add(t.to_multiset()));
        assert(hands_cards(u).add(h[i].to_multiset()) =~= hands_cards(h).add(t.to_multiset()));
    } else {
        lemma_hands_cards_update(h.drop_last(), i, t);
        assert(u.drop_last() =~= h.drop_last().update(i, t));
        assert(u.last() == h.last());
        assert(h.drop_last()[i] == h[i]);
        let a = hands_cards(h.drop_last().update(i, t));
        let b = hands_cards(h.drop_last());
        assert(hands_cards(u) == a.add(h.last().to_multiset()));
        assert(hands_cards(h) == b.add(h.last().to_multiset()));
        assert(a.add(h[i].to_multiset()) == b.add(t.to_multiset()));
        assert forall|x: Card| #[trigger] hands_cards(u).add(h[i].to_multiset()).count(x) == hands_cards(h).add(t.to_multiset()).count(x) by {
            assert(a.add(h[i].to_multiset()).count(x) == b.add(t.to_multiset()).count(x));
        }
        assert(hands_cards(u).add(h[i].to_multiset()) =~= hands_cards(h).add(t.to_multiset()));
    }
}

/// One hand's cards are part of the union of the hands.
pub(crate) proof fn lemma_hand_in_hands(h: Seq<Seq<Card>>, i: int, x: Card)
    requires
        0 <= i < h.len(),
    ensures
        h[i].to_multiset().count(x) <= hands_cards(h).count(x),
{
    lemma_hands_cards_update(h, i, Seq::empty());
    assert(Seq::<Card>::empty().to_multiset() =~= Multiset::empty());
    let u = hands_cards(h.update(i, Seq::empty()));
    assert(u.add(h[i].to_multiset()).count(x) == hands_cards(h).add(Multiset::empty()).count(x));
}

/// Marking a seat that had not acted raises the count of seats that acted by one.
pub(crate) proof fn lemma_count_true_mark(s: Seq<bool>, i: int)
    requires
        0 <= i < s.len(),
        !s[i],
    ensures
        count_true(s.update(i, true)) == count_true(s) + 1,
{
    vstd::seq_lib::to_multiset_update(s, i, true);
}

/// The clockwise search finds an open seat when one lies at an offset in `k..n`.
pub(crate) proof fn lemma_open_seat_found(acted: Seq<bool>, from: int, k: int, j: int)
    requires
        acted.len() > 0,
        1 <= k <= j < acted.len(),
        !acted[(from + j) % (acted.len() as int)],
    ensures
        k <= open_seat_offset(acted, from, k) <= j,
        !acted[(from + open_seat_offset(acted, from, k)) % (acted.len() as int)],
    decreases acted.len() - k,
{
    if acted[(from + k) % (acted.len() as int)] {
        lemma_open_seat_found(acted, from, k + 1, j);
    }
}

/// When some seat other than `from` has not acted, the next open seat after
/// `from` is a seat of the table that has not acted.
pub(crate) proof fn lemma_next_open_seat(acted: Seq<bool>, from: int)
    requires
        acted.len() == 4 || acted.len() == 6,
        0 <= from < acted.len(),
        acted[from],
        !all_true(acted),
    ensures
        0 <= next_open_seat(acted, from) < acted.len(),
        !acted[next_open_seat(acted, from)],
{
    let n = acted.len() as int;
    let i = choose|i: int| 0 <= i < n && !acted[i];
    let j = if i > from {
        i - from
    } else {
        i - from + n
    };
    assert((from + j) % n == i) by {
        if n == 4 {
            assert((from + j) % 4 == i);
        } else {
            assert((from + j) % 6 == i);
        }
    }
    lemma_open_seat_found(acted, from, 1, j);
}

/// Bidding keeps the invariant.
pub(crate) proof fn lemma_bid_step_wf(m: GameModel, seat: Seat, amount: u8)
    requires
        wf(m),
        m.phase == Phase::Bidding,
    ensures
        wf(bid_step(m, seat, amount).0),
{
    let n = nplayers(m);
    if seat == m.to_act && (amount == 0 || (valid_bid_amount(amount, m.config) && !(match m.current_bid {
        None => false,
        Some(prev) => if seat == m.dealer {
            amount < prev.amount
        } else {
            amount <= prev.amount
        },
    }))) {
        let has1 = m.has_bid_or_passed.update(seat as int, true);
        lemma_count_true_mark(m.has_bid_or_passed, seat as int);
        lemma_count_true_below(m.has_bid_or_passed, seat as int);
        let m1 = if amount == 0 {
            GameModel { has_bid_or_passed: has1, passes: (m.passes + 1) as u8, ..m }
        } else {
            GameModel {
                current_bid: Some(crate::state::Bid { seat, amount }),
                has_bid_or_passed: has1,
                dealer_held: m.dealer_held || (match m.current_bid {
                    None => false,
                    Some(prev) => seat == m.dealer && amount == prev.amount,
                }),
                ..m
            }
        };
        assert(bid_step(m, seat, amount).0 == advance_bidding(m1));
        assert(all_cards(m1) == all_cards(m));
        let d = m.dealer as int;
        let k = count_true(m.has_bid_or_passed) as int;
        lemma_offset_facts(d, k, n);
        assert forall|s: int| 0 <= s < n implies (#[trigger] has1[s]) == (seat_offset(s, d, n) < k + 1) by {
            if s != seat as int {
                assert(has1[s] == m.has_bid_or_passed[s]);
            }
        }
        if !all_true(has1) {
            lemma_next_open_seat(has1, seat as int);
            if k + 1 == n {
                let s = choose|s: int| 0 <= s < has1.len() && !(#[trigger] has1[s]);
                assert(seat_offset(s, d, n) < n);
            }
            let nxt = (d + 2 + k) % n;
            assert(!has1[nxt]);
            assert(crate::state::open_seat_offset(has1, seat as int, 1) == 1);
        }
    }
}

/// Seat arithmetic of the bidding round, for a dealer `d` and `k` seats
/// that have acted.
proof fn lemma_offset_facts(d: int, k: int, n: int)
    requires
        n == 4 || n == 6,
        0 <= d < n,
        0 <= k < n,
    ensures
        seat_offset((d + 1 + k) % n, d, n) == k,
        forall|s: int| 0 <= s < n && #[trigger] seat_offset(s, d, n) == k ==> s == (d + 1 + k) % n,
        forall|s: int| 0 <= s < n ==> 0 <= #[trigger] seat_offset(s, d, n) < n,
        ((d + 1 + k) % n + 1) % n == (d + 2 + k) % n,
        k + 1 < n ==> seat_offset((d + 2 + k) % n, d, n) == k + 1,
{
    if n == 4 {
        assert(seat_offset((d + 1 + k) % n, d, n) == k);
        assert(((d + 1 + k) % n + 1) % n == (d + 2 + k) % n);
        if k + 1 < n {
            assert(seat_offset((d + 2 + k) % n, d, n) == k + 1);
        }
    } else {
        assert(seat_offset((d + 1 + k) % n, d, n) == k);
        assert(((d + 1 + k) % n + 1) % n == (d + 2 + k) % n);
        if k + 1 < n {
            assert(seat_offset((d + 2 + k) % n, d, n) == k + 1);
        }
    }
}

/// Under conservation every card is held exactly once.
pub(crate) proof fn lemma_all_count_one(m: GameModel, x: Card)
    requires
        cards_conserved(m),
    ensures
        all_cards(m).count(x) == 1,
{
    lemma_deck_count(x);
}

/// A hand and the kitty, held together, hold no card twice.
proof fn lemma_hand_plus_no_dup(m: GameModel, i: int, extra: Seq<Card>)
    requires
        cards_conserved(m),
        0 <= i < m.hands.len(),
        extra == m.kitty || extra == m.deck_remainder,
    ensures
        (m.hands[i] + extra).no_duplicates(),
        (m.hands[i] + extra).to_multiset() == m.hands[i].to_multiset().add(extra.to_multiset()),
{
    vstd::seq_lib::lemma_multiset_commutative(m.hands[i], extra);
    assert forall|x: Card| (m.hands[i] + extra).to_multiset().count(x) <= 1 by {
        lemma_hand_in_hands(m.hands, i, x);
        lemma_all_count_one(m, x);
    }
    lemma_count_le_one_no_dup(m.hands[i] + extra);
}

/// Sorting a hand without duplicates keeps its size.
pub(crate) proof fn lemma_sorted_len(s: Seq<Card>)
    requires
        s.no_duplicates(),
    ensures
        sort_cards(s).len() == s.len(),
{
    lemma_sort_cards_multiset(s);
    vstd::seq_lib::to_multiset_len(s);
    vstd::seq_lib::to_multiset_len(sort_cards(s));
}

/// No seat has discarded yet: none is counted.
proof fn lemma_count_true_none(s: Seq<bool>)
    requires
        forall|i: int| 0 <= i < s.len() ==> !(#[trigger] s[i]),
    ensures
        count_true(s) == 0,
{
    assert(!s.contains(true));
}

/// Declaring trump keeps the invariant.
pub(crate) proof fn lemma_declare_step_wf(m: GameModel, seat: Seat, suit: crate::cards::Suit)
    requires
        wf(m),
        m.phase == Phase::DeclareTrump,
    ensures
        wf(declare_step(m, seat, suit).0),
{
    if seat == m.to_act {
        let b = m.bidder.unwrap() as int;
        let hk = m.hands[b] + m.kitty;
        let m2 = declare_step(m, seat, suit).0;
        lemma_hand_plus_no_dup(m, b, m.kitty);
        lemma_sort_cards_multiset(hk);
        lemma_sorted_len(hk);
        lemma_sort_cards_idem(hk);
        lemma_hands_sorted_update(m.hands, b, sort_cards(hk));
        lemma_count_true_none(m.discard_done);
        assert(hand_sizes(m2)) by {
            assert forall|s: int| 0 <= s < nplayers(m) implies (#[trigger] m2.hands[s]).len() == if m2.discard_done[s] {
                5int
            } else if m2.bidder == Some(s as u8) {
                8int
            } else {
                5int
            } by {
                assert(!m.discard_done[s]);
                assert(m.hands[s].len() == 5);
            }
        }
        lemma_hands_cards_update(m.hands, b, sort_cards(hk));
        assert(Seq::<Card>::empty().to_multiset() =~= Multiset::empty());
        assert forall|x: Card| #[trigger] all_cards(m2).count(x) == all_cards(m).count(x) by {
            assert(hands_cards(m2.hands).add(m.hands[b].to_multiset()).count(x) == hands_cards(
                m.hands,
            ).add(sort_cards(hk).to_multiset()).count(x));
        }
        assert(all_cards(m2) =~= all_cards(m));
    }
}

/// Among the first `k` plays, a first strongest one exists.
proof fn lemma_first_max_exists(plays: Seq<Card>, trump: Suit, k: int) -> (w: int)
    requires
        1 <= k <= plays.len(),
    ensures
        0 <= w < k,
        forall|j: int|
            0 <= j < k ==> #[trigger] trick_rank(plays[j], lead_suit_of(plays[0], trump), trump)
                <= trick_rank(plays[w], lead_suit_of(plays[0], trump), trump),
        forall|j: int|
            0 <= j < w ==> #[trigger] trick_rank(plays[j], lead_suit_of(plays[0], trump), trump)
                < trick_rank(plays[w], lead_suit_of(plays[0], trump), trump),
    decreases k,
{
    if k == 1 {
        0
    } else {
        let w0 = lemma_first_max_exists(plays, trump, k - 1);
        let ls = lead_suit_of(plays[0], trump);
        if trick_rank(plays[k - 1], ls, trump) > trick_rank(plays[w0], ls, trump) {
            k - 1
        } else {
            w0
        }
    }
}

/// Every non-empty trick has its winning position.
pub(crate) proof fn lemma_trick_winner_exists(plays: Seq<Card>, trump: Suit)
    requires
        plays.len() > 0,
    ensures
        wins_trick(plays, trump, trick_winner(plays, trump)),
        0 <= trick_winner(plays, trump) < plays.len(),
{
    let w = lemma_first_max_exists(plays, trump, plays.len() as int);
    assert(wins_trick(plays, trump, w));
}

/// The cards of two runs of plays, one after the other.
proof fn lemma_play_cards_add(a: Seq<(Seat, Card)>, b: Seq<(Seat, Card)>)
    ensures
        play_cards(a + b).to_multiset() == play_cards(a).to_multiset().add(play_cards(b).to_multiset()),
{
    assert(play_cards(a + b) =~= play_cards(a) + play_cards(b));
    vstd::seq_lib::lemma_multiset_commutative(play_cards(a), play_cards(b));
}

/// Removing a held card from a hand without duplicates removes one occurrence.
proof fn lemma_remove_card_count(hand: Seq<Card>, card: Card, x: Card)
    requires
        hand.no_duplicates(),
        hand.contains(card),
    ensures
        remove_card(hand, card).to_multiset().count(x) + (if x == card {
            1int
        } else {
            0int
        }) == hand.to_multiset().count(x),
{
    broadcast use lemma_filter_count;

    assert(remove_card(hand, card).to_multiset().count(x) == if x != card {
        hand.to_multiset().count(x)
    } else {
        0
    });
    lemma_no_dup_count(hand, x);
}

/// A hand of a conserving state holds no card twice.
pub(crate) proof fn lemma_hand_no_dup(m: GameModel, i: int)
    requires
        cards_conserved(m),
        0 <= i < m.hands.len(),
    ensures
        m.hands[i].no_duplicates(),
{
    assert forall|x: Card| m.hands[i].to_multiset().count(x) <= 1 by {
        lemma_hand_in_hands(m.hands, i, x);
        lemma_all_count_one(m, x);
    }
    lemma_count_le_one_no_dup(m.hands[i]);
}

/// Resolving a full trick keeps the cards where they are counted.
proof fn lemma_resolve_cards(m: GameModel)
    requires
        m.trump is Some,
        m.current_trick.len() > 0,
    ensures
        all_cards(resolve_trick(m)) == all_cards(m),
{
    let trump = m.trump.unwrap();
    let w = trick_winner(play_cards(m.current_trick), trump);
    let t = TrickModel { leader: m.current_trick[0].0, plays: m.current_trick, winner: m.current_trick[w].0 };
    let ts = m.completed_tricks.push(t);
    assert(ts.drop_last() =~= m.completed_tricks);
    assert(plays_of(ts) == plays_of(m.completed_tricks) + m.current_trick);
    lemma_play_cards_add(plays_of(m.completed_tricks), m.current_trick);
    assert(play_cards(Seq::<(Seat, Card)>::empty()) =~= Seq::<Card>::empty());
    assert(Seq::<Card>::empty().to_multiset() =~= Multiset::empty());
    let m1 = GameModel { completed_tricks: ts, current_trick: Seq::empty(), ..m };
    assert(all_cards(m1) =~= all_cards(m));
    if ts.len() == NUM_TRICKS {
        assert(all_cards(score_hand(m1)) == all_cards(m1));
    }
}

/// Playing a held card from a hand without duplicates takes one card out.
proof fn lemma_remove_card_len(hand: Seq<Card>, card: Card)
    requires
        hand.no_duplicates(),
        hand.contains(card),
    ensures
        remove_card(hand, card).len() + 1 == hand.len(),
{
    let h1 = remove_card(hand, card);
    assert forall|x: Card| #[trigger] h1.to_multiset().insert(card).count(x) == hand.to_multiset().count(x) by {
        lemma_remove_card_count(hand, card, x);
    }
    assert(h1.to_multiset().insert(card) =~= hand.to_multiset());
    vstd::seq_lib::to_multiset_len(h1);
    vstd::seq_lib::to_multiset_len(hand);
}

/// The seat on turn has not played to the trick on the table yet; once every
/// other seat has played to it, each of them has.
proof fn lemma_trick_seats(ct: Seq<(Seat, Card)>, a: int, n: int)
    requires
        n == 4 || n == 6,
        0 <= a < n,
        ct.len() < n,
        trick_in_turn(ct, a, n),
    ensures
        !has_played(ct, a),
        ct.len() + 1 == n ==> forall|s: int| 0 <= s < n && s != a ==> has_played(ct, s),
{
    let len = ct.len() as int;
    assert forall|i: int| 0 <= i < len implies (#[trigger] ct[i]).0 != a by {
        let k = n - len + i;
        assert(0 < k < n);
        assert(ct[i].0 == (a + k) % n);
        if a + k < n {
            assert((a + k) % n == a + k);
        } else {
            assert((a + k) % n == a + k - n);
        }
    }
    if len + 1 == n {
        assert forall|s: int| 0 <= s < n && s != a implies has_played(ct, s) by {
            let i = if s > a {
                s - a - 1
            } else {
                s - a - 1 + n
            };
            assert(0 <= i < len);
            assert(ct[i].0 == (a + 1 + i) % n);
            if s > a {
                assert((a + 1 + i) % n == s);
            } else {
                assert((a + 1 + i) % n == s);
            }
        }
    }
}

/// A play by the seat on turn extends the trick in turn order.
proof fn lemma_trick_push(ct: Seq<(Seat, Card)>, a: int, n: int, card: Card)
    requires
        n == 4 || n == 6,
        0 <= a < n,
        ct.len() < n,
        trick_in_turn(ct, a, n),
    ensures
        trick_in_turn(ct.push((a as u8, card)), (a + 1) % n, n),
{
    let len = ct.len() as int;
    let ct1 = ct.push((a as u8, card));
    let a1 = (a + 1) % n;
    assert forall|i: int| 0 <= i < ct1.len() implies (#[trigger] ct1[i]).0 == (a1 + n - ct1.len() + i) % n by {
        if i < len {
            assert(ct1[i] == ct[i]);
            if a + 1 < n {
                assert(a1 == a + 1);
            } else {
                assert(a1 == 0);
                assert((a + n - len + i) % n == (n - len - 1 + i) % n);
            }
        } else {
            if a + 1 < n {
                assert(a1 == a + 1);
                assert((a + n) % n == a);
            } else {
                assert(a1 == 0);
            }
        }
    }
}

/// A play that does not complete the trick keeps the next leader in place.
proof fn lemma_order_push(a: int, n: int, len: int, lead: int)
    requires
        n == 4 || n == 6,
        0 <= a < n,
        0 <= len,
        len + 1 < n,
        (a + n - len) % n == lead,
    ensures
        ((a + 1) % n + n - (len + 1)) % n == lead,
{
    if a + 1 < n {
        assert((a + 1) % n == a + 1);
    } else {
        assert((a + 1) % n == 0);
        assert((a + n - len) % n == (n - len - 1) % n);
    }
}

/// A completed trick, played in turn from the seat due to lead, is in order
/// and extends the chain of leaders.
proof fn lemma_order_resolve(
    tricks: Seq<TrickModel>,
    ct1: Seq<(Seat, Card)>,
    a: int,
    n: int,
    trump: Suit,
    bidder: Seat,
)
    requires
        n == 4 || n == 6,
        0 <= a < n,
        ct1.len() == n,
        trick_in_turn(ct1, (a + 1) % n, n),
        (a + n - (n - 1)) % n == next_leader(tricks, bidder),
        tricks_in_order(tricks, n, trump, bidder),
    ensures
        ({
            let w = trick_winner(play_cards(ct1), trump);
            let t = TrickModel { leader: ct1[0].0, plays: ct1, winner: ct1[w].0 };
            &&& tricks_in_order(tricks.push(t), n, trump, bidder)
            &&& next_leader(tricks.push(t), bidder) == t.winner
        }),
{
    let w = trick_winner(play_cards(ct1), trump);
    let t = TrickModel { leader: ct1[0].0, plays: ct1, winner: ct1[w].0 };
    let a1 = (a + 1) % n;
    assert(ct1[0].0 == (a1 + n - n + 0) % n);
    assert(a1 % n == a1);
    assert(t.leader == a1);
    if a + 1 < n {
        assert(a1 == a + 1);
    } else {
        assert(a1 == 0);
    }
    assert(a1 == (a + n - (n - 1)) % n);
    assert forall|i: int| 0 <= i < ct1.len() implies (#[trigger] ct1[i]).0 == (t.leader + i) % n by {
        assert(ct1[i].0 == (a1 + n - n + i) % n);
    }
    assert(trick_in_order(t, n, trump));
    let ts = tricks.push(t);
    assert forall|k: int| 0 <= k < ts.len() implies trick_in_order(#[trigger] ts[k], n, trump) by {
        if k < tricks.len() {
            assert(ts[k] == tricks[k]);
        }
    }
    assert forall|k: int| 0 <= k < ts.len() implies (#[trigger] ts[k]).leader == next_leader(ts.take(k), bidder) by {
        if k < tricks.len() {
            assert(ts[k] == tricks[k]);
            assert(ts.take(k) =~= tricks.take(k));
        } else {
            assert(ts.take(k) =~= tricks);
        }
    }
}

/// Playing a card keeps the invariant.
#[verifier::spinoff_prover]
#[verifier::rlimit(40)]
pub(crate) proof fn lemma_play_step_wf(m: GameModel, seat: Seat, card: Card)
    requires
        wf(m),
        m.phase == Phase::Play,
    ensures
        wf(play_step(m, seat, card).0),
{
    let n = nplayers(m);
    if seat == m.to_act {
        let trump = m.trump.unwrap();
        let hand = m.hands[seat as int];
        if hand.contains(card) && crate::rules::playable(hand, card, crate::state::lead_of(m.current_trick), trump) {
            let h1 = remove_card(hand, card);
            let ct1 = m.current_trick.push((seat, card));
            let m1 = GameModel { hands: m.hands.update(seat as int, h1), current_trick: ct1, ..m };
            lemma_hand_no_dup(m, seat as int);
            lemma_hands_cards_update(m.hands, seat as int, h1);
            assert(play_cards(ct1) =~= play_cards(m.current_trick).push(card));
            assert forall|x: Card| #[trigger] all_cards(m1).count(x) == all_cards(m).count(x) by {
                lemma_remove_card_count(hand, card, x);
                assert(hands_cards(m1.hands).add(hand.to_multiset()).count(x) == hands_cards(
                    m.hands,
                ).add(h1.to_multiset()).count(x));
            }
            assert(all_cards(m1) =~= all_cards(m));
            let a = seat as int;
            let ct = m.current_trick;
            let len = ct.len() as int;
            lemma_trick_seats(ct, a, n);
            lemma_remove_card_len(hand, card);
            lemma_remove_card_sorted(hand, card);
            lemma_hands_sorted_update(m.hands, a, h1);
            lemma_trick_push(ct, a, n, card);
            assert forall|s: int| 0 <= s < n implies #[trigger] has_played(ct1, s) == (has_played(ct, s) || s == a) by {
                if has_played(ct, s) {
                    let i = choose|i: int| 0 <= i < ct.len() && (#[trigger] ct[i]).0 == s;
                    assert(ct1[i] == ct[i]);
                }
                if s == a {
                    assert(ct1[len].0 == a);
                }
                if has_played(ct1, s) {
                    let i = choose|i: int| 0 <= i < ct1.len() && (#[trigger] ct1[i]).0 == s;
                    if i < len {
                        assert(ct1[i] == ct[i]);
                    }
                }
            }
            assert forall|s: int| 0 <= s < n implies (#[trigger] m1.hands[s]).len() + (if has_played(ct1, s) {
                1int
            } else {
                0int
            }) == NUM_TRICKS - m.completed_tricks.len() by {
                if s != a {
                    assert(m1.hands[s] == m.hands[s]);
                }
            }
            if ct1.len() == n {
                lemma_order_resolve(m.completed_tricks, ct1, a, n, trump, m.bidder.unwrap());
                assert forall|s: int| 0 <= s < n implies (#[trigger] m1.hands[s]).len() + 1 == NUM_TRICKS - m.completed_tricks.len() by {
                    assert(has_played(ct1, s));
                }
                lemma_resolve_cards(m1);
                lemma_trick_winner_exists(play_cards(ct1), trump);
                let w = trick_winner(play_cards(ct1), trump);
                assert(ct1[w].0 < n);
                assert(ct1[0].0 < n);
                let t = TrickModel { leader: ct1[0].0, plays: ct1, winner: ct1[w].0 };
                assert(tricks_shaped(m.completed_tricks.push(t), n)) by {
                    assert forall|k: int| 0 <= k < m.completed_tricks.len() + 1 implies {
                        let tk = #[trigger] m.completed_tricks.push(t)[k];
                        tk.plays.len() == n && tk.leader < n && tk.winner < n
                    } by {
                        if k < m.completed_tricks.len() {
                            assert(m.completed_tricks.push(t)[k] == m.completed_tricks[k]);
                        }
                    }
                }
                assert((ct1[w].0 + n - 0) % n == ct1[w].0);
            } else {
                lemma_order_push(a, n, len, next_leader(m.completed_tricks, m.bidder.unwrap()) as int);
            }
        }
    }
}

/// Removing listed cards, all held, from a hand without duplicates.
proof fn lemma_remove_cards_count(hand: Seq<Card>, cards: Seq<Card>, x: Card)
    requires
        hand.no_duplicates(),
        cards.no_duplicates(),
        forall|i: int| 0 <= i < cards.len() ==> hand.contains(#[trigger] cards[i]),
    ensures
        remove_cards(hand, cards).to_multiset().count(x) + cards.to_multiset().count(x)
            == hand.to_multiset().count(x),
{
    broadcast use lemma_filter_count;

    assert(remove_cards(hand, cards).to_multiset().count(x) == if !cards.contains(x) {
        hand.to_multiset().count(x)
    } else {
        0
    });
    lemma_no_dup_count(hand, x);
    lemma_no_dup_count(cards, x);
}

/// The deck remainder of a conserving state holds no card twice, and shares
/// no card with any hand.
proof fn lemma_deck_disjoint(m: GameModel, i: int, x: Card)
    requires
        cards_conserved(m),
        0 <= i < m.hands.len(),
    ensures
        m.hands[i].to_multiset().count(x) + m.deck_remainder.to_multiset().count(x) <= 1,
{
    lemma_hand_in_hands(m.hands, i, x);
    lemma_all_count_one(m, x);
}

/// Removing listed cards, all held, from a hand without duplicates leaves
/// the other cards.
proof fn lemma_remove_cards_len(hand: Seq<Card>, cards: Seq<Card>)
    requires
        hand.no_duplicates(),
        cards.no_duplicates(),
        forall|i: int| 0 <= i < cards.len() ==> hand.contains(#[trigger] cards[i]),
    ensures
        remove_cards(hand, cards).len() + cards.len() == hand.len(),
        remove_cards(hand, cards).no_duplicates(),
{
    let kept = remove_cards(hand, cards);
    assert forall|x: Card| #[trigger] kept.to_multiset().add(cards.to_multiset()).count(x) == hand.to_multiset().count(x) by {
        lemma_remove_cards_count(hand, cards, x);
    }
    assert(kept.to_multiset().add(cards.to_multiset()) =~= hand.to_multiset());
    vstd::seq_lib::to_multiset_len(kept);
    vstd::seq_lib::to_multiset_len(cards);
    vstd::seq_lib::to_multiset_len(hand);
    assert forall|x: Card| kept.to_multiset().count(x) <= 1 by {
        lemma_remove_cards_count(hand, cards, x);
        lemma_no_dup_count(hand, x);
    }
    lemma_count_le_one_no_dup(kept);
}

/// After every seat has discarded, the hand-over to the dealer's extra draw or
/// to play keeps the invariant.
proof fn lemma_finish_discards_wf(m: GameModel)
    requires
        wf(m),
        m.phase == Phase::Discard,
    ensures
        wf(finish_discards(m)),
{
    let n = nplayers(m);
    if all_true(m.discard_done) {
        assert forall|s: int| 0 <= s < n implies (#[trigger] m.hands[s]).len() == 5 by {
            assert(m.discard_done[s]);
        }
        if n == 6 && m.deck_remainder.len() > 0 {
            let d = m.dealer as int;
            let hd = m.hands[d] + m.deck_remainder;
            let m2 = finish_discards(m);
            lemma_hand_plus_no_dup(m, d, m.deck_remainder);
            lemma_sort_cards_multiset(hd);
            lemma_sorted_len(hd);
            lemma_sort_cards_idem(hd);
            lemma_hands_sorted_update(m.hands, d, sort_cards(hd));
            lemma_hands_cards_update(m.hands, d, sort_cards(hd));
            assert(Seq::<Card>::empty().to_multiset() =~= Multiset::empty());
            assert forall|x: Card| #[trigger] all_cards(m2).count(x) == all_cards(m).count(x) by {
                assert(hands_cards(m2.hands).add(m.hands[d].to_multiset()).count(x) == hands_cards(
                    m.hands,
                ).add(sort_cards(hd).to_multiset()).count(x));
            }
            assert(all_cards(m2) =~= all_cards(m));
            assert forall|s: int| 0 <= s < n && s != m2.dealer implies (#[trigger] m2.hands[s]).len() == HAND_SIZE by {
                assert(m2.hands[s] == m.hands[s]);
            }
        } else {
            let m2 = finish_discards(m);
            assert forall|s: int| 0 <= s < n implies (#[trigger] m2.hands[s]).len() + (if has_played(m2.current_trick, s) {
                1int
            } else {
                0int
            }) == NUM_TRICKS - m2.completed_tricks.len() by {
                assert(m.hands[s].len() == 5);
            }
        }
    }
}

/// A validated discard keeps the invariant, the refill included; the deck
/// remainder always holds the cards the refill draws.
proof fn lemma_refill_wf(m: GameModel, seat: Seat, cards: Seq<Card>)
    requires
        wf(m),
        m.phase == Phase::Discard,
        seat < m.hands.len(),
        !m.discard_done[seat as int],
        cards.no_duplicates(),
        forall|i: int| 0 <= i < cards.len() ==> m.hands[seat as int].contains(#[trigger] cards[i]),
        cards.len() <= m.hands[seat as int].len(),
        m.hands[seat as int].len() > 5 ==> cards.len() >= m.hands[seat as int].len() - 5,
        nplayers(m) == 6 ==> cards.len() <= 3,
    ensures
        wf(refill_step(m, seat, cards).0),
        refill_step(m, seat, cards).1 is Ok,
{
    let n = nplayers(m);
    let s = seat as int;
    let hand = m.hands[s];
    let kept = remove_cards(hand, cards);
    let deck = m.deck_remainder;
    let need: int = if kept.len() < 5 {
        5 - kept.len()
    } else {
        0
    };
    lemma_hand_no_dup(m, s);
    lemma_remove_cards_len(hand, cards);
    vstd::seq_lib::lemma_multiset_commutative(m.discarded, cards);
    assert(Seq::<Card>::empty().to_multiset() =~= Multiset::empty());
    assert(kept.len() <= 5 && need == 5 - kept.len());
    assert(need <= refill_cap(n));
    crate::state::lemma_count_true_below(m.discard_done, s);
    let ct = count_true(m.discard_done);
    assert(refill_cap(n) * (n - ct) >= refill_cap(n)) by (nonlinear_arith)
        requires
            ct < n,
            refill_cap(n) >= 0,
    ;
    assert(deck.len() >= need);
    let lo = deck.subrange(0, deck.len() - need);
    let hi = deck.subrange(deck.len() - need, deck.len() as int);
    let drawn = hi.reverse();
    let h1 = kept + drawn;
    assert(deck =~= lo + hi);
    vstd::seq_lib::lemma_multiset_commutative(lo, hi);
    hi.lemma_reverse_to_multiset();
    vstd::seq_lib::lemma_multiset_commutative(kept, drawn);
    assert forall|x: Card| h1.to_multiset().count(x) <= 1 by {
        lemma_remove_cards_count(hand, cards, x);
        lemma_deck_disjoint(m, s, x);
    }
    lemma_count_le_one_no_dup(h1);
    lemma_sort_cards_multiset(h1);
    lemma_sorted_len(h1);
    lemma_sort_cards_idem(h1);
    lemma_hands_sorted_update(m.hands, s, sort_cards(h1));
    lemma_hands_cards_update(m.hands, s, sort_cards(h1));
    let m1 = GameModel {
        hands: m.hands.update(s, sort_cards(h1)),
        deck_remainder: lo,
        discarded: m.discarded + cards,
        discard_done: m.discard_done.update(s, true),
        ..m
    };
    assert forall|x: Card| #[trigger] all_cards(m1).count(x) == all_cards(m).count(x) by {
        lemma_remove_cards_count(hand, cards, x);
        assert(hands_cards(m1.hands).add(hand.to_multiset()).count(x) == hands_cards(m.hands).add(
            sort_cards(h1).to_multiset(),
        ).count(x));
    }
    assert(all_cards(m1) =~= all_cards(m));
    crate::laws::lemma_count_true_mark(m.discard_done, s);
    assert(refill_cap(n) * (n - ct) - refill_cap(n) == refill_cap(n) * (n - (ct + 1))) by (nonlinear_arith);
    assert(hand_sizes(m1)) by {
        assert forall|k: int| 0 <= k < n implies (#[trigger] m1.hands[k]).len() == if m1.discard_done[k] {
            5int
        } else if m1.bidder == Some(k as u8) {
            8int
        } else {
            5int
        } by {
            if k != s {
                assert(m1.hands[k] == m.hands[k]);
                assert(m1.discard_done[k] == m.discard_done[k]);
            }
        }
    }
    lemma_finish_discards_wf(m1);
}

/// Discarding keeps the invariant.
pub(crate) proof fn lemma_discard_step_wf(m: GameModel, seat: Seat, cards: Seq<Card>)
    requires
        wf(m),
        m.phase == Phase::Discard,
    ensures
        wf(discard_step(m, seat, cards).0),
        discard_step(m, seat, cards).1 != Err::<(), EngineError>(EngineError::Invariant(DECK_UNDERFLOW)),
{
    if seat < m.hands.len() && !m.discard_done[seat as int] {
        let hand = m.hands[seat as int];
        let hs = hand.len() as int;
        let required = if hs > 5 {
            hs - 5
        } else {
            0
        };
        let nd = cards.len() as int;
        if !(nd < required || nd > hs) && !(nplayers(m) == 6 && nd > 3) && !(exists|i: int|
            0 <= i < cards.len() && !hand.contains(#[trigger] cards[i])) && cards.no_duplicates() {
            lemma_refill_wf(m, seat, cards);
        }
    }
}

/// The dealer's extra-draw discard keeps the invariant.
pub(crate) proof fn lemma_extra_draw_step_wf(m: GameModel, seat: Seat, cards: Seq<Card>)
    requires
        wf(m),
        m.phase == Phase::DealerExtraDraw,
    ensures
        wf(extra_draw_step(m, seat, cards).0),
        extra_draw_step(m, seat, cards).1 != Err::<(), EngineError>(EngineError::Invariant(NO_EXTRAS)),
{
    let s = seat as int;
    if seat == m.dealer {
        let hand = m.hands[s];
        if hand.len() > 5 && cards.len() == hand.len() - 5 && !(exists|i: int|
            0 <= i < cards.len() && !hand.contains(#[trigger] cards[i])) && cards.no_duplicates() {
            let kept = remove_cards(hand, cards);
            let m2 = extra_draw_step(m, seat, cards).0;
            lemma_hand_no_dup(m, s);
            lemma_remove_cards_len(hand, cards);
            lemma_sorted_len(kept);
            lemma_sort_cards_idem(kept);
            lemma_hands_sorted_update(m.hands, s, sort_cards(kept));
            let n = nplayers(m);
            assert forall|k: int| 0 <= k < n implies (#[trigger] m2.hands[k]).len() + (if has_played(m2.current_trick, k) {
                1int
            } else {
                0int
            }) == NUM_TRICKS - m2.completed_tricks.len() by {
                if k != s {
                    assert(m2.hands[k] == m.hands[k]);
                }
            }
            assert forall|x: Card| kept.to_multiset().count(x) <= 1 by {
                lemma_remove_cards_count(hand, cards, x);
                lemma_no_dup_count(hand, x);
            }
            lemma_count_le_one_no_dup(kept);
            lemma_sort_cards_multiset(kept);
            lemma_hands_cards_update(m.hands, s, sort_cards(kept));
            vstd::seq_lib::lemma_multiset_commutative(m.discarded, cards);
            assert forall|x: Card| #[trigger] all_cards(m2).count(x) == all_cards(m).count(x) by {
                lemma_remove_cards_count(hand, cards, x);
                assert(hands_cards(m2.hands).add(hand.to_multiset()).count(x) == hands_cards(
                    m.hands,
                ).add(sort_cards(kept).to_multiset()).count(x));
            }
            assert(all_cards(m2) =~= all_cards(m));
        }
    }
}

/// Every move, accepted or rejected, leaves a well-formed state well formed:
/// in particular each of the 52 cards stays held exactly once.
pub proof fn lemma_step_preserves_wf(m: GameModel, seat: Seat, a: ActionModel)
    requires
        wf(m),
    ensures
        wf(step(m, seat, a).0),
{
    match (m.phase, a) {
        (Phase::Bidding, ActionModel::Bid { amount }) => lemma_bid_step_wf(m, seat, amount),
        (Phase::DeclareTrump, ActionModel::DeclareTrump(suit)) => lemma_declare_step_wf(m, seat, suit),
        (Phase::Discard, ActionModel::Discard(cards)) => lemma_discard_step_wf(m, seat, cards),
        (Phase::DealerExtraDraw, ActionModel::Discard(cards)) => lemma_extra_draw_step_wf(m, seat, cards),
        (Phase::Play, ActionModel::Play(card)) => lemma_play_step_wf(m, seat, card),
        _ => {},
    }
}

/// Looking positions up in the canonical deck: a card occurs as often as its position.
pub(crate) proof fn lemma_cards_at_count(order: Seq<u8>, x: Card)
    requires
        forall|k: int| 0 <= k < order.len() ==> order[k] < 52,
    ensures
        cards_at(order).to_multiset().count(x) == order.to_multiset().count(x.position() as u8),
    decreases order.len(),
{
    crate::cards::lemma_card_position(x);
    if order.len() > 0 {
        let t = order.drop_last();
        lemma_cards_at_count(t, x);
        assert(order =~= t.push(order.last()));
        assert(cards_at(order) =~= cards_at(t).push(canonical_deck()[order.last() as int]));
        crate::cards::lemma_position_of_at(order.last() as int);
        lemma_standard_deck_complete();
    }
}

/// Each position 0..52 occurs once among the deck positions.
pub(crate) proof fn lemma_positions_count(x: Card)
    ensures
        deck_positions().to_multiset().count(x.position() as u8) == 1,
{
    crate::cards::lemma_card_position(x);
    let p = x.position();
    assert(deck_positions()[p] == p as u8);
    assert(deck_positions().no_duplicates());
    lemma_no_dup_count(deck_positions(), p as u8);
}

/// Hands that hold the same cards seat by seat hold the same cards together.
proof fn lemma_hands_cards_pointwise(h1: Seq<Seq<Card>>, h2: Seq<Seq<Card>>)
    requires
        h1.len() == h2.len(),
        forall|s: int| 0 <= s < h1.len() ==> (#[trigger] h1[s]).to_multiset() == h2[s].to_multiset(),
    ensures
        hands_cards(h1) == hands_cards(h2),
    decreases h1.len(),
{
    if h1.len() > 0 {
        lemma_hands_cards_pointwise(h1.drop_last(), h2.drop_last());
        assert(h1[h1.len() - 1].to_multiset() == h2[h2.len() - 1].to_multiset());
    }
}

/// Hands of `k` cards each hold `k` cards per hand together.
proof fn lemma_hands_cards_len(h: Seq<Seq<Card>>, k: int)
    requires
        forall|s: int| 0 <= s < h.len() ==> (#[trigger] h[s]).len() == k,
    ensures
        hands_cards(h).len() == k * h.len(),
    decreases h.len(),
{
    if h.len() > 0 {
        lemma_hands_cards_len(h.drop_last(), k);
        vstd::seq_lib::to_multiset_len(h.last());
        assert(k * (h.len() - 1) + k == k * h.len()) by (nonlinear_arith);
    }
}

/// A deal that `from_state` accepts gives a well-formed state.
pub(crate) proof fn lemma_staged_wf(
    hands: Seq<Seq<Card>>,
    kitty: Seq<Card>,
    deck_remainder: Seq<Card>,
    config: GameConfig,
    dealer: Seat,
)
    requires
        valid_deal_input(hands, kitty, deck_remainder, config, dealer),
    ensures
        wf(staged_model(hands, kitty, deck_remainder, config, dealer)),
{
    let m = staged_model(hands, kitty, deck_remainder, config, dealer);
    let total = hands_cards(hands).add(kitty.to_multiset()).add(deck_remainder.to_multiset());
    assert forall|s: int| 0 <= s < hands.len() implies (#[trigger] m.hands[s]).to_multiset()
        == hands[s].to_multiset() && m.hands[s].len() == 5 && sort_cards(m.hands[s]) == m.hands[s] by {
        assert forall|x: Card| hands[s].to_multiset().count(x) <= 1 by {
            lemma_hand_in_hands(hands, s, x);
            lemma_deck_count(x);
            assert(total.count(x) == 1);
        }
        lemma_count_le_one_no_dup(hands[s]);
        lemma_sort_cards_multiset(hands[s]);
        lemma_sorted_len(hands[s]);
        lemma_sort_cards_idem(hands[s]);
    }
    lemma_hands_cards_len(hands, 5);
    vstd::seq_lib::to_multiset_len(kitty);
    vstd::seq_lib::to_multiset_len(deck_remainder);
    vstd::seq_lib::to_multiset_len(canonical_deck());
    lemma_hands_cards_pointwise(m.hands, hands);
    assert(play_cards(Seq::<(Seat, Card)>::empty()) =~= Seq::<Card>::empty());
    assert(Seq::<Card>::empty().to_multiset() =~= Multiset::empty());
    assert(all_cards(m) =~= total);
    let n = config.num_players as int;
    assert(m.to_act < n);
    assert(!m.has_bid_or_passed[m.to_act as int]);
    assert(total.len() == 52);
    assert(hands_cards(hands).len() == 5 * n);
    assert(m.deck_remainder.len() == 52 - 5 * n - 3);
    assert(hand_sizes(m));
}

/// A filtered sequence holds exactly the elements that the predicate accepts.
proof fn lemma_filter_contains_iff<A>(s: Seq<A>, p: spec_fn(A) -> bool, x: A)
    ensures
        s.filter(p).contains(x) <==> s.contains(x) && p(x),
{
    if s.filter(p).contains(x) {
        s.lemma_filter_contains_rev(p, x);
        let i = choose|i: int| 0 <= i < s.filter(p).len() && s.filter(p)[i] == x;
        s.lemma_filter_pred(p, i);
    }
    if s.contains(x) && p(x) {
        let i = choose|i: int| 0 <= i < s.len() && s[i] == x;
        s.lemma_filter_contains(p, i);
    }
}

/// The amounts a configuration allows are the valid bid amounts.
proof fn lemma_bid_amounts(config: GameConfig, amount: u8)
    ensures
        bid_amounts(config).contains(amount) <==> valid_bid_amount(amount, config),
{
    let b = bid_amounts(config);
    if valid_bid_amount(amount, config) {
        if amount == 15 {
            assert(b[0] == amount);
        } else if amount == 20 {
            assert(b[1] == amount);
        } else if amount == 25 {
            assert(b[2] == amount);
        } else if amount == 30 {
            assert(b[3] == amount);
        } else {
            assert(b[4] == amount);
        }
    }
}

/// While bidding, the seat on turn may bid an amount exactly when the bid
/// listing offers it.
proof fn lemma_bid_listed(m: GameModel, seat: Seat, amount: u8)
    requires
        wf(m),
        m.phase == Phase::Bidding,
        seat == m.to_act,
    ensures
        legal_bid_amounts(m, seat).contains(amount) <==> bid_step(m, seat, amount).1 is Ok,
{
    let above = amounts_at_least(bid_amounts(m.config), bid_floor(m, seat));
    let la = legal_bid_amounts(m, seat);
    assert(la == seq![0u8] + above);
    lemma_filter_contains_iff(bid_amounts(m.config), |a: u8| a as int >= bid_floor(m, seat), amount);
    lemma_bid_amounts(m.config, amount);
    if amount == 0 {
        assert(la[0] == 0);
    } else {
        assert(la.contains(amount) <==> above.contains(amount)) by {
            if la.contains(amount) {
                let i = choose|i: int| 0 <= i < la.len() && la[i] == amount;
                assert(above[i - 1] == amount);
            }
            if above.contains(amount) {
                let i = choose|i: int| 0 <= i < above.len() && above[i] == amount;
                assert(la[i + 1] == amount);
            }
        }
    }
}

/// The legal actions are exactly the moves that are accepted. While bidding,
/// declaring trump or playing, an action of `seat` succeeds if and only if
/// the legal actions list it; in every phase a listed action succeeds.
pub proof fn lemma_legal_actions_accepted(m: GameModel, seat: Seat, a: ActionModel)
    requires
        wf(m),
    ensures
        legal_actions_of(m, seat).contains(a) ==> step(m, seat, a).1 is Ok,
        (m.phase == Phase::Bidding || m.phase == Phase::DeclareTrump || m.phase == Phase::Play)
            && step(m, seat, a).1 is Ok ==> legal_actions_of(m, seat).contains(a),
{
    let legal = legal_actions_of(m, seat);
    if seat == m.to_act {
        match m.phase {
            Phase::Bidding => {
                let la = legal_bid_amounts(m, seat);
                if legal.contains(a) {
                    let i = choose|i: int| 0 <= i < legal.len() && legal[i] == a;
                    assert(legal[i] == ActionModel::Bid { amount: la[i] });
                    lemma_bid_listed(m, seat, la[i]);
                }
                if let ActionModel::Bid { amount } = a {
                    lemma_bid_listed(m, seat, amount);
                    if step(m, seat, a).1 is Ok {
                        let j = choose|j: int| 0 <= j < la.len() && la[j] == amount;
                        assert(legal[j] == a);
                    }
                }
            },
            Phase::DeclareTrump => {
                if let ActionModel::DeclareTrump(suit) = a {
                    match suit {
                        Suit::Clubs => assert(legal[0] == a),
                        Suit::Diamonds => assert(legal[1] == a),
                        Suit::Hearts => assert(legal[2] == a),
                        Suit::Spades => assert(legal[3] == a),
                    }
                }
            },
            Phase::Play => {
                let hand = m.hands[seat as int];
                let lead = lead_of(m.current_trick);
                let trump = m.trump.unwrap();
                let lc = crate::rules::legal_cards(hand, lead, trump);
                if legal.contains(a) {
                    let i = choose|i: int| 0 <= i < legal.len() && legal[i] == a;
                    assert(legal[i] == ActionModel::Play(lc[i]));
                    assert(lc.contains(lc[i]));
                    lemma_filter_contains_iff(hand, |c: Card| playable(hand, c, lead, trump), lc[i]);
                }
                if let ActionModel::Play(card) = a {
                    lemma_filter_contains_iff(hand, |c: Card| playable(hand, c, lead, trump), card);
                    if step(m, seat, a).1 is Ok {
                        let j = choose|j: int| 0 <= j < lc.len() && lc[j] == card;
                        assert(legal[j] == a);
                    }
                }
            },
            _ => {},
        }
    }
}

/// Every trick is won by one of the two teams.
proof fn lemma_tricks_won_total(tricks: Seq<TrickModel>)
    ensures
        tricks_won(tricks, 0) + tricks_won(tricks, 1) == tricks.len(),
        0 <= tricks_won(tricks, 0) <= tricks.len(),
        0 <= tricks_won(tricks, 1) <= tricks.len(),
    decreases tricks.len(),
{
    if tricks.len() > 0 {
        lemma_tricks_won_total(tricks.drop_last());
    }
}

/// When a trump was played, some play holds the highest trump.
proof fn lemma_high_trump_exists(ps: Seq<(Seat, Card)>, trump: Suit)
    requires
        exists|j: int| 0 <= j < ps.len() && #[trigger] trump_card(ps[j].1, trump),
    ensures
        exists|i: int| is_high_trump(ps, trump, i),
    decreases ps.len(),
{
    let last = ps.len() - 1;
    let pre = ps.drop_last();
    if exists|j: int| 0 <= j < pre.len() && #[trigger] trump_card(pre[j].1, trump) {
        lemma_high_trump_exists(pre, trump);
        let i0 = choose|i: int| is_high_trump(pre, trump, i);
        assert forall|j: int| 0 <= j < last implies #[trigger] ps[j] == pre[j] by {}
        if trump_card(ps[last].1, trump) && strength_of(ps[last].1, trump) > strength_of(pre[i0].1, trump) {
            assert forall|j: int| 0 <= j < last && #[trigger] trump_card(ps[j].1, trump) implies strength_of(
                ps[j].1,
                trump,
            ) < strength_of(ps[last].1, trump) by {
                assert(trump_card(pre[j].1, trump));
            }
            assert(is_high_trump(ps, trump, last));
        } else {
            assert forall|j: int| 0 <= j < ps.len() && #[trigger] trump_card(ps[j].1, trump) implies strength_of(
                ps[j].1,
                trump,
            ) <= strength_of(ps[i0].1, trump) by {
                if j < last {
                    assert(trump_card(pre[j].1, trump));
                }
            }
            assert forall|j: int| 0 <= j < i0 && #[trigger] trump_card(ps[j].1, trump) implies strength_of(
                ps[j].1,
                trump,
            ) < strength_of(ps[i0].1, trump) by {
                assert(trump_card(pre[j].1, trump));
            }
            assert(is_high_trump(ps, trump, i0));
        }
    } else {
        let j = choose|j: int| 0 <= j < ps.len() && #[trigger] trump_card(ps[j].1, trump);
        assert forall|k: int| 0 <= k < last implies !trump_card(#[trigger] ps[k].1, trump) by {
            assert(ps[k] == pre[k]);
            if trump_card(ps[k].1, trump) {
                assert(trump_card(pre[k].1, trump));
            }
        }
        assert(j == last);
        assert(is_high_trump(ps, trump, last));
    }
}

/// Hand points: 5 for each trick, to the team that won it, and 5 more when a
/// trump was played, to the team that played the highest one.
pub proof fn lemma_hand_points_total(tricks: Seq<TrickModel>, trump: Suit)
    requires
        tricks.len() <= NUM_TRICKS,
    ensures
        hand_points_of(tricks, trump)[0] + hand_points_of(tricks, trump)[1] == 5 * tricks.len()
            + if trump_played(tricks, trump) {
            5int
        } else {
            0int
        },
        high_trump_team(tricks, trump) is Some <==> trump_played(tricks, trump),
{
    lemma_tricks_won_total(tricks);
    let ps = plays_of(tricks);
    if trump_played(tricks, trump) {
        lemma_high_trump_exists(ps, trump);
    }
    let bonus = high_trump_team(tricks, trump);
    if bonus is Some {
        let i = choose|i: int| is_high_trump(ps, trump, i);
        assert(bonus == Some((ps[i].0 % 2) as int));
        assert(trump_card(ps[i].1, trump));
    }
}

/// A scored hand: five tricks of one card per seat, each played clockwise
/// from its leader and won by the seat of its winning card; the bidder led
/// the first trick and each winner led the next; the hand points total 30
/// when a trump was played and 25 when none was.
pub proof fn lemma_scored_hand(m: GameModel)
    requires
        wf(m),
        m.phase == Phase::HandComplete || m.phase == Phase::GameOver,
    ensures
        m.completed_tricks.len() == NUM_TRICKS,
        tricks_shaped(m.completed_tricks, nplayers(m)),
        tricks_in_order(m.completed_tricks, nplayers(m), m.trump.unwrap(), m.bidder.unwrap()),
        m.hand_points[0] + m.hand_points[1] == if trump_played(m.completed_tricks, m.trump.unwrap()) {
            30int
        } else {
            25int
        },
{
    lemma_hand_points_total(m.completed_tricks, m.trump.unwrap());
}

/// The seat on turn always has a legal action while bidding (a pass at
/// least), declaring trump (any suit) or playing (a card of its hand, which
/// is never empty while tricks remain).
pub proof fn lemma_legal_actions_available(m: GameModel)
    requires
        wf(m),
        m.phase == Phase::Bidding || m.phase == Phase::DeclareTrump || m.phase == Phase::Play,
    ensures
        legal_actions_of(m, m.to_act).len() > 0,
        m.phase == Phase::Play ==> m.hands[m.to_act as int].len() == NUM_TRICKS - m.completed_tricks.len(),
{
    if m.phase == Phase::Play {
        let n = nplayers(m);
        let a = m.to_act as int;
        lemma_trick_seats(m.current_trick, a, n);
        assert(m.hands[a].len() + 0 == NUM_TRICKS - m.completed_tricks.len());
        crate::rules::lemma_some_move_is_legal(m.hands[a], lead_of(m.current_trick), m.trump.unwrap());
    }
}

/// A well-formed state never answers a move with an internal error other than
/// a seat out of range: the deck always covers the refills, and the 6-player
/// dealer always holds extra cards when the extra draw comes.
pub proof fn lemma_no_internal_errors(m: GameModel, seat: Seat, a: ActionModel)
    requires
        wf(m),
    ensures
        step(m, seat, a).1 matches Err(EngineError::Invariant(msg)) ==> msg == SEAT_OUT_OF_RANGE,
{
    match (m.phase, a) {
        (Phase::Discard, ActionModel::Discard(cards)) => lemma_discard_step_wf(m, seat, cards),
        (Phase::DealerExtraDraw, ActionModel::Discard(cards)) => lemma_extra_draw_step_wf(m, seat, cards),
        _ => {},
    }
}

/// A refused move changes nothing: whenever a well-formed state answers a
/// move with an error, the state is left exactly as it was.
pub proof fn lemma_refused_move_changes_nothing(m: GameModel, seat: Seat, a: ActionModel)
    requires
        wf(m),
    ensures
        step(m, seat, a).1 is Err ==> step(m, seat, a).0 == m,
{
    match (m.phase, a) {
        (Phase::Discard, ActionModel::Discard(cards)) => lemma_discard_step_wf(m, seat, cards),
        _ => {},
    }
}

/// Whose turn it is: a seat at the table; the bidder while trump is being
/// declared; the dealer during the 6-player extra draw.
pub proof fn lemma_turn_owner(m: GameModel)
    requires
        wf(m),
    ensures
        m.to_act < nplayers(m),
        m.phase == Phase::DeclareTrump ==> m.bidder == Some(m.to_act),
        m.phase == Phase::DealerExtraDraw ==> m.to_act == m.dealer,
{
}

/// The discard pile grows only by accepted discards: an accepted discard
/// (in the discard phase or the dealer's extra draw) appends its cards in
/// order, and every other move, accepted or refused, leaves the pile as it was.
pub proof fn lemma_discard_pile(m: GameModel, seat: Seat, a: ActionModel)
    requires
        wf(m),
    ensures
        ({
            let (m2, r) = step(m, seat, a);
            match a {
                ActionModel::Discard(cards) => if r is Ok {
                    m2.discarded == m.discarded + cards
                } else {
                    m2.discarded == m.discarded
                },
                _ => m2.discarded == m.discarded,
            }
        }),
{
    lemma_refused_move_changes_nothing(m, seat, a);
    lemma_step_preserves_wf(m, seat, a);
    match (m.phase, a) {
        (Phase::Play, ActionModel::Play(card)) => {
            let n = nplayers(m);
            if seat == m.to_act && m.current_trick.len() + 1 == n {
                let t = m.trump.unwrap();
                let m1 = GameModel {
                    hands: m.hands.update(seat as int, remove_card(m.hands[seat as int], card)),
                    current_trick: m.current_trick.push((seat, card)),
                    ..m
                };
                assert(resolve_trick(m1).discarded == m.discarded);
            }
        },
        _ => {},
    }
}

/// Sorting depends only on which cards a sequence holds.
pub(crate) proof fn lemma_sort_cards_ext(x: Seq<Card>, y: Seq<Card>)
    requires
        forall|c: Card| x.contains(c) <==> y.contains(c),
    ensures
        sort_cards(x) == sort_cards(y),
{
    let fx = |c: Card| x.contains(c);
    let fy = |c: Card| y.contains(c);
    assert(fx =~= fy);
    assert(sort_cards(x) == canonical_deck().filter(fx));
    assert(sort_cards(y) == canonical_deck().filter(fy));
}

/// A sorted sequence holds exactly the cards of what was sorted.
pub(crate) proof fn lemma_sort_cards_contains(x: Seq<Card>, c: Card)
    ensures
        sort_cards(x).contains(c) <==> x.contains(c),
{
    lemma_standard_deck_complete();
    lemma_filter_contains_iff(canonical_deck(), |d: Card| x.contains(d), c);
}

/// Sorting a sorted sequence changes nothing.
pub(crate) proof fn lemma_sort_cards_idem(x: Seq<Card>)
    ensures
        sort_cards(sort_cards(x)) == sort_cards(x),
{
    assert forall|c: Card| sort_cards(x).contains(c) <==> x.contains(c) by {
        lemma_sort_cards_contains(x, c);
    }
    lemma_sort_cards_ext(sort_cards(x), x);
}

/// Filtering twice is filtering once by both predicates.
proof fn lemma_filter_filter<A>(s: Seq<A>, p: spec_fn(A) -> bool, q: spec_fn(A) -> bool)
    ensures
        s.filter(p).filter(q) == s.filter(|x: A| p(x) && q(x)),
    decreases s.len(),
{
    broadcast use vstd::seq_lib::group_filter_ensures;

    let pq = |x: A| p(x) && q(x);
    if s.len() == 0 {
        assert(s.filter(p) =~= Seq::<A>::empty());
        assert(s.filter(pq) =~= Seq::<A>::empty());
        assert(s.filter(p).filter(q) =~= Seq::<A>::empty());
    } else {
        let t = s.drop_last();
        let e = s.last();
        assert(s =~= t.push(e));
        lemma_filter_filter(t, p, q);
        t.lemma_filter_push(e, p);
        t.lemma_filter_push(e, pq);
        t.filter(p).lemma_filter_push(e, q);
    }
}

/// Taking a card out of a sorted hand leaves it sorted.
pub(crate) proof fn lemma_remove_card_sorted(h: Seq<Card>, card: Card)
    requires
        sort_cards(h) == h,
    ensures
        sort_cards(remove_card(h, card)) == remove_card(h, card),
{
    let fh = |c: Card| h.contains(c);
    let ne = other_than(card);
    let r = remove_card(h, card);
    assert(h == canonical_deck().filter(fh));
    assert(r == h.filter(ne));
    lemma_filter_filter(canonical_deck(), fh, ne);
    assert forall|c: Card| r.contains(c) <==> h.contains(c) && c != card by {
        lemma_filter_contains_iff(h, ne, c);
    }
    let fr = |c: Card| r.contains(c);
    let fhne = |c: Card| fh(c) && ne(c);
    assert(fr =~= fhne);
    assert(sort_cards(r) == canonical_deck().filter(fr));
}

/// Putting a sorted hand in place of one keeps every hand sorted.
pub(crate) proof fn lemma_hands_sorted_update(hands: Seq<Seq<Card>>, i: int, h: Seq<Card>)
    requires
        hands_sorted(hands),
        0 <= i < hands.len(),
        sort_cards(h) == h,
    ensures
        hands_sorted(hands.update(i, h)),
{
    assert forall|s: int| 0 <= s < hands.len() implies sort_cards(#[trigger] hands.update(i, h)[s])
        == hands.update(i, h)[s] by {
        if s != i {
            assert(hands.update(i, h)[s] == hands[s]);
        }
    }
}

/// Positions strictly increase along `s`.
pub open spec fn increasing_positions(s: Seq<Card>) -> bool {
    forall|i: int, j: int| 0 <= i < j < s.len() ==> (#[trigger] s[i]).position() < (#[trigger] s[j]).position()
}

/// Filtering keeps positions increasing.
proof fn lemma_filter_increasing(s: Seq<Card>, p: spec_fn(Card) -> bool)
    requires
        increasing_positions(s),
    ensures
        increasing_positions(s.filter(p)),
    decreases s.len(),
{
    broadcast use vstd::seq_lib::group_filter_ensures;

    if s.len() == 0 {
        assert(s.filter(p) =~= Seq::<Card>::empty());
    } else {
        let t = s.drop_last();
        let e = s.last();
        assert(s =~= t.push(e));
        assert(increasing_positions(t));
        lemma_filter_increasing(t, p);
        t.lemma_filter_push(e, p);
        if p(e) {
            let f = t.filter(p).push(e);
            assert forall|i: int, j: int| 0 <= i < j < f.len() implies (#[trigger] f[i]).position() < (#[trigger] f[j]).position() by {
                if j < f.len() - 1 {
                    assert(f[i] == t.filter(p)[i] && f[j] == t.filter(p)[j]);
                } else {
                    let x = t.filter(p)[i];
                    assert(t.filter(p).contains(x));
                    t.lemma_filter_contains_rev(p, x);
                    let k = choose|k: int| 0 <= k < t.len() && t[k] == x;
                    assert(s[k] == x && s[s.len() - 1] == e);
                }
            }
        }
    }
}

/// Every hand of a well-formed state is in canonical order: by suit, then by
/// rank, each card once, positions strictly increasing.
pub proof fn lemma_hands_in_order(m: GameModel, s: int)
    requires
        wf(m),
        0 <= s < m.hands.len(),
    ensures
        increasing_positions(m.hands[s]),
        m.hands[s] == sort_cards(m.hands[s]),
{
    assert forall|i: int, j: int| 0 <= i < j < canonical_deck().len() implies (#[trigger] canonical_deck()[i]).position()
        < (#[trigger] canonical_deck()[j]).position() by {
        crate::cards::lemma_position_of_at(i);
        crate::cards::lemma_position_of_at(j);
    }
    let h = m.hands[s];
    lemma_filter_increasing(canonical_deck(), |c: Card| h.contains(c));
}

/// The bidding round: with `k` seats acted, seat `dealer + 1 + k` (mod the
/// table size) is on turn, so the i-th accepted bid is by the i-th seat
/// clockwise from the dealer's left. An accepted bid marks one more seat;
/// after the dealer, the last seat, bidding closes on the current bid (or a
/// forced 15 by the dealer when all passed), whose seat becomes the bidder
/// and is on turn to declare trump.
pub proof fn lemma_bidding_round(m: GameModel, seat: Seat, amount: u8)
    requires
        wf(m),
        m.phase == Phase::Bidding,
    ensures
        ({
            let n = nplayers(m);
            let k = count_true(m.has_bid_or_passed) as int;
            let (m2, r) = bid_step(m, seat, amount);
            &&& k < n
            &&& m.to_act == (m.dealer + 1 + k) % n
            &&& (r is Ok && k + 1 < n) ==> m2.phase == Phase::Bidding && count_true(m2.has_bid_or_passed) == k + 1
                && m2.to_act == (m.dealer + 2 + k) % n
            &&& (r is Ok && k + 1 == n) ==> {
                let bid = match m2.current_bid {
                    Some(b) => b,
                    None => crate::state::Bid { seat: m.dealer, amount: 15 },
                };
                &&& m2.phase == Phase::DeclareTrump
                &&& m2.bidding_closed_bid == Some(bid)
                &&& m2.bidder == Some(bid.seat)
                &&& m2.to_act == bid.seat
                &&& m2.is_30_for_60 == (bid.amount == 60)
            }
        }),
{
    let n = nplayers(m);
    let d = m.dealer as int;
    let k = count_true(m.has_bid_or_passed) as int;
    lemma_count_true_below(m.has_bid_or_passed, m.to_act as int);
    lemma_bid_step_wf(m, seat, amount);
    lemma_offset_facts(d, k, n);
    let (m2, r) = bid_step(m, seat, amount);
    if r is Ok {
        let has1 = m.has_bid_or_passed.update(seat as int, true);
        lemma_count_true_mark(m.has_bid_or_passed, seat as int);
        assert forall|s: int| 0 <= s < n implies (#[trigger] has1[s]) == (seat_offset(s, d, n) < k + 1) by {
            if s != seat as int {
                assert(has1[s] == m.has_bid_or_passed[s]);
            }
        }
        if k + 1 == n {
            assert(all_true(has1));
        } else {
            assert(!has1[(d + 2 + k) % n]);
            assert(!all_true(has1));
        }
    }
}

/// How a scored hand settles the bid. With `hp` the hand points and `bt` the
/// bidder's team: a 30-for-60 bid is made exactly when the team took all 30
/// points, and then scores 60, else it costs 60 and a set; any other bid is
/// made exactly when the team's points reach the bid, and then scores those
/// points, else it costs the bid amount and a set. The other team always
/// scores its own hand points.
pub proof fn lemma_bid_settlement(m: GameModel)
    requires
        m.trump is Some,
        m.bidding_closed_bid is Some,
        m.bidding_closed_bid.unwrap().amount <= 60,
        m.completed_tricks.len() == NUM_TRICKS,
        score_room(m),
    ensures
        ({
            let hp = hand_points_of(m.completed_tricks, m.trump.unwrap());
            let bid = m.bidding_closed_bid.unwrap();
            let bt = (bid.seat % 2) as int;
            let ot = 1 - bt;
            let m2 = score_hand(m);
            &&& 0 <= hp[bt] <= 30
            &&& m.is_30_for_60 ==> m2.bid_made == Some(hp[bt] == 30)
            &&& m.is_30_for_60 && hp[bt] == 30 ==> m2.scores[bt] == m.scores[bt] + 60 && m2.sets == m.sets
            &&& m.is_30_for_60 && hp[bt] < 30 ==> m2.scores[bt] == m.scores[bt] - 60 && m2.sets[bt]
                == m.sets[bt] + 1 && m2.sets[ot] == m.sets[ot]
            &&& !m.is_30_for_60 ==> m2.bid_made == Some(hp[bt] >= bid.amount)
            &&& !m.is_30_for_60 && hp[bt] >= bid.amount ==> m2.scores[bt] == m.scores[bt] + hp[bt] && m2.sets
                == m.sets
            &&& !m.is_30_for_60 && hp[bt] < bid.amount ==> m2.scores[bt] == m.scores[bt] - bid.amount
                && m2.sets[bt] == m.sets[bt] + 1 && m2.sets[ot] == m.sets[ot]
            &&& m2.scores[ot] == m.scores[ot] + hp[ot]
            &&& m2.hand_points == hp
        }),
{
    let ts = m.completed_tricks;
    let trump = m.trump.unwrap();
    lemma_hand_points_total(ts, trump);
    lemma_tricks_won_total(ts);
}

/// The bidder's trump-keeper rule. For a discard by the bidder that is
/// otherwise valid (held cards, none twice, a count the variant allows): it
/// is refused with `InvalidDiscard` exactly when it contains a trump while
/// the hand holds at least as many non-trumps as the cards the bidder must
/// drop (those above five), and accepted otherwise.
pub proof fn lemma_trump_keeper(m: GameModel, seat: Seat, cards: Seq<Card>)
    requires
        wf(m),
        m.phase == Phase::Discard,
        m.bidder == Some(seat),
        !m.discard_done[seat as int],
        cards.no_duplicates(),
        forall|i: int| 0 <= i < cards.len() ==> m.hands[seat as int].contains(#[trigger] cards[i]),
        m.hands[seat as int].len() - 5 <= cards.len() <= m.hands[seat as int].len(),
        nplayers(m) == 6 ==> cards.len() <= 3,
    ensures
        ({
            let hand = m.hands[seat as int];
            let trump = m.trump.unwrap();
            let r = step(m, seat, ActionModel::Discard(cards)).1;
            let drops_trump = exists|i: int| 0 <= i < cards.len() && #[trigger] trump_card(cards[i], trump);
            &&& drops_trump && non_trumps(hand, trump).len() >= hand.len() - 5 ==> r == Err::<(), EngineError>(
                EngineError::InvalidDiscard,
            )
            &&& !(drops_trump && non_trumps(hand, trump).len() >= hand.len() - 5) ==> r is Ok
        }),
{
    let hand = m.hands[seat as int];
    assert(hand.len() == 8);
    assert(!(exists|i: int| 0 <= i < cards.len() && !hand.contains(#[trigger] cards[i])));
    lemma_refill_wf(m, seat, cards);
}

/// When a scored hand ends the game: a team with three sets loses at once
/// (team 0 is checked first); otherwise the game ends only when the bidder's
/// team made its bid and reached the target score, and that team wins; a
/// non-bidding team reaching the target does not end it.
pub proof fn lemma_game_over_rule(m: GameModel)
    requires
        m.trump is Some,
        m.bidding_closed_bid is Some,
        m.bidding_closed_bid.unwrap().amount <= 60,
        m.completed_tricks.len() == NUM_TRICKS,
        score_room(m),
    ensures
        ({
            let bt = (m.bidding_closed_bid.unwrap().seat % 2) as int;
            let m2 = score_hand(m);
            &&& m2.sets[0] >= 3 ==> m2.phase == Phase::GameOver && m2.winner == Some(1u8)
            &&& m2.sets[0] < 3 && m2.sets[1] >= 3 ==> m2.phase == Phase::GameOver && m2.winner == Some(0u8)
            &&& m2.sets[0] < 3 && m2.sets[1] < 3 ==> {
                let over = m2.bid_made == Some(true) && m2.scores[bt] >= m.config.target_score;
                &&& (m2.phase == Phase::GameOver) == over
                &&& over ==> m2.winner == Some(bt as u8)
                &&& !over ==> m2.phase == Phase::HandComplete && m2.winner == m.winner
            }
        }),
{
}

} // verus!
