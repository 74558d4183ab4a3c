//! Conservation of cards: in a game that starts from a deal of the 52 cards,
//! every card lies on the board or in exactly one hand.

use crate::card_and_enums::{lemma_rank_roundtrip, Card, NumberEnum, SuitEnum};
use crate::deal::{dealt, dealt_hand, full_deck, is_shuffled_deck, lemma_deal_step, turns_before};
use crate::explorer::{lemma_move, lemma_successors, successors};
use crate::game_board::lemma_board_play_step;
use crate::game_state::{Failure, Position};
use crate::player::{
    cards_held, copies_held, hands_without, lemma_cards_held_without, other_than, same_as,
};
use vstd::arithmetic::div_mod::{lemma_fundamental_div_mod_converse, lemma_small_mod};
use vstd::multiset::Multiset;
use vstd::prelude::*;

verus! {

/// Number of copies of `card` in a hand.
pub open spec fn copies(hand: Seq<Card>, card: Card) -> nat {
    hand.filter(same_as(card)).len()
}

/// Position of a card in the canonical order of the deck.
pub open spec fn deck_index(card: Card) -> int {
    13 * card.suit.index() + card.number.rank() - 1
}

/// A card on top adds one copy of itself and none of another card.
pub proof fn lemma_copies_push(hand: Seq<Card>, top: Card, card: Card)
    ensures
        copies(hand.push(top), card) == copies(hand, card) + (if top == card {
            1nat
        } else {
            0nat
        }),
{
    reveal(Seq::filter);
    assert(hand.push(top).drop_last() =~= hand);
}

/// The copies of a card in a hand are its occurrences in the hand taken as
/// a multiset.
pub proof fn lemma_copies_count(hand: Seq<Card>, card: Card)
    ensures
        copies(hand, card) == hand.to_multiset().count(card),
    decreases hand.len(),
{
    broadcast use vstd::multiset::group_multiset_axioms;

    if hand.len() == 0 {
        reveal(Seq::filter);
        hand.to_multiset_ensures();
        assert(hand.to_multiset().len() == 0);
        assert(hand.to_multiset() =~= Multiset::<Card>::empty());
    } else {
        let rest = hand.drop_last();
        lemma_copies_count(rest, card);
        lemma_copies_push(rest, hand.last(), card);
        assert(rest.push(hand.last()) =~= hand);
        vstd::seq_lib::to_multiset_build(rest, hand.last());
    }
}

/// Every card has its place in the canonical deck, and no other place.
pub proof fn lemma_deck_index(card: Card)
    ensures
        0 <= deck_index(card) < 52,
        full_deck()[deck_index(card)] == card,
        forall|i: int| 0 <= i < 52 && full_deck()[i] == card ==> i == deck_index(card),
{
    lemma_rank_roundtrip(card.number);
    let s = card.suit.index();
    let r = card.number.rank() - 1;
    lemma_fundamental_div_mod_converse(deck_index(card), 13, s, r);
    assert(SuitEnum::at(s) == card.suit);
    assert forall|i: int| 0 <= i < 52 && full_deck()[i] == card implies i == deck_index(card) by {
        let other = full_deck()[i];
        assert(0 <= i / 13 < 4 && 0 <= i % 13 < 13 && i == 13 * (i / 13) + i % 13) by {
            vstd::arithmetic::div_mod::lemma_fundamental_div_mod(i, 13);
            vstd::arithmetic::div_mod::lemma_mod_pos_bound(i, 13);
        }
        assert(SuitEnum::at(i / 13).index() == i / 13);
        assert(NumberEnum::of_rank(i % 13 + 1).rank() == i % 13 + 1);
    }
}

/// The canonical deck holds every card once.
pub proof fn lemma_full_deck_copies(card: Card, k: int)
    requires
        0 <= k <= 52,
    ensures
        copies(full_deck().take(k), card) == (if deck_index(card) < k {
            1nat
        } else {
            0nat
        }),
    decreases k,
{
    if k == 0 {
        reveal(Seq::filter);
        lemma_deck_index(card);
        assert(full_deck().take(0) =~= Seq::<Card>::empty());
    } else {
        lemma_full_deck_copies(card, k - 1);
        lemma_deck_index(card);
        assert(full_deck().take(k) =~= full_deck().take(k - 1).push(full_deck()[k - 1]));
        lemma_copies_push(full_deck().take(k - 1), full_deck()[k - 1], card);
    }
}

/// A shuffled deck has 52 cards and holds every card once.
pub proof fn lemma_shuffled_deck_copies(deck: Seq<Card>, card: Card)
    requires
        is_shuffled_deck(deck),
    ensures
        deck.len() == 52,
        copies(deck, card) == 1,
{
    deck.to_multiset_ensures();
    full_deck().to_multiset_ensures();
    lemma_copies_count(deck, card);
    lemma_copies_count(full_deck(), card);
    lemma_full_deck_copies(card, 52);
    lemma_deck_index(card);
    assert(full_deck().take(52) =~= full_deck());
}

/// The hands before step `k` of the deal of `deck` to `n` seats.
pub open spec fn hands_at(deck: Seq<Card>, n: int, k: int) -> Seq<Seq<Card>> {
    Seq::new(n as nat, |p: int| dealt_hand(deck, n, p, k))
}

/// Empty hands hold no card.
proof fn lemma_copies_held_empty(hands: Seq<Seq<Card>>, card: Card)
    requires
        forall|p: int| 0 <= p < hands.len() ==> (#[trigger] hands[p]).len() == 0,
    ensures
        copies_held(hands, card) == 0,
    decreases hands.len(),
{
    reveal(Seq::filter);
    if hands.len() > 0 {
        assert forall|p: int| 0 <= p < hands.drop_last().len() implies (
        #[trigger] hands.drop_last()[p]).len() == 0 by {
            assert(hands.drop_last()[p] == hands[p]);
        }
        lemma_copies_held_empty(hands.drop_last(), card);
        assert(hands.last() == hands[hands.len() - 1]);
    }
}

/// A card dealt to a seat adds one copy of itself to the cards held, and
/// none of another card.
proof fn lemma_copies_held_push(hands: Seq<Seq<Card>>, p: int, top: Card, card: Card)
    requires
        0 <= p < hands.len(),
    ensures
        copies_held(hands.update(p, hands[p].push(top)), card) == copies_held(hands, card) + (
        if top == card {
            1nat
        } else {
            0nat
        }),
    decreases hands.len(),
{
    let after = hands.update(p, hands[p].push(top));
    if p == hands.len() - 1 {
        assert(after.drop_last() =~= hands.drop_last());
        lemma_copies_push(hands[p], top, card);
    } else {
        assert(after.drop_last() =~= hands.drop_last().update(p, hands.drop_last()[p].push(top)));
        assert(after.last() == hands.last());
        lemma_copies_held_push(hands.drop_last(), p, top, card);
    }
}

/// The first `k` steps of a deal hand out the first `k` cards of the deck.
proof fn lemma_deal_copies(deck: Seq<Card>, n: int, k: int, card: Card)
    requires
        n >= 1,
        0 <= k <= 52 <= deck.len(),
    ensures
        copies_held(hands_at(deck, n, k), card) == copies(deck.take(k), card),
    decreases k,
{
    if k == 0 {
        reveal(Seq::filter);
        lemma_copies_held_empty(hands_at(deck, n, k), card);
        assert(deck.take(0) =~= Seq::<Card>::empty());
    } else {
        let j = k - 1;
        lemma_deal_copies(deck, n, j, card);
        lemma_deal_step(j, n);
        lemma_small_mod(j as nat, 52);
        let before = hands_at(deck, n, j);
        let seat = j % n;
        assert(before[seat].push(deck[j]) =~= dealt_hand(deck, n, seat, k));
        assert(hands_at(deck, n, k) =~= before.update(seat, before[seat].push(deck[j]))) by {
            assert forall|p: int| 0 <= p < n implies hands_at(deck, n, k)[p] == before.update(
                seat,
                before[seat].push(deck[j]),
            )[p] by {
                if p != seat {
                    assert(turns_before(k, n, p) == turns_before(j, n, p));
                    assert(dealt_hand(deck, n, p, k) =~= dealt_hand(deck, n, p, j));
                }
            }
        }
        lemma_copies_held_push(before, seat, deck[j], card);
        assert(deck.take(k) =~= deck.take(j).push(deck[j]));
        lemma_copies_push(deck.take(j), deck[j], card);
    }
}

/// Leaving out a card removes all its copies from a hand and none of
/// another card.
proof fn lemma_copies_without(hand: Seq<Card>, gone: Card, card: Card)
    ensures
        copies(hand.filter(other_than(gone)), card) == (if card == gone {
            0
        } else {
            copies(hand, card)
        }),
    decreases hand.len(),
{
    reveal(Seq::filter);
    if hand.len() > 0 {
        let rest = hand.drop_last();
        lemma_copies_without(rest, gone, card);
        let kept = rest.filter(other_than(gone));
        if hand.last() != gone {
            assert(hand.filter(other_than(gone)) == kept.push(hand.last()));
            lemma_copies_push(kept, hand.last(), card);
        }
    }
}

/// Leaving out a card removes all its copies from the hands and none of
/// another card.
proof fn lemma_copies_held_without(hands: Seq<Seq<Card>>, gone: Card, card: Card)
    ensures
        copies_held(hands_without(hands, gone), card) == (if card == gone {
            0
        } else {
            copies_held(hands, card)
        }),
    decreases hands.len(),
{
    let rest = hands_without(hands, gone);
    if hands.len() > 0 {
        lemma_copies_held_without(hands.drop_last(), gone, card);
        assert(rest.drop_last() =~= hands_without(hands.drop_last(), gone));
        lemma_copies_without(hands.last(), gone, card);
    }
}

/// A card in a hand is held at least once.
proof fn lemma_held_card_counts(hands: Seq<Seq<Card>>, p: int, j: int)
    requires
        0 <= p < hands.len(),
        0 <= j < hands[p].len(),
    ensures
        copies_held(hands, hands[p][j]) >= 1,
    decreases hands.len(),
{
    let card = hands[p][j];
    if p == hands.len() - 1 {
        assert(same_as(card)(hands[p][j]));
        hands[p].lemma_filter_contains(same_as(card), j);
        assert(hands[p].filter(same_as(card)).contains(card));
    } else {
        assert(hands.drop_last()[p] == hands[p]);
        lemma_held_card_counts(hands.drop_last(), p, j);
    }
}

impl Position {
    /// Every card lies on the board or in exactly one hand: a card that the
    /// board awaits is held once, and a card on the board is held by nobody.
    pub open spec fn conserved(self) -> bool {
        forall|card: Card|
            #[trigger] copies_held(self.hands, card) == (if self.board.awaits(card) {
                1nat
            } else {
                0nat
            })
    }
}

/// The opening position of a shuffled deck for up to 52 seats is conserved.
pub proof fn lemma_opening_conserved(deck: Seq<Card>, n: int)
    requires
        is_shuffled_deck(deck),
        1 <= n <= 52,
    ensures
        Position::opening(deck, n).conserved(),
{
    let opening = Position::opening(deck, n);
    assert forall|card: Card| #[trigger]
        copies_held(opening.hands, card) == (if opening.board.awaits(card) {
            1nat
        } else {
            0nat
        }) by {
        lemma_shuffled_deck_copies(deck, card);
        lemma_deal_copies(deck, n, 52, card);
        assert(deck.take(52) =~= deck);
        assert(hands_at(deck, n, 52) =~= dealt(deck, n));
        assert(opening.board.stack_of(card.suit).is_virgin());
    }
}

/// In a conserved position whose turn pointer names a seat, no hand holds a
/// card that lies on the board.
pub proof fn lemma_conserved_sound(position: Position)
    requires
        position.conserved(),
        position.seated(),
    ensures
        position.sound(),
{
    assert forall|p: int, j: int|
        0 <= p < position.hands.len() && 0 <= j < position.hands[p].len()
            implies position.board.awaits(#[trigger] position.hands[p][j]) by {
        lemma_held_card_counts(position.hands, p, j);
    }
}

/// A move in a conserved position takes exactly one card out of the hands,
/// and leaves a conserved position.
pub proof fn lemma_move_conserves(position: Position, card: Card)
    requires
        position.conserved(),
        position.moved(card) is Ok,
    ensures
        position.moved(card)->Ok_0.conserved(),
        cards_held(position.moved(card)->Ok_0.hands) + 1 == cards_held(position.hands),
{
    let next = position.moved(card)->Ok_0;
    lemma_move(position, card);
    lemma_board_play_step(position.board, card);
    lemma_cards_held_without(position.hands, card);
    assert(copies_held(position.hands, card) == 1);
    assert forall|other: Card| #[trigger]
        copies_held(next.hands, other) == (if next.board.awaits(other) {
            1nat
        } else {
            0nat
        }) by {
        lemma_copies_held_without(position.hands, card, other);
        assert(copies_held(position.hands, other) == (if position.board.awaits(other) {
            1nat
        } else {
            0nat
        }));
    }
}

/// Branch conservation in a conserved position: every branch of a fork
/// holds exactly one card less than the position forked on, has that one card
/// more on its board, and is conserved itself; so is the position after a
/// forced play.
pub proof fn lemma_branches_hold_one_card_less(position: Position)
    requires
        position.conserved(),
        position.classified() matches Ok(verdict) && (verdict is MultiplePlayableCards
            || verdict is OnePlayableCard),
    ensures
        forall|i: int|
            0 <= i < successors(position.classified()->Ok_0).len() ==> {
                let branch = #[trigger] successors(position.classified()->Ok_0)[i];
                &&& branch.conserved()
                &&& cards_held(branch.hands) + 1 == cards_held(position.hands)
                &&& branch.board.remaining() + 1 == position.board.remaining()
            },
{
    let branches = successors(position.classified()->Ok_0);
    lemma_successors(position);
    let cards = position.playable()->Ok_0->0;
    assert forall|i: int| 0 <= i < branches.len() implies {
        let branch = #[trigger] branches[i];
        &&& branch.conserved()
        &&& cards_held(branch.hands) + 1 == cards_held(position.hands)
        &&& branch.board.remaining() + 1 == position.board.remaining()
    } by {
        assert(position.moved(cards[i]) == Ok::<Position, Failure>(branches[i]));
        lemma_move_conserves(position, cards[i]);
    }
}

} // verus!
