//! Players and their hands.

use crate::card_and_enums::Card;
use vstd::prelude::*;

verus! {

/// A player: the cards in hand, in the order they were dealt.
#[derive(Debug)]
pub struct Player {
    pub hand: Vec<Card>,
}

impl View for Player {
    type V = Seq<Card>;

    /// A player is modelled by the hand.
    open spec fn view(&self) -> Seq<Card> {
        self.hand@
    }
}

impl Clone for Player {
    fn clone(&self) -> (copy: Self)
        ensures
            copy@ == self@,
    {
        let mut hand: Vec<Card> = Vec::new();
        let mut i: usize = 0;
        while i < self.hand.len()
            invariant
                i <= self.hand.len(),
                hand@ == self.hand@.take(i as int),
            decreases self.hand.len() - i,
        {
            hand.push(self.hand[i]);
            assert(self.hand@.take(i + 1) =~= self.hand@.take(i as int).push(self.hand@[i as int]));
            i += 1;
        }
        assert(self.hand@.take(i as int) =~= self.hand@);
        Player { hand }
    }
}

/// The predicate "is a card other than `card`".
pub open spec fn other_than(card: Card) -> spec_fn(Card) -> bool {
    |c: Card| c != card
}

/// The predicate "is the card `card`".
pub open spec fn same_as(card: Card) -> spec_fn(Card) -> bool {
    |c: Card| c == card
}

/// The hands of a row of players.
pub open spec fn hands_of(players: Seq<Player>) -> Seq<Seq<Card>> {
    Seq::new(players.len(), |p: int| players[p]@)
}

/// The hands after `card` left them: every hand keeps its other cards, in
/// their order.
pub open spec fn hands_without(hands: Seq<Seq<Card>>, card: Card) -> Seq<Seq<Card>> {
    Seq::new(hands.len(), |p: int| hands[p].filter(other_than(card)))
}

/// Number of cards in all hands together.
pub open spec fn cards_held(hands: Seq<Seq<Card>>) -> nat
    decreases hands.len(),
{
    if hands.len() == 0 {
        0
    } else {
        cards_held(hands.drop_last()) + hands.last().len()
    }
}

/// Number of copies of `card` in all hands together.
pub open spec fn copies_held(hands: Seq<Seq<Card>>, card: Card) -> nat
    decreases hands.len(),
{
    if hands.len() == 0 {
        0
    } else {
        copies_held(hands.drop_last(), card) + hands.last().filter(same_as(card)).len()
    }
}

impl Player {
    /// A player with an empty hand.
    pub fn new() -> (player: Player)
        ensures
            player@ == Seq::<Card>::empty(),
    {
        Player { hand: Vec::new() }
    }

    /// The player's hand without `card`; the other cards keep their order.
    pub fn without(&self, card: Card) -> (player: Player)
        ensures
            player@ == self@.filter(other_than(card)),
    {
        let mut hand: Vec<Card> = Vec::new();
        let mut i: usize = 0;
        proof {
            reveal(Seq::filter);
            assert(self.hand@.take(0) =~= Seq::<Card>::empty());
        }
        while i < self.hand.len()
            invariant
                i <= self.hand.len(),
                hand@ == self.hand@.take(i as int).filter(other_than(card)),
            decreases self.hand.len() - i,
        {
            proof {
                reveal(Seq::filter);
                assert(self.hand@.take(i + 1).drop_last() =~= self.hand@.take(i as int));
            }
            if self.hand[i] != card {
                hand.push(self.hand[i]);
            }
            i += 1;
        }
        assert(self.hand@.take(i as int) =~= self.hand@);
        Player { hand }
    }
}

/// The players after `card` left their hands.
pub fn discard(players: &Vec<Player>, card: Card) -> (rest: Vec<Player>)
    ensures
        hands_of(rest@) == hands_without(hands_of(players@), card),
{
    let mut rest: Vec<Player> = Vec::new();
    let mut p: usize = 0;
    while p < players.len()
        invariant
            p <= players.len(),
            rest@.len() == p,
            forall|q: int| 0 <= q < p ==> rest@[q]@ == players@[q]@.filter(other_than(card)),
        decreases players.len() - p,
    {
        rest.push(players[p].without(card));
        p += 1;
    }
    assert(hands_of(rest@) =~= hands_without(hands_of(players@), card));
    rest
}

/// A copy of the players with the same hands.
pub fn copy_players(players: &Vec<Player>) -> (copy: Vec<Player>)
    ensures
        hands_of(copy@) == hands_of(players@),
{
    let mut copy: Vec<Player> = Vec::new();
    let mut p: usize = 0;
    while p < players.len()
        invariant
            p <= players.len(),
            copy@.len() == p,
            forall|q: int| 0 <= q < p ==> copy@[q]@ == players@[q]@,
        decreases players.len() - p,
    {
        copy.push(players[p].clone());
        p += 1;
    }
    assert(hands_of(copy@) =~= hands_of(players@));
    copy
}

/// Leaving out a card shortens a hand by the number of its copies in it, and
/// what stays are cards of the hand other than it.
pub proof fn lemma_hand_without(hand: Seq<Card>, card: Card)
    ensures
        hand.filter(other_than(card)).len() + hand.filter(same_as(card)).len() == hand.len(),
        forall|i: int|
            0 <= i < hand.filter(other_than(card)).len() ==> {
                &&& (#[trigger] hand.filter(other_than(card))[i]) != card
                &&& hand.contains(hand.filter(other_than(card))[i])
            },
    decreases hand.len(),
{
    reveal(Seq::filter);
    if hand.len() > 0 {
        lemma_hand_without(hand.drop_last(), card);
    }
    let kept = hand.filter(other_than(card));
    assert forall|i: int| 0 <= i < kept.len() implies {
        &&& (#[trigger] kept[i]) != card
        &&& hand.contains(kept[i])
    } by {
        hand.lemma_filter_contains_rev(other_than(card), kept[i]);
    }
}

/// Leaving out a card lowers the number of cards held by the number of its
/// copies that were held.
pub proof fn lemma_cards_held_without(hands: Seq<Seq<Card>>, card: Card)
    ensures
        cards_held(hands_without(hands, card)) + copies_held(hands, card) == cards_held(hands),
    decreases hands.len(),
{
    let rest = hands_without(hands, card);
    if hands.len() > 0 {
        lemma_cards_held_without(hands.drop_last(), card);
        assert(rest.drop_last() =~= hands_without(hands.drop_last(), card));
        lemma_hand_without(hands.last(), card);
    }
}

} // verus!
