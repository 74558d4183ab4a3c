//! The deck, its shuffle and the deal.

use crate::card_and_enums::{Card, NumberEnum, SuitEnum};
use crate::multi_counter::{lemma_wheels_after, MultiCounter, Wheels};
use crate::player::{hands_of, Player};
use rand::seq::SliceRandom;
use rand::thread_rng;
use vstd::arithmetic::div_mod::{
    lemma_fundamental_div_mod, lemma_fundamental_div_mod_converse, lemma_mod_pos_bound,
    lemma_small_mod,
};
use vstd::prelude::*;

verus! {

/// The 52 cards in their canonical order: suit by suit, each suit from Ace up
/// to King.
pub open spec fn full_deck() -> Seq<Card> {
    Seq::new(
        52,
        |i: int| Card { suit: SuitEnum::at(i / 13), number: NumberEnum::of_rank(i % 13 + 1) },
    )
}

/// `deck` holds the 52 cards, each once, in some order.
pub open spec fn is_shuffled_deck(deck: Seq<Card>) -> bool {
    deck.to_multiset() == full_deck().to_multiset()
}

/// Number of steps a deal to `n` seats takes: one per card, and as many as
/// there are seats where these outnumber the cards.
pub open spec fn deal_steps(n: int) -> int {
    if n > 52 {
        n
    } else {
        52
    }
}

/// Number of cards that seat `p` of `n` has received before step `k` of the
/// deal. Step `k` serves seat `k % n`.
pub open spec fn turns_before(k: int, n: int, p: int) -> int {
    if k <= p {
        0
    } else {
        (k - p - 1) / n + 1
    }
}

/// The hand of seat `p` of `n` before step `k` of the deal: its cards come
/// from the positions `p`, `p + n`, `p + 2n`, ... of the deck, which is taken
/// from its start again after 52 cards.
pub open spec fn dealt_hand(deck: Seq<Card>, n: int, p: int, k: int) -> Seq<Card> {
    Seq::new(turns_before(k, n, p) as nat, |j: int| deck[(p + j * n) % 52])
}

/// The hands after the deal of `deck` to `n` seats.
pub open spec fn dealt(deck: Seq<Card>, n: int) -> Seq<Seq<Card>> {
    Seq::new(n as nat, |p: int| dealt_hand(deck, n, p, deal_steps(n)))
}

/// Builds the 52 cards in canonical order.
pub fn ordered_deck() -> (deck: Vec<Card>)
    ensures
        deck@ == full_deck(),
{
    let suits = SuitEnum::iterator();
    let numbers = NumberEnum::iterator();
    let mut deck: Vec<Card> = Vec::new();
    let mut s: usize = 0;
    while s < 4
        invariant
            s <= 4,
            suits@ == SuitEnum::all(),
            numbers@ == NumberEnum::all(),
            deck@ == full_deck().take(13 * s),
        decreases 4 - s,
    {
        let mut r: usize = 0;
        while r < 13
            invariant
                s < 4,
                r <= 13,
                suits@ == SuitEnum::all(),
                numbers@ == NumberEnum::all(),
                deck@ == full_deck().take(13 * s + r),
            decreases 13 - r,
        {
            let i = 13 * s + r;
            proof {
                lemma_fundamental_div_mod_converse(i as int, 13, s as int, r as int);
            }
            deck.push(Card { suit: suits[s], number: numbers[r] });
            assert(full_deck().take(i + 1) =~= full_deck().take(i as int).push(full_deck()[i as int]));
            r += 1;
        }
        s += 1;
    }
    assert(full_deck().take(52) =~= full_deck());
    deck
}

/// Shuffles `deck` in place with `SliceRandom::shuffle` of the crate `rand`,
/// driven by the generator that `rand::thread_rng` hands out.
///
/// Trusted: the shuffle only swaps elements of the slice, so the deck holds
/// the same cards afterwards, each as often as before. Nothing is claimed of
/// their order, which is up to chance. The generator is seeded from the
/// operating system when a thread first asks for it, and panics if the
/// system cannot provide the seed.
#[verifier::external_body]
fn shuffle_cards(deck: &mut Vec<Card>)
    ensures
        final(deck)@.to_multiset() == old(deck)@.to_multiset(),
{
    deck.shuffle(&mut thread_rng());
}

/// Builds a deck of all 52 cards in random order.
pub fn generate_new_shuffle() -> (deck: Vec<Card>)
    ensures
        is_shuffled_deck(deck@),
        deck@.len() == 52,
{
    let mut deck = ordered_deck();
    shuffle_cards(&mut deck);
    proof {
        deck@.to_multiset_ensures();
        full_deck().to_multiset_ensures();
    }
    deck
}

/// Step `k` of a deal to `n` seats serves seat `k % n` with its card number
/// `k / n`, and changes no other seat's count.
pub proof fn lemma_deal_step(k: int, n: int)
    requires
        k >= 0,
        n >= 1,
    ensures
        0 <= k % n < n,
        turns_before(k, n, k % n) == k / n,
        k / n >= 0,
        k % n + (k / n) * n == k,
        turns_before(k + 1, n, k % n) == k / n + 1,
        forall|p: int| 0 <= p < n && p != k % n ==> turns_before(k + 1, n, p) == turns_before(k, n, p),
{
    let q = k / n;
    let r = k % n;
    lemma_fundamental_div_mod(k, n);
    lemma_mod_pos_bound(k, n);
    assert(q >= 0 && r + q * n == k) by (nonlinear_arith)
        requires
            k == n * q + r,
            0 <= r < n,
            k >= 0,
    ;
    if k > r {
        assert(q >= 1 && k - r - 1 == (q - 1) * n + (n - 1)) by (nonlinear_arith)
            requires
                k == n * q + r,
                k > r,
                n >= 1,
        ;
        lemma_fundamental_div_mod_converse(k - r - 1, n, q - 1, n - 1);
    } else {
        assert(q == 0) by (nonlinear_arith)
            requires
                k == n * q + r,
                k <= r,
                q >= 0,
                n >= 1,
        ;
    }
    assert(k - r == q * n + 0) by (nonlinear_arith)
        requires
            k == n * q + r,
    ;
    lemma_fundamental_div_mod_converse(k - r, n, q, 0);
    assert forall|p: int| 0 <= p < n && p != k % n implies turns_before(k + 1, n, p)
        == turns_before(k, n, p) by {
        if k == p {
            lemma_small_mod(k as nat, n as nat);
        } else if k > p {
            let x = k - p;
            let a = x / n;
            let b = x % n;
            lemma_fundamental_div_mod(x, n);
            lemma_mod_pos_bound(x, n);
            if b == 0 {
                assert(k == a * n + p) by (nonlinear_arith)
                    requires
                        k - p == n * a + b,
                        b == 0,
                ;
                lemma_fundamental_div_mod_converse(k, n, a, p);
            }
            assert(x - 1 == a * n + (b - 1)) by (nonlinear_arith)
                requires
                    x == n * a + b,
            ;
            lemma_fundamental_div_mod_converse(x - 1, n, a, b - 1);
        }
    }
}

/// Deals the deck to `number_of_players` players, card by card and seat by
/// seat: the card at position `i` goes to seat `i % number_of_players`. The
/// deal takes the first 52 cards of the deck. Where there are more than 52
/// seats it goes on, taking the deck from its start again, until every seat
/// has a card.
pub fn distribute_cards(number_of_players: usize, deck: Vec<Card>) -> (players: Vec<Player>)
    requires
        number_of_players >= 1,
        deck@.len() >= 52,
    ensures
        hands_of(players@) == dealt(deck@, number_of_players as int),
{
    let mut players: Vec<Player> = Vec::new();
    let mut i: usize = 0;
    while i < number_of_players
        invariant
            i <= number_of_players,
            players@.len() == i,
            forall|p: int| 0 <= p < i ==> players@[p]@ == Seq::<Card>::empty(),
        decreases number_of_players - i,
    {
        players.push(Player::new());
        i += 1;
    }
    let ghost n = number_of_players as int;
    let ghost maxes: Seq<usize> = seq![number_of_players, 52usize];
    let counter_maxes: Vec<usize> = vec![number_of_players, 52];
    assert(counter_maxes@ =~= maxes);
    let mut counter = MultiCounter::new(counter_maxes, false);
    let ghost mut k: nat = 0;
    proof {
        assert(counter@ =~= Wheels::started(maxes, false).after(0));
        lemma_wheels_after(maxes, false, 0);
        assert forall|p: int| 0 <= p < n implies players@[p]@ == dealt_hand(deck@, n, p, 0) by {
            assert(players@[p]@ =~= dealt_hand(deck@, n, p, 0));
        }
    }
    proof {
        let start = Wheels::started(maxes, false);
        assert(start.after(0).complete[0] == (0 >= maxes[0]));
        assert(start.after(1) == start.after(0).step());
    }
    let mut item = counter.next();
    while item.is_some()
        invariant
            n == number_of_players,
            n >= 1,
            deck@.len() >= 52,
            maxes == seq![number_of_players, 52usize],
            players@.len() == n,
            k <= deal_steps(n),
            forall|p: int| 0 <= p < n ==> players@[p]@ == dealt_hand(deck@, n, p, k as int),
            match item {
                Some(values) => {
                    &&& k < deal_steps(n)
                    &&& values@ == Wheels::started(maxes, false).after(k).values
                    &&& counter@ == Wheels::started(maxes, false).after(k + 1)
                },
                None => k == deal_steps(n),
            },
        decreases deal_steps(n) - k,
    {
        let values = item.unwrap();
        proof {
            lemma_wheels_after(maxes, false, k);
            lemma_wheels_after(maxes, false, k + 1);
            lemma_deal_step(k as int, n);
            lemma_mod_pos_bound(k as int, 52);
            let now = Wheels::started(maxes, false).after(k);
            assert(now.values[0] == k % (maxes[0] as nat));
            assert(now.values[1] == k % (maxes[1] as nat));
            assert(values@[0] as int == (k as int) % n);
            assert(values@[1] as int == (k as int) % 52);
        }
        let seat = values[0];
        let card = deck[values[1]];
        let ghost before = players@;
        players[seat].hand.push(card);
        proof {
            let q = (k as int) / n;
            assert(turns_before(k as int, n, seat as int) == q);
            assert(turns_before((k + 1) as int, n, seat as int) == q + 1);
            assert(before[seat as int]@ == dealt_hand(deck@, n, seat as int, k as int));
            assert(before[seat as int]@.len() == q);
            assert(seat + q * n == k);
            assert(card == deck@[(seat + q * n) % 52]);
            assert forall|p: int| 0 <= p < n implies players@[p]@ == dealt_hand(
                deck@,
                n,
                p,
                (k + 1) as int,
            ) by {
                if p == seat {
                    assert(players@[p]@ == before[p]@.push(card));
                    assert(before[p]@.push(card) =~= dealt_hand(deck@, n, p, (k + 1) as int));
                } else {
                    assert(players@[p] == before[p]);
                    assert(turns_before((k + 1) as int, n, p) == turns_before(k as int, n, p));
                    assert(before[p]@ == dealt_hand(deck@, n, p, k as int));
                    assert(before[p]@ =~= dealt_hand(deck@, n, p, (k + 1) as int));
                }
            }
            k = k + 1;
        }
        proof {
            let start = Wheels::started(maxes, false);
            assert(start.after(k + 1) == start.after(k).step());
            lemma_wheels_after(maxes, false, k);
        }
        item = counter.next();
        proof {
            let now = Wheels::started(maxes, false).after(k);
            assert(now.complete[0] == (k >= maxes[0]));
            assert(now.complete[1] == (k >= maxes[1]));
            if k >= deal_steps(n) {
                assert forall|i: int| 0 <= i < now.complete.len() implies now.complete[i] by {
                    assert(i == 0 || i == 1);
                }
            }
        }
    }
    assert(hands_of(players@) =~= dealt(deck@, n));
    players
}

} // verus!
