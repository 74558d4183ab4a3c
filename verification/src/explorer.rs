//! The search through every playthrough of a position, depth first with an
//! explicit stack of pending branches.

use crate::card_and_enums::Card;
use crate::deal::is_shuffled_deck;
use crate::decision::{
    assess_decision, lemma_forks_each, positions_of, Decision, Verdict,
};
use crate::game_board::{lemma_board_aggregation, lemma_board_play_step, lemma_legal_play_succeeds};
use crate::game_state::{Failure, GameState, Position};
use crate::player::{
    cards_held, copies_held, hands_without, lemma_cards_held_without, lemma_hand_without,
};
use std::collections::HashMap;
use vstd::prelude::*;

verus! {

/// One more than the largest number of cards that remain to be played in any
/// of the positions; 0 for no position.
pub open spec fn depth_bound(positions: Seq<Position>) -> nat
    decreases positions.len(),
{
    if positions.len() == 0 {
        0
    } else {
        let rest = depth_bound(positions.drop_last());
        let last = positions.last().board.remaining() + 1;
        if last > rest {
            last
        } else {
            rest
        }
    }
}

/// The outcomes of two parts of a search that run one after the other: the
/// outcomes of the first followed by those of the second, or the first failure.
pub open spec fn in_turn(first: Result<Seq<u8>, Failure>, second: Result<Seq<u8>, Failure>) -> Result<
    Seq<u8>,
    Failure,
> {
    match first {
        Err(failure) => Err(failure),
        Ok(winners) => match second {
            Err(failure) => Err(failure),
            Ok(more) => Ok(winners + more),
        },
    }
}

/// The seats that win the playthroughs of `position`, in the order in which
/// a depth-first search meets them, or the first failure that it meets.
///
/// A won position has its winner as the one outcome. After a forced play the
/// outcomes are those of the position it leads to. Where the game forks, the
/// outcomes are those of the branches, the branch of the last playable card
/// first. A position in which no card is playable and the seat to move holds
/// cards has no outcome listed; play never gets there from a sound position.
#[verifier::opaque]
pub open spec fn outcomes(position: Position) -> Result<Seq<u8>, Failure>
    decreases position.board.remaining() + 1, 0nat,
    via outcomes_decreases
{
    match position.classified() {
        Err(failure) => Err(failure),
        Ok(Verdict::Victory(seat)) => Ok(seq![seat]),
        Ok(Verdict::NoPlayableCards(_)) => Ok(seq![]),
        Ok(Verdict::OnePlayableCard(next)) => outcomes(next),
        Ok(Verdict::MultiplePlayableCards(branches)) => pending_outcomes(branches),
    }
}

/// The outcomes of a stack of positions, the last one first, or the first
/// failure met.
#[verifier::opaque]
pub open spec fn pending_outcomes(positions: Seq<Position>) -> Result<Seq<u8>, Failure>
    decreases depth_bound(positions), positions.len(),
    via pending_outcomes_decreases
{
    if positions.len() == 0 {
        Ok(seq![])
    } else {
        in_turn(outcomes(positions.last()), pending_outcomes(positions.drop_last()))
    }
}

/// Number of positions that the search classifies below and including
/// `position`.
#[verifier::opaque]
pub open spec fn effort(position: Position) -> nat
    decreases position.board.remaining() + 1, 0nat,
    via effort_decreases
{
    match position.classified() {
        Ok(Verdict::OnePlayableCard(next)) => 1 + effort(next),
        Ok(Verdict::MultiplePlayableCards(branches)) => 1 + pending_effort(branches),
        _ => 1,
    }
}

/// Number of positions that the search classifies for a stack of positions.
#[verifier::opaque]
pub open spec fn pending_effort(positions: Seq<Position>) -> nat
    decreases depth_bound(positions), positions.len(),
    via pending_effort_decreases
{
    if positions.len() == 0 {
        0
    } else {
        effort(positions.last()) + pending_effort(positions.drop_last())
    }
}

/// Number of cards played on the longest playthrough of `position`.
pub open spec fn longest_path(position: Position) -> nat
    decreases position.board.remaining() + 1, 0nat,
    via longest_path_decreases
{
    match position.classified() {
        Ok(Verdict::OnePlayableCard(next)) => 1 + longest_path(next),
        Ok(Verdict::MultiplePlayableCards(branches)) => 1 + longest_path_among(branches),
        _ => 0,
    }
}

/// Number of cards played on the longest playthrough of any of the positions.
pub open spec fn longest_path_among(positions: Seq<Position>) -> nat
    decreases depth_bound(positions), positions.len(),
    via longest_path_among_decreases
{
    if positions.len() == 0 {
        0
    } else {
        let last = longest_path(positions.last());
        let rest = longest_path_among(positions.drop_last());
        if last > rest {
            last
        } else {
            rest
        }
    }
}

#[via_fn]
proof fn longest_path_decreases(position: Position) {
    lemma_successors(position);
    if let Ok(Verdict::MultiplePlayableCards(branches)) = position.classified() {
        lemma_depth_bound(branches, position.board.remaining());
    }
}

#[via_fn]
proof fn longest_path_among_decreases(positions: Seq<Position>) {
}

#[via_fn]
proof fn outcomes_decreases(position: Position) {
    lemma_successors(position);
    if let Ok(Verdict::MultiplePlayableCards(branches)) = position.classified() {
        lemma_depth_bound(branches, position.board.remaining());
    }
}

#[via_fn]
proof fn pending_outcomes_decreases(positions: Seq<Position>) {
}

#[via_fn]
proof fn effort_decreases(position: Position) {
    lemma_successors(position);
    if let Ok(Verdict::MultiplePlayableCards(branches)) = position.classified() {
        lemma_depth_bound(branches, position.board.remaining());
    }
}

#[via_fn]
proof fn pending_effort_decreases(positions: Seq<Position>) {
}

/// If every position has fewer than `limit` cards to come, the depth bound
/// of the positions is at most `limit`.
proof fn lemma_depth_bound(positions: Seq<Position>, limit: nat)
    requires
        forall|i: int| 0 <= i < positions.len() ==> positions[i].board.remaining() < limit,
    ensures
        depth_bound(positions) <= limit,
    decreases positions.len(),
{
    if positions.len() > 0 {
        lemma_depth_bound(positions.drop_last(), limit);
    }
}

/// A move: after `card` was played and the turn passed, the board holds that
/// card and the hands hold it no more, one card less remains to be played, the
/// number of seats is the same, and a sound position is still sound, a regular
/// one still regular.
pub proof fn lemma_move(position: Position, card: Card)
    requires
        position.moved(card) is Ok,
    ensures
        ({
            let next = position.moved(card)->Ok_0;
            &&& next.board == position.board.after_play(card)
            &&& next.hands == hands_without(position.hands, card)
            &&& next.hands.len() == position.hands.len()
            &&& next.board.remaining() + 1 == position.board.remaining()
            &&& position.sound() ==> next.sound()
            &&& position.regular() ==> next.regular()
        }),
{
    let next = position.moved(card)->Ok_0;
    lemma_board_play_step(position.board, card);
    if position.sound() {
        assert forall|p: int, j: int|
            0 <= p < next.hands.len() && 0 <= j < next.hands[p].len() implies next.board.awaits(
            #[trigger] next.hands[p][j],
        ) by {
            let hand = position.hands[p];
            lemma_hand_without(hand, card);
            let kept = next.hands[p][j];
            assert(kept != card);
            assert(hand.contains(kept));
            let i = choose|i: int| 0 <= i < hand.len() && hand[i] == kept;
            assert(position.board.awaits(position.hands[p][i]));
        }
    }
}

/// What classification leads to: the position after a forced play, and each
/// branch of a fork, comes from a move, so that one card less remains to be
/// played in it; a fork has as many branches as there are playable cards, and
/// at least two. Soundness and regularity pass on to these positions. A sound
/// position where no card is playable is won, and a regular position is
/// classified without failure.
pub proof fn lemma_successors(position: Position)
    ensures
        position.classified() matches Ok(Verdict::OnePlayableCard(next)) ==> {
            &&& position.playable() matches Ok(Some(cards)) && cards.len() == 1
                && position.moved(cards[0]) == Ok::<Position, Failure>(next)
            &&& next.board.remaining() + 1 == position.board.remaining()
            &&& position.sound() ==> next.sound()
            &&& position.regular() ==> next.regular()
        },
        position.classified() matches Ok(Verdict::MultiplePlayableCards(branches)) ==> {
            &&& position.playable() matches Ok(Some(cards)) && cards.len() == branches.len()
                && forall|i: int|
                0 <= i < branches.len() ==> position.moved(cards[i]) == Ok::<Position, Failure>(
                    #[trigger] branches[i],
                )
            &&& branches.len() >= 2
            &&& forall|i: int|
                0 <= i < branches.len() ==> (#[trigger] branches[i]).board.remaining() + 1
                    == position.board.remaining()
            &&& position.sound() ==> forall|i: int|
                0 <= i < branches.len() ==> (#[trigger] branches[i]).sound()
            &&& position.regular() ==> forall|i: int|
                0 <= i < branches.len() ==> (#[trigger] branches[i]).regular()
        },
        position.sound() ==> !(position.classified() matches Ok(Verdict::NoPlayableCards(_))),
        position.regular() ==> position.classified() is Ok,
{
    reveal(Position::classified);
    let verdict = position.classified();
    if position.hands[position.turn as int].len() != 0 {
        match position.playable() {
            Err(_) => {},
            Ok(None) => {
                if position.sound() {
                    lemma_board_aggregation(position.board);
                    let held = position.hands[position.turn as int][0];
                    assert(position.board.awaits(held));
                    assert(position.board.stack_of(held.suit).is_complete());
                }
            },
            Ok(Some(cards)) => {
                if position.regular() {
                    lemma_board_aggregation(position.board);
                }
                if cards.len() == 1 {
                    if position.regular() {
                        assert(position.board.legal_plays().contains(cards[0]));
                        lemma_legal_play_succeeds(position.board, cards[0]);
                    }
                    if verdict is Ok {
                        lemma_move(position, cards[0]);
                    }
                } else {
                    if position.regular() {
                        lemma_forks_succeed(position, cards, cards.len() as int);
                        assert(cards.take(cards.len() as int) =~= cards);
                    }
                    if verdict is Ok {
                        let branches = position.forks(cards)->Ok_0;
                        lemma_forks_each(position, cards);
                        assert forall|i: int| 0 <= i < branches.len() implies {
                            &&& position.moved(cards[i]) == Ok::<Position, Failure>(
                                #[trigger] branches[i],
                            )
                            &&& branches[i].board.remaining() + 1 == position.board.remaining()
                            &&& position.sound() ==> branches[i].sound()
                            &&& position.regular() ==> branches[i].regular()
                        } by {
                            assert(position.forked(cards[i]) == Ok::<Position, Failure>(
                                branches[i],
                            ));
                            lemma_move(position, cards[i]);
                        }
                    }
                }
            },
        }
    }
}

/// In a regular position with at least two playable cards, forking on any
/// number of them succeeds.
proof fn lemma_forks_succeed(position: Position, cards: Seq<Card>, k: int)
    requires
        position.regular(),
        position.playable() == Ok::<Option<Seq<Card>>, Failure>(Some(cards)),
        cards.len() != 1,
        0 <= k <= cards.len(),
    ensures
        position.forks(cards.take(k)) is Ok,
    decreases k,
{
    if k > 0 {
        lemma_forks_succeed(position, cards, k - 1);
        assert(cards.take(k).drop_last() =~= cards.take(k - 1));
        let card = cards[k - 1];
        assert(cards.take(k).last() == card);
        assert(position.board.legal_plays().contains(card));
        lemma_legal_play_succeeds(position.board, card);
    }
}

/// A stack made of two parts is searched part by part, the upper part
/// first.
pub proof fn lemma_pending_concat(lower: Seq<Position>, upper: Seq<Position>)
    ensures
        pending_outcomes(lower + upper) == in_turn(
            pending_outcomes(upper),
            pending_outcomes(lower),
        ),
        pending_effort(lower + upper) == pending_effort(lower) + pending_effort(upper),
    decreases upper.len(),
{
    reveal_with_fuel(outcomes, 2);
    reveal_with_fuel(pending_outcomes, 2);
    reveal_with_fuel(effort, 2);
    reveal_with_fuel(pending_effort, 2);
    if upper.len() == 0 {
        assert(lower + upper =~= lower);
        match pending_outcomes(lower) {
            Ok(winners) => {
                assert(Seq::<u8>::empty() + winners =~= winners);
            },
            Err(_) => {},
        }
    } else {
        let all = lower + upper;
        assert(all.last() == upper.last());
        assert(all.drop_last() =~= lower + upper.drop_last());
        lemma_pending_concat(lower, upper.drop_last());
        match (outcomes(upper.last()), pending_outcomes(upper.drop_last()), pending_outcomes(lower)) {
            (Ok(a), Ok(b), Ok(c)) => {
                assert(a + (b + c) =~= (a + b) + c);
            },
            _ => {},
        }
    }
}

/// The positions that a verdict leaves to be searched: the state after a
/// pass or a forced play, the branches of a fork, nothing after a victory.
pub open spec fn successors(verdict: Verdict) -> Seq<Position> {
    match verdict {
        Verdict::Victory(_) => seq![],
        Verdict::NoPlayableCards(next) => seq![next],
        Verdict::OnePlayableCard(next) => seq![next],
        Verdict::MultiplePlayableCards(branches) => branches,
    }
}

/// The search of a stack begins with its top position.
pub proof fn lemma_pending_top(below: Seq<Position>, top: Position)
    ensures
        pending_outcomes(below.push(top)) == in_turn(outcomes(top), pending_outcomes(below)),
        pending_effort(below.push(top)) == effort(top) + pending_effort(below),
{
    reveal_with_fuel(outcomes, 2);
    reveal_with_fuel(pending_outcomes, 2);
    reveal_with_fuel(effort, 2);
    reveal_with_fuel(pending_effort, 2);
    let stack = below.push(top);
    assert(stack.last() == top);
    assert(stack.drop_last() =~= below);
}

/// Nothing is left to search in an empty stack.
pub proof fn lemma_pending_empty()
    ensures
        pending_outcomes(Seq::<Position>::empty()) == Ok::<Seq<u8>, Failure>(seq![]),
        pending_effort(Seq::<Position>::empty()) == 0,
{
    reveal_with_fuel(outcomes, 2);
    reveal_with_fuel(pending_outcomes, 2);
    reveal_with_fuel(effort, 2);
    reveal_with_fuel(pending_effort, 2);
}

/// One step of the search from a sound position: a failure of the
/// classification is the outcome; a victory is the one outcome; in every other
/// case the outcomes are those of the positions that the verdict leaves, which
/// are sound and take one step less to search.
pub proof fn lemma_search_step(position: Position)
    requires
        position.sound(),
    ensures
        match position.classified() {
            Err(failure) => outcomes(position) == Err::<Seq<u8>, Failure>(failure),
            Ok(Verdict::Victory(seat)) => outcomes(position) == Ok::<Seq<u8>, Failure>(seq![seat])
                && effort(position) == 1,
            Ok(verdict) => {
                &&& outcomes(position) == pending_outcomes(successors(verdict))
                &&& effort(position) == 1 + pending_effort(successors(verdict))
                &&& forall|i: int|
                    0 <= i < successors(verdict).len() ==> (#[trigger] successors(
                        verdict,
                    )[i]).sound()
            },
        },
{
    reveal_with_fuel(outcomes, 2);
    reveal_with_fuel(pending_outcomes, 2);
    reveal_with_fuel(effort, 2);
    reveal_with_fuel(pending_effort, 2);
    lemma_pending_empty();
    lemma_successors(position);
    match position.classified() {
        Ok(Verdict::OnePlayableCard(next)) => {
            lemma_pending_top(Seq::<Position>::empty(), next);
            assert(Seq::<Position>::empty().push(next) =~= seq![next]);
            match outcomes(next) {
                Ok(winners) => {
                    assert(winners + Seq::<u8>::empty() =~= winners);
                },
                Err(_) => {},
            }
        },
        _ => {},
    }
}

/// Recording a victory and searching on is the same as searching on from
/// that victory.
pub proof fn lemma_record_victory(won: Seq<u8>, seat: u8, rest: Result<Seq<u8>, Failure>)
    ensures
        in_turn(Ok(won.push(seat)), rest) == in_turn(Ok(won), in_turn(Ok(seq![seat]), rest)),
{
    match rest {
        Ok(more) => {
            assert(won.push(seat) + more =~= won + (seq![seat] + more));
        },
        Err(_) => {},
    }
}

/// The positions that the search still has to work through, the next one
/// last: the pending branches below the current state; or the initial
/// position alone, where there is no current state, no pending branch and no
/// victory yet.
pub open spec fn search_stack(
    initial: Position,
    victories: Seq<u8>,
    branches: Seq<GameState>,
    current: Option<GameState>,
) -> Seq<Position> {
    match current {
        Some(state) => positions_of(branches).push(state@),
        None => if victories.len() == 0 && branches.len() == 0 {
            seq![initial]
        } else {
            positions_of(branches)
        },
    }
}

/// Takes a decision that is no victory to the state that the search goes on
/// with.
///
/// After a pass or a forced play that is the state of the decision, and the
/// pending branches stay as they are. After a fork all new states are pushed
/// on the pending branches and the last one is popped again. A victory is
/// refused with the message "Victory decision leak", and a fork without any
/// state on empty branches with "No states in branches".
pub fn process_branches(branches: &mut Vec<GameState>, decision: Decision) -> (res: Result<
    GameState,
    String,
>)
    ensures
        match decision {
            Decision::Victory(_) => res matches Err(message) && message@
                == "Victory decision leak"@ && final(branches)@ == old(branches)@,
            Decision::NoPlayableCards(state) => res == Ok::<GameState, String>(state) && final(branches)@ == old(branches)@,
            Decision::OnePlayableCard(state) => res == Ok::<GameState, String>(state) && final(branches)@ == old(branches)@,
            Decision::MultiplePlayableCards(states) => if old(branches)@.len() + states@.len()
                == 0 {
                res matches Err(message) && message@ == "No states in branches"@ && final(branches)@ == old(branches)@
            } else {
                res == Ok::<GameState, String>((old(branches)@ + states@).last()) && final(branches)@ == (old(branches)@ + states@).drop_last()
            },
        },
{
    match decision {
        Decision::Victory(_) => Err(String::from_str("Victory decision leak")),
        Decision::NoPlayableCards(state) => Ok(state),
        Decision::OnePlayableCard(state) => Ok(state),
        Decision::MultiplePlayableCards(states) => {
            let mut states = states;
            branches.append(&mut states);
            match branches.pop() {
                Some(state) => Ok(state),
                None => Err(String::from_str("No states in branches")),
            }
        },
    }
}

/// Explores every playthrough from `initial` and lists the seats that win,
/// one entry per playthrough, in the order in which the search meets them.
///
/// The search is depth first with an explicit stack: a pass or a forced play
/// continues the current path, a fork pushes its branches and continues with
/// the one pushed last, and a victory ends the current path, after which the
/// search goes on with the branch pushed last. It ends when no path is left.
/// The first failure ends the search and is reported by its message.
///
/// The position has to be sound: then every play takes the game closer to a
/// complete board, on which all hands are empty, so that every path ends in a
/// victory.
pub fn explore(initial: &GameState) -> (res: Result<Vec<u8>, String>)
    requires
        initial@.sound(),
    ensures
        match res {
            Ok(victories) => outcomes(initial@) == Ok::<Seq<u8>, Failure>(victories@),
            Err(message) => outcomes(initial@) matches Err(failure) && message@
                == failure.message(),
        },
{
    let mut branches: Vec<GameState> = Vec::new();
    let mut victories: Vec<u8> = Vec::new();
    let mut game_state: Option<GameState> = None;
    proof {
        let stack = search_stack(initial@, victories@, branches@, game_state);
        assert(stack =~= Seq::<Position>::empty().push(initial@));
        lemma_pending_top(Seq::<Position>::empty(), initial@);
        lemma_pending_empty();
        match outcomes(initial@) {
            Ok(winners) => {
                assert(winners + Seq::<u8>::empty() =~= winners);
                assert(victories@ + winners =~= winners);
            },
            Err(_) => {},
        }
    }
    while victories.len() == 0 || branches.len() > 0 || game_state.is_some()
        invariant
            in_turn(
                Ok(victories@),
                pending_outcomes(search_stack(initial@, victories@, branches@, game_state)),
            ) == outcomes(initial@),
            forall|i: int|
                0 <= i < search_stack(initial@, victories@, branches@, game_state).len()
                    ==> (#[trigger] search_stack(
                    initial@,
                    victories@,
                    branches@,
                    game_state,
                )[i]).sound(),
        decreases pending_effort(search_stack(initial@, victories@, branches@, game_state)),
    {
        let ghost stack = search_stack(initial@, victories@, branches@, game_state);
        let ghost won = victories@;
        let state = match game_state {
            Some(state) => state,
            None => match branches.pop() {
                Some(state) => state,
                None => initial.clone(),
            },
        };
        let ghost below = positions_of(branches@);
        let ghost position = state@;
        proof {
            assert(stack =~= below.push(position));
            assert(stack[stack.len() - 1] == position);
            assert forall|i: int| 0 <= i < below.len() implies (#[trigger] below[i]).sound() by {
                assert(stack[i] == below[i]);
            }
            lemma_pending_top(below, position);
            lemma_search_step(position);
        }
        let ghost rest = pending_outcomes(below);
        assert(in_turn(Ok(won), in_turn(outcomes(position), rest)) == outcomes(initial@));
        assert(pending_effort(stack) == effort(position) + pending_effort(below));
        match assess_decision(state) {
            Err(e) => {
                assert(outcomes(position) == Err::<Seq<u8>, Failure>(e@));
                return Err(e.to_string());
            },
            Ok(Decision::Victory(player)) => {
                victories.push(player);
                game_state = None;
                proof {
                    let after = search_stack(initial@, victories@, branches@, game_state);
                    assert(after =~= below);
                    lemma_record_victory(won, player, rest);
                }
            },
            Ok(decision) => {
                let ghost pushed = successors(decision@);
                let ghost pending = branches@;
                proof {
                    lemma_pending_concat(below, pushed);
                    lemma_successors(position);
                    assert(pushed.len() >= 1);
                    if decision is MultiplePlayableCards {
                        let states = decision->MultiplePlayableCards_0@;
                        assert(positions_of(pending + states) =~= below + pushed);
                        assert(positions_of((pending + states).drop_last()).push(
                            (pending + states).last()@,
                        ) =~= below + pushed);
                    } else {
                        assert(below.push(pushed[0]) =~= below + pushed);
                    }
                }
                match process_branches(&mut branches, decision) {
                    Ok(next) => {
                        game_state = Some(next);
                    },
                    Err(message) => {
                        return Err(message);
                    },
                }
                proof {
                    let after = search_stack(initial@, victories@, branches@, game_state);
                    assert(after =~= below + pushed);
                    assert forall|i: int| 0 <= i < after.len() implies (#[trigger] after[i]).sound() by {
                        if i < below.len() {
                            assert(after[i] == below[i]);
                        } else {
                            assert(after[i] == pushed[i - below.len()]);
                        }
                    }
                }
            },
        }
    }
    proof {
        let stack = search_stack(initial@, victories@, branches@, game_state);
        assert(stack =~= Seq::<Position>::empty());
        lemma_pending_empty();
        assert(victories@ + Seq::<u8>::empty() =~= victories@);
    }
    Ok(victories)
}

/// Branch conservation: a fork has exactly one branch per playable card.
/// Each branch is the fork on its card: the board holds that one card more, so
/// that one card less remains to be played, and the hands hold as many cards
/// less as there were copies of the card in them, which is one where the card
/// is held once. (The state that is forked on is only read.)
pub proof fn lemma_branch_conservation(position: Position)
    requires
        position.classified() matches Ok(Verdict::MultiplePlayableCards(_)),
    ensures
        ({
            let cards = position.board.legal_plays();
            let branches = successors(position.classified()->Ok_0);
            &&& branches.len() == cards.len()
            &&& forall|i: int|
                0 <= i < cards.len() ==> {
                    &&& position.forked(cards[i]) == Ok::<Position, Failure>(#[trigger] branches[i])
                    &&& branches[i].board == position.board.after_play(cards[i])
                    &&& branches[i].board.remaining() + 1 == position.board.remaining()
                    &&& branches[i].hands == hands_without(position.hands, cards[i])
                    &&& cards_held(branches[i].hands) + copies_held(position.hands, cards[i])
                        == cards_held(position.hands)
                }
        }),
{
    let cards = position.board.legal_plays();
    let branches = successors(position.classified()->Ok_0);
    lemma_successors(position);
    assert(position.playable() == Ok::<Option<Seq<Card>>, Failure>(Some(cards)));
    assert forall|i: int| 0 <= i < cards.len() implies {
        &&& position.forked(cards[i]) == Ok::<Position, Failure>(#[trigger] branches[i])
        &&& branches[i].board == position.board.after_play(cards[i])
        &&& branches[i].board.remaining() + 1 == position.board.remaining()
        &&& branches[i].hands == hands_without(position.hands, cards[i])
        &&& cards_held(branches[i].hands) + copies_held(position.hands, cards[i]) == cards_held(
            position.hands,
        )
    } by {
        assert(position.moved(cards[i]) == Ok::<Position, Failure>(branches[i]));
        lemma_move(position, cards[i]);
        lemma_cards_held_without(position.hands, cards[i]);
    }
}

/// Termination with a winner: the search of a regular position meets no
/// failure and lists at least one winner, every winner is a seat of the game,
/// and no playthrough plays more cards than remain to be played, which are at
/// most 52.
pub proof fn lemma_search_finds_winner(position: Position)
    requires
        position.regular(),
    ensures
        outcomes(position) matches Ok(winners) && winners.len() >= 1 && forall|i: int|
            0 <= i < winners.len() ==> winners[i] < position.hands.len(),
        longest_path(position) <= position.board.remaining() <= 52,
    decreases position.board.remaining() + 1, 0nat,
{
    lemma_successors(position);
    lemma_board_aggregation(position.board);
    reveal(Position::classified);
    reveal_with_fuel(outcomes, 2);
    reveal_with_fuel(pending_outcomes, 2);
    reveal_with_fuel(effort, 2);
    reveal_with_fuel(pending_effort, 2);
    match position.classified() {
        Ok(Verdict::OnePlayableCard(next)) => {
            lemma_search_finds_winner(next);
        },
        Ok(Verdict::MultiplePlayableCards(branches)) => {
            lemma_depth_bound(branches, position.board.remaining());
            lemma_pending_finds_winners(
                branches,
                position.hands.len(),
                (position.board.remaining() - 1) as nat,
            );
        },
        _ => {},
    }
}

/// The search of a stack of regular positions with `seats` seats each
/// meets no failure and lists at least one winner per position, every winner
/// a seat of the game; and no playthrough plays more than `limit` cards where
/// no more than `limit` remain to be played in any of the positions.
proof fn lemma_pending_finds_winners(positions: Seq<Position>, seats: nat, limit: nat)
    requires
        forall|i: int|
            0 <= i < positions.len() ==> {
                &&& (#[trigger] positions[i]).regular()
                &&& positions[i].hands.len() == seats
                &&& positions[i].board.remaining() <= limit
            },
    ensures
        pending_outcomes(positions) matches Ok(winners) && winners.len() >= positions.len()
            && forall|i: int| 0 <= i < winners.len() ==> winners[i] < seats,
        longest_path_among(positions) <= limit,
    decreases depth_bound(positions), positions.len(),
{
    reveal_with_fuel(outcomes, 2);
    reveal_with_fuel(pending_outcomes, 2);
    reveal_with_fuel(effort, 2);
    reveal_with_fuel(pending_effort, 2);
    if positions.len() > 0 {
        let last = positions.last();
        assert(last == positions[positions.len() - 1]);
        assert forall|i: int| 0 <= i < positions.drop_last().len() implies {
            &&& (#[trigger] positions.drop_last()[i]).regular()
            &&& positions.drop_last()[i].hands.len() == seats
            &&& positions.drop_last()[i].board.remaining() <= limit
        } by {
            assert(positions.drop_last()[i] == positions[i]);
        }
        lemma_search_finds_winner(last);
        lemma_pending_finds_winners(positions.drop_last(), seats, limit);
    }
}

/// Number of entries of `victories` that name `seat`.
pub open spec fn wins(victories: Seq<u8>, seat: u8) -> nat
    decreases victories.len(),
{
    if victories.len() == 0 {
        0
    } else if victories.last() == seat {
        wins(victories.drop_last(), seat) + 1
    } else {
        wins(victories.drop_last(), seat)
    }
}

/// A seat wins no more often than there are victories.
proof fn lemma_wins_bounded(victories: Seq<u8>, seat: u8)
    ensures
        wins(victories, seat) <= victories.len(),
    decreases victories.len(),
{
    if victories.len() > 0 {
        lemma_wins_bounded(victories.drop_last(), seat);
    }
}

/// Counts how often each seat has won: the result maps every seat that
/// occurs in `victories` to the number of its entries, and holds no other
/// seat.
pub fn tally(victories: &Vec<u8>) -> (results: HashMap<u8, usize>)
    ensures
        tallies(results@, victories@),
{
    broadcast use vstd::std_specs::hash::group_hash_axioms;

    let mut results: HashMap<u8, usize> = HashMap::new();
    let mut i: usize = 0;
    while i < victories.len()
        invariant
            i <= victories.len(),
            forall|seat: u8|
                results@.contains_key(seat) <==> wins(victories@.take(i as int), seat) > 0,
            forall|seat: u8|
                results@.contains_key(seat) ==> results@[seat] == wins(
                    victories@.take(i as int),
                    seat,
                ),
        decreases victories.len() - i,
    {
        let v = victories[i];
        proof {
            lemma_wins_bounded(victories@.take(i as int), v);
            assert(victories@.take(i + 1).drop_last() =~= victories@.take(i as int));
        }
        let count: usize = match results.get(&v) {
            Some(current) => *current + 1,
            None => 1,
        };
        results.insert(v, count);
        i += 1;
    }
    assert(victories@.take(i as int) =~= victories@);
    results
}

/// The results count the wins of each seat in `winners`.
pub open spec fn tallies(results: Map<u8, usize>, winners: Seq<u8>) -> bool {
    &&& forall|seat: u8| results.contains_key(seat) <==> wins(winners, seat) > 0
    &&& forall|seat: u8| results.contains_key(seat) ==> results[seat] == wins(winners, seat)
}

/// The results count the winners of the game that opens with `deck` dealt
/// to `n` seats, the deck holds the 52 cards, each once, and there is at least
/// one winner.
pub open spec fn counts_game(results: Map<u8, usize>, deck: Seq<Card>, n: int) -> bool {
    &&& is_shuffled_deck(deck)
    &&& match outcomes(Position::opening(deck, n)) {
        Ok(winners) => winners.len() >= 1 && tallies(results, winners),
        Err(_) => false,
    }
}

/// Deals a new game to `number_of_players` players, explores every
/// playthrough, and counts how often each seat wins.
///
/// Fails with the message of `TooManyPlayers` exactly when more than 26
/// players are asked for. Otherwise the search meets no failure and ends with
/// at least one winner, and the result counts the winners of the opening
/// position of some deck that holds the 52 cards, each once; which one is up
/// to chance.
pub fn simulate(number_of_players: usize) -> (res: Result<HashMap<u8, usize>, String>)
    requires
        number_of_players >= 1,
    ensures
        res is Ok <==> number_of_players <= 26,
        res matches Ok(results) ==> exists|deck: Seq<Card>|
            counts_game(results@, deck, number_of_players as int),
        res matches Err(message) ==> message@ == Failure::TooManyPlayers.message(),
{
    let initial = match GameState::new(number_of_players) {
        Ok(state) => state,
        Err(e) => {
            return Err(e.to_string());
        },
    };
    proof {
        lemma_search_finds_winner(initial@);
    }
    let victories = match explore(&initial) {
        Ok(victories) => victories,
        Err(message) => {
            return Err(message);
        },
    };
    let results = tally(&victories);
    let ghost deck = choose|deck: Seq<Card>|
        is_shuffled_deck(deck) && initial@ == Position::opening(deck, number_of_players as int);
    let ghost counted = results@;
    let res: Result<HashMap<u8, usize>, String> = Ok(results);
    assert(counts_game(counted, deck, number_of_players as int));
    assert(res->Ok_0@ == counted);
    res
}

} // verus!
