//! Classifying a position: won, forced pass, forced play, or a choice that
//! forks the game.

use crate::card_and_enums::Card;
use crate::game_state::{Failure, GameState, GameStateError, Position};
use vstd::prelude::*;

verus! {

/// What a position asks for.
#[derive(Debug)]
pub enum Decision {
    /// The seat to move holds no card and has won.
    Victory(u8),
    /// No card was playable: the state after the turn was passed.
    NoPlayableCards(GameState),
    /// One card was playable: the state after it was played.
    OnePlayableCard(GameState),
    /// Several cards were playable: one state per card, each after that card
    /// was played.
    MultiplePlayableCards(Vec<GameState>),
}

/// The mathematical model of a decision.
pub enum Verdict {
    Victory(u8),
    NoPlayableCards(Position),
    OnePlayableCard(Position),
    MultiplePlayableCards(Seq<Position>),
}

/// The positions of a row of game states.
pub open spec fn positions_of(states: Seq<GameState>) -> Seq<Position> {
    Seq::new(states.len(), |i: int| states[i]@)
}

impl View for Decision {
    type V = Verdict;

    open spec fn view(&self) -> Verdict {
        match *self {
            Decision::Victory(seat) => Verdict::Victory(seat),
            Decision::NoPlayableCards(state) => Verdict::NoPlayableCards(state@),
            Decision::OnePlayableCard(state) => Verdict::OnePlayableCard(state@),
            Decision::MultiplePlayableCards(states) => Verdict::MultiplePlayableCards(
                positions_of(states@),
            ),
        }
    }
}

/// A result that carries a decision agrees with its model.
pub open spec fn decision_agrees(
    res: Result<Decision, GameStateError>,
    expected: Result<Verdict, Failure>,
) -> bool {
    match (res, expected) {
        (Ok(decision), Ok(verdict)) => decision@ == verdict,
        (Err(e), Err(failure)) => e@ == failure,
        _ => false,
    }
}

impl Position {
    /// The forks on each of `cards`, in order: one new position per card, or
    /// the failure of the first fork that fails.
    pub open spec fn forks(self, cards: Seq<Card>) -> Result<Seq<Position>, Failure>
        decreases cards.len(),
    {
        if cards.len() == 0 {
            Ok(seq![])
        } else {
            match self.forks(cards.drop_last()) {
                Err(failure) => Err(failure),
                Ok(positions) => match self.forked(cards.last()) {
                    Err(failure) => Err(failure),
                    Ok(position) => Ok(positions.push(position)),
                },
            }
        }
    }

    /// The classification of a position whose turn pointer names a seat.
    ///
    /// The seat to move has won if its hand is empty. Otherwise the playable
    /// cards of the board decide: with none the turn is passed, with exactly
    /// one that card is played, with more the game forks on each of them. A
    /// failure of the board, of a play or of a pass is the result.
    #[verifier::opaque]
    pub open spec fn classified(self) -> Result<Verdict, Failure> {
        if self.hands[self.turn as int].len() == 0 {
            Ok(Verdict::Victory(self.turn))
        } else {
            match self.playable() {
                Err(failure) => Err(failure),
                Ok(None) => match self.passed() {
                    Ok(position) => Ok(Verdict::NoPlayableCards(position)),
                    Err(failure) => Err(failure),
                },
                Ok(Some(cards)) => if cards.len() == 1 {
                    match self.forced().1 {
                        None => Ok(Verdict::OnePlayableCard(self.forced().0)),
                        Some(failure) => Err(failure),
                    }
                } else {
                    match self.forks(cards) {
                        Ok(positions) => Ok(Verdict::MultiplePlayableCards(positions)),
                        Err(failure) => Err(failure),
                    }
                },
            }
        }
    }
}

/// Classifies a game state and makes the move it calls for.
///
/// The result is a victory of the seat to move where its hand is empty, the
/// state after a pass where no card is playable, the state after the play
/// where exactly one card is, and one new state per playable card where there
/// are several. The first failure of the board, of a play or of a pass is
/// returned as it is.
pub fn assess_decision(game_state: GameState) -> (res: Result<Decision, GameStateError>)
    requires
        game_state@.seated(),
    ensures
        decision_agrees(res, game_state@.classified()),
{
    reveal(Position::classified);
    let mut state = game_state;
    if state.players[state.player_turn as usize].hand.len() == 0 {
        return Ok(Decision::Victory(state.player_turn));
    }
    let playable_cards = match state.get_playable_cards() {
        Ok(Some(cards)) => cards,
        Ok(None) => {
            return match state.pass_turn() {
                Ok(_) => Ok(Decision::NoPlayableCards(state)),
                Err(e) => Err(e),
            };
        },
        Err(e) => { return Err(e); },
    };
    if playable_cards.len() == 1 {
        match state.play_only_playable_card() {
            Ok(_) => Ok(Decision::OnePlayableCard(state)),
            Err(e) => Err(e),
        }
    } else {
        let mut output: Vec<GameState> = Vec::new();
        let mut i: usize = 0;
        assert(positions_of(output@) =~= Seq::<Position>::empty());
        while i < playable_cards.len()
            invariant
                i <= playable_cards.len(),
                state == game_state,
                state@.seated(),
                state@.hands[state@.turn as int].len() != 0,
                state@.playable() == Ok::<Option<Seq<Card>>, Failure>(Some(playable_cards@)),
                playable_cards@.len() != 1,
                state@.forks(playable_cards@.take(i as int)) == Ok::<Seq<Position>, Failure>(
                    positions_of(output@),
                ),
            decreases playable_cards.len() - i,
        {
            assert(playable_cards@.take(i + 1).drop_last() =~= playable_cards@.take(i as int));
            match state.play_card_and_return_new(playable_cards[i]) {
                Ok(fork) => {
                    let ghost before = positions_of(output@);
                    output.push(fork);
                    assert(positions_of(output@) =~= before.push(fork@));
                },
                Err(e) => {
                    proof {
                        reveal(Position::classified);
                        lemma_forks_fail_on(state@, playable_cards@, i as int);
                    }
                    return Err(e);
                },
            }
            i += 1;
        }
        assert(playable_cards@.take(i as int) =~= playable_cards@);
        Ok(Decision::MultiplePlayableCards(output))
    }
}

/// Forking on a row of cards fails with the failure of the first card whose
/// fork fails.
pub proof fn lemma_forks_fail_on(position: Position, cards: Seq<Card>, i: int)
    requires
        0 <= i < cards.len(),
        position.forks(cards.take(i)) is Ok,
        position.forked(cards[i]) is Err,
    ensures
        position.forks(cards) == Err::<Seq<Position>, Failure>(position.forked(cards[i])->Err_0),
    decreases cards.len() - i,
{
    assert(cards.take(i + 1).drop_last() =~= cards.take(i));
    if i + 1 == cards.len() {
        assert(cards.take(i + 1) =~= cards);
    } else {
        lemma_forks_prefix_fails(position, cards, i + 1);
    }
}

/// Once forking on the first `k` cards has failed, forking on all of them
/// fails in the same way.
proof fn lemma_forks_prefix_fails(position: Position, cards: Seq<Card>, k: int)
    requires
        0 <= k <= cards.len(),
        position.forks(cards.take(k)) is Err,
    ensures
        position.forks(cards) == position.forks(cards.take(k)),
    decreases cards.len() - k,
{
    if k == cards.len() {
        assert(cards.take(k) =~= cards);
    } else {
        assert(cards.take(k + 1).drop_last() =~= cards.take(k));
        lemma_forks_prefix_fails(position, cards, k + 1);
    }
}

/// Where forking on a row of cards succeeds, there is one position per card,
/// each the fork on its card.
pub proof fn lemma_forks_each(position: Position, cards: Seq<Card>)
    requires
        position.forks(cards) is Ok,
    ensures
        position.forks(cards)->Ok_0.len() == cards.len(),
        forall|i: int|
            0 <= i < cards.len() ==> position.forked(cards[i]) == Ok::<Position, Failure>(
                #[trigger] position.forks(cards)->Ok_0[i],
            ),
    decreases cards.len(),
{
    if cards.len() > 0 {
        lemma_forks_each(position, cards.drop_last());
    }
}

} // verus!
