//! The state of a game: the board, the players' hands and whose turn it is.

use crate::card_and_enums::{contains_card, Card, SuitEnum};
use crate::conservation::lemma_opening_conserved;
use crate::deal::{dealt, distribute_cards, generate_new_shuffle, is_shuffled_deck};
use crate::game_board::{slot_name, GameBoard, GameBoardError};
use crate::player::{copy_players, discard, hands_of, hands_without, Player};
use crate::stack::StackError;
use vstd::prelude::*;

verus! {

/// A position of the game: the board, every seat's hand, and the seat whose
/// turn it is. Seats are numbered from 0.
#[derive(Debug)]
pub struct GameState {
    pub game_board: GameBoard,
    pub players: Vec<Player>,
    pub player_turn: u8,
}

/// What can go wrong on a game state.
#[derive(Debug)]
pub enum GameStateError {
    /// More than 26 players were asked for.
    TooManyPlayers,
    /// The turn counter stands at its largest value and cannot advance.
    OverflowError,
    /// An error of the board.
    GameBoardError(GameBoardError),
    /// The named operation plays the only playable card, and there are several.
    MoreThanOnePlayableCard(String),
    /// The named operation plays a card, and none is playable.
    NoPlayableCard(String),
    /// A fork was asked for where only one card is playable.
    OnlyOnePlayableCard,
    /// The card to fork on is not playable.
    UnplayableCard,
}

/// The mathematical model of a game state.
pub struct Position {
    pub board: GameBoard,
    pub hands: Seq<Seq<Card>>,
    pub turn: u8,
}

/// The mathematical model of a game state error. A board error is given by
/// the stack error and the name of the slot; the two errors that name an
/// operation carry that name.
pub enum Failure {
    TooManyPlayers,
    Overflow,
    Board(StackError, Seq<char>),
    MoreThanOnePlayableCard(Seq<char>),
    NoPlayableCard(Seq<char>),
    OnlyOnePlayableCard,
    UnplayableCard,
}

/// The failure that stands for a fault of the board in the slot of a suit.
pub open spec fn board_failure(fault: (StackError, SuitEnum)) -> Failure {
    Failure::Board(fault.0, slot_name(fault.1))
}

/// A result that carries a game state agrees with its model.
pub open spec fn state_agrees(
    res: Result<GameState, GameStateError>,
    expected: Result<Position, Failure>,
) -> bool {
    match (res, expected) {
        (Ok(state), Ok(position)) => state@ == position,
        (Err(e), Err(failure)) => e@ == failure,
        _ => false,
    }
}

/// A result that carries playable cards agrees with its model.
pub open spec fn cards_agree(
    res: Result<Option<Vec<Card>>, GameStateError>,
    expected: Result<Option<Seq<Card>>, Failure>,
) -> bool {
    match (res, expected) {
        (Ok(Some(cards)), Ok(Some(wanted))) => cards@ == wanted,
        (Ok(None), Ok(None)) => true,
        (Err(e), Err(failure)) => e@ == failure,
        _ => false,
    }
}

impl View for GameStateError {
    type V = Failure;

    open spec fn view(&self) -> Failure {
        match *self {
            GameStateError::TooManyPlayers => Failure::TooManyPlayers,
            GameStateError::OverflowError => Failure::Overflow,
            GameStateError::GameBoardError(e) => Failure::Board(e.cause(), e.place()),
            GameStateError::MoreThanOnePlayableCard(operation) => Failure::MoreThanOnePlayableCard(
                operation@,
            ),
            GameStateError::NoPlayableCard(operation) => Failure::NoPlayableCard(operation@),
            GameStateError::OnlyOnePlayableCard => Failure::OnlyOnePlayableCard,
            GameStateError::UnplayableCard => Failure::UnplayableCard,
        }
    }
}

impl Failure {
    /// The message of the error, as a sequence of characters.
    pub open spec fn message(self) -> Seq<char> {
        match self {
            Failure::TooManyPlayers => "Players exceeded 26 player limit"@,
            Failure::Overflow => "u8 overflow error"@,
            Failure::Board(cause, place) => "GameBoard Error: "@ + ("'"@ + cause.message()
                + "' error in "@ + place + " stack"@),
            Failure::MoreThanOnePlayableCard(operation) => "Called "@ + operation
                + " on a state with more than one playable card"@,
            Failure::NoPlayableCard(operation) => "Called "@ + operation
                + " on a state with no playable card"@,
            Failure::OnlyOnePlayableCard =>
                "Called play_card_and_return on a state with only one playable card, consider using play_only_playable_card"@,
            Failure::UnplayableCard =>
                "Attempted to play an unplayable card in play_card_and_return"@,
        }
    }
}

impl GameStateError {
    /// Renders the error as text.
    pub fn to_string(&self) -> (text: String)
        ensures
            text@ == self@.message(),
    {
        match self {
            GameStateError::TooManyPlayers => String::from_str("Players exceeded 26 player limit"),
            GameStateError::OverflowError => String::from_str("u8 overflow error"),
            GameStateError::GameBoardError(e) => {
                let inner = e.to_string();
                let mut text = String::from_str("GameBoard Error: ");
                text.append(inner.as_str());
                text
            },
            GameStateError::MoreThanOnePlayableCard(operation) => {
                let mut text = String::from_str("Called ");
                text.append(operation.as_str());
                text.append(" on a state with more than one playable card");
                text
            },
            GameStateError::NoPlayableCard(operation) => {
                let mut text = String::from_str("Called ");
                text.append(operation.as_str());
                text.append(" on a state with no playable card");
                text
            },
            GameStateError::OnlyOnePlayableCard => String::from_str(
                "Called play_card_and_return on a state with only one playable card, consider using play_only_playable_card",
            ),
            GameStateError::UnplayableCard => String::from_str(
                "Attempted to play an unplayable card in play_card_and_return",
            ),
        }
    }
}

/// Wraps an error of the board.
fn board_error(e: GameBoardError) -> (err: GameStateError)
    ensures
        err@ == Failure::Board(e.cause(), e.place()),
{
    GameStateError::GameBoardError(e)
}

impl Position {
    /// The position at the start of a game: `deck` dealt to `n` seats, a
    /// fresh board, and seat 0 to move.
    pub open spec fn opening(deck: Seq<Card>, n: int) -> Position {
        Position { board: GameBoard::fresh(), hands: dealt(deck, n), turn: 0 }
    }

    /// The turn pointer names a seat.
    pub open spec fn seated(self) -> bool {
        (self.turn as int) < self.hands.len()
    }

    /// The turn pointer names a seat, and every card in a hand is one that
    /// the board still awaits.
    pub open spec fn sound(self) -> bool {
        &&& self.seated()
        &&& forall|p: int, j: int|
            0 <= p < self.hands.len() && 0 <= j < self.hands[p].len() ==> self.board.awaits(
                #[trigger] self.hands[p][j],
            )
    }

    /// A sound position on a board without fault whose stacks lie in the
    /// slots of their suits, with at most 255 seats.
    pub open spec fn regular(self) -> bool {
        &&& self.sound()
        &&& self.board.valid()
        &&& self.board.aligned()
        &&& self.hands.len() <= 255
    }

    /// The seat that moves after the current one: the next seat, or seat 0
    /// after the last.
    pub open spec fn next_turn(self) -> u8 {
        if self.turn + 1 < self.hands.len() {
            (self.turn + 1) as u8
        } else {
            0
        }
    }

    /// The position after the turn was passed; it cannot be passed when the
    /// turn counter stands at 255.
    pub open spec fn passed(self) -> Result<Position, Failure> {
        if self.turn == 255 {
            Err(Failure::Overflow)
        } else {
            Ok(Position { turn: self.next_turn(), ..self })
        }
    }

    /// The position after the turn was passed `k` times, or the failure of the
    /// first pass that fails.
    pub open spec fn passed_times(self, k: nat) -> Result<Position, Failure>
        decreases k,
    {
        if k == 0 {
            Ok(self)
        } else {
            match self.passed_times((k - 1) as nat) {
                Ok(position) => position.passed(),
                Err(failure) => Err(failure),
            }
        }
    }

    /// The position after `card` went from the hands to the board, before the
    /// turn is passed.
    pub open spec fn played(self, card: Card) -> Position {
        Position {
            board: self.board.after_play(card),
            hands: hands_without(self.hands, card),
            ..self
        }
    }

    /// The playable cards of the board, with a board fault as a failure.
    pub open spec fn playable(self) -> Result<Option<Seq<Card>>, Failure> {
        match self.board.playable() {
            Ok(cards) => Ok(cards),
            Err(fault) => Err(board_failure(fault)),
        }
    }

    /// The position after `card` was played and the turn passed. The play
    /// may fail on the board; the pass may fail after the play.
    pub open spec fn moved(self, card: Card) -> Result<Position, Failure> {
        match self.board.play_result(card) {
            Err(fault) => Err(board_failure(fault)),
            Ok(_) => self.played(card).passed(),
        }
    }

    /// The outcome of playing the only playable card: the failure, if any,
    /// and the position that is left behind in either case. The operation
    /// fails on a board fault, where no card or more than one card is
    /// playable, and where the play or the pass fails. A pass that fails
    /// leaves the card played.
    pub open spec fn forced(self) -> (Position, Option<Failure>) {
        match self.playable() {
            Err(failure) => (self, Some(failure)),
            Ok(None) => (self, Some(Failure::NoPlayableCard("play_only_playable_card"@))),
            Ok(Some(cards)) => if cards.len() > 1 {
                (self, Some(Failure::MoreThanOnePlayableCard("play_only_playable_card"@)))
            } else {
                match self.board.play_result(cards[0]) {
                    Err(fault) => (self, Some(board_failure(fault))),
                    Ok(_) => match self.played(cards[0]).passed() {
                        Ok(position) => (position, None),
                        Err(failure) => (self.played(cards[0]), Some(failure)),
                    },
                }
            },
        }
    }

    /// The outcome of forking on `card`: the new position, or the failure.
    /// A fork takes at least two playable cards, `card` among them.
    pub open spec fn forked(self, card: Card) -> Result<Position, Failure> {
        match self.playable() {
            Err(failure) => Err(failure),
            Ok(None) => Err(Failure::NoPlayableCard("play_card_and_return"@)),
            Ok(Some(cards)) => if cards.len() == 1 {
                Err(Failure::OnlyOnePlayableCard)
            } else if !cards.contains(card) {
                Err(Failure::UnplayableCard)
            } else {
                self.moved(card)
            },
        }
    }
}

impl View for GameState {
    type V = Position;

    open spec fn view(&self) -> Position {
        Position {
            board: self.game_board,
            hands: hands_of(self.players@),
            turn: self.player_turn,
        }
    }
}

impl Clone for GameState {
    fn clone(&self) -> (copy: Self)
        ensures
            copy@ == self@,
    {
        GameState {
            game_board: self.game_board,
            players: copy_players(&self.players),
            player_turn: self.player_turn,
        }
    }
}

impl GameState {
    /// Starts a game for `number_of_players` players: shuffles a new deck and
    /// deals it.
    ///
    /// Fails with `TooManyPlayers` exactly when more than 26 players are asked
    /// for. Otherwise the state is the opening position of some deck that
    /// holds the 52 cards, each once; which one is up to chance. Every card is
    /// in exactly one hand then.
    pub fn new(number_of_players: usize) -> (res: Result<GameState, GameStateError>)
        requires
            number_of_players >= 1,
        ensures
            match res {
                Ok(state) => number_of_players <= 26 && state@.regular() && state@.conserved()
                    && exists|deck: Seq<Card>|
                    is_shuffled_deck(deck) && state@ == Position::opening(
                        deck,
                        number_of_players as int,
                    ),
                Err(e) => number_of_players > 26 && e@ == Failure::TooManyPlayers,
            },
    {
        if number_of_players > 26 {
            return Err(GameStateError::TooManyPlayers);
        }
        let deck = generate_new_shuffle();
        let ghost cards = deck@;
        let res = GameState::from_deck(number_of_players, deck);
        proof {
            if res is Ok {
                lemma_opening_conserved(cards, number_of_players as int);
                assert(is_shuffled_deck(cards) && res->Ok_0@ == Position::opening(
                    cards,
                    number_of_players as int,
                ));
            }
        }
        res
    }

    /// Starts a game for `number_of_players` players with the given deck,
    /// which is dealt as it lies.
    ///
    /// Fails with `TooManyPlayers` exactly when more than 26 players are asked
    /// for; otherwise the state is the opening position of that deck.
    pub fn from_deck(number_of_players: usize, deck: Vec<Card>) -> (res: Result<
        GameState,
        GameStateError,
    >)
        requires
            number_of_players >= 1,
            deck@.len() >= 52,
        ensures
            state_agrees(
                res,
                if number_of_players > 26 {
                    Err(Failure::TooManyPlayers)
                } else {
                    Ok(Position::opening(deck@, number_of_players as int))
                },
            ),
            res matches Ok(state) ==> state@.regular(),
    {
        if number_of_players > 26 {
            return Err(GameStateError::TooManyPlayers);
        }
        proof {
            lemma_opening_regular(deck@, number_of_players as int);
        }
        let players = distribute_cards(number_of_players, deck);
        Ok(GameState { game_board: GameBoard::new(), players, player_turn: 0 })
    }

    /// Tells whether the state is sound: the turn pointer names a seat, and
    /// no hand holds a card that lies on the board already.
    pub fn is_sound(&self) -> (sound: bool)
        ensures
            sound == self@.sound(),
    {
        if self.player_turn as usize >= self.players.len() {
            return false;
        }
        let mut p: usize = 0;
        while p < self.players.len()
            invariant
                p <= self.players.len(),
                forall|q: int, j: int|
                    0 <= q < p && 0 <= j < self@.hands[q].len() ==> self@.board.awaits(
                        #[trigger] self@.hands[q][j],
                    ),
            decreases self.players.len() - p,
        {
            let hand = &self.players[p].hand;
            let mut i: usize = 0;
            while i < hand.len()
                invariant
                    i <= hand.len(),
                    p < self.players.len(),
                    hand@ == self@.hands[p as int],
                    forall|q: int, j: int|
                        0 <= q < p && 0 <= j < self@.hands[q].len() ==> self@.board.awaits(
                            #[trigger] self@.hands[q][j],
                        ),
                    forall|j: int| 0 <= j < i ==> self@.board.awaits(#[trigger] hand@[j]),
                decreases hand.len() - i,
            {
                if !self.game_board.is_awaited(hand[i]) {
                    assert(!self@.board.awaits(self@.hands[p as int][i as int]));
                    return false;
                }
                i += 1;
            }
            p += 1;
        }
        true
    }

    /// Passes the turn to the next seat, or to seat 0 after the last one.
    ///
    /// Fails with `OverflowError`, changing nothing, exactly when the turn
    /// counter stands at 255.
    pub fn pass_turn(&mut self) -> (res: Result<(), GameStateError>)
        requires
            old(self).players@.len() >= 1,
        ensures
            match res {
                Ok(_) => old(self)@.passed() == Ok::<Position, Failure>(final(self)@),
                Err(e) => old(self)@.passed() == Err::<Position, Failure>(e@) && final(self)@
                    == old(self)@,
            },
            final(self).players == old(self).players,
            final(self).game_board == old(self).game_board,
    {
        if self.player_turn == u8::MAX {
            return Err(GameStateError::OverflowError);
        }
        if (self.player_turn as usize) < self.players.len() - 1 {
            self.player_turn += 1;
        } else {
            self.player_turn = 0;
        }
        Ok(())
    }

    /// Plays the only playable card in place and passes the turn.
    ///
    /// The card goes on the board and leaves the hands. The call fails where
    /// the board has a fault, where no card is playable (`NoPlayableCard`),
    /// where more than one is (`MoreThanOnePlayableCard`), and where the play
    /// or the pass fails; the state is unchanged then, except that a failed
    /// pass leaves the card played.
    pub fn play_only_playable_card(&mut self) -> (res: Result<(), GameStateError>)
        requires
            old(self).players@.len() >= 1,
        ensures
            final(self)@ == old(self)@.forced().0,
            match res {
                Ok(_) => old(self)@.forced().1 is None,
                Err(e) => old(self)@.forced().1 == Some(e@),
            },
    {
        let playable = match self.game_board.get_playable_cards() {
            Ok(result) => result,
            Err(e) => { return Err(board_error(e)); },
        };
        let card = match playable {
            Some(cards) => {
                if cards.len() > 1 {
                    return Err(
                        GameStateError::MoreThanOnePlayableCard(
                            String::from_str("play_only_playable_card"),
                        ),
                    );
                } else {
                    cards[0]
                }
            },
            None => {
                return Err(
                    GameStateError::NoPlayableCard(String::from_str("play_only_playable_card")),
                );
            },
        };
        match self.game_board.play_card(card) {
            Ok(_) => {},
            Err(e) => { return Err(board_error(e)); },
        }
        self.players = discard(&self.players, card);
        self.pass_turn()
    }

    /// Forks on `card`: returns a new state in which `card` has been played
    /// and the turn passed, and leaves this state untouched.
    ///
    /// A fork takes at least two playable cards. The call fails where the
    /// board has a fault, where no card is playable (`NoPlayableCard`), where
    /// exactly one is (`OnlyOnePlayableCard`), where `card` is not among the
    /// playable cards (`UnplayableCard`), and where the play or the pass fails.
    pub fn play_card_and_return_new(&self, card: Card) -> (res: Result<GameState, GameStateError>)
        requires
            self.players@.len() >= 1,
        ensures
            state_agrees(res, self@.forked(card)),
    {
        let get_playable = match self.game_board.get_playable_cards() {
            Ok(result) => result,
            Err(e) => { return Err(board_error(e)); },
        };
        let playable_cards = match get_playable {
            Some(result) => {
                if result.len() == 1 {
                    return Err(GameStateError::OnlyOnePlayableCard);
                }
                result
            },
            None => {
                return Err(GameStateError::NoPlayableCard(String::from_str("play_card_and_return")));
            },
        };
        if !contains_card(&playable_cards, card) {
            Err(GameStateError::UnplayableCard)
        } else {
            let mut output = self.clone();
            match output.game_board.play_card(card) {
                Ok(_) => {},
                Err(e) => { return Err(board_error(e)); },
            }
            output.players = discard(&output.players, card);
            match output.pass_turn() {
                Ok(_) => Ok(output),
                Err(e) => Err(e),
            }
        }
    }

    /// Lists the cards that may be played now: those of the board.
    pub fn get_playable_cards(&self) -> (res: Result<Option<Vec<Card>>, GameStateError>)
        ensures
            cards_agree(res, self@.playable()),
    {
        match self.game_board.get_playable_cards() {
            Ok(cards_option) => Ok(cards_option),
            Err(e) => Err(board_error(e)),
        }
    }
}

/// Passing the turn `k` times from seat 0, with fewer passes than seats,
/// leads to seat `k`.
proof fn lemma_passes_count(position: Position, k: nat)
    requires
        position.turn == 0,
        k < position.hands.len() <= 255,
    ensures
        position.passed_times(k) == Ok::<Position, Failure>(Position { turn: k as u8, ..position }),
    decreases k,
{
    if k > 0 {
        lemma_passes_count(position, (k - 1) as nat);
    }
}

/// Turn wraparound: with up to 255 seats, as many passes as there are seats
/// lead from seat 0 back to seat 0, with nothing else changed.
pub proof fn lemma_turn_wraparound(position: Position)
    requires
        position.turn == 0,
        1 <= position.hands.len() <= 255,
    ensures
        position.passed_times(position.hands.len()) == Ok::<Position, Failure>(position),
{
    lemma_passes_count(position, (position.hands.len() - 1) as nat);
}

/// The opening position of any deck for 1 to 255 seats is regular.
pub proof fn lemma_opening_regular(deck: Seq<Card>, n: int)
    requires
        1 <= n <= 255,
    ensures
        Position::opening(deck, n).regular(),
{
    let opening = Position::opening(deck, n);
    assert forall|suit: SuitEnum| opening.board.stack_of(suit).suit == suit by {
        match suit {
            SuitEnum::Spade => {},
            SuitEnum::Club => {},
            SuitEnum::Heart => {},
            SuitEnum::Diamond => {},
        }
    }
}

} // verus!
