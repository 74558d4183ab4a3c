//! The board: one stack per suit.

use crate::card_and_enums::{Card, SuitEnum};
use crate::stack::{lemma_play_step, lemma_playable_unless_complete, Stack, StackError};
use vstd::prelude::*;

verus! {

/// The four stacks of a game, one slot per suit. The stacks are independent
/// of one another.
#[derive(Debug, Clone, Copy)]
pub struct GameBoard {
    pub spade_stack: Stack,
    pub club_stack: Stack,
    pub heart_stack: Stack,
    pub diamond_stack: Stack,
}

/// An error of one of the board's stacks, with the name of the slot it
/// occurred in.
#[derive(Debug)]
pub enum GameBoardError {
    StackError(StackError, String),
}

/// The name under which errors mention the slot of a suit.
pub open spec fn slot_name(suit: SuitEnum) -> Seq<char> {
    match suit {
        SuitEnum::Spade => "Spades"@,
        SuitEnum::Club => "Clubs"@,
        SuitEnum::Heart => "Hearts"@,
        SuitEnum::Diamond => "Diamonds"@,
    }
}

/// The cards that a stack contributes to the board's playable cards: its own
/// playable cards, or none where it has none to offer.
pub open spec fn offered(stack: Stack) -> Seq<Card> {
    match stack.playable() {
        Ok(Some(cards)) => cards,
        _ => seq![],
    }
}

impl GameBoardError {
    /// The stack error that was raised.
    pub open spec fn cause(self) -> StackError {
        match self {
            GameBoardError::StackError(e, _) => e,
        }
    }

    /// The name of the slot, as the error carries it.
    pub open spec fn place(self) -> Seq<char> {
        match self {
            GameBoardError::StackError(_, name) => name@,
        }
    }

    /// The error stands for the stack error `fault.0` in the slot of suit
    /// `fault.1`.
    pub open spec fn describes(self, fault: (StackError, SuitEnum)) -> bool {
        self.cause() == fault.0 && self.place() == slot_name(fault.1)
    }

    /// The message of the error, as a sequence of characters.
    pub open spec fn message(self) -> Seq<char> {
        "'"@ + self.cause().message() + "' error in "@ + self.place() + " stack"@
    }

    /// Renders the error as text.
    pub fn to_string(&self) -> (text: String)
        ensures
            text@ == self.message(),
    {
        match self {
            GameBoardError::StackError(e, name) => {
                let cause = e.to_string();
                let mut text = String::from_str("'");
                text.append(cause.as_str());
                text.append("' error in ");
                text.append(name.as_str());
                text.append(" stack");
                text
            },
        }
    }
}

/// The error of a stack, tagged with the slot of `suit`.
fn tagged(e: StackError, suit: SuitEnum) -> (err: GameBoardError)
    ensures
        err.describes((e, suit)),
{
    let name = match suit {
        SuitEnum::Spade => String::from_str("Spades"),
        SuitEnum::Club => String::from_str("Clubs"),
        SuitEnum::Heart => String::from_str("Hearts"),
        SuitEnum::Diamond => String::from_str("Diamonds"),
    };
    GameBoardError::StackError(e, name)
}

/// A result of the board agrees with its mathematical reading: equal cards,
/// or an error that describes the expected fault.
pub open spec fn board_playable_agrees(
    res: Result<Option<Vec<Card>>, GameBoardError>,
    expected: Result<Option<Seq<Card>>, (StackError, SuitEnum)>,
) -> bool {
    match (res, expected) {
        (Ok(Some(cards)), Ok(Some(wanted))) => cards@ == wanted,
        (Ok(None), Ok(None)) => true,
        (Err(e), Err(fault)) => e.describes(fault),
        _ => false,
    }
}

/// The outcome of a play on the board agrees with its mathematical reading.
pub open spec fn board_play_agrees(
    res: Result<(), GameBoardError>,
    expected: Result<(), (StackError, SuitEnum)>,
) -> bool {
    match (res, expected) {
        (Ok(_), Ok(_)) => true,
        (Err(e), Err(fault)) => e.describes(fault),
        _ => false,
    }
}

impl GameBoard {
    /// The board with nothing played on it.
    pub open spec fn fresh() -> GameBoard {
        GameBoard {
            spade_stack: Stack { suit: SuitEnum::Spade, up_card: None, down_card: None },
            club_stack: Stack { suit: SuitEnum::Club, up_card: None, down_card: None },
            heart_stack: Stack { suit: SuitEnum::Heart, up_card: None, down_card: None },
            diamond_stack: Stack { suit: SuitEnum::Diamond, up_card: None, down_card: None },
        }
    }

    /// The stack in the slot of `suit`.
    pub open spec fn stack_of(self, suit: SuitEnum) -> Stack {
        match suit {
            SuitEnum::Spade => self.spade_stack,
            SuitEnum::Club => self.club_stack,
            SuitEnum::Heart => self.heart_stack,
            SuitEnum::Diamond => self.diamond_stack,
        }
    }

    /// The board with `stack` put in the slot of `suit`.
    pub open spec fn with_stack(self, suit: SuitEnum, stack: Stack) -> GameBoard {
        match suit {
            SuitEnum::Spade => GameBoard { spade_stack: stack, ..self },
            SuitEnum::Club => GameBoard { club_stack: stack, ..self },
            SuitEnum::Heart => GameBoard { heart_stack: stack, ..self },
            SuitEnum::Diamond => GameBoard { diamond_stack: stack, ..self },
        }
    }

    /// The board that results from putting each stack of `stacks`, in order,
    /// into the slot of its own suit on a fresh board. A later stack replaces
    /// an earlier one of the same suit.
    pub open spec fn assembled(stacks: Seq<Stack>) -> GameBoard
        decreases stacks.len(),
    {
        if stacks.len() == 0 {
            GameBoard::fresh()
        } else {
            GameBoard::assembled(stacks.drop_last()).with_stack(stacks.last().suit, stacks.last())
        }
    }

    /// Each slot holds a stack of the slot's suit.
    pub open spec fn aligned(self) -> bool {
        forall|suit: SuitEnum| self.stack_of(suit).suit == suit
    }

    /// The first fault among the stacks, in the order Spades, Clubs, Hearts,
    /// Diamonds, with the suit of its slot.
    pub open spec fn fault(self) -> Option<(StackError, SuitEnum)> {
        if self.spade_stack.fault() is Some {
            Some((self.spade_stack.fault()->0, SuitEnum::Spade))
        } else if self.club_stack.fault() is Some {
            Some((self.club_stack.fault()->0, SuitEnum::Club))
        } else if self.heart_stack.fault() is Some {
            Some((self.heart_stack.fault()->0, SuitEnum::Heart))
        } else if self.diamond_stack.fault() is Some {
            Some((self.diamond_stack.fault()->0, SuitEnum::Diamond))
        } else {
            None
        }
    }

    /// No stack has a fault.
    pub open spec fn valid(self) -> bool {
        self.fault() is None
    }

    /// All four stacks are complete.
    pub open spec fn is_complete(self) -> bool {
        forall|suit: SuitEnum| self.stack_of(suit).is_complete()
    }

    /// The playable cards of all stacks, in the order Spades, Clubs, Hearts,
    /// Diamonds.
    pub open spec fn legal_plays(self) -> Seq<Card> {
        offered(self.spade_stack) + offered(self.club_stack) + offered(self.heart_stack) + offered(
            self.diamond_stack,
        )
    }

    /// What `get_playable_cards` reports: the first fault if a stack has one,
    /// `None` if no stack has a card to offer, else all playable cards.
    pub open spec fn playable(self) -> Result<Option<Seq<Card>>, (StackError, SuitEnum)> {
        match self.fault() {
            Some(fault) => Err(fault),
            None => if self.legal_plays().len() == 0 {
                Ok(None)
            } else {
                Ok(Some(self.legal_plays()))
            },
        }
    }

    /// Whether playing `card` succeeds: it is played on the stack in the slot
    /// of its suit, whose error is tagged with that suit.
    pub open spec fn play_result(self, card: Card) -> Result<(), (StackError, SuitEnum)> {
        match self.stack_of(card.suit).play_result(card.number) {
            Ok(_) => Ok(()),
            Err(e) => Err((e, card.suit)),
        }
    }

    /// The board after `card` was put on the stack in the slot of its suit.
    pub open spec fn after_play(self, card: Card) -> GameBoard {
        self.with_stack(card.suit, self.stack_of(card.suit).after_play(card.number))
    }

    /// Number of cards still to be played before the board is complete.
    pub open spec fn remaining(self) -> nat {
        self.spade_stack.remaining() + self.club_stack.remaining() + self.heart_stack.remaining()
            + self.diamond_stack.remaining()
    }

    /// Whether `card` has not been played yet, going by the stack in the slot
    /// of its suit.
    pub open spec fn awaits(self, card: Card) -> bool {
        self.stack_of(card.suit).awaits(card.number)
    }

    /// Tells whether `card` has not been played yet.
    pub fn is_awaited(&self, card: Card) -> (awaited: bool)
        ensures
            awaited == self.awaits(card),
    {
        match card.suit {
            SuitEnum::Spade => self.spade_stack.is_awaited(card.number),
            SuitEnum::Club => self.club_stack.is_awaited(card.number),
            SuitEnum::Heart => self.heart_stack.is_awaited(card.number),
            SuitEnum::Diamond => self.diamond_stack.is_awaited(card.number),
        }
    }

    /// A board with four new stacks.
    pub fn new() -> (board: GameBoard)
        ensures
            board == GameBoard::fresh(),
    {
        GameBoard {
            spade_stack: Stack::new(SuitEnum::Spade),
            club_stack: Stack::new(SuitEnum::Club),
            heart_stack: Stack::new(SuitEnum::Heart),
            diamond_stack: Stack::new(SuitEnum::Diamond),
        }
    }

    /// Builds a board from the given stacks, each put in the slot of its own
    /// suit, with new stacks in the slots that get none, and checks it: the
    /// result is the board if no stack has a fault, else the first fault.
    pub fn from(stacks: Vec<Stack>) -> (res: Result<GameBoard, GameBoardError>)
        ensures
            match res {
                Ok(board) => board == GameBoard::assembled(stacks@) && board.valid(),
                Err(e) => GameBoard::assembled(stacks@).fault() matches Some(fault) && e.describes(
                    fault,
                ),
            },
    {
        let mut output = GameBoard::new();
        let mut i: usize = 0;
        while i < stacks.len()
            invariant
                i <= stacks.len(),
                output == GameBoard::assembled(stacks@.take(i as int)),
            decreases stacks.len() - i,
        {
            let st = stacks[i];
            assert(stacks@.take(i + 1).drop_last() =~= stacks@.take(i as int));
            match st.suit {
                SuitEnum::Spade => { output.spade_stack = st; },
                SuitEnum::Club => { output.club_stack = st; },
                SuitEnum::Heart => { output.heart_stack = st; },
                SuitEnum::Diamond => { output.diamond_stack = st; },
            }
            i += 1;
        }
        assert(stacks@.take(i as int) =~= stacks@);
        match output.get_playable_cards() {
            Ok(_) => Ok(output),
            Err(e) => Err(e),
        }
    }

    /// Lists the cards that may be played on the board now: the playable
    /// cards of the four stacks in the order Spades, Clubs, Hearts, Diamonds.
    ///
    /// The result is `None` when no stack has a card to offer, which is when
    /// all four are complete. The first stack with a fault makes the call fail
    /// with that fault and the name of its slot.
    pub fn get_playable_cards(&self) -> (res: Result<Option<Vec<Card>>, GameBoardError>)
        ensures
            board_playable_agrees(res, self.playable()),
    {
        let mut playable_spades: Vec<Card> = match self.spade_stack.get_playable_cards() {
            Ok(Some(cards)) => cards,
            Ok(None) => Vec::new(),
            Err(e) => { return Err(tagged(e, SuitEnum::Spade)); },
        };
        let mut playable_clubs: Vec<Card> = match self.club_stack.get_playable_cards() {
            Ok(Some(cards)) => cards,
            Ok(None) => Vec::new(),
            Err(e) => { return Err(tagged(e, SuitEnum::Club)); },
        };
        let mut playable_hearts: Vec<Card> = match self.heart_stack.get_playable_cards() {
            Ok(Some(cards)) => cards,
            Ok(None) => Vec::new(),
            Err(e) => { return Err(tagged(e, SuitEnum::Heart)); },
        };
        let mut playable_diamonds: Vec<Card> = match self.diamond_stack.get_playable_cards() {
            Ok(Some(cards)) => cards,
            Ok(None) => Vec::new(),
            Err(e) => { return Err(tagged(e, SuitEnum::Diamond)); },
        };
        let mut output: Vec<Card> = Vec::new();
        output.append(&mut playable_spades);
        output.append(&mut playable_clubs);
        output.append(&mut playable_hearts);
        output.append(&mut playable_diamonds);
        assert(output@ =~= self.legal_plays());
        if output.len() > 0 {
            return Ok(Some(output));
        }
        Ok(None)
    }

    /// Plays `card` on the stack in the slot of its suit.
    ///
    /// The play succeeds exactly when that stack accepts the rank; its error
    /// comes back tagged with the name of the slot. Only that one stack
    /// changes, and only on success.
    pub fn play_card(&mut self, card: Card) -> (res: Result<(), GameBoardError>)
        ensures
            board_play_agrees(res, old(self).play_result(card)),
            res is Ok ==> *final(self) == old(self).after_play(card),
            res is Err ==> *final(self) == *old(self),
    {
        match card.suit {
            SuitEnum::Spade => match self.spade_stack.play_card(card.number) {
                Ok(_) => Ok(()),
                Err(e) => Err(tagged(e, SuitEnum::Spade)),
            },
            SuitEnum::Club => match self.club_stack.play_card(card.number) {
                Ok(_) => Ok(()),
                Err(e) => Err(tagged(e, SuitEnum::Club)),
            },
            SuitEnum::Heart => match self.heart_stack.play_card(card.number) {
                Ok(_) => Ok(()),
                Err(e) => Err(tagged(e, SuitEnum::Heart)),
            },
            SuitEnum::Diamond => match self.diamond_stack.play_card(card.number) {
                Ok(_) => Ok(()),
                Err(e) => Err(tagged(e, SuitEnum::Diamond)),
            },
        }
    }
}

/// A card occurs in a concatenation exactly if it occurs in one of the parts.
proof fn lemma_contains_concat(a: Seq<Card>, b: Seq<Card>, card: Card)
    ensures
        (a + b).contains(card) <==> (a.contains(card) || b.contains(card)),
{
    if (a + b).contains(card) {
        let i = choose|i: int| 0 <= i < (a + b).len() && (a + b)[i] == card;
        if i < a.len() {
            assert(a[i] == card);
        } else {
            assert(b[i - a.len()] == card);
        }
    }
    if a.contains(card) {
        let i = choose|i: int| 0 <= i < a.len() && a[i] == card;
        assert((a + b)[i] == card);
    }
    if b.contains(card) {
        let i = choose|i: int| 0 <= i < b.len() && b[i] == card;
        assert((a + b)[a.len() + i] == card);
    }
}

/// Aggregation: on a board without fault, a card is playable exactly if one
/// of the four stacks offers it, and no card is playable exactly when all four
/// stacks are complete. At most eight cards are playable at a time, and at
/// most 52 cards remain to be played.
pub proof fn lemma_board_aggregation(board: GameBoard)
    requires
        board.valid(),
    ensures
        board.playable() is Ok,
        forall|card: Card|
            board.legal_plays().contains(card) <==> (exists|suit: SuitEnum| #[trigger]
                offered(board.stack_of(suit)).contains(card)),
        board.playable() == Ok::<Option<Seq<Card>>, (StackError, SuitEnum)>(None)
            <==> board.is_complete(),
        board.playable() matches Ok(Some(cards)) ==> cards == board.legal_plays() && 1
            <= cards.len() <= 8,
        board.remaining() == 0 <==> board.is_complete(),
        board.remaining() <= 52,
{
    let (s, c, h, d) = (
        offered(board.spade_stack),
        offered(board.club_stack),
        offered(board.heart_stack),
        offered(board.diamond_stack),
    );
    lemma_playable_unless_complete(board.spade_stack);
    lemma_playable_unless_complete(board.club_stack);
    lemma_playable_unless_complete(board.heart_stack);
    lemma_playable_unless_complete(board.diamond_stack);
    assert(board.stack_of(SuitEnum::Spade) == board.spade_stack);
    assert(board.stack_of(SuitEnum::Club) == board.club_stack);
    assert(board.stack_of(SuitEnum::Heart) == board.heart_stack);
    assert(board.stack_of(SuitEnum::Diamond) == board.diamond_stack);
    assert forall|card: Card|
        board.legal_plays().contains(card) <==> (exists|suit: SuitEnum| #[trigger]
            offered(board.stack_of(suit)).contains(card)) by {
        lemma_contains_concat(s, c, card);
        lemma_contains_concat(s + c, h, card);
        lemma_contains_concat(s + c + h, d, card);
        if board.legal_plays().contains(card) {
            if s.contains(card) {
                assert(offered(board.stack_of(SuitEnum::Spade)).contains(card));
            } else if c.contains(card) {
                assert(offered(board.stack_of(SuitEnum::Club)).contains(card));
            } else if h.contains(card) {
                assert(offered(board.stack_of(SuitEnum::Heart)).contains(card));
            } else {
                assert(offered(board.stack_of(SuitEnum::Diamond)).contains(card));
            }
        }
        if exists|suit: SuitEnum| #[trigger] offered(board.stack_of(suit)).contains(card) {
            let suit = choose|suit: SuitEnum| #[trigger]
                offered(board.stack_of(suit)).contains(card);
            match suit {
                SuitEnum::Spade => {},
                SuitEnum::Club => {},
                SuitEnum::Heart => {},
                SuitEnum::Diamond => {},
            }
        }
    }
    if board.is_complete() {
        assert(board.stack_of(SuitEnum::Spade).is_complete());
        assert(board.stack_of(SuitEnum::Club).is_complete());
        assert(board.stack_of(SuitEnum::Heart).is_complete());
        assert(board.stack_of(SuitEnum::Diamond).is_complete());
    }
    if board.spade_stack.is_complete() && board.club_stack.is_complete()
        && board.heart_stack.is_complete() && board.diamond_stack.is_complete() {
        assert forall|suit: SuitEnum| board.stack_of(suit).is_complete() by {
            match suit {
                SuitEnum::Spade => {},
                SuitEnum::Club => {},
                SuitEnum::Heart => {},
                SuitEnum::Diamond => {},
            }
        }
    }
}

/// One successful play on the board: the card played was awaited and is not
/// awaited any more, every other card is awaited after the play exactly if it
/// was before, one card less remains, and a board without fault, or with
/// every stack in the slot of its suit, stays so.
pub proof fn lemma_board_play_step(board: GameBoard, card: Card)
    requires
        board.play_result(card) is Ok,
    ensures
        board.awaits(card),
        !board.after_play(card).awaits(card),
        forall|other: Card|
            other != card ==> (board.after_play(card).awaits(other) <==> board.awaits(other)),
        board.after_play(card).remaining() + 1 == board.remaining(),
        board.valid() ==> board.after_play(card).valid(),
        board.aligned() ==> board.after_play(card).aligned(),
{
    let stack = board.stack_of(card.suit);
    lemma_play_step(stack, card.number);
    let after = board.after_play(card);
    assert(after.stack_of(card.suit) == stack.after_play(card.number));
    assert forall|other: Card| other != card implies (after.awaits(other) <==> board.awaits(
        other,
    )) by {
        if other.suit == card.suit {
            assert(other.number != card.number);
        } else {
            assert(after.stack_of(other.suit) == board.stack_of(other.suit));
        }
    }
    if board.aligned() {
        assert forall|suit: SuitEnum| after.stack_of(suit).suit == suit by {
            assert(board.stack_of(suit).suit == suit);
            if suit != card.suit {
                assert(after.stack_of(suit) == board.stack_of(suit));
            }
        }
    }
}

/// On a board without fault whose stacks lie in the slots of their suits,
/// every playable card can be played.
pub proof fn lemma_legal_play_succeeds(board: GameBoard, card: Card)
    requires
        board.valid(),
        board.aligned(),
        board.legal_plays().contains(card),
    ensures
        board.play_result(card) is Ok,
{
    lemma_board_aggregation(board);
    let suit = choose|suit: SuitEnum| #[trigger] offered(board.stack_of(suit)).contains(card);
    let stack = board.stack_of(suit);
    let cards = offered(stack);
    let i = choose|i: int| 0 <= i < cards.len() && cards[i] == card;
    assert(stack.legal_plays()[i] == card);
    assert(card.suit == suit);
    assert(stack.card(card.number) == card);
}

} // verus!
