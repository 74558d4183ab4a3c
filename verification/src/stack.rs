//! The stack of one suit: an up pile growing from Seven to King and a down
//! pile growing from Seven to Ace.

use crate::card_and_enums::{
    contains_card, lemma_rank_roundtrip, playable_view, Card, NumberEnum, SuitEnum,
};
use vstd::prelude::*;

verus! {

/// The piles of one suit. `up_card` and `down_card` are the cards on top of
/// the up pile and of the down pile. Either both are unset (nothing was played
/// yet) or both are set; the Seven sets both at once.
#[derive(Debug, Clone, Copy)]
pub struct Stack {
    pub suit: SuitEnum,
    pub up_card: Option<Card>,
    pub down_card: Option<Card>,
}

/// What can go wrong on a stack.
#[derive(Debug, Clone, Copy, PartialEq, Eq, Structural)]
pub enum StackError {
    /// Exactly one of the two piles is set.
    InvalidStackState,
    /// The up pile shows a rank below Seven.
    InvalidUpStack,
    /// The down pile shows a rank above Seven.
    InvalidDownStack,
    /// A card was played on a stack that holds all thirteen cards.
    CompletedStackPlayedOn,
    /// The rank played is not one the stack accepts next.
    UnplayableCardNumber,
}

impl StackError {
    /// The message of the error, as a sequence of characters.
    pub open spec fn message(self) -> Seq<char> {
        match self {
            StackError::InvalidStackState => "Invalid stack state"@,
            StackError::InvalidUpStack => "Up position contains card lower than Seven"@,
            StackError::InvalidDownStack => "Down position contains card higher than Seven"@,
            StackError::CompletedStackPlayedOn => "Attempted to play on a completed stack"@,
            StackError::UnplayableCardNumber => "Attempted to play a card with an unplayable number"@,
        }
    }

    /// Renders the error as text.
    pub fn to_string(&self) -> (text: String)
        ensures
            text@ == self.message(),
    {
        match self {
            StackError::InvalidStackState => String::from_str("Invalid stack state"),
            StackError::InvalidUpStack => String::from_str(
                "Up position contains card lower than Seven",
            ),
            StackError::InvalidDownStack => String::from_str(
                "Down position contains card higher than Seven",
            ),
            StackError::CompletedStackPlayedOn => String::from_str(
                "Attempted to play on a completed stack",
            ),
            StackError::UnplayableCardNumber => String::from_str(
                "Attempted to play a card with an unplayable number",
            ),
        }
    }
}

impl Stack {
    /// Nothing has been played on the stack.
    pub open spec fn is_virgin(self) -> bool {
        self.up_card is None && self.down_card is None
    }

    /// The Seven has been played: both piles are set.
    pub open spec fn is_founded(self) -> bool {
        self.up_card is Some && self.down_card is Some
    }

    /// Rank on top of the up pile (meaningful on a founded stack).
    pub open spec fn up_rank(self) -> int {
        self.up_card->0.number.rank()
    }

    /// Rank on top of the down pile (meaningful on a founded stack).
    pub open spec fn down_rank(self) -> int {
        self.down_card->0.number.rank()
    }

    /// The card of this stack's suit with the given rank.
    pub open spec fn card(self, number: NumberEnum) -> Card {
        Card { suit: self.suit, number }
    }

    /// The structural fault of the stack, if it has one. A stack with no fault
    /// is virgin, or founded with its up pile at Seven or above and its down
    /// pile at Seven or below.
    pub open spec fn fault(self) -> Option<StackError> {
        if self.is_virgin() {
            None
        } else if !self.is_founded() {
            Some(StackError::InvalidStackState)
        } else if self.up_rank() < 7 {
            Some(StackError::InvalidUpStack)
        } else if self.down_rank() > 7 {
            Some(StackError::InvalidDownStack)
        } else {
            None
        }
    }

    /// The stack is in a state that legal play can reach from a new stack, as
    /// far as the ranks on its piles go.
    pub open spec fn valid(self) -> bool {
        self.fault() is None
    }

    /// Both piles are closed: the up pile shows the King and the down pile the
    /// Ace.
    pub open spec fn is_complete(self) -> bool {
        self.is_founded() && self.up_rank() == 13 && self.down_rank() == 1
    }

    /// The cards that continue the up pile: the successor of its top card, or
    /// nothing once the King lies there.
    pub open spec fn up_plays(self) -> Seq<Card> {
        if self.up_rank() < 13 {
            seq![self.card(NumberEnum::of_rank(self.up_rank() + 1))]
        } else {
            seq![]
        }
    }

    /// The cards that continue the down pile: the predecessor of its top
    /// card, or nothing once the Ace lies there.
    pub open spec fn down_plays(self) -> Seq<Card> {
        if self.down_rank() > 1 {
            seq![self.card(NumberEnum::of_rank(self.down_rank() - 1))]
        } else {
            seq![]
        }
    }

    /// The cards a stack without fault accepts next: the Seven on a virgin
    /// stack, else the continuation of the up pile followed by that of the down
    /// pile.
    pub open spec fn legal_plays(self) -> Seq<Card> {
        if self.is_virgin() {
            seq![self.card(NumberEnum::Seven)]
        } else {
            self.up_plays() + self.down_plays()
        }
    }

    /// What `get_playable_cards` reports: the fault of the stack if it has
    /// one, `None` if no card can be played any more, else the legal plays.
    pub open spec fn playable(self) -> Result<Option<Seq<Card>>, StackError> {
        match self.fault() {
            Some(e) => Err(e),
            None => if self.legal_plays().len() == 0 {
                Ok(None)
            } else {
                Ok(Some(self.legal_plays()))
            },
        }
    }

    /// Whether playing the rank `number` succeeds, and the error if not.
    pub open spec fn play_result(self, number: NumberEnum) -> Result<(), StackError> {
        match self.playable() {
            Err(e) => Err(e),
            Ok(None) => Err(StackError::CompletedStackPlayedOn),
            Ok(Some(cards)) => if cards.contains(self.card(number)) {
                Ok(())
            } else {
                Err(StackError::UnplayableCardNumber)
            },
        }
    }

    /// The stack after the rank `number` was put on it: the Seven founds both
    /// piles, a lower rank goes on the down pile, a higher one on the up pile.
    pub open spec fn after_play(self, number: NumberEnum) -> Stack {
        if number.rank() < 7 {
            Stack { down_card: Some(self.card(number)), ..self }
        } else if number.rank() == 7 {
            Stack {
                up_card: Some(self.card(number)),
                down_card: Some(self.card(number)),
                ..self
            }
        } else {
            Stack { up_card: Some(self.card(number)), ..self }
        }
    }

    /// Number of cards still to be played before the stack is complete.
    pub open spec fn remaining(self) -> nat {
        if self.is_virgin() {
            13
        } else if self.valid() {
            ((13 - self.up_rank()) + (self.down_rank() - 1)) as nat
        } else {
            0
        }
    }

    /// Whether a card of the given rank has not been played on this stack
    /// yet: it lies beyond the top of the up pile or of the down pile.
    pub open spec fn awaits(self, number: NumberEnum) -> bool {
        self.is_virgin() || (self.is_founded() && (number.rank() > self.up_rank() || number.rank()
            < self.down_rank()))
    }

    /// Tells whether a card of the given rank has not been played on this
    /// stack yet.
    pub fn is_awaited(&self, number: NumberEnum) -> (awaited: bool)
        ensures
            awaited == self.awaits(number),
    {
        match (self.up_card, self.down_card) {
            (None, None) => true,
            (Some(up), Some(down)) => number.value() > up.number.value() || number.value()
                < down.number.value(),
            _ => false,
        }
    }

    /// A new stack for `suit` with nothing played on it.
    pub fn new(suit: SuitEnum) -> (stack: Stack)
        ensures
            stack == (Stack { suit, up_card: None, down_card: None }),
    {
        Stack { suit, up_card: None, down_card: None }
    }

    /// Lists the cards that may be played on this stack now.
    ///
    /// A virgin stack accepts its Seven only. A founded stack accepts the
    /// successor of its up card and the predecessor of its down card, as far
    /// as they exist, in that order; when neither exists the stack is complete
    /// and the result is `None`. A stack in a corrupt state reports its fault.
    pub fn get_playable_cards(&self) -> (res: Result<Option<Vec<Card>>, StackError>)
        ensures
            playable_view(res) == self.playable(),
    {
        match (self.up_card, self.down_card) {
            (None, None) => {
                let cards = vec![Card { suit: self.suit, number: NumberEnum::Seven }];
                assert(cards@ =~= self.legal_plays());
                Ok(Some(cards))
            },
            (Some(up), Some(down)) => {
                let playable_up: Option<Card> = match up.number {
                    NumberEnum::Seven => Some(Card { suit: self.suit, number: NumberEnum::Eight }),
                    NumberEnum::Eight => Some(Card { suit: self.suit, number: NumberEnum::Nine }),
                    NumberEnum::Nine => Some(Card { suit: self.suit, number: NumberEnum::Ten }),
                    NumberEnum::Ten => Some(Card { suit: self.suit, number: NumberEnum::Jack }),
                    NumberEnum::Jack => Some(Card { suit: self.suit, number: NumberEnum::Queen }),
                    NumberEnum::Queen => Some(Card { suit: self.suit, number: NumberEnum::King }),
                    NumberEnum::King => None,
                    _ => { return Err(StackError::InvalidUpStack); },
                };
                let playable_down: Option<Card> = match down.number {
                    NumberEnum::Ace => None,
                    NumberEnum::Two => Some(Card { suit: self.suit, number: NumberEnum::Ace }),
                    NumberEnum::Three => Some(Card { suit: self.suit, number: NumberEnum::Two }),
                    NumberEnum::Four => Some(Card { suit: self.suit, number: NumberEnum::Three }),
                    NumberEnum::Five => Some(Card { suit: self.suit, number: NumberEnum::Four }),
                    NumberEnum::Six => Some(Card { suit: self.suit, number: NumberEnum::Five }),
                    NumberEnum::Seven => Some(Card { suit: self.suit, number: NumberEnum::Six }),
                    _ => { return Err(StackError::InvalidDownStack); },
                };
                match (playable_up, playable_down) {
                    (Some(u), Some(d)) => {
                        let cards = vec![u, d];
                        assert(cards@ =~= self.legal_plays());
                        Ok(Some(cards))
                    },
                    (Some(u), None) => {
                        let cards = vec![u];
                        assert(cards@ =~= self.legal_plays());
                        Ok(Some(cards))
                    },
                    (None, Some(d)) => {
                        let cards = vec![d];
                        assert(cards@ =~= self.legal_plays());
                        Ok(Some(cards))
                    },
                    (None, None) => {
                        assert(self.legal_plays() =~= seq![]);
                        Ok(None)
                    },
                }
            },
            _ => Err(StackError::InvalidStackState),
        }
    }

    /// Plays the rank `card_number` of this stack's suit.
    ///
    /// The play succeeds exactly when the card is among the playable cards.
    /// It fails with the stack's fault on a corrupt stack, with
    /// `CompletedStackPlayedOn` on a complete stack and with
    /// `UnplayableCardNumber` for any other rank; a failed play leaves the
    /// stack as it was. A Seven founds both piles, a lower rank becomes the top
    /// of the down pile and a higher rank the top of the up pile.
    pub fn play_card(&mut self, card_number: NumberEnum) -> (res: Result<(), StackError>)
        ensures
            res == old(self).play_result(card_number),
            res is Ok ==> *final(self) == old(self).after_play(card_number),
            res is Err ==> *final(self) == *old(self),
            res is Ok <==> (old(self).playable() matches Ok(Some(cards)) && cards.contains(
                old(self).card(card_number),
            )),
    {
        let playable_cards = match self.get_playable_cards() {
            Ok(Some(cards)) => cards,
            Ok(None) => { return Err(StackError::CompletedStackPlayedOn); },
            Err(e) => { return Err(e); },
        };
        let card = Card { suit: self.suit, number: card_number };
        if contains_card(&playable_cards, card) {
            match card_number {
                NumberEnum::Ace
                | NumberEnum::Two
                | NumberEnum::Three
                | NumberEnum::Four
                | NumberEnum::Five
                | NumberEnum::Six => {
                    self.down_card = Some(card);
                },
                NumberEnum::Seven => {
                    self.up_card = Some(card);
                    self.down_card = Some(card);
                },
                NumberEnum::Eight
                | NumberEnum::Nine
                | NumberEnum::Ten
                | NumberEnum::Jack
                | NumberEnum::Queen
                | NumberEnum::King => {
                    self.up_card = Some(card);
                },
            }
            Ok(())
        } else {
            Err(StackError::UnplayableCardNumber)
        }
    }

    /// Builds a stack from its parts and checks it: the result is the stack
    /// if it has no fault, else its fault.
    pub fn from(suit: SuitEnum, up_card: Option<Card>, down_card: Option<Card>) -> (res: Result<
        Stack,
        StackError,
    >)
        ensures
            res == (match (Stack { suit, up_card, down_card }).fault() {
                Some(e) => Err::<Stack, StackError>(e),
                None => Ok(Stack { suit, up_card, down_card }),
            }),
    {
        let output = Stack { suit, up_card, down_card };
        match output.get_playable_cards() {
            Ok(_) => Ok(output),
            Err(e) => Err(e),
        }
    }

    /// The complete stack of `suit`: King on the up pile, Ace on the down pile.
    pub fn get_completed_stack(suit: SuitEnum) -> (stack: Stack)
        ensures
            stack == (Stack {
                suit,
                up_card: Some(Card { suit, number: NumberEnum::King }),
                down_card: Some(Card { suit, number: NumberEnum::Ace }),
            }),
            stack.is_complete(),
    {
        Stack {
            suit,
            up_card: Some(Card { suit, number: NumberEnum::King }),
            down_card: Some(Card { suit, number: NumberEnum::Ace }),
        }
    }
}

/// The stack after a series of plays, taken in order. A play that the stack
/// refuses leaves it as it was.
pub open spec fn play_all(stack: Stack, numbers: Seq<NumberEnum>) -> Stack
    decreases numbers.len(),
{
    if numbers.len() == 0 {
        stack
    } else {
        let before = play_all(stack, numbers.drop_last());
        if before.play_result(numbers.last()) is Ok {
            before.after_play(numbers.last())
        } else {
            before
        }
    }
}

/// Legality: a play succeeds exactly when its card is among the playable
/// cards, and after a successful play that card is not playable any more.
pub proof fn lemma_play_legality(stack: Stack, number: NumberEnum)
    ensures
        stack.play_result(number) is Ok <==> (stack.playable() matches Ok(Some(cards))
            && cards.contains(stack.card(number))),
        stack.play_result(number) is Ok ==> (match stack.after_play(number).playable() {
            Ok(Some(cards)) => !cards.contains(stack.card(number)),
            Ok(None) => true,
            Err(_) => false,
        }),
{
    if stack.play_result(number) is Ok {
        lemma_play_step(stack, number);
        let after = stack.after_play(number);
        assert(forall|i: int|
            0 <= i < after.legal_plays().len() ==> after.legal_plays()[i] != stack.card(number));
    }
}

/// The founding move: the Seven is accepted by a virgin stack, sets both
/// piles to the Seven at once, and makes the Eight and the Six playable.
pub proof fn lemma_seven_founds(stack: Stack)
    requires
        stack.is_virgin(),
    ensures
        stack.playable() == Ok::<Option<Seq<Card>>, StackError>(
            Some(seq![stack.card(NumberEnum::Seven)]),
        ),
        stack.play_result(NumberEnum::Seven) == Ok::<(), StackError>(()),
        stack.after_play(NumberEnum::Seven).up_card == Some(stack.card(NumberEnum::Seven)),
        stack.after_play(NumberEnum::Seven).down_card == Some(stack.card(NumberEnum::Seven)),
        stack.after_play(NumberEnum::Seven).playable() == Ok::<Option<Seq<Card>>, StackError>(
            Some(seq![stack.card(NumberEnum::Eight), stack.card(NumberEnum::Six)]),
        ),
{
    let seven = stack.card(NumberEnum::Seven);
    assert(stack.legal_plays()[0] == seven);
    let after = stack.after_play(NumberEnum::Seven);
    assert(after.legal_plays() =~= seq![
        stack.card(NumberEnum::Eight),
        stack.card(NumberEnum::Six),
    ]);
}

/// One successful play: the stack was without fault and stays so, the card
/// played was awaited and is not awaited any more, every other rank is awaited
/// after the play exactly if it was before, and one card less remains. On a
/// founded stack the play moves exactly one pile by exactly one rank: the up
/// pile upward or the down pile downward.
pub proof fn lemma_play_step(stack: Stack, number: NumberEnum)
    requires
        stack.play_result(number) is Ok,
    ensures
        stack.valid(),
        stack.after_play(number).valid(),
        stack.after_play(number).is_founded(),
        stack.after_play(number).suit == stack.suit,
        stack.awaits(number),
        !stack.after_play(number).awaits(number),
        forall|other: NumberEnum|
            other != number ==> (stack.after_play(number).awaits(other) <==> stack.awaits(other)),
        stack.after_play(number).remaining() + 1 == stack.remaining(),
        stack.is_virgin() ==> number == NumberEnum::Seven,
        stack.is_founded() ==> {
            let after = stack.after_play(number);
            ||| (after.up_rank() == stack.up_rank() + 1 && after.down_rank() == stack.down_rank()
                && after.up_rank() == number.rank())
            ||| (after.up_rank() == stack.up_rank() && after.down_rank() + 1 == stack.down_rank()
                && after.down_rank() == number.rank())
        },
{
    let cards = stack.legal_plays();
    let i = choose|i: int| 0 <= i < cards.len() && cards[i] == stack.card(number);
    assert(cards[i] == stack.card(number));
    assert forall|other: NumberEnum| other != number implies (stack.after_play(number).awaits(other)
        <==> stack.awaits(other)) by {
        lemma_rank_roundtrip(other);
        lemma_rank_roundtrip(number);
    }
}

/// Monotonicity: over any series of plays on a founded stack without fault,
/// the up pile never goes down and stays within Seven..King, and the down pile
/// never goes up and stays within Ace..Seven. A pile that has reached its last
/// card (King, or Ace) stays there, and no card of its direction is playable
/// again.
pub proof fn lemma_piles_monotone(stack: Stack, numbers: Seq<NumberEnum>)
    requires
        stack.valid(),
        stack.is_founded(),
    ensures
        play_all(stack, numbers).valid(),
        play_all(stack, numbers).is_founded(),
        stack.up_rank() <= play_all(stack, numbers).up_rank() <= 13,
        1 <= play_all(stack, numbers).down_rank() <= stack.down_rank(),
        stack.up_rank() == 13 ==> forall|i: int|
            0 <= i < play_all(stack, numbers).legal_plays().len() ==> play_all(
                stack,
                numbers,
            ).legal_plays()[i].number.rank() < 7,
        stack.down_rank() == 1 ==> forall|i: int|
            0 <= i < play_all(stack, numbers).legal_plays().len() ==> play_all(
                stack,
                numbers,
            ).legal_plays()[i].number.rank() > 7,
    decreases numbers.len(),
{
    if numbers.len() == 0 {
        lemma_rank_roundtrip(stack.up_card->0.number);
        lemma_rank_roundtrip(stack.down_card->0.number);
    } else {
        lemma_piles_monotone(stack, numbers.drop_last());
        let before = play_all(stack, numbers.drop_last());
        if before.play_result(numbers.last()) is Ok {
            lemma_play_step(before, numbers.last());
            lemma_rank_roundtrip(numbers.last());
        }
    }
}

/// Completion: a stack with the King on its up pile and the Ace on its down
/// pile has no playable card and refuses every play with
/// `CompletedStackPlayedOn`.
pub proof fn lemma_complete_rejects(stack: Stack, number: NumberEnum)
    requires
        stack.is_complete(),
    ensures
        stack.playable() == Ok::<Option<Seq<Card>>, StackError>(None),
        stack.play_result(number) == Err::<(), StackError>(StackError::CompletedStackPlayedOn),
        stack.remaining() == 0,
{
    assert(stack.legal_plays() =~= seq![]);
}

/// A stack without fault has a card to play exactly as long as it is not
/// complete, and holds at most thirteen cards to come.
pub proof fn lemma_playable_unless_complete(stack: Stack)
    requires
        stack.valid(),
    ensures
        stack.playable() == Ok::<Option<Seq<Card>>, StackError>(None) <==> stack.is_complete(),
        stack.remaining() == 0 <==> stack.is_complete(),
        stack.remaining() <= 13,
        stack.playable() matches Ok(Some(cards)) ==> 1 <= cards.len() <= 2,
{
    if stack.is_founded() {
        lemma_rank_roundtrip(stack.up_card->0.number);
        lemma_rank_roundtrip(stack.down_card->0.number);
    }
}

} // verus!
