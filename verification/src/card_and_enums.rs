//! Cards, suits and ranks.

use vstd::prelude::*;

verus! {

/// A playing card: a suit and a rank.
#[derive(Debug, Clone, Copy, PartialEq, Eq, Structural)]
pub struct Card {
    pub suit: SuitEnum,
    pub number: NumberEnum,
}

/// The four suits, in their canonical order.
#[derive(Debug, Clone, Copy, PartialEq, Eq, Structural)]
pub enum SuitEnum {
    Spade,
    Club,
    Heart,
    Diamond,
}

/// The thirteen ranks, ordered from Ace (lowest) to King (highest).
#[derive(Debug, Clone, Copy, PartialEq, Eq, Structural)]
pub enum NumberEnum {
    Ace,
    Two,
    Three,
    Four,
    Five,
    Six,
    Seven,
    Eight,
    Nine,
    Ten,
    Jack,
    Queen,
    King,
}

impl SuitEnum {
    /// Position of the suit in the canonical order, starting at 0.
    pub open spec fn index(self) -> int {
        match self {
            SuitEnum::Spade => 0,
            SuitEnum::Club => 1,
            SuitEnum::Heart => 2,
            SuitEnum::Diamond => 3,
        }
    }

    /// The suit at a position of the canonical order.
    pub open spec fn at(i: int) -> SuitEnum {
        if i == 0 {
            SuitEnum::Spade
        } else if i == 1 {
            SuitEnum::Club
        } else if i == 2 {
            SuitEnum::Heart
        } else {
            SuitEnum::Diamond
        }
    }

    /// All suits in canonical order.
    pub open spec fn all() -> Seq<SuitEnum> {
        Seq::new(4, |i: int| SuitEnum::at(i))
    }

    /// Lists the four suits in canonical order.
    pub fn iterator() -> (suits: Vec<SuitEnum>)
        ensures
            suits@ == SuitEnum::all(),
    {
        let mut suits: Vec<SuitEnum> = Vec::new();
        suits.push(SuitEnum::Spade);
        suits.push(SuitEnum::Club);
        suits.push(SuitEnum::Heart);
        suits.push(SuitEnum::Diamond);
        assert(suits@ =~= SuitEnum::all());
        suits
    }
}

impl NumberEnum {
    /// Numeric value of the rank: Ace is 1, Seven is 7, King is 13.
    pub open spec fn rank(self) -> int {
        match self {
            NumberEnum::Ace => 1,
            NumberEnum::Two => 2,
            NumberEnum::Three => 3,
            NumberEnum::Four => 4,
            NumberEnum::Five => 5,
            NumberEnum::Six => 6,
            NumberEnum::Seven => 7,
            NumberEnum::Eight => 8,
            NumberEnum::Nine => 9,
            NumberEnum::Ten => 10,
            NumberEnum::Jack => 11,
            NumberEnum::Queen => 12,
            NumberEnum::King => 13,
        }
    }

    /// The rank with a given numeric value; values outside 1..=13 saturate.
    pub open spec fn of_rank(r: int) -> NumberEnum {
        if r <= 1 {
            NumberEnum::Ace
        } else if r == 2 {
            NumberEnum::Two
        } else if r == 3 {
            NumberEnum::Three
        } else if r == 4 {
            NumberEnum::Four
        } else if r == 5 {
            NumberEnum::Five
        } else if r == 6 {
            NumberEnum::Six
        } else if r == 7 {
            NumberEnum::Seven
        } else if r == 8 {
            NumberEnum::Eight
        } else if r == 9 {
            NumberEnum::Nine
        } else if r == 10 {
            NumberEnum::Ten
        } else if r == 11 {
            NumberEnum::Jack
        } else if r == 12 {
            NumberEnum::Queen
        } else {
            NumberEnum::King
        }
    }

    /// All ranks in ascending order.
    pub open spec fn all() -> Seq<NumberEnum> {
        Seq::new(13, |i: int| NumberEnum::of_rank(i + 1))
    }

    /// Lists the thirteen ranks from Ace up to King.
    pub fn iterator() -> (numbers: Vec<NumberEnum>)
        ensures
            numbers@ == NumberEnum::all(),
    {
        let mut numbers: Vec<NumberEnum> = Vec::new();
        numbers.push(NumberEnum::Ace);
        numbers.push(NumberEnum::Two);
        numbers.push(NumberEnum::Three);
        numbers.push(NumberEnum::Four);
        numbers.push(NumberEnum::Five);
        numbers.push(NumberEnum::Six);
        numbers.push(NumberEnum::Seven);
        numbers.push(NumberEnum::Eight);
        numbers.push(NumberEnum::Nine);
        numbers.push(NumberEnum::Ten);
        numbers.push(NumberEnum::Jack);
        numbers.push(NumberEnum::Queen);
        numbers.push(NumberEnum::King);
        assert(numbers@ =~= NumberEnum::all());
        numbers
    }

    /// Numeric value of the rank, from 1 for Ace to 13 for King.
    pub fn value(self) -> (r: u8)
        ensures
            r == self.rank(),
            1 <= r <= 13,
    {
        match self {
            NumberEnum::Ace => 1,
            NumberEnum::Two => 2,
            NumberEnum::Three => 3,
            NumberEnum::Four => 4,
            NumberEnum::Five => 5,
            NumberEnum::Six => 6,
            NumberEnum::Seven => 7,
            NumberEnum::Eight => 8,
            NumberEnum::Nine => 9,
            NumberEnum::Ten => 10,
            NumberEnum::Jack => 11,
            NumberEnum::Queen => 12,
            NumberEnum::King => 13,
        }
    }
}

/// The mathematical reading of a list of playable cards as functions return
/// it: the cards as a sequence, `None` where nothing can be played, or the
/// error unchanged.
pub open spec fn playable_view<E>(r: Result<Option<Vec<Card>>, E>) -> Result<Option<Seq<Card>>, E> {
    match r {
        Ok(Some(cards)) => Ok(Some(cards@)),
        Ok(None) => Ok(None),
        Err(e) => Err(e),
    }
}

/// Tells whether `card` occurs in `cards`.
pub fn contains_card(cards: &Vec<Card>, card: Card) -> (found: bool)
    ensures
        found == cards@.contains(card),
{
    let mut i: usize = 0;
    while i < cards.len()
        invariant
            i <= cards.len(),
            forall|j: int| 0 <= j < i ==> cards@[j] != card,
        decreases cards.len() - i,
    {
        if cards[i] == card {
            return true;
        }
        i += 1;
    }
    false
}

/// Rank values identify ranks: `of_rank` inverts `rank`, and `rank` stays
/// within 1..=13.
pub proof fn lemma_rank_roundtrip(number: NumberEnum)
    ensures
        1 <= number.rank() <= 13,
        NumberEnum::of_rank(number.rank()) == number,
{
}

} // verus!
