//! A simulator for a trick-free "Sevens" card game.
//!
//! Every suit has one stack that grows outward from its Seven. The library
//! models the stacks, the board that holds the four of them and the game
//! state built on top, and explores every possible playthrough of a deal to
//! list the seats that can win.
//!
//! - [`card_and_enums`]: cards, suits and ranks.
//! - [`stack`]: the stack of one suit and its rules of play.
//! - [`game_board`]: the four stacks of a game.
//! - [`player`]: hands, and taking a card out of them.
//! - [`game_state`]: board, hands and turn; passing, forced play and forks.
//! - [`multi_counter`] and [`deal`]: the deck, its shuffle and the deal.
//! - [`decision`]: classifying a position.
//! - [`explorer`]: the depth-first search through all playthroughs.
//! - [`conservation`]: every card lies on the board or in exactly one hand.

pub mod card_and_enums;
pub mod stack;
pub mod game_board;
pub mod player;
pub mod game_state;
pub mod multi_counter;
pub mod deal;
pub mod decision;
pub mod explorer;
pub mod conservation;
