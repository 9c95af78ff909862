//! Rules engine for classic 8-cascade / 4-cell / 4-foundation FreeCell
//! solitaire: card and deck value types, the board containers, move
//! validation (including multi-card supermoves), win detection, an undo
//! history, and the textual command grammar.

use vstd::prelude::*;

mod action;
mod cascade;
mod cell;
mod deck;
mod foundation;
mod game;
mod single;
mod tableau;

pub use action::Action;
pub use action::FromCoordinate;
pub use action::ToCoordinate;
pub use cascade::Cascade;
pub use cell::Cell;
pub use deck::Card;
pub use deck::Deck;
pub use foundation::Foundation;
pub use game::Game;
pub use deck::Rank;
pub use deck::Suit;
pub use single::Single;
pub use tableau::Tableau;

verus! {

} // verus!
