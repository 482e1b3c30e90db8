//! The rules and state of a tarot-deck solitaire game.
use vstd::prelude::*;

pub mod board;
pub mod card;
pub mod census;
pub mod game;
pub mod laws;
mod shuffle;

verus! {

} // verus!
