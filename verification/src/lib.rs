use vstd::prelude::*;

pub mod card;
pub mod rules;
pub mod uno_game;

pub mod player;
pub mod text;

verus! {

} // verus!
