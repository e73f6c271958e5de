//! A punter for the river-claiming graph game: the game graph, its scoring
//! and move selection, message framing, the protocol steps of a punter and
//! the bookkeeping of battles between bots.
use vstd::prelude::*;

pub mod prelude;
pub mod edge;
pub mod paths;
pub mod tree;
pub mod protocol;
pub mod game;
pub mod io;
pub mod bot;
pub mod play;
pub mod arena;

verus! {

} // verus!
