//! What the engine is currently asking of the players.

use vstd::prelude::*;

verus! {

/// The one outstanding request of the engine.  In most variants the payload
/// is the seat index of the player being addressed; stock disposal may be
/// answered by any remaining holder, so it names nobody.
#[derive(Debug, PartialEq, Eq, Clone, Copy, Structural)]
pub enum AcquireRequest {
    PlayStartingTile(usize),
    PlayTile(usize),
    ChooseNewChain(usize),
    ChooseMergerSurvivor(usize),
    ChooseDefunctChainToResolve(usize),
    DisposeStock,
    BuyStock(usize),
    EndGame(usize),
}

} // verus!
