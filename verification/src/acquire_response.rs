//! What a player answers to the engine's outstanding request.

use vstd::prelude::*;
use crate::hotel_data::Hotel;
use crate::tile::Tile;

verus! {

/// What to do with one's shares of a defunct chain: handle one share
/// (`Keep`, `Sell`), two (`Trade`), or all remaining at once.
#[derive(Debug, PartialEq, Eq, Clone, Copy, Structural)]
pub enum DisposeStockChoice {
    Keep,
    Sell,
    Trade,
    SellAll,
    KeepAll,
    TradeAll,
}

/// Buy one share of a chain, or pass for the rest of the turn.
#[derive(Debug, PartialEq, Eq, Clone, Copy, Structural)]
pub enum BuyStockChoice {
    Buy(Hotel),
    Pass,
}

/// A player's answer; its shape must match the outstanding request.
#[derive(Debug, PartialEq, Eq, Clone, Copy, Structural)]
pub enum AcquireResponse {
    StartingTile,
    Tile(Tile),
    NewChain(Hotel),
    DefunctChainToResolve(Hotel),
    MergerSurvivor(Hotel),
    DisposeStock(usize, DisposeStockChoice),
    BuyStock(BuyStockChoice),
    EndGame(bool),
}

/// A response together with the seat index of the player who sent it.
#[derive(Debug, PartialEq, Eq, Clone, Copy, Structural)]
pub struct AcquirePlayerResponse {
    pub player: usize,
    pub response: AcquireResponse,
}

impl AcquirePlayerResponse {
    /// Tag `response` with the player who sent it.
    pub fn new(response: AcquireResponse, player: usize) -> (r: AcquirePlayerResponse)
        ensures
            r.player == player,
            r.response == response,
    {
        AcquirePlayerResponse { response, player }
    }
}

} // verus!
