//! Per-turn bookkeeping for the stock-buying phase.

use vstd::prelude::*;

verus! {

/// How many shares a player may buy in one turn.
pub const STOCK_TO_BUY_PER_TURN: u32 = 3;

/// The stock-buying phase: which player is buying and how many buys remain.
pub struct BuyStockState {
    pub player: usize,
    pub buys_remaining: u32,
}

impl BuyStockState {
    /// A fresh buying phase for `player`, with the full per-turn quota.
    pub fn new(player: usize) -> (s: BuyStockState)
        ensures
            s.player == player,
            s.buys_remaining == STOCK_TO_BUY_PER_TURN,
    {
        BuyStockState { player, buys_remaining: STOCK_TO_BUY_PER_TURN }
    }

    /// Record one purchase.  Returns true when the quota is used up and the
    /// phase is over.
    pub fn player_has_bought_stock(&mut self) -> (done: bool)
        requires
            old(self).buys_remaining > 0,
        ensures
            final(self).player == old(self).player,
            final(self).buys_remaining == old(self).buys_remaining - 1,
            done == (final(self).buys_remaining == 0),
    {
        self.buys_remaining = self.buys_remaining - 1;
        self.buys_remaining == 0
    }
}

} // verus!
