//! Per-merger bookkeeping for the stock-disposal phase of one defunct chain.

use vstd::prelude::*;
use crate::hotel_data::Hotel;

verus! {

/// The stock-disposal phase: which chain went defunct, which chain survives,
/// who made the merge, and how many defunct shares each player still has to
/// dispose of.
pub struct DisposeStockState {
    pub merge_maker: usize,
    pub surviving_chain: Hotel,
    pub defunct_chain: Hotel,
    pub remaining_shares_per_player: Vec<u32>,
}

impl DisposeStockState {
    /// A fresh disposal phase over the given per-player share counts.
    pub fn new(
        merge_maker: usize,
        surviving_chain: Hotel,
        defunct_chain: Hotel,
        remaining_shares_per_player: Vec<u32>,
    ) -> (s: DisposeStockState)
        ensures
            s.merge_maker == merge_maker,
            s.surviving_chain == surviving_chain,
            s.defunct_chain == defunct_chain,
            s.remaining_shares_per_player == remaining_shares_per_player,
    {
        DisposeStockState { merge_maker, surviving_chain, defunct_chain, remaining_shares_per_player }
    }

    /// How many defunct shares `player` still has to dispose of.
    pub fn get_remaining_shares(&self, player: usize) -> (shares: u32)
        requires
            player < self.remaining_shares_per_player@.len(),
        ensures
            shares == self.remaining_shares_per_player@[player as int],
    {
        self.remaining_shares_per_player[player]
    }

    /// Record that `player` has decided the fate of `shares` of their
    /// remaining defunct shares.  Returns true when every player's remaining
    /// count has reached zero and the phase is over.
    pub fn player_handled_stock(&mut self, player: usize, shares: u32) -> (done: bool)
        requires
            player < old(self).remaining_shares_per_player@.len(),
            shares <= old(self).remaining_shares_per_player@[player as int],
        ensures
            final(self).merge_maker == old(self).merge_maker,
            final(self).surviving_chain == old(self).surviving_chain,
            final(self).defunct_chain == old(self).defunct_chain,
            final(self).remaining_shares_per_player@ == old(
                self,
            ).remaining_shares_per_player@.update(
                player as int,
                (old(self).remaining_shares_per_player@[player as int] - shares) as u32,
            ),
            done == (forall|k: int|
                0 <= k < final(self).remaining_shares_per_player@.len()
                    ==> final(self).remaining_shares_per_player@[k] == 0),
    {
        self.remaining_shares_per_player[player] = self.remaining_shares_per_player[player]
            - shares;
        let mut all_done = true;
        for i in 0..self.remaining_shares_per_player.len()
            invariant
                all_done == (forall|k: int|
                    0 <= k < i ==> self.remaining_shares_per_player@[k] == 0),
        {
            if self.remaining_shares_per_player[i] != 0 {
                all_done = false;
            }
        }
        all_done
    }
}

} // verus!
