//! The phase of the turn state machine, with its per-phase bookkeeping.

use crate::game_states::buy_stock_state::BuyStockState;
use crate::game_states::dispose_stock_state::DisposeStockState;
use crate::game_states::game_start_state::GameStartState;
use crate::game_states::merge_state::MergerState;
use vstd::prelude::*;

verus! {

/// The current phase of the game.  Each phase's payload is only meaningful
/// while that phase is active.
pub enum AcquireGameState {
    GameStart(GameStartState),
    PlayTile(usize),
    DisposeStock(DisposeStockState),
    Merger(MergerState),
    BuyStock(BuyStockState),
    EndGame(usize),
}

} // verus!
