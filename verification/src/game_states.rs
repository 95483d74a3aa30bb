//! Per-phase bookkeeping records of the turn state machine.

pub mod buy_stock_state;
pub mod dispose_stock_state;
pub mod game_start_state;
pub mod merge_state;
