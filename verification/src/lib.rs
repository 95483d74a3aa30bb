//! Rules engine for a tile-placement stock-trading board game.
//!
//! The engine owns the whole game state: the 9x12 board, the players, the
//! bank's stock pool and the pool of undrawn tiles.  It talks to whatever
//! surrounds it (a terminal UI, a bot) through a request/response protocol:
//! the engine publishes one outstanding request at a time and validates every
//! response against it before mutating any state.

pub mod acquire_game;
pub mod acquire_game_state;
pub mod acquire_request;
pub mod acquire_response;
pub mod game_board;
pub mod game_states;
pub mod hotel_data;
pub mod player;
pub mod text;
pub mod tile;
