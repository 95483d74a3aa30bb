//! Bookkeeping for the game-start tile race.

use vstd::prelude::*;
use crate::tile::{Tile, tile_before};

verus! {

/// The game-start phase: every player places one starting tile, and the
/// lexicographically lowest tile seen so far decides who moves first.
pub struct GameStartState {
    pub player_with_winning_tile: usize,
    pub winning_tile: Tile,
    pub remaining_number_of_players: usize,
}

impl GameStartState {
    /// A fresh race for `number_of_players` players.  The winning tile
    /// starts at a sentinel beyond every real tile.
    pub fn new(number_of_players: usize) -> (s: GameStartState)
        ensures
            s.player_with_winning_tile == usize::MAX,
            s.winning_tile == (Tile { row: usize::MAX, col: usize::MAX }),
            s.remaining_number_of_players == number_of_players,
    {
        GameStartState {
            player_with_winning_tile: usize::MAX,
            winning_tile: Tile { row: usize::MAX, col: usize::MAX },
            remaining_number_of_players: number_of_players,
        }
    }

    /// Record that `player` has placed the starting tile `tile`.  The lowest
    /// tile (column-major order) keeps the lead.  Returns true once every
    /// player has played.
    pub fn player_played_tile(&mut self, player: usize, tile: Tile) -> (done: bool)
        requires
            old(self).remaining_number_of_players > 0,
        ensures
            final(self).remaining_number_of_players == old(self).remaining_number_of_players - 1,
            done == (final(self).remaining_number_of_players == 0),
            tile_before(tile, old(self).winning_tile) ==> final(self).winning_tile == tile
                && final(self).player_with_winning_tile == player,
            !tile_before(tile, old(self).winning_tile) ==> final(self).winning_tile == old(
                self,
            ).winning_tile && final(self).player_with_winning_tile == old(
                self,
            ).player_with_winning_tile,
    {
        if tile.precedes(&self.winning_tile) {
            self.winning_tile = tile;
            self.player_with_winning_tile = player;
        }
        self.remaining_number_of_players = self.remaining_number_of_players - 1;
        self.remaining_number_of_players == 0
    }
}

} // verus!
