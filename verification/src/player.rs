//! A player: name, cash, per-chain stock holdings, and the hand of tiles.

use vstd::prelude::*;
use crate::tile::Tile;

verus! {

/// One player of the game.  Players are created at game start and are only
/// ever mutated by the turn engine.
#[derive(Debug, PartialEq, Eq, Clone)]
pub struct Player {
    pub name: String,
    /// One counter per hotel chain, indexed by the chain enumeration.
    pub stocks: Vec<u32>,
    pub cash: u32,
    /// The hand of unplayed tiles.
    pub tiles: Vec<Tile>,
}

impl Player {
    /// Whether the holdings vector has one counter per hotel chain.
    pub open spec fn wf(self) -> bool {
        self.stocks@.len() == 7
    }

    /// A fresh player: $6000 cash, no stock, an empty hand.
    pub fn new(name: &str) -> (p: Player)
        ensures
            p.wf(),
            p.name@ == name@,
            p.cash == 6000,
            forall|h: int| 0 <= h < 7 ==> p.stocks@[h] == 0,
            p.tiles@.len() == 0,
    {
        Player {
            name: name.to_owned(),
            stocks: vec![0, 0, 0, 0, 0, 0, 0],
            cash: 6000,
            tiles: Vec::new(),
        }
    }
}

impl core::default::Default for Player {
    /// A fresh player with an empty name.
    fn default() -> (p: Player)
        ensures
            p.wf(),
            p.name@.len() == 0,
            p.cash == 6000,
            forall|h: int| 0 <= h < 7 ==> p.stocks@[h] == 0,
            p.tiles@.len() == 0,
    {
        proof {
            reveal_strlit("");
        }
        Player::new("")
    }
}

} // verus!
