//! The turn engine: the orchestrator that owns the whole game state,
//! validates every player response against the outstanding request, mutates
//! board, players and bank accordingly, and advances the multi-phase turn
//! state machine.

use std::sync::Arc;
use vstd::prelude::*;
use vstd::string::StringExecFns;

use crate::acquire_game_state::AcquireGameState;
use crate::acquire_request::AcquireRequest;
use crate::acquire_response::{AcquireResponse, BuyStockChoice, DisposeStockChoice};
use crate::game_board::{contains_hotel, Cell, CellConflictType, CellNotPlayableReason, GameBoard, PlaceTileResult};
use crate::game_states::buy_stock_state::BuyStockState;
use crate::game_states::dispose_stock_state::DisposeStockState;
use crate::game_states::game_start_state::GameStartState;
use crate::game_states::merge_state::MergerState;
use crate::hotel_data::Hotel;
use crate::player::Player;
use crate::text::u32_to_string;
use crate::tile::Tile;

verus! {

/// The most players a game can seat.
pub const MAX_NUMBER_OF_PLAYERS: usize = 6;

/// How many shares of each chain the bank starts with.
pub const MAX_STOCK_PER_HOTEL: u32 = 25;

/// The sink for the engine's human-readable event log.  The engine only ever
/// appends: each game event becomes one `send_message` call.
pub trait AcquireGameCallback {
    /// Record one log line.
    fn send_message(&self, message: &str);
}

/// A value-level rule violation: the acting player may retry with a
/// corrected response.  No state is mutated when one of these is returned.
#[derive(Debug, PartialEq, Eq, Clone, Copy, Structural)]
pub enum InvalidMoveReason {
    /// The tile cannot be placed on its cell.
    NotPlayable(CellNotPlayableReason),
    /// The chosen chain is already on the board, so it cannot be founded.
    ChainAlreadyActive,
    /// The chosen chain is not among the acceptable choices for the request.
    ChainNotAcceptable,
    /// The player has no defunct shares left to dispose of.
    NoSharesRemaining,
    /// The choice covers more shares than the player has left.
    OverDisposal,
    /// A trade needs two shares; none can be traded here.
    NothingToTrade,
    /// The bank has too little survivor stock to honour the trade.
    NotEnoughSurvivorStock,
    /// The bank has no stock of the chosen chain.
    NoStockAvailable,
    /// The stock price exceeds the player's cash.
    NotEnoughCash,
    /// Stock can only be bought in an active chain.
    ChainNotActive,
}

impl InvalidMoveReason {
    /// A human-readable rendering of the reason.
    pub fn as_display_message(&self) -> (s: String)
        ensures
            s@ == match *self {
                InvalidMoveReason::NotPlayable(CellNotPlayableReason::ConflictOnBoard) => "There is a conflict on the board"@,
                InvalidMoveReason::NotPlayable(CellNotPlayableReason::HotelsAreAllActive) => "All hotels are currently active, cannot start a new chain"@,
                InvalidMoveReason::NotPlayable(CellNotPlayableReason::AdjacentHotelsAreSafe) => "Adjacent hotels are safe and cannot be merged"@,
                InvalidMoveReason::NotPlayable(CellNotPlayableReason::CellIsNotEmpty) => "The cell is not empty"@,
                InvalidMoveReason::NotPlayable(CellNotPlayableReason::CellIsOffBoard) => "The cell is off the board"@,
                InvalidMoveReason::ChainAlreadyActive => "Hotel is already on the board"@,
                InvalidMoveReason::ChainNotAcceptable => "Hotel is not an acceptable choice"@,
                InvalidMoveReason::NoSharesRemaining => "You have already disposed of all your shares"@,
                InvalidMoveReason::OverDisposal => "You cannot dispose of more shares than you have"@,
                InvalidMoveReason::NothingToTrade => "You cannot trade with only 1 share"@,
                InvalidMoveReason::NotEnoughSurvivorStock => "Not enough stock available to trade"@,
                InvalidMoveReason::NoStockAvailable => "No stock available to buy"@,
                InvalidMoveReason::NotEnoughCash => "You do not have enough cash to buy stock"@,
                InvalidMoveReason::ChainNotActive => "You cannot buy stock in an inactive chain"@,
            },
    {
        match self {
            InvalidMoveReason::NotPlayable(reason) => reason.as_display_message(),
            InvalidMoveReason::ChainAlreadyActive => "Hotel is already on the board".to_owned(),
            InvalidMoveReason::ChainNotAcceptable => "Hotel is not an acceptable choice".to_owned(),
            InvalidMoveReason::NoSharesRemaining => "You have already disposed of all your shares".to_owned(),
            InvalidMoveReason::OverDisposal => "You cannot dispose of more shares than you have".to_owned(),
            InvalidMoveReason::NothingToTrade => "You cannot trade with only 1 share".to_owned(),
            InvalidMoveReason::NotEnoughSurvivorStock => "Not enough stock available to trade".to_owned(),
            InvalidMoveReason::NoStockAvailable => "No stock available to buy".to_owned(),
            InvalidMoveReason::NotEnoughCash => "You do not have enough cash to buy stock".to_owned(),
            InvalidMoveReason::ChainNotActive => "You cannot buy stock in an inactive chain".to_owned(),
        }
    }
}

/// Why a response was rejected.  A `ProtocolMismatch` is a caller bug: the
/// response's shape does not fit the outstanding request.  An `InvalidMove`
/// is a game-rule violation that the acting player may correct and retry.
#[derive(Debug, PartialEq, Eq, Clone, Copy, Structural)]
pub enum AcquireError {
    ProtocolMismatch,
    InvalidMove(InvalidMoveReason),
}

impl AcquireError {
    /// A human-readable rendering of the error.
    pub fn as_display_message(&self) -> (s: String)
        ensures
            *self is ProtocolMismatch ==> s@ == "Response does not match the current request"@,
            *self matches AcquireError::InvalidMove(r) ==> s@ == r.as_display_message_spec(),
    {
        match self {
            AcquireError::ProtocolMismatch => "Response does not match the current request".to_owned(),
            AcquireError::InvalidMove(reason) => reason.as_display_message(),
        }
    }
}

impl InvalidMoveReason {
    /// The text that `as_display_message` renders.
    pub open spec fn as_display_message_spec(self) -> Seq<char> {
        match self {
            InvalidMoveReason::NotPlayable(CellNotPlayableReason::ConflictOnBoard) => "There is a conflict on the board"@,
            InvalidMoveReason::NotPlayable(CellNotPlayableReason::HotelsAreAllActive) => "All hotels are currently active, cannot start a new chain"@,
            InvalidMoveReason::NotPlayable(CellNotPlayableReason::AdjacentHotelsAreSafe) => "Adjacent hotels are safe and cannot be merged"@,
            InvalidMoveReason::NotPlayable(CellNotPlayableReason::CellIsNotEmpty) => "The cell is not empty"@,
            InvalidMoveReason::NotPlayable(CellNotPlayableReason::CellIsOffBoard) => "The cell is off the board"@,
            InvalidMoveReason::ChainAlreadyActive => "Hotel is already on the board"@,
            InvalidMoveReason::ChainNotAcceptable => "Hotel is not an acceptable choice"@,
            InvalidMoveReason::NoSharesRemaining => "You have already disposed of all your shares"@,
            InvalidMoveReason::OverDisposal => "You cannot dispose of more shares than you have"@,
            InvalidMoveReason::NothingToTrade => "You cannot trade with only 1 share"@,
            InvalidMoveReason::NotEnoughSurvivorStock => "Not enough stock available to trade"@,
            InvalidMoveReason::NoStockAvailable => "No stock available to buy"@,
            InvalidMoveReason::NotEnoughCash => "You do not have enough cash to buy stock"@,
            InvalidMoveReason::ChainNotActive => "You cannot buy stock in an inactive chain"@,
        }
    }
}

/// How many shares of chain index `h` the first `n` players hold together.
pub open spec fn total_stock(players: Seq<Player>, h: int, n: int) -> int
    decreases n,
{
    if n <= 0 {
        0
    } else {
        total_stock(players, h, n - 1) + players[n - 1].stocks@[h]
    }
}

/// Changing a single player changes each chain's held total exactly by that
/// player's difference.
proof fn lemma_total_stock_single_update(
    p1: Seq<Player>,
    p2: Seq<Player>,
    p: int,
    h: int,
    n: int,
)
    requires
        p1.len() == p2.len(),
        0 <= p < p1.len(),
        n <= p1.len(),
        forall|k: int| 0 <= k < p1.len() && k != p ==> p2[k] == p1[k],
    ensures
        total_stock(p2, h, n) == total_stock(p1, h, n) + if p < n {
            p2[p].stocks@[h] - p1[p].stocks@[h]
        } else {
            0
        },
    decreases n,
{
    if n > 0 {
        lemma_total_stock_single_update(p1, p2, p, h, n - 1);
    }
}

/// A chain's held total is nonnegative when every holding counter exists.
proof fn lemma_total_stock_nonneg(players: Seq<Player>, h: int, n: int)
    requires
        0 <= h < 7,
        n <= players.len(),
        forall|k: int| 0 <= k < players.len() ==> (#[trigger] players[k]).wf(),
    ensures
        total_stock(players, h, n) >= 0,
    decreases n,
{
    if n > 0 {
        lemma_total_stock_nonneg(players, h, n - 1);
    }
}

/// A single player's holding never exceeds the held total.
proof fn lemma_total_stock_member_bound(players: Seq<Player>, h: int, p: int, n: int)
    requires
        0 <= h < 7,
        0 <= p < n,
        n <= players.len(),
        forall|k: int| 0 <= k < players.len() ==> (#[trigger] players[k]).wf(),
    ensures
        players[p].stocks@[h] <= total_stock(players, h, n),
    decreases n,
{
    if n > 0 {
        if p == n - 1 {
            lemma_total_stock_nonneg(players, h, n - 1);
        } else {
            lemma_total_stock_member_bound(players, h, p, n - 1);
        }
    }
}

/// Whether tile `t` names an empty board cell.
pub open spec fn tile_on_empty_cell(board: GameBoard, t: Tile) -> bool {
    &&& t.row < 9
    &&& t.col < 12
    &&& board.cell(t.row as int, t.col as int) == Cell::Empty
}

/// The rules engine.  It owns the players, the board, the bank stock pool,
/// the pool of undrawn tiles, and the current phase and outstanding request,
/// and is the only writer of any of them.
pub struct AcquireGame<T: AcquireGameCallback> {
    pub players: Vec<Player>,
    pub message_callback: Arc<T>,
    pub board: GameBoard,
    pub available_tiles: Vec<Tile>,
    pub available_stock: Vec<u32>,
    pub current_request: AcquireRequest,
    pub current_state: AcquireGameState,
}

impl<T: AcquireGameCallback> AcquireGame<T> {
    /// The players: between 1 and 6 seats, each with its seven holding
    /// counters.
    pub open spec fn players_ok(&self) -> bool {
        &&& 1 <= self.players@.len() <= 6
        &&& forall|k: int| 0 <= k < self.players@.len() ==> (#[trigger] self.players@[k]).wf()
    }

    /// Bank stock conservation: for each chain, the bank's counter and the
    /// players' holdings always add up to the fixed issue cap of 25.
    pub open spec fn stock_ok(&self) -> bool {
        &&& self.available_stock@.len() == 7
        &&& forall|h: int|
            0 <= h < 7 ==> #[trigger] self.available_stock@[h] + total_stock(
                self.players@,
                h,
                self.players@.len() as int,
            ) == 25
    }

    /// The tile pools: undrawn tiles and hand tiles all name empty cells,
    /// and no tile is ever in two places at once.
    pub open spec fn tiles_ok(&self) -> bool {
        &&& self.available_tiles@.no_duplicates()
        &&& forall|k: int|
            0 <= k < self.available_tiles@.len() ==> tile_on_empty_cell(
                self.board,
                #[trigger] self.available_tiles@[k],
            )
        &&& forall|p: int, k: int|
            0 <= p < self.players@.len() && 0 <= k < self.players@[p].tiles@.len() ==> {
                &&& tile_on_empty_cell(self.board, #[trigger] self.players@[p].tiles@[k])
                &&& !self.available_tiles@.contains(self.players@[p].tiles@[k])
            }
        &&& forall|p1: int, k1: int, p2: int, k2: int|
            0 <= p1 < self.players@.len() && 0 <= k1 < self.players@[p1].tiles@.len() && 0 <= p2
                < self.players@.len() && 0 <= k2 < self.players@[p2].tiles@.len() && !(p1 == p2
                && k1 == k2) ==> #[trigger] self.players@[p1].tiles@[k1]
                != #[trigger] self.players@[p2].tiles@[k2]
    }

    /// The board keeps its shape, holds at most one conflict, and any merger
    /// conflict touches at least two chains.
    pub open spec fn board_ok(&self) -> bool {
        &&& self.board.wf()
        &&& self.board.at_most_one_conflict()
        &&& self.board.merge_conflict_has_adjacent()
    }

    /// The phase and the outstanding request are mutually consistent, and
    /// each phase's bookkeeping is sound against the board and the players.
    pub open spec fn state_ok(&self) -> bool {
        let n = self.players@.len() as int;
        match self.current_state {
            AcquireGameState::GameStart(gs) => {
                &&& 1 <= gs.remaining_number_of_players <= n
                &&& self.current_request == AcquireRequest::PlayStartingTile(
                    (n - gs.remaining_number_of_players) as usize,
                )
                &&& gs.remaining_number_of_players < n ==> gs.player_with_winning_tile < n
                &&& gs.remaining_number_of_players == n ==> gs.winning_tile == (Tile {
                    row: usize::MAX,
                    col: usize::MAX,
                })
                &&& !self.board.has_conflict()
            },
            AcquireGameState::PlayTile(p) => {
                &&& p < n
                &&& match self.current_request {
                    AcquireRequest::PlayTile(q) => q == p && !self.board.has_conflict(),
                    AcquireRequest::ChooseNewChain(q) => q == p && exists|r: int, c: int|
                        #[trigger] self.board.conflict_only_at(r, c) && self.board.cell(r, c)
                            == Cell::Conflict(crate::game_board::CellConflictType::NewChain),
                    AcquireRequest::ChooseMergerSurvivor(q) => q == p && (exists|r: int, c: int|
                        #[trigger] self.board.merge_conflict_at(r, c)) && (forall|r: int, c: int|
                        #[trigger] self.board.merge_conflict_at(r, c)
                            ==> self.board.adjacent_count(r, c) >= 2),
                    _ => false,
                }
            },
            AcquireGameState::BuyStock(bs) => {
                &&& bs.player < n
                &&& self.current_request == AcquireRequest::BuyStock(bs.player)
                &&& 1 <= bs.buys_remaining <= 3
                &&& !self.board.has_conflict()
            },
            AcquireGameState::Merger(ms) => {
                &&& self.current_request == AcquireRequest::ChooseDefunctChainToResolve(
                    ms.merge_maker,
                )
                &&& self.merger_facts(ms)
            },
            AcquireGameState::DisposeStock(ds) => {
                &&& ds.merge_maker < n
                &&& self.current_request == AcquireRequest::DisposeStock
                &&& ds.remaining_shares_per_player@.len() == n
                &&& ds.defunct_chain != ds.surviving_chain
                &&& forall|p: int|
                    0 <= p < n ==> #[trigger] ds.remaining_shares_per_player@[p]
                        <= self.players@[p].stocks@[crate::hotel_data::hotel_index_spec(
                        ds.defunct_chain,
                    )]
                &&& exists|r: int, c: int| #[trigger] self.board.merge_conflict_at(r, c)
                &&& forall|r: int, c: int| #[trigger] self.board.merge_conflict_at(r, c)
                    ==> self.board.adjacent_spec(r, c, ds.defunct_chain)
                        || self.board.adjacent_spec(r, c, ds.surviving_chain)
            },
            AcquireGameState::EndGame(p) => {
                &&& p < n
                &&& self.current_request == AcquireRequest::EndGame(p)
            },
        }
    }

    /// The engine's full invariant.
    pub open spec fn wf(&self) -> bool {
        &&& self.players_ok()
        &&& self.stock_ok()
        &&& self.tiles_ok()
        &&& self.board_ok()
        &&& self.state_ok()
    }

    /// The outstanding request.
    pub open spec fn request_spec(&self) -> AcquireRequest {
        self.current_request
    }

    /// The undrawn tile pool, as a sequence.
    pub open spec fn tiles_spec(&self) -> Seq<Tile> {
        self.available_tiles@
    }

    /// The bank's stock counters, as a sequence indexed by chain.
    pub open spec fn bank_spec(&self) -> Seq<u32> {
        self.available_stock@
    }

    /// The current phase.
    pub open spec fn state_spec(&self) -> AcquireGameState {
        self.current_state
    }

    /// A fresh game: an empty board, `number_of_players` players with $6000
    /// and empty hands, a full bank, all 108 tiles undrawn, and the
    /// starting-tile race about to begin with the first seat.
    pub fn new(number_of_players: usize, message_callback: Arc<T>) -> (game: AcquireGame<T>)
        requires
            1 <= number_of_players <= 6,
        ensures
            game.wf(),
            game.players@.len() == number_of_players,
            forall|p: int| 0 <= p < number_of_players ==> {
                &&& (#[trigger] game.players@[p]).cash == 6000
                &&& game.players@[p].tiles@.len() == 0
                &&& forall|h: int| 0 <= h < 7 ==> game.players@[p].stocks@[h] == 0
            },
            forall|h: int| 0 <= h < 7 ==> game.bank_spec()[h] == MAX_STOCK_PER_HOTEL,
            game.tiles_spec().len() == 108,
            forall|r: int, c: int| 0 <= r < 9 && 0 <= c < 12 ==> #[trigger] game.board.cell(r, c)
                == Cell::Empty,
            game.request_spec() == AcquireRequest::PlayStartingTile(0usize),
            game.state_spec() matches AcquireGameState::GameStart(gs)
                && gs.remaining_number_of_players == number_of_players,
    {
        let mut available_tiles: Vec<Tile> = Vec::new();
        for row in 0..9usize
            invariant
                available_tiles@.len() == row * 12,
                forall|k: int| 0 <= k < available_tiles@.len() ==> {
                    &&& (#[trigger] available_tiles@[k]).row < row
                    &&& available_tiles@[k].col < 12
                    &&& available_tiles@[k].row * 12 + available_tiles@[k].col == k
                },
        {
            for col in 0..12usize
                invariant
                    row < 9,
                    available_tiles@.len() == row * 12 + col,
                    forall|k: int| 0 <= k < available_tiles@.len() ==> {
                        &&& ((#[trigger] available_tiles@[k]).row < row || (
                        available_tiles@[k].row == row && available_tiles@[k].col < col))
                        &&& available_tiles@[k].row < 9
                        &&& available_tiles@[k].col < 12
                        &&& available_tiles@[k].row * 12 + available_tiles@[k].col == k
                    },
            {
                available_tiles.push(Tile { row, col });
            }
        }
        proof {
            assert forall|k1: int, k2: int|
                0 <= k1 < available_tiles@.len() && 0 <= k2 < available_tiles@.len() && k1 != k2
                implies available_tiles@[k1] != available_tiles@[k2] by {
                assert(available_tiles@[k1].row * 12 + available_tiles@[k1].col == k1);
                assert(available_tiles@[k2].row * 12 + available_tiles@[k2].col == k2);
            }
        }

        let mut players: Vec<Player> = Vec::new();
        let mut i: usize = 0;
        while i < number_of_players
            invariant
                i <= number_of_players,
                players@.len() == i,
                forall|k: int| 0 <= k < i ==> {
                    &&& (#[trigger] players@[k]).wf()
                    &&& players@[k].cash == 6000
                    &&& players@[k].tiles@.len() == 0
                    &&& forall|h: int| 0 <= h < 7 ==> players@[k].stocks@[h] == 0
                },
            decreases number_of_players - i,
        {
            let name: &'static str = if i == 0 {
                "Player 1"
            } else if i == 1 {
                "Player 2"
            } else if i == 2 {
                "Player 3"
            } else if i == 3 {
                "Player 4"
            } else if i == 4 {
                "Player 5"
            } else {
                "Player 6"
            };
            players.push(Player::new(name));
            i = i + 1;
        }

        let board = GameBoard::new();

        message_callback.send_message("Welcome to Acquire!");

        let game = AcquireGame {
            players,
            message_callback,
            board,
            available_tiles,
            available_stock: vec![
                MAX_STOCK_PER_HOTEL,
                MAX_STOCK_PER_HOTEL,
                MAX_STOCK_PER_HOTEL,
                MAX_STOCK_PER_HOTEL,
                MAX_STOCK_PER_HOTEL,
                MAX_STOCK_PER_HOTEL,
                MAX_STOCK_PER_HOTEL,
            ],
            current_request: AcquireRequest::PlayStartingTile(0),
            current_state: AcquireGameState::GameStart(GameStartState::new(number_of_players)),
        };
        proof {
            assert forall|h: int| 0 <= h < 7 implies #[trigger] game.available_stock@[h]
                + total_stock(game.players@, h, game.players@.len() as int) == 25 by {
                lemma_total_stock_all_zero(game.players@, h, game.players@.len() as int);
            }
        }
        game
    }

    /// The bank's remaining purchasable shares of `hotel`.
    pub fn get_current_stock_availability(&self, hotel: Hotel) -> (shares: u32)
        requires
            self.stock_ok(),
        ensures
            shares == self.bank_spec()[crate::hotel_data::hotel_index_spec(hotel)],
    {
        self.available_stock[hotel.index()]
    }

    /// The current stock price of `hotel`, at its current chain size.
    pub fn get_current_stock_price(&self, hotel: Hotel) -> (price: u32)
        requires
            self.board.wf(),
        ensures
            price == crate::hotel_data::stock_value_spec(
                hotel,
                self.board.chain_size_spec(hotel),
            ),
    {
        hotel.get_stock_value(self.board.get_hotel_chain_size(hotel))
    }

    /// The outstanding request.
    pub fn get_current_request(&self) -> (req: &AcquireRequest)
        ensures
            *req == self.request_spec(),
    {
        &self.current_request
    }

    /// How many tiles are left in the draw pool.
    pub fn get_number_of_tiles_left(&self) -> (n: usize)
        ensures
            n == self.tiles_spec().len(),
    {
        self.available_tiles.len()
    }

    /// The current board size of chain `hotel`.
    pub(crate) fn get_current_chain_size(&self, hotel: Hotel) -> (size: usize)
        requires
            self.board.wf(),
        ensures
            size == self.board.chain_size_spec(hotel),
    {
        self.board.get_hotel_chain_size(hotel)
    }

    /// Draw one tile from the pool, uniformly at random.  The drawn tile
    /// leaves the pool; nothing else changes.
    pub fn take_random_tile(&mut self) -> (tile: Tile)
        requires
            old(self).tiles_spec().len() > 0,
            old(self).tiles_spec().no_duplicates(),
        ensures
            old(self).tiles_spec().contains(tile),
            final(self).tiles_spec().no_duplicates(),
            final(self).tiles_spec().len() == old(self).tiles_spec().len() - 1,
            forall|t: Tile| final(self).tiles_spec().contains(t) <==> (old(self).tiles_spec().contains(t) && t != tile),
            final(self).players == old(self).players,
            final(self).board == old(self).board,
            final(self).available_stock == old(self).available_stock,
            final(self).current_request == old(self).current_request,
            final(self).current_state == old(self).current_state,
            final(self).message_callback == old(self).message_callback,
    {
        let idx = random_below(self.available_tiles.len());
        let ghost pre = self.available_tiles@;
        let tile = self.available_tiles.swap_remove(idx);
        proof {
            let post = self.available_tiles@;
            assert(post == pre.update(idx as int, pre.last()).drop_last());
            assert forall|t: Tile| post.contains(t) implies (pre.contains(t) && t != tile) by {
                let k = choose|k: int| 0 <= k < post.len() && post[k] == t;
                if k == idx {
                    assert(pre[pre.len() - 1] == t);
                } else {
                    assert(pre[k] == t);
                }
            }
            assert forall|t: Tile| pre.contains(t) && t != tile implies post.contains(t) by {
                let k = choose|k: int| 0 <= k < pre.len() && pre[k] == t;
                if k == pre.len() - 1 {
                    assert(k != idx);
                    assert(post[idx as int] == t);
                } else if k != idx {
                    assert(post[k] == t);
                }
            }
            assert forall|k1: int, k2: int|
                0 <= k1 < post.len() && 0 <= k2 < post.len() && k1 != k2 implies post[k1]
                != post[k2] by {
                let m1: int = if k1 == idx {
                    pre.len() - 1
                } else {
                    k1
                };
                let m2: int = if k2 == idx {
                    pre.len() - 1
                } else {
                    k2
                };
                assert(post[k1] == pre[m1]);
                assert(post[k2] == pre[m2]);
            }
        }
        tile
    }
}

/// Every chain total over players holding nothing is zero.
proof fn lemma_total_stock_all_zero(players: Seq<Player>, h: int, n: int)
    requires
        0 <= h < 7,
        n <= players.len(),
        forall|k: int| 0 <= k < players.len() ==> (#[trigger] players[k]).wf() && players[k].stocks@[h]
            == 0,
    ensures
        total_stock(players, h, n) == 0,
    decreases n,
{
    if n > 0 {
        lemma_total_stock_all_zero(players, h, n - 1);
    }
}

/// Relies on rand's `thread_rng` and `Rng::gen_range`: for a non-empty range
/// `0..bound` the sampled value is uniform in it, so in particular below
/// `bound`.  Nothing more is assumed of the value.
#[verifier::external_body]
fn random_below(bound: usize) -> (r: usize)
    requires
        bound > 0,
    ensures
        r < bound,
{
    rand::Rng::gen_range(&mut rand::thread_rng(), 0..bound)
}

/// Every player's cash is expected to stay below this headroom bound; one
/// accepted response raises a player's cash by well under the slack of
/// 60000, so the engine's arithmetic never overflows.
pub const CASH_CAP: u32 = u32::MAX - 60000;

/// The highest holding of chain index `h` among the first `n` players.
pub open spec fn max_holding(players: Seq<Player>, h: int, n: int) -> int
    decreases n,
{
    if n <= 0 {
        0
    } else {
        let rest = max_holding(players, h, n - 1);
        if players[n - 1].stocks@[h] > rest {
            players[n - 1].stocks@[h] as int
        } else {
            rest
        }
    }
}

/// The highest holding of chain index `h` strictly below `cap` among the
/// first `n` players.
pub open spec fn max_holding_below(players: Seq<Player>, h: int, n: int, cap: int) -> int
    decreases n,
{
    if n <= 0 {
        0
    } else {
        let rest = max_holding_below(players, h, n - 1, cap);
        if players[n - 1].stocks@[h] < cap && players[n - 1].stocks@[h] > rest {
            players[n - 1].stocks@[h] as int
        } else {
            rest
        }
    }
}

/// Whether player `p` is a majority holder of chain index `h`: a holder at
/// the highest holding.
pub open spec fn is_majority(players: Seq<Player>, h: int, p: int) -> bool {
    &&& players[p].stocks@[h] > 0
    &&& players[p].stocks@[h] == max_holding(players, h, players.len() as int)
}

/// Whether player `p` is a minority holder of chain index `h`: a holder at
/// the second-highest holding.
pub open spec fn is_minority(players: Seq<Player>, h: int, p: int) -> bool {
    &&& players[p].stocks@[h] > 0
    &&& players[p].stocks@[h] == max_holding_below(
        players,
        h,
        players.len() as int,
        max_holding(players, h, players.len() as int),
    )
}

/// How many of the first `n` players are majority holders of chain index `h`.
pub open spec fn majority_count(players: Seq<Player>, h: int, n: int) -> int
    decreases n,
{
    if n <= 0 {
        0
    } else {
        majority_count(players, h, n - 1) + if is_majority(players, h, n - 1) {
            1int
        } else {
            0
        }
    }
}

/// How many of the first `n` players are minority holders of chain index `h`.
pub open spec fn minority_count(players: Seq<Player>, h: int, n: int) -> int
    decreases n,
{
    if n <= 0 {
        0
    } else {
        minority_count(players, h, n - 1) + if is_minority(players, h, n - 1) {
            1int
        } else {
            0
        }
    }
}

/// What the merger payout of a defunct chain of size `size` hands player
/// `p`: the majority bonus split evenly across the majority holders, the
/// minority bonus split across the minority holders, and the minority bonus
/// folded into the majority payout when there is no minority holder or the
/// majority is shared.  Integer division throws remainders away; players
/// holding nothing receive nothing.
pub open spec fn defunct_payout(players: Seq<Player>, defunct: Hotel, size: int, p: int) -> int {
    let h = crate::hotel_data::hotel_index_spec(defunct);
    let n = players.len() as int;
    let maj = majority_count(players, h, n);
    let min = minority_count(players, h, n);
    let majority_bonus = crate::hotel_data::majority_bonus_spec(defunct, size);
    let minority_bonus = crate::hotel_data::minority_bonus_spec(defunct, size);
    let folded = min == 0 || maj > 1;
    let total_majority = if folded {
        majority_bonus + minority_bonus
    } else {
        majority_bonus
    };
    if maj > 0 && is_majority(players, h, p) {
        total_majority / maj
    } else if !folded && is_minority(players, h, p) {
        minority_bonus / min
    } else {
        0
    }
}

impl<T: AcquireGameCallback> AcquireGame<T> {
    /// Whether `pre` and `post` agree on everything but the phase and the
    /// outstanding request.
    pub open spec fn same_but_phase(pre: &Self, post: &Self) -> bool {
        &&& post.players == pre.players
        &&& post.board == pre.board
        &&& post.available_tiles == pre.available_tiles
        &&& post.available_stock == pre.available_stock
        &&& post.message_callback == pre.message_callback
    }

    /// What ending `player`'s turn leaves behind: the player drew one random
    /// tile into their hand, and play passed to the next seat.
    pub open spec fn turn_end_rel(pre: &Self, post: &Self, player: int) -> bool {
        let n = pre.players@.len() as int;
        &&& post.players@.len() == n
        &&& forall|k: int| 0 <= k < n && k != player ==> #[trigger] post.players@[k]
            == pre.players@[k]
        &&& post.players@[player].name == pre.players@[player].name
        &&& post.players@[player].cash == pre.players@[player].cash
        &&& post.players@[player].stocks == pre.players@[player].stocks
        &&& post.players@[player].tiles@.len() == pre.players@[player].tiles@.len() + 1
        &&& post.players@[player].tiles@.drop_last() == pre.players@[player].tiles@
        &&& pre.available_tiles@.contains(post.players@[player].tiles@.last())
        &&& post.available_tiles@.len() == pre.available_tiles@.len() - 1
        &&& post.board == pre.board
        &&& post.available_stock == pre.available_stock
        &&& post.message_callback == pre.message_callback
        &&& post.current_request == AcquireRequest::PlayTile(
            ((player + 1) % n) as usize,
        )
        &&& post.current_state matches AcquireGameState::PlayTile(q) && q == (
        (player + 1) % n) as usize
    }

    /// What entering the stock-buying phase for `player` leaves behind:
    /// nothing moved, and the engine awaits up to three buys.
    pub open spec fn buy_entry_rel(pre: &Self, post: &Self, player: int) -> bool {
        &&& Self::same_but_phase(pre, post)
        &&& post.current_request == AcquireRequest::BuyStock(player as usize)
        &&& post.current_state matches AcquireGameState::BuyStock(bs) && bs.player == player
            as usize && bs.buys_remaining == 3
    }

    /// What follows a completed placement (or resolution, or merger) for
    /// `player`: the buying phase when some active chain still has bank
    /// stock, and the end of the turn otherwise.
    pub open spec fn after_placement_rel(pre: &Self, post: &Self, player: int) -> bool {
        if exists|h: Hotel| #[trigger] pre.board.chain_active(h) && pre.available_stock@[
            crate::hotel_data::hotel_index_spec(h)
        ] > 0 {
            Self::buy_entry_rel(pre, post, player)
        } else {
            Self::turn_end_rel(pre, post, player)
        }
    }

    /// Hand `player` `shares` fresh shares of `hotel` from the bank; when
    /// the bank has too few, nothing moves.
    fn give_player_stock(&mut self, hotel: Hotel, player: usize, shares: u32)
        requires
            old(self).players_ok(),
            old(self).stock_ok(),
            player < old(self).players@.len(),
        ensures
            final(self).players_ok(),
            final(self).stock_ok(),
            final(self).board == old(self).board,
            final(self).available_tiles == old(self).available_tiles,
            final(self).current_request == old(self).current_request,
            final(self).current_state == old(self).current_state,
            final(self).message_callback == old(self).message_callback,
            final(self).players@.len() == old(self).players@.len(),
            forall|k: int|
                0 <= k < old(self).players@.len() && k != player ==> #[trigger] final(self).players@[k] == old(self).players@[k],
            final(self).players@[player as int].name == old(self).players@[player as int].name,
            final(self).players@[player as int].cash == old(self).players@[player as int].cash,
            final(self).players@[player as int].tiles == old(self).players@[player as int].tiles,
            ({
                let h = crate::hotel_data::hotel_index_spec(hotel);
                if old(self).available_stock@[h] >= shares {
                    &&& final(self).players@[player as int].stocks@ == old(self).players@[player as int].stocks@.update(
                        h,
                        (old(self).players@[player as int].stocks@[h] + shares) as u32,
                    )
                    &&& final(self).available_stock@ == old(self).available_stock@.update(
                        h,
                        (old(self).available_stock@[h] - shares) as u32,
                    )
                } else {
                    &&& final(self).players@[player as int] == old(self).players@[player as int]
                    &&& final(self).available_stock@ == old(self).available_stock@
                }
            }),
    {
        let h = hotel.index();
        if self.available_stock[h] < shares {
            self.message_callback.send_message("No stock available for the founding bonus");
            return ;
        }
        let ghost pre_players = self.players@;
        proof {
            lemma_total_stock_member_bound(
                self.players@,
                h as int,
                player as int,
                self.players@.len() as int,
            );
            lemma_total_stock_nonneg(self.players@, h as int, self.players@.len() as int);
        }
        self.players[player].stocks[h] = self.players[player].stocks[h] + shares;
        self.available_stock[h] = self.available_stock[h] - shares;
        proof {
            assert forall|h2: int| 0 <= h2 < 7 implies #[trigger] self.available_stock@[h2]
                + total_stock(self.players@, h2, self.players@.len() as int) == 25 by {
                lemma_total_stock_single_update(
                    pre_players,
                    self.players@,
                    player as int,
                    h2,
                    pre_players.len() as int,
                );
            }
        }
    }

    /// Sell `shares` of `player`'s holding of `hotel` back to the bank at
    /// the current price; when the player holds too few, nothing moves.
    fn sell_off_players_stock(&mut self, hotel: Hotel, player: usize, shares: u32)
        requires
            old(self).players_ok(),
            old(self).stock_ok(),
            old(self).board.wf(),
            player < old(self).players@.len(),
            old(self).players@[player as int].cash + 30000 <= u32::MAX,
            shares <= 25,
        ensures
            final(self).players_ok(),
            final(self).stock_ok(),
            final(self).board == old(self).board,
            final(self).available_tiles == old(self).available_tiles,
            final(self).current_request == old(self).current_request,
            final(self).current_state == old(self).current_state,
            final(self).message_callback == old(self).message_callback,
            final(self).players@.len() == old(self).players@.len(),
            forall|k: int|
                0 <= k < old(self).players@.len() && k != player ==> #[trigger] final(self).players@[k] == old(self).players@[k],
            final(self).players@[player as int].name == old(self).players@[player as int].name,
            final(self).players@[player as int].tiles == old(self).players@[player as int].tiles,
            ({
                let h = crate::hotel_data::hotel_index_spec(hotel);
                let price = crate::hotel_data::stock_value_spec(
                    hotel,
                    old(self).board.chain_size_spec(hotel),
                );
                if old(self).players@[player as int].stocks@[h] >= shares {
                    &&& final(self).players@[player as int].cash == old(self).players@[player as int].cash + price * shares
                    &&& final(self).players@[player as int].stocks@ == old(self).players@[player as int].stocks@.update(
                        h,
                        (old(self).players@[player as int].stocks@[h] - shares) as u32,
                    )
                    &&& final(self).available_stock@ == old(self).available_stock@.update(
                        h,
                        (old(self).available_stock@[h] + shares) as u32,
                    )
                } else {
                    &&& final(self).players@[player as int] == old(self).players@[player as int]
                    &&& final(self).available_stock@ == old(self).available_stock@
                }
            }),
    {
        let h = hotel.index();
        if self.players[player].stocks[h] < shares {
            return ;
        }
        let ghost pre_players = self.players@;
        let stock_value = hotel.get_stock_value(self.board.get_hotel_chain_size(hotel));
        proof {
            assert(stock_value * shares <= 30000) by (nonlinear_arith)
                requires
                    200 <= stock_value <= 1200,
                    0 <= shares <= 25,
            ;
            lemma_total_stock_member_bound(
                self.players@,
                h as int,
                player as int,
                self.players@.len() as int,
            );
            lemma_total_stock_nonneg(self.players@, h as int, self.players@.len() as int);
        }
        let payout = stock_value * shares;
        self.players[player].cash = self.players[player].cash + payout;
        self.available_stock[h] = self.available_stock[h] + shares;
        self.players[player].stocks[h] = self.players[player].stocks[h] - shares;
        proof {
            assert forall|h2: int| 0 <= h2 < 7 implies #[trigger] self.available_stock@[h2]
                + total_stock(self.players@, h2, self.players@.len() as int) == 25 by {
                lemma_total_stock_single_update(
                    pre_players,
                    self.players@,
                    player as int,
                    h2,
                    pre_players.len() as int,
                );
            }
        }
        let message = self.players[player].name.clone().concat(" has sold ").concat(
            u32_to_string(shares).as_str(),
        ).concat(" stock in ").concat(hotel.name()).concat(" for $").concat(
            u32_to_string(payout).as_str(),
        );
        self.message_callback.send_message(message.as_str());
    }

    /// Return `shares` of `player`'s holding of `hotel` to the bank without
    /// payment; when the player holds too few, nothing moves.
    fn take_back_players_stock(&mut self, hotel: Hotel, player: usize, shares: u32)
        requires
            old(self).players_ok(),
            old(self).stock_ok(),
            player < old(self).players@.len(),
        ensures
            final(self).players_ok(),
            final(self).stock_ok(),
            final(self).board == old(self).board,
            final(self).available_tiles == old(self).available_tiles,
            final(self).current_request == old(self).current_request,
            final(self).current_state == old(self).current_state,
            final(self).message_callback == old(self).message_callback,
            final(self).players@.len() == old(self).players@.len(),
            forall|k: int|
                0 <= k < old(self).players@.len() && k != player ==> #[trigger] final(self).players@[k] == old(self).players@[k],
            final(self).players@[player as int].name == old(self).players@[player as int].name,
            final(self).players@[player as int].cash == old(self).players@[player as int].cash,
            final(self).players@[player as int].tiles == old(self).players@[player as int].tiles,
            ({
                let h = crate::hotel_data::hotel_index_spec(hotel);
                if old(self).players@[player as int].stocks@[h] >= shares {
                    &&& final(self).players@[player as int].stocks@ == old(self).players@[player as int].stocks@.update(
                        h,
                        (old(self).players@[player as int].stocks@[h] - shares) as u32,
                    )
                    &&& final(self).available_stock@ == old(self).available_stock@.update(
                        h,
                        (old(self).available_stock@[h] + shares) as u32,
                    )
                } else {
                    &&& final(self).players@[player as int] == old(self).players@[player as int]
                    &&& final(self).available_stock@ == old(self).available_stock@
                }
            }),
    {
        let h = hotel.index();
        if self.players[player].stocks[h] < shares {
            return ;
        }
        let ghost pre_players = self.players@;
        proof {
            lemma_total_stock_member_bound(
                self.players@,
                h as int,
                player as int,
                self.players@.len() as int,
            );
            lemma_total_stock_nonneg(self.players@, h as int, self.players@.len() as int);
        }
        self.players[player].stocks[h] = self.players[player].stocks[h] - shares;
        self.available_stock[h] = self.available_stock[h] + shares;
        proof {
            assert forall|h2: int| 0 <= h2 < 7 implies #[trigger] self.available_stock@[h2]
                + total_stock(self.players@, h2, self.players@.len() as int) == 25 by {
                lemma_total_stock_single_update(
                    pre_players,
                    self.players@,
                    player as int,
                    h2,
                    pre_players.len() as int,
                );
            }
        }
    }

    /// Split `total_payout` evenly (integer division, remainder withheld)
    /// across the players listed in `indices`, each listed player receiving
    /// one share of it in cash.
    fn distribute_payouts(&mut self, indices: &Vec<usize>, total_payout: u32)
        requires
            old(self).players_ok(),
            indices@.no_duplicates(),
            indices@.len() <= old(self).players@.len(),
            forall|k: int| 0 <= k < indices@.len() ==> #[trigger] indices@[k] < old(self).players@.len(),
            forall|p: int|
                0 <= p < old(self).players@.len() ==> #[trigger] old(self).players@[p].cash
                    + total_payout <= u32::MAX,
        ensures
            final(self).players_ok(),
            final(self).board == old(self).board,
            final(self).available_tiles == old(self).available_tiles,
            final(self).available_stock == old(self).available_stock,
            final(self).current_request == old(self).current_request,
            final(self).current_state == old(self).current_state,
            final(self).message_callback == old(self).message_callback,
            final(self).players@.len() == old(self).players@.len(),
            forall|p: int| 0 <= p < old(self).players@.len() ==> {
                &&& (#[trigger] final(self).players@[p]).name == old(self).players@[p].name
                &&& final(self).players@[p].stocks == old(self).players@[p].stocks
                &&& final(self).players@[p].tiles == old(self).players@[p].tiles
                &&& final(self).players@[p].cash == old(self).players@[p].cash + if indices@.len()
                    > 0 && indices@.contains(p as usize) {
                    total_payout as int / indices@.len() as int
                } else {
                    0
                }
            },
    {
        if indices.len() == 0 {
            return ;
        }
        let payout_per_player = total_payout / (indices.len() as u32);
        proof {
            assert(payout_per_player == total_payout as int / indices@.len() as int) by (nonlinear_arith)
                requires
                    payout_per_player == total_payout as u32 / (indices@.len() as u32),
                    0 < indices@.len() <= u32::MAX,
                    total_payout <= u32::MAX,
            ;
        }
        let ghost orig_players = self.players@;
        let mut i: usize = 0;
        while i < indices.len()
            invariant
                self.players_ok(),
                i <= indices@.len(),
                indices@.no_duplicates(),
                forall|k: int| 0 <= k < indices@.len() ==> #[trigger] indices@[k]
                    < orig_players.len(),
                forall|p: int|
                    0 <= p < orig_players.len() ==> #[trigger] orig_players[p].cash + total_payout
                        <= u32::MAX,
                payout_per_player <= total_payout,
                self.players@.len() == orig_players.len(),
                forall|p: int| 0 <= p < orig_players.len() ==> {
                    &&& (#[trigger] self.players@[p]).name == orig_players[p].name
                    &&& self.players@[p].stocks == orig_players[p].stocks
                    &&& self.players@[p].tiles == orig_players[p].tiles
                    &&& self.players@[p].cash == orig_players[p].cash + if indices@.subrange(
                        0,
                        i as int,
                    ).contains(p as usize) {
                        payout_per_player as int
                    } else {
                        0
                    }
                },
                self.board == old(self).board,
                self.available_tiles == old(self).available_tiles,
                self.available_stock == old(self).available_stock,
                self.current_request == old(self).current_request,
                self.current_state == old(self).current_state,
                self.message_callback == old(self).message_callback,
            decreases indices@.len() - i,
        {
            let index = indices[i];
            proof {
                if indices@.subrange(0, i as int).contains(index) {
                    let k = choose|k: int| 0 <= k < i && indices@.subrange(0, i as int)[k] == index;
                    assert(indices@[k] == indices@[i as int]);
                    assert(false);
                }
            }
            let message = self.players[index].name.clone().concat(" receives a payout of $")
                .concat(u32_to_string(payout_per_player).as_str());
            self.message_callback.send_message(message.as_str());
            self.players[index].cash = self.players[index].cash + payout_per_player;
            proof {
                assert(indices@.subrange(0, i as int + 1).drop_last() == indices@.subrange(
                    0,
                    i as int,
                ));
                assert forall|p: int| 0 <= p < orig_players.len() implies (
                #[trigger] self.players@[p]).cash == orig_players[p].cash + if indices@.subrange(
                    0,
                    i as int + 1,
                ).contains(p as usize) {
                    payout_per_player as int
                } else {
                    0
                } by {
                    let sub = indices@.subrange(0, i as int + 1);
                    if sub.contains(p as usize) {
                        let k = choose|k: int| 0 <= k < sub.len() && sub[k] == p as usize;
                        if k < i {
                            assert(indices@.subrange(0, i as int)[k] == p as usize);
                            assert(p != index as int);
                        } else {
                            assert(p == index as int);
                            if indices@.subrange(0, i as int).contains(p as usize) {
                                let k2 = choose|k2: int|
                                    0 <= k2 < i && indices@.subrange(0, i as int)[k2]
                                        == p as usize;
                                assert(indices@[k2] == indices@[i as int]);
                                assert(false);
                            }
                        }
                    } else {
                        assert(!indices@.subrange(0, i as int).contains(p as usize)) by {
                            if indices@.subrange(0, i as int).contains(p as usize) {
                                let k = choose|k: int|
                                    0 <= k < i && indices@.subrange(0, i as int)[k] == p as usize;
                                assert(sub[k] == p as usize);
                            }
                        }
                        assert(p != index as int) by {
                            if p == index as int {
                                assert(sub[i as int] == p as usize);
                            }
                        }
                    }
                }
            }
            i = i + 1;
        }
        proof {
            assert(indices@.subrange(0, indices@.len() as int) == indices@);
        }
    }

    /// Pay the majority and minority holder bonuses of the defunct chain, at
    /// its current size, following the fixed payout rule of
    /// `defunct_payout`.
    fn pay_out_defunct_chain(&mut self, defunct_hotel: Hotel)
        requires
            old(self).players_ok(),
            old(self).board.wf(),
            forall|p: int|
                0 <= p < old(self).players@.len() ==> #[trigger] old(self).players@[p].cash + 24000
                    <= u32::MAX,
        ensures
            final(self).players_ok(),
            final(self).board == old(self).board,
            final(self).available_tiles == old(self).available_tiles,
            final(self).available_stock == old(self).available_stock,
            final(self).current_request == old(self).current_request,
            final(self).current_state == old(self).current_state,
            final(self).message_callback == old(self).message_callback,
            final(self).players@.len() == old(self).players@.len(),
            forall|p: int| 0 <= p < old(self).players@.len() ==> {
                &&& (#[trigger] final(self).players@[p]).name == old(self).players@[p].name
                &&& final(self).players@[p].stocks == old(self).players@[p].stocks
                &&& final(self).players@[p].tiles == old(self).players@[p].tiles
                &&& final(self).players@[p].cash == old(self).players@[p].cash + defunct_payout(
                    old(self).players@,
                    defunct_hotel,
                    old(self).board.chain_size_spec(defunct_hotel),
                    p,
                )
            },
    {
        let defunct_chain_size = self.board.get_hotel_chain_size(defunct_hotel);
        let majority_payout = defunct_hotel.get_majority_holder_bonus(defunct_chain_size);
        let minority_payout = defunct_hotel.get_minority_holder_bonus(defunct_chain_size);
        let h = defunct_hotel.index();
        let ghost hh = h as int;
        let ghost pls = self.players@;
        let ghost n = pls.len() as int;

        // find the highest and second-highest holdings
        let mut max_shares: u32 = 0;
        let mut second_max_shares: u32 = 0;
        let mut i: usize = 0;
        while i < self.players.len()
            invariant
                self.players_ok(),
                self.players@ == pls,
                0 <= hh < 7,
                h == hh,
                n == pls.len(),
                i <= n,
                max_shares == max_holding(pls, hh, i as int),
                second_max_shares == max_holding_below(
                    pls,
                    hh,
                    i as int,
                    max_holding(pls, hh, i as int),
                ),
            decreases n - i,
        {
            let shares = self.players[i].stocks[h];
            if shares > max_shares {
                proof {
                    lemma_max_holding_below_high_cap(pls, hh, i as int, shares as int);
                }
                second_max_shares = max_shares;
                max_shares = shares;
            } else if shares > second_max_shares && shares < max_shares {
                second_max_shares = shares;
            }
            i = i + 1;
        }

        // classify the holders
        let mut majority_indices: Vec<usize> = Vec::new();
        let mut minority_indices: Vec<usize> = Vec::new();
        let mut p: usize = 0;
        while p < self.players.len()
            invariant
                self.players_ok(),
                self.players@ == pls,
                0 <= hh < 7,
                h == hh,
                n == pls.len(),
                p <= n,
                max_shares == max_holding(pls, hh, n),
                second_max_shares == max_holding_below(pls, hh, n, max_holding(pls, hh, n)),
                majority_indices@.len() + minority_indices@.len() <= p,
                majority_indices@.len() == majority_count(pls, hh, p as int),
                minority_indices@.len() == minority_count(pls, hh, p as int),
                majority_indices@.no_duplicates(),
                minority_indices@.no_duplicates(),
                forall|j: int| 0 <= j < majority_indices@.len() ==> {
                    &&& #[trigger] majority_indices@[j] < p
                    &&& is_majority(pls, hh, majority_indices@[j] as int)
                },
                forall|j: int| 0 <= j < minority_indices@.len() ==> {
                    &&& #[trigger] minority_indices@[j] < p
                    &&& is_minority(pls, hh, minority_indices@[j] as int)
                },
                forall|k: int|
                    0 <= k < p && is_majority(pls, hh, k) ==> majority_indices@.contains(
                        k as usize,
                    ),
                forall|k: int|
                    0 <= k < p && is_minority(pls, hh, k) ==> minority_indices@.contains(
                        k as usize,
                    ),
            decreases n - p,
        {
            proof {
                if max_shares > 0 {
                    lemma_max_holding_below_lt_cap(pls, hh, n, max_holding(pls, hh, n));
                }
            }
            let shares = self.players[p].stocks[h];
            if shares > 0 && shares == max_shares {
                majority_indices.push(p);
            } else if shares > 0 && shares == second_max_shares {
                minority_indices.push(p);
            }
            proof {
                broadcast use vstd::seq_lib::lemma_seq_contains_after_push;
            }
            p = p + 1;
        }

        // fold the minority bonus into the majority payout when nobody takes
        // it alone
        let mut total_majority_payout = majority_payout;
        let mut total_minority_payout = minority_payout;
        if minority_indices.len() == 0 || majority_indices.len() > 1 {
            total_majority_payout = total_majority_payout + minority_payout;
            total_minority_payout = 0;
        }

        self.message_callback.send_message("Paying out the holders of the defunct chain");
        let ghost mid_players = self.players@;
        self.distribute_payouts(&majority_indices, total_majority_payout);
        let ghost after_major = self.players@;
        if total_minority_payout > 0 {
            self.distribute_payouts(&minority_indices, total_minority_payout);
        }
        proof {
            let size = old(self).board.chain_size_spec(defunct_hotel);
            assert forall|q: int| 0 <= q < n implies (#[trigger] self.players@[q]).cash
                == pls[q].cash + defunct_payout(pls, defunct_hotel, size, q) by {
                if is_majority(pls, hh, q) {
                    assert(majority_indices@.contains(q as usize));
                }
                if is_minority(pls, hh, q) {
                    assert(minority_indices@.contains(q as usize));
                }
                if majority_indices@.contains(q as usize) {
                    let j = choose|j: int|
                        0 <= j < majority_indices@.len() && majority_indices@[j] == q as usize;
                    assert(is_majority(pls, hh, q));
                }
                if minority_indices@.contains(q as usize) {
                    let j = choose|j: int|
                        0 <= j < minority_indices@.len() && minority_indices@[j] == q as usize;
                    assert(is_minority(pls, hh, q));
                }
                if majority_count(pls, hh, n) > 0 && is_majority(pls, hh, q) {
                    assert(!is_minority(pls, hh, q)) by {
                        if is_minority(pls, hh, q) {
                            lemma_max_holding_below_lt_cap(pls, hh, n, max_holding(pls, hh, n));
                        }
                    }
                }
            }
        }
    }
}

impl<T: AcquireGameCallback> AcquireGame<T> {
    /// Draw one random tile into `player`'s hand.
    fn give_player_tile(&mut self, player: usize)
        requires
            old(self).players_ok(),
            old(self).stock_ok(),
            old(self).tiles_ok(),
            player < old(self).players@.len(),
            old(self).available_tiles@.len() > 0,
        ensures
            final(self).players_ok(),
            final(self).stock_ok(),
            final(self).tiles_ok(),
            final(self).board == old(self).board,
            final(self).available_stock == old(self).available_stock,
            final(self).current_request == old(self).current_request,
            final(self).current_state == old(self).current_state,
            final(self).message_callback == old(self).message_callback,
            final(self).players@.len() == old(self).players@.len(),
            forall|k: int|
                0 <= k < old(self).players@.len() && k != player ==> #[trigger] final(self).players@[k] == old(self).players@[k],
            final(self).players@[player as int].name == old(self).players@[player as int].name,
            final(self).players@[player as int].cash == old(self).players@[player as int].cash,
            final(self).players@[player as int].stocks == old(self).players@[player as int].stocks,
            final(self).players@[player as int].tiles@.len() == old(self).players@[player as int].tiles@.len() + 1,
            final(self).players@[player as int].tiles@.drop_last() == old(self).players@[player as int].tiles@,
            old(self).available_tiles@.contains(
                final(self).players@[player as int].tiles@.last(),
            ),
            final(self).available_tiles@.len() == old(self).available_tiles@.len() - 1,
            forall|t: Tile| final(self).available_tiles@.contains(t) ==> old(self).available_tiles@.contains(t),
    {
        let ghost pre = *self;
        let tile = self.take_random_tile();
        self.players[player].tiles.push(tile);
        proof {
            broadcast use vstd::seq_lib::lemma_seq_contains_after_push;
            let post = *self;
            let n = pre.players@.len() as int;
            assert forall|h2: int| 0 <= h2 < 7 implies #[trigger] post.available_stock@[h2]
                + total_stock(post.players@, h2, n) == 25 by {
                lemma_total_stock_single_update(pre.players@, post.players@, player as int, h2, n);
            }
            assert forall|k: int| 0 <= k < post.available_tiles@.len() implies tile_on_empty_cell(
                post.board,
                #[trigger] post.available_tiles@[k],
            ) by {
                assert(post.available_tiles@.contains(post.available_tiles@[k]));
                assert(pre.available_tiles@.contains(post.available_tiles@[k]));
            }
            // the drawn tile is not held by anyone, so every hand stays
            // duplicate-free and pairwise disjoint
            assert forall|p1: int, k1: int|
                0 <= p1 < n && 0 <= k1 < post.players@[p1].tiles@.len() implies tile_on_empty_cell(
                post.board,
                #[trigger] post.players@[p1].tiles@[k1],
            ) && !post.available_tiles@.contains(post.players@[p1].tiles@[k1]) by {
                if p1 == player && k1 == post.players@[p1].tiles@.len() - 1 {
                    assert(post.players@[p1].tiles@[k1] == tile);
                } else {
                    assert(post.players@[p1].tiles@[k1] == pre.players@[p1].tiles@[k1]);
                }
            }
            assert forall|p1: int, k1: int, p2: int, k2: int|
                0 <= p1 < n && 0 <= k1 < post.players@[p1].tiles@.len() && 0 <= p2 < n && 0 <= k2
                    < post.players@[p2].tiles@.len() && !(p1 == p2 && k1 == k2) implies
                #[trigger] post.players@[p1].tiles@[k1] != #[trigger] post.players@[p2].tiles@[k2]
                by {
                if p1 == player && k1 == post.players@[p1].tiles@.len() - 1 {
                    assert(post.players@[p1].tiles@[k1] == tile);
                    assert(post.players@[p2].tiles@[k2] == pre.players@[p2].tiles@[k2]);
                    assert(pre.available_tiles@.contains(tile));
                } else if p2 == player && k2 == post.players@[p2].tiles@.len() - 1 {
                    assert(post.players@[p2].tiles@[k2] == tile);
                    assert(post.players@[p1].tiles@[k1] == pre.players@[p1].tiles@[k1]);
                    assert(pre.available_tiles@.contains(tile));
                } else {
                    assert(post.players@[p1].tiles@[k1] == pre.players@[p1].tiles@[k1]);
                    assert(post.players@[p2].tiles@[k2] == pre.players@[p2].tiles@[k2]);
                }
            }
        }
    }

    /// End `player`'s turn: deal them one fresh tile and pass play to the
    /// next seat.
    fn end_turn(&mut self, player: usize)
        requires
            old(self).players_ok(),
            old(self).stock_ok(),
            old(self).tiles_ok(),
            old(self).board_ok(),
            player < old(self).players@.len(),
            old(self).available_tiles@.len() > 0,
            !old(self).board.has_conflict(),
        ensures
            final(self).players_ok(),
            final(self).stock_ok(),
            final(self).tiles_ok(),
            final(self).board_ok(),
            final(self).state_ok(),
            Self::turn_end_rel(old(self), final(self), player as int),
    {
        let message = self.players[player].name.clone().concat("'s turn has ended");
        self.message_callback.send_message(message.as_str());

        self.give_player_tile(player);

        let next_player = (player + 1) % self.players.len();
        let message = String::from_str("It is now ").concat(
            self.players[next_player].name.as_str(),
        ).concat("'s turn");
        self.message_callback.send_message(message.as_str());

        self.current_request = AcquireRequest::PlayTile(next_player);
        self.current_state = AcquireGameState::PlayTile(next_player);
    }

    /// Enter the stock-buying phase for `player`, or end the turn at once
    /// when no active chain has any bank stock to sell.
    fn start_buy_stock_phase(&mut self, player: usize)
        requires
            old(self).players_ok(),
            old(self).stock_ok(),
            old(self).tiles_ok(),
            old(self).board_ok(),
            player < old(self).players@.len(),
            old(self).available_tiles@.len() > 0,
            !old(self).board.has_conflict(),
        ensures
            final(self).players_ok(),
            final(self).stock_ok(),
            final(self).tiles_ok(),
            final(self).board_ok(),
            final(self).state_ok(),
            Self::after_placement_rel(old(self), final(self), player as int),
    {
        let active_hotels = self.board.get_active_hotels();
        if active_hotels.len() == 0 {
            proof {
                assert forall|h: Hotel| !(#[trigger] self.board.chain_active(h)) by {
                    if self.board.chain_active(h) {
                        assert(active_hotels@.contains(h));
                    }
                }
            }
            self.message_callback.send_message("There are no active chains to buy stock in");
            self.end_turn(player);
            return ;
        }

        let mut any_stock = false;
        let mut i: usize = 0;
        while i < active_hotels.len()
            invariant
                self.stock_ok(),
                i <= active_hotels@.len(),
                forall|k: int| 0 <= k < active_hotels@.len() ==> self.board.chain_active(
                    #[trigger] active_hotels@[k],
                ),
                any_stock <==> exists|k: int|
                    0 <= k < i && self.available_stock@[crate::hotel_data::hotel_index_spec(
                        #[trigger] active_hotels@[k],
                    )] > 0,
            decreases active_hotels@.len() - i,
        {
            if self.available_stock[active_hotels[i].index()] > 0 {
                any_stock = true;
            }
            i = i + 1;
        }

        if !any_stock {
            proof {
                assert forall|h: Hotel|
                    !(#[trigger] self.board.chain_active(h)
                        && self.available_stock@[crate::hotel_data::hotel_index_spec(h)] > 0) by {
                    if self.board.chain_active(h) && self.available_stock@[
                        crate::hotel_data::hotel_index_spec(h)
                    ] > 0 {
                        assert(active_hotels@.contains(h));
                        let k = choose|k: int|
                            0 <= k < active_hotels@.len() && active_hotels@[k] == h;
                    }
                }
            }
            self.message_callback.send_message("There is no stock available to buy");
            self.end_turn(player);
            return ;
        }

        proof {
            let k = choose|k: int|
                0 <= k < active_hotels@.len() && self.available_stock@[
                    crate::hotel_data::hotel_index_spec(#[trigger] active_hotels@[k])
                ] > 0;
            assert(self.board.chain_active(active_hotels@[k]));
        }
        let buy_stock_state = BuyStockState::new(player);
        self.current_request = AcquireRequest::BuyStock(player);
        self.current_state = AcquireGameState::BuyStock(buy_stock_state);
    }
}

impl<T: AcquireGameCallback> AcquireGame<T> {
    /// Whether chain `h` is a defunct chain of the merger around the
    /// conflict at (`r`, `c`): adjacent to it and not the survivor.
    pub open spec fn in_defunct_set(
        board: GameBoard,
        r: int,
        c: int,
        survivor: Hotel,
        h: Hotel,
    ) -> bool {
        board.adjacent_spec(r, c, h) && h != survivor
    }

    /// Whether chain `h` is a largest defunct chain of the merger around the
    /// conflict at (`r`, `c`).
    pub open spec fn largest_defunct_at(
        board: GameBoard,
        r: int,
        c: int,
        survivor: Hotel,
        h: Hotel,
    ) -> bool {
        &&& Self::in_defunct_set(board, r, c, survivor, h)
        &&& forall|h2: Hotel|
            Self::in_defunct_set(board, r, c, survivor, h2) ==> board.chain_size_spec(h2)
                <= board.chain_size_spec(h)
    }

    /// The per-phase bookkeeping of an in-progress merger, checked against
    /// the board: the defunct list holds exactly the chains adjacent to the
    /// merger conflict other than the survivor.
    pub open spec fn merger_facts(&self, ms: MergerState) -> bool {
        &&& ms.merge_maker < self.players@.len()
        &&& ms.defunct_hotels_remaining@.len() > 0
        &&& ms.defunct_hotels_remaining@.no_duplicates()
        &&& exists|r: int, c: int| #[trigger] self.board.merge_conflict_at(r, c)
        &&& forall|r: int, c: int| #[trigger] self.board.merge_conflict_at(r, c) ==> {
            &&& self.board.adjacent_spec(r, c, ms.surviving_hotel)
            &&& forall|h: Hotel|
                ms.defunct_hotels_remaining@.contains(h) <==> Self::in_defunct_set(
                    self.board,
                    r,
                    c,
                    ms.surviving_hotel,
                    h,
                )
        }
    }

    /// What paying out one defunct chain and opening its disposal phase
    /// leaves behind: each player's cash rose by their payout, each player's
    /// disposal quota equals their holding of the defunct chain, and nothing
    /// else moved.
    pub open spec fn dispose_entry_rel(
        pre: &Self,
        post: &Self,
        maker: int,
        survivor: Hotel,
        defunct: Hotel,
    ) -> bool {
        let n = pre.players@.len() as int;
        &&& post.players@.len() == n
        &&& forall|p: int| 0 <= p < n ==> {
            &&& (#[trigger] post.players@[p]).name == pre.players@[p].name
            &&& post.players@[p].stocks == pre.players@[p].stocks
            &&& post.players@[p].tiles == pre.players@[p].tiles
            &&& post.players@[p].cash == pre.players@[p].cash + defunct_payout(
                pre.players@,
                defunct,
                pre.board.chain_size_spec(defunct),
                p,
            )
        }
        &&& post.board == pre.board
        &&& post.available_tiles == pre.available_tiles
        &&& post.available_stock == pre.available_stock
        &&& post.message_callback == pre.message_callback
        &&& post.current_request == AcquireRequest::DisposeStock
        &&& post.current_state matches AcquireGameState::DisposeStock(ds) && {
            &&& ds.merge_maker == maker as usize
            &&& ds.surviving_chain == survivor
            &&& ds.defunct_chain == defunct
            &&& ds.remaining_shares_per_player@.len() == n
            &&& forall|p: int|
                0 <= p < n ==> #[trigger] ds.remaining_shares_per_player@[p]
                    == pre.players@[p].stocks@[crate::hotel_data::hotel_index_spec(defunct)]
        }
    }

    /// What a tie among the remaining defunct chains leaves behind: nothing
    /// moved, and the merge maker is asked to choose.
    pub open spec fn merger_tie_rel(pre: &Self, post: &Self, maker: int, survivor: Hotel) -> bool {
        &&& Self::same_but_phase(pre, post)
        &&& post.current_request == AcquireRequest::ChooseDefunctChainToResolve(maker as usize)
        &&& post.current_state matches AcquireGameState::Merger(ms) && ms.merge_maker == maker
            as usize && ms.surviving_hotel == survivor
    }

    /// What advancing a merger with defunct chains remaining leaves behind:
    /// either the unique largest defunct chain was paid out and its disposal
    /// opened, or the tied defunct chains were put to the merge maker.
    pub open spec fn merger_advance_rel(
        pre: &Self,
        post: &Self,
        maker: int,
        survivor: Hotel,
    ) -> bool {
        ||| exists|h: Hotel|
            (forall|r: int, c: int| #[trigger] pre.board.merge_conflict_at(r, c)
                ==> Self::largest_defunct_at(pre.board, r, c, survivor, h))
                && #[trigger] Self::dispose_entry_rel(pre, post, maker, survivor, h)
        ||| Self::merger_tie_rel(pre, post, maker, survivor)
    }

    /// What completing a merger leaves behind: the conflict cell and its
    /// region joined the survivor, no conflict remains, and the merge maker
    /// went on to buy stock or ended their turn.
    pub open spec fn merge_complete_rel(
        pre: &Self,
        post: &Self,
        maker: int,
        survivor: Hotel,
    ) -> bool {
        let n = pre.players@.len() as int;
        &&& GameBoard::flood_result(pre.board, post.board, survivor)
        &&& !post.board.has_conflict()
        &&& post.available_stock == pre.available_stock
        &&& post.message_callback == pre.message_callback
        &&& post.players@.len() == n
        &&& forall|p: int| 0 <= p < n ==> {
            &&& (#[trigger] post.players@[p]).name == pre.players@[p].name
            &&& post.players@[p].stocks == pre.players@[p].stocks
            &&& post.players@[p].cash == pre.players@[p].cash
        }
        &&& {
            ||| {
                &&& post.players == pre.players
                &&& post.available_tiles == pre.available_tiles
                &&& post.current_request == AcquireRequest::BuyStock(maker as usize)
                &&& post.current_state matches AcquireGameState::BuyStock(bs) && bs.player == maker
                    as usize && bs.buys_remaining == 3
            }
            ||| {
                &&& forall|k: int| 0 <= k < n && k != maker ==> #[trigger] post.players@[k]
                    == pre.players@[k]
                &&& post.players@[maker].tiles@.len() == pre.players@[maker].tiles@.len() + 1
                &&& post.players@[maker].tiles@.drop_last() == pre.players@[maker].tiles@
                &&& pre.available_tiles@.contains(post.players@[maker].tiles@.last())
                &&& post.available_tiles@.len() == pre.available_tiles@.len() - 1
                &&& post.current_request == AcquireRequest::PlayTile(((maker + 1) % n) as usize)
                &&& post.current_state matches AcquireGameState::PlayTile(q) && q == ((maker + 1)
                    % n) as usize
            }
        }
    }

    /// Open the stock-disposal phase for `defunct_hotel` under the current
    /// merger.
    fn begin_stock_disposal(&mut self, defunct_hotel: Hotel)
        requires
            old(self).players_ok(),
            old(self).stock_ok(),
            old(self).tiles_ok(),
            old(self).board_ok(),
            old(self).current_state matches AcquireGameState::Merger(ms) && old(self).merger_facts(ms) && ms.defunct_hotels_remaining@.contains(defunct_hotel),
        ensures
            final(self).players_ok(),
            final(self).stock_ok(),
            final(self).tiles_ok(),
            final(self).board_ok(),
            final(self).state_ok(),
            final(self).players == old(self).players,
            final(self).board == old(self).board,
            final(self).available_tiles == old(self).available_tiles,
            final(self).available_stock == old(self).available_stock,
            final(self).message_callback == old(self).message_callback,
            final(self).current_request == AcquireRequest::DisposeStock,
            ({
                let ms = old(self).current_state->Merger_0;
                &&& final(self).current_state matches AcquireGameState::DisposeStock(ds)
                &&& ds.merge_maker == ms.merge_maker
                &&& ds.surviving_chain == ms.surviving_hotel
                &&& ds.defunct_chain == defunct_hotel
                &&& ds.remaining_shares_per_player@.len() == old(self).players@.len()
                &&& forall|p: int|
                    0 <= p < old(self).players@.len()
                        ==> #[trigger] ds.remaining_shares_per_player@[p] == old(self).players@[p].stocks@[crate::hotel_data::hotel_index_spec(defunct_hotel)]
            }),
    {
        let (merge_maker, merge_survivor) = match &self.current_state {
            AcquireGameState::Merger(merge_state) => (
                merge_state.merge_maker,
                merge_state.surviving_hotel,
            ),
            _ => {
                proof {
                    assert(false);
                }
                (0, defunct_hotel)
            },
        };

        let h = defunct_hotel.index();
        let mut remaining_shares_per_player: Vec<u32> = Vec::new();
        let mut p: usize = 0;
        while p < self.players.len()
            invariant
                self.players_ok(),
                h == crate::hotel_data::hotel_index_spec(defunct_hotel),
                p <= self.players@.len(),
                remaining_shares_per_player@.len() == p,
                forall|k: int|
                    0 <= k < p ==> #[trigger] remaining_shares_per_player@[k]
                        == self.players@[k].stocks@[h as int],
            decreases self.players@.len() - p,
        {
            remaining_shares_per_player.push(self.players[p].stocks[h]);
            p = p + 1;
        }

        let dispose_stock_state = DisposeStockState::new(
            merge_maker,
            merge_survivor,
            defunct_hotel,
            remaining_shares_per_player,
        );
        self.current_state = AcquireGameState::DisposeStock(dispose_stock_state);
        self.current_request = AcquireRequest::DisposeStock;

        let message = String::from_str("Players must now dispose of their stock in ").concat(
            defunct_hotel.name(),
        );
        self.message_callback.send_message(message.as_str());
    }

    /// Pay out `defunct_hotel` and open its disposal phase.
    fn handle_defunct_hotel(&mut self, defunct_hotel: Hotel)
        requires
            old(self).players_ok(),
            old(self).stock_ok(),
            old(self).tiles_ok(),
            old(self).board_ok(),
            old(self).current_state matches AcquireGameState::Merger(ms) && old(self).merger_facts(ms) && ms.defunct_hotels_remaining@.contains(defunct_hotel),
            forall|p: int|
                0 <= p < old(self).players@.len() ==> #[trigger] old(self).players@[p].cash + 24000
                    <= u32::MAX,
        ensures
            final(self).players_ok(),
            final(self).stock_ok(),
            final(self).tiles_ok(),
            final(self).board_ok(),
            final(self).state_ok(),
            ({
                let ms = old(self).current_state->Merger_0;
                Self::dispose_entry_rel(
                    old(self),
                    final(self),
                    ms.merge_maker as int,
                    ms.surviving_hotel,
                    defunct_hotel,
                )
            }),
    {
        let merge_survivor = match &self.current_state {
            AcquireGameState::Merger(merge_state) => merge_state.surviving_hotel,
            _ => {
                proof {
                    assert(false);
                }
                defunct_hotel
            },
        };

        let message = String::from_str("A merger of ").concat(defunct_hotel.name()).concat(
            " into ",
        ).concat(merge_survivor.name()).concat(" will now commence");
        self.message_callback.send_message(message.as_str());

        self.pay_out_defunct_chain(defunct_hotel);
        proof {
            assert forall|h2: int| 0 <= h2 < 7 implies #[trigger] self.available_stock@[h2]
                + total_stock(self.players@, h2, self.players@.len() as int) == 25 by {
                lemma_total_stock_same_stocks(
                    old(self).players@,
                    self.players@,
                    h2,
                    self.players@.len() as int,
                );
            }
        }
        self.begin_stock_disposal(defunct_hotel);
    }

    /// Advance the current merger: resolve the unique largest remaining
    /// defunct chain, or ask the merge maker to break the tie.
    fn determine_next_defunct_hotel(&mut self)
        requires
            old(self).players_ok(),
            old(self).stock_ok(),
            old(self).tiles_ok(),
            old(self).board_ok(),
            old(self).current_state matches AcquireGameState::Merger(ms) && old(self).merger_facts(ms),
            forall|p: int|
                0 <= p < old(self).players@.len() ==> #[trigger] old(self).players@[p].cash + 24000
                    <= u32::MAX,
        ensures
            final(self).players_ok(),
            final(self).stock_ok(),
            final(self).tiles_ok(),
            final(self).board_ok(),
            final(self).state_ok(),
            ({
                let ms = old(self).current_state->Merger_0;
                Self::merger_advance_rel(
                    old(self),
                    final(self),
                    ms.merge_maker as int,
                    ms.surviving_hotel,
                )
            }),
    {
        let next = match &self.current_state {
            AcquireGameState::Merger(merge_state) => {
                let next = merge_state.get_next_defunct_hotel(&self.board);
                (next, merge_state.merge_maker)
            },
            _ => {
                proof {
                    assert(false);
                }
                (None, 0)
            },
        };
        let (next_defunct, merge_maker) = next;
        let ghost ms = old(self).current_state->Merger_0;
        match next_defunct {
            Some(defunct_hotel) => {
                proof {
                    let (cr, cc) = choose|r: int, c: int|
                        #[trigger] self.board.merge_conflict_at(r, c);
                    assert forall|r: int, c: int| #[trigger] self.board.merge_conflict_at(r, c)
                        implies Self::largest_defunct_at(
                        self.board,
                        r,
                        c,
                        ms.surviving_hotel,
                        defunct_hotel,
                    ) by {
                        assert forall|h2: Hotel|
                            Self::in_defunct_set(self.board, r, c, ms.surviving_hotel, h2) implies
                            self.board.chain_size_spec(h2) <= self.board.chain_size_spec(
                            defunct_hotel,
                        ) by {
                            assert(ms.defunct_hotels_remaining@.contains(h2));
                        }
                    }
                }
                self.handle_defunct_hotel(defunct_hotel);
            },
            None => {
                let message = String::from_str(
                    "There is a tie in the defunct chains! A chain must be chosen to resolve first",
                );
                self.message_callback.send_message(message.as_str());
                self.current_request = AcquireRequest::ChooseDefunctChainToResolve(merge_maker);
            },
        }
    }
}

impl<T: AcquireGameCallback> AcquireGame<T> {
    /// Open a merger into `merge_survivor`, made by `merge_maker`, around
    /// the board's merger conflict, and advance it.
    fn start_merge_phase(&mut self, merge_maker: usize, merge_survivor: Hotel)
        requires
            old(self).players_ok(),
            old(self).stock_ok(),
            old(self).tiles_ok(),
            old(self).board_ok(),
            merge_maker < old(self).players@.len(),
            exists|r: int, c: int| #[trigger] old(self).board.merge_conflict_at(r, c),
            forall|r: int, c: int| #[trigger] old(self).board.merge_conflict_at(r, c) ==> old(self).board.adjacent_spec(r, c, merge_survivor),
            forall|r: int, c: int| #[trigger] old(self).board.merge_conflict_at(r, c) ==> old(self).board.adjacent_count(r, c) >= 2,
            forall|p: int|
                0 <= p < old(self).players@.len() ==> #[trigger] old(self).players@[p].cash + 24000
                    <= u32::MAX,
        ensures
            final(self).players_ok(),
            final(self).stock_ok(),
            final(self).tiles_ok(),
            final(self).board_ok(),
            final(self).state_ok(),
            Self::merger_advance_rel(old(self), final(self), merge_maker as int, merge_survivor),
    {
        let merge_state = MergerState::new(merge_maker, merge_survivor, &self.board);
        proof {
            let (cr, cc) = choose|r: int, c: int| #[trigger] self.board.merge_conflict_at(r, c);
            lemma_merge_conflict_has_two_adjacent(self.board, cr, cc);
            let (h1, h2) = choose|h1: Hotel, h2: Hotel|
                h1 != h2 && #[trigger] self.board.adjacent_spec(cr, cc, h1)
                    && #[trigger] self.board.adjacent_spec(cr, cc, h2);
            if h1 != merge_survivor {
                assert(merge_state.defunct_hotels_remaining@.contains(h1));
            } else {
                assert(merge_state.defunct_hotels_remaining@.contains(h2));
            }
        }

        let message = String::from_str("A merge has been triggered into ").concat(
            merge_survivor.name(),
        );
        self.message_callback.send_message(message.as_str());

        self.current_state = AcquireGameState::Merger(merge_state);
        let ghost mid = *self;
        self.determine_next_defunct_hotel();
        proof {
            if Self::merger_tie_rel(&mid, self, merge_maker as int, merge_survivor) {
                assert(Self::merger_tie_rel(old(self), self, merge_maker as int, merge_survivor));
            } else {
                let h = choose|h: Hotel|
                    (forall|r: int, c: int| #[trigger] mid.board.merge_conflict_at(r, c)
                        ==> Self::largest_defunct_at(mid.board, r, c, merge_survivor, h))
                        && #[trigger] Self::dispose_entry_rel(
                        &mid,
                        self,
                        merge_maker as int,
                        merge_survivor,
                        h,
                    );
                assert(Self::dispose_entry_rel(
                    old(self),
                    self,
                    merge_maker as int,
                    merge_survivor,
                    h,
                ));
            }
        }
    }

    /// Resume the merger after one defunct chain has been fully disposed of
    /// and relabeled: resolve the next defunct chain, or complete the
    /// merger and let the merge maker buy stock.
    #[verifier::rlimit(100)]
    fn continue_merge_phase(&mut self, merge_maker: usize, merge_survivor: Hotel)
        requires
            old(self).players_ok(),
            old(self).stock_ok(),
            old(self).tiles_ok(),
            old(self).board_ok(),
            merge_maker < old(self).players@.len(),
            old(self).available_tiles@.len() > 0,
            exists|r: int, c: int| #[trigger] old(self).board.merge_conflict_at(r, c),
            forall|r: int, c: int| #[trigger] old(self).board.merge_conflict_at(r, c) ==> old(self).board.adjacent_spec(r, c, merge_survivor),
            forall|p: int|
                0 <= p < old(self).players@.len() ==> #[trigger] old(self).players@[p].cash + 24000
                    <= u32::MAX,
        ensures
            final(self).players_ok(),
            final(self).stock_ok(),
            final(self).tiles_ok(),
            final(self).board_ok(),
            final(self).state_ok(),
            Self::merger_advance_rel(old(self), final(self), merge_maker as int, merge_survivor)
                || Self::merge_complete_rel(
                old(self),
                final(self),
                merge_maker as int,
                merge_survivor,
            ),
    {
        let merge_state = MergerState::new(merge_maker, merge_survivor, &self.board);
        let ghost (cr, cc) = choose|r: int, c: int|
            #[trigger] old(self).board.merge_conflict_at(r, c);

        if merge_state.defunct_hotels_remaining.len() == 0 {
            self.message_callback.send_message("All defunct chains have been merged");
            proof {
                // every chain adjacent to the conflict is the survivor, so
                // the survivor resolves the conflict
                assert(self.board.adjacent_spec(cr, cc, merge_survivor));
                assert forall|h2: Hotel| self.board.adjacent_spec(cr, cc, h2) implies
                    self.board.chain_size_spec(h2) <= self.board.chain_size_spec(
                    merge_survivor,
                ) by {
                    if h2 != merge_survivor {
                        assert(merge_state.defunct_hotels_remaining@.contains(h2));
                    }
                }
                assert(self.board.acceptable_resolution_spec(cr, cc, merge_survivor));
                assert(self.board.resolvable_with(merge_survivor));
            }
            let ghost pre_resolve = *self;
            let resolve_result = self.board.resolve_conflict(merge_survivor);
            proof {
                assert(resolve_result matches Ok(_));
                // empty cells survived the flood, so every pooled or held
                // tile still names an empty cell
                assert forall|k: int|
                    0 <= k < self.available_tiles@.len() implies tile_on_empty_cell(
                    self.board,
                    #[trigger] self.available_tiles@[k],
                ) by {
                    assert(tile_on_empty_cell(pre_resolve.board, self.available_tiles@[k]));
                }
                assert forall|p1: int, k1: int|
                    0 <= p1 < self.players@.len() && 0 <= k1
                        < self.players@[p1].tiles@.len() implies tile_on_empty_cell(
                    self.board,
                    #[trigger] self.players@[p1].tiles@[k1],
                ) by {
                    assert(tile_on_empty_cell(pre_resolve.board, self.players@[p1].tiles@[k1]));
                }
            }

            let message = String::from_str("The merger into ").concat(merge_survivor.name())
                .concat(" is complete!");
            self.message_callback.send_message(message.as_str());

            self.start_buy_stock_phase(merge_maker);
        } else {
            let message = String::from_str("Continuing the merge into ").concat(
                merge_survivor.name(),
            );
            self.message_callback.send_message(message.as_str());

            self.current_state = AcquireGameState::Merger(merge_state);
            let ghost mid = *self;
            self.determine_next_defunct_hotel();
            proof {
                if Self::merger_tie_rel(&mid, self, merge_maker as int, merge_survivor) {
                    assert(Self::merger_tie_rel(
                        old(self),
                        self,
                        merge_maker as int,
                        merge_survivor,
                    ));
                } else {
                    let h = choose|h: Hotel|
                        (forall|r: int, c: int| #[trigger] mid.board.merge_conflict_at(r, c)
                            ==> Self::largest_defunct_at(mid.board, r, c, merge_survivor, h))
                            && #[trigger] Self::dispose_entry_rel(
                            &mid,
                            self,
                            merge_maker as int,
                            merge_survivor,
                            h,
                        );
                    assert(Self::dispose_entry_rel(
                        old(self),
                        self,
                        merge_maker as int,
                        merge_survivor,
                        h,
                    ));
                }
            }
        }
    }
}

impl<T: AcquireGameCallback> AcquireGame<T> {
    /// Deal every player six tiles and hand the first turn to the winner of
    /// the starting-tile race.
    fn handle_game_start_complete(&mut self)
        requires
            old(self).players_ok(),
            old(self).stock_ok(),
            old(self).tiles_ok(),
            old(self).board_ok(),
            !old(self).board.has_conflict(),
            old(self).current_state matches AcquireGameState::GameStart(gs)
                && gs.player_with_winning_tile < old(self).players@.len(),
            old(self).available_tiles@.len() >= 6 * old(self).players@.len(),
        ensures
            final(self).players_ok(),
            final(self).stock_ok(),
            final(self).tiles_ok(),
            final(self).board_ok(),
            final(self).state_ok(),
            final(self).board == old(self).board,
            final(self).available_stock == old(self).available_stock,
            final(self).message_callback == old(self).message_callback,
            final(self).players@.len() == old(self).players@.len(),
            forall|p: int| 0 <= p < old(self).players@.len() ==> {
                &&& (#[trigger] final(self).players@[p]).name == old(self).players@[p].name
                &&& final(self).players@[p].cash == old(self).players@[p].cash
                &&& final(self).players@[p].stocks == old(self).players@[p].stocks
                &&& final(self).players@[p].tiles@.len() == old(self).players@[p].tiles@.len() + 6
            },
            final(self).available_tiles@.len() == old(self).available_tiles@.len() - 6 * old(self).players@.len(),
            ({
                let winner = old(self).current_state->GameStart_0.player_with_winning_tile;
                &&& final(self).current_request == AcquireRequest::PlayTile(winner)
                &&& final(self).current_state matches AcquireGameState::PlayTile(q) && q == winner
            }),
    {
        let player_with_winning_tile = match &self.current_state {
            AcquireGameState::GameStart(game_start_state) => game_start_state.player_with_winning_tile,
            _ => {
                proof {
                    assert(false);
                }
                0
            },
        };
        self.message_callback.send_message("All players have placed their starting tiles.");
        let message = self.players[player_with_winning_tile].name.clone().concat(
            " has the winning tile and will start the game!",
        );
        self.message_callback.send_message(message.as_str());

        let ghost base = *self;
        let n = self.players.len();
        let mut round: usize = 0;
        while round < 6
            invariant
                self.players_ok(),
                self.stock_ok(),
                self.tiles_ok(),
                self.board_ok(),
                round <= 6,
                n == self.players@.len(),
                self.players@.len() == base.players@.len(),
                self.board == base.board,
                self.available_stock == base.available_stock,
                self.current_request == base.current_request,
                self.current_state == base.current_state,
                self.message_callback == base.message_callback,
                forall|p: int| 0 <= p < n ==> {
                    &&& (#[trigger] self.players@[p]).name == base.players@[p].name
                    &&& self.players@[p].cash == base.players@[p].cash
                    &&& self.players@[p].stocks == base.players@[p].stocks
                    &&& self.players@[p].tiles@.len() == base.players@[p].tiles@.len() + round
                },
                self.available_tiles@.len() == base.available_tiles@.len() - round * n,
                base.available_tiles@.len() >= 6 * n,
            decreases 6 - round,
        {
            let mut player: usize = 0;
            while player < n
                invariant
                    self.players_ok(),
                    self.stock_ok(),
                    self.tiles_ok(),
                    self.board_ok(),
                    round < 6,
                    player <= n,
                    n == self.players@.len(),
                    self.players@.len() == base.players@.len(),
                    self.board == base.board,
                    self.available_stock == base.available_stock,
                    self.current_request == base.current_request,
                    self.current_state == base.current_state,
                    self.message_callback == base.message_callback,
                    forall|p: int| 0 <= p < player ==> {
                        &&& (#[trigger] self.players@[p]).name == base.players@[p].name
                        &&& self.players@[p].cash == base.players@[p].cash
                        &&& self.players@[p].stocks == base.players@[p].stocks
                        &&& self.players@[p].tiles@.len() == base.players@[p].tiles@.len() + round
                            + 1
                    },
                    forall|p: int| player <= p < n ==> {
                        &&& (#[trigger] self.players@[p]).name == base.players@[p].name
                        &&& self.players@[p].cash == base.players@[p].cash
                        &&& self.players@[p].stocks == base.players@[p].stocks
                        &&& self.players@[p].tiles@.len() == base.players@[p].tiles@.len() + round
                    },
                    self.available_tiles@.len() == base.available_tiles@.len() - round * n
                        - player,
                    base.available_tiles@.len() >= 6 * n,
                decreases n - player,
            {
                proof {
                    assert(round * n + player < 6 * n) by (nonlinear_arith)
                        requires
                            round < 6,
                            player < n,
                            round >= 0,
                    ;
                }
                self.give_player_tile(player);
                player = player + 1;
            }
            proof {
                assert((round + 1) * n == round * n + n) by (nonlinear_arith);
            }
            round = round + 1;
        }

        self.current_state = AcquireGameState::PlayTile(player_with_winning_tile);
        self.current_request = AcquireRequest::PlayTile(player_with_winning_tile);
    }

    /// Record one starting-tile placement: the already drawn `tile` goes on
    /// the board, the race bookkeeping advances, and either the next seat is
    /// asked for a starting tile or the race completes.
    fn handle_starting_tile_response(&mut self, tile: Tile, player: usize)
        requires
            old(self).players_ok(),
            old(self).stock_ok(),
            old(self).tiles_ok(),
            old(self).board_ok(),
            old(self).state_ok(),
            old(self).current_state matches AcquireGameState::GameStart(gs),
            old(self).current_request == AcquireRequest::PlayStartingTile(player),
            player < old(self).players@.len(),
            tile_on_empty_cell(old(self).board, tile),
            !old(self).available_tiles@.contains(tile),
            forall|p: int, k: int|
                0 <= p < old(self).players@.len() && 0 <= k < old(self).players@[p].tiles@.len() ==> #[trigger] old(self).players@[p].tiles@[k] != tile,
            old(self).current_state->GameStart_0.remaining_number_of_players == 1 ==> old(self).available_tiles@.len() >= 6 * old(self).players@.len(),
        ensures
            final(self).players_ok(),
            final(self).stock_ok(),
            final(self).tiles_ok(),
            final(self).board_ok(),
            final(self).state_ok(),
            final(self).available_stock == old(self).available_stock,
            final(self).message_callback == old(self).message_callback,
            final(self).players@.len() == old(self).players@.len(),
            GameBoard::same_except(
                old(self).board,
                final(self).board,
                tile.row as int,
                tile.col as int,
            ),
            final(self).board.cell(tile.row as int, tile.col as int) == Cell::Independent,
            forall|p: int| 0 <= p < old(self).players@.len() ==> {
                &&& (#[trigger] final(self).players@[p]).name == old(self).players@[p].name
                &&& final(self).players@[p].cash == old(self).players@[p].cash
                &&& final(self).players@[p].stocks == old(self).players@[p].stocks
            },
            ({
                let gs = old(self).current_state->GameStart_0;
                let n = old(self).players@.len() as int;
                if gs.remaining_number_of_players == 1 {
                    // the race is over: six tiles each, and the winner of
                    // the lowest-tile race opens
                    &&& final(self).available_tiles@.len() == old(self).available_tiles@.len() - 6
                        * n
                    &&& forall|p: int| 0 <= p < n ==> (#[trigger] final(self).players@[p]).tiles@.len() == old(self).players@[p].tiles@.len() + 6
                    &&& final(self).current_request == AcquireRequest::PlayTile(
                        if crate::tile::tile_before(tile, gs.winning_tile) {
                            player
                        } else {
                            gs.player_with_winning_tile
                        },
                    )
                } else {
                    &&& final(self).available_tiles == old(self).available_tiles
                    &&& forall|p: int| 0 <= p < n ==> (#[trigger] final(self).players@[p]).tiles
                        == old(self).players@[p].tiles
                    &&& final(self).current_request == AcquireRequest::PlayStartingTile(
                        ((player + 1) % n) as usize,
                    )
                }
            }),
    {
        let ghost pre = *self;
        self.board.place_initial_tile(tile.row, tile.col);
        proof {
            // the placed cell held no tile of the pool or of any hand, so
            // the tile bookkeeping survives the placement
            assert forall|k: int|
                0 <= k < self.available_tiles@.len() implies tile_on_empty_cell(
                self.board,
                #[trigger] self.available_tiles@[k],
            ) by {
                assert(self.available_tiles@[k] != tile);
                assert(tile_on_empty_cell(pre.board, self.available_tiles@[k]));
            }
            assert forall|p1: int, k1: int|
                0 <= p1 < self.players@.len() && 0 <= k1
                    < self.players@[p1].tiles@.len() implies tile_on_empty_cell(
                self.board,
                #[trigger] self.players@[p1].tiles@[k1],
            ) by {
                assert(self.players@[p1].tiles@[k1] != tile);
                assert(tile_on_empty_cell(pre.board, self.players@[p1].tiles@[k1]));
            }
            assert(!self.board.has_conflict()) by {
                if self.board.has_conflict() {
                    let (r, c) = choose|r: int, c: int|
                        0 <= r < 9 && 0 <= c < 12 && ((#[trigger] self.board.cell(r, c))
                            matches Cell::Conflict(_));
                    assert(pre.board.cell(r, c) matches Cell::Conflict(_));
                }
            }
        }

        let message = self.players[player].name.clone().concat(" placed starting tile ").concat(
            tile.label().as_str(),
        );
        self.message_callback.send_message(message.as_str());

        let done = match &mut self.current_state {
            AcquireGameState::GameStart(game_start_state) => {
                game_start_state.player_played_tile(player, tile)
            },
            _ => {
                proof {
                    assert(false);
                }
                false
            },
        };

        if done {
            proof {
                let gs = old(self).current_state->GameStart_0;
                if gs.remaining_number_of_players < old(self).players@.len() {
                    assert(gs.player_with_winning_tile < old(self).players@.len());
                } else {
                    // this was the very first starting tile: it beat the
                    // sentinel, so the acting player leads the race
                    assert(crate::tile::tile_before(tile, gs.winning_tile));
                }
            }
            self.handle_game_start_complete();
        } else {
            let next = (player + 1) % self.players.len();
            proof {
                assert(player + 1 < self.players@.len());
                assert((player + 1) as int % (self.players@.len() as int) == player + 1)
                    by (nonlinear_arith)
                    requires
                        0 <= player + 1 < self.players@.len(),
                ;
            }
            self.current_request = AcquireRequest::PlayStartingTile(next);
        }
    }
}

/// A merger conflict cell touches two distinct chains.
proof fn lemma_merge_conflict_has_two_adjacent(b: GameBoard, r: int, c: int)
    requires
        b.wf(),
        b.merge_conflict_at(r, c),
        b.adjacent_count(r, c) >= 2,
    ensures
        exists|h1: Hotel, h2: Hotel|
            h1 != h2 && #[trigger] b.adjacent_spec(r, c, h1) && #[trigger] b.adjacent_spec(
                r,
                c,
                h2,
            ),
{
    assert(b.adjacent_count(r, c) >= 2);
    lemma_adjacent_count_two_witnesses(b, r, c, 7);
}

/// A prefix adjacency count of at least one (or two) yields one (or two
/// distinct) adjacent chains among that prefix.
proof fn lemma_adjacent_count_two_witnesses(b: GameBoard, r: int, c: int, n: int)
    requires
        0 <= n <= 7,
    ensures
        b.adjacent_count_upto(r, c, n) >= 1 ==> exists|h1: Hotel|
            crate::hotel_data::hotel_index_spec(h1) < n && #[trigger] b.adjacent_spec(r, c, h1),
        b.adjacent_count_upto(r, c, n) >= 2 ==> exists|h1: Hotel, h2: Hotel|
            h1 != h2 && #[trigger] b.adjacent_spec(r, c, h1) && #[trigger] b.adjacent_spec(
                r,
                c,
                h2,
            ),
    decreases n,
{
    if n > 0 {
        lemma_adjacent_count_two_witnesses(b, r, c, n - 1);
        let hn = crate::hotel_data::hotel_from_index_spec(n - 1);
        if b.adjacent_spec(r, c, hn) {
            assert(crate::hotel_data::hotel_index_spec(hn) == n - 1);
            if b.adjacent_count_upto(r, c, n - 1) >= 1 {
                let h1 = choose|h1: Hotel|
                    crate::hotel_data::hotel_index_spec(h1) < n - 1 && #[trigger] b.adjacent_spec(
                        r,
                        c,
                        h1,
                    );
                assert(h1 != hn);
            }
        }
    }
}

impl<T: AcquireGameCallback> AcquireGame<T> {
    /// Take one copy of `tile` out of `player`'s hand.
    fn remove_tile_from_hand(&mut self, player: usize, tile: Tile)
        requires
            old(self).players_ok(),
            old(self).stock_ok(),
            old(self).tiles_ok(),
            player < old(self).players@.len(),
            old(self).players@[player as int].tiles@.contains(tile),
        ensures
            final(self).players_ok(),
            final(self).stock_ok(),
            final(self).tiles_ok(),
            final(self).board == old(self).board,
            final(self).available_tiles == old(self).available_tiles,
            final(self).available_stock == old(self).available_stock,
            final(self).current_request == old(self).current_request,
            final(self).current_state == old(self).current_state,
            final(self).message_callback == old(self).message_callback,
            final(self).players@.len() == old(self).players@.len(),
            forall|k: int|
                0 <= k < old(self).players@.len() && k != player ==> #[trigger] final(self).players@[k] == old(self).players@[k],
            final(self).players@[player as int].name == old(self).players@[player as int].name,
            final(self).players@[player as int].cash == old(self).players@[player as int].cash,
            final(self).players@[player as int].stocks == old(self).players@[player as int].stocks,
            final(self).players@[player as int].tiles@.len() == old(self).players@[player as int].tiles@.len() - 1,
            forall|t: Tile| final(self).players@[player as int].tiles@.contains(t) <==> (old(self).players@[player as int].tiles@.contains(t) && t != tile),
    {
        let ghost pre_hand = self.players@[player as int].tiles@;
        let ghost pre_players = self.players@;
        let idx = find_tile_index(&self.players[player].tiles, tile);
        self.players[player].tiles.remove(idx);
        proof {
            assert forall|h2: int| 0 <= h2 < 7 implies #[trigger] self.available_stock@[h2]
                + total_stock(self.players@, h2, self.players@.len() as int) == 25 by {
                lemma_total_stock_single_update(
                    pre_players,
                    self.players@,
                    player as int,
                    h2,
                    pre_players.len() as int,
                );
            }
            let post_hand = self.players@[player as int].tiles@;
            // the hand held no duplicates, so removing the found copy
            // removes the tile entirely
            assert forall|k1: int, k2: int|
                0 <= k1 < pre_hand.len() && 0 <= k2 < pre_hand.len() && k1 != k2 implies
                pre_hand[k1] != pre_hand[k2] by {
                assert(old(self).players@[player as int].tiles@[k1] != old(self).players@[player as int].tiles@[k2]);
            }
            assert forall|t: Tile| post_hand.contains(t) implies (pre_hand.contains(t) && t
                != tile) by {
                let k = choose|k: int| 0 <= k < post_hand.len() && post_hand[k] == t;
                if k < idx {
                    assert(pre_hand[k] == t);
                } else {
                    assert(pre_hand[k + 1] == t);
                }
            }
            assert forall|t: Tile| pre_hand.contains(t) && t != tile implies post_hand.contains(
                t,
            ) by {
                let k = choose|k: int| 0 <= k < pre_hand.len() && pre_hand[k] == t;
                if k < idx {
                    assert(post_hand[k] == t);
                } else {
                    assert(k > idx);
                    assert(post_hand[k - 1] == t);
                }
            }
        }
    }
}

/// Whether `post` is `pre` with one copy of `t` taken out.
pub open spec fn hand_without(pre: Seq<Tile>, t: Tile, post: Seq<Tile>) -> bool {
    &&& post.len() == pre.len() - 1
    &&& forall|x: Tile| post.contains(x) <==> (pre.contains(x) && x != t)
}

impl<T: AcquireGameCallback> AcquireGame<T> {

    /// What follows the creation of a merger conflict at (`r`, `c`) by
    /// `player`, measured against the holdings `players0`: either the player
    /// is asked to pick a survivor (size tie), or a merger started into an
    /// acceptable survivor and is waiting for the maker's defunct choice, or
    /// the largest defunct chain has been paid out and is under disposal.
    pub open spec fn merge_outcome_rel(
        players0: Seq<Player>,
        post: &Self,
        player: int,
        r: int,
        c: int,
    ) -> bool {
        let n = players0.len() as int;
        ||| {
            &&& forall|q: int| 0 <= q < n ==> (#[trigger] post.players@[q]).cash
                == players0[q].cash
            &&& post.current_request == AcquireRequest::ChooseMergerSurvivor(player as usize)
            &&& post.current_state matches AcquireGameState::PlayTile(q) && q == player as usize
        }
        ||| {
            &&& forall|q: int| 0 <= q < n ==> (#[trigger] post.players@[q]).cash
                == players0[q].cash
            &&& post.current_request == AcquireRequest::ChooseDefunctChainToResolve(
                player as usize,
            )
            &&& post.current_state matches AcquireGameState::Merger(ms) && ms.merge_maker
                == player as usize && post.board.acceptable_resolution_spec(
                r,
                c,
                ms.surviving_hotel,
            )
        }
        ||| exists|h: Hotel, d: Hotel|
            {
                &&& #[trigger] post.board.acceptable_resolution_spec(r, c, h)
                &&& #[trigger] Self::largest_defunct_at(post.board, r, c, h, d)
                &&& forall|q: int| 0 <= q < n ==> (#[trigger] post.players@[q]).cash
                    == players0[q].cash + defunct_payout(
                    players0,
                    d,
                    post.board.chain_size_spec(d),
                    q,
                )
                &&& post.current_request == AcquireRequest::DisposeStock
                &&& post.current_state matches AcquireGameState::DisposeStock(ds) && {
                    &&& ds.merge_maker == player as usize
                    &&& ds.surviving_chain == h
                    &&& ds.defunct_chain == d
                    &&& ds.remaining_shares_per_player@.len() == n
                    &&& forall|q: int|
                        0 <= q < n ==> #[trigger] ds.remaining_shares_per_player@[q]
                            == players0[q].stocks@[crate::hotel_data::hotel_index_spec(d)]
                }
            }
    }

    /// Continue after a merger conflict has just been raised at
    /// (`row`, `col`): start the merger or ask for a survivor.
    #[verifier::rlimit(100)]
    fn merge_conflict_created(&mut self, row: usize, col: usize, player: usize)
        requires
            old(self).players_ok(),
            old(self).stock_ok(),
            old(self).tiles_ok(),
            old(self).board_ok(),
            old(self).board.merge_conflict_at(row as int, col as int),
            old(self).board.adjacent_count(row as int, col as int) >= 2,
            old(self).current_state matches AcquireGameState::PlayTile(p) && p == player,
            player < old(self).players@.len(),
            forall|q: int| 0 <= q < old(self).players@.len() ==> (#[trigger] old(self).players@[q]).cash
                <= CASH_CAP,
        ensures
            final(self).players_ok(),
            final(self).stock_ok(),
            final(self).tiles_ok(),
            final(self).board_ok(),
            final(self).state_ok(),
            final(self).board == old(self).board,
            final(self).players@.len() == old(self).players@.len(),
            final(self).message_callback == old(self).message_callback,
            final(self).available_stock == old(self).available_stock,
            final(self).available_tiles == old(self).available_tiles,
            forall|q: int| 0 <= q < old(self).players@.len() ==> {
                &&& (#[trigger] final(self).players@[q]).name == old(self).players@[q].name
                &&& final(self).players@[q].stocks == old(self).players@[q].stocks
                &&& final(self).players@[q].tiles == old(self).players@[q].tiles
            },
            Self::merge_outcome_rel(
                old(self).players@,
                final(self),
                player as int,
                row as int,
                col as int,
            ),
    {
        let ghost r = row as int;
        let ghost c = col as int;
        let largest_chains_in_merger = self.board.acceptable_conflict_resolutions();
        if largest_chains_in_merger.len() == 1 {
            let survivor = largest_chains_in_merger[0];
            proof {
                assert(largest_chains_in_merger@.contains(survivor));
                assert forall|h2: Hotel|
                    self.board.acceptable_resolution_spec(r, c, h2) implies h2 == survivor by {
                    assert(largest_chains_in_merger@.contains(h2));
                    let k = choose|k: int|
                        0 <= k < largest_chains_in_merger@.len() && largest_chains_in_merger@[k]
                            == h2;
                }
            }
            self.start_merge_phase(player, survivor);
            proof {
                assert(old(self).board.conflict_only_at(r, c));
                assert(self.board.acceptable_resolution_spec(r, c, survivor));
                if !Self::merger_tie_rel(old(self), self, player as int, survivor) {
                    let d = choose|d: Hotel|
                        (forall|r2: int, c2: int| #[trigger] old(self).board.merge_conflict_at(
                            r2,
                            c2,
                        ) ==> Self::largest_defunct_at(old(self).board, r2, c2, survivor, d))
                            && #[trigger] Self::dispose_entry_rel(
                            old(self),
                            self,
                            player as int,
                            survivor,
                            d,
                        );
                    assert(Self::largest_defunct_at(self.board, r, c, survivor, d));
                }
            }
        } else {
            self.current_request = AcquireRequest::ChooseMergerSurvivor(player);
        }
    }

    /// What follows a successful quiet placement by `player` (no conflict
    /// raised): the placed tile left the hand, and the player either went
    /// shopping or, with nothing to buy, ended the turn drawing one tile.
    pub open spec fn placed_shop_rel(pre: &Self, post: &Self, player: int, tile: Tile) -> bool {
        let n = pre.players@.len() as int;
        if exists|h: Hotel| #[trigger] post.board.chain_active(h) && pre.available_stock@[
            crate::hotel_data::hotel_index_spec(h)
        ] > 0 {
            &&& post.current_request == AcquireRequest::BuyStock(player as usize)
            &&& post.current_state matches AcquireGameState::BuyStock(bs) && bs.player == player
                as usize && bs.buys_remaining == 3
            &&& post.available_tiles == pre.available_tiles
            &&& forall|q: int| 0 <= q < n ==> (#[trigger] post.players@[q]).cash
                == pre.players@[q].cash
            &&& hand_without(
                pre.players@[player].tiles@,
                tile,
                post.players@[player].tiles@,
            )
        } else {
            &&& post.current_request == AcquireRequest::PlayTile(((player + 1) % n) as usize)
            &&& post.current_state matches AcquireGameState::PlayTile(q) && q == ((player + 1)
                % n) as usize
            &&& post.available_tiles@.len() == pre.available_tiles@.len() - 1
            &&& forall|q: int| 0 <= q < n ==> (#[trigger] post.players@[q]).cash
                == pre.players@[q].cash
            &&& post.players@[player].tiles@.len() == pre.players@[player].tiles@.len()
            &&& forall|x: Tile| #[trigger] post.players@[player].tiles@.contains(x) ==> ((
            pre.players@[player].tiles@.contains(x) && x != tile)
                || pre.available_tiles@.contains(x))
        }
    }

    /// Handle `player` answering the play-tile request with `tile`.
    ///
    /// An unplayable cell is rejected with its reason and nothing changes.
    /// Otherwise the tile leaves the hand and goes on the board: a quiet
    /// placement leads into buying stock (or ends the turn); a new-chain
    /// conflict asks the player for a chain; a merger conflict either asks
    /// for a survivor (on a size tie) or starts the merger with the unique
    /// largest adjacent chain as survivor.
    #[verifier::rlimit(100)]
    fn handle_tile_response(&mut self, tile: Tile, player: usize) -> (res: Result<
        (),
        AcquireError,
    >)
        requires
            old(self).players_ok(),
            old(self).stock_ok(),
            old(self).tiles_ok(),
            old(self).board_ok(),
            old(self).state_ok(),
            old(self).current_request == AcquireRequest::PlayTile(player),
            old(self).players@[player as int].tiles@.contains(tile),
            old(self).available_tiles@.len() > 0,
            forall|q: int| 0 <= q < old(self).players@.len() ==> (#[trigger] old(self).players@[q]).cash <= CASH_CAP,
        ensures
            final(self).players_ok(),
            final(self).stock_ok(),
            final(self).tiles_ok(),
            final(self).board_ok(),
            final(self).state_ok(),
            match old(self).board.playable_err(tile.row as int, tile.col as int) {
                Some(e) => res == Err::<(), AcquireError>(
                    AcquireError::InvalidMove(InvalidMoveReason::NotPlayable(e)),
                ) && *final(self) == *old(self),
                None => {
                    let r = tile.row as int;
                    let c = tile.col as int;
                    let n = old(self).players@.len() as int;
                    &&& res matches Ok(_)
                    &&& final(self).players@.len() == n
                    &&& final(self).message_callback == old(self).message_callback
                    &&& forall|q: int| 0 <= q < n ==> (#[trigger] final(self).players@[q]).name
                        == old(self).players@[q].name && final(self).players@[q].stocks == old(self).players@[q].stocks
                    &&& forall|q: int|
                        0 <= q < n && q != player ==> (#[trigger] final(self).players@[q]).tiles
                            == old(self).players@[q].tiles
                    &&& final(self).available_stock == old(self).available_stock
                    &&& if old(self).board.would_start_new_chain_spec(r, c) {
                        &&& GameBoard::same_except(old(self).board, final(self).board, r, c)
                        &&& final(self).board.cell(r, c) == Cell::Conflict(
                            crate::game_board::CellConflictType::NewChain,
                        )
                        &&& final(self).board.conflict_only_at(r, c)
                        &&& hand_without(
                            old(self).players@[player as int].tiles@,
                            tile,
                            final(self).players@[player as int].tiles@,
                        )
                        &&& final(self).available_tiles == old(self).available_tiles
                        &&& forall|q: int| 0 <= q < n ==> (#[trigger] final(self).players@[q]).cash == old(self).players@[q].cash
                        &&& final(self).current_request == AcquireRequest::ChooseNewChain(player)
                    } else if old(self).board.adjacent_count(r, c) > 1 {
                        &&& GameBoard::same_except(old(self).board, final(self).board, r, c)
                        &&& final(self).board.cell(r, c) == Cell::Conflict(
                            crate::game_board::CellConflictType::Merge(
                                (old(self).board.adjacent_count(r, c) - 1) as usize,
                            ),
                        )
                        &&& final(self).board.conflict_only_at(r, c)
                        &&& hand_without(
                            old(self).players@[player as int].tiles@,
                            tile,
                            final(self).players@[player as int].tiles@,
                        )
                        &&& final(self).available_tiles == old(self).available_tiles
                        &&& Self::merge_outcome_rel(
                            old(self).players@,
                            final(self),
                            player as int,
                            r,
                            c,
                        )
                    } else if old(self).board.adjacent_count(r, c) == 1 {
                        &&& (forall|h: Hotel| old(self).board.adjacent_spec(r, c, h)
                            ==> GameBoard::grow_result(old(self).board, final(self).board, r, c, h))
                        &&& !final(self).board.has_conflict()
                        &&& Self::placed_shop_rel(old(self), final(self), player as int, tile)
                    } else {
                        &&& GameBoard::same_except(old(self).board, final(self).board, r, c)
                        &&& final(self).board.cell(r, c) == Cell::Independent
                        &&& !final(self).board.has_conflict()
                        &&& Self::placed_shop_rel(old(self), final(self), player as int, tile)
                    }
                },
            },
    {
        match self.board.is_cell_playable(tile.row, tile.col) {
            Err(reason) => {
                return Err(AcquireError::InvalidMove(InvalidMoveReason::NotPlayable(reason)));
            },
            Ok(_) => {},
        }

        self.remove_tile_from_hand(player, tile);
        let ghost mid = *self;
        let place_tile_result = self.board.place_tile(tile.row, tile.col);
        proof {
            let r = tile.row as int;
            let c = tile.col as int;
            if !mid.board.would_start_new_chain_spec(r, c) && mid.board.adjacent_count(r, c)
                == 1 {
                lemma_adjacent_count_two_witnesses(mid.board, r, c, 7);
                let h = choose|h: Hotel|
                    crate::hotel_data::hotel_index_spec(h) < 7 && #[trigger] mid.board.adjacent_spec(
                        r,
                        c,
                        h,
                    );
                assert(GameBoard::grow_result(mid.board, self.board, r, c, h));
            }
            // the placed cell belongs to no pooled or held tile, and the
            // flood (if any) only relabels placed cells, so the tile
            // bookkeeping survives
            assert forall|k: int|
                0 <= k < self.available_tiles@.len() implies tile_on_empty_cell(
                self.board,
                #[trigger] self.available_tiles@[k],
            ) by {
                let k0 = choose|k0: int|
                    0 <= k0 < old(self).players@[player as int].tiles@.len() && old(self).players@[player as int].tiles@[k0] == tile;
                assert(!old(self).available_tiles@.contains(tile));
                assert(self.available_tiles@.contains(self.available_tiles@[k]));
                assert(self.available_tiles@[k] != tile);
                assert(tile_on_empty_cell(mid.board, self.available_tiles@[k]));
            }
            assert forall|p1: int, k1: int|
                0 <= p1 < self.players@.len() && 0 <= k1
                    < self.players@[p1].tiles@.len() implies tile_on_empty_cell(
                self.board,
                #[trigger] self.players@[p1].tiles@[k1],
            ) by {
                assert(mid.players@[p1].tiles@.contains(mid.players@[p1].tiles@[k1]));
                if p1 == player {
                    assert(self.players@[p1].tiles@[k1] != tile);
                } else {
                    let k0 = choose|k0: int|
                        0 <= k0 < old(self).players@[player as int].tiles@.len() && old(self).players@[player as int].tiles@[k0] == tile;
                    assert(old(self).players@[p1].tiles@[k1] != old(self).players@[player as int].tiles@[k0]);
                }
                assert(tile_on_empty_cell(mid.board, self.players@[p1].tiles@[k1]));
            }
        }

        let message = self.players[player].name.clone().concat(" placed tile ").concat(
            tile.label().as_str(),
        );
        self.message_callback.send_message(message.as_str());

        match place_tile_result {
            PlaceTileResult::Success => {
                let ghost mid2 = *self;
                self.start_buy_stock_phase(player);
                proof {
                    if !(exists|h: Hotel| #[trigger] mid2.board.chain_active(h)
                        && mid2.available_stock@[crate::hotel_data::hotel_index_spec(h)] > 0) {
                        assert forall|x: Tile|
                            #[trigger] self.players@[player as int].tiles@.contains(x) implies ((
                        old(self).players@[player as int].tiles@.contains(x) && x != tile) || old(self).available_tiles@.contains(x)) by {
                            let hand = self.players@[player as int].tiles@;
                            let k = choose|k: int| 0 <= k < hand.len() && hand[k] == x;
                            if k < hand.len() - 1 {
                                assert(hand.drop_last()[k] == x);
                                assert(mid2.players@[player as int].tiles@.contains(x));
                            } else {
                                assert(x == hand.last());
                            }
                        }
                    }
                }
                Ok(())
            },
            PlaceTileResult::ConflictCreated(CellConflictType::NewChain) => {
                self.message_callback.send_message("A new chain has been started!");
                self.current_request = AcquireRequest::ChooseNewChain(player);
                Ok(())
            },
            PlaceTileResult::ConflictCreated(CellConflictType::Merge(_)) => {
                let ghost r = tile.row as int;
                let ghost c = tile.col as int;
                proof {
                    assert forall|h2: Hotel|
                        self.board.adjacent_spec(r, c, h2) == mid.board.adjacent_spec(
                        r,
                        c,
                        h2,
                    ) by {}
                    lemma_adjacent_count_congruent(mid.board, self.board, r, c, 7);
                    assert(self.board.merge_conflict_at(r, c));
                    assert forall|r2: int, c2: int|
                        0 <= r2 < 9 && 0 <= c2 < 12 && (#[trigger] self.board.cell(r2, c2)
                            matches Cell::Conflict(CellConflictType::Merge(_))) implies
                        self.board.adjacent_count(r2, c2) >= 2 by {
                        assert(r2 == r && c2 == c);
                    }
                }
                let ghost mid2 = *self;
                self.merge_conflict_created(tile.row, tile.col, player);
                proof {
                    let n = old(self).players@.len() as int;
                    if self.current_request == AcquireRequest::DisposeStock {
                        let (h, d) = choose|h: Hotel, d: Hotel|
                            {
                                &&& #[trigger] self.board.acceptable_resolution_spec(r, c, h)
                                &&& #[trigger] Self::largest_defunct_at(self.board, r, c, h, d)
                                &&& forall|q: int|
                                    0 <= q < n ==> (#[trigger] self.players@[q]).cash
                                        == mid2.players@[q].cash + defunct_payout(
                                        mid2.players@,
                                        d,
                                        self.board.chain_size_spec(d),
                                        q,
                                    )
                                &&& self.current_request == AcquireRequest::DisposeStock
                                &&& self.current_state matches AcquireGameState::DisposeStock(ds)
                                    && {
                                    &&& ds.merge_maker == player
                                    &&& ds.surviving_chain == h
                                    &&& ds.defunct_chain == d
                                    &&& ds.remaining_shares_per_player@.len() == n
                                    &&& forall|q: int|
                                        0 <= q < n
                                            ==> #[trigger] ds.remaining_shares_per_player@[q]
                                            == mid2.players@[q].stocks@[
                                            crate::hotel_data::hotel_index_spec(d)]
                                }
                            };
                        assert forall|q: int| 0 <= q < n implies (
                        #[trigger] self.players@[q]).cash == old(self).players@[q].cash
                            + defunct_payout(
                            old(self).players@,
                            d,
                            self.board.chain_size_spec(d),
                            q,
                        ) by {
                            lemma_payout_same_stocks(
                                mid2.players@,
                                old(self).players@,
                                d,
                                self.board.chain_size_spec(d),
                                q,
                            );
                        }
                    }
                }
                Ok(())
            },
            PlaceTileResult::CellNotPlayable(_) => {
                proof {
                    assert(false);
                }
                Err(AcquireError::ProtocolMismatch)
            },
        }
    }
}

/// How many shares a disposal choice covers, out of `remaining`.
pub open spec fn dispose_shares_spec(choice: DisposeStockChoice, remaining: int) -> int {
    match choice {
        DisposeStockChoice::Keep => 1,
        DisposeStockChoice::Sell => 1,
        DisposeStockChoice::Trade => 2,
        DisposeStockChoice::SellAll => remaining,
        DisposeStockChoice::KeepAll => remaining,
        DisposeStockChoice::TradeAll => (remaining / 2) * 2,
    }
}

/// Whether a disposal choice trades shares for survivor stock.
pub open spec fn is_trade_choice(choice: DisposeStockChoice) -> bool {
    choice == DisposeStockChoice::Trade || choice == DisposeStockChoice::TradeAll
}

/// Whether a disposal choice sells shares back to the bank.
pub open spec fn is_sell_choice(choice: DisposeStockChoice) -> bool {
    choice == DisposeStockChoice::Sell || choice == DisposeStockChoice::SellAll
}

impl<T: AcquireGameCallback> AcquireGame<T> {
    /// Why a disposal response would be rejected, if it would be.
    pub open spec fn dispose_error_spec(
        &self,
        choice: DisposeStockChoice,
        player: int,
    ) -> Option<InvalidMoveReason> {
        let ds = self.current_state->DisposeStock_0;
        let remaining = ds.remaining_shares_per_player@[player] as int;
        let shares = dispose_shares_spec(choice, remaining);
        if remaining == 0 {
            Some(InvalidMoveReason::NoSharesRemaining)
        } else if shares > remaining {
            Some(InvalidMoveReason::OverDisposal)
        } else if shares == 0 {
            Some(InvalidMoveReason::NothingToTrade)
        } else if is_trade_choice(choice) && self.available_stock@[
            crate::hotel_data::hotel_index_spec(ds.surviving_chain)
        ] < shares / 2 {
            Some(InvalidMoveReason::NotEnoughSurvivorStock)
        } else {
            None
        }
    }

    /// Absorb the fully disposed defunct chain into the survivor and resume
    /// the merger: the next defunct chain is paid out and goes under
    /// disposal, or the tied defunct chains go to the maker, or the merger
    /// completes and the maker shops or ends the turn.
    #[verifier::rlimit(100)]
    fn finish_disposal(&mut self, defunct_chain: Hotel, merge_maker: usize, merge_survivor: Hotel)
        requires
            old(self).players_ok(),
            old(self).stock_ok(),
            old(self).tiles_ok(),
            old(self).board_ok(),
            old(self).current_state matches AcquireGameState::DisposeStock(ds) && {
                &&& ds.defunct_chain == defunct_chain
                &&& ds.merge_maker == merge_maker
                &&& ds.surviving_chain == merge_survivor
            },
            merge_maker < old(self).players@.len(),
            defunct_chain != merge_survivor,
            exists|r: int, c: int| #[trigger] old(self).board.merge_conflict_at(r, c),
            forall|r: int, c: int| #[trigger] old(self).board.merge_conflict_at(r, c) ==> old(self).board.adjacent_spec(r, c, defunct_chain) || old(self).board.adjacent_spec(
                r,
                c,
                merge_survivor,
            ),
            old(self).available_tiles@.len() > 0,
            forall|q: int| 0 <= q < old(self).players@.len() ==> #[trigger] old(self).players@[q].cash
                + 24000 <= u32::MAX,
        ensures
            final(self).players_ok(),
            final(self).stock_ok(),
            final(self).tiles_ok(),
            final(self).board_ok(),
            final(self).state_ok(),
            final(self).players@.len() == old(self).players@.len(),
            final(self).available_stock == old(self).available_stock,
            final(self).message_callback == old(self).message_callback,
            forall|q: int| 0 <= q < old(self).players@.len() ==> {
                &&& (#[trigger] final(self).players@[q]).name == old(self).players@[q].name
                &&& final(self).players@[q].stocks == old(self).players@[q].stocks
            },
            forall|q: int|
                0 <= q < old(self).players@.len() && q != merge_maker ==> (#[trigger] final(self).players@[q]).tiles == old(self).players@[q].tiles,
            forall|r: int, c: int|
                0 <= r < 9 && 0 <= c < 12 ==> {
                    &&& (#[trigger] final(self).board.cell(r, c) == old(self).board.cell(r, c)
                        || final(self).board.cell(r, c) == Cell::Hotel(merge_survivor))
                    &&& (old(self).board.cell(r, c) == Cell::Empty ==> final(self).board.cell(r, c)
                        == Cell::Empty)
                },
            ({
                ||| {
                    &&& final(self).current_request == AcquireRequest::DisposeStock
                    &&& final(self).current_state matches AcquireGameState::DisposeStock(ds2)
                        && ds2.merge_maker == merge_maker && ds2.surviving_chain == merge_survivor
                        && (forall|q: int|
                        0 <= q < old(self).players@.len() ==> (#[trigger] final(self).players@[q]).cash == old(self).players@[q].cash + defunct_payout(
                            final(self).players@,
                            ds2.defunct_chain,
                            final(self).board.chain_size_spec(ds2.defunct_chain),
                            q,
                        ))
                }
                ||| {
                    &&& final(self).current_request == AcquireRequest::ChooseDefunctChainToResolve(
                        merge_maker,
                    )
                    &&& final(self).current_state matches AcquireGameState::Merger(ms2)
                        && ms2.merge_maker == merge_maker && ms2.surviving_hotel == merge_survivor
                    &&& forall|q: int| 0 <= q < old(self).players@.len() ==> (#[trigger] final(self).players@[q]).cash == old(self).players@[q].cash
                }
                ||| {
                    &&& !final(self).board.has_conflict()
                    &&& (final(self).current_request == AcquireRequest::BuyStock(merge_maker)
                        || final(self).current_request == AcquireRequest::PlayTile(
                        ((merge_maker + 1) as int % (old(self).players@.len() as int)) as usize,
                    ))
                    &&& forall|q: int| 0 <= q < old(self).players@.len() ==> (#[trigger] final(self).players@[q]).cash == old(self).players@[q].cash
                }
            }),
    {
        let message = String::from_str("All players have disposed of their stock in ").concat(
            defunct_chain.name(),
        );
        self.message_callback.send_message(message.as_str());

        let ghost pre_relabel = *self;
        self.board.replace_defunct_hotel_with_surviving_hotel(defunct_chain, merge_survivor);
        proof {
            assert forall|k: int|
                0 <= k < self.available_tiles@.len() implies tile_on_empty_cell(
                self.board,
                #[trigger] self.available_tiles@[k],
            ) by {
                assert(tile_on_empty_cell(pre_relabel.board, self.available_tiles@[k]));
            }
            assert forall|p1: int, k1: int|
                0 <= p1 < self.players@.len() && 0 <= k1
                    < self.players@[p1].tiles@.len() implies tile_on_empty_cell(
                self.board,
                #[trigger] self.players@[p1].tiles@[k1],
            ) by {
                assert(tile_on_empty_cell(pre_relabel.board, self.players@[p1].tiles@[k1]));
            }
            assert forall|r: int, c: int|
                0 <= r < 9 && 0 <= c < 12 && ((#[trigger] self.board.cell(r, c))
                    matches Cell::Conflict(_)) implies pre_relabel.board.cell(r, c)
                == self.board.cell(r, c) by {}
            let (cr, cc) = choose|r: int, c: int|
                #[trigger] pre_relabel.board.merge_conflict_at(r, c);
            assert(self.board.merge_conflict_at(cr, cc));
            assert forall|r: int, c: int| #[trigger] self.board.merge_conflict_at(r, c) implies
                self.board.adjacent_spec(r, c, merge_survivor) by {
                assert(pre_relabel.board.merge_conflict_at(r, c));
            }
            assert forall|r: int, c: int|
                0 <= r < 9 && 0 <= c < 12 && ((#[trigger] self.board.cell(r, c))
                    matches Cell::Conflict(CellConflictType::Merge(_))) implies
                self.board.adjacent_count(r, c) >= 1 by {
                assert(self.board.merge_conflict_at(r, c));
                lemma_adjacent_count_at_least_one(self.board, r, c, merge_survivor);
            }
        }
        let ghost mid = *self;
        self.continue_merge_phase(merge_maker, merge_survivor);
        proof {
            if Self::merger_advance_rel(&mid, self, merge_maker as int, merge_survivor) {
                if !Self::merger_tie_rel(&mid, self, merge_maker as int, merge_survivor) {
                    let d = choose|d: Hotel|
                        (forall|r2: int, c2: int| #[trigger] mid.board.merge_conflict_at(r2, c2)
                            ==> Self::largest_defunct_at(mid.board, r2, c2, merge_survivor, d))
                            && #[trigger] Self::dispose_entry_rel(
                            &mid,
                            self,
                            merge_maker as int,
                            merge_survivor,
                            d,
                        );
                    assert forall|q: int| 0 <= q < old(self).players@.len() implies (
                    #[trigger] self.players@[q]).cash == old(self).players@[q].cash
                        + defunct_payout(
                        self.players@,
                        d,
                        self.board.chain_size_spec(d),
                        q,
                    ) by {
                        lemma_payout_same_stocks(
                            mid.players@,
                            self.players@,
                            d,
                            self.board.chain_size_spec(d),
                            q,
                        );
                    }
                }
            }
        }
    }

    /// What an accepted disposal response leaves behind; see
    /// `handle_dispose_stock_response`.
    #[verifier::opaque]
    pub open spec fn dispose_ok_post(
        pre: &Self,
        post: &Self,
        choice: DisposeStockChoice,
        player: int,
        res: Result<(), AcquireError>,
    ) -> bool {

                    let ds = pre.current_state->DisposeStock_0;
                    let n = pre.players@.len() as int;
                    let dh = crate::hotel_data::hotel_index_spec(ds.defunct_chain);
                    let sh = crate::hotel_data::hotel_index_spec(ds.surviving_chain);
                    let remaining = ds.remaining_shares_per_player@[player] as int;
                    let shares = dispose_shares_spec(choice, remaining);
                    let sale = if is_sell_choice(choice) {
                        crate::hotel_data::stock_value_spec(
                            ds.defunct_chain,
                            pre.board.chain_size_spec(ds.defunct_chain),
                        ) * shares
                    } else {
                        0
                    };
                    let completed = remaining - shares == 0 && forall|q: int|
                        0 <= q < n && q != player ==> ds.remaining_shares_per_player@[q] == 0;
                    &&& res matches Ok(_)
                    &&& post.players@.len() == n
                    &&& forall|q: int| 0 <= q < n ==> (#[trigger] post.players@[q]).name
                        == pre.players@[q].name && (q != ds.merge_maker as int
                        ==> post.players@[q].tiles == pre.players@[q].tiles)
                    &&& forall|q: int|
                        0 <= q < n && q != player ==> (#[trigger] post.players@[q]).stocks
                            == pre.players@[q].stocks
                    // the acting player's holdings move exactly with the choice
                    &&& if is_sell_choice(choice) {
                        &&& post.players@[player].stocks@ == pre.players@[player].stocks@.update(
                            dh,
                            (pre.players@[player].stocks@[dh] - shares) as u32,
                        )
                        &&& post.available_stock@ == pre.available_stock@.update(
                            dh,
                            (pre.available_stock@[dh] + shares) as u32,
                        )
                    } else if is_trade_choice(choice) {
                        &&& post.players@[player].stocks@ == pre.players@[player].stocks@.update(
                            sh,
                            (pre.players@[player].stocks@[sh] + shares / 2) as u32,
                        ).update(dh, (pre.players@[player].stocks@[dh] - shares) as u32)
                        &&& post.available_stock@ == pre.available_stock@.update(
                            sh,
                            (pre.available_stock@[sh] - shares / 2) as u32,
                        ).update(dh, (pre.available_stock@[dh] + shares) as u32)
                    } else {
                        &&& post.players@[player].stocks == pre.players@[player].stocks
                        &&& post.available_stock == pre.available_stock
                    }
                    &&& if !completed {
                        // the disposal phase continues with the updated quota
                        &&& forall|q: int| 0 <= q < n ==> (#[trigger] post.players@[q]).cash
                            == pre.players@[q].cash + if q == player {
                            sale
                        } else {
                            0
                        }
                        &&& post.board == pre.board
                        &&& post.available_tiles == pre.available_tiles
                        &&& post.current_request == AcquireRequest::DisposeStock
                        &&& post.current_state matches AcquireGameState::DisposeStock(ds2)
                            && {
                            &&& ds2.merge_maker == ds.merge_maker
                            &&& ds2.surviving_chain == ds.surviving_chain
                            &&& ds2.defunct_chain == ds.defunct_chain
                            &&& ds2.remaining_shares_per_player@
                                == ds.remaining_shares_per_player@.update(
                                player,
                                (remaining - shares) as u32,
                            )
                        }
                    } else {
                        // the defunct chain is absorbed and the merger resumes
                        &&& forall|r: int, c: int|
                            0 <= r < 9 && 0 <= c < 12 ==> {
                                &&& (#[trigger] post.board.cell(r, c) == pre.board.cell(r, c)
                                    || post.board.cell(r, c) == Cell::Hotel(
                                    ds.surviving_chain,
                                ))
                                &&& (pre.board.cell(r, c) == Cell::Empty ==> post.board.cell(
                                    r,
                                    c,
                                ) == Cell::Empty)
                            }
                        &&& {
                            ||| {
                                &&& post.current_request == AcquireRequest::DisposeStock
                                &&& post.current_state
                                    matches AcquireGameState::DisposeStock(ds2) && ds2.merge_maker
                                    == ds.merge_maker && ds2.surviving_chain == ds.surviving_chain
                                    && (forall|q: int| 0 <= q < n ==> (#[trigger] post.players@[q]).cash
                                    == pre.players@[q].cash + (if q == player {
                                    sale
                                } else {
                                    0
                                }) + defunct_payout(
                                    post.players@,
                                    ds2.defunct_chain,
                                    post.board.chain_size_spec(ds2.defunct_chain),
                                    q,
                                ))
                            }
                            ||| {
                                &&& post.current_request
                                    == AcquireRequest::ChooseDefunctChainToResolve(ds.merge_maker)
                                &&& post.current_state matches AcquireGameState::Merger(ms2)
                                    && ms2.merge_maker == ds.merge_maker && ms2.surviving_hotel
                                    == ds.surviving_chain
                                &&& forall|q: int| 0 <= q < n ==> (#[trigger] post.players@[q]).cash
                                    == pre.players@[q].cash + if q == player {
                                    sale
                                } else {
                                    0
                                }
                            }
                            ||| {
                                &&& !post.board.has_conflict()
                                &&& (post.current_request == AcquireRequest::BuyStock(
                                    ds.merge_maker,
                                ) || post.current_request == AcquireRequest::PlayTile(
                                    ((ds.merge_maker + 1) as int % n) as usize,
                                ))
                                &&& forall|q: int| 0 <= q < n ==> (#[trigger] post.players@[q]).cash
                                    == pre.players@[q].cash + if q == player {
                                    sale
                                } else {
                                    0
                                }
                            }
                        }
                    }
    }

    /// Handle `player` deciding the fate of their defunct-chain shares.
    ///
    /// The choice covers one share (`Keep`, `Sell`), two (`Trade`) or all
    /// remaining shares at once; a trade swaps two defunct shares for one
    /// survivor share from the bank.  An over-large, empty or unfundable
    /// choice is rejected and nothing changes.  When every player's
    /// remaining count reaches zero, the defunct chain's cells join the
    /// survivor and the merger resumes.
    #[verifier::rlimit(100)]
    fn handle_dispose_stock_response(
        &mut self,
        choice: DisposeStockChoice,
        player: usize,
    ) -> (res: Result<(), AcquireError>)
        requires
            old(self).players_ok(),
            old(self).stock_ok(),
            old(self).tiles_ok(),
            old(self).board_ok(),
            old(self).state_ok(),
            old(self).current_request == AcquireRequest::DisposeStock,
            old(self).current_state matches AcquireGameState::DisposeStock(ds),
            player < old(self).players@.len(),
            old(self).available_tiles@.len() > 0,
            forall|q: int| 0 <= q < old(self).players@.len() ==> (#[trigger] old(self).players@[q]).cash
                <= CASH_CAP,
        ensures
            final(self).players_ok(),
            final(self).stock_ok(),
            final(self).tiles_ok(),
            final(self).board_ok(),
            final(self).state_ok(),
            match old(self).dispose_error_spec(choice, player as int) {
                Some(e) => res == Err::<(), AcquireError>(AcquireError::InvalidMove(e)) && *final(self)
                    == *old(self),
                None => res matches Ok(_) && Self::dispose_ok_post(
                    old(self),
                    final(self),
                    choice,
                    player as int,
                    res,
                ),
            },
    {
        let (defunct_chain, merge_maker, merge_survivor, remaining_shares) = match &self.current_state {
            AcquireGameState::DisposeStock(dispose_stock_state) => (
                dispose_stock_state.defunct_chain,
                dispose_stock_state.merge_maker,
                dispose_stock_state.surviving_chain,
                dispose_stock_state.get_remaining_shares(player),
            ),
            _ => {
                proof {
                    assert(false);
                }
                (Hotel::Tower, 0, Hotel::Tower, 0)
            },
        };

        if remaining_shares == 0 {
            return Err(AcquireError::InvalidMove(InvalidMoveReason::NoSharesRemaining));
        }

        let shares_to_handle: u32 = match choice {
            DisposeStockChoice::Keep => 1,
            DisposeStockChoice::Sell => 1,
            DisposeStockChoice::Trade => 2,
            DisposeStockChoice::SellAll => remaining_shares,
            DisposeStockChoice::KeepAll => remaining_shares,
            DisposeStockChoice::TradeAll => (remaining_shares / 2) * 2,
        };

        if shares_to_handle > remaining_shares {
            return Err(AcquireError::InvalidMove(InvalidMoveReason::OverDisposal));
        }
        if shares_to_handle == 0 {
            return Err(AcquireError::InvalidMove(InvalidMoveReason::NothingToTrade));
        }
        let is_trade = match choice {
            DisposeStockChoice::Trade | DisposeStockChoice::TradeAll => true,
            _ => false,
        };
        if is_trade && self.get_current_stock_availability(merge_survivor) < shares_to_handle / 2 {
            return Err(AcquireError::InvalidMove(InvalidMoveReason::NotEnoughSurvivorStock));
        }

        self.apply_dispose(choice, player, defunct_chain, merge_maker, merge_survivor, remaining_shares, shares_to_handle);
        Ok(())
    }

    /// Apply a validated disposal choice; see `handle_dispose_stock_response`.
    #[verifier::rlimit(100)]
    #[verifier::spinoff_prover]
    fn apply_dispose(
        &mut self,
        choice: DisposeStockChoice,
        player: usize,
        defunct_chain: Hotel,
        merge_maker: usize,
        merge_survivor: Hotel,
        remaining_shares: u32,
        shares_to_handle: u32,
    )
        requires
            old(self).players_ok(),
            old(self).stock_ok(),
            old(self).tiles_ok(),
            old(self).board_ok(),
            old(self).state_ok(),
            old(self).current_request == AcquireRequest::DisposeStock,
            old(self).current_state matches AcquireGameState::DisposeStock(ds) && {
                &&& ds.defunct_chain == defunct_chain
                &&& ds.merge_maker == merge_maker
                &&& ds.surviving_chain == merge_survivor
                &&& ds.remaining_shares_per_player@[player as int] == remaining_shares
            },
            player < old(self).players@.len(),
            old(self).available_tiles@.len() > 0,
            forall|q: int| 0 <= q < old(self).players@.len() ==> (#[trigger] old(self).players@[q]).cash
                <= CASH_CAP,
            old(self).dispose_error_spec(choice, player as int) is None,
            shares_to_handle == dispose_shares_spec(choice, remaining_shares as int),
            0 < shares_to_handle <= remaining_shares,
        ensures
            final(self).players_ok(),
            final(self).stock_ok(),
            final(self).tiles_ok(),
            final(self).board_ok(),
            final(self).state_ok(),
            Self::dispose_ok_post(
                old(self),
                final(self),
                choice,
                player as int,
                Ok::<(), AcquireError>(()),
            ),
    {
        proof {
            lemma_total_stock_member_bound(
                self.players@,
                crate::hotel_data::hotel_index_spec(defunct_chain),
                player as int,
                self.players@.len() as int,
            );
            lemma_total_stock_nonneg(
                self.players@,
                crate::hotel_data::hotel_index_spec(defunct_chain),
                self.players@.len() as int,
            );
            assert(remaining_shares <= self.players@[player as int].stocks@[
                crate::hotel_data::hotel_index_spec(defunct_chain)]);
            assert(self.available_stock@[crate::hotel_data::hotel_index_spec(defunct_chain)]
                + total_stock(
                self.players@,
                crate::hotel_data::hotel_index_spec(defunct_chain),
                self.players@.len() as int,
            ) == 25);
            assert(shares_to_handle <= 25);
        }

        let done = match &mut self.current_state {
            AcquireGameState::DisposeStock(dispose_stock_state) => dispose_stock_state.player_handled_stock(
                player,
                shares_to_handle,
            ),
            _ => {
                proof {
                    assert(false);
                }
                false
            },
        };

        proof {
            let ds0 = old(self).current_state->DisposeStock_0;
            let upd = ds0.remaining_shares_per_player@.update(
                player as int,
                (remaining_shares - shares_to_handle) as u32,
            );
            assert forall|q: int|
                0 <= q < upd.len() && q != player implies upd[q]
                == ds0.remaining_shares_per_player@[q] by {}
            if done {
                assert(upd[player as int] == 0);
                assert forall|q: int|
                    0 <= q < old(self).players@.len() && q != player implies
                    ds0.remaining_shares_per_player@[q] == 0 by {
                    assert(upd[q] == 0);
                }
            }
        }
        match choice {
            DisposeStockChoice::Keep | DisposeStockChoice::KeepAll => {
                let message = self.players[player].name.clone().concat(
                    " has chosen to keep stock in ",
                ).concat(defunct_chain.name());
                self.message_callback.send_message(message.as_str());
            },
            DisposeStockChoice::Sell | DisposeStockChoice::SellAll => {
                self.sell_off_players_stock(defunct_chain, player, shares_to_handle);
            },
            DisposeStockChoice::Trade | DisposeStockChoice::TradeAll => {
                self.give_player_stock(merge_survivor, player, shares_to_handle / 2);
                self.take_back_players_stock(defunct_chain, player, shares_to_handle);
            },
        }

        if done {
            proof {
                let (cr, cc) = choose|r: int, c: int|
                    #[trigger] old(self).board.merge_conflict_at(r, c);
                assert(self.board.merge_conflict_at(cr, cc));
                let price = crate::hotel_data::stock_value_spec(
                    defunct_chain,
                    old(self).board.chain_size_spec(defunct_chain),
                );
                assert(price <= 1200);
                assert(price * shares_to_handle <= 30000) by (nonlinear_arith)
                    requires
                        0 <= price <= 1200,
                        0 <= shares_to_handle <= 25,
                ;
                assert forall|q: int| 0 <= q < self.players@.len() implies (
                #[trigger] self.players@[q]).cash + 24000 <= u32::MAX by {
                    assert(old(self).players@[q].cash <= CASH_CAP);
                }
            }
            self.finish_disposal(defunct_chain, merge_maker, merge_survivor);
        }

        proof {
            reveal(AcquireGame::dispose_ok_post);
        }
    }
    /// What an accepted chain founding leaves behind; see
    /// `handle_new_chain_response`.
    #[verifier::opaque]
    pub open spec fn new_chain_ok_post(pre: &Self, post: &Self, hotel: Hotel, player: int) -> bool {
        let n = pre.players@.len() as int;
        let h = crate::hotel_data::hotel_index_spec(hotel);
        let founded = pre.available_stock@[h] > 0;
        &&& GameBoard::flood_result(pre.board, post.board, hotel)
        &&& !post.board.has_conflict()
        &&& forall|r: int, c: int| #[trigger] pre.board.conflict_only_at(r, c)
            ==> post.board.cell(r, c) == Cell::Hotel(hotel)
        &&& post.players@.len() == n
        &&& forall|q: int| 0 <= q < n ==> {
            &&& (#[trigger] post.players@[q]).name == pre.players@[q].name
            &&& post.players@[q].cash == pre.players@[q].cash
        }
        &&& forall|q: int|
            0 <= q < n && q != player ==> (#[trigger] post.players@[q]).stocks
                == pre.players@[q].stocks
        &&& if founded {
            &&& post.players@[player].stocks@ == pre.players@[player].stocks@.update(
                h,
                (pre.players@[player].stocks@[h] + 1) as u32,
            )
            &&& post.available_stock@ == pre.available_stock@.update(
                h,
                (pre.available_stock@[h] - 1) as u32,
            )
        } else {
            &&& post.players@[player].stocks == pre.players@[player].stocks
            &&& post.available_stock == pre.available_stock
        }
        &&& (post.current_request == AcquireRequest::BuyStock(player as usize)
            || post.current_request == AcquireRequest::PlayTile(((player + 1) % n) as usize))
    }

    /// Handle `player` founding a new chain `hotel` to resolve the pending
    /// new-chain conflict.  An already active chain is rejected; otherwise
    /// the conflict region joins the new chain, the founder receives one
    /// bonus share when the bank has one, and play moves on to buying stock
    /// (or the turn ends).
    fn handle_new_chain_response(&mut self, hotel: Hotel, player: usize) -> (res: Result<
        (),
        AcquireError,
    >)
        requires
            old(self).players_ok(),
            old(self).stock_ok(),
            old(self).tiles_ok(),
            old(self).board_ok(),
            old(self).state_ok(),
            old(self).current_request == AcquireRequest::ChooseNewChain(player),
            old(self).current_state matches AcquireGameState::PlayTile(p) && p == player,
            old(self).available_tiles@.len() > 0,
        ensures
            final(self).players_ok(),
            final(self).stock_ok(),
            final(self).tiles_ok(),
            final(self).board_ok(),
            final(self).state_ok(),
            if old(self).board.chain_active(hotel) {
                &&& res == Err::<(), AcquireError>(
                    AcquireError::InvalidMove(InvalidMoveReason::ChainAlreadyActive),
                )
                &&& *final(self) == *old(self)
            } else {
                &&& res matches Ok(_)
                &&& Self::new_chain_ok_post(old(self), final(self), hotel, player as int)
            },
    {
        let inactive = self.board.get_inactive_hotels();
        if !contains_hotel(&inactive, hotel) {
            return Err(AcquireError::InvalidMove(InvalidMoveReason::ChainAlreadyActive));
        }
        self.apply_new_chain(hotel, player);
        Ok(())
    }

    /// Found the validated new chain `hotel`; see `handle_new_chain_response`.
    #[verifier::rlimit(100)]
    fn apply_new_chain(&mut self, hotel: Hotel, player: usize)
        requires
            old(self).players_ok(),
            old(self).stock_ok(),
            old(self).tiles_ok(),
            old(self).board_ok(),
            old(self).state_ok(),
            old(self).current_request == AcquireRequest::ChooseNewChain(player),
            old(self).current_state matches AcquireGameState::PlayTile(p) && p == player,
            old(self).available_tiles@.len() > 0,
            !old(self).board.chain_active(hotel),
        ensures
            final(self).players_ok(),
            final(self).stock_ok(),
            final(self).tiles_ok(),
            final(self).board_ok(),
            final(self).state_ok(),
            Self::new_chain_ok_post(old(self), final(self), hotel, player as int),
    {
        let ghost (cr, cc) = choose|r: int, c: int|
            #[trigger] old(self).board.conflict_only_at(r, c) && old(self).board.cell(r, c)
                == Cell::Conflict(CellConflictType::NewChain);
        proof {
            assert(self.board.acceptable_resolution_spec(cr, cc, hotel));
            assert(self.board.resolvable_with(hotel));
        }
        let ghost pre_resolve = *self;
        let resolve_result = self.board.resolve_conflict(hotel);
        proof {
            assert(resolve_result matches Ok(_));
            assert forall|k: int|
                0 <= k < self.available_tiles@.len() implies tile_on_empty_cell(
                self.board,
                #[trigger] self.available_tiles@[k],
            ) by {
                assert(tile_on_empty_cell(pre_resolve.board, self.available_tiles@[k]));
            }
            assert forall|p1: int, k1: int|
                0 <= p1 < self.players@.len() && 0 <= k1
                    < self.players@[p1].tiles@.len() implies tile_on_empty_cell(
                self.board,
                #[trigger] self.players@[p1].tiles@[k1],
            ) by {
                assert(tile_on_empty_cell(pre_resolve.board, self.players@[p1].tiles@[k1]));
            }
        }

        let message = self.players[player].name.clone().concat(" has started a new chain in ")
            .concat(hotel.name());
        self.message_callback.send_message(message.as_str());

        if self.get_current_stock_availability(hotel) > 0 {
            self.give_player_stock(hotel, player, 1);
        } else {
            self.message_callback.send_message(
                "No stock is available, so no founding bonus is given",
            );
        }

        self.start_buy_stock_phase(player);
        proof {
            reveal(AcquireGame::new_chain_ok_post);
        }
    }

    /// Handle `player` choosing `hotel` to survive the pending merger.  A
    /// chain that is not among the largest adjacent chains is rejected;
    /// otherwise the merger starts.
    fn handle_merger_survivor_response(&mut self, hotel: Hotel, player: usize) -> (res: Result<
        (),
        AcquireError,
    >)
        requires
            old(self).players_ok(),
            old(self).stock_ok(),
            old(self).tiles_ok(),
            old(self).board_ok(),
            old(self).state_ok(),
            old(self).current_request == AcquireRequest::ChooseMergerSurvivor(player),
            old(self).current_state matches AcquireGameState::PlayTile(p) && p == player,
            forall|q: int| 0 <= q < old(self).players@.len() ==> (#[trigger] old(self).players@[q]).cash <= CASH_CAP,
        ensures
            final(self).players_ok(),
            final(self).stock_ok(),
            final(self).tiles_ok(),
            final(self).board_ok(),
            final(self).state_ok(),
            if forall|r: int, c: int| #[trigger] old(self).board.merge_conflict_at(r, c) ==> old(self).board.acceptable_resolution_spec(r, c, hotel) {
                &&& res matches Ok(_)
                &&& final(self).board == old(self).board
                &&& Self::merger_advance_rel(old(self), final(self), player as int, hotel)
            } else {
                &&& res == Err::<(), AcquireError>(
                    AcquireError::InvalidMove(InvalidMoveReason::ChainNotAcceptable),
                )
                &&& *final(self) == *old(self)
            },
    {
        let acceptable = self.board.acceptable_conflict_resolutions();
        if !contains_hotel(&acceptable, hotel) {
            proof {
                let (cr, cc) = choose|r: int, c: int|
                    #[trigger] old(self).board.merge_conflict_at(r, c);
                if old(self).board.acceptable_resolution_spec(cr, cc, hotel) {
                    assert(acceptable@.contains(hotel));
                }
            }
            return Err(AcquireError::InvalidMove(InvalidMoveReason::ChainNotAcceptable));
        }
        proof {
            let (cr, cc) = choose|r: int, c: int| #[trigger] old(self).board.merge_conflict_at(r, c);
            assert(old(self).board.conflict_only_at(cr, cc));
        }
        let message = self.players[player].name.clone().concat(" has chosen ").concat(
            hotel.name(),
        ).concat(" to survive the merger");
        self.message_callback.send_message(message.as_str());
        self.start_merge_phase(player, hotel);
        Ok(())
    }

    /// Handle the merge maker choosing which tied defunct chain to resolve
    /// next.  A chain not among the largest remaining defunct chains is
    /// rejected; otherwise it is paid out and goes under disposal.
    fn handle_defunct_chain_response(&mut self, hotel: Hotel, player: usize) -> (res: Result<
        (),
        AcquireError,
    >)
        requires
            old(self).players_ok(),
            old(self).stock_ok(),
            old(self).tiles_ok(),
            old(self).board_ok(),
            old(self).state_ok(),
            old(self).current_request == AcquireRequest::ChooseDefunctChainToResolve(player),
            old(self).current_state matches AcquireGameState::Merger(ms),
            forall|q: int| 0 <= q < old(self).players@.len() ==> (#[trigger] old(self).players@[q]).cash <= CASH_CAP,
        ensures
            final(self).players_ok(),
            final(self).stock_ok(),
            final(self).tiles_ok(),
            final(self).board_ok(),
            final(self).state_ok(),
            ({
                let ms = old(self).current_state->Merger_0;
                if ms.is_largest_defunct(old(self).board, hotel) {
                    &&& res matches Ok(_)
                    &&& Self::dispose_entry_rel(
                        old(self),
                        final(self),
                        ms.merge_maker as int,
                        ms.surviving_hotel,
                        hotel,
                    )
                } else {
                    &&& res == Err::<(), AcquireError>(
                        AcquireError::InvalidMove(InvalidMoveReason::ChainNotAcceptable),
                    )
                    &&& *final(self) == *old(self)
                }
            }),
    {
        let acceptable = match &self.current_state {
            AcquireGameState::Merger(merge_state) => merge_state.get_largest_defunct_chains(
                &self.board,
            ),
            _ => {
                proof {
                    assert(false);
                }
                Vec::new()
            },
        };
        if !contains_hotel(&acceptable, hotel) {
            return Err(AcquireError::InvalidMove(InvalidMoveReason::ChainNotAcceptable));
        }
        let message = self.players[player].name.clone().concat(" has chosen to resolve ").concat(
            hotel.name(),
        );
        self.message_callback.send_message(message.as_str());
        self.handle_defunct_hotel(hotel);
        Ok(())
    }
}

impl<T: AcquireGameCallback> AcquireGame<T> {
    /// Handle the buying player's choice: pass ends the turn at once; a buy
    /// moves one share and its price, and the turn ends after the third buy.
    fn handle_buy_stock_response(&mut self, choice: BuyStockChoice) -> (res: Result<
        (),
        AcquireError,
    >)
        requires
            old(self).players_ok(),
            old(self).stock_ok(),
            old(self).tiles_ok(),
            old(self).board_ok(),
            old(self).state_ok(),
            old(self).current_state matches AcquireGameState::BuyStock(bs) && old(self).current_request == AcquireRequest::BuyStock(bs.player),
            old(self).available_tiles@.len() > 0,
        ensures
            final(self).players_ok(),
            final(self).stock_ok(),
            final(self).tiles_ok(),
            final(self).board_ok(),
            final(self).state_ok(),
            ({
                let bs = old(self).current_state->BuyStock_0;
                let p = bs.player as int;
                let n = old(self).players@.len() as int;
                match choice {
                    BuyStockChoice::Pass => res matches Ok(_) && Self::turn_end_rel(
                        old(self),
                        final(self),
                        p,
                    ),
                    BuyStockChoice::Buy(hotel) => {
                        let h = crate::hotel_data::hotel_index_spec(hotel);
                        let price = crate::hotel_data::stock_value_spec(
                            hotel,
                            old(self).board.chain_size_spec(hotel),
                        );
                        if old(self).available_stock@[h] == 0 {
                            res == Err::<(), AcquireError>(
                                AcquireError::InvalidMove(InvalidMoveReason::NoStockAvailable),
                            ) && *final(self) == *old(self)
                        } else if price > old(self).players@[p].cash {
                            res == Err::<(), AcquireError>(
                                AcquireError::InvalidMove(InvalidMoveReason::NotEnoughCash),
                            ) && *final(self) == *old(self)
                        } else if !old(self).board.chain_active(hotel) {
                            res == Err::<(), AcquireError>(
                                AcquireError::InvalidMove(InvalidMoveReason::ChainNotActive),
                            ) && *final(self) == *old(self)
                        } else {
                            &&& res matches Ok(_)
                            &&& final(self).board == old(self).board
                            &&& final(self).players@.len() == n
                            &&& forall|q: int| 0 <= q < n && q != p ==> (#[trigger] final(self).players@[q]).stocks == old(self).players@[q].stocks && final(self).players@[q].cash == old(self).players@[q].cash
                            &&& forall|q: int| 0 <= q < n ==> (#[trigger] final(self).players@[q]).name == old(self).players@[q].name
                            &&& final(self).players@[p].cash == old(self).players@[p].cash - price
                            &&& final(self).players@[p].stocks@ == old(self).players@[p].stocks@.update(
                                h,
                                (old(self).players@[p].stocks@[h] + 1) as u32,
                            )
                            &&& final(self).available_stock@ == old(self).available_stock@.update(
                                h,
                                (old(self).available_stock@[h] - 1) as u32,
                            )
                            &&& if bs.buys_remaining > 1 {
                                &&& final(self).current_request == AcquireRequest::BuyStock(
                                    bs.player,
                                )
                                &&& final(self).current_state
                                    matches AcquireGameState::BuyStock(bs2) && bs2.player
                                    == bs.player && bs2.buys_remaining == bs.buys_remaining - 1
                                &&& final(self).available_tiles == old(self).available_tiles
                                &&& forall|q: int| 0 <= q < n ==> (#[trigger] final(self).players@[q]).tiles == old(self).players@[q].tiles
                            } else {
                                &&& final(self).current_request == AcquireRequest::PlayTile(
                                    ((p + 1) % n) as usize,
                                )
                                &&& final(self).available_tiles@.len() == old(self).available_tiles@.len() - 1
                                &&& forall|q: int|
                                    0 <= q < n && q != p ==> (#[trigger] final(self).players@[q]).tiles == old(self).players@[q].tiles
                                &&& final(self).players@[p].tiles@.len() == old(self).players@[p].tiles@.len() + 1
                            }
                        }
                    },
                }
            }),
    {
        let player = match &self.current_state {
            AcquireGameState::BuyStock(buy_stock_state) => buy_stock_state.player,
            _ => {
                proof {
                    assert(false);
                }
                0
            },
        };

        match choice {
            BuyStockChoice::Pass => {
                let message = self.players[player].name.clone().concat(
                    " has chosen to pass on buying stock",
                );
                self.message_callback.send_message(message.as_str());
                self.end_turn(player);
                Ok(())
            },
            BuyStockChoice::Buy(hotel) => {
                let h = hotel.index();
                if self.available_stock[h] == 0 {
                    return Err(AcquireError::InvalidMove(InvalidMoveReason::NoStockAvailable));
                }
                let stock_value = hotel.get_stock_value(self.board.get_hotel_chain_size(hotel));
                if stock_value > self.players[player].cash {
                    return Err(AcquireError::InvalidMove(InvalidMoveReason::NotEnoughCash));
                }
                let active_hotels = self.board.get_active_hotels();
                if !contains_hotel(&active_hotels, hotel) {
                    return Err(AcquireError::InvalidMove(InvalidMoveReason::ChainNotActive));
                }

                let message = self.players[player].name.clone().concat(
                    " has chosen to buy stock in ",
                ).concat(hotel.name());
                self.message_callback.send_message(message.as_str());

                let end_phase = match &mut self.current_state {
                    AcquireGameState::BuyStock(buy_stock_state) => buy_stock_state.player_has_bought_stock(),
                    _ => {
                        proof {
                            assert(false);
                        }
                        false
                    },
                };
                self.deduct_cash(player, stock_value);
                let ghost mid = *self;
                self.give_player_stock(hotel, player, 1);
                proof {
                    assert forall|p1: int, k1: int|
                        0 <= p1 < self.players@.len() && 0 <= k1
                            < self.players@[p1].tiles@.len() implies tile_on_empty_cell(
                        self.board,
                        #[trigger] self.players@[p1].tiles@[k1],
                    ) && !self.available_tiles@.contains(self.players@[p1].tiles@[k1]) by {
                        assert(self.players@[p1].tiles@[k1] == mid.players@[p1].tiles@[k1]);
                        assert(tile_on_empty_cell(mid.board, mid.players@[p1].tiles@[k1]));
                    }
                    assert forall|p1: int, k1: int, p2: int, k2: int|
                        0 <= p1 < self.players@.len() && 0 <= k1 < self.players@[p1].tiles@.len()
                            && 0 <= p2 < self.players@.len() && 0 <= k2
                            < self.players@[p2].tiles@.len() && !(p1 == p2 && k1 == k2) implies
                        #[trigger] self.players@[p1].tiles@[k1]
                            != #[trigger] self.players@[p2].tiles@[k2] by {
                        assert(self.players@[p1].tiles@[k1] == mid.players@[p1].tiles@[k1]);
                        assert(self.players@[p2].tiles@[k2] == mid.players@[p2].tiles@[k2]);
                    }
                }
                if end_phase {
                    self.end_turn(player);
                }
                Ok(())
            },
        }
    }

    /// Take `amount` out of `player`'s cash.
    fn deduct_cash(&mut self, player: usize, amount: u32)
        requires
            old(self).players_ok(),
            old(self).stock_ok(),
            old(self).tiles_ok(),
            player < old(self).players@.len(),
            amount <= old(self).players@[player as int].cash,
        ensures
            final(self).players_ok(),
            final(self).stock_ok(),
            final(self).tiles_ok(),
            final(self).board == old(self).board,
            final(self).available_tiles == old(self).available_tiles,
            final(self).available_stock == old(self).available_stock,
            final(self).current_request == old(self).current_request,
            final(self).current_state == old(self).current_state,
            final(self).message_callback == old(self).message_callback,
            final(self).players@.len() == old(self).players@.len(),
            forall|k: int|
                0 <= k < old(self).players@.len() && k != player ==> #[trigger] final(self).players@[k] == old(self).players@[k],
            final(self).players@[player as int].name == old(self).players@[player as int].name,
            final(self).players@[player as int].stocks == old(self).players@[player as int].stocks,
            final(self).players@[player as int].tiles == old(self).players@[player as int].tiles,
            final(self).players@[player as int].cash == old(self).players@[player as int].cash
                - amount,
    {
        let ghost pre = self.players@;
        self.players[player].cash = self.players[player].cash - amount;
        proof {
            assert forall|h2: int| 0 <= h2 < 7 implies #[trigger] self.available_stock@[h2]
                + total_stock(self.players@, h2, self.players@.len() as int) == 25 by {
                lemma_total_stock_single_update(
                    pre,
                    self.players@,
                    player as int,
                    h2,
                    pre.len() as int,
                );
            }
            assert forall|p1: int, k1: int|
                0 <= p1 < self.players@.len() && 0 <= k1
                    < self.players@[p1].tiles@.len() implies tile_on_empty_cell(
                self.board,
                #[trigger] self.players@[p1].tiles@[k1],
            ) && !self.available_tiles@.contains(self.players@[p1].tiles@[k1]) by {
                assert(self.players@[p1].tiles@[k1] == old(self).players@[p1].tiles@[k1]);
            }
            assert forall|p1: int, k1: int, p2: int, k2: int|
                0 <= p1 < self.players@.len() && 0 <= k1 < self.players@[p1].tiles@.len() && 0
                    <= p2 < self.players@.len() && 0 <= k2 < self.players@[p2].tiles@.len() && !(
                p1 == p2 && k1 == k2) implies #[trigger] self.players@[p1].tiles@[k1]
                != #[trigger] self.players@[p2].tiles@[k2] by {
                assert(self.players@[p1].tiles@[k1] == old(self).players@[p1].tiles@[k1]);
                assert(self.players@[p2].tiles@[k2] == old(self).players@[p2].tiles@[k2]);
            }
        }
    }

    /// Handle an end-game response.  Ending the game is not implemented:
    /// nothing changes.
    fn handle_end_game_response(&self, quit: bool, player: usize) {
    }

    /// The chains a player may choose from under the current request:
    /// inactive chains for founding, the largest adjacent chains for a
    /// merger survivor, the largest remaining defunct chains for the
    /// resolution order, and nothing for any other request.
    pub fn get_acceptable_hotels_for_response(&self) -> (acceptable: Vec<Hotel>)
        requires
            self.players_ok(),
            self.board_ok(),
            self.state_ok(),
        ensures
            acceptable@.no_duplicates(),
            match self.current_request {
                AcquireRequest::ChooseNewChain(_) => acceptable@ == self.board.inactive_hotels_seq()
                    && (forall|h: Hotel| acceptable@.contains(h) <==> !self.board.chain_active(
                    h,
                )),
                AcquireRequest::ChooseMergerSurvivor(_) => forall|r: int, c: int|
                    #[trigger] self.board.conflict_only_at(r, c) ==> (forall|h: Hotel|
                        acceptable@.contains(h) <==> self.board.acceptable_resolution_spec(
                            r,
                            c,
                            h,
                        )) && acceptable@ == self.board.acceptable_seq(r, c),
                AcquireRequest::ChooseDefunctChainToResolve(_) => (self.current_state
                    matches AcquireGameState::Merger(ms) ==> (forall|h: Hotel|
                    acceptable@.contains(h) <==> ms.is_largest_defunct(self.board, h))
                    && acceptable@ == ms.largest_defunct_seq(self.board)),
                _ => acceptable@.len() == 0,
            },
    {
        match self.current_request {
            AcquireRequest::ChooseNewChain(_) => self.board.get_inactive_hotels(),
            AcquireRequest::ChooseMergerSurvivor(_) => self.board.acceptable_conflict_resolutions(),
            AcquireRequest::ChooseDefunctChainToResolve(_) => {
                match &self.current_state {
                    AcquireGameState::Merger(merge_state) => merge_state.get_largest_defunct_chains(
                        &self.board,
                    ),
                    _ => {
                        proof {
                            assert(false);
                        }
                        Vec::new()
                    },
                }
            },
            _ => Vec::new(),
        }
    }
}

impl<T: AcquireGameCallback> AcquireGame<T> {
    /// Answer a starting-tile request for `player`: draw one random tile,
    /// place it, and advance the race.
    fn handle_starting_tile_request(&mut self, player: usize)
        requires
            old(self).players_ok(),
            old(self).stock_ok(),
            old(self).tiles_ok(),
            old(self).board_ok(),
            old(self).state_ok(),
            old(self).current_request == AcquireRequest::PlayStartingTile(player),
            old(self).available_tiles@.len() > 0,
            (old(self).current_state matches AcquireGameState::GameStart(gs)
                && gs.remaining_number_of_players == 1) ==> old(self).available_tiles@.len() > 6
                * old(self).players@.len(),
        ensures
            final(self).players_ok(),
            final(self).stock_ok(),
            final(self).tiles_ok(),
            final(self).board_ok(),
            final(self).state_ok(),
            final(self).available_tiles@.len() < old(self).available_tiles@.len(),
            final(self).available_stock == old(self).available_stock,
            final(self).message_callback == old(self).message_callback,
            final(self).players@.len() == old(self).players@.len(),
            forall|q: int| 0 <= q < old(self).players@.len() ==> {
                &&& (#[trigger] final(self).players@[q]).cash == old(self).players@[q].cash
                &&& final(self).players@[q].stocks == old(self).players@[q].stocks
            },
    {
        let tile = self.take_random_tile();
        proof {
            // the drawn tile leaves the pool; the rest of the tile
            // bookkeeping is untouched by the draw
            let k0 = choose|k0: int|
                0 <= k0 < old(self).available_tiles@.len() && old(self).available_tiles@[k0]
                    == tile;
            assert(tile_on_empty_cell(self.board, tile));
            assert forall|k: int|
                0 <= k < self.available_tiles@.len() implies tile_on_empty_cell(
                self.board,
                #[trigger] self.available_tiles@[k],
            ) by {
                assert(self.available_tiles@.contains(self.available_tiles@[k]));
                assert(old(self).available_tiles@.contains(self.available_tiles@[k]));
            }
            assert forall|p1: int, k1: int|
                0 <= p1 < self.players@.len() && 0 <= k1 < self.players@[p1].tiles@.len() implies {
                &&& tile_on_empty_cell(self.board, #[trigger] self.players@[p1].tiles@[k1])
                &&& !self.available_tiles@.contains(self.players@[p1].tiles@[k1])
                &&& self.players@[p1].tiles@[k1] != tile
            } by {
                assert(!old(self).available_tiles@.contains(old(self).players@[p1].tiles@[k1]));
                if self.available_tiles@.contains(self.players@[p1].tiles@[k1]) {
                    assert(old(self).available_tiles@.contains(self.players@[p1].tiles@[k1]));
                }
            }
        }
        self.handle_starting_tile_response(tile, player);
    }

    /// Validate and apply one player response against the outstanding
    /// request.
    ///
    /// A response whose shape does not fit the request is rejected as a
    /// protocol mismatch; a value-level rule violation is rejected as an
    /// invalid move; in both cases nothing is mutated and the same request
    /// stays outstanding.  An accepted response mutates board, players and
    /// bank and advances the phase and request per the turn state machine.
    #[verifier::rlimit(100)]
    pub fn handle_player_response(&mut self, response: AcquireResponse) -> (res: Result<
        (),
        AcquireError,
    >)
        requires
            old(self).wf(),
            old(self).available_tiles@.len() > 0,
            forall|q: int| 0 <= q < old(self).players@.len() ==> (#[trigger] old(self).players@[q]).cash <= CASH_CAP,
            (old(self).current_state matches AcquireGameState::GameStart(gs)
                && gs.remaining_number_of_players == 1) ==> old(self).available_tiles@.len() > 6
                * old(self).players@.len(),
            match (old(self).current_request, response) {
                (AcquireRequest::PlayTile(p), AcquireResponse::Tile(t)) => old(self).players@[p as int].tiles@.contains(t),
                _ => true,
            },
            response matches AcquireResponse::DisposeStock(p, choice) ==> p < old(self).players@.len(),
        ensures
            final(self).wf(),
            res == Err::<(), AcquireError>(AcquireError::ProtocolMismatch)
                <==> !response_matches_request(old(self).current_request, response),
            res matches Err(_) ==> *final(self) == *old(self),
            response_matches_request(old(self).current_request, response) ==> match (old(self).current_request, response) {
                (AcquireRequest::PlayStartingTile(_), AcquireResponse::StartingTile) => {
                    &&& res matches Ok(_)
                    &&& final(self).available_tiles@.len() < old(self).available_tiles@.len()
                    &&& final(self).available_stock == old(self).available_stock
                    &&& forall|q: int| 0 <= q < old(self).players@.len() ==> {
                        &&& (#[trigger] final(self).players@[q]).cash == old(self).players@[q].cash
                        &&& final(self).players@[q].stocks == old(self).players@[q].stocks
                    }
                },
                (AcquireRequest::PlayTile(p), AcquireResponse::Tile(t)) => match old(self).board.playable_err(t.row as int, t.col as int) {
                    Some(e) => res == Err::<(), AcquireError>(
                        AcquireError::InvalidMove(InvalidMoveReason::NotPlayable(e)),
                    ),
                    None => {
                        &&& res matches Ok(_)
                        &&& final(self).board.cell(t.row as int, t.col as int) != Cell::Empty
                        &&& forall|q: int| 0 <= q < old(self).players@.len() ==> (
                        #[trigger] final(self).players@[q]).stocks == old(self).players@[q].stocks
                        &&& final(self).available_stock == old(self).available_stock
                        &&& !final(self).players@[p as int].tiles@.contains(t)
                    },
                },
                (AcquireRequest::ChooseNewChain(p), AcquireResponse::NewChain(h)) => if old(self).board.chain_active(h) {
                    res == Err::<(), AcquireError>(
                        AcquireError::InvalidMove(InvalidMoveReason::ChainAlreadyActive),
                    )
                } else {
                    res matches Ok(_) && Self::new_chain_ok_post(
                        old(self),
                        final(self),
                        h,
                        p as int,
                    )
                },
                (AcquireRequest::ChooseMergerSurvivor(p), AcquireResponse::MergerSurvivor(h)) => if forall|r: int, c: int|
                    #[trigger] old(self).board.merge_conflict_at(r, c) ==> old(self).board.acceptable_resolution_spec(r, c, h) {
                    res matches Ok(_) && Self::merger_advance_rel(
                        old(self),
                        final(self),
                        p as int,
                        h,
                    )
                } else {
                    res == Err::<(), AcquireError>(
                        AcquireError::InvalidMove(InvalidMoveReason::ChainNotAcceptable),
                    )
                },
                (
                    AcquireRequest::ChooseDefunctChainToResolve(p),
                    AcquireResponse::DefunctChainToResolve(h),
                ) => ({
                    let ms = old(self).current_state->Merger_0;
                    if ms.is_largest_defunct(old(self).board, h) {
                        res matches Ok(_) && Self::dispose_entry_rel(
                            old(self),
                            final(self),
                            ms.merge_maker as int,
                            ms.surviving_hotel,
                            h,
                        )
                    } else {
                        res == Err::<(), AcquireError>(
                            AcquireError::InvalidMove(InvalidMoveReason::ChainNotAcceptable),
                        )
                    }
                }),
                (AcquireRequest::DisposeStock, AcquireResponse::DisposeStock(p, choice)) => match old(self).dispose_error_spec(choice, p as int) {
                    Some(e) => res == Err::<(), AcquireError>(AcquireError::InvalidMove(e)),
                    None => res matches Ok(_) && Self::dispose_ok_post(
                        old(self),
                        final(self),
                        choice,
                        p as int,
                        res,
                    ),
                },
                (AcquireRequest::BuyStock(p), AcquireResponse::BuyStock(choice)) => match choice {
                    BuyStockChoice::Pass => res matches Ok(_) && Self::turn_end_rel(
                        old(self),
                        final(self),
                        p as int,
                    ),
                    BuyStockChoice::Buy(h) => ({
                        let hi = crate::hotel_data::hotel_index_spec(h);
                        let price = crate::hotel_data::stock_value_spec(
                            h,
                            old(self).board.chain_size_spec(h),
                        );
                        if old(self).available_stock@[hi] == 0 {
                            res == Err::<(), AcquireError>(
                                AcquireError::InvalidMove(InvalidMoveReason::NoStockAvailable),
                            )
                        } else if price > old(self).players@[p as int].cash {
                            res == Err::<(), AcquireError>(
                                AcquireError::InvalidMove(InvalidMoveReason::NotEnoughCash),
                            )
                        } else if !old(self).board.chain_active(h) {
                            res == Err::<(), AcquireError>(
                                AcquireError::InvalidMove(InvalidMoveReason::ChainNotActive),
                            )
                        } else {
                            &&& res matches Ok(_)
                            &&& final(self).players@[p as int].cash == old(self).players@[p as int].cash - price
                            &&& final(self).players@[p as int].stocks@ == old(self).players@[p as int].stocks@.update(
                                hi,
                                (old(self).players@[p as int].stocks@[hi] + 1) as u32,
                            )
                            &&& final(self).available_stock@ == old(self).available_stock@.update(
                                hi,
                                (old(self).available_stock@[hi] - 1) as u32,
                            )
                        }
                    }),
                },
                (AcquireRequest::EndGame(_), AcquireResponse::EndGame(_)) => res matches Ok(_)
                    && *final(self) == *old(self),
                _ => true,
            },
    {
        match self.current_request {
            AcquireRequest::PlayStartingTile(player) => {
                if let AcquireResponse::StartingTile = response {
                    self.handle_starting_tile_request(player);
                    Ok(())
                } else {
                    Err(AcquireError::ProtocolMismatch)
                }
            },
            AcquireRequest::PlayTile(player) => {
                if let AcquireResponse::Tile(tile) = response {
                    let res = self.handle_tile_response(tile, player);
                    proof {
                        let r = tile.row as int;
                        let c = tile.col as int;
                        if old(self).board.playable_err(r, c) is None && !old(self).board.would_start_new_chain_spec(r, c) && old(self).board.adjacent_count(
                            r,
                            c,
                        ) == 1 {
                            lemma_adjacent_count_two_witnesses(old(self).board, r, c, 7);
                            let h = choose|h: Hotel|
                                crate::hotel_data::hotel_index_spec(h) < 7
                                    && #[trigger] old(self).board.adjacent_spec(r, c, h);
                            assert(GameBoard::grow_result(
                                old(self).board,
                                self.board,
                                r,
                                c,
                                h,
                            ));
                        }
                    }
                    res
                } else {
                    Err(AcquireError::ProtocolMismatch)
                }
            },
            AcquireRequest::ChooseNewChain(player) => {
                if let AcquireResponse::NewChain(hotel) = response {
                    self.handle_new_chain_response(hotel, player)
                } else {
                    Err(AcquireError::ProtocolMismatch)
                }
            },
            AcquireRequest::ChooseMergerSurvivor(player) => {
                if let AcquireResponse::MergerSurvivor(hotel) = response {
                    self.handle_merger_survivor_response(hotel, player)
                } else {
                    Err(AcquireError::ProtocolMismatch)
                }
            },
            AcquireRequest::ChooseDefunctChainToResolve(player) => {
                if let AcquireResponse::DefunctChainToResolve(hotel) = response {
                    self.handle_defunct_chain_response(hotel, player)
                } else {
                    Err(AcquireError::ProtocolMismatch)
                }
            },
            AcquireRequest::DisposeStock => {
                if let AcquireResponse::DisposeStock(player, choice) = response {
                    self.handle_dispose_stock_response(choice, player)
                } else {
                    Err(AcquireError::ProtocolMismatch)
                }
            },
            AcquireRequest::BuyStock(_) => {
                if let AcquireResponse::BuyStock(choice) = response {
                    self.handle_buy_stock_response(choice)
                } else {
                    Err(AcquireError::ProtocolMismatch)
                }
            },
            AcquireRequest::EndGame(player) => {
                if let AcquireResponse::EndGame(quit) = response {
                    self.handle_end_game_response(quit, player);
                    Ok(())
                } else {
                    Err(AcquireError::ProtocolMismatch)
                }
            },
        }
    }
}

/// Whether a response's shape fits the outstanding request.
pub open spec fn response_matches_request(req: AcquireRequest, resp: AcquireResponse) -> bool {
    match req {
        AcquireRequest::PlayStartingTile(_) => resp is StartingTile,
        AcquireRequest::PlayTile(_) => resp is Tile,
        AcquireRequest::ChooseNewChain(_) => resp is NewChain,
        AcquireRequest::ChooseMergerSurvivor(_) => resp is MergerSurvivor,
        AcquireRequest::ChooseDefunctChainToResolve(_) => resp is DefunctChainToResolve,
        AcquireRequest::DisposeStock => resp is DisposeStock,
        AcquireRequest::BuyStock(_) => resp is BuyStock,
        AcquireRequest::EndGame(_) => resp is EndGame,
    }
}

/// The position of `tile` in a hand that holds it.
fn find_tile_index(hand: &Vec<Tile>, tile: Tile) -> (idx: usize)
    requires
        hand@.contains(tile),
    ensures
        idx < hand@.len(),
        hand@[idx as int] == tile,
{
    let mut i: usize = 0;
    while i < hand.len()
        invariant
            i <= hand@.len(),
            forall|k: int| 0 <= k < i ==> hand@[k] != tile,
        decreases hand@.len() - i,
    {
        if hand[i] == tile {
            return i;
        }
        i = i + 1;
    }
    proof {
        let k = choose|k: int| 0 <= k < hand@.len() && hand@[k] == tile;
        assert(false);
    }
    0
}

/// A chain adjacent to (`r`, `c`) makes its adjacency count positive.
proof fn lemma_adjacent_count_at_least_one(b: GameBoard, r: int, c: int, h: Hotel)
    requires
        b.adjacent_spec(r, c, h),
    ensures
        b.adjacent_count(r, c) >= 1,
{
    let i = crate::hotel_data::hotel_index_spec(h);
    assert(crate::hotel_data::hotel_from_index_spec(i) == h);
    assert(b.adjacent_count_upto(r, c, i + 1) >= 1) by {
        crate::game_board::lemma_adjacent_count_upto_pos(b, r, c, i);
        assert(b.adjacent_count_upto(r, c, i + 1) == b.adjacent_count_upto(r, c, i) + 1);
    }
    lemma_adjacent_count_upto_monotone(b, r, c, i + 1, 7);
}

/// Adjacency prefix counts never decrease as the prefix grows.
proof fn lemma_adjacent_count_upto_monotone(b: GameBoard, r: int, c: int, m: int, n: int)
    requires
        0 <= m <= n,
    ensures
        b.adjacent_count_upto(r, c, m) <= b.adjacent_count_upto(r, c, n),
    decreases n - m,
{
    if m < n {
        lemma_adjacent_count_upto_monotone(b, r, c, m, n - 1);
    }
}

/// Two boards with the same neighbourhood of (`r`, `c`) agree on its
/// adjacency counts.
proof fn lemma_adjacent_count_congruent(b1: GameBoard, b2: GameBoard, r: int, c: int, n: int)
    requires
        n >= 0,
        forall|h: Hotel| b2.adjacent_spec(r, c, h) == b1.adjacent_spec(r, c, h),
    ensures
        b2.adjacent_count_upto(r, c, n) == b1.adjacent_count_upto(r, c, n),
    decreases n,
{
    if n > 0 {
        lemma_adjacent_count_congruent(b1, b2, r, c, n - 1);
    }
}

/// The payout rule depends only on the holding counters: players with equal
/// stocks get equal payouts whatever their cash, names or hands.
proof fn lemma_payout_same_stocks(
    p1: Seq<Player>,
    p2: Seq<Player>,
    defunct: Hotel,
    size: int,
    q: int,
)
    requires
        p1.len() == p2.len(),
        0 <= q < p1.len(),
        forall|k: int| 0 <= k < p1.len() ==> (#[trigger] p2[k]).stocks == p1[k].stocks,
    ensures
        defunct_payout(p2, defunct, size, q) == defunct_payout(p1, defunct, size, q),
{
    let h = crate::hotel_data::hotel_index_spec(defunct);
    let n = p1.len() as int;
    lemma_max_holding_same_stocks(p1, p2, h, n);
    lemma_max_holding_below_same_stocks(p1, p2, h, n, max_holding(p1, h, n));
    lemma_counts_same_stocks(p1, p2, h, n);
}

/// The highest holding depends only on the holding counters.
proof fn lemma_max_holding_same_stocks(p1: Seq<Player>, p2: Seq<Player>, h: int, n: int)
    requires
        p1.len() == p2.len(),
        n <= p1.len(),
        forall|k: int| 0 <= k < p1.len() ==> (#[trigger] p2[k]).stocks == p1[k].stocks,
    ensures
        max_holding(p2, h, n) == max_holding(p1, h, n),
    decreases n,
{
    if n > 0 {
        lemma_max_holding_same_stocks(p1, p2, h, n - 1);
    }
}

/// The capped highest holding depends only on the holding counters.
proof fn lemma_max_holding_below_same_stocks(
    p1: Seq<Player>,
    p2: Seq<Player>,
    h: int,
    n: int,
    cap: int,
)
    requires
        p1.len() == p2.len(),
        n <= p1.len(),
        forall|k: int| 0 <= k < p1.len() ==> (#[trigger] p2[k]).stocks == p1[k].stocks,
    ensures
        max_holding_below(p2, h, n, cap) == max_holding_below(p1, h, n, cap),
    decreases n,
{
    if n > 0 {
        lemma_max_holding_below_same_stocks(p1, p2, h, n - 1, cap);
    }
}

/// The majority and minority counts depend only on the holding counters.
proof fn lemma_counts_same_stocks(p1: Seq<Player>, p2: Seq<Player>, h: int, n: int)
    requires
        p1.len() == p2.len(),
        n <= p1.len(),
        forall|k: int| 0 <= k < p1.len() ==> (#[trigger] p2[k]).stocks == p1[k].stocks,
    ensures
        majority_count(p2, h, n) == majority_count(p1, h, n),
        minority_count(p2, h, n) == minority_count(p1, h, n),
    decreases n,
{
    lemma_max_holding_same_stocks(p1, p2, h, p1.len() as int);
    lemma_max_holding_below_same_stocks(
        p1,
        p2,
        h,
        p1.len() as int,
        max_holding(p1, h, p1.len() as int),
    );
    if n > 0 {
        lemma_counts_same_stocks(p1, p2, h, n - 1);
    }
}

/// Chain totals depend only on the holding counters.
proof fn lemma_total_stock_same_stocks(p1: Seq<Player>, p2: Seq<Player>, h: int, n: int)
    requires
        p1.len() == p2.len(),
        n <= p1.len(),
        forall|k: int| 0 <= k < p1.len() ==> (#[trigger] p2[k]).stocks == p1[k].stocks,
    ensures
        total_stock(p2, h, n) == total_stock(p1, h, n),
    decreases n,
{
    if n > 0 {
        lemma_total_stock_same_stocks(p1, p2, h, n - 1);
    }
}

/// A positive cap keeps the capped maximum strictly below it.
proof fn lemma_max_holding_below_lt_cap(players: Seq<Player>, h: int, n: int, cap: int)
    requires
        cap > 0,
    ensures
        0 <= max_holding_below(players, h, n, cap) < cap,
    decreases n,
{
    if n > 0 {
        lemma_max_holding_below_lt_cap(players, h, n - 1, cap);
    }
}

/// Raising the cap above the running maximum makes the capped maximum the
/// plain maximum.
proof fn lemma_max_holding_below_high_cap(players: Seq<Player>, h: int, n: int, cap: int)
    requires
        cap > max_holding(players, h, n),
    ensures
        max_holding_below(players, h, n, cap) == max_holding(players, h, n),
    decreases n,
{
    if n > 0 {
        lemma_max_holding_below_high_cap(players, h, n - 1, cap);
    }
}

} // verus!
