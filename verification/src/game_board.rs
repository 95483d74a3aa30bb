//! The 9x12 board: cell states, placement legality, adjacency, chain sizes,
//! conflict detection and flood-fill chain assignment.

use vstd::prelude::*;
use vstd::string::StringExecFns;
use crate::hotel_data::{Hotel, hotel_from_index_spec, hotel_index_spec};

verus! {

broadcast use vstd::seq_lib::lemma_seq_contains_after_push;

pub const BOARD_ROWS: usize = 9;

pub const BOARD_COLS: usize = 12;

/// A chain of this many cells is safe: it can no longer be merged away.
pub const SAFE_CHAIN_SIZE: usize = 11;

/// Why a freshly placed cell has no chain assignment yet.
#[derive(Debug, PartialEq, Eq, Clone, Copy, Structural)]
pub enum CellConflictType {
    /// The cell touches independent cells but no chain: a new chain must be
    /// chosen.
    NewChain,
    /// The cell touches this many chains beyond the survivor: a merger must
    /// be resolved.
    Merge(usize),
}

/// The state of one board cell.
#[derive(Debug, PartialEq, Eq, Clone, Copy, Structural)]
pub enum Cell {
    Empty,
    /// Placed, but not part of any chain yet.
    Independent,
    /// Placed, with its chain assignment pending a player choice.
    Conflict(CellConflictType),
    /// Part of the given chain.
    Hotel(Hotel),
}

/// Why a cell cannot legally receive a tile.
#[derive(Debug, PartialEq, Eq, Clone, Copy, Structural)]
pub enum CellNotPlayableReason {
    ConflictOnBoard,
    HotelsAreAllActive,
    AdjacentHotelsAreSafe,
    CellIsNotEmpty,
    CellIsOffBoard,
}

impl CellNotPlayableReason {
    /// A human-readable rendering of the reason.
    pub fn as_display_message(&self) -> (s: String)
        ensures
            s@ == match *self {
                CellNotPlayableReason::ConflictOnBoard => "There is a conflict on the board"@,
                CellNotPlayableReason::HotelsAreAllActive => "All hotels are currently active, cannot start a new chain"@,
                CellNotPlayableReason::AdjacentHotelsAreSafe => "Adjacent hotels are safe and cannot be merged"@,
                CellNotPlayableReason::CellIsNotEmpty => "The cell is not empty"@,
                CellNotPlayableReason::CellIsOffBoard => "The cell is off the board"@,
            },
    {
        match self {
            CellNotPlayableReason::ConflictOnBoard => "There is a conflict on the board".to_owned(),
            CellNotPlayableReason::HotelsAreAllActive => "All hotels are currently active, cannot start a new chain".to_owned(),
            CellNotPlayableReason::AdjacentHotelsAreSafe => "Adjacent hotels are safe and cannot be merged".to_owned(),
            CellNotPlayableReason::CellIsNotEmpty => "The cell is not empty".to_owned(),
            CellNotPlayableReason::CellIsOffBoard => "The cell is off the board".to_owned(),
        }
    }
}

/// What placing a tile did.
#[derive(Debug, PartialEq, Eq, Clone, Copy, Structural)]
pub enum PlaceTileResult {
    Success,
    CellNotPlayable(CellNotPlayableReason),
    ConflictCreated(CellConflictType),
}

/// The 9x12 grid of cell states.
pub struct GameBoard {
    pub cells: Vec<Vec<Cell>>,
}

impl GameBoard {
    /// Whether the grid has its full 9x12 shape.
    pub open spec fn wf(self) -> bool {
        &&& self.cells@.len() == 9
        &&& forall|r: int| 0 <= r < 9 ==> (#[trigger] self.cells@[r])@.len() == 12
    }

    /// The cell at in-bounds position (`r`, `c`).
    pub open spec fn cell(self, r: int, c: int) -> Cell {
        self.cells@[r]@[c]
    }

    /// The cell at (`r`, `c`), reading any off-board position as `Empty`.
    pub open spec fn cell_or_empty(self, r: int, c: int) -> Cell {
        if 0 <= r < 9 && 0 <= c < 12 {
            self.cell(r, c)
        } else {
            Cell::Empty
        }
    }

    /// Whether chain `h` occupies a cell orthogonally adjacent to (`r`, `c`).
    pub open spec fn adjacent_spec(self, r: int, c: int, h: Hotel) -> bool {
        ||| self.cell_or_empty(r, c + 1) == Cell::Hotel(h)
        ||| self.cell_or_empty(r, c - 1) == Cell::Hotel(h)
        ||| self.cell_or_empty(r + 1, c) == Cell::Hotel(h)
        ||| self.cell_or_empty(r - 1, c) == Cell::Hotel(h)
    }

    /// Whether an `Independent` cell lies orthogonally adjacent to (`r`, `c`).
    pub open spec fn next_to_independent_spec(self, r: int, c: int) -> bool {
        ||| self.cell_or_empty(r, c + 1) == Cell::Independent
        ||| self.cell_or_empty(r, c - 1) == Cell::Independent
        ||| self.cell_or_empty(r + 1, c) == Cell::Independent
        ||| self.cell_or_empty(r - 1, c) == Cell::Independent
    }

    /// How many of the chains enumerated before index `n` are adjacent to
    /// (`r`, `c`).
    pub open spec fn adjacent_count_upto(self, r: int, c: int, n: int) -> int
        decreases n,
    {
        if n <= 0 {
            0
        } else {
            self.adjacent_count_upto(r, c, n - 1)
                + if self.adjacent_spec(r, c, hotel_from_index_spec(n - 1)) {
                1int
            } else {
                0
            }
        }
    }

    /// How many distinct chains are adjacent to (`r`, `c`).
    pub open spec fn adjacent_count(self, r: int, c: int) -> int {
        self.adjacent_count_upto(r, c, 7)
    }

    /// Whether chain `h` occupies at least one board cell.
    pub open spec fn chain_active(self, h: Hotel) -> bool {
        exists|r: int, c: int|
            0 <= r < 9 && 0 <= c < 12 && self.cell(r, c) == Cell::Hotel(h)
    }

    /// The active chains among the first `n` of the enumeration, in
    /// enumeration order.
    pub open spec fn active_hotels_seq_upto(self, n: int) -> Seq<Hotel>
        decreases n,
    {
        if n <= 0 {
            Seq::empty()
        } else {
            let rest = self.active_hotels_seq_upto(n - 1);
            if self.chain_active(hotel_from_index_spec(n - 1)) {
                rest.push(hotel_from_index_spec(n - 1))
            } else {
                rest
            }
        }
    }

    /// The active chains, in enumeration order: the exact result of
    /// `get_active_hotels`, a function of the board alone.
    pub open spec fn active_hotels_seq(self) -> Seq<Hotel> {
        self.active_hotels_seq_upto(7)
    }

    /// The inactive chains among the first `n` of the enumeration, in
    /// enumeration order.
    pub open spec fn inactive_hotels_seq_upto(self, n: int) -> Seq<Hotel>
        decreases n,
    {
        if n <= 0 {
            Seq::empty()
        } else {
            let rest = self.inactive_hotels_seq_upto(n - 1);
            if !self.chain_active(hotel_from_index_spec(n - 1)) {
                rest.push(hotel_from_index_spec(n - 1))
            } else {
                rest
            }
        }
    }

    /// The inactive chains, in enumeration order: the exact result of
    /// `get_inactive_hotels`, a function of the board alone.
    pub open spec fn inactive_hotels_seq(self) -> Seq<Hotel> {
        self.inactive_hotels_seq_upto(7)
    }

    /// The chains adjacent to (`r`, `c`) among the first `n` of the
    /// enumeration, in enumeration order.
    pub open spec fn adjacent_hotels_seq_upto(self, r: int, c: int, n: int) -> Seq<Hotel>
        decreases n,
    {
        if n <= 0 {
            Seq::empty()
        } else {
            let rest = self.adjacent_hotels_seq_upto(r, c, n - 1);
            if self.adjacent_spec(r, c, hotel_from_index_spec(n - 1)) {
                rest.push(hotel_from_index_spec(n - 1))
            } else {
                rest
            }
        }
    }

    /// The chains adjacent to (`r`, `c`), in enumeration order: the exact
    /// result of `get_adjacent_hotels`, a function of the board alone.
    pub open spec fn adjacent_hotels_seq(self, r: int, c: int) -> Seq<Hotel> {
        self.adjacent_hotels_seq_upto(r, c, 7)
    }

    /// How many of the chains enumerated before index `n` are active.
    pub open spec fn active_count_upto(self, n: int) -> int
        decreases n,
    {
        if n <= 0 {
            0
        } else {
            self.active_count_upto(n - 1) + if self.chain_active(hotel_from_index_spec(n - 1)) {
                1int
            } else {
                0
            }
        }
    }

    /// How many cells of the first `n` entries of row `s` belong to chain `h`.
    pub open spec fn row_count(s: Seq<Cell>, h: Hotel, n: int) -> int
        decreases n,
    {
        if n <= 0 {
            0
        } else {
            Self::row_count(s, h, n - 1) + if s[n - 1] == Cell::Hotel(h) {
                1int
            } else {
                0
            }
        }
    }

    /// How many cells of the first `rows` full rows belong to chain `h`.
    pub open spec fn board_count(self, h: Hotel, rows: int) -> int
        decreases rows,
    {
        if rows <= 0 {
            0
        } else {
            self.board_count(h, rows - 1) + Self::row_count(self.cells@[rows - 1]@, h, 12)
        }
    }

    /// The size of chain `h`: how many board cells it occupies.
    pub open spec fn chain_size_spec(self, h: Hotel) -> int {
        self.board_count(h, 9)
    }

    /// Whether some board cell is in `Conflict` state.
    pub open spec fn has_conflict(self) -> bool {
        exists|r: int, c: int|
            0 <= r < 9 && 0 <= c < 12 && ((#[trigger] self.cell(r, c)) matches Cell::Conflict(_))
    }

    /// Whether (`r`, `c`) holds the only `Conflict` cell of the board.
    pub open spec fn conflict_only_at(self, r: int, c: int) -> bool {
        &&& 0 <= r < 9 && 0 <= c < 12
        &&& self.cell(r, c) matches Cell::Conflict(_)
        &&& forall|r2: int, c2: int|
            0 <= r2 < 9 && 0 <= c2 < 12 && (#[trigger] self.cell(r2, c2) matches Cell::Conflict(
                _,
            )) ==> r2 == r && c2 == c
    }

    /// Whether (`r`, `c`) holds the board's only conflict cell and that
    /// conflict is a merger conflict.
    pub open spec fn merge_conflict_at(self, r: int, c: int) -> bool {
        &&& self.conflict_only_at(r, c)
        &&& self.cell(r, c) matches Cell::Conflict(CellConflictType::Merge(_))
    }

    /// Whether at most one board cell is in `Conflict` state.
    pub open spec fn at_most_one_conflict(self) -> bool {
        forall|r1: int, c1: int, r2: int, c2: int|
            0 <= r1 < 9 && 0 <= c1 < 12 && 0 <= r2 < 9 && 0 <= c2 < 12
                && (#[trigger] self.cell(r1, c1) matches Cell::Conflict(_))
                && (#[trigger] self.cell(r2, c2) matches Cell::Conflict(_)) ==> r1 == r2 && c1
                == c2
    }

    /// Whether `b` differs from `a` at most at cell (`r`, `c`), keeping the
    /// 9x12 shape.
    pub open spec fn same_except(a: GameBoard, b: GameBoard, r: int, c: int) -> bool {
        &&& b.wf()
        &&& forall|r2: int, c2: int|
            0 <= r2 < 9 && 0 <= c2 < 12 && !(r2 == r && c2 == c) ==> #[trigger] b.cell(r2, c2)
                == a.cell(r2, c2)
    }

    /// What a flood-fill with chain `h` leaves behind: every cell is either
    /// untouched or relabeled to `h`; empty cells stay empty; and every cell
    /// the flood relabeled has all of its non-empty neighbours relabeled too.
    pub open spec fn flood_result(pre: GameBoard, post: GameBoard, h: Hotel) -> bool {
        &&& post.wf()
        &&& forall|r: int, c: int|
            0 <= r < 9 && 0 <= c < 12 ==> #[trigger] post.cell(r, c) == pre.cell(r, c)
                || post.cell(r, c) == Cell::Hotel(h)
        &&& forall|r: int, c: int|
            0 <= r < 9 && 0 <= c < 12 && #[trigger] pre.cell(r, c) == Cell::Empty ==> post.cell(
                r,
                c,
            ) == Cell::Empty
        &&& forall|r: int, c: int|
            0 <= r < 9 && 0 <= c < 12 && #[trigger] post.cell(r, c) == Cell::Hotel(h) && pre.cell(
                r,
                c,
            ) != Cell::Hotel(h) ==> {
                &&& post.cell_or_empty(r, c + 1) != Cell::Empty ==> post.cell_or_empty(r, c + 1)
                    == Cell::Hotel(h)
                &&& post.cell_or_empty(r, c - 1) != Cell::Empty ==> post.cell_or_empty(r, c - 1)
                    == Cell::Hotel(h)
                &&& post.cell_or_empty(r + 1, c) != Cell::Empty ==> post.cell_or_empty(r + 1, c)
                    == Cell::Hotel(h)
                &&& post.cell_or_empty(r - 1, c) != Cell::Empty ==> post.cell_or_empty(r - 1, c)
                    == Cell::Hotel(h)
            }
    }

    /// A fresh, fully empty board.
    pub fn new() -> (b: GameBoard)
        ensures
            b.wf(),
            forall|r: int, c: int| 0 <= r < 9 && 0 <= c < 12 ==> #[trigger] b.cell(r, c)
                == Cell::Empty,
    {
        let mut cells: Vec<Vec<Cell>> = Vec::new();
        for r in 0..9
            invariant
                cells@.len() == r,
                forall|i: int| 0 <= i < r ==> (#[trigger] cells@[i])@ =~= Seq::new(
                    12,
                    |j: int| Cell::Empty,
                ),
        {
            let row: Vec<Cell> = vec![Cell::Empty; 12];
            assert(row@ =~= Seq::new(12, |j: int| Cell::Empty));
            cells.push(row);
        }
        let b = GameBoard { cells };
        assert forall|r: int, c: int| 0 <= r < 9 && 0 <= c < 12 implies #[trigger] b.cell(r, c)
            == Cell::Empty by {
            assert(b.cells@[r]@ =~= Seq::new(12, |j: int| Cell::Empty));
        }
        b
    }

    /// The state of cell (`row`, `col`); off-board positions read as `Empty`.
    pub fn get_cell_state(&self, row: usize, col: usize) -> (cell: Cell)
        requires
            self.wf(),
        ensures
            cell == self.cell_or_empty(row as int, col as int),
    {
        if row < BOARD_ROWS && col < BOARD_COLS {
            self.cells[row][col]
        } else {
            Cell::Empty
        }
    }

    /// The chain owning cell (`row`, `col`), if any.
    pub fn get_hotel_at(&self, row: usize, col: usize) -> (h: Option<Hotel>)
        requires
            self.wf(),
            row < 9,
            col < 12,
        ensures
            h == match self.cell(row as int, col as int) {
                Cell::Hotel(hotel) => Some(hotel),
                _ => None::<Hotel>,
            },
    {
        match self.cells[row][col] {
            Cell::Hotel(hotel) => Some(hotel),
            _ => None,
        }
    }

    /// Whether chain `h` occupies at least one board cell.
    fn chain_on_board(&self, h: Hotel) -> (b: bool)
        requires
            self.wf(),
        ensures
            b == self.chain_active(h),
    {
        for row in 0..9
            invariant
                self.wf(),
                forall|r: int, c: int|
                    0 <= r < row && 0 <= c < 12 ==> #[trigger] self.cell(r, c) != Cell::Hotel(h),
        {
            for col in 0..12
                invariant
                    self.wf(),
                    row < 9,
                    forall|r: int, c: int|
                        0 <= r < row && 0 <= c < 12 ==> #[trigger] self.cell(r, c) != Cell::Hotel(
                            h,
                        ),
                    forall|c: int|
                        0 <= c < col ==> #[trigger] self.cell(row as int, c) != Cell::Hotel(h),
            {
                if self.cells[row][col] == Cell::Hotel(h) {
                    proof {
                        assert(self.cell(row as int, col as int) == Cell::Hotel(h));
                    }
                    return true;
                }
            }
        }
        false
    }

    /// All currently active chains, in enumeration order and without
    /// duplicates.
    pub fn get_active_hotels(&self) -> (active: Vec<Hotel>)
        requires
            self.wf(),
        ensures
            forall|h: Hotel| active@.contains(h) <==> self.chain_active(h),
            active@.no_duplicates(),
            active@.len() == self.active_count_upto(7),
            active@ == self.active_hotels_seq(),
    {
        let mut active: Vec<Hotel> = Vec::new();
        for i in 0..7
            invariant
                self.wf(),
                active@ == self.active_hotels_seq_upto(i as int),
                active@.len() == self.active_count_upto(i as int),
                forall|h: Hotel| #[trigger] active@.contains(h)
                    ==> self.chain_active(h) && hotel_index_spec(h) < i,
                forall|j: int| 0 <= j < i && self.chain_active(#[trigger] hotel_from_index_spec(j))
                    ==> active@.contains(hotel_from_index_spec(j)),
                active@.no_duplicates(),
        {
            let h = Hotel::from_index(i);
            let ghost pre = active@;
            if self.chain_on_board(h) {
                proof {
                    assert(!pre.contains(h));
                }
                active.push(h);
            }
        }
        proof {
            assert forall|h: Hotel| active@.contains(h) <==> self.chain_active(h) by {
                assert(hotel_from_index_spec(hotel_index_spec(h)) == h);
            }
        }
        active
    }

    /// All currently inactive chains, in enumeration order and without
    /// duplicates.
    pub fn get_inactive_hotels(&self) -> (inactive: Vec<Hotel>)
        requires
            self.wf(),
        ensures
            forall|h: Hotel| inactive@.contains(h) <==> !self.chain_active(h),
            inactive@.no_duplicates(),
            inactive@.len() == 7 - self.active_count_upto(7),
            inactive@ == self.inactive_hotels_seq(),
    {
        let mut inactive: Vec<Hotel> = Vec::new();
        for i in 0..7
            invariant
                self.wf(),
                inactive@ == self.inactive_hotels_seq_upto(i as int),
                inactive@.len() == i - self.active_count_upto(i as int),
                forall|h: Hotel| #[trigger] inactive@.contains(h)
                    ==> !self.chain_active(h) && hotel_index_spec(h) < i,
                forall|j: int|
                    0 <= j < i && !self.chain_active(#[trigger] hotel_from_index_spec(j))
                        ==> inactive@.contains(hotel_from_index_spec(j)),
                inactive@.no_duplicates(),
        {
            let h = Hotel::from_index(i);
            let ghost pre = inactive@;
            if !self.chain_on_board(h) {
                proof {
                    assert(!pre.contains(h));
                }
                inactive.push(h);
            }
            proof {
                lemma_active_count_upto_bounds(*self, i as int + 1);
            }
        }
        proof {
            assert forall|h: Hotel| inactive@.contains(h) <==> !self.chain_active(h) by {
                assert(hotel_from_index_spec(hotel_index_spec(h)) == h);
            }
        }
        inactive
    }

    /// The size of chain `h`: how many board cells it occupies.
    pub fn get_hotel_chain_size(&self, hotel: Hotel) -> (size: usize)
        requires
            self.wf(),
        ensures
            size == self.chain_size_spec(hotel),
            size <= 108,
    {
        let mut size: usize = 0;
        for row in 0..9
            invariant
                self.wf(),
                size == self.board_count(hotel, row as int),
                size <= row as int * 12,
        {
            for col in 0..12
                invariant
                    self.wf(),
                    row < 9,
                    size == self.board_count(hotel, row as int) + Self::row_count(
                        self.cells@[row as int]@,
                        hotel,
                        col as int,
                    ),
                    size <= row as int * 12 + col as int,
            {
                if self.cells[row][col] == Cell::Hotel(hotel) {
                    size = size + 1;
                }
            }
        }
        size
    }

    /// Whether chain `h` occupies a cell orthogonally adjacent to
    /// (`row`, `col`).
    fn is_hotel_adjacent(&self, row: usize, col: usize, h: Hotel) -> (b: bool)
        requires
            self.wf(),
            row < 9,
            col < 12,
        ensures
            b == self.adjacent_spec(row as int, col as int, h),
    {
        let up_cell = if row == 0 {
            Cell::Empty
        } else {
            self.get_cell_state(row - 1, col)
        };
        let left_cell = if col == 0 {
            Cell::Empty
        } else {
            self.get_cell_state(row, col - 1)
        };
        let right_cell = self.get_cell_state(row, col + 1);
        let down_cell = self.get_cell_state(row + 1, col);
        right_cell == Cell::Hotel(h) || left_cell == Cell::Hotel(h) || down_cell == Cell::Hotel(h)
            || up_cell == Cell::Hotel(h)
    }

    /// All chains adjacent to (`row`, `col`), in enumeration order and
    /// without duplicates.
    pub fn get_adjacent_hotels(&self, row: usize, col: usize) -> (adjacent: Vec<Hotel>)
        requires
            self.wf(),
            row < 9,
            col < 12,
        ensures
            forall|h: Hotel| adjacent@.contains(h) <==> self.adjacent_spec(
                row as int,
                col as int,
                h,
            ),
            adjacent@.no_duplicates(),
            adjacent@.len() == self.adjacent_count(row as int, col as int),
            adjacent@ == self.adjacent_hotels_seq(row as int, col as int),
    {
        let mut adjacent: Vec<Hotel> = Vec::new();
        for i in 0..7
            invariant
                self.wf(),
                row < 9,
                col < 12,
                adjacent@ == self.adjacent_hotels_seq_upto(row as int, col as int, i as int),
                adjacent@.len() == self.adjacent_count_upto(row as int, col as int, i as int),
                forall|h: Hotel| #[trigger] adjacent@.contains(h)
                    ==> self.adjacent_spec(row as int, col as int, h) && hotel_index_spec(h) < i,
                forall|j: int|
                    0 <= j < i && self.adjacent_spec(
                        row as int,
                        col as int,
                        #[trigger] hotel_from_index_spec(j),
                    ) ==> adjacent@.contains(hotel_from_index_spec(j)),
                adjacent@.no_duplicates(),
        {
            let h = Hotel::from_index(i);
            let ghost pre = adjacent@;
            if self.is_hotel_adjacent(row, col, h) {
                proof {
                    assert(!pre.contains(h));
                }
                adjacent.push(h);
            }
        }
        proof {
            assert forall|h: Hotel|
                adjacent@.contains(h) <==> self.adjacent_spec(row as int, col as int, h) by {
                assert(hotel_from_index_spec(hotel_index_spec(h)) == h);
            }
        }
        adjacent
    }
}

impl GameBoard {
    /// Overwrite the cell at (`r`, `c`), leaving every other cell unchanged.
    fn set_cell(&mut self, r: usize, c: usize, v: Cell)
        requires
            old(self).wf(),
            r < 9,
            c < 12,
        ensures
            final(self).wf(),
            final(self).cell(r as int, c as int) == v,
            GameBoard::same_except(*old(self), *final(self), r as int, c as int),
    {
        self.cells[r][c] = v;
    }

    /// Whether placing at (`row`, `col`) would touch an `Independent` cell.
    fn is_cell_next_to_independent(&self, row: usize, col: usize) -> (b: bool)
        requires
            self.wf(),
            row < 9,
            col < 12,
        ensures
            b == self.next_to_independent_spec(row as int, col as int),
    {
        let up_cell = if row == 0 {
            Cell::Empty
        } else {
            self.get_cell_state(row - 1, col)
        };
        let left_cell = if col == 0 {
            Cell::Empty
        } else {
            self.get_cell_state(row, col - 1)
        };
        let right_cell = self.get_cell_state(row, col + 1);
        let down_cell = self.get_cell_state(row + 1, col);
        right_cell == Cell::Independent || left_cell == Cell::Independent || down_cell
            == Cell::Independent || up_cell == Cell::Independent
    }

    /// Whether placing at (`row`, `col`) would found a new chain: no adjacent
    /// chain, but at least one adjacent independent cell.
    pub open spec fn would_start_new_chain_spec(self, r: int, c: int) -> bool {
        self.adjacent_count(r, c) == 0 && self.next_to_independent_spec(r, c)
    }

    /// Whether placing at (`row`, `col`) would found a new chain.
    pub fn would_cell_start_new_chain(&self, row: usize, col: usize) -> (b: bool)
        requires
            self.wf(),
            row < 9,
            col < 12,
        ensures
            b == self.would_start_new_chain_spec(row as int, col as int),
    {
        let adjacent_hotels = self.get_adjacent_hotels(row, col);
        adjacent_hotels.len() == 0 && self.is_cell_next_to_independent(row, col)
    }

    /// Whether placing at (`row`, `col`) would merge chains: at least two
    /// distinct adjacent chains.
    pub fn would_cell_merge_chains(&self, row: usize, col: usize) -> (b: bool)
        requires
            self.wf(),
            row < 9,
            col < 12,
        ensures
            b == (self.adjacent_count(row as int, col as int) > 1),
    {
        let adjacent_hotels = self.get_adjacent_hotels(row, col);
        adjacent_hotels.len() > 1
    }
}

/// The number of active chains among the first `n` is between 0 and `n`.
proof fn lemma_active_count_upto_bounds(b: GameBoard, n: int)
    requires
        n >= 0,
    ensures
        0 <= b.active_count_upto(n) <= n,
    decreases n,
{
    if n > 0 {
        lemma_active_count_upto_bounds(b, n - 1);
    }
}

/// A row's chain-cell count lies between 0 and the prefix length.
proof fn lemma_row_count_bounds(s: Seq<Cell>, h: Hotel, n: int)
    requires
        n >= 0,
    ensures
        0 <= GameBoard::row_count(s, h, n) <= n,
    decreases n,
{
    if n > 0 {
        lemma_row_count_bounds(s, h, n - 1);
    }
}

/// A board's chain-cell count lies between 0 and the number of counted cells.
proof fn lemma_board_count_bounds(b: GameBoard, h: Hotel, rows: int)
    requires
        rows >= 0,
    ensures
        0 <= b.board_count(h, rows) <= rows * 12,
    decreases rows,
{
    if rows > 0 {
        lemma_board_count_bounds(b, h, rows - 1);
        lemma_row_count_bounds(b.cells@[rows - 1]@, h, 12);
    }
}

/// Two rows that agree everywhere except possibly at index `c` have counts
/// that differ exactly by the indicator change at `c`.
proof fn lemma_row_count_cellwise(s1: Seq<Cell>, s2: Seq<Cell>, h: Hotel, c: int, n: int)
    requires
        s1.len() == s2.len(),
        n <= s1.len(),
        forall|i: int| 0 <= i < s1.len() && i != c ==> s1[i] == s2[i],
    ensures
        GameBoard::row_count(s2, h, n) == GameBoard::row_count(s1, h, n) + if 0 <= c < n {
            (if s2[c] == Cell::Hotel(h) {
                1int
            } else {
                0
            }) - (if s1[c] == Cell::Hotel(h) {
                1int
            } else {
                0
            })
        } else {
            0
        },
    decreases n,
{
    if n > 0 {
        lemma_row_count_cellwise(s1, s2, h, c, n - 1);
    }
}

/// Two boards that agree everywhere except possibly at (`r`, `c`) have chain
/// counts that differ exactly by the indicator change at (`r`, `c`).
proof fn lemma_board_count_cellwise(pre: GameBoard, post: GameBoard, h: Hotel, r: int, c: int, rows: int)
    requires
        pre.wf(),
        post.wf(),
        0 <= r < 9,
        0 <= c < 12,
        rows <= 9,
        forall|r2: int, c2: int|
            0 <= r2 < 9 && 0 <= c2 < 12 && !(r2 == r && c2 == c) ==> #[trigger] post.cell(r2, c2)
                == pre.cell(r2, c2),
    ensures
        post.board_count(h, rows) == pre.board_count(h, rows) + if r < rows {
            (if post.cell(r, c) == Cell::Hotel(h) {
                1int
            } else {
                0
            }) - (if pre.cell(r, c) == Cell::Hotel(h) {
                1int
            } else {
                0
            })
        } else {
            0
        },
    decreases rows,
{
    if rows > 0 {
        lemma_board_count_cellwise(pre, post, h, r, c, rows - 1);
        if rows - 1 == r {
            assert forall|i: int| 0 <= i < 12 && i != c implies #[trigger] pre.cells@[r]@[i]
                == post.cells@[r]@[i] by {
                assert(post.cell(r, i) == pre.cell(r, i));
            }
            lemma_row_count_cellwise(pre.cells@[r]@, post.cells@[r]@, h, c, 12);
        } else {
            assert forall|i: int| 0 <= i < 12 implies #[trigger] pre.cells@[rows - 1]@[i]
                == post.cells@[rows - 1]@[i] by {
                assert(post.cell(rows - 1, i) == pre.cell(rows - 1, i));
            }
            assert(post.cells@[rows - 1]@ =~= pre.cells@[rows - 1]@);
        }
    }
}

impl GameBoard {
    /// The position and kind of the board's conflict cell, if any.
    pub fn get_conflict_on_board(&self) -> (res: Option<(usize, usize, CellConflictType)>)
        requires
            self.wf(),
        ensures
            match res {
                Some((r, c, t)) => r < 9 && c < 12 && self.cell(r as int, c as int)
                    == Cell::Conflict(t),
                None => !self.has_conflict(),
            },
    {
        for row in 0..9
            invariant
                self.wf(),
                forall|r: int, c: int|
                    0 <= r < row && 0 <= c < 12 ==> !(#[trigger] self.cell(r, c)
                        matches Cell::Conflict(_)),
        {
            for col in 0..12
                invariant
                    self.wf(),
                    row < 9,
                    forall|r: int, c: int|
                        0 <= r < row && 0 <= c < 12 ==> !(#[trigger] self.cell(r, c)
                            matches Cell::Conflict(_)),
                    forall|c: int|
                        0 <= c < col ==> !(#[trigger] self.cell(row as int, c)
                            matches Cell::Conflict(_)),
            {
                if let Cell::Conflict(conflict_type) = self.cells[row][col] {
                    return Some((row, col, conflict_type));
                }
            }
        }
        None
    }

    /// How many of the chains enumerated before index `n` are both adjacent
    /// to (`r`, `c`) and safe (size at least 11).
    pub open spec fn safe_adjacent_count_upto(self, r: int, c: int, n: int) -> int
        decreases n,
    {
        if n <= 0 {
            0
        } else {
            self.safe_adjacent_count_upto(r, c, n - 1) + if self.adjacent_spec(
                r,
                c,
                hotel_from_index_spec(n - 1),
            ) && self.chain_size_spec(hotel_from_index_spec(n - 1)) >= 11 {
                1int
            } else {
                0
            }
        }
    }

    /// Why a tile may not be placed at (`r`, `c`), if it may not.  The checks
    /// are made in a fixed order: off-board, outstanding conflict, occupied
    /// cell, an eighth chain, a merger of two safe chains.
    pub open spec fn playable_err(self, r: int, c: int) -> Option<CellNotPlayableReason> {
        if !(0 <= r < 9 && 0 <= c < 12) {
            Some(CellNotPlayableReason::CellIsOffBoard)
        } else if self.has_conflict() {
            Some(CellNotPlayableReason::ConflictOnBoard)
        } else if self.cell(r, c) != Cell::Empty {
            Some(CellNotPlayableReason::CellIsNotEmpty)
        } else if self.active_count_upto(7) >= 7 && self.would_start_new_chain_spec(r, c) {
            Some(CellNotPlayableReason::HotelsAreAllActive)
        } else if self.safe_adjacent_count_upto(r, c, 7) > 1 {
            Some(CellNotPlayableReason::AdjacentHotelsAreSafe)
        } else {
            None
        }
    }

    /// Whether a tile may be placed at (`row`, `col`); if not, the reason,
    /// following the fixed check order of `playable_err`.
    pub fn is_cell_playable(&self, row: usize, col: usize) -> (res: Result<
        bool,
        CellNotPlayableReason,
    >)
        requires
            self.wf(),
        ensures
            res == match self.playable_err(row as int, col as int) {
                Some(e) => Err::<bool, CellNotPlayableReason>(e),
                None => Ok::<bool, CellNotPlayableReason>(true),
            },
    {
        if row >= BOARD_ROWS || col >= BOARD_COLS {
            return Err(CellNotPlayableReason::CellIsOffBoard);
        }
        match self.get_conflict_on_board() {
            Some((r, c, t)) => {
                proof {
                    assert(self.cell(r as int, c as int) matches Cell::Conflict(_));
                }
                return Err(CellNotPlayableReason::ConflictOnBoard);
            },
            None => {},
        }
        if self.cells[row][col] != Cell::Empty {
            return Err(CellNotPlayableReason::CellIsNotEmpty);
        }
        let active_hotels = self.get_active_hotels();
        if active_hotels.len() >= Hotel::count() && self.would_cell_start_new_chain(row, col) {
            return Err(CellNotPlayableReason::HotelsAreAllActive);
        }
        let mut safe_count: usize = 0;
        for i in 0..7
            invariant
                self.wf(),
                row < 9,
                col < 12,
                safe_count == self.safe_adjacent_count_upto(row as int, col as int, i as int),
                safe_count <= i,
        {
            let h = Hotel::from_index(i);
            if self.is_hotel_adjacent(row, col, h) && self.get_hotel_chain_size(h)
                >= SAFE_CHAIN_SIZE {
                safe_count = safe_count + 1;
            }
        }
        if safe_count > 1 {
            return Err(CellNotPlayableReason::AdjacentHotelsAreSafe);
        }
        Ok(true)
    }
}

impl GameBoard {
    /// Whether (`r`, `c`) can be reached from (`r0`, `c0`) within `n` steps,
    /// walking only across non-empty board cells.
    pub open spec fn reachable_in(self, r0: int, c0: int, r: int, c: int, n: nat) -> bool
        decreases n,
    {
        if r == r0 && c == c0 {
            true
        } else if n == 0 {
            false
        } else {
            &&& 0 <= r < 9 && 0 <= c < 12
            &&& self.cell(r, c) != Cell::Empty
            &&& {
                ||| self.reachable_in(r0, c0, r - 1, c, (n - 1) as nat)
                ||| self.reachable_in(r0, c0, r + 1, c, (n - 1) as nat)
                ||| self.reachable_in(r0, c0, r, c - 1, (n - 1) as nat)
                ||| self.reachable_in(r0, c0, r, c + 1, (n - 1) as nat)
            }
        }
    }

    /// Whether (`r`, `c`) is 4-connected to (`r0`, `c0`) through non-empty
    /// cells.
    pub open spec fn connected(self, r0: int, c0: int, r: int, c: int) -> bool {
        exists|n: nat| self.reachable_in(r0, c0, r, c, n)
    }

    /// Whether every cell that differs between `pre` and `post` is
    /// 4-connected to the seed (`r0`, `c0`) through non-empty cells of
    /// `post`: a flood may only relabel the seed's connected region.
    pub open spec fn changes_connected_to(
        pre: GameBoard,
        post: GameBoard,
        r0: int,
        c0: int,
    ) -> bool {
        forall|r: int, c: int|
            0 <= r < 9 && 0 <= c < 12 && #[trigger] post.cell(r, c) != pre.cell(r, c)
                ==> post.connected(r0, c0, r, c)
    }
}

/// Reachability reads only which cells are empty: boards that agree on
/// emptiness agree on it.
proof fn lemma_reachable_same_emptiness(
    b1: GameBoard,
    b2: GameBoard,
    r0: int,
    c0: int,
    r: int,
    c: int,
    n: nat,
)
    requires
        forall|r2: int, c2: int|
            0 <= r2 < 9 && 0 <= c2 < 12 ==> ((#[trigger] b1.cell(r2, c2)) == Cell::Empty <==> b2.cell(
                r2,
                c2,
            ) == Cell::Empty),
    ensures
        b1.reachable_in(r0, c0, r, c, n) == b2.reachable_in(r0, c0, r, c, n),
    decreases n,
{
    if !(r == r0 && c == c0) && n > 0 {
        lemma_reachable_same_emptiness(b1, b2, r0, c0, r - 1, c, (n - 1) as nat);
        lemma_reachable_same_emptiness(b1, b2, r0, c0, r + 1, c, (n - 1) as nat);
        lemma_reachable_same_emptiness(b1, b2, r0, c0, r, c - 1, (n - 1) as nat);
        lemma_reachable_same_emptiness(b1, b2, r0, c0, r, c + 1, (n - 1) as nat);
    }
}

/// Connectivity reads only which cells are empty.
proof fn lemma_connected_same_emptiness(
    b1: GameBoard,
    b2: GameBoard,
    r0: int,
    c0: int,
    r: int,
    c: int,
)
    requires
        forall|r2: int, c2: int|
            0 <= r2 < 9 && 0 <= c2 < 12 ==> ((#[trigger] b1.cell(r2, c2)) == Cell::Empty <==> b2.cell(
                r2,
                c2,
            ) == Cell::Empty),
        b1.connected(r0, c0, r, c),
    ensures
        b2.connected(r0, c0, r, c),
{
    let n = choose|n: nat| b1.reachable_in(r0, c0, r, c, n);
    lemma_reachable_same_emptiness(b1, b2, r0, c0, r, c, n);
    assert(b2.reachable_in(r0, c0, r, c, n));
}

/// A non-empty in-bounds neighbour of a connected cell is connected.
proof fn lemma_connected_step(b: GameBoard, r0: int, c0: int, r: int, c: int, r2: int, c2: int)
    requires
        b.connected(r0, c0, r, c),
        (r2 == r - 1 && c2 == c) || (r2 == r + 1 && c2 == c) || (r2 == r && c2 == c - 1) || (r2
            == r && c2 == c + 1),
        0 <= r2 < 9,
        0 <= c2 < 12,
        b.cell(r2, c2) != Cell::Empty,
    ensures
        b.connected(r0, c0, r2, c2),
{
    let n = choose|n: nat| b.reachable_in(r0, c0, r, c, n);
    assert(b.reachable_in(r0, c0, r2, c2, (n + 1) as nat));
}

/// Whether the worklist holds an entry for position (`r`, `c`).
spec fn in_work(work: Seq<(usize, usize)>, r: int, c: int) -> bool {
    work.contains((r as usize, c as usize))
}

impl GameBoard {
    /// Relabel to chain `hotel` the whole connected group of placed cells
    /// reachable from (`row`, `col`), walking the grid with an explicit
    /// worklist.  Cells already belonging to `hotel` stop the walk; empty
    /// cells are never crossed or relabeled.
    fn flood_hotel(&mut self, row: usize, col: usize, hotel: Hotel)
        requires
            old(self).wf(),
            row < 9,
            col < 12,
        ensures
            final(self).wf(),
            GameBoard::flood_result(*old(self), *final(self), hotel),
            GameBoard::changes_connected_to(*old(self), *final(self), row as int, col as int),
            old(self).cell(row as int, col as int) != Cell::Empty ==> final(self).cell(
                row as int,
                col as int,
            ) == Cell::Hotel(hotel),
    {
        let ghost orig = *self;
        let mut work: Vec<(usize, usize)> = Vec::new();
        work.push((row, col));
        proof {
            assert(work@[0] == (row, col));
            assert(orig.reachable_in(row as int, col as int, row as int, col as int, 0));
        }
        let mut i: usize = 0;
        proof {
            lemma_board_count_bounds(*self, hotel, 9);
        }
        while i < work.len()
            invariant
                self.wf(),
                i <= work@.len(),
                in_work(work@, row as int, col as int),
                forall|k: int|
                    0 <= k < work@.len() ==> (#[trigger] work@[k]).0 < 9 && work@[k].1 < 12,
                // every cell is untouched or relabeled to `hotel`
                forall|r: int, c: int|
                    0 <= r < 9 && 0 <= c < 12 ==> #[trigger] self.cell(r, c) == orig.cell(r, c)
                        || self.cell(r, c) == Cell::Hotel(hotel),
                // empty cells stay empty
                forall|r: int, c: int|
                    0 <= r < 9 && 0 <= c < 12 && #[trigger] orig.cell(r, c) == Cell::Empty
                        ==> self.cell(r, c) == Cell::Empty,
                // a processed entry's cell is settled: empty or relabeled
                forall|k: int|
                    0 <= k < i ==> self.cell((#[trigger] work@[k]).0 as int, work@[k].1 as int)
                        == Cell::Empty || self.cell(work@[k].0 as int, work@[k].1 as int)
                        == Cell::Hotel(hotel),
                // every entry names a connected cell or an empty one
                forall|k: int|
                    0 <= k < work@.len() ==> orig.connected(
                        row as int,
                        col as int,
                        (#[trigger] work@[k]).0 as int,
                        work@[k].1 as int,
                    ) || orig.cell(work@[k].0 as int, work@[k].1 as int) == Cell::Empty,
                // only cells connected to the seed have been relabeled
                forall|r: int, c: int|
                    0 <= r < 9 && 0 <= c < 12 && #[trigger] self.cell(r, c) != orig.cell(r, c)
                        ==> orig.connected(row as int, col as int, r, c),
                // every neighbour of a relabeled cell that could still need
                // relabeling has a worklist entry
                forall|r: int, c: int|
                    0 <= r < 9 && 0 <= c < 12 && #[trigger] self.cell(r, c) == Cell::Hotel(hotel)
                        && orig.cell(r, c) != Cell::Hotel(hotel) ==> {
                        &&& (self.cell_or_empty(r, c + 1) != Cell::Empty && self.cell_or_empty(
                            r,
                            c + 1,
                        ) != Cell::Hotel(hotel)) ==> in_work(work@, r, c + 1)
                        &&& (self.cell_or_empty(r, c - 1) != Cell::Empty && self.cell_or_empty(
                            r,
                            c - 1,
                        ) != Cell::Hotel(hotel)) ==> in_work(work@, r, c - 1)
                        &&& (self.cell_or_empty(r + 1, c) != Cell::Empty && self.cell_or_empty(
                            r + 1,
                            c,
                        ) != Cell::Hotel(hotel)) ==> in_work(work@, r + 1, c)
                        &&& (self.cell_or_empty(r - 1, c) != Cell::Empty && self.cell_or_empty(
                            r - 1,
                            c,
                        ) != Cell::Hotel(hotel)) ==> in_work(work@, r - 1, c)
                    },
                0 <= self.chain_size_spec(hotel) <= 108,
            decreases 108 - self.chain_size_spec(hotel), work@.len() - i,
        {
            let (r, c) = work[i];
            let cell_state = self.get_cell_state(r, c);
            if cell_state != Cell::Empty && cell_state != Cell::Hotel(hotel) {
                proof {
                    // the cell being relabeled is non-empty in the original
                    // board, so its worklist entry witnesses connectivity
                    assert(orig.cell(r as int, c as int) != Cell::Empty);
                    assert(orig.connected(row as int, col as int, r as int, c as int));
                }
                let ghost pre_board = *self;
                let ghost pre_work = work@;
                self.set_cell(r, c, Cell::Hotel(hotel));
                proof {
                    lemma_board_count_cellwise(pre_board, *self, hotel, r as int, c as int, 9);
                    lemma_board_count_bounds(*self, hotel, 9);
                }
                if r + 1 < BOARD_ROWS {
                    work.push((r + 1, c));
                    proof {
                        if orig.cell(r as int + 1, c as int) != Cell::Empty {
                            lemma_connected_step(
                                orig,
                                row as int,
                                col as int,
                                r as int,
                                c as int,
                                r as int + 1,
                                c as int,
                            );
                        }
                    }
                }
                if r > 0 {
                    work.push((r - 1, c));
                    proof {
                        if orig.cell(r as int - 1, c as int) != Cell::Empty {
                            lemma_connected_step(
                                orig,
                                row as int,
                                col as int,
                                r as int,
                                c as int,
                                r as int - 1,
                                c as int,
                            );
                        }
                    }
                }
                if c + 1 < BOARD_COLS {
                    work.push((r, c + 1));
                    proof {
                        if orig.cell(r as int, c as int + 1) != Cell::Empty {
                            lemma_connected_step(
                                orig,
                                row as int,
                                col as int,
                                r as int,
                                c as int,
                                r as int,
                                c as int + 1,
                            );
                        }
                    }
                }
                if c > 0 {
                    work.push((r, c - 1));
                    proof {
                        if orig.cell(r as int, c as int - 1) != Cell::Empty {
                            lemma_connected_step(
                                orig,
                                row as int,
                                col as int,
                                r as int,
                                c as int,
                                r as int,
                                c as int - 1,
                            );
                        }
                    }
                }
                proof {
                    assert forall|k: int| 0 <= k < pre_work.len() implies work@[k]
                        == pre_work[k] by {}
                    assert(r + 1 < 9 ==> in_work(work@, r as int + 1, c as int));
                    assert(r > 0 ==> in_work(work@, r as int - 1, c as int));
                    assert(c + 1 < 12 ==> in_work(work@, r as int, c as int + 1));
                    assert(c > 0 ==> in_work(work@, r as int, c as int - 1));
                }
            }
            i = i + 1;
        }
        proof {
            // the worklist is exhausted, so every pending neighbour claim is
            // settled: flood_result's closure clause follows
            assert forall|r: int, c: int|
                0 <= r < 9 && 0 <= c < 12 && #[trigger] self.cell(r, c) == Cell::Hotel(hotel)
                    && orig.cell(r, c) != Cell::Hotel(hotel) implies {
                &&& self.cell_or_empty(r, c + 1) != Cell::Empty ==> self.cell_or_empty(r, c + 1)
                    == Cell::Hotel(hotel)
                &&& self.cell_or_empty(r, c - 1) != Cell::Empty ==> self.cell_or_empty(r, c - 1)
                    == Cell::Hotel(hotel)
                &&& self.cell_or_empty(r + 1, c) != Cell::Empty ==> self.cell_or_empty(r + 1, c)
                    == Cell::Hotel(hotel)
                &&& self.cell_or_empty(r - 1, c) != Cell::Empty ==> self.cell_or_empty(r - 1, c)
                    == Cell::Hotel(hotel)
            } by {}
            // the flood preserves which cells are empty, so connectivity
            // over the original board carries over to the final one
            assert forall|r: int, c: int|
                0 <= r < 9 && 0 <= c < 12 && #[trigger] self.cell(r, c) != orig.cell(r, c) implies
                self.connected(row as int, col as int, r, c) by {
                lemma_connected_same_emptiness(
                    orig,
                    *self,
                    row as int,
                    col as int,
                    r,
                    c,
                );
            }
        }
    }

    /// What growing a chain by placing at (`r`, `c`) leaves behind: the
    /// placed cell joins chain `h`; only cells 4-connected to it through
    /// non-empty cells change at all, and each is untouched or relabeled to
    /// `h`; empty cells stay empty; and every relabeled cell has all of its
    /// non-empty neighbours in chain `h`.
    pub open spec fn grow_result(pre: GameBoard, post: GameBoard, r: int, c: int, h: Hotel) -> bool {
        &&& post.wf()
        &&& post.cell(r, c) == Cell::Hotel(h)
        &&& GameBoard::changes_connected_to(pre, post, r, c)
        &&& forall|r2: int, c2: int|
            0 <= r2 < 9 && 0 <= c2 < 12 && !(r2 == r && c2 == c) ==> #[trigger] post.cell(r2, c2)
                == pre.cell(r2, c2) || post.cell(r2, c2) == Cell::Hotel(h)
        &&& forall|r2: int, c2: int|
            0 <= r2 < 9 && 0 <= c2 < 12 && !(r2 == r && c2 == c) && #[trigger] pre.cell(r2, c2)
                == Cell::Empty ==> post.cell(r2, c2) == Cell::Empty
        &&& forall|r2: int, c2: int|
            0 <= r2 < 9 && 0 <= c2 < 12 && #[trigger] post.cell(r2, c2) == Cell::Hotel(h) && ((r2
                == r && c2 == c) || pre.cell(r2, c2) != Cell::Hotel(h)) ==> {
                &&& post.cell_or_empty(r2, c2 + 1) != Cell::Empty ==> post.cell_or_empty(
                    r2,
                    c2 + 1,
                ) == Cell::Hotel(h)
                &&& post.cell_or_empty(r2, c2 - 1) != Cell::Empty ==> post.cell_or_empty(
                    r2,
                    c2 - 1,
                ) == Cell::Hotel(h)
                &&& post.cell_or_empty(r2 + 1, c2) != Cell::Empty ==> post.cell_or_empty(
                    r2 + 1,
                    c2,
                ) == Cell::Hotel(h)
                &&& post.cell_or_empty(r2 - 1, c2) != Cell::Empty ==> post.cell_or_empty(
                    r2 - 1,
                    c2,
                ) == Cell::Hotel(h)
            }
    }

    /// Place a tile at (`row`, `col`).
    ///
    /// An unplayable cell is rejected with its reason and the board is left
    /// untouched.  A cell touching independent cells but no chain becomes a
    /// new-chain conflict; one touching two or more chains becomes a merger
    /// conflict; in both cases only that cell changes and it holds the
    /// board's sole conflict.  Otherwise the cell is placed: it stays
    /// independent when isolated, and joins (and grows) the single adjacent
    /// chain when there is one.
    pub fn place_tile(&mut self, row: usize, col: usize) -> (res: PlaceTileResult)
        requires
            old(self).wf(),
        ensures
            final(self).wf(),
            match old(self).playable_err(row as int, col as int) {
                Some(e) => res == PlaceTileResult::CellNotPlayable(e) && *final(self) == *old(self),
                None => {
                    let r = row as int;
                    let c = col as int;
                    if old(self).would_start_new_chain_spec(r, c) {
                        &&& res == PlaceTileResult::ConflictCreated(CellConflictType::NewChain)
                        &&& GameBoard::same_except(*old(self), *final(self), r, c)
                        &&& final(self).cell(r, c) == Cell::Conflict(CellConflictType::NewChain)
                        &&& final(self).conflict_only_at(r, c)
                    } else if old(self).adjacent_count(r, c) > 1 {
                        &&& res == PlaceTileResult::ConflictCreated(
                            CellConflictType::Merge((old(self).adjacent_count(r, c) - 1) as usize),
                        )
                        &&& GameBoard::same_except(*old(self), *final(self), r, c)
                        &&& final(self).cell(r, c) == Cell::Conflict(
                            CellConflictType::Merge((old(self).adjacent_count(r, c) - 1) as usize),
                        )
                        &&& final(self).conflict_only_at(r, c)
                    } else if old(self).adjacent_count(r, c) == 1 {
                        &&& res == PlaceTileResult::Success
                        &&& forall|h: Hotel| old(self).adjacent_spec(r, c, h)
                            ==> GameBoard::grow_result(*old(self), *final(self), r, c, h)
                        &&& !final(self).has_conflict()
                        &&& final(self).cell(r, c) != Cell::Empty
                    } else {
                        &&& res == PlaceTileResult::Success
                        &&& GameBoard::same_except(*old(self), *final(self), r, c)
                        &&& final(self).cell(r, c) == Cell::Independent
                        &&& !final(self).has_conflict()
                    }
                },
            },
    {
        match self.is_cell_playable(row, col) {
            Err(reason) => {
                return PlaceTileResult::CellNotPlayable(reason);
            },
            Ok(_) => {},
        }
        if self.would_cell_start_new_chain(row, col) {
            self.set_cell(row, col, Cell::Conflict(CellConflictType::NewChain));
            return PlaceTileResult::ConflictCreated(CellConflictType::NewChain);
        }
        let adjacent_hotels = self.get_adjacent_hotels(row, col);
        if adjacent_hotels.len() > 1 {
            let number_of_mergers = adjacent_hotels.len() - 1;
            self.set_cell(row, col, Cell::Conflict(CellConflictType::Merge(number_of_mergers)));
            return PlaceTileResult::ConflictCreated(CellConflictType::Merge(number_of_mergers));
        }
        self.set_cell(row, col, Cell::Independent);
        if adjacent_hotels.len() == 1 {
            let ghost mid = *self;
            let h = adjacent_hotels[0];
            self.flood_hotel(row, col, h);
            proof {
                assert(adjacent_hotels@.contains(h));
                assert forall|h2: Hotel| old(self).adjacent_spec(row as int, col as int, h2)
                    implies h2 == h by {
                    assert(adjacent_hotels@.contains(h2));
                    assert(adjacent_hotels@[0] == h);
                }
                // every cell changed since before the placement is the seed
                // itself or a cell the flood changed, so it is connected
                assert forall|r2: int, c2: int|
                    0 <= r2 < 9 && 0 <= c2 < 12 && #[trigger] self.cell(r2, c2) != old(self).cell(
                    r2,
                    c2,
                ) implies self.connected(row as int, col as int, r2, c2) by {
                    if r2 == row as int && c2 == col as int {
                        assert(self.reachable_in(row as int, col as int, r2, c2, 0));
                    } else {
                        assert(self.cell(r2, c2) != mid.cell(r2, c2));
                    }
                }
            }
            return PlaceTileResult::Success;
        }
        PlaceTileResult::Success
    }

    /// Whether chain `h` may resolve the conflict standing at (`r`, `c`):
    /// any inactive chain for a new-chain conflict, and any adjacent chain of
    /// maximal size for a merger conflict.
    pub open spec fn acceptable_resolution_spec(self, r: int, c: int, h: Hotel) -> bool {
        match self.cell(r, c) {
            Cell::Conflict(CellConflictType::NewChain) => !self.chain_active(h),
            Cell::Conflict(CellConflictType::Merge(_)) => self.adjacent_spec(r, c, h)
                && forall|h2: Hotel| self.adjacent_spec(r, c, h2)
                ==> self.chain_size_spec(h2) <= self.chain_size_spec(h),
            _ => false,
        }
    }

    /// The acceptable resolutions of the conflict at (`r`, `c`) among the
    /// first `n` chains of the enumeration, in enumeration order.
    pub open spec fn acceptable_seq_upto(self, r: int, c: int, n: int) -> Seq<Hotel>
        decreases n,
    {
        if n <= 0 {
            Seq::empty()
        } else {
            let rest = self.acceptable_seq_upto(r, c, n - 1);
            if self.acceptable_resolution_spec(r, c, hotel_from_index_spec(n - 1)) {
                rest.push(hotel_from_index_spec(n - 1))
            } else {
                rest
            }
        }
    }

    /// The acceptable resolutions of the conflict at (`r`, `c`), in
    /// enumeration order: the exact result of
    /// `acceptable_conflict_resolutions`, a function of the board alone.
    pub open spec fn acceptable_seq(self, r: int, c: int) -> Seq<Hotel> {
        self.acceptable_seq_upto(r, c, 7)
    }

    /// Whether every merger conflict cell touches at least one chain.
    pub open spec fn merge_conflict_has_adjacent(self) -> bool {
        forall|r: int, c: int|
            0 <= r < 9 && 0 <= c < 12 && (#[trigger] self.cell(r, c) matches Cell::Conflict(
                CellConflictType::Merge(_),
            )) ==> self.adjacent_count(r, c) >= 1
    }

    /// Whether chain `h` may resolve the board's conflict.
    pub open spec fn resolvable_with(self, h: Hotel) -> bool {
        exists|r: int, c: int|
            #[trigger] self.conflict_only_at(r, c) && self.acceptable_resolution_spec(r, c, h)
    }

    /// The chains that may resolve the board's outstanding conflict, without
    /// duplicates; empty when no conflict stands.
    pub fn acceptable_conflict_resolutions(&self) -> (acceptable: Vec<Hotel>)
        requires
            self.wf(),
            self.at_most_one_conflict(),
            self.merge_conflict_has_adjacent(),
        ensures
            !self.has_conflict() ==> acceptable@.len() == 0,
            forall|r: int, c: int| #[trigger] self.conflict_only_at(r, c) ==> (forall|h: Hotel|
                acceptable@.contains(h) <==> self.acceptable_resolution_spec(r, c, h))
                && acceptable@ == self.acceptable_seq(r, c),
            forall|h: Hotel| acceptable@.contains(h) ==> self.resolvable_with(h),
            acceptable@.no_duplicates(),
    {
        let conflict = self.get_conflict_on_board();
        match conflict {
            None => {
                Vec::new()
            },
            Some((row, col, conflict_type)) => {
                proof {
                    assert(self.conflict_only_at(row as int, col as int));
                }
                match conflict_type {
                    CellConflictType::NewChain => {
                        let acceptable = self.get_inactive_hotels();
                        proof {
                            lemma_acceptable_seq_newchain(*self, row as int, col as int, 7);
                        }
                        acceptable
                    },
                    CellConflictType::Merge(_) => {
                        let adjacent_hotels = self.get_adjacent_hotels(row, col);
                        proof {
                            lemma_adjacent_count_upto_pos(*self, row as int, col as int, 7);
                        }
                        let mut max_chain_size: usize = 0;
                        let mut idx: usize = 0;
                        while idx < adjacent_hotels.len()
                            invariant
                                self.wf(),
                                idx <= adjacent_hotels@.len(),
                                forall|k: int| 0 <= k < idx ==> self.chain_size_spec(
                                    #[trigger] adjacent_hotels@[k],
                                ) <= max_chain_size,
                                idx > 0 ==> exists|k: int|
                                    0 <= k < idx && self.chain_size_spec(
                                        #[trigger] adjacent_hotels@[k],
                                    ) == max_chain_size,
                                idx == 0 ==> max_chain_size == 0,
                            decreases adjacent_hotels@.len() - idx,
                        {
                            let size = self.get_hotel_chain_size(adjacent_hotels[idx]);
                            if size > max_chain_size {
                                max_chain_size = size;
                            } else if idx == 0 {
                                proof {
                                    assert(self.chain_size_spec(adjacent_hotels@[0]) >= 0) by {
                                        lemma_board_count_bounds(*self, adjacent_hotels@[0], 9);
                                    }
                                }
                                max_chain_size = size;
                            }
                            idx = idx + 1;
                        }
                        let mut acceptable: Vec<Hotel> = Vec::new();
                        for i in 0..7
                            invariant
                                self.wf(),
                                row < 9,
                                col < 12,
                                self.cell(row as int, col as int) matches Cell::Conflict(
                                    CellConflictType::Merge(_),
                                ),
                                forall|h2: Hotel| adjacent_hotels@.contains(h2)
                                    <==> self.adjacent_spec(row as int, col as int, h2),
                                forall|k: int| 0 <= k < adjacent_hotels@.len()
                                    ==> self.chain_size_spec(#[trigger] adjacent_hotels@[k])
                                        <= max_chain_size,
                                adjacent_hotels@.len() > 0 ==> exists|k: int|
                                    0 <= k < adjacent_hotels@.len() && self.chain_size_spec(
                                        #[trigger] adjacent_hotels@[k],
                                    ) == max_chain_size,
                                adjacent_hotels@.len() > 0,
                                acceptable@ == self.acceptable_seq_upto(
                                    row as int,
                                    col as int,
                                    i as int,
                                ),
                                forall|h: Hotel| #[trigger] acceptable@.contains(h)
                                    ==> self.acceptable_resolution_spec(row as int, col as int, h)
                                        && hotel_index_spec(h) < i,
                                forall|ix: int|
                                    0 <= ix < i && self.acceptable_resolution_spec(
                                        row as int,
                                        col as int,
                                        #[trigger] hotel_from_index_spec(ix),
                                    ) ==> acceptable@.contains(hotel_from_index_spec(ix)),
                                acceptable@.no_duplicates(),
                        {
                            let h = Hotel::from_index(i);
                            let ghost pre = acceptable@;
                            proof {
                                // keeping a chain of maximal size is the
                                // same as keeping an acceptable survivor
                                if self.adjacent_spec(row as int, col as int, h)
                                    && self.chain_size_spec(h) == max_chain_size {
                                    assert forall|h2: Hotel|
                                        self.adjacent_spec(row as int, col as int, h2) implies
                                        self.chain_size_spec(h2) <= self.chain_size_spec(h) by {
                                        assert(adjacent_hotels@.contains(h2));
                                        let k2 = choose|k2: int|
                                            0 <= k2 < adjacent_hotels@.len()
                                                && adjacent_hotels@[k2] == h2;
                                    }
                                }
                                if self.acceptable_resolution_spec(row as int, col as int, h) {
                                    assert(adjacent_hotels@.contains(h));
                                    let k = choose|k: int|
                                        0 <= k < adjacent_hotels@.len() && adjacent_hotels@[k]
                                            == h;
                                    let km = choose|km: int|
                                        0 <= km < adjacent_hotels@.len() && self.chain_size_spec(
                                            #[trigger] adjacent_hotels@[km],
                                        ) == max_chain_size;
                                    assert(adjacent_hotels@.contains(adjacent_hotels@[km]));
                                    assert(self.chain_size_spec(h) == max_chain_size);
                                }
                                if pre.contains(h) {
                                    assert(hotel_index_spec(h) < i);
                                    assert(false);
                                }
                            }
                            if self.is_hotel_adjacent(row, col, h) && self.get_hotel_chain_size(h)
                                == max_chain_size {
                                acceptable.push(h);
                            }
                        }
                        proof {
                            assert forall|h: Hotel|
                                acceptable@.contains(h) <==> self.acceptable_resolution_spec(
                                    row as int,
                                    col as int,
                                    h,
                                ) by {
                                assert(hotel_from_index_spec(hotel_index_spec(h)) == h);
                            }
                        }
                        acceptable
                    },
                }
            },
        }
    }

    /// Resolve the board's conflict by assigning chain `hotel`.
    ///
    /// Fails, leaving the board untouched, unless `hotel` is an acceptable
    /// resolution of an outstanding conflict.  On success the conflict cell
    /// and its whole connected placed region join chain `hotel`, and no
    /// conflict remains on the board.
    pub fn resolve_conflict(&mut self, hotel: Hotel) -> (res: Result<(), &'static str>)
        requires
            old(self).wf(),
            old(self).at_most_one_conflict(),
            old(self).merge_conflict_has_adjacent(),
        ensures
            final(self).wf(),
            res matches Ok(_) <==> old(self).resolvable_with(hotel),
            res matches Err(_) ==> *final(self) == *old(self),
            res matches Ok(_) ==> {
                &&& GameBoard::flood_result(*old(self), *final(self), hotel)
                &&& !final(self).has_conflict()
                &&& forall|r: int, c: int| #[trigger] old(self).conflict_only_at(r, c) ==> {
                    &&& final(self).cell(r, c) == Cell::Hotel(hotel)
                    &&& GameBoard::changes_connected_to(*old(self), *final(self), r, c)
                }
            },
    {
        let acceptable_hotels = self.acceptable_conflict_resolutions();
        if !contains_hotel(&acceptable_hotels, hotel) {
            proof {
                if old(self).resolvable_with(hotel) {
                    let (r, c) = choose|r: int, c: int|
                        #[trigger] old(self).conflict_only_at(r, c)
                            && old(self).acceptable_resolution_spec(r, c, hotel);
                    assert(acceptable_hotels@.contains(hotel));
                }
            }
            return Err("Hotel is not an acceptable resolution");
        }
        let conflict = self.get_conflict_on_board();
        match conflict {
            Some((row, col, _)) => {
                proof {
                    assert(self.conflict_only_at(row as int, col as int));
                }
                let ghost pre = *self;
                self.flood_hotel(row, col, hotel);
                proof {
                    assert forall|r: int, c: int|
                        0 <= r < 9 && 0 <= c < 12 implies !(#[trigger] self.cell(r, c)
                        matches Cell::Conflict(_)) by {
                        if self.cell(r, c) matches Cell::Conflict(_) {
                            assert(self.cell(r, c) == pre.cell(r, c) || self.cell(r, c)
                                == Cell::Hotel(hotel));
                            assert(pre.conflict_only_at(row as int, col as int));
                            assert(r == row as int && c == col as int);
                        }
                    }
                }
                Ok(())
            },
            None => {
                proof {
                    assert(acceptable_hotels@.contains(hotel));
                    assert(false);
                }
                Err("Hotel is not an acceptable resolution")
            },
        }
    }

    /// Place a starting tile: the cell simply becomes `Independent`.
    pub fn place_initial_tile(&mut self, row: usize, col: usize)
        requires
            old(self).wf(),
            row < 9,
            col < 12,
        ensures
            final(self).wf(),
            GameBoard::same_except(*old(self), *final(self), row as int, col as int),
            final(self).cell(row as int, col as int) == Cell::Independent,
    {
        self.set_cell(row, col, Cell::Independent);
    }

    /// The current stock price of chain `hotel`, at its current size.
    pub fn get_hotel_stock_price(&self, hotel: Hotel) -> (price: u32)
        requires
            self.wf(),
        ensures
            price == crate::hotel_data::stock_value_spec(hotel, self.chain_size_spec(hotel)),
            200 <= price <= 1200,
    {
        let chain_length = self.get_hotel_chain_size(hotel);
        hotel.get_stock_value(chain_length)
    }

    /// The current majority holder bonus of chain `hotel`.
    pub fn get_hotel_majority_stock_bonus(&self, hotel: Hotel) -> (bonus: u32)
        requires
            self.wf(),
        ensures
            bonus == crate::hotel_data::majority_bonus_spec(hotel, self.chain_size_spec(hotel)),
            bonus <= 12000,
    {
        let chain_length = self.get_hotel_chain_size(hotel);
        hotel.get_majority_holder_bonus(chain_length)
    }

    /// The current minority holder bonus of chain `hotel`.
    pub fn get_hotel_minority_stock_bonus(&self, hotel: Hotel) -> (bonus: u32)
        requires
            self.wf(),
        ensures
            bonus == crate::hotel_data::minority_bonus_spec(hotel, self.chain_size_spec(hotel)),
            bonus <= 6000,
    {
        let chain_length = self.get_hotel_chain_size(hotel);
        hotel.get_minority_holder_bonus(chain_length)
    }

    /// Relabel every cell of the defunct chain to the surviving chain,
    /// leaving all other cells untouched.
    pub fn replace_defunct_hotel_with_surviving_hotel(
        &mut self,
        defunct_hotel: Hotel,
        surviving_hotel: Hotel,
    )
        requires
            old(self).wf(),
        ensures
            final(self).wf(),
            forall|r: int, c: int|
                0 <= r < 9 && 0 <= c < 12 ==> #[trigger] final(self).cell(r, c) == if old(
                    self,
                ).cell(r, c) == Cell::Hotel(defunct_hotel) {
                    Cell::Hotel(surviving_hotel)
                } else {
                    old(self).cell(r, c)
                },
    {
        let ghost orig = *old(self);
        for row in 0..9
            invariant
                self.wf(),
                forall|r: int, c: int|
                    0 <= r < row && 0 <= c < 12 ==> #[trigger] self.cell(r, c) == if orig.cell(
                        r,
                        c,
                    ) == Cell::Hotel(defunct_hotel) {
                        Cell::Hotel(surviving_hotel)
                    } else {
                        orig.cell(r, c)
                    },
                forall|r: int, c: int|
                    row <= r < 9 && 0 <= c < 12 ==> #[trigger] self.cell(r, c) == orig.cell(r, c),
        {
            for col in 0..12
                invariant
                    self.wf(),
                    row < 9,
                    forall|r: int, c: int|
                        0 <= r < row && 0 <= c < 12 ==> #[trigger] self.cell(r, c) == if orig.cell(
                            r,
                            c,
                        ) == Cell::Hotel(defunct_hotel) {
                            Cell::Hotel(surviving_hotel)
                        } else {
                            orig.cell(r, c)
                        },
                    forall|c: int|
                        0 <= c < col ==> #[trigger] self.cell(row as int, c) == if orig.cell(
                            row as int,
                            c,
                        ) == Cell::Hotel(defunct_hotel) {
                            Cell::Hotel(surviving_hotel)
                        } else {
                            orig.cell(row as int, c)
                        },
                    forall|c: int|
                        col <= c < 12 ==> #[trigger] self.cell(row as int, c) == orig.cell(
                            row as int,
                            c,
                        ),
                    forall|r: int, c: int|
                        row < r < 9 && 0 <= c < 12 ==> #[trigger] self.cell(r, c) == orig.cell(
                            r,
                            c,
                        ),
            {
                if self.cells[row][col] == Cell::Hotel(defunct_hotel) {
                    self.set_cell(row, col, Cell::Hotel(surviving_hotel));
                }
            }
        }
    }
}

/// A linear membership scan over a hotel list.
pub(crate) fn contains_hotel(hotels: &Vec<Hotel>, h: Hotel) -> (b: bool)
    ensures
        b == hotels@.contains(h),
{
    for i in 0..hotels.len()
        invariant
            forall|k: int| 0 <= k < i ==> hotels@[k] != h,
    {
        if hotels[i] == h {
            return true;
        }
    }
    false
}

/// At a new-chain conflict the acceptable resolutions are exactly the
/// inactive chains, in the same order.
proof fn lemma_acceptable_seq_newchain(b: GameBoard, r: int, c: int, n: int)
    requires
        b.cell(r, c) == Cell::Conflict(CellConflictType::NewChain),
    ensures
        b.acceptable_seq_upto(r, c, n) == b.inactive_hotels_seq_upto(n),
    decreases n,
{
    if n > 0 {
        lemma_acceptable_seq_newchain(b, r, c, n - 1);
    }
}

/// The number of adjacent chains among the first `n` is nonnegative.
pub(crate) proof fn lemma_adjacent_count_upto_pos(b: GameBoard, r: int, c: int, n: int)
    requires
        n >= 0,
    ensures
        0 <= b.adjacent_count_upto(r, c, n) <= n,
    decreases n,
{
    if n > 0 {
        lemma_adjacent_count_upto_pos(b, r, c, n - 1);
    }
}

/// Every chain is either active or inactive and never both: the active and
/// inactive chain lists partition the full fixed chain set.
pub proof fn lemma_active_inactive_partition(
    b: GameBoard,
    active: Seq<Hotel>,
    inactive: Seq<Hotel>,
)
    requires
        forall|h: Hotel| active.contains(h) <==> b.chain_active(h),
        forall|h: Hotel| inactive.contains(h) <==> !b.chain_active(h),
    ensures
        forall|h: Hotel| active.contains(h) || inactive.contains(h),
        forall|h: Hotel| !(active.contains(h) && inactive.contains(h)),
{
}

} // verus!
