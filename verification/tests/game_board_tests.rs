use acquire::game_board::{
    Cell, CellConflictType, CellNotPlayableReason, GameBoard, PlaceTileResult, BOARD_COLS,
    BOARD_ROWS, SAFE_CHAIN_SIZE,
};
use acquire::hotel_data::Hotel;

#[test]
fn test_new_game_board() {
    let game_board = GameBoard::new();
    assert_eq!(game_board.cells.len(), BOARD_ROWS);
    assert_eq!(game_board.cells[0].len(), BOARD_COLS);
}

#[test]
fn test_get_cell_state() {
    let game_board = GameBoard::new();
    assert_eq!(game_board.get_cell_state(0, 0), Cell::Empty);
}

#[test]
fn test_get_hotel_at() {
    let mut game_board = GameBoard::new();
    game_board.cells[0][0] = Cell::Hotel(Hotel::Luxor);
    assert_eq!(game_board.get_hotel_at(0, 0), Some(Hotel::Luxor));
}

#[test]
fn test_get_active_hotels() {
    let mut game_board = GameBoard::new();
    game_board.cells[0][0] = Cell::Hotel(Hotel::Luxor);
    game_board.cells[0][1] = Cell::Hotel(Hotel::Luxor);

    game_board.cells[2][0] = Cell::Hotel(Hotel::Tower);
    game_board.cells[2][1] = Cell::Hotel(Hotel::Tower);

    let active_hotels = game_board.get_active_hotels();
    let inactive_hotels = game_board.get_inactive_hotels();

    for hotel in vec![Hotel::Luxor, Hotel::Tower] {
        assert_eq!(active_hotels.contains(&hotel), true);
        assert_eq!(inactive_hotels.contains(&hotel), false);
    }

    for hotel in vec![
        Hotel::American,
        Hotel::Worldwide,
        Hotel::Festival,
        Hotel::Imperial,
        Hotel::Continental,
    ] {
        assert_eq!(active_hotels.contains(&hotel), false);
        assert_eq!(inactive_hotels.contains(&hotel), true);
    }
}

#[test]
fn test_would_cell_start_new_chain() {
    let mut game_board = GameBoard::new();
    game_board.cells[0][0] = Cell::Independent;
    assert_eq!(game_board.would_cell_start_new_chain(0, 1), true);
}

#[test]
fn test_get_hotel_chain_size() {
    let mut game_board = GameBoard::new();

    for i in 0..2 {
        game_board.cells[0][i] = Cell::Hotel(Hotel::Luxor);
    }

    for i in 0..4 {
        game_board.cells[2][i] = Cell::Hotel(Hotel::Tower);
    }

    for i in 0..8 {
        game_board.cells[4][i] = Cell::Hotel(Hotel::American);
    }

    assert_eq!(game_board.get_hotel_chain_size(Hotel::Luxor), 2);
    assert_eq!(game_board.get_hotel_chain_size(Hotel::Tower), 4);
    assert_eq!(game_board.get_hotel_chain_size(Hotel::American), 8);
}

#[test]
fn test_get_adjacent_hotels() {
    let mut game_board = GameBoard::new();
    game_board.cells[0][1] = Cell::Hotel(Hotel::Tower);
    game_board.cells[1][0] = Cell::Hotel(Hotel::Festival);
    game_board.cells[1][2] = Cell::Hotel(Hotel::Luxor);

    {
        let adjacent_hotels = game_board.get_adjacent_hotels(0, 0);
        for hotel in vec![Hotel::Tower, Hotel::Festival] {
            assert_eq!(adjacent_hotels.contains(&hotel), true);
        }
    }

    {
        let adjacent_hotels = game_board.get_adjacent_hotels(1, 1);
        for hotel in vec![Hotel::Tower, Hotel::Festival, Hotel::Luxor] {
            assert_eq!(adjacent_hotels.contains(&hotel), true);
        }
    }
}

#[test]
fn test_is_cell_playable() {
    let mut game_board = GameBoard::new();
    assert_eq!(
        game_board.is_cell_playable(BOARD_ROWS, BOARD_COLS),
        Err(CellNotPlayableReason::CellIsOffBoard)
    );
    assert_eq!(game_board.is_cell_playable(0, 0), Ok(true));

    game_board.cells[0][0] = Cell::Hotel(Hotel::Luxor);
    assert_eq!(
        game_board.is_cell_playable(0, 0),
        Err(CellNotPlayableReason::CellIsNotEmpty)
    );

    game_board.cells[0][0] = Cell::Conflict(CellConflictType::NewChain);
    assert_eq!(
        game_board.is_cell_playable(1, 1),
        Err(CellNotPlayableReason::ConflictOnBoard)
    );

    // test if placing this tile would create an 8th chain
    let mut game_board = GameBoard::new();
    for (i, hotel) in [
        Hotel::Luxor,
        Hotel::Tower,
        Hotel::Festival,
        Hotel::American,
        Hotel::Imperial,
    ]
    .iter()
    .enumerate()
    {
        for j in 0..2 {
            game_board.cells[i * 2][j] = Cell::Hotel(*hotel);
        }
    }

    for (i, hotel) in [Hotel::Worldwide, Hotel::Continental].iter().enumerate() {
        for j in 0..2 {
            game_board.cells[i * 2][j + 3] = Cell::Hotel(*hotel);
        }
    }

    game_board.cells[BOARD_ROWS - 1][BOARD_COLS - 1] = Cell::Independent;
    assert_eq!(
        game_board.is_cell_playable(BOARD_ROWS - 2, BOARD_COLS - 1),
        Err(CellNotPlayableReason::HotelsAreAllActive)
    );

    // test if placing a tile would merge safe hotel chains
    let mut game_board = GameBoard::new();
    for i in 0..SAFE_CHAIN_SIZE {
        game_board.cells[0][i] = Cell::Hotel(Hotel::Luxor);
    }

    for i in 0..SAFE_CHAIN_SIZE {
        game_board.cells[2][i] = Cell::Hotel(Hotel::Tower);
    }

    assert_eq!(
        game_board.is_cell_playable(1, 0),
        Err(CellNotPlayableReason::AdjacentHotelsAreSafe)
    );
}

#[test]
fn test_place_tile() {
    // basic
    let mut game_board = GameBoard::new();
    assert_eq!(game_board.place_tile(0, 0), PlaceTileResult::Success);
    assert_eq!(game_board.cells[0][0], Cell::Independent);

    // placing a tile would create a new chain
    assert_eq!(
        game_board.place_tile(0, 1),
        PlaceTileResult::ConflictCreated(CellConflictType::NewChain),
    );

    // placing a tile would start a merger
    let mut game_board = GameBoard::new();

    for (i, hotel) in [Hotel::Worldwide, Hotel::Continental].iter().enumerate() {
        for j in 0..2 {
            game_board.cells[i * 2][j] = Cell::Hotel(*hotel);
        }
    }

    for (i, hotel) in [Hotel::Imperial].iter().enumerate() {
        for j in 0..2 {
            game_board.cells[i * 2 + 1][j + 2] = Cell::Hotel(*hotel);
        }
    }
    assert_eq!(
        game_board.place_tile(1, 1),
        PlaceTileResult::ConflictCreated(CellConflictType::Merge(2))
    );

    // placing a tile causes a chain to grow
    let mut game_board = GameBoard::new();
    game_board.cells[0][0] = Cell::Hotel(Hotel::Luxor);
    game_board.cells[0][2] = Cell::Independent;
    game_board.cells[1][2] = Cell::Independent;
    assert_eq!(game_board.place_tile(0, 1), PlaceTileResult::Success);
    assert_eq!(game_board.get_hotel_chain_size(Hotel::Luxor), 4);
}

#[test]
fn active_and_inactive_chains_partition_the_chain_set() {
    let mut game_board = GameBoard::new();
    game_board.cells[3][3] = Cell::Hotel(Hotel::Festival);
    game_board.cells[3][4] = Cell::Hotel(Hotel::Festival);
    game_board.cells[6][0] = Cell::Hotel(Hotel::Continental);

    let active = game_board.get_active_hotels();
    let inactive = game_board.get_inactive_hotels();
    assert_eq!(active.len() + inactive.len(), 7);
    for h in active.iter() {
        assert!(!inactive.contains(h));
    }
    for h in inactive.iter() {
        assert!(!active.contains(h));
    }
}

#[test]
fn lone_tile_stays_independent() {
    // a tile adjacent to no chain and no independent cell simply sits there
    let mut game_board = GameBoard::new();
    assert_eq!(game_board.place_tile(4, 6), PlaceTileResult::Success);
    assert_eq!(game_board.get_cell_state(4, 6), Cell::Independent);
    for h in [
        Hotel::Tower,
        Hotel::Luxor,
        Hotel::American,
        Hotel::Worldwide,
        Hotel::Festival,
        Hotel::Imperial,
        Hotel::Continental,
    ] {
        assert_eq!(game_board.get_hotel_chain_size(h), 0);
    }
}

#[test]
fn connecting_two_safe_chains_is_not_playable() {
    let mut game_board = GameBoard::new();
    for i in 0..SAFE_CHAIN_SIZE {
        game_board.cells[0][i] = Cell::Hotel(Hotel::Imperial);
        game_board.cells[2][i] = Cell::Hotel(Hotel::Worldwide);
    }
    assert_eq!(
        game_board.place_tile(1, 3),
        PlaceTileResult::CellNotPlayable(CellNotPlayableReason::AdjacentHotelsAreSafe)
    );
    // the rejected placement left the cell untouched
    assert_eq!(game_board.get_cell_state(1, 3), Cell::Empty);
}

#[test]
fn conflict_cell_is_unique_after_placement() {
    let mut game_board = GameBoard::new();
    game_board.cells[0][0] = Cell::Independent;
    assert_eq!(
        game_board.place_tile(0, 1),
        PlaceTileResult::ConflictCreated(CellConflictType::NewChain)
    );
    // the placed cell is not empty, and it holds the only conflict
    let mut conflicts = 0;
    for r in 0..BOARD_ROWS {
        for c in 0..BOARD_COLS {
            if let Cell::Conflict(_) = game_board.cells[r][c] {
                conflicts += 1;
                assert_eq!((r, c), (0, 1));
            }
        }
    }
    assert_eq!(conflicts, 1);
}

#[test]
fn resolve_conflict_rejects_unacceptable_chains() {
    let mut game_board = GameBoard::new();
    game_board.cells[0][0] = Cell::Hotel(Hotel::Luxor);
    game_board.cells[0][1] = Cell::Conflict(CellConflictType::NewChain);

    // an active chain cannot resolve a new-chain conflict
    assert!(game_board.resolve_conflict(Hotel::Luxor).is_err());
    assert_eq!(
        game_board.get_cell_state(0, 1),
        Cell::Conflict(CellConflictType::NewChain)
    );

    // an inactive chain does, and no conflict remains
    assert!(game_board.resolve_conflict(Hotel::Festival).is_ok());
    assert_eq!(game_board.get_conflict_on_board(), None);
    assert_eq!(game_board.get_cell_state(0, 1), Cell::Hotel(Hotel::Festival));
}

#[test]
fn resolving_a_merger_absorbs_the_region() {
    let mut game_board = GameBoard::new();
    game_board.cells[0][0] = Cell::Hotel(Hotel::Tower);
    game_board.cells[0][1] = Cell::Hotel(Hotel::Tower);
    game_board.cells[0][2] = Cell::Hotel(Hotel::Tower);
    game_board.cells[2][0] = Cell::Hotel(Hotel::Luxor);
    game_board.cells[2][1] = Cell::Hotel(Hotel::Luxor);
    game_board.cells[1][0] = Cell::Conflict(CellConflictType::Merge(1));

    // only the largest adjacent chain may survive
    let acceptable = game_board.acceptable_conflict_resolutions();
    assert_eq!(acceptable, vec![Hotel::Tower]);
    assert!(game_board.resolve_conflict(Hotel::Luxor).is_err());
    assert!(game_board.resolve_conflict(Hotel::Tower).is_ok());
    assert_eq!(game_board.get_conflict_on_board(), None);
    assert_eq!(game_board.get_hotel_chain_size(Hotel::Tower), 6);
    assert_eq!(game_board.get_hotel_chain_size(Hotel::Luxor), 0);
}

#[test]
fn replace_defunct_relabels_every_cell() {
    let mut game_board = GameBoard::new();
    game_board.cells[5][5] = Cell::Hotel(Hotel::American);
    game_board.cells[5][6] = Cell::Hotel(Hotel::American);
    game_board.cells[8][11] = Cell::Hotel(Hotel::Tower);
    game_board.replace_defunct_hotel_with_surviving_hotel(Hotel::American, Hotel::Tower);
    assert_eq!(game_board.get_hotel_chain_size(Hotel::American), 0);
    assert_eq!(game_board.get_hotel_chain_size(Hotel::Tower), 3);
}
