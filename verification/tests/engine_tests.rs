use std::sync::Arc;

use acquire::acquire_game::{AcquireError, AcquireGame, AcquireGameCallback, InvalidMoveReason};
use acquire::acquire_game_state::AcquireGameState;
use acquire::acquire_request::AcquireRequest;
use acquire::acquire_response::{AcquireResponse, BuyStockChoice, DisposeStockChoice};
use acquire::game_board::{Cell, CellConflictType};
use acquire::game_states::buy_stock_state::BuyStockState;
use acquire::game_states::dispose_stock_state::DisposeStockState;
use acquire::game_states::merge_state::MergerState;
use acquire::hotel_data::Hotel;

struct NullLog;

impl AcquireGameCallback for NullLog {
    fn send_message(&self, _message: &str) {}
}

fn fresh_game(players: usize) -> AcquireGame<NullLog> {
    AcquireGame::new(players, Arc::new(NullLog))
}

#[test]
fn fresh_two_player_game_has_full_bank_and_even_cash() {
    let game = fresh_game(2);
    for h in [
        Hotel::Tower,
        Hotel::Luxor,
        Hotel::American,
        Hotel::Worldwide,
        Hotel::Festival,
        Hotel::Imperial,
        Hotel::Continental,
    ] {
        assert_eq!(game.get_current_stock_availability(h), 25);
    }
    assert_eq!(game.players.len(), 2);
    for p in game.players.iter() {
        assert_eq!(p.cash, 6000);
        for h in 0..7 {
            assert_eq!(p.stocks[h], 0);
        }
        assert!(p.tiles.is_empty());
    }
    assert_eq!(game.get_number_of_tiles_left(), 108);
    assert_eq!(*game.get_current_request(), AcquireRequest::PlayStartingTile(0));
}

#[test]
fn random_draw_takes_a_tile_out_of_the_pool() {
    let mut game = fresh_game(2);
    let tile = game.take_random_tile();
    assert!(tile.row < 9 && tile.col < 12);
    assert_eq!(game.get_number_of_tiles_left(), 107);
    assert!(!game.available_tiles.contains(&tile));
}

#[test]
fn queries_are_idempotent_between_responses() {
    let mut game = fresh_game(3);
    game.board.cells[0][0] = Cell::Hotel(Hotel::Luxor);
    game.board.cells[0][1] = Cell::Hotel(Hotel::Luxor);
    assert_eq!(
        game.get_current_stock_price(Hotel::Luxor),
        game.get_current_stock_price(Hotel::Luxor)
    );
    assert_eq!(
        game.get_current_stock_availability(Hotel::Luxor),
        game.get_current_stock_availability(Hotel::Luxor)
    );
    assert_eq!(
        game.get_number_of_tiles_left(),
        game.get_number_of_tiles_left()
    );
    assert_eq!(*game.get_current_request(), *game.get_current_request());
    assert_eq!(
        game.get_acceptable_hotels_for_response(),
        game.get_acceptable_hotels_for_response()
    );
    assert_eq!(game.board.get_active_hotels(), game.board.get_active_hotels());
    assert_eq!(
        game.board.get_inactive_hotels(),
        game.board.get_inactive_hotels()
    );
    assert_eq!(
        game.board.get_adjacent_hotels(0, 2),
        game.board.get_adjacent_hotels(0, 2)
    );
}

#[test]
fn mismatched_response_is_a_protocol_error() {
    let mut game = fresh_game(2);
    let res = game.handle_player_response(AcquireResponse::BuyStock(BuyStockChoice::Pass));
    assert_eq!(res, Err(AcquireError::ProtocolMismatch));
    assert_eq!(*game.get_current_request(), AcquireRequest::PlayStartingTile(0));
}

fn buying_game() -> AcquireGame<NullLog> {
    // a game hand-steered into the buying phase with one active chain
    let mut game = fresh_game(2);
    game.board.cells[0][0] = Cell::Hotel(Hotel::Luxor);
    game.board.cells[0][1] = Cell::Hotel(Hotel::Luxor);
    game.current_request = AcquireRequest::BuyStock(0);
    game.current_state = AcquireGameState::BuyStock(BuyStockState::new(0));
    game
}

#[test]
fn buying_unavailable_stock_is_rejected_without_mutation() {
    let mut game = buying_game();
    game.available_stock[Hotel::Luxor.index()] = 0;
    let res = game.handle_player_response(AcquireResponse::BuyStock(BuyStockChoice::Buy(
        Hotel::Luxor,
    )));
    assert_eq!(
        res,
        Err(AcquireError::InvalidMove(InvalidMoveReason::NoStockAvailable))
    );
    assert_eq!(game.players[0].cash, 6000);
    assert_eq!(game.players[0].stocks[Hotel::Luxor.index()], 0);
    assert_eq!(*game.get_current_request(), AcquireRequest::BuyStock(0));
}

#[test]
fn buying_beyond_ones_cash_is_rejected() {
    let mut game = buying_game();
    game.players[0].cash = 100;
    let res = game.handle_player_response(AcquireResponse::BuyStock(BuyStockChoice::Buy(
        Hotel::Luxor,
    )));
    assert_eq!(
        res,
        Err(AcquireError::InvalidMove(InvalidMoveReason::NotEnoughCash))
    );
    assert_eq!(game.players[0].cash, 100);
}

#[test]
fn buying_into_an_inactive_chain_is_rejected() {
    let mut game = buying_game();
    let res = game.handle_player_response(AcquireResponse::BuyStock(BuyStockChoice::Buy(
        Hotel::Imperial,
    )));
    assert_eq!(
        res,
        Err(AcquireError::InvalidMove(InvalidMoveReason::ChainNotActive))
    );
}

#[test]
fn a_buy_moves_one_share_and_its_price() {
    let mut game = buying_game();
    let price = game.get_current_stock_price(Hotel::Luxor);
    assert_eq!(price, 200);
    let res = game.handle_player_response(AcquireResponse::BuyStock(BuyStockChoice::Buy(
        Hotel::Luxor,
    )));
    assert_eq!(res, Ok(()));
    assert_eq!(game.players[0].cash, 6000 - 200);
    assert_eq!(game.players[0].stocks[Hotel::Luxor.index()], 1);
    assert_eq!(game.get_current_stock_availability(Hotel::Luxor), 24);
    // two buys remain, so the same player is still asked
    assert_eq!(*game.get_current_request(), AcquireRequest::BuyStock(0));
}

#[test]
fn the_third_buy_ends_the_turn() {
    let mut game = buying_game();
    for _ in 0..3 {
        let res = game.handle_player_response(AcquireResponse::BuyStock(BuyStockChoice::Buy(
            Hotel::Luxor,
        )));
        assert_eq!(res, Ok(()));
    }
    assert_eq!(game.players[0].stocks[Hotel::Luxor.index()], 3);
    assert_eq!(game.players[0].cash, 6000 - 600);
    // the turn passed to the next seat, and a fresh tile was dealt
    assert_eq!(*game.get_current_request(), AcquireRequest::PlayTile(1));
    assert_eq!(game.players[0].tiles.len(), 1);
    assert_eq!(game.get_number_of_tiles_left(), 107);
}

fn merger_game() -> AcquireGame<NullLog> {
    // a hand-built merger: Imperial (size 2, price $400) merges into Tower,
    // the conflict cell standing between them, both players holding 3
    // Imperial shares
    let mut game = fresh_game(2);
    game.board.cells[0][0] = Cell::Hotel(Hotel::Imperial);
    game.board.cells[0][1] = Cell::Hotel(Hotel::Imperial);
    game.board.cells[2][0] = Cell::Hotel(Hotel::Tower);
    game.board.cells[2][1] = Cell::Hotel(Hotel::Tower);
    game.board.cells[1][0] = Cell::Conflict(CellConflictType::Merge(1));
    game.players[0].stocks[Hotel::Imperial.index()] = 3;
    game.players[1].stocks[Hotel::Imperial.index()] = 3;
    game.available_stock[Hotel::Imperial.index()] = 19;
    game.current_state = AcquireGameState::Merger(MergerState {
        merge_maker: 0,
        surviving_hotel: Hotel::Tower,
        hotel_to_merge: None,
        defunct_hotels_remaining: vec![Hotel::Imperial],
    });
    game.current_request = AcquireRequest::ChooseDefunctChainToResolve(0);
    game
}

#[test]
fn tied_majority_folds_the_minority_bonus() {
    let mut game = merger_game();
    assert_eq!(game.get_acceptable_hotels_for_response(), vec![Hotel::Imperial]);
    let res = game.handle_player_response(AcquireResponse::DefunctChainToResolve(
        Hotel::Imperial,
    ));
    assert_eq!(res, Ok(()));
    // majority bonus $4000 plus folded minority bonus $2000, split evenly
    assert_eq!(game.players[0].cash, 6000 + 3000);
    assert_eq!(game.players[1].cash, 6000 + 3000);
    // the defunct chain now awaits disposal
    assert_eq!(*game.get_current_request(), AcquireRequest::DisposeStock);
    match &game.current_state {
        AcquireGameState::DisposeStock(ds) => {
            assert_eq!(ds.defunct_chain, Hotel::Imperial);
            assert_eq!(ds.surviving_chain, Hotel::Tower);
            assert_eq!(ds.remaining_shares_per_player, vec![3, 3]);
        }
        _ => panic!("expected a disposal phase"),
    }
}

#[test]
fn choosing_a_chain_outside_the_tie_is_rejected() {
    let mut game = merger_game();
    let res = game.handle_player_response(AcquireResponse::DefunctChainToResolve(
        Hotel::Festival,
    ));
    assert_eq!(
        res,
        Err(AcquireError::InvalidMove(InvalidMoveReason::ChainNotAcceptable))
    );
    assert_eq!(
        *game.get_current_request(),
        AcquireRequest::ChooseDefunctChainToResolve(0)
    );
}

fn disposal_game() -> AcquireGame<NullLog> {
    // a disposal in progress: Imperial went defunct into Tower; player 0
    // holds 5 shares to dispose of, player 1 holds 2
    let mut game = fresh_game(2);
    game.board.cells[0][0] = Cell::Hotel(Hotel::Imperial);
    game.board.cells[0][1] = Cell::Hotel(Hotel::Imperial);
    game.board.cells[2][0] = Cell::Hotel(Hotel::Tower);
    game.board.cells[2][1] = Cell::Hotel(Hotel::Tower);
    game.board.cells[1][0] = Cell::Conflict(CellConflictType::Merge(1));
    game.players[0].stocks[Hotel::Imperial.index()] = 5;
    game.players[1].stocks[Hotel::Imperial.index()] = 2;
    game.available_stock[Hotel::Imperial.index()] = 18;
    game.current_state = AcquireGameState::DisposeStock(DisposeStockState::new(
        0,
        Hotel::Tower,
        Hotel::Imperial,
        vec![5, 2],
    ));
    game.current_request = AcquireRequest::DisposeStock;
    game
}

#[test]
fn keeping_shares_reduces_only_the_quota() {
    let mut game = disposal_game();
    let res = game.handle_player_response(AcquireResponse::DisposeStock(
        0,
        DisposeStockChoice::Keep,
    ));
    assert_eq!(res, Ok(()));
    match &game.current_state {
        AcquireGameState::DisposeStock(ds) => {
            assert_eq!(ds.remaining_shares_per_player, vec![4, 2]);
        }
        _ => panic!("expected the disposal to continue"),
    }
    assert_eq!(game.players[0].stocks[Hotel::Imperial.index()], 5);
    assert_eq!(game.players[0].cash, 6000);
}

#[test]
fn selling_all_pays_the_current_price_per_share() {
    let mut game = disposal_game();
    let res = game.handle_player_response(AcquireResponse::DisposeStock(
        0,
        DisposeStockChoice::SellAll,
    ));
    assert_eq!(res, Ok(()));
    // Imperial at size 2 sells for $400 a share
    assert_eq!(game.players[0].cash, 6000 + 5 * 400);
    assert_eq!(game.players[0].stocks[Hotel::Imperial.index()], 0);
    assert_eq!(game.get_current_stock_availability(Hotel::Imperial), 23);
    match &game.current_state {
        AcquireGameState::DisposeStock(ds) => {
            assert_eq!(ds.remaining_shares_per_player, vec![0, 2]);
        }
        _ => panic!("expected the disposal to continue"),
    }
}

#[test]
fn trading_all_swaps_two_defunct_shares_for_one_survivor_share() {
    let mut game = disposal_game();
    let res = game.handle_player_response(AcquireResponse::DisposeStock(
        0,
        DisposeStockChoice::TradeAll,
    ));
    assert_eq!(res, Ok(()));
    // five shares round down to four traded, leaving one to handle
    assert_eq!(game.players[0].stocks[Hotel::Imperial.index()], 1);
    assert_eq!(game.players[0].stocks[Hotel::Tower.index()], 2);
    assert_eq!(game.get_current_stock_availability(Hotel::Tower), 23);
    assert_eq!(game.get_current_stock_availability(Hotel::Imperial), 22);
    match &game.current_state {
        AcquireGameState::DisposeStock(ds) => {
            assert_eq!(ds.remaining_shares_per_player, vec![1, 2]);
        }
        _ => panic!("expected the disposal to continue"),
    }
}

#[test]
fn a_lone_share_cannot_be_traded() {
    let mut game = disposal_game();
    // Trade needs two shares: player 1 holds two, trades once, then retries
    let res = game.handle_player_response(AcquireResponse::DisposeStock(
        1,
        DisposeStockChoice::Trade,
    ));
    assert_eq!(res, Ok(()));
    let res = game.handle_player_response(AcquireResponse::DisposeStock(
        1,
        DisposeStockChoice::Trade,
    ));
    assert_eq!(
        res,
        Err(AcquireError::InvalidMove(InvalidMoveReason::NoSharesRemaining))
    );
}

#[test]
fn trading_an_odd_remainder_of_one_is_rejected() {
    let mut game = disposal_game();
    // player 0 keeps down to a single share, then tries to trade it all
    for _ in 0..4 {
        let res = game.handle_player_response(AcquireResponse::DisposeStock(
            0,
            DisposeStockChoice::Keep,
        ));
        assert_eq!(res, Ok(()));
    }
    let res = game.handle_player_response(AcquireResponse::DisposeStock(
        0,
        DisposeStockChoice::TradeAll,
    ));
    assert_eq!(
        res,
        Err(AcquireError::InvalidMove(InvalidMoveReason::NothingToTrade))
    );
    let res = game.handle_player_response(AcquireResponse::DisposeStock(
        0,
        DisposeStockChoice::Trade,
    ));
    assert_eq!(
        res,
        Err(AcquireError::InvalidMove(InvalidMoveReason::OverDisposal))
    );
}

#[test]
fn disposal_choices_account_for_every_share() {
    // Keep + Sell + Trade totals match the holding the disposal began with
    let mut game = disposal_game();
    assert_eq!(
        game.handle_player_response(AcquireResponse::DisposeStock(0, DisposeStockChoice::Keep)),
        Ok(())
    );
    assert_eq!(
        game.handle_player_response(AcquireResponse::DisposeStock(0, DisposeStockChoice::Sell)),
        Ok(())
    );
    assert_eq!(
        game.handle_player_response(AcquireResponse::DisposeStock(0, DisposeStockChoice::Trade)),
        Ok(())
    );
    assert_eq!(
        game.handle_player_response(AcquireResponse::DisposeStock(0, DisposeStockChoice::Sell)),
        Ok(())
    );
    // 1 kept + 2 sold + 2 traded = the 5 shares player 0 started with
    match &game.current_state {
        AcquireGameState::DisposeStock(ds) => {
            assert_eq!(ds.remaining_shares_per_player, vec![0, 2]);
        }
        _ => panic!("expected the disposal to continue"),
    }
    assert_eq!(game.players[0].stocks[Hotel::Imperial.index()], 1);
    assert_eq!(game.players[0].stocks[Hotel::Tower.index()], 1);
    assert_eq!(game.players[0].cash, 6000 + 2 * 400);
}

#[test]
fn completing_disposal_absorbs_the_defunct_chain() {
    let mut game = disposal_game();
    assert_eq!(
        game.handle_player_response(AcquireResponse::DisposeStock(
            0,
            DisposeStockChoice::SellAll
        )),
        Ok(())
    );
    assert_eq!(
        game.handle_player_response(AcquireResponse::DisposeStock(
            1,
            DisposeStockChoice::SellAll
        )),
        Ok(())
    );
    // the merger is complete: no Imperial cell is left, no conflict remains,
    // and the maker is buying stock
    assert_eq!(game.board.get_hotel_chain_size(Hotel::Imperial), 0);
    assert_eq!(game.board.get_conflict_on_board(), None);
    assert_eq!(game.board.get_hotel_chain_size(Hotel::Tower), 5);
    assert_eq!(*game.get_current_request(), AcquireRequest::BuyStock(0));
}

#[test]
fn starting_tiles_advance_the_race_and_deal_hands() {
    let mut game = fresh_game(2);
    assert_eq!(
        game.handle_player_response(AcquireResponse::StartingTile),
        Ok(())
    );
    assert_eq!(*game.get_current_request(), AcquireRequest::PlayStartingTile(1));
    assert_eq!(game.get_number_of_tiles_left(), 107);
    assert_eq!(
        game.handle_player_response(AcquireResponse::StartingTile),
        Ok(())
    );
    // the race is over: six tiles each, and somebody opens
    assert_eq!(game.get_number_of_tiles_left(), 108 - 2 - 12);
    assert_eq!(game.players[0].tiles.len(), 6);
    assert_eq!(game.players[1].tiles.len(), 6);
    match *game.get_current_request() {
        AcquireRequest::PlayTile(p) => assert!(p < 2),
        _ => panic!("expected the first turn to open"),
    }
}

#[test]
fn founding_a_new_chain_grants_the_bonus_share() {
    let mut game = fresh_game(2);
    game.board.cells[0][0] = Cell::Independent;
    game.board.cells[0][1] = Cell::Conflict(CellConflictType::NewChain);
    game.current_state = AcquireGameState::PlayTile(0);
    game.current_request = AcquireRequest::ChooseNewChain(0);

    // an active chain is not acceptable
    game.board.cells[5][5] = Cell::Hotel(Hotel::Luxor);
    let res = game.handle_player_response(AcquireResponse::NewChain(Hotel::Luxor));
    assert_eq!(
        res,
        Err(AcquireError::InvalidMove(InvalidMoveReason::ChainAlreadyActive))
    );

    let res = game.handle_player_response(AcquireResponse::NewChain(Hotel::Festival));
    assert_eq!(res, Ok(()));
    assert_eq!(game.board.get_hotel_chain_size(Hotel::Festival), 2);
    assert_eq!(game.players[0].stocks[Hotel::Festival.index()], 1);
    assert_eq!(game.get_current_stock_availability(Hotel::Festival), 24);
    assert_eq!(*game.get_current_request(), AcquireRequest::BuyStock(0));
}
