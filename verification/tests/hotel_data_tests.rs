use acquire::hotel_data::Hotel;
use acquire::text::u32_to_string;
use acquire::tile::Tile;

#[test]
fn test_count() {
    assert_eq!(Hotel::count(), 7);
}

#[test]
fn test_get_hotel_row_advantage() {
    assert_eq!(Hotel::Tower.get_hotel_row_advantage(), 0);
    assert_eq!(Hotel::Luxor.get_hotel_row_advantage(), 0);
    assert_eq!(Hotel::American.get_hotel_row_advantage(), 1);
    assert_eq!(Hotel::Worldwide.get_hotel_row_advantage(), 1);
    assert_eq!(Hotel::Festival.get_hotel_row_advantage(), 1);
    assert_eq!(Hotel::Imperial.get_hotel_row_advantage(), 2);
    assert_eq!(Hotel::Continental.get_hotel_row_advantage(), 2);
}

#[test]
fn test_get_row_from_chain_length() {
    assert_eq!(Hotel::Tower.get_row_from_chain_length(2), 0);
    assert_eq!(Hotel::American.get_row_from_chain_length(5), 4);
    assert_eq!(Hotel::Imperial.get_row_from_chain_length(11), 7);
}

#[test]
fn stock_value_follows_the_pricing_table() {
    // base bracket plus row advantage, all times 100, plus the fixed offset
    assert_eq!(Hotel::Tower.get_stock_value(2), 200);
    assert_eq!(Hotel::Tower.get_stock_value(3), 300);
    assert_eq!(Hotel::Imperial.get_stock_value(2), 400);
    assert_eq!(Hotel::American.get_stock_value(6), 700);
    assert_eq!(Hotel::Continental.get_stock_value(41), 1200);
}

#[test]
fn bonuses_are_fixed_multiples_of_the_price() {
    assert_eq!(Hotel::Imperial.get_majority_holder_bonus(2), 4000);
    assert_eq!(Hotel::Imperial.get_minority_holder_bonus(2), 2000);
    assert_eq!(Hotel::Tower.get_majority_holder_bonus(11), 7000);
    assert_eq!(Hotel::Tower.get_minority_holder_bonus(11), 3500);
}

#[test]
fn pricing_is_monotone_in_chain_size() {
    for h in [
        Hotel::Tower,
        Hotel::Luxor,
        Hotel::American,
        Hotel::Worldwide,
        Hotel::Festival,
        Hotel::Imperial,
        Hotel::Continental,
    ] {
        let mut last_price = 0;
        let mut last_major = 0;
        let mut last_minor = 0;
        for len in 0..50 {
            let price = h.get_stock_value(len);
            let major = h.get_majority_holder_bonus(len);
            let minor = h.get_minority_holder_bonus(len);
            assert!(price >= last_price);
            assert!(major >= last_major);
            assert!(minor >= last_minor);
            last_price = price;
            last_major = major;
            last_minor = minor;
        }
    }
}

#[test]
fn hotel_iter_walks_the_seven_chains_in_order() {
    let mut it = Hotel::iter();
    let expected = [
        Hotel::Tower,
        Hotel::Luxor,
        Hotel::American,
        Hotel::Worldwide,
        Hotel::Festival,
        Hotel::Imperial,
        Hotel::Continental,
    ];
    for h in expected {
        assert_eq!(it.next(), Some(h));
    }
    assert_eq!(it.next(), None);
}

#[test]
fn decimal_rendering_is_exact() {
    assert_eq!(u32_to_string(0), "0");
    assert_eq!(u32_to_string(7), "7");
    assert_eq!(u32_to_string(25), "25");
    assert_eq!(u32_to_string(6000), "6000");
    assert_eq!(u32_to_string(4294967295), "4294967295");
}

#[test]
fn tile_labels_use_column_number_and_row_letter() {
    assert_eq!(Tile { row: 0, col: 0 }.label(), "1-A");
    assert_eq!(Tile { row: 8, col: 11 }.label(), "12-I");
    assert_eq!(Tile { row: 2, col: 9 }.label(), "10-C");
}

#[test]
fn tile_order_is_column_major() {
    let a = Tile { row: 5, col: 2 };
    let b = Tile { row: 0, col: 3 };
    let c = Tile { row: 6, col: 2 };
    assert!(a.precedes(&b));
    assert!(a.precedes(&c));
    assert!(!b.precedes(&a));
}
