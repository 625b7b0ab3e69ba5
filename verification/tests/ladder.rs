use open_amm::instructions::create_pool::PoolAccounts;
use open_amm::ladder::numerator_at;
use open_amm::state::{OpenAmmPool, PlacedOrder, PoolType};
use open_amm::util::{NewOrder, OrderbookClient, Side};

fn accounts(base_decimals: u8, quote_decimals: u8) -> PoolAccounts {
    PoolAccounts {
        base_mint: [1; 32],
        quote_mint: [2; 32],
        market: [3; 32],
        open_orders: [4; 32],
        base_vault: [5; 32],
        quote_vault: [6; 32],
        lp_mint: [7; 32],
        bump: 254,
        base_decimals,
        quote_decimals,
    }
}

fn client(pool_type: PoolType, base_lot: u64, quote_lot: u64) -> OrderbookClient {
    OrderbookClient {
        base_lot_size: base_lot,
        quote_lot_size: quote_lot,
        native_base_total: 0,
        native_quote_total: 0,
        native_base_free: 0,
        native_quote_free: 0,
        orders: vec![],
        best_bid_price: None,
        best_ask_price: None,
        pool_bump: 254,
        pool_type,
    }
}

fn placed(limit_price: u64, base_qty: u64, quote: u64, id: u64) -> PlacedOrder {
    PlacedOrder {
        limit_price,
        base_qty,
        max_native_quote_qty_including_fees: quote,
        client_order_id: id,
    }
}

fn request(side: Side, p: &PlacedOrder) -> NewOrder {
    NewOrder {
        side,
        limit_price: p.limit_price,
        max_coin_qty: p.base_qty,
        max_native_pc_qty_including_fees: p.max_native_quote_qty_including_fees,
        client_order_id: p.client_order_id,
    }
}

fn xyk_asks() -> [PlacedOrder; 10] {
    [
        placed(20, 8000, 1601281, 1),
        placed(20, 14988, 3006912, 2),
        placed(20, 29931, 6031919, 3),
        placed(20, 49735, 10103718, 4),
        placed(20, 123716, 25579033, 5),
        placed(21, 293208, 63288335, 6),
        placed(23, 474020, 111032167, 7),
        placed(26, 675479, 180052162, 8),
        placed(32, 833091, 266743947, 9),
        placed(40, 937228, 381062778, 10),
    ]
}

fn xyk_bids() -> [PlacedOrder; 9] {
    [
        placed(19, 8006, 1600000, 11),
        placed(19, 15034, 2997600, 12),
        placed(19, 30159, 5986207, 13),
        placed(19, 50518, 9947080, 14),
        placed(19, 127895, 24743363, 15),
        placed(18, 316441, 58641772, 16),
        placed(17, 555160, 94804198, 17),
        placed(14, 900260, 135095983, 18),
        placed(12, 1333719, 166618379, 19),
    ]
}

#[test]
fn level_sizes() {
    let sizes: Vec<u64> = (0..10).map(numerator_at).collect();
    assert_eq!(sizes, vec![8, 15, 30, 50, 125, 300, 500, 750, 1000, 1250]);
}

#[test]
fn xyk_ladder_exact_values() {
    let mut pool = OpenAmmPool::new(PoolType::XYK, 1_000_000_000, 2_000_000_000, &accounts(6, 6));
    let orders = client(PoolType::XYK, 100, 10).place_new_orders(&mut pool).unwrap();
    assert_eq!(pool.placed_asks, xyk_asks());
    assert_eq!(pool.placed_bids, xyk_bids());
    assert_eq!(pool.client_order_id, 20);
    assert_eq!(pool.base_amount, 1_000_000_000);
    assert_eq!(pool.quote_amount, 2_000_000_000);
    let mut expected: Vec<NewOrder> = xyk_asks().iter().map(|p| request(Side::Ask, p)).collect();
    expected.extend(xyk_bids().iter().map(|p| request(Side::Bid, p)));
    assert_eq!(orders, expected);
}

#[test]
fn xyk_ladder_is_the_same_by_either_name() {
    let mut a = OpenAmmPool::new(PoolType::XYK, 1_000_000_000, 2_000_000_000, &accounts(6, 6));
    let mut b = a;
    let c = client(PoolType::XYK, 100, 10);
    assert_eq!(c.place_new_orders(&mut a), c.place_xyk_orders(&mut b));
    assert_eq!(a.placed_asks, b.placed_asks);
    assert_eq!(a.placed_bids, b.placed_bids);
}

#[test]
fn ladder_prices_rise_on_the_ask_side_and_fall_on_the_bid_side() {
    for pool_type in [PoolType::XYK, PoolType::STABLE] {
        let mut pool =
            OpenAmmPool::new(pool_type, 1_000_000_000_000, 1_000_000_000_000, &accounts(6, 6));
        client(pool_type, 1_000_000, 1).place_new_orders(&mut pool).unwrap();
        for i in 1..10 {
            assert!(pool.placed_asks[i].base_qty != 0);
            assert!(pool.placed_asks[i].limit_price > pool.placed_asks[i - 1].limit_price);
            assert!(pool.placed_asks[i].client_order_id > pool.placed_asks[i - 1].client_order_id);
        }
        for i in 1..9 {
            assert!(pool.placed_bids[i].base_qty != 0);
            assert!(pool.placed_bids[i].limit_price < pool.placed_bids[i - 1].limit_price);
            assert!(pool.placed_bids[i].client_order_id > pool.placed_bids[i - 1].client_order_id);
        }
        assert!(pool.placed_bids[0].limit_price < pool.placed_asks[0].limit_price);
    }
}

#[test]
fn each_level_is_a_share_of_what_the_walk_has_left() {
    let mut pool = OpenAmmPool::new(PoolType::XYK, 20_000, 20_000, &accounts(6, 6));
    client(PoolType::XYK, 1, 1).place_xyk_orders(&mut pool).unwrap();
    // 8 parts in ten thousand of 20_000, then 15 of the 19_984 left, and so on
    let sizes: Vec<u64> = pool.placed_asks.iter().map(|p| p.base_qty).collect();
    assert_eq!(sizes, vec![16, 29, 59, 99, 247, 586, 948, 1351, 1666, 1874]);
    let quotes: Vec<u64> =
        pool.placed_asks.iter().map(|p| p.max_native_quote_qty_including_fees).collect();
    assert_eq!(quotes, vec![16, 29, 59, 100, 255, 632, 1109, 1799, 2665, 3807]);
}

#[test]
fn coarse_prices_do_not_always_rise() {
    let mut pool = OpenAmmPool::new(PoolType::XYK, 413_968, 6_626, &accounts(6, 6));
    client(PoolType::XYK, 1000, 1).place_xyk_orders(&mut pool).unwrap();
    assert_eq!(pool.placed_asks[0], PlacedOrder::default());
    assert_eq!(pool.placed_asks[1], PlacedOrder::default());
    assert_eq!(pool.placed_asks[2], placed(15, 1, 19, 1));
    assert_eq!(pool.placed_asks[3], placed(16, 2, 33, 2));
    assert_eq!(pool.placed_asks[4], placed(16, 5, 84, 3));
    assert_eq!(pool.placed_bids[2], placed(15, 1, 19, 9));
    assert_eq!(pool.placed_bids[3], placed(15, 2, 32, 10));
    // and on a pool priced at one quote lot a base lot, all but the last ask cost the same
    let mut pool = OpenAmmPool::new(PoolType::XYK, 20_000, 20_000, &accounts(6, 6));
    client(PoolType::XYK, 1, 1).place_xyk_orders(&mut pool).unwrap();
    let prices: Vec<u64> = pool.placed_asks.iter().map(|p| p.limit_price).collect();
    assert_eq!(prices, vec![1, 1, 1, 1, 1, 1, 1, 1, 1, 2]);
}

#[test]
fn prices_keep_clear_of_the_book() {
    let mut pool = OpenAmmPool::new(PoolType::XYK, 1_000_000_000, 2_000_000_000, &accounts(6, 6));
    pool.client_order_id = 7;
    let mut c = client(PoolType::XYK, 100, 10);
    c.best_bid_price = Some(25);
    c.best_ask_price = Some(15);
    c.place_new_orders(&mut pool).unwrap();
    let ask_prices: Vec<u64> = pool.placed_asks.iter().map(|p| p.limit_price).collect();
    assert_eq!(ask_prices, vec![26, 26, 26, 26, 26, 26, 26, 26, 32, 40]);
    let bid_prices: Vec<u64> = pool.placed_bids.iter().map(|p| p.limit_price).collect();
    assert_eq!(bid_prices, vec![14, 14, 14, 14, 14, 14, 14, 14, 12]);
    assert_eq!(pool.placed_asks[0].client_order_id, 7);
    assert_eq!(pool.placed_bids[8].client_order_id, 25);
    assert_eq!(pool.client_order_id, 26);
}

#[test]
fn a_best_ask_of_one_moves_no_bid() {
    let mut pool = OpenAmmPool::new(PoolType::XYK, 1_000_000_000, 2_000_000_000, &accounts(6, 6));
    let mut c = client(PoolType::XYK, 100, 10);
    c.best_ask_price = Some(1);
    c.place_new_orders(&mut pool).unwrap();
    assert_eq!(pool.placed_bids, xyk_bids());
}

#[test]
fn stableswap_ladder_exact_values() {
    let mut pool =
        OpenAmmPool::new(PoolType::STABLE, 1_000_000_000, 100_000_000_000, &accounts(6, 8));
    let orders = client(PoolType::STABLE, 1000, 100).place_new_orders(&mut pool).unwrap();
    let asks = [
        placed(1000, 800, 80005819, 1),
        placed(1000, 1498, 149922232, 2),
        placed(1001, 2993, 299517021, 3),
        placed(1001, 4973, 498058309, 4),
        placed(1003, 12371, 1240879354, 5),
        placed(1007, 29320, 2952132751, 6),
        placed(1014, 47402, 4806821330, 7),
        placed(1025, 67547, 6926872935, 8),
        placed(1042, 83309, 8683149711, 9),
        placed(1066, 93722, 9994780119, 10),
    ];
    let bids = [
        placed(999, 800, 80000000, 11),
        placed(999, 1499, 149880000, 12),
        placed(998, 2995, 299310360, 13),
        placed(998, 4980, 497354048, 14),
        placed(996, 12408, 1237168194, 15),
        placed(992, 29521, 2932088621, 16),
        placed(985, 48068, 4740209938, 17),
        placed(974, 69268, 6754799162, 18),
        placed(959, 86831, 8330918967, 19),
    ];
    assert_eq!(pool.placed_asks, asks);
    assert_eq!(pool.placed_bids, bids);
    assert_eq!(pool.client_order_id, 20);
    assert_eq!(orders.len(), 19);
    assert_eq!(orders[0], request(Side::Ask, &asks[0]));
    assert_eq!(orders[18], request(Side::Bid, &bids[8]));
    let mut again =
        OpenAmmPool::new(PoolType::STABLE, 1_000_000_000, 100_000_000_000, &accounts(6, 8));
    assert_eq!(
        client(PoolType::STABLE, 1000, 100).place_stableswap_orders(&mut again),
        Some(orders)
    );
}

#[test]
fn a_pool_with_an_empty_side_places_nothing() {
    for pool_type in [PoolType::XYK, PoolType::STABLE] {
        for (base, quote) in [(0u64, 5_000_000u64), (5_000_000, 0), (0, 0)] {
            let mut pool = OpenAmmPool::new(pool_type, base, quote, &accounts(6, 6));
            pool.placed_asks[3] = placed(9, 9, 9, 9);
            pool.placed_bids[8] = placed(9, 9, 9, 9);
            let before = pool;
            let orders = client(pool_type, 10, 10).place_new_orders(&mut pool).unwrap();
            assert!(orders.is_empty());
            assert_eq!(pool.placed_asks, [PlacedOrder::default(); 10]);
            assert_eq!(pool.placed_bids, [PlacedOrder::default(); 9]);
            assert_eq!(pool.client_order_id, before.client_order_id);
        }
    }
}

#[test]
fn a_ladder_is_written_over_what_was_recorded() {
    let mut pool = OpenAmmPool::new(PoolType::XYK, 413_968, 6_626, &accounts(6, 6));
    pool.placed_asks[0] = placed(5, 6, 7, 8);
    pool.placed_asks[9] = placed(5, 6, 7, 8);
    pool.placed_bids[1] = placed(5, 6, 7, 8);
    client(PoolType::XYK, 1000, 1).place_xyk_orders(&mut pool).unwrap();
    // levels 0 and 1 are left out on both sides: their slots are empty
    assert_eq!(pool.placed_asks[0], PlacedOrder::default());
    assert_eq!(pool.placed_bids[1], PlacedOrder::default());
    assert_eq!(pool.placed_asks[2], placed(15, 1, 19, 1));
    assert_eq!(pool.placed_asks[9], placed(32, 38, 1261, 8));
}

#[test]
fn a_ladder_that_cannot_be_walked_leaves_the_pool_alone() {
    // no lot size to count in
    let mut pool = OpenAmmPool::new(PoolType::XYK, 1_000_000_000, 2_000_000_000, &accounts(6, 6));
    let before = pool;
    assert_eq!(client(PoolType::XYK, 0, 10).place_new_orders(&mut pool), None);
    assert_eq!(pool.placed_asks, before.placed_asks);
    assert_eq!(pool.client_order_id, before.client_order_id);
    assert_eq!(client(PoolType::XYK, 10, 0).place_new_orders(&mut pool), None);
    // the counter is used up
    pool.client_order_id = u64::MAX - 3;
    assert_eq!(client(PoolType::XYK, 100, 10).place_new_orders(&mut pool), None);
    assert_eq!(pool.client_order_id, u64::MAX - 3);
    assert_eq!(pool.placed_asks, before.placed_asks);
    // the other side of the product does not fit
    let mut pool = OpenAmmPool::new(PoolType::XYK, 10_000, u64::MAX, &accounts(6, 6));
    assert_eq!(client(PoolType::XYK, 1, 1).place_new_orders(&mut pool), None);
    // decimals too far apart
    let mut pool = OpenAmmPool::new(PoolType::STABLE, 1_000_000, 1_000_000, &accounts(0, 30));
    assert_eq!(client(PoolType::STABLE, 1, 1).place_new_orders(&mut pool), None);
    // reserves that do not fit at equal decimals
    let mut pool = OpenAmmPool::new(PoolType::STABLE, u64::MAX, 1_000_000, &accounts(6, 9));
    assert_eq!(client(PoolType::STABLE, 1, 1).place_new_orders(&mut pool), None);
}

#[test]
fn a_level_that_the_curve_cannot_size_is_left_out() {
    // A lopsided pool: the largest ask takes the curve too far.
    let mut pool =
        OpenAmmPool::new(PoolType::STABLE, 1_000_000_000_000, 10_000_000_000, &accounts(6, 6));
    let orders = client(PoolType::STABLE, 1_000_000, 1).place_new_orders(&mut pool).unwrap();
    assert_eq!(orders.len(), 18);
    assert_eq!(pool.placed_asks[9], PlacedOrder::default());
    for i in 0..9 {
        assert!(pool.placed_asks[i].base_qty != 0);
        assert!(pool.placed_bids[i].base_qty != 0);
    }
    assert_eq!(pool.client_order_id, 19);
    for o in orders.iter() {
        assert!(o.limit_price != 0 && o.max_coin_qty != 0 && o.max_native_pc_qty_including_fees != 0);
    }
}
