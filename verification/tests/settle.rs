use open_amm::instructions::create_pool::PoolAccounts;
use open_amm::state::{OpenAmmPool, PlacedOrder, PoolType};
use open_amm::util::{
    gcd, get_orderbook, same_fraction, CancelOrder, CurrentOrder, OpenOrderSlot, OrderbookClient,
    RestingOrder, Side, VenueSnapshot,
};

fn accounts() -> PoolAccounts {
    PoolAccounts {
        base_mint: [1; 32],
        quote_mint: [2; 32],
        market: [3; 32],
        open_orders: [4; 32],
        base_vault: [5; 32],
        quote_vault: [6; 32],
        lp_mint: [7; 32],
        bump: 254,
        base_decimals: 6,
        quote_decimals: 6,
    }
}

fn client(orders: Vec<CurrentOrder>) -> OrderbookClient {
    OrderbookClient {
        base_lot_size: 100,
        quote_lot_size: 10,
        native_base_total: 0,
        native_quote_total: 0,
        native_base_free: 0,
        native_quote_free: 0,
        orders,
        best_bid_price: None,
        best_ask_price: None,
        pool_bump: 254,
        pool_type: PoolType::XYK,
    }
}

fn placed(limit_price: u64, base_qty: u64, quote: u64, id: u64) -> PlacedOrder {
    PlacedOrder {
        limit_price,
        base_qty,
        max_native_quote_qty_including_fees: quote,
        client_order_id: id,
    }
}

fn live(side: Side, id: u64, price: u64, qty: u64) -> CurrentOrder {
    CurrentOrder { side, order_id: 1000 + id as u128, client_order_id: id, limit_price: price, base_qty: qty }
}

fn pool() -> OpenAmmPool {
    let mut pool = OpenAmmPool::new(PoolType::XYK, 1_000_000, 2_000_000, &accounts());
    pool.client_order_id = 8;
    pool.placed_asks[0] = placed(20, 50, 100_000, 5);
    pool.placed_asks[3] = placed(21, 40, 100_000, 6);
    pool.placed_bids[0] = placed(19, 10, 190_000, 7);
    pool
}

#[test]
fn fills_are_settled() {
    let mut pool = pool();
    let orders = vec![live(Side::Ask, 5, 20, 30), live(Side::Bid, 7, 19, 4)];
    let cancels = client(orders).cancel_all_and_settle(&mut pool).unwrap();
    // ask 5: 20 lots filled, 2000 base for 4000 quote
    // ask 6: gone, 4000 base for 8400 quote; it was the last ask: pause
    // bid 7: 6 lots filled, 600 base for 1140 quote
    assert_eq!(pool.base_amount, 1_000_000 - 2000 - 4000 + 600);
    assert_eq!(pool.quote_amount, 2_000_000 + 4000 + 8400 - 1140);
    assert_eq!(pool.cumulative_quote_volume, 12_400);
    assert_eq!(pool.cumulative_base_volume, 600);
    // no fill is large enough to keep a unit back
    assert_eq!(pool.refund_quote_amount, 0);
    assert_eq!(pool.refund_base_amount, 0);
    assert!(!pool.mm_active);
    assert_eq!(pool.client_order_id, 8);
    assert_eq!(pool.placed_asks, [PlacedOrder::default(); 10]);
    assert_eq!(pool.placed_bids, [PlacedOrder::default(); 9]);
    assert_eq!(
        cancels,
        vec![
            CancelOrder { side: Side::Ask, order_id: 1005 },
            CancelOrder { side: Side::Bid, order_id: 1007 }
        ]
    );
}

#[test]
fn an_order_gone_pauses_the_pool_only_if_it_was_the_last() {
    let mut p = pool();
    let orders = vec![live(Side::Ask, 6, 21, 40), live(Side::Bid, 7, 19, 10)];
    client(orders).cancel_all_and_settle(&mut p).unwrap();
    assert!(p.mm_active);
    assert_eq!(p.base_amount, 1_000_000 - 5000);
    assert_eq!(p.quote_amount, 2_000_000 + 10_000 - 1);
    assert_eq!(p.refund_quote_amount, 1);

    let mut p = pool();
    let orders = vec![live(Side::Ask, 5, 20, 50), live(Side::Ask, 6, 21, 40)];
    client(orders).cancel_all_and_settle(&mut p).unwrap();
    assert!(!p.mm_active);
    assert_eq!(p.base_amount, 1_000_000 + 1000);
    assert_eq!(p.quote_amount, 2_000_000 - 1900);
    assert_eq!(p.cumulative_base_volume, 1000);
}

#[test]
fn nothing_filled_changes_nothing_but_the_slots() {
    let mut p = pool();
    let before = p;
    let orders = vec![
        live(Side::Bid, 7, 19, 10),
        live(Side::Ask, 6, 21, 40),
        live(Side::Ask, 5, 20, 50),
        live(Side::Ask, 99, 20, 50),
    ];
    let cancels = client(orders).cancel_all_and_settle(&mut p).unwrap();
    assert_eq!(cancels.len(), 4);
    assert_eq!(p.base_amount, before.base_amount);
    assert_eq!(p.quote_amount, before.quote_amount);
    assert_eq!(p.refund_base_amount, 0);
    assert_eq!(p.refund_quote_amount, 0);
    assert!(p.mm_active);
    assert_eq!(p.placed_asks, [PlacedOrder::default(); 10]);
}

#[test]
fn an_order_is_matched_by_side_and_identifier() {
    let mut p = pool();
    // a bid under the identifier of ask 5 does not stand for it
    let orders = vec![live(Side::Bid, 5, 20, 50), live(Side::Ask, 6, 21, 40), live(Side::Bid, 7, 19, 10)];
    client(orders).cancel_all_and_settle(&mut p).unwrap();
    assert_eq!(p.base_amount, 1_000_000 - 5000);
    // the first match counts
    let mut p = pool();
    let orders = vec![
        live(Side::Ask, 5, 20, 10),
        live(Side::Ask, 5, 20, 50),
        live(Side::Ask, 6, 21, 40),
        live(Side::Bid, 7, 19, 10),
    ];
    client(orders).cancel_all_and_settle(&mut p).unwrap();
    assert_eq!(p.base_amount, 1_000_000 - 4000);
}

#[test]
fn a_bid_counts_with_what_its_quote_limit_allows() {
    let mut p = pool();
    p.placed_bids[0] = placed(19, 10, 95, 7);
    let orders = vec![live(Side::Ask, 5, 20, 50), live(Side::Ask, 6, 21, 40)];
    client(orders).cancel_all_and_settle(&mut p).unwrap();
    // 95 / 19 = 5 lots
    assert_eq!(p.base_amount, 1_000_000 + 500);
    assert_eq!(p.quote_amount, 2_000_000 - 950);
}

#[test]
fn the_skim_is_kept_back_and_owed() {
    let mut p = OpenAmmPool::new(PoolType::XYK, 10_000_000_000, 10_000_000_000, &accounts());
    p.refund_quote_amount = 11;
    p.refund_base_amount = 22;
    p.placed_asks[0] = placed(1000, 700_000, 1, 1);
    p.placed_asks[1] = placed(1000, 900_000, 1, 2);
    p.placed_bids[0] = placed(10, 2_000_000, u64::MAX, 3);
    p.placed_bids[2] = placed(10, 999_999, u64::MAX, 4);
    client(vec![]).cancel_all_and_settle(&mut p).unwrap();
    // asks: 70_000_000 and 90_000_000 base for 7_000_000_000 and 9_000_000_000 quote
    let moved_quote = 16_000_000_000u64;
    let kept_quote = moved_quote - 700_000 - 900_000;
    // bids: 200_000_000 and 99_999_900 base for 200_000_000 and 99_999_900 quote
    let moved_base = 299_999_900u64;
    let kept_base = moved_base - 20_000 - 9_999;
    assert_eq!(p.quote_amount, 10_000_000_000 + kept_quote - 299_999_900);
    assert_eq!(p.base_amount, 10_000_000_000 - 160_000_000 + kept_base);
    assert_eq!(p.refund_quote_amount, 11 + 1_600_000);
    assert_eq!(p.refund_base_amount, 22 + 29_999);
    assert_eq!(p.cumulative_quote_volume, moved_quote);
    assert_eq!(p.cumulative_base_volume, moved_base);
    // what the reserves kept and what is owed make up what moved
    assert_eq!(kept_quote + 1_600_000, moved_quote);
    assert_eq!(kept_base + 29_999, moved_base);
}

#[test]
fn what_is_kept_back_is_what_is_owed() {
    let mut p = OpenAmmPool::new(PoolType::XYK, 1_000_000, 1_000_000, &accounts());
    // two fills of 15_000 quote: each keeps one unit back
    p.placed_asks[0] = placed(10, 150, 1, 1);
    p.placed_asks[1] = placed(10, 150, 1, 2);
    // two fills of 15_000 base: each keeps one unit back
    p.placed_bids[0] = placed(10, 150, u64::MAX, 3);
    p.placed_bids[1] = placed(10, 150, u64::MAX, 4);
    client(vec![]).cancel_all_and_settle(&mut p).unwrap();
    assert_eq!(p.cumulative_quote_volume, 30_000);
    assert_eq!(p.cumulative_base_volume, 30_000);
    assert_eq!(p.quote_amount, 1_000_000 + 29_998 - 30_000);
    assert_eq!(p.base_amount, 1_000_000 - 30_000 + 29_998);
    assert_eq!(p.refund_quote_amount, 2);
    assert_eq!(p.refund_base_amount, 2);
    // two fills of 5_000 quote: neither keeps anything back, and nothing is owed
    let mut p = OpenAmmPool::new(PoolType::XYK, 1_000_000, 1_000_000, &accounts());
    p.placed_asks[0] = placed(10, 50, 1, 1);
    p.placed_asks[1] = placed(10, 50, 1, 2);
    client(vec![]).cancel_all_and_settle(&mut p).unwrap();
    assert_eq!(p.quote_amount, 1_000_000 + 10_000);
    assert_eq!(p.refund_quote_amount, 0);
    assert_eq!(p.cumulative_quote_volume, 10_000);
}

#[test]
fn a_settlement_that_does_not_fit_leaves_the_pool_alone() {
    // more sold than the pool has
    let mut p = pool();
    p.base_amount = 100;
    let before = p;
    assert_eq!(client(vec![]).cancel_all_and_settle(&mut p), None);
    assert_eq!(p.base_amount, before.base_amount);
    assert_eq!(p.placed_asks, before.placed_asks);
    assert_eq!(p.placed_bids, before.placed_bids);
    assert!(p.mm_active);
    // more left on the book than was placed
    let mut p = pool();
    assert_eq!(client(vec![live(Side::Ask, 5, 20, 51)]).cancel_all_and_settle(&mut p), None);
    assert_eq!(p.placed_asks, pool().placed_asks);
    // a bid without price
    let mut p = pool();
    p.placed_bids[0].limit_price = 0;
    assert_eq!(client(vec![]).cancel_all_and_settle(&mut p), None);
    // a value that does not fit
    let mut p = pool();
    p.placed_asks[0] = placed(u64::MAX, 50, 1, 5);
    assert_eq!(client(vec![]).cancel_all_and_settle(&mut p), None);
    // lots without size
    let mut p = pool();
    let mut c = client(vec![]);
    c.base_lot_size = 0;
    assert_eq!(c.cancel_all_and_settle(&mut p), None);
    // a refund that does not fit
    let mut p = pool();
    p.refund_quote_amount = u64::MAX;
    assert_eq!(client(vec![]).cancel_all_and_settle(&mut p), None);
    assert_eq!(p.refund_quote_amount, u64::MAX);
    assert_eq!(p.quote_amount, 2_000_000);
}

fn slot(id: u64, side: Side, resting: Option<(u64, u64)>) -> OpenOrderSlot {
    OpenOrderSlot {
        client_order_id: id,
        order_id: 7000 + id as u128,
        side,
        resting: resting.map(|(limit_price, base_qty)| RestingOrder {
            limit_price,
            base_qty,
            client_order_id: id,
        }),
    }
}

fn venue(slots: Vec<OpenOrderSlot>) -> VenueSnapshot {
    VenueSnapshot {
        base_lot_size: 100,
        quote_lot_size: 10,
        native_base_total: 1,
        native_quote_total: 2,
        native_base_free: 3,
        native_quote_free: 4,
        slots,
        best_bid_price: Some(5),
        best_ask_price: None,
    }
}

#[test]
fn the_view_of_the_venue_holds_recent_resting_orders() {
    let v = venue(vec![
        slot(79, Side::Ask, Some((20, 1))),
        slot(80, Side::Bid, Some((19, 2))),
        slot(90, Side::Ask, None),
        slot(99, Side::Ask, Some((21, 3))),
    ]);
    let c = get_orderbook(100, 9, PoolType::STABLE, &v).unwrap();
    assert_eq!(
        c.orders,
        vec![
            CurrentOrder { side: Side::Bid, order_id: 7080, client_order_id: 80, limit_price: 19, base_qty: 2 },
            CurrentOrder { side: Side::Ask, order_id: 7099, client_order_id: 99, limit_price: 21, base_qty: 3 },
        ]
    );
    assert_eq!((c.base_lot_size, c.quote_lot_size), (100, 10));
    assert_eq!((c.native_base_total, c.native_quote_total), (1, 2));
    assert_eq!((c.native_base_free, c.native_quote_free), (3, 4));
    assert_eq!((c.best_bid_price, c.best_ask_price), (Some(5), None));
    assert_eq!(c.pool_bump, 9);
    assert_eq!(c.pool_type, PoolType::STABLE);
    // a young pool looks at every order
    let c = get_orderbook(20, 9, PoolType::XYK, &v).unwrap();
    assert_eq!(c.orders.len(), 3);
    let c = get_orderbook(21, 9, PoolType::XYK, &v).unwrap();
    assert_eq!(c.orders.len(), 3);
}

#[test]
fn a_slot_without_identifier_is_no_view() {
    let v = venue(vec![slot(5, Side::Ask, Some((20, 1))), slot(0, Side::Bid, None)]);
    assert!(get_orderbook(6, 9, PoolType::XYK, &v).is_none());
}

#[test]
fn fractions() {
    assert_eq!(gcd(12, 18), 6);
    assert_eq!(gcd(18, 12), 6);
    assert_eq!(gcd(7, 0), 7);
    assert_eq!(gcd(0, 7), 7);
    assert_eq!(gcd(0, 0), 0);
    assert_eq!(same_fraction((1, 2), (50, 100)), Some(true));
    assert_eq!(same_fraction((2, 1), (50, 100)), Some(false));
    assert_eq!(same_fraction((0, 3), (0, 9)), Some(true));
    assert_eq!(same_fraction((3, 0), (9, 0)), Some(true));
    assert_eq!(same_fraction((0, 3), (3, 0)), Some(false));
    assert_eq!(same_fraction((0, 0), (1, 2)), None);
    assert_eq!(same_fraction((1, 2), (0, 0)), None);
    assert_eq!(same_fraction((u64::MAX, u64::MAX), (1, 1)), Some(true));
}
