use open_amm::errors::{Failure, OpenAmmErrorCode};
use open_amm::instructions::create_pool::{
    check_market, check_new_pool, first_xyk_shares, integer_sqrt, same_address, MarketIdentity,
    NewPool, PoolAccounts,
};
use open_amm::instructions::deposit::{deposit_amounts, mul_div, xyk_shares, Deposited};
use open_amm::instructions::withdraw::withdraw_amounts;
use open_amm::instructions::{create_pool, deposit, refresh_orders, restart_market_making, withdraw};
use open_amm::state::{OpenAmmPool, PlacedOrder, PoolType};
use open_amm::util::{
    get_orderbook, NewOrder, OpenOrderSlot, OrderbookClient, RestingOrder, VenueSnapshot,
};

fn accounts() -> PoolAccounts {
    PoolAccounts {
        base_mint: [1; 32],
        quote_mint: [2; 32],
        market: [3; 32],
        open_orders: [4; 32],
        base_vault: [5; 32],
        quote_vault: [6; 32],
        lp_mint: [7; 32],
        bump: 254,
        base_decimals: 6,
        quote_decimals: 6,
    }
}

fn market() -> MarketIdentity {
    MarketIdentity { open_orders: [4; 32], coin_mint: [1; 32], pc_mint: [2; 32] }
}

fn venue(slots: Vec<OpenOrderSlot>) -> VenueSnapshot {
    VenueSnapshot {
        base_lot_size: 100,
        quote_lot_size: 10,
        native_base_total: 0,
        native_quote_total: 0,
        native_base_free: 0,
        native_quote_free: 0,
        slots,
        best_bid_price: None,
        best_ask_price: None,
    }
}

/// The venue with every order of `orders` resting unfilled.
fn resting(orders: &[NewOrder]) -> VenueSnapshot {
    venue(
        orders
            .iter()
            .map(|o| OpenOrderSlot {
                client_order_id: o.client_order_id,
                order_id: o.client_order_id as u128,
                side: o.side,
                resting: Some(RestingOrder {
                    limit_price: o.limit_price,
                    base_qty: o.max_coin_qty,
                    client_order_id: o.client_order_id,
                }),
            })
            .collect(),
    )
}

fn view(pool: &OpenAmmPool, venue: &VenueSnapshot) -> OrderbookClient {
    get_orderbook(pool.client_order_id, pool.bump, pool.pool_type, venue).unwrap()
}

fn made(pool_type: PoolType, base: u64, quote: u64) -> NewPool {
    create_pool::handler(pool_type, base, quote, &accounts(), &market(), &venue(vec![])).unwrap()
}

#[test]
fn a_pool_is_made() {
    let new = made(PoolType::XYK, 1_000_000_000, 1_000_000_000);
    assert_eq!(new.lp_minted, 999_999_999);
    assert_eq!(new.orders.len(), 19);
    let pool = new.pool;
    assert_eq!(pool.base_amount, 1_000_000_000);
    assert_eq!(pool.quote_amount, 1_000_000_000);
    assert_eq!(pool.client_order_id, 20);
    assert!(pool.mm_active);
    assert_eq!(pool.pool_type, PoolType::XYK);
    assert_eq!((pool.base_decimals, pool.quote_decimals, pool.bump), (6, 6, 254));
    assert_eq!(pool.market, [3; 32]);
    assert_eq!(pool.lp_mint, [7; 32]);
    assert_eq!(
        (pool.cumulative_base_volume, pool.cumulative_quote_volume, pool.refund_base_amount, pool.refund_quote_amount),
        (0, 0, 0, 0)
    );
    assert_eq!(pool.placed_asks[0].client_order_id, 1);
    assert_eq!(pool.placed_bids[8].client_order_id, 19);

    let new = made(PoolType::STABLE, 1_000_000_000, 1_000_000_000);
    assert_eq!(new.lp_minted, 2_000_000_000);
    assert_eq!(new.pool.pool_type, PoolType::STABLE);
}

#[test]
fn a_pool_is_refused() {
    let refused = |accounts: PoolAccounts, market: MarketIdentity| {
        create_pool::handler(PoolType::XYK, 1_000_000, 1_000_000, &accounts, &market, &venue(vec![]))
            .err()
    };
    let mut a = accounts();
    a.quote_mint = a.base_mint;
    assert_eq!(refused(a, market()), Some(Failure::Rejected(OpenAmmErrorCode::InvalidPair)));
    let mut m = market();
    m.open_orders = [9; 32];
    assert_eq!(
        refused(accounts(), m),
        Some(Failure::Rejected(OpenAmmErrorCode::WrongOpenOrdersAccount))
    );
    let mut m = market();
    m.coin_mint = [9; 32];
    assert_eq!(
        refused(accounts(), m),
        Some(Failure::Rejected(OpenAmmErrorCode::MarketBaseMintMismatch))
    );
    let mut m = market();
    m.pc_mint = [9; 32];
    assert_eq!(
        refused(accounts(), m),
        Some(Failure::Rejected(OpenAmmErrorCode::MarketQuoteMintMismatch))
    );
    // the first condition that fails is the one reported
    let mut a = accounts();
    a.quote_mint = a.base_mint;
    let mut m = market();
    m.open_orders = [9; 32];
    m.coin_mint = [9; 32];
    assert_eq!(check_new_pool(&a, &m), Err(OpenAmmErrorCode::WrongOpenOrdersAccount));
    assert_eq!(check_new_pool(&accounts(), &market()), Ok(()));
}

#[test]
fn a_pool_cannot_be_made_of_too_little() {
    let r = create_pool::handler(PoolType::XYK, 30, 30, &accounts(), &market(), &venue(vec![]));
    assert_eq!(r.err(), Some(Failure::Arithmetic));
    let mut v = venue(vec![]);
    v.base_lot_size = 0;
    let r = create_pool::handler(PoolType::XYK, 1_000_000, 1_000_000, &accounts(), &market(), &v);
    assert_eq!(r.err(), Some(Failure::Arithmetic));
}

#[test]
fn the_market_of_a_pool_is_checked() {
    let pool = made(PoolType::XYK, 1_000_000, 1_000_000).pool;
    assert_eq!(check_market(&pool, &[3; 32], &[4; 32]), Ok(()));
    assert_eq!(check_market(&pool, &[9; 32], &[4; 32]), Err(OpenAmmErrorCode::WrongMarketAccount));
    assert_eq!(
        check_market(&pool, &[3; 32], &[9; 32]),
        Err(OpenAmmErrorCode::WrongOpenOrdersAccount)
    );
    assert_eq!(check_market(&pool, &[9; 32], &[9; 32]), Err(OpenAmmErrorCode::WrongMarketAccount));
    let mut other = [3u8; 32];
    other[31] = 4;
    assert!(!same_address(&other, &[3; 32]));
    assert!(same_address(&[3; 32], &[3; 32]));
}

#[test]
fn a_deposit_in_the_ratio_of_the_reserves_mints_its_exact_share() {
    let new = made(PoolType::XYK, 1_000_000_000, 1_000_000_000);
    let supply = new.lp_minted;
    let mut pool = new.pool;
    let v = resting(&new.orders);
    let out =
        {
        let c = view(&pool, &v);
        deposit::handler(&mut pool, &c, supply, 100_000_000, 100_000_000, 0, 0).unwrap()
    };
    assert_eq!(
        out.deposited,
        Some(Deposited {
            deposit_base_amount: 100_000_000,
            deposit_quote_amount: 100_000_000,
            paid_in: true,
            lp_minted: 99_999_999,
        })
    );
    // the share of the supply that the deposit is of the reserves
    assert_eq!(99_999_999, (supply as u128 * 100_000_000 / 1_000_000_000) as u64);
    assert_eq!(out.cancels.len(), 19);
    assert_eq!(out.orders.len(), 19);
    assert_eq!(pool.base_amount, 1_100_000_000);
    assert_eq!(pool.quote_amount, 1_100_000_000);
    assert_eq!(pool.client_order_id, 39);
    assert_eq!(pool.placed_asks[0].client_order_id, 20);
    assert_eq!(pool.placed_asks[0].base_qty, 8800);
}

#[test]
fn depositing_and_withdrawing_at_once_returns_the_deposit() {
    let new = made(PoolType::XYK, 1_000_000_000, 1_000_000_000);
    let mut pool = new.pool;
    let v = resting(&new.orders);
    let out =
        {
        let c = view(&pool, &v);
        deposit::handler(&mut pool, &c, new.lp_minted, 100_000_000, 100_000_000, 0, 0).unwrap()
    };
    let minted = out.deposited.unwrap().lp_minted;
    let v = resting(&out.orders);
    let back =
        {
        let c = view(&pool, &v);
        withdraw::handler(&mut pool, &c, new.lp_minted + minted, minted).unwrap()
    };
    assert_eq!(back.paid_out, Some((99_999_999, 99_999_999)));
    assert_eq!(pool.base_amount, 1_000_000_001);
    assert_eq!(pool.quote_amount, 1_000_000_001);
    assert_eq!(back.orders.len(), 19);
    assert_eq!(pool.client_order_id, 58);
}

#[test]
fn deposit_amounts_follow_the_reserves() {
    // in ratio: taken as wished, whatever the least
    assert_eq!(deposit_amounts(1_000, 2_000, 50, 100, 60, 200), Ok((50, 100)));
    // the quote that goes with the base is within the wish
    assert_eq!(deposit_amounts(1_000, 2_000, 50, 150, 0, 100), Ok((50, 100)));
    assert_eq!(
        deposit_amounts(1_000, 2_000, 50, 150, 0, 101),
        Err(Failure::Rejected(OpenAmmErrorCode::SlippageQuoteExceeded))
    );
    // else the base that goes with the quote
    assert_eq!(deposit_amounts(1_000_000_000, 2_000_000_000, 100, 150, 75, 0), Ok((75, 150)));
    assert_eq!(
        deposit_amounts(1_000_000_000, 2_000_000_000, 100, 150, 76, 0),
        Err(Failure::Rejected(OpenAmmErrorCode::SlippageBaseExceeded))
    );
    // nothing wished for, no reserve to divide by, too much
    assert_eq!(deposit_amounts(1_000, 2_000, 0, 0, 0, 0), Err(Failure::Arithmetic));
    assert_eq!(deposit_amounts(0, 2_000, 5, 7, 0, 0), Err(Failure::Arithmetic));
    assert_eq!(deposit_amounts(1, u64::MAX, 2, 3, 0, 0), Err(Failure::Arithmetic));
    assert_eq!(mul_div(10, 10, 3), Some(33));
    assert_eq!(mul_div(u64::MAX, u64::MAX, u64::MAX), Some(u64::MAX));
    assert_eq!(mul_div(u64::MAX, 2, 1), None);
    assert_eq!(mul_div(1, 1, 0), None);
}

#[test]
fn shares_on_the_constant_product() {
    assert_eq!(xyk_shares(0, 0, 0, 1_000_000_000, 1_000_000_000), Some(999_999_999));
    assert_eq!(xyk_shares(0, 5, 5, 10, 100), Some(0));
    assert_eq!(xyk_shares(0, 5, 5, 10, 99), None);
    assert_eq!(xyk_shares(5_000_000, 1_000_000_000, 2_000_000_000, 75_000_000, 150_000_000), Some(375_000));
    assert_eq!(xyk_shares(5_000_000, 1_000_000_000, 2_000_000_000, 75_000_000, 100_000_000), Some(250_000));
    assert_eq!(xyk_shares(5_000_000, 1_000_000_000, 2_000_000_000, 10_000_000, 150_000_000), Some(50_000));
    assert_eq!(xyk_shares(5, 0, 7, 1, 1), None);
    assert_eq!(xyk_shares(u64::MAX, 1, 1, 2, 2), None);
    assert_eq!(first_xyk_shares(1000, 1), Some(0));
    assert_eq!(first_xyk_shares(u64::MAX, u64::MAX), Some(18_446_744_073_709_551_614));
    assert_eq!(integer_sqrt(0), 0);
    assert_eq!(integer_sqrt(15), 3);
    assert_eq!(integer_sqrt(16), 4);
    assert_eq!(integer_sqrt(u128::MAX), u64::MAX);
}

#[test]
fn withdrawals_are_in_proportion() {
    assert_eq!(withdraw_amounts(10, 1_000, 2_000, 100), Some((100, 200)));
    assert_eq!(withdraw_amounts(1, 1_000, 2_001, 3), Some((333, 667)));
    assert_eq!(withdraw_amounts(0, 1_000, 2_000, 100), Some((0, 0)));
    assert_eq!(withdraw_amounts(10, 1_000, 2_000, 0), None);
    assert_eq!(withdraw_amounts(u64::MAX, u64::MAX, 1, 1), None);
}

#[test]
fn a_deposit_is_refused_and_leaves_the_pool_alone() {
    let new = made(PoolType::XYK, 1_000_000_000, 2_000_000_000);
    let mut pool = new.pool;
    let before = pool;
    let v = resting(&new.orders);
    let r = {
        let c = view(&pool, &v);
        deposit::handler(&mut pool, &c, new.lp_minted, 50, 150, 0, 101)
    };
    assert_eq!(r.err(), Some(Failure::Rejected(OpenAmmErrorCode::SlippageQuoteExceeded)));
    assert_eq!(pool.placed_asks, before.placed_asks);
    assert_eq!(pool.client_order_id, before.client_order_id);
    let r = {
        let c = view(&pool, &v);
        deposit::handler(&mut pool, &c, new.lp_minted, 100, 150, 76, 0)
    };
    assert_eq!(r.err(), Some(Failure::Rejected(OpenAmmErrorCode::SlippageBaseExceeded)));
    assert_eq!(pool.placed_bids, before.placed_bids);
    assert_eq!(pool.base_amount, before.base_amount);
    let r = {
        let c = view(&pool, &v);
        deposit::handler(&mut pool, &c, new.lp_minted, 0, 0, 0, 0)
    };
    assert_eq!(r.err(), Some(Failure::Arithmetic));
    assert_eq!(pool.placed_asks, before.placed_asks);
}

#[test]
fn a_deposit_on_the_low_slippage_curve() {
    let new = made(PoolType::STABLE, 1_000_000_000, 1_000_000_000);
    let mut pool = new.pool;
    let v = resting(&new.orders);
    let out =
        {
        let c = view(&pool, &v);
        deposit::handler(&mut pool, &c, new.lp_minted, 100_000_000, 100_000_000, 0, 0).unwrap()
    };
    assert_eq!(out.deposited.unwrap().lp_minted, 200_000_000);
    assert_eq!(pool.base_amount, 1_100_000_000);
}

#[test]
fn a_paused_pool_settles_and_places_nothing() {
    let new = made(PoolType::XYK, 1_000_000_000, 1_000_000_000);
    // the venue has dropped every order
    let gone = venue(vec![]);
    let settled = {
        let mut pool = new.pool;
        view(&pool, &gone).cancel_all_and_settle(&mut pool).unwrap();
        pool
    };
    assert!(!settled.mm_active);

    let mut pool = new.pool;
    let out = {
        let c = view(&pool, &gone);
        deposit::handler(&mut pool, &c, new.lp_minted, 10, 10, 0, 0).unwrap()
    };
    assert_eq!(out.deposited, None);
    assert!(out.orders.is_empty());
    assert_eq!(pool.base_amount, settled.base_amount);
    assert_eq!(pool.placed_asks, [PlacedOrder::default(); 10]);

    let mut pool = new.pool;
    let out = {
        let c = view(&pool, &gone);
        withdraw::handler(&mut pool, &c, new.lp_minted, 10).unwrap()
    };
    assert_eq!(out.paid_out, None);
    assert!(out.orders.is_empty());
    assert_eq!(pool.quote_amount, settled.quote_amount);

    let mut pool = new.pool;
    pool.refund_base_amount = 5;
    let out = {
        let c = view(&pool, &gone);
        refresh_orders::handler(&mut pool, &c).unwrap()
    };
    // a refresh pays what is owed, paused or not; only the ladder waits
    assert_eq!(out.refunds, (5 + settled.refund_base_amount, settled.refund_quote_amount));
    assert!(settled.refund_quote_amount > 0);
    assert!(out.orders.is_empty());
    assert_eq!((pool.refund_base_amount, pool.refund_quote_amount), (0, 0));
    assert_eq!(pool.base_amount, settled.base_amount);
    assert_eq!(pool.quote_amount, settled.quote_amount);
    assert!(!pool.mm_active);
}

#[test]
fn a_refresh_of_a_pool_paused_before_pays_what_it_owes() {
    let new = made(PoolType::XYK, 1_000_000_000, 1_000_000_000);
    let mut pool = new.pool;
    pool.reset_placed_orders();
    pool.mm_active = false;
    pool.refund_base_amount = 5;
    pool.refund_quote_amount = 7;
    let out = {
        let c = view(&pool, &venue(vec![]));
        refresh_orders::handler(&mut pool, &c).unwrap()
    };
    assert_eq!(out.refunds, (5, 7));
    assert!(out.orders.is_empty());
    assert!(out.cancels.is_empty());
    assert_eq!((pool.refund_base_amount, pool.refund_quote_amount), (0, 0));
    assert_eq!((pool.base_amount, pool.quote_amount), (1_000_000_000, 1_000_000_000));
    assert_eq!(pool.placed_asks, [PlacedOrder::default(); 10]);
    assert!(!pool.mm_active);
}

#[test]
fn a_refresh_pays_what_the_pool_owes() {
    let new = made(PoolType::XYK, 1_000_000_000, 1_000_000_000);
    let mut pool = new.pool;
    pool.refund_base_amount = 5;
    // the first ask was filled; all else rests
    let v = resting(&new.orders[1..]);
    let out = {
        let c = view(&pool, &v);
        refresh_orders::handler(&mut pool, &c).unwrap()
    };
    // 8_000 lots of 100 base, each for 10 quote lots of 10
    assert_eq!(new.orders[0].limit_price, 10);
    assert_eq!(pool.placed_asks[0].client_order_id, 20);
    assert_eq!(pool.base_amount, 1_000_000_000 - 800_000);
    assert_eq!(pool.quote_amount, 1_000_000_000 + 800_000 - 80);
    assert_eq!(out.refunds, (5, 80));
    assert_eq!((pool.refund_base_amount, pool.refund_quote_amount), (0, 0));
    assert_eq!(pool.cumulative_quote_volume, 800_000);
    assert_eq!(out.cancels.len(), 18);
    assert_eq!(out.orders.len(), 19);
    assert!(pool.mm_active);
}

#[test]
fn a_withdrawal_fails_without_supply() {
    let new = made(PoolType::XYK, 1_000_000_000, 1_000_000_000);
    let mut pool = new.pool;
    let before = pool;
    let v = resting(&new.orders);
    let r = {
        let c = view(&pool, &v);
        withdraw::handler(&mut pool, &c, 0, 10)
    };
    assert_eq!(r.err(), Some(Failure::Arithmetic));
    let r = {
        let c = view(&pool, &v);
        withdraw::handler(&mut pool, &c, 10, 11)
    };
    assert_eq!(r.err(), Some(Failure::Arithmetic));
    assert_eq!(pool.placed_asks, before.placed_asks);
    assert_eq!(pool.base_amount, before.base_amount);
}

#[test]
fn restart_market_making_with_venue_held_inventory_is_refused() {
    let new = made(PoolType::XYK, 1_000_000_000, 1_000_000_000);
    let mut pool = new.pool;
    pool.mm_active = false;
    let before = pool;
    let mut v = venue(vec![]);
    v.native_base_total = 1;
    let r = {
        let c = view(&pool, &v);
        restart_market_making::handler(&mut pool, &c, 7, 9)
    };
    assert_eq!(r, Err(Failure::Rejected(OpenAmmErrorCode::OpenOrdersTokensLocked)));
    assert!(!pool.mm_active);
    assert_eq!(pool.base_amount, before.base_amount);
    assert_eq!(pool.placed_asks, before.placed_asks);
    let mut v = venue(vec![]);
    v.native_quote_total = 1;
    let r = {
        let c = view(&pool, &v);
        restart_market_making::handler(&mut pool, &c, 7, 9)
    };
    assert_eq!(r, Err(Failure::Rejected(OpenAmmErrorCode::OpenOrdersTokensLocked)));
}

#[test]
fn restart_market_making() {
    let new = made(PoolType::XYK, 1_000_000_000, 1_000_000_000);
    let mut pool = new.pool;
    let v = resting(&new.orders);
    let r = {
        let c = view(&pool, &v);
        restart_market_making::handler(&mut pool, &c, 7, 9)
    };
    assert_eq!(r, Err(Failure::Rejected(OpenAmmErrorCode::MarketMakingAlreadyActive)));
    assert_eq!(pool.placed_asks, new.pool.placed_asks);

    pool.mm_active = false;
    let cancels = {
        let c = view(&pool, &v);
        restart_market_making::handler(&mut pool, &c, 7, 9).unwrap()
    };
    assert_eq!(cancels.len(), 19);
    assert!(pool.mm_active);
    assert_eq!((pool.base_amount, pool.quote_amount), (7, 9));
    assert_eq!(pool.placed_asks, [PlacedOrder::default(); 10]);
    assert_eq!(pool.client_order_id, 20);

    // a settlement that does not fit ends the restart before the venue is asked
    let mut pool = new.pool;
    pool.mm_active = false;
    pool.base_amount = 1;
    let mut gone = venue(vec![]);
    gone.native_base_total = 1;
    let r = {
        let c = view(&pool, &gone);
        restart_market_making::handler(&mut pool, &c, 7, 9)
    };
    assert_eq!(r, Err(Failure::Arithmetic));
    assert_eq!(pool.base_amount, 1);
}

#[test]
fn messages() {
    assert_eq!(OpenAmmErrorCode::InvalidPair.message(), "OpenAmmErrorCode::InvalidPair - Pair is invalid");
    assert_eq!(
        OpenAmmErrorCode::OpenOrdersTokensLocked.message(),
        "OpenAmmErrorCode::OpenOrdersTokensLocked - Open orders tokens are locked"
    );
    let all = [
        OpenAmmErrorCode::InvalidPair,
        OpenAmmErrorCode::WrongOpenOrdersAccount,
        OpenAmmErrorCode::WrongMarketAccount,
        OpenAmmErrorCode::MarketBaseMintMismatch,
        OpenAmmErrorCode::MarketQuoteMintMismatch,
        OpenAmmErrorCode::SlippageBaseExceeded,
        OpenAmmErrorCode::SlippageQuoteExceeded,
        OpenAmmErrorCode::MarketMakingAlreadyActive,
        OpenAmmErrorCode::OpenOrdersTokensLocked,
    ];
    for (i, a) in all.iter().enumerate() {
        for b in all.iter().skip(i + 1) {
            assert_ne!(a.message(), b.message());
        }
    }
}

#[test]
fn shares_coarser_than_the_reserves_lose_a_small_deposit() {
    // a supply of 1_000 shares on a billion of each asset
    assert_eq!(xyk_shares(1_000, 1_000_000_000, 1_000_000_000, 999_999, 999_999), Some(0));
    assert_eq!(withdraw_amounts(0, 1_000_999_999, 1_000_999_999, 1_000), Some((0, 0)));
    // with a supply as fine as the reserves the deposit comes back, up to one unit
    for deposit in [1u64, 999_999, 123_456_789] {
        let supply = 1_000_000_007u64;
        let reserve = 1_000_000_000u64;
        let shares = xyk_shares(supply, reserve, reserve, deposit, deposit).unwrap();
        let (base, quote) =
            withdraw_amounts(shares, reserve + deposit, reserve + deposit, supply + shares).unwrap();
        assert!(base <= deposit && base + 1 >= deposit);
        assert!(quote <= deposit && quote + 1 >= deposit);
    }
}
