//! Making a pool.
use crate::errors::{Failure, OpenAmmErrorCode};
use crate::ladder::{planned, record_plan};
use crate::stableswap::{calculate_stableswap_lp_minted, spec_stableswap_lp_minted};
use crate::state::{empty_slots, Address, OpenAmmPool, PlacedOrder, PoolType, PoolView};
use crate::util::{get_orderbook, spec_orderbook, NewOrder, VenueSnapshot};
use vstd::prelude::*;

verus! {

/// The product of the first deposit into a pool on the constant product is
/// taken less this much before its root is the first supply of shares.
pub const MINIMUM_LIQUIDITY: u64 = 1000;

/// Whether `r` is the square root of `v`, rounded down.
pub open spec fn is_sqrt(v: int, r: int) -> bool {
    0 <= r && r * r <= v < (r + 1) * (r + 1)
}

/// The square root of `v`, rounded down.
pub fn integer_sqrt(v: u128) -> (r: u64)
    ensures
        is_sqrt(v as int, r as int),
{
    let mut lo: u128 = 0;
    let mut hi: u128 = 0x1_0000_0000_0000_0000;
    assert(hi * hi > v) by (nonlinear_arith)
        requires
            hi == 0x1_0000_0000_0000_0000,
            v <= u128::MAX,
    ;
    assert(lo * lo <= v) by (nonlinear_arith)
        requires
            lo == 0,
    ;
    while hi - lo > 1
        invariant
            lo < hi <= 0x1_0000_0000_0000_0000,
            lo * lo <= v < hi * hi,
        decreases hi - lo,
    {
        let mid: u128 = lo + (hi - lo) / 2;
        assert(mid * mid <= u128::MAX) by (nonlinear_arith)
            requires
                mid < 0x1_0000_0000_0000_0000,
        ;
        if mid * mid <= v {
            lo = mid;
        } else {
            hi = mid;
        }
    }
    lo as u64
}

/// Two addresses, byte for byte.
pub fn same_address(a: &Address, b: &Address) -> (r: bool)
    ensures
        r == (a@ == b@),
{
    let mut i: usize = 0;
    while i < 32
        invariant
            i <= 32,
            forall|j: int| 0 <= j < i ==> a@[j] == b@[j],
        decreases 32 - i,
    {
        if a[i] != b[i] {
            return false;
        }
        i += 1;
    }
    assert(a@ =~= b@);
    true
}

/// The first supply of shares of a pool on the constant product: the root
/// of the product of the deposits less [`MINIMUM_LIQUIDITY`], rounded down.
/// `None` where the product is smaller than that.
pub open spec fn spec_first_xyk_shares(base: u64, quote: u64) -> Option<u64> {
    if base * quote < MINIMUM_LIQUIDITY {
        None
    } else {
        Some(choose|r: u64| #[trigger] is_sqrt(base * quote - MINIMUM_LIQUIDITY, r as int))
    }
}

proof fn lemma_sqrt_unique(v: int, r: int, s: int)
    requires
        is_sqrt(v, r),
        is_sqrt(v, s),
    ensures
        r == s,
{
    if r < s {
        assert((r + 1) * (r + 1) <= s * s) by (nonlinear_arith)
            requires
                0 <= r,
                r + 1 <= s,
        ;
    } else if s < r {
        assert((s + 1) * (s + 1) <= r * r) by (nonlinear_arith)
            requires
                0 <= s,
                s + 1 <= r,
        ;
    }
}

/// The first supply of shares of a pool on the constant product.
pub fn first_xyk_shares(base: u64, quote: u64) -> (r: Option<u64>)
    ensures
        r == spec_first_xyk_shares(base, quote),
        r matches Some(v) ==> is_sqrt(base * quote - MINIMUM_LIQUIDITY, v as int),
{
    assert(base as u128 * quote as u128 <= u128::MAX) by (nonlinear_arith)
        requires
            base <= u64::MAX,
            quote <= u64::MAX,
    ;
    let product: u128 = base as u128 * quote as u128;
    if product < MINIMUM_LIQUIDITY as u128 {
        return None;
    }
    let root = integer_sqrt(product - MINIMUM_LIQUIDITY as u128);
    proof {
        let other = choose|r: u64| #[trigger] is_sqrt(base * quote - MINIMUM_LIQUIDITY, r as int);
        lemma_sqrt_unique(base * quote - MINIMUM_LIQUIDITY, root as int, other as int);
    }
    Some(root)
}

/// What names a new pool and where it keeps its funds.
pub struct PoolAccounts {
    pub base_mint: Address,
    pub quote_mint: Address,
    pub market: Address,
    /// The account that the pool opens at the venue.
    pub open_orders: Address,
    pub base_vault: Address,
    pub quote_vault: Address,
    pub lp_mint: Address,
    pub bump: u8,
    pub base_decimals: u8,
    pub quote_decimals: u8,
}

/// What the venue says of the market that a new pool is to quote on.
pub struct MarketIdentity {
    /// The open-orders account handed in with the market.
    pub open_orders: Address,
    /// The base asset of the market.
    pub coin_mint: Address,
    /// The quote asset of the market.
    pub pc_mint: Address,
}

/// `safe_transmute::transmute_to_bytes` on the four words: the 32 bytes
/// that the words occupy in memory. Their order within a word is that of
/// the machine, so nothing is claimed of them.
#[verifier::external_body]
fn words_as_bytes(words: &[u64; 4]) -> (r: Address) {
    let mut out = [0u8; 32];
    out.copy_from_slice(safe_transmute::transmute_to_bytes(&words[..]));
    out
}

/// What the venue says of a market, with the assets named as the venue
/// holds them: four words each, taken as the bytes they occupy.
pub fn market_identity(open_orders: Address, coin_mint: &[u64; 4], pc_mint: &[u64; 4]) -> (r:
    MarketIdentity)
    ensures
        r.open_orders == open_orders,
{
    MarketIdentity {
        open_orders,
        coin_mint: words_as_bytes(coin_mint),
        pc_mint: words_as_bytes(pc_mint),
    }
}

/// Why a pool cannot be made on a market, if it cannot: the first of the
/// conditions that fails, in this order.
pub open spec fn spec_check_new_pool(accounts: &PoolAccounts, market: &MarketIdentity) -> Option<
    OpenAmmErrorCode,
> {
    if market.open_orders@ != accounts.open_orders@ {
        Some(OpenAmmErrorCode::WrongOpenOrdersAccount)
    } else if accounts.quote_mint@ == accounts.base_mint@ {
        Some(OpenAmmErrorCode::InvalidPair)
    } else if accounts.base_mint@ != market.coin_mint@ {
        Some(OpenAmmErrorCode::MarketBaseMintMismatch)
    } else if accounts.quote_mint@ != market.pc_mint@ {
        Some(OpenAmmErrorCode::MarketQuoteMintMismatch)
    } else {
        None
    }
}

/// Checks that a pool can be made on a market: the open-orders account is
/// the one of the pool, base and quote differ, and they are the assets of
/// the market.
pub fn check_new_pool(accounts: &PoolAccounts, market: &MarketIdentity) -> (r: Result<
    (),
    OpenAmmErrorCode,
>)
    ensures
        match spec_check_new_pool(accounts, market) {
            Some(e) => r == Err::<(), OpenAmmErrorCode>(e),
            None => r is Ok,
        },
{
    if !same_address(&market.open_orders, &accounts.open_orders) {
        Err(OpenAmmErrorCode::WrongOpenOrdersAccount)
    } else if same_address(&accounts.quote_mint, &accounts.base_mint) {
        Err(OpenAmmErrorCode::InvalidPair)
    } else if !same_address(&accounts.base_mint, &market.coin_mint) {
        Err(OpenAmmErrorCode::MarketBaseMintMismatch)
    } else if !same_address(&accounts.quote_mint, &market.pc_mint) {
        Err(OpenAmmErrorCode::MarketQuoteMintMismatch)
    } else {
        Ok(())
    }
}

/// Why an operation cannot go on with a market, if it cannot.
pub open spec fn spec_check_market(pool: PoolView, market: &Address, open_orders: &Address) -> Option<
    OpenAmmErrorCode,
> {
    if market@ != pool.market@ {
        Some(OpenAmmErrorCode::WrongMarketAccount)
    } else if open_orders@ != pool.open_orders@ {
        Some(OpenAmmErrorCode::WrongOpenOrdersAccount)
    } else {
        None
    }
}

/// Checks that the market and the open-orders account handed in with an
/// operation are the ones the pool was made with.
pub fn check_market(pool: &OpenAmmPool, market: &Address, open_orders: &Address) -> (r: Result<
    (),
    OpenAmmErrorCode,
>)
    ensures
        match spec_check_market(pool@, market, open_orders) {
            Some(e) => r == Err::<(), OpenAmmErrorCode>(e),
            None => r is Ok,
        },
{
    if !same_address(market, &pool.market) {
        Err(OpenAmmErrorCode::WrongMarketAccount)
    } else if !same_address(open_orders, &pool.open_orders) {
        Err(OpenAmmErrorCode::WrongOpenOrdersAccount)
    } else {
        Ok(())
    }
}

/// A pool as it is made: the reserves as given, the counter at one,
/// nothing owed, nothing placed, and placing orders.
pub open spec fn opened(
    pool_type: PoolType,
    initial_base_amount: u64,
    initial_quote_amount: u64,
    accounts: &PoolAccounts,
) -> PoolView {
    PoolView {
        base_amount: initial_base_amount,
        quote_amount: initial_quote_amount,
        cumulative_quote_volume: 0,
        cumulative_base_volume: 0,
        refund_base_amount: 0,
        refund_quote_amount: 0,
        base_mint: accounts.base_mint,
        quote_mint: accounts.quote_mint,
        market: accounts.market,
        open_orders: accounts.open_orders,
        base_vault: accounts.base_vault,
        quote_vault: accounts.quote_vault,
        lp_mint: accounts.lp_mint,
        client_order_id: 1,
        pool_type,
        base_decimals: accounts.base_decimals,
        quote_decimals: accounts.quote_decimals,
        bump: accounts.bump,
        placed_asks: empty_slots(10),
        placed_bids: empty_slots(9),
        mm_active: true,
    }
}

impl OpenAmmPool {
    /// A pool as it is made.
    pub fn new(
        pool_type: PoolType,
        initial_base_amount: u64,
        initial_quote_amount: u64,
        accounts: &PoolAccounts,
    ) -> (r: OpenAmmPool)
        ensures
            r@ == opened(pool_type, initial_base_amount, initial_quote_amount, accounts),
    {
        let r = OpenAmmPool {
            base_amount: initial_base_amount,
            quote_amount: initial_quote_amount,
            cumulative_quote_volume: 0,
            cumulative_base_volume: 0,
            refund_base_amount: 0,
            refund_quote_amount: 0,
            base_mint: accounts.base_mint,
            quote_mint: accounts.quote_mint,
            market: accounts.market,
            open_orders: accounts.open_orders,
            base_vault: accounts.base_vault,
            quote_vault: accounts.quote_vault,
            lp_mint: accounts.lp_mint,
            client_order_id: 1,
            pool_type,
            base_decimals: accounts.base_decimals,
            quote_decimals: accounts.quote_decimals,
            bump: accounts.bump,
            placed_asks: [PlacedOrder::default();10],
            placed_bids: [PlacedOrder::default();9],
            mm_active: true,
        };
        assert(r.placed_asks@ =~= empty_slots(10));
        assert(r.placed_bids@ =~= empty_slots(9));
        r
    }
}

/// The first supply of shares, by the curve of the pool: on the constant
/// product [`spec_first_xyk_shares`], on the low-slippage curve the
/// balanced value of the deposits.
pub open spec fn spec_first_shares(
    pool_type: PoolType,
    base: u64,
    quote: u64,
    base_decimals: u8,
    quote_decimals: u8,
) -> Option<u64> {
    match pool_type {
        PoolType::XYK => spec_first_xyk_shares(base, quote),
        PoolType::STABLE => spec_stableswap_lp_minted(
            0,
            0,
            0,
            base,
            quote,
            base_decimals,
            quote_decimals,
        ),
    }
}

/// A pool that was made, and what has to be done for it outside: the
/// deposits go to the vaults, the orders to the venue, the shares to the
/// depositor.
pub struct NewPool {
    pub pool: OpenAmmPool,
    /// The first ladder.
    pub orders: Vec<NewOrder>,
    /// The shares to mint.
    pub lp_minted: u64,
}

/// What [`handler`] returns where it is not refused: the pool with its
/// first ladder recorded, the requests for the ladder, and the first supply
/// of shares. `None` where it fails.
pub open spec fn spec_create_pool(
    pool_type: PoolType,
    initial_base_amount: u64,
    initial_quote_amount: u64,
    accounts: &PoolAccounts,
    venue: &VenueSnapshot,
) -> Option<(PoolView, Seq<NewOrder>, u64)> {
    let fresh = opened(pool_type, initial_base_amount, initial_quote_amount, accounts);
    match spec_orderbook(1, accounts.bump, pool_type, venue) {
        None => None,
        Some(client) => match planned(fresh, client) {
            None => None,
            Some(plan) => match spec_first_shares(
                pool_type,
                initial_base_amount,
                initial_quote_amount,
                accounts.base_decimals,
                accounts.quote_decimals,
            ) {
                None => None,
                Some(lp_minted) => Some((record_plan(fresh, plan), plan.orders(), lp_minted)),
            },
        },
    }
}

/// Makes a pool of the curve `pool_type` with the given reserves, places
/// its first ladder and sizes its first supply of shares.
///
/// It is refused where [`check_new_pool`] refuses. It fails where the
/// venue shows a slot without identifier, where the ladder cannot be
/// walked, or where the first supply has no size.
pub fn handler(
    pool_type: PoolType,
    initial_base_amount: u64,
    initial_quote_amount: u64,
    accounts: &PoolAccounts,
    market: &MarketIdentity,
    venue: &VenueSnapshot,
) -> (r: Result<NewPool, Failure>)
    ensures
        match r {
            Ok(made) => spec_check_new_pool(accounts, market) is None && spec_create_pool(
                pool_type,
                initial_base_amount,
                initial_quote_amount,
                accounts,
                venue,
            ) == Some((made.pool@, made.orders@, made.lp_minted)),
            Err(Failure::Rejected(e)) => spec_check_new_pool(accounts, market) == Some(e),
            Err(Failure::Arithmetic) => spec_check_new_pool(accounts, market) is None
                && spec_create_pool(
                pool_type,
                initial_base_amount,
                initial_quote_amount,
                accounts,
                venue,
            ) is None,
        },
{
    match check_new_pool(accounts, market) {
        Err(e) => {
            return Err(Failure::Rejected(e));
        },
        Ok(_) => {},
    }
    let mut pool = OpenAmmPool::new(pool_type, initial_base_amount, initial_quote_amount, accounts);
    let client = match get_orderbook(1, accounts.bump, pool_type, venue) {
        Some(c) => c,
        None => {
            return Err(Failure::Arithmetic);
        },
    };
    let orders = match client.place_new_orders(&mut pool) {
        Some(o) => o,
        None => {
            return Err(Failure::Arithmetic);
        },
    };
    let lp_minted = match pool_type {
        PoolType::XYK => first_xyk_shares(initial_base_amount, initial_quote_amount),
        PoolType::STABLE => calculate_stableswap_lp_minted(
            0,
            0,
            0,
            initial_base_amount,
            initial_quote_amount,
            accounts.base_decimals,
            accounts.quote_decimals,
        ),
    };
    match lp_minted {
        Some(lp_minted) => Ok(NewPool { pool, orders, lp_minted }),
        None => Err(Failure::Arithmetic),
    }
}

} // verus!
