//! The record of one pool.
use vstd::prelude::*;

verus! {

/// The 32 bytes that name an account or an asset.
pub type Address = [u8; 32];

/// The curve that a pool prices along.
#[derive(Clone, Copy, Debug, PartialEq, Eq, Structural)]
pub enum PoolType {
    /// The constant product `x * y = k`.
    XYK,
    /// The low-slippage curve of [`crate::stableswap`].
    STABLE,
}

impl Default for PoolType {
    fn default() -> (r: PoolType)
        ensures
            r == PoolType::XYK,
    {
        PoolType::XYK
    }
}

/// One order as the pool asked the venue to place it. With `base_qty == 0`
/// the slot is empty.
#[derive(Clone, Copy, Debug, PartialEq, Eq, Structural)]
pub struct PlacedOrder {
    /// The price, in quote lots for one base lot.
    pub limit_price: u64,
    /// The size, in base lots.
    pub base_qty: u64,
    /// The most that the order may move on the quote side, fees included.
    pub max_native_quote_qty_including_fees: u64,
    /// The identifier that the pool stamped on the order.
    pub client_order_id: u64,
}

impl PlacedOrder {
    /// The empty slot.
    pub open spec fn empty() -> PlacedOrder {
        PlacedOrder {
            limit_price: 0,
            base_qty: 0,
            max_native_quote_qty_including_fees: 0,
            client_order_id: 0,
        }
    }
}

impl Default for PlacedOrder {
    fn default() -> (r: PlacedOrder)
        ensures
            r == PlacedOrder::empty(),
    {
        PlacedOrder {
            limit_price: 0,
            base_qty: 0,
            max_native_quote_qty_including_fees: 0,
            client_order_id: 0,
        }
    }
}

/// One pool: its reserves, what it owes, and the orders it last placed.
#[derive(Clone, Copy, Debug)]
pub struct OpenAmmPool {
    /// The base reserve, funds resting on the venue included.
    pub base_amount: u64,
    /// The quote reserve, funds resting on the venue included.
    pub quote_amount: u64,
    /// All quote that fills have brought in so far.
    pub cumulative_quote_volume: u64,
    /// All base that fills have brought in so far.
    pub cumulative_base_volume: u64,
    /// Base set aside from fills, to be paid out with the next refresh.
    pub refund_base_amount: u64,
    /// Quote set aside from fills, to be paid out with the next refresh.
    pub refund_quote_amount: u64,
    /// The base asset.
    pub base_mint: Address,
    /// The quote asset.
    pub quote_mint: Address,
    /// The market of the venue that the pool quotes on.
    pub market: Address,
    /// The account of the pool at the venue.
    pub open_orders: Address,
    /// Where the base reserve is kept.
    pub base_vault: Address,
    /// Where the quote reserve is kept.
    pub quote_vault: Address,
    /// The asset that stands for a share of the pool.
    pub lp_mint: Address,
    /// The identifier for the next order; it only grows.
    pub client_order_id: u64,
    /// The curve of the pool, fixed when the pool is made.
    pub pool_type: PoolType,
    /// The decimals of the base asset.
    pub base_decimals: u8,
    /// The decimals of the quote asset.
    pub quote_decimals: u8,
    /// The bump of the address of the pool.
    pub bump: u8,
    /// The asks last placed, by level.
    pub placed_asks: [PlacedOrder; 10],
    /// The bids last placed, by level.
    pub placed_bids: [PlacedOrder; 9],
    /// Whether the pool places orders. A pool that is paused waits for a
    /// restart.
    pub mm_active: bool,
}

/// A pool as a value to reason about: the record with its slots as
/// sequences.
pub struct PoolView {
    pub base_amount: u64,
    pub quote_amount: u64,
    pub cumulative_quote_volume: u64,
    pub cumulative_base_volume: u64,
    pub refund_base_amount: u64,
    pub refund_quote_amount: u64,
    pub base_mint: Address,
    pub quote_mint: Address,
    pub market: Address,
    pub open_orders: Address,
    pub base_vault: Address,
    pub quote_vault: Address,
    pub lp_mint: Address,
    pub client_order_id: u64,
    pub pool_type: PoolType,
    pub base_decimals: u8,
    pub quote_decimals: u8,
    pub bump: u8,
    pub placed_asks: Seq<PlacedOrder>,
    pub placed_bids: Seq<PlacedOrder>,
    pub mm_active: bool,
}

/// `n` empty slots.
pub open spec fn empty_slots(n: nat) -> Seq<PlacedOrder> {
    Seq::new(n, |i: int| PlacedOrder::empty())
}

impl View for OpenAmmPool {
    type V = PoolView;

    open spec fn view(&self) -> PoolView {
        PoolView {
            base_amount: self.base_amount,
            quote_amount: self.quote_amount,
            cumulative_quote_volume: self.cumulative_quote_volume,
            cumulative_base_volume: self.cumulative_base_volume,
            refund_base_amount: self.refund_base_amount,
            refund_quote_amount: self.refund_quote_amount,
            base_mint: self.base_mint,
            quote_mint: self.quote_mint,
            market: self.market,
            open_orders: self.open_orders,
            base_vault: self.base_vault,
            quote_vault: self.quote_vault,
            lp_mint: self.lp_mint,
            client_order_id: self.client_order_id,
            pool_type: self.pool_type,
            base_decimals: self.base_decimals,
            quote_decimals: self.quote_decimals,
            bump: self.bump,
            placed_asks: self.placed_asks@,
            placed_bids: self.placed_bids@,
            mm_active: self.mm_active,
        }
    }
}

impl PoolView {
    /// The pool with every slot empty.
    pub open spec fn without_orders(self) -> PoolView {
        PoolView { placed_asks: empty_slots(10), placed_bids: empty_slots(9), ..self }
    }
}

impl OpenAmmPool {
    /// Forgets the orders that were placed: every slot is empty afterwards,
    /// and nothing else changes.
    pub fn reset_placed_orders(&mut self)
        ensures
            final(self)@ == old(self)@.without_orders(),
    {
        self.placed_asks = [PlacedOrder::default();10];
        self.placed_bids = [PlacedOrder::default();9];
        assert(self.placed_asks@ =~= empty_slots(10));
        assert(self.placed_bids@ =~= empty_slots(9));
    }
}

} // verus!
