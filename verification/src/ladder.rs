//! The ladder: the curve of a pool written out as limit orders.
//!
//! Each side is walked level by level. A level takes a fixed share of what
//! the walk has left on one side, asks the curve what that is worth on the
//! other side at the point the walk has reached, and prices the order at
//! that ratio with the fee on top. The next level starts where this one
//! ended.
use crate::stableswap::{
    calc_d, calc_dy, get_token_decs_fac, spec_calc_d, spec_calc_dy, spec_token_decs_fac,
    STABLESWAP_AMP_COEFFICIENT,
};
use crate::state::{OpenAmmPool, PlacedOrder, PoolType, PoolView};
use crate::util::{ClientView, NewOrder, OrderbookClient, Side};
use vstd::arithmetic::div_mod::lemma_fundamental_div_mod;
use vstd::prelude::*;

verus! {

/// The fee of a pool on the constant product, in parts of ten thousand.
pub const LP_FEE_BPS: u64 = 20;

/// The fee of a pool on the low-slippage curve, in parts of ten thousand.
pub const STABLESWAP_FEE_BPS: u64 = 4;

/// What fees are parts of.
pub const FEE_DENOMINATOR: u64 = 10_000;

/// What the sizes of the levels are parts of.
pub const ORDER_DENOMINATOR: u64 = 10_000;

/// The size of level `i`, in parts of ten thousand of the reserve.
pub open spec fn order_numerator(i: int) -> int {
    if i == 0 {
        8
    } else if i == 1 {
        15
    } else if i == 2 {
        30
    } else if i == 3 {
        50
    } else if i == 4 {
        125
    } else if i == 5 {
        300
    } else if i == 6 {
        500
    } else if i == 7 {
        750
    } else if i == 8 {
        1000
    } else {
        1250
    }
}

/// The size of level `i`, in parts of ten thousand of the reserve.
pub fn numerator_at(i: usize) -> (r: u64)
    requires
        i < 10,
    ensures
        r == order_numerator(i as int),
{
    if i == 0 {
        8
    } else if i == 1 {
        15
    } else if i == 2 {
        30
    } else if i == 3 {
        50
    } else if i == 4 {
        125
    } else if i == 5 {
        300
    } else if i == 6 {
        500
    } else if i == 7 {
        750
    } else if i == 8 {
        1000
    } else {
        1250
    }
}

/// Which ladder a level belongs to.
#[derive(Clone, Copy, Debug, PartialEq, Eq, Structural)]
pub enum Rung {
    /// An ask on the constant product.
    XykAsk,
    /// A bid on the constant product.
    XykBid,
    /// An ask on the low-slippage curve.
    StableAsk,
    /// A bid on the low-slippage curve.
    StableBid,
}

impl Rung {
    /// The side of the book.
    pub open spec fn side(&self) -> Side {
        match self {
            Rung::XykAsk => Side::Ask,
            Rung::StableAsk => Side::Ask,
            Rung::XykBid => Side::Bid,
            Rung::StableBid => Side::Bid,
        }
    }

    /// The factor on the price, in parts of ten thousand: asks are paid the
    /// fee, bids pay it less.
    pub open spec fn fee_numerator(&self) -> int {
        match self {
            Rung::XykAsk => 10020,
            Rung::XykBid => 9980,
            Rung::StableAsk => 10004,
            Rung::StableBid => 9996,
        }
    }

    fn is_ask(&self) -> (r: bool)
        ensures
            r == (self.side() == Side::Ask),
    {
        match self {
            Rung::XykAsk => true,
            Rung::StableAsk => true,
            Rung::XykBid => false,
            Rung::StableBid => false,
        }
    }

    fn fee(&self) -> (r: u64)
        ensures
            r == self.fee_numerator(),
    {
        match self {
            Rung::XykAsk => FEE_DENOMINATOR + LP_FEE_BPS,
            Rung::XykBid => FEE_DENOMINATOR - LP_FEE_BPS,
            Rung::StableAsk => FEE_DENOMINATOR + STABLESWAP_FEE_BPS,
            Rung::StableBid => FEE_DENOMINATOR - STABLESWAP_FEE_BPS,
        }
    }
}

/// Where a walk along the curve stands.
#[derive(Clone, Copy, Debug, PartialEq, Eq, Structural)]
pub struct Walk {
    /// The base reserve that the walk has reached.
    pub base: u64,
    /// The quote reserve that the walk has reached.
    pub quote: u64,
    /// The identifier for the next order.
    pub next_id: u64,
}

/// What a walk is made with.
#[derive(Clone, Copy, Debug)]
pub struct Terms {
    /// Native base units in one base lot.
    pub base_lot: u64,
    /// Native quote units in one quote lot.
    pub quote_lot: u64,
    /// The highest bid on the book, where it was read.
    pub best_bid: Option<u64>,
    /// The lowest ask on the book, where it was read.
    pub best_ask: Option<u64>,
    /// The balanced value of the pool; used on the low-slippage curve.
    pub d: u64,
    /// What brings base amounts to the decimals that the curve works in.
    pub base_fac: u64,
    /// What brings quote amounts to the decimals that the curve works in.
    pub quote_fac: u64,
}

/// The share of `reserve` that level `i` moves, rounded down.
pub open spec fn level_size(reserve: u64, i: int) -> int {
    reserve * order_numerator(i) / 10000
}

/// The size of level `i` from where the walk stands: its share of the base
/// that the walk has left for an ask, of the quote for a bid.
pub open spec fn walk_share(rung: Rung, w: Walk, i: int) -> int {
    if rung.side() == Side::Ask {
        level_size(w.base, i)
    } else {
        level_size(w.quote, i)
    }
}

/// The price of `quote_size` for `base_size` in quote lots for one base lot,
/// with the fee, rounded down: `quote_size * base_lot * fee / base_size /
/// quote_lot / 10000`. `None` where the product leaves 128 bits, the quote
/// lot is zero, or the price leaves 64 bits.
pub open spec fn quoted_price(
    quote_size: int,
    base_size: int,
    fee: int,
    base_lot: int,
    quote_lot: int,
) -> Option<int> {
    if quote_size * base_lot * fee > u128::MAX || quote_lot == 0 || base_size == 0 {
        None
    } else {
        let price = quote_size * base_lot * fee / base_size / quote_lot / 10000;
        if price > u64::MAX {
            None
        } else {
            Some(price)
        }
    }
}

/// The price moved off the other side of the book: an ask goes one above the
/// best bid if it would not be above it, a bid one below the best ask if it
/// would not be below it and the best ask is above one. `None` where the
/// price leaves 64 bits.
pub open spec fn clear_of_book(rung: Rung, price: int, terms: Terms) -> Option<int> {
    if rung.side() == Side::Ask {
        match terms.best_bid {
            Some(bid) => if price <= bid {
                if bid + 1 > u64::MAX {
                    None
                } else {
                    Some(bid + 1)
                }
            } else {
                Some(price)
            },
            None => Some(price),
        }
    } else {
        match terms.best_ask {
            Some(ask) => if price >= ask && ask > 1 {
                Some(ask - 1)
            } else {
                Some(price)
            },
            None => Some(price),
        }
    }
}

/// How a level ends once its sizes are known, with the walk `w` already
/// moved on. A level without size on either side, in lots or in price is
/// left out. Any other level is priced, moved clear of the book, stamped
/// with the next identifier, and the counter goes up by one. `None` where
/// an amount does not fit or a lot size is zero.
pub open spec fn finish_level(
    rung: Rung,
    w: Walk,
    base_size: int,
    quote_size: int,
    terms: Terms,
) -> Option<(Walk, Option<PlacedOrder>)> {
    if terms.base_lot == 0 {
        None
    } else if base_size == 0 {
        Some((w, None))
    } else {
        match quoted_price(
            quote_size,
            base_size,
            rung.fee_numerator(),
            terms.base_lot as int,
            terms.quote_lot as int,
        ) {
            None => None,
            Some(price) => if price == 0 || base_size / (terms.base_lot as int) == 0 || quote_size
                == 0 {
                Some((w, None))
            } else {
                match clear_of_book(rung, price, terms) {
                    None => None,
                    Some(clear) => if w.next_id + 1 > u64::MAX {
                        None
                    } else {
                        Some(
                            (
                                Walk { next_id: (w.next_id + 1) as u64, ..w },
                                Some(
                                    PlacedOrder {
                                        limit_price: clear as u64,
                                        base_qty: (base_size / (terms.base_lot as int)) as u64,
                                        max_native_quote_qty_including_fees: quote_size as u64,
                                        client_order_id: w.next_id,
                                    },
                                ),
                            ),
                        )
                    },
                }
            },
        }
    }
}

/// Level `i` of a ladder from where the walk stands: where the walk stands
/// afterwards, and the order of the level unless it is left out. `None`
/// where the whole ladder has to be abandoned.
///
/// On the constant product an ask takes its share of the base that the
/// walk has left, and the quote reserve rises to keep the product, rounded
/// down; a bid does the same with the sides exchanged. On the low-slippage curve the
/// other side rises by what [`calc_dy`] finds, and by nothing where it
/// finds no answer; the sizes then go back to the decimals of the assets. A
/// level that would take all that the walk has left is left out and the
/// walk stays.
pub open spec fn level(rung: Rung, w: Walk, i: int, terms: Terms) -> Option<
    (Walk, Option<PlacedOrder>),
> {
    let size = walk_share(rung, w, i);
    match rung {
        Rung::XykAsk => {
            if w.base - size <= 0 {
                Some((w, None))
            } else {
                let end_quote = w.base * w.quote / (w.base - size);
                if end_quote > u64::MAX || end_quote < w.quote {
                    None
                } else {
                    finish_level(
                        rung,
                        Walk { base: (w.base - size) as u64, quote: end_quote as u64, ..w },
                        size,
                        end_quote - w.quote,
                        terms,
                    )
                }
            }
        },
        Rung::XykBid => {
            if w.quote - size <= 0 {
                Some((w, None))
            } else {
                let end_base = w.base * w.quote / (w.quote - size);
                if end_base > u64::MAX || end_base < w.base {
                    None
                } else {
                    finish_level(
                        rung,
                        Walk { base: end_base as u64, quote: (w.quote - size) as u64, ..w },
                        end_base - w.base,
                        size,
                        terms,
                    )
                }
            }
        },
        Rung::StableAsk => {
            if w.base - size <= 0 || size == 0 {
                Some((w, None))
            } else {
                let found = match spec_calc_dy(
                    w.base,
                    w.quote,
                    STABLESWAP_AMP_COEFFICIENT,
                    terms.d,
                    size as u64,
                ) {
                    Some(dy) => dy,
                    None => 0u64,
                };
                if w.quote + found > u64::MAX || terms.base_fac == 0 || terms.quote_fac == 0 {
                    None
                } else {
                    finish_level(
                        rung,
                        Walk { base: (w.base - size) as u64, quote: (w.quote + found) as u64, ..w },
                        size / (terms.base_fac as int),
                        found as int / terms.quote_fac as int,
                        terms,
                    )
                }
            }
        },
        Rung::StableBid => {
            if w.quote - size <= 0 || size == 0 {
                Some((w, None))
            } else {
                let found = match spec_calc_dy(
                    w.quote,
                    w.base,
                    STABLESWAP_AMP_COEFFICIENT,
                    terms.d,
                    size as u64,
                ) {
                    Some(dx) => dx,
                    None => 0u64,
                };
                if w.base + found > u64::MAX || terms.base_fac == 0 || terms.quote_fac == 0 {
                    None
                } else {
                    finish_level(
                        rung,
                        Walk { base: (w.base + found) as u64, quote: (w.quote - size) as u64, ..w },
                        found as int / terms.base_fac as int,
                        size / (terms.quote_fac as int),
                        terms,
                    )
                }
            }
        },
    }
}

/// The first `n` levels of a ladder walked from `start`: where the walk
/// stands afterwards and, level by level, the order or `None` for a level
/// left out.
pub open spec fn ladder(rung: Rung, start: Walk, n: nat, terms: Terms) -> Option<
    (Walk, Seq<Option<PlacedOrder>>),
>
    decreases n,
{
    if n == 0 {
        Some((start, Seq::empty()))
    } else {
        match ladder(rung, start, (n - 1) as nat, terms) {
            None => None,
            Some((w, orders)) => match level(rung, w, n - 1, terms) {
                None => None,
                Some((next, order)) => Some((next, orders.push(order))),
            },
        }
    }
}

/// The orders of the first `n` levels as requests to the venue, levels left
/// out passed over.
pub open spec fn requests(side: Side, levels: Seq<Option<PlacedOrder>>, n: nat) -> Seq<NewOrder>
    decreases n,
{
    if n == 0 || n > levels.len() {
        Seq::empty()
    } else {
        let before = requests(side, levels, (n - 1) as nat);
        match levels[n - 1] {
            Some(p) => before.push(
                NewOrder {
                    side,
                    limit_price: p.limit_price,
                    max_coin_qty: p.base_qty,
                    max_native_pc_qty_including_fees: p.max_native_quote_qty_including_fees,
                    client_order_id: p.client_order_id,
                },
            ),
            None => before,
        }
    }
}

/// Both ladders of a pool.
pub struct Plan {
    /// The asks, level by level.
    pub asks: Seq<Option<PlacedOrder>>,
    /// The bids, level by level.
    pub bids: Seq<Option<PlacedOrder>>,
    /// The identifier for the next order after these.
    pub next_id: u64,
}

impl Plan {
    /// The plan that places nothing.
    pub open spec fn nothing(next_id: u64) -> Plan {
        Plan {
            asks: Seq::new(10, |i: int| None::<PlacedOrder>),
            bids: Seq::new(9, |i: int| None::<PlacedOrder>),
            next_id,
        }
    }

    /// The requests to the venue: asks first, then bids, each by level.
    pub open spec fn orders(&self) -> Seq<NewOrder> {
        requests(Side::Ask, self.asks, self.asks.len()) + requests(
            Side::Bid,
            self.bids,
            self.bids.len(),
        )
    }
}

/// Ten asks, then nine bids with the counter where the asks left it, both
/// walked from the reserves `base` and `quote`.
pub open spec fn both_ladders(
    ask: Rung,
    bid: Rung,
    base: u64,
    quote: u64,
    next_id: u64,
    terms: Terms,
) -> Option<Plan> {
    match ladder(ask, Walk { base, quote, next_id }, 10, terms) {
        None => None,
        Some((after_asks, asks)) => match ladder(
            bid,
            Walk { base, quote, next_id: after_asks.next_id },
            9,
            terms,
        ) {
            None => None,
            Some((after_bids, bids)) => Some(Plan { asks, bids, next_id: after_bids.next_id }),
        },
    }
}

/// The terms that a client gives a walk, before the curve adds its own.
pub open spec fn client_terms(client: ClientView) -> Terms {
    Terms {
        base_lot: client.base_lot_size,
        quote_lot: client.quote_lot_size,
        best_bid: client.best_bid_price,
        best_ask: client.best_ask_price,
        d: 0,
        base_fac: 1,
        quote_fac: 1,
    }
}

/// The ladders of a pool on the constant product. A pool with an empty
/// side places nothing.
pub open spec fn xyk_plan(pool: PoolView, client: ClientView) -> Option<Plan> {
    if pool.base_amount == 0 || pool.quote_amount == 0 {
        Some(Plan::nothing(pool.client_order_id))
    } else {
        both_ladders(
            Rung::XykAsk,
            Rung::XykBid,
            pool.base_amount,
            pool.quote_amount,
            pool.client_order_id,
            client_terms(client),
        )
    }
}

/// The ladders of a pool on the low-slippage curve, walked on the reserves
/// at equal decimals. A pool with an empty side places nothing. `None`
/// also where the reserves do not fit at equal decimals or the pool has no
/// balanced value.
pub open spec fn stableswap_plan(pool: PoolView, client: ClientView) -> Option<Plan> {
    match spec_token_decs_fac(pool.base_decimals, pool.quote_decimals) {
        None => None,
        Some((base_fac, quote_fac)) => if pool.base_amount * base_fac > u64::MAX
            || pool.quote_amount * quote_fac > u64::MAX {
            None
        } else if pool.base_amount * base_fac == 0 || pool.quote_amount * quote_fac == 0 {
            Some(Plan::nothing(pool.client_order_id))
        } else {
            let base = (pool.base_amount * base_fac) as u64;
            let quote = (pool.quote_amount * quote_fac) as u64;
            match spec_calc_d(base, quote, STABLESWAP_AMP_COEFFICIENT) {
                None => None,
                Some(d) => both_ladders(
                    Rung::StableAsk,
                    Rung::StableBid,
                    base,
                    quote,
                    pool.client_order_id,
                    Terms { d, base_fac, quote_fac, ..client_terms(client) },
                ),
            }
        },
    }
}

/// The ladders of a pool, by its curve.
pub open spec fn planned(pool: PoolView, client: ClientView) -> Option<Plan> {
    match pool.pool_type {
        PoolType::XYK => xyk_plan(pool, client),
        PoolType::STABLE => stableswap_plan(pool, client),
    }
}

/// The slots that a ladder of `n` levels fills: each order in the slot of
/// its level, and the empty slot for a level left out.
pub open spec fn slots_of(levels: Seq<Option<PlacedOrder>>, n: nat) -> Seq<PlacedOrder> {
    Seq::new(
        n,
        |i: int|
            match levels[i] {
                Some(p) => p,
                None => PlacedOrder::empty(),
            },
    )
}

/// The pool with the plan recorded: both ladders written over what was
/// recorded before, each order in the slot of its level and the slot of a
/// level left out empty, and the counter where the plan left it.
pub open spec fn record_plan(before: PoolView, plan: Plan) -> PoolView {
    PoolView {
        client_order_id: plan.next_id,
        placed_asks: slots_of(plan.asks, 10),
        placed_bids: slots_of(plan.bids, 9),
        ..before
    }
}

proof fn lemma_requests_prefix(
    side: Side,
    a: Seq<Option<PlacedOrder>>,
    b: Seq<Option<PlacedOrder>>,
    n: nat,
)
    requires
        n <= a.len(),
        n <= b.len(),
        forall|j: int| 0 <= j < n ==> a[j] == b[j],
    ensures
        requests(side, a, n) == requests(side, b, n),
    decreases n,
{
    if n > 0 {
        lemma_requests_prefix(side, a, b, (n - 1) as nat);
    }
}

proof fn lemma_ladder_stays_failed(rung: Rung, start: Walk, n: nat, m: nat, terms: Terms)
    requires
        n <= m,
        ladder(rung, start, n, terms) is None,
    ensures
        ladder(rung, start, m, terms) is None,
    decreases m,
{
    if m > n {
        lemma_ladder_stays_failed(rung, start, n, (m - 1) as nat, terms);
    }
}

proof fn lemma_ladder_length(rung: Rung, start: Walk, n: nat, terms: Terms)
    requires
        ladder(rung, start, n, terms) is Some,
    ensures
        ladder(rung, start, n, terms).unwrap().1.len() == n,
    decreases n,
{
    if n > 0 {
        lemma_ladder_length(rung, start, (n - 1) as nat, terms);
    }
}

proof fn lemma_share_fits(reserve: u64, i: int)
    ensures
        0 <= level_size(reserve, i) <= reserve,
        reserve > 0 ==> level_size(reserve, i) < reserve,
        reserve * order_numerator(i) <= u128::MAX,
{
    let n = order_numerator(i);
    assert(0 <= reserve * n <= reserve * 1250) by (nonlinear_arith)
        requires
            0 <= n <= 1250,
    ;
}

/// Whether an order has a price and a size on both sides.
pub open spec fn order_has_size(p: PlacedOrder) -> bool {
    p.limit_price != 0 && p.base_qty != 0 && p.max_native_quote_qty_including_fees != 0
}

/// Whether an order keeps clear of the other side of the book: an ask is
/// priced above the best bid, a bid below the best ask, unless the best
/// ask is one.
pub open spec fn order_clear_of_book(rung: Rung, terms: Terms, p: PlacedOrder) -> bool {
    &&& rung.side() == Side::Ask ==> match terms.best_bid {
        Some(bid) => p.limit_price > bid,
        None => true,
    }
    &&& rung.side() == Side::Bid ==> match terms.best_ask {
        Some(ask) => ask > 1 ==> p.limit_price < ask,
        None => true,
    }
}

/// Every order of a ladder has a price and a size on both sides, keeps
/// clear of the other side of the book, and carries an identifier of its
/// own: at or above the counter at the start, below the counter at the end,
/// and above those of the levels before it. The counter goes up by one for
/// each order.
pub proof fn lemma_ladder_identifiers(rung: Rung, start: Walk, n: nat, terms: Terms)
    requires
        ladder(rung, start, n, terms) is Some,
    ensures
        ({
            let (end, levels) = ladder(rung, start, n, terms).unwrap();
            &&& levels.len() == n
            &&& start.next_id <= end.next_id <= start.next_id + n
            &&& end.next_id - start.next_id == requests(rung.side(), levels, n).len()
            &&& forall|i: int|
                0 <= i < n && (#[trigger] levels[i]) is Some ==> order_has_size(levels[i].unwrap())
                    && order_clear_of_book(rung, terms, levels[i].unwrap()) && start.next_id
                    <= levels[i].unwrap().client_order_id < end.next_id
            &&& forall|i: int, j: int|
                0 <= i < j < n && (#[trigger] levels[i]) is Some && (#[trigger] levels[j]) is Some
                    ==> levels[i].unwrap().client_order_id < levels[j].unwrap().client_order_id
        }),
    decreases n,
{
    if n > 0 {
        lemma_ladder_identifiers(rung, start, (n - 1) as nat, terms);
        let (w, before) = ladder(rung, start, (n - 1) as nat, terms).unwrap();
        let (end, levels) = ladder(rung, start, n, terms).unwrap();
        lemma_level_stamps(rung, w, n - 1, terms);
        lemma_requests_prefix(rung.side(), before, levels, (n - 1) as nat);
        assert forall|i: int| 0 <= i < n - 1 implies levels[i] == before[i] by {}
    }
}

/// A level either leaves the counter alone and places nothing, or places
/// an order with a price and sizes under the counter, clear of the book,
/// and moves the counter up by one.
proof fn lemma_level_stamps(rung: Rung, w: Walk, i: int, terms: Terms)
    requires
        level(rung, w, i, terms) is Some,
    ensures
        ({
            let (next, order) = level(rung, w, i, terms).unwrap();
            match order {
                Some(p) => order_has_size(p) && order_clear_of_book(rung, terms, p)
                    && p.client_order_id == w.next_id && next.next_id == w.next_id + 1,
                None => next.next_id == w.next_id,
            }
        }),
{
}

/// No identifier is used twice. Every order of a plan carries an
/// identifier at or above the counter of the pool and below the counter
/// that the plan leaves; identifiers rise along the asks, from the asks to
/// the bids, and along the bids. The counter goes up by one for each
/// order. Every order has a price and a size on both sides and keeps clear
/// of the other side of the book.
pub proof fn lemma_plan_identifiers(pool: PoolView, client: ClientView)
    requires
        planned(pool, client) is Some,
    ensures
        ({
            let plan = planned(pool, client).unwrap();
            &&& plan.asks.len() == 10
            &&& plan.bids.len() == 9
            &&& pool.client_order_id <= plan.next_id
            &&& plan.orders().len() == plan.next_id - pool.client_order_id
            &&& forall|i: int|
                0 <= i < 10 && (#[trigger] plan.asks[i]) is Some ==> order_has_size(
                    plan.asks[i].unwrap(),
                ) && pool.client_order_id <= plan.asks[i].unwrap().client_order_id < plan.next_id
                    && match client.best_bid_price {
                    Some(bid) => plan.asks[i].unwrap().limit_price > bid,
                    None => true,
                }
            &&& forall|i: int|
                0 <= i < 9 && (#[trigger] plan.bids[i]) is Some ==> order_has_size(
                    plan.bids[i].unwrap(),
                ) && pool.client_order_id <= plan.bids[i].unwrap().client_order_id < plan.next_id
                    && match client.best_ask_price {
                    Some(ask) => ask > 1 ==> plan.bids[i].unwrap().limit_price < ask,
                    None => true,
                }
            &&& forall|i: int, j: int|
                0 <= i < j < 10 && (#[trigger] plan.asks[i]) is Some && (#[trigger] plan.asks[j])
                    is Some ==> plan.asks[i].unwrap().client_order_id
                    < plan.asks[j].unwrap().client_order_id
            &&& forall|i: int, j: int|
                0 <= i < j < 9 && (#[trigger] plan.bids[i]) is Some && (#[trigger] plan.bids[j])
                    is Some ==> plan.bids[i].unwrap().client_order_id
                    < plan.bids[j].unwrap().client_order_id
            &&& forall|i: int, j: int|
                0 <= i < 10 && 0 <= j < 9 && (#[trigger] plan.asks[i]) is Some
                    && (#[trigger] plan.bids[j]) is Some ==> plan.asks[i].unwrap().client_order_id
                    < plan.bids[j].unwrap().client_order_id
        }),
{
    let plan = planned(pool, client).unwrap();
    let placing = match pool.pool_type {
        PoolType::XYK => pool.base_amount != 0 && pool.quote_amount != 0,
        PoolType::STABLE => {
            let (base_fac, quote_fac) = spec_token_decs_fac(
                pool.base_decimals,
                pool.quote_decimals,
            ).unwrap();
            pool.base_amount * base_fac != 0 && pool.quote_amount * quote_fac != 0
        },
    };
    if placing {
        let (ask, bid, base, quote, terms) = match pool.pool_type {
            PoolType::XYK => (
                Rung::XykAsk,
                Rung::XykBid,
                pool.base_amount,
                pool.quote_amount,
                client_terms(client),
            ),
            PoolType::STABLE => {
                let (base_fac, quote_fac) = spec_token_decs_fac(
                    pool.base_decimals,
                    pool.quote_decimals,
                ).unwrap();
                let base = (pool.base_amount * base_fac) as u64;
                let quote = (pool.quote_amount * quote_fac) as u64;
                (
                    Rung::StableAsk,
                    Rung::StableBid,
                    base,
                    quote,
                    Terms {
                        d: spec_calc_d(base, quote, STABLESWAP_AMP_COEFFICIENT).unwrap(),
                        base_fac,
                        quote_fac,
                        ..client_terms(client)
                    },
                )
            },
        };
        assert(planned(pool, client) == both_ladders(
            ask,
            bid,
            base,
            quote,
            pool.client_order_id,
            terms,
        ));
        let start = Walk { base, quote, next_id: pool.client_order_id };
        lemma_ladder_identifiers(ask, start, 10, terms);
        let middle = ladder(ask, start, 10, terms).unwrap().0;
        lemma_ladder_identifiers(bid, Walk { base, quote, next_id: middle.next_id }, 9, terms);
    } else {
        lemma_nothing_placed(pool.client_order_id);
    }
}

/// Two asks in a row on the constant product: per unit of base, the first
/// asks less quote than the second would with one more unit of quote.
/// Prices rise along the asks but for what rounding takes.
pub proof fn lemma_xyk_asks_rise(w0: Walk, i: int, terms: Terms)
    requires
        level(Rung::XykAsk, w0, i, terms) is Some,
        level(Rung::XykAsk, level(Rung::XykAsk, w0, i, terms).unwrap().0, i + 1, terms) is Some,
        level_size(w0.base, i) > 0,
        level_size(level(Rung::XykAsk, w0, i, terms).unwrap().0.base, i + 1) > 0,
    ensures
        ({
            let w1 = level(Rung::XykAsk, w0, i, terms).unwrap().0;
            let w2 = level(Rung::XykAsk, w1, i + 1, terms).unwrap().0;
            &&& w0.base - w1.base == level_size(w0.base, i)
            &&& w1.base - w2.base == level_size(w1.base, i + 1)
            &&& (w1.quote - w0.quote) * (w1.base - w2.base) < (w2.quote - w1.quote + 1) * (w0.base
                - w1.base)
        }),
{
    let w1 = level(Rung::XykAsk, w0, i, terms).unwrap().0;
    lemma_walk_moved(Rung::XykAsk, w0, i, terms);
    lemma_walk_moved(Rung::XykAsk, w1, i + 1, terms);
    let w2 = level(Rung::XykAsk, w1, i + 1, terms).unwrap().0;
    lemma_steps_rise(
        w0.base as int,
        w0.quote as int,
        w1.base as int,
        w1.quote as int,
        w2.base as int,
        w2.quote as int,
    );
}

/// Two bids in a row on the constant product: per unit of quote, the first
/// bids for less base than the second would with one more unit of base.
/// Prices fall along the bids but for what rounding takes.
pub proof fn lemma_xyk_bids_fall(w0: Walk, i: int, terms: Terms)
    requires
        level(Rung::XykBid, w0, i, terms) is Some,
        level(Rung::XykBid, level(Rung::XykBid, w0, i, terms).unwrap().0, i + 1, terms) is Some,
        level_size(w0.quote, i) > 0,
        level_size(level(Rung::XykBid, w0, i, terms).unwrap().0.quote, i + 1) > 0,
    ensures
        ({
            let w1 = level(Rung::XykBid, w0, i, terms).unwrap().0;
            let w2 = level(Rung::XykBid, w1, i + 1, terms).unwrap().0;
            &&& w0.quote - w1.quote == level_size(w0.quote, i)
            &&& w1.quote - w2.quote == level_size(w1.quote, i + 1)
            &&& (w1.base - w0.base) * (w1.quote - w2.quote) < (w2.base - w1.base + 1) * (w0.quote
                - w1.quote)
        }),
{
    let w1 = level(Rung::XykBid, w0, i, terms).unwrap().0;
    lemma_walk_moved(Rung::XykBid, w0, i, terms);
    lemma_walk_moved(Rung::XykBid, w1, i + 1, terms);
    let w2 = level(Rung::XykBid, w1, i + 1, terms).unwrap().0;
    assert(w0.base * w0.quote == w0.quote * w0.base) by (nonlinear_arith);
    assert(w1.base * w1.quote == w1.quote * w1.base) by (nonlinear_arith);
    lemma_steps_rise(
        w0.quote as int,
        w0.base as int,
        w1.quote as int,
        w1.base as int,
        w2.quote as int,
        w2.base as int,
    );
}

/// Where a level on the constant product ends its walk, whatever becomes
/// of its order: the side it takes from falls by the size of the level,
/// which is less than what the walk had left, and the other side rises to
/// keep the product, rounded down.
proof fn lemma_walk_moved(rung: Rung, w: Walk, i: int, terms: Terms)
    requires
        rung == Rung::XykAsk || rung == Rung::XykBid,
        level(rung, w, i, terms) is Some,
        walk_share(rung, w, i) > 0,
    ensures
        ({
            let next = level(rung, w, i, terms).unwrap().0;
            let size = walk_share(rung, w, i);
            if rung == Rung::XykAsk {
                0 < next.base == w.base - size && next.quote == w.base * w.quote / (w.base - size)
            } else {
                0 < next.quote == w.quote - size && next.base == w.base * w.quote / (w.quote
                    - size)
            }
        }),
{
    lemma_share_fits(w.base, i);
    lemma_share_fits(w.quote, i);
}

/// Two steps down one side of a constant product, the other side rising
/// to `floor(a * b / a')` each time.
proof fn lemma_steps_rise(a0: int, b0: int, a1: int, b1: int, a2: int, b2: int)
    requires
        0 < a2 < a1 < a0,
        0 <= b0,
        b1 == a0 * b0 / a1,
        b2 == a1 * b1 / a2,
    ensures
        (b1 - b0) * (a1 - a2) < (b2 - b1 + 1) * (a0 - a1),
{
    assert(a0 * b0 >= 0) by (nonlinear_arith)
        requires
            a0 > 0,
            b0 >= 0,
    ;
    lemma_fundamental_div_mod(a0 * b0, a1);
    assert(b1 * a1 <= a0 * b0) by (nonlinear_arith)
        requires
            a0 * b0 == a1 * b1 + (a0 * b0) % a1,
            0 <= (a0 * b0) % a1,
    ;
    assert(b1 >= b0) by (nonlinear_arith)
        requires
            a0 * b0 == a1 * b1 + (a0 * b0) % a1,
            (a0 * b0) % a1 < a1,
            a1 < a0,
            a1 > 0,
            b0 >= 0,
    ;
    assert(a1 * b1 >= 0) by (nonlinear_arith)
        requires
            a1 > 0,
            b1 >= 0,
    ;
    lemma_fundamental_div_mod(a1 * b1, a2);
    assert((b2 + 1) * a2 > a1 * b1) by (nonlinear_arith)
        requires
            a1 * b1 == a2 * b2 + (a1 * b1) % a2,
            (a1 * b1) % a2 < a2,
    ;
    let q0 = b1 - b0;
    let q1 = b2 - b1;
    let s0 = a0 - a1;
    let s1 = a1 - a2;
    // q0 * a1 <= b0 * s0
    assert(q0 * a1 <= b0 * s0) by (nonlinear_arith)
        requires
            q0 == b1 - b0,
            s0 == a0 - a1,
            b1 * a1 <= a0 * b0,
    ;
    // (q1 + 1) * a2 > b1 * s1
    assert((q1 + 1) * a2 > b1 * s1) by (nonlinear_arith)
        requires
            q1 == b2 - b1,
            s1 == a1 - a2,
            (b2 + 1) * a2 > a1 * b1,
    ;
    // b0 * a2 <= b1 * a1
    assert(b0 * a2 <= b1 * a1) by (nonlinear_arith)
        requires
            0 <= b0 <= b1,
            0 < a2 < a1,
    ;
    assert(q0 >= 0 && s0 > 0 && s1 > 0);
    // x = q0 * s1 * a1 * a2 <= b0 * s0 * s1 * a2 <= b1 * a1 * s0 * s1 < (q1 + 1) * a2 * s0 * a1
    let c = a1 * a2;
    assert((q0 * s1) * c <= (b0 * s0) * (s1 * a2)) by (nonlinear_arith)
        requires
            c == a1 * a2,
            q0 * a1 <= b0 * s0,
            s1 > 0,
            a2 > 0,
    ;
    assert((b0 * s0) * (s1 * a2) <= (b1 * s1) * (s0 * a1)) by (nonlinear_arith)
        requires
            b0 * a2 <= b1 * a1,
            s0 > 0,
            s1 > 0,
    ;
    assert((b1 * s1) * (s0 * a1) < ((q1 + 1) * s0) * c) by (nonlinear_arith)
        requires
            c == a1 * a2,
            (q1 + 1) * a2 > b1 * s1,
            s0 > 0,
            a1 > 0,
    ;
    assert(c > 0) by (nonlinear_arith)
        requires
            c == a1 * a2,
            a1 > 0,
            a2 > 0,
    ;
    assert(q0 * s1 < (q1 + 1) * s0) by (nonlinear_arith)
        requires
            (q0 * s1) * c < ((q1 + 1) * s0) * c,
            c > 0,
    ;
}

/// The price of `quote_size` for `base_size` with the fee.
fn price_of(quote_size: u64, base_size: u64, fee: u64, base_lot: u64, quote_lot: u64) -> (r:
    Option<u64>)
    ensures
        match quoted_price(
            quote_size as int,
            base_size as int,
            fee as int,
            base_lot as int,
            quote_lot as int,
        ) {
            Some(p) => r == Some(p as u64),
            None => r is None,
        },
{
    assert(quote_size * base_lot <= u128::MAX) by (nonlinear_arith)
        requires
            quote_size <= u64::MAX,
            base_lot <= u64::MAX,
    ;
    let product = (quote_size as u128).checked_mul(base_lot as u128)?.checked_mul(fee as u128)?;
    if quote_lot == 0 || base_size == 0 {
        return None;
    }
    let price = product / (base_size as u128) / (quote_lot as u128) / 10000;
    if price > u64::MAX as u128 {
        None
    } else {
        Some(price as u64)
    }
}

/// The price moved off the other side of the book.
fn clear_price(rung: Rung, price: u64, terms: &Terms) -> (r: Option<u64>)
    ensures
        match clear_of_book(rung, price as int, *terms) {
            Some(p) => r == Some(p as u64),
            None => r is None,
        },
{
    if rung.is_ask() {
        match terms.best_bid {
            Some(bid) => if price <= bid {
                bid.checked_add(1)
            } else {
                Some(price)
            },
            None => Some(price),
        }
    } else {
        match terms.best_ask {
            Some(ask) => if price >= ask && ask > 1 {
                Some(ask - 1)
            } else {
                Some(price)
            },
            None => Some(price),
        }
    }
}

/// How a level ends once its sizes are known.
fn finish(rung: Rung, w: Walk, base_size: u64, quote_size: u64, terms: &Terms) -> (r: Option<
    (Walk, Option<PlacedOrder>),
>)
    ensures
        r == finish_level(rung, w, base_size as int, quote_size as int, *terms),
{
    if terms.base_lot == 0 {
        return None;
    }
    if base_size == 0 {
        return Some((w, None));
    }
    let lots = base_size / terms.base_lot;
    let price = price_of(quote_size, base_size, rung.fee(), terms.base_lot, terms.quote_lot)?;
    if price == 0 || lots == 0 || quote_size == 0 {
        return Some((w, None));
    }
    let clear = clear_price(rung, price, terms)?;
    let next_id = w.next_id.checked_add(1)?;
    Some(
        (
            Walk { next_id, ..w },
            Some(
                PlacedOrder {
                    limit_price: clear,
                    base_qty: lots,
                    max_native_quote_qty_including_fees: quote_size,
                    client_order_id: w.next_id,
                },
            ),
        ),
    )
}

/// What the other side of the constant product rises to when one side
/// falls from `from` to `to`: `from * other / to`, rounded down.
fn product_kept(from: u64, other: u64, to: u64) -> (r: Option<u64>)
    requires
        to > 0,
    ensures
        match r {
            Some(v) => v == from * other / (to as int),
            None => from * other / (to as int) > u64::MAX,
        },
{
    assert(from as u128 * other as u128 <= u128::MAX) by (nonlinear_arith)
        requires
            from <= u64::MAX,
            other <= u64::MAX,
    ;
    let end: u128 = (from as u128 * other as u128) / (to as u128);
    if end > u64::MAX as u128 {
        None
    } else {
        Some(end as u64)
    }
}

/// Level `i` of a ladder from where the walk stands.
fn walk_level(rung: Rung, w: Walk, i: usize, terms: &Terms) -> (r: Option<
    (Walk, Option<PlacedOrder>),
>)
    requires
        i < 10,
    ensures
        r == level(rung, w, i as int, *terms),
{
    let left: u64 = if rung.is_ask() {
        w.base
    } else {
        w.quote
    };
    proof {
        lemma_share_fits(left, i as int);
    }
    let size: u64 = ((left as u128 * numerator_at(i) as u128) / (ORDER_DENOMINATOR as u128)) as u64;
    match rung {
        Rung::XykAsk => {
            if w.base <= size {
                return Some((w, None));
            }
            let end_base = w.base - size;
            let end_quote = product_kept(w.base, w.quote, end_base)?;
            let found = end_quote.checked_sub(w.quote)?;
            finish(rung, Walk { base: end_base, quote: end_quote, ..w }, size, found, terms)
        },
        Rung::XykBid => {
            if w.quote <= size {
                return Some((w, None));
            }
            let end_quote = w.quote - size;
            assert(w.base * w.quote == w.quote * w.base) by (nonlinear_arith);
            let end_base = product_kept(w.quote, w.base, end_quote)?;
            let found = end_base.checked_sub(w.base)?;
            finish(rung, Walk { base: end_base, quote: end_quote, ..w }, found, size, terms)
        },
        Rung::StableAsk => {
            if w.base <= size || size == 0 {
                return Some((w, None));
            }
            let found = match calc_dy(w.base, w.quote, STABLESWAP_AMP_COEFFICIENT, terms.d, size) {
                Some(dy) => dy,
                None => 0,
            };
            let end_quote = w.quote.checked_add(found)?;
            if terms.base_fac == 0 || terms.quote_fac == 0 {
                return None;
            }
            finish(
                rung,
                Walk { base: w.base - size, quote: end_quote, ..w },
                size / terms.base_fac,
                found / terms.quote_fac,
                terms,
            )
        },
        Rung::StableBid => {
            if w.quote <= size || size == 0 {
                return Some((w, None));
            }
            let found = match calc_dy(w.quote, w.base, STABLESWAP_AMP_COEFFICIENT, terms.d, size) {
                Some(dx) => dx,
                None => 0,
            };
            let end_base = w.base.checked_add(found)?;
            if terms.base_fac == 0 || terms.quote_fac == 0 {
                return None;
            }
            finish(
                rung,
                Walk { base: end_base, quote: w.quote - size, ..w },
                found / terms.base_fac,
                size / terms.quote_fac,
                terms,
            )
        },
    }
}

/// Walks the `N` levels of one ladder, writes each order into the slot of
/// its level, empties the slot of a level left out, and adds the orders to
/// the requests.
fn walk_ladder<const N: usize>(
    rung: Rung,
    start: Walk,
    terms: &Terms,
    slots: &mut [PlacedOrder; N],
    out: &mut Vec<NewOrder>,
) -> (r: Option<Walk>)
    requires
        N <= 10,
    ensures
        match r {
            Some(w) => {
                &&& ladder(rung, start, N as nat, *terms) is Some
                &&& ladder(rung, start, N as nat, *terms).unwrap().0 == w
                &&& forall|i: int|
                    0 <= i < N ==> final(slots)@[i] == match ladder(
                        rung,
                        start,
                        N as nat,
                        *terms,
                    ).unwrap().1[i] {
                        Some(p) => p,
                        None => PlacedOrder::empty(),
                    }
                &&& final(out)@ == old(out)@ + requests(
                    rung.side(),
                    ladder(rung, start, N as nat, *terms).unwrap().1,
                    N as nat,
                )
            },
            None => ladder(rung, start, N as nat, *terms) is None,
        },
{
    let mut w = start;
    let mut i: usize = 0;
    let ghost mut levels: Seq<Option<PlacedOrder>> = Seq::empty();
    assert(out@ =~= old(out)@ + requests(rung.side(), levels, 0));
    while i < N
        invariant
            i <= N <= 10,
            slots@.len() == N,
            old(slots)@.len() == N,
            levels.len() == i,
            ladder(rung, start, i as nat, *terms) == Some((w, levels)),
            forall|j: int|
                0 <= j < i ==> slots@[j] == match levels[j] {
                    Some(p) => p,
                    None => PlacedOrder::empty(),
                },
            out@ == old(out)@ + requests(rung.side(), levels, i as nat),
        decreases N - i,
    {
        match walk_level(rung, w, i, terms) {
            None => {
                proof {
                    lemma_ladder_stays_failed(rung, start, (i + 1) as nat, N as nat, *terms);
                }
                return None;
            },
            Some((next, order)) => {
                proof {
                    lemma_requests_prefix(rung.side(), levels, levels.push(order), i as nat);
                }
                match order {
                    Some(p) => {
                        slots[i] = p;
                        out.push(
                            NewOrder {
                                side: if rung.is_ask() {
                                    Side::Ask
                                } else {
                                    Side::Bid
                                },
                                limit_price: p.limit_price,
                                max_coin_qty: p.base_qty,
                                max_native_pc_qty_including_fees:
                                    p.max_native_quote_qty_including_fees,
                                client_order_id: p.client_order_id,
                            },
                        );
                    },
                    None => {
                        slots[i] = PlacedOrder::default();
                    },
                }
                proof {
                    levels = levels.push(order);
                    assert(out@ =~= old(out)@ + requests(rung.side(), levels, (i + 1) as nat));
                }
                w = next;
            },
        }
        i += 1;
    }
    Some(w)
}

impl OrderbookClient {
    /// The terms that this client gives a walk.
    fn terms(&self) -> (r: Terms)
        ensures
            r == client_terms(self@),
    {
        Terms {
                base_lot: self.base_lot_size,
            quote_lot: self.quote_lot_size,
            best_bid: self.best_bid_price,
            best_ask: self.best_ask_price,
            d: 0,
            base_fac: 1,
            quote_fac: 1,
        }
    }

    /// Walks both ladders from the reserves `base` and `quote` and records
    /// them in `pool`.
    fn place_both(
        &self,
        ask: Rung,
        bid: Rung,
        base: u64,
        quote: u64,
        terms: Terms,
        pool: &mut OpenAmmPool,
    ) -> (r: Option<Vec<NewOrder>>)
        requires
            ask.side() == Side::Ask,
            bid.side() == Side::Bid,
        ensures
            match r {
                Some(orders) => {
                    &&& both_ladders(ask, bid, base, quote, old(pool).client_order_id, terms) is Some
                    &&& final(pool)@ == record_plan(
                        old(pool)@,
                        both_ladders(ask, bid, base, quote, old(pool).client_order_id, terms).unwrap(),
                    )
                    &&& orders@ == both_ladders(
                        ask,
                        bid,
                        base,
                        quote,
                        old(pool).client_order_id,
                        terms,
                    ).unwrap().orders()
                },
                None => both_ladders(ask, bid, base, quote, old(pool).client_order_id, terms) is None
                    && *final(pool) == *old(pool),
            },
    {
        let mut asks = pool.placed_asks;
        let mut bids = pool.placed_bids;
        let mut orders: Vec<NewOrder> = Vec::new();
        let start = Walk { base, quote, next_id: pool.client_order_id };
        let after_asks = walk_ladder(ask, start, &terms, &mut asks, &mut orders)?;
        let after_bids = walk_ladder(
            bid,
            Walk { base, quote, next_id: after_asks.next_id },
            &terms,
            &mut bids,
            &mut orders,
        )?;
        proof {
            lemma_ladder_length(ask, start, 10, terms);
            lemma_ladder_length(bid, Walk { base, quote, next_id: after_asks.next_id }, 9, terms);
            let plan = both_ladders(ask, bid, base, quote, old(pool).client_order_id, terms).unwrap();
            assert(orders@ =~= plan.orders());
        }
        pool.placed_asks = asks;
        pool.placed_bids = bids;
        pool.client_order_id = after_bids.next_id;
        proof {
            let plan = both_ladders(ask, bid, base, quote, old(pool).client_order_id, terms).unwrap();
            assert(pool.placed_asks@ =~= record_plan(old(pool)@, plan).placed_asks);
            assert(pool.placed_bids@ =~= record_plan(old(pool)@, plan).placed_bids);
        }
        Some(orders)
    }

    /// Places the ladders of a pool on the constant product: ten asks and
    /// nine bids, each walked along `x * y = k` from the reserves, with a
    /// fee of 20 parts in ten thousand. The orders are written over what
    /// the pool had recorded and returned for the venue, asks first; the
    /// slot of a level left out is empty. A pool with an empty side places
    /// nothing, and all its slots are empty.
    ///
    /// `None` where an amount does not fit; the pool is then as it was.
    pub fn place_xyk_orders(&self, pool: &mut OpenAmmPool) -> (r: Option<Vec<NewOrder>>)
        ensures
            match r {
                Some(orders) => xyk_plan(old(pool)@, self@) is Some && final(pool)@ == record_plan(
                    old(pool)@,
                    xyk_plan(old(pool)@, self@).unwrap(),
                ) && orders@ == xyk_plan(old(pool)@, self@).unwrap().orders(),
                None => xyk_plan(old(pool)@, self@) is None && *final(pool) == *old(pool),
            },
    {
        if pool.base_amount == 0 || pool.quote_amount == 0 {
            pool.reset_placed_orders();
            proof {
                lemma_nothing_placed(pool.client_order_id);
                let plan = Plan::nothing(pool.client_order_id);
                assert(pool.placed_asks@ =~= record_plan(old(pool)@, plan).placed_asks);
                assert(pool.placed_bids@ =~= record_plan(old(pool)@, plan).placed_bids);
            }
            return Some(Vec::new());
        }
        self.place_both(
            Rung::XykAsk,
            Rung::XykBid,
            pool.base_amount,
            pool.quote_amount,
            self.terms(),
            pool,
        )
    }

    /// Places the ladders of a pool on the low-slippage curve: ten asks and
    /// nine bids, each walked along the curve of the balanced value of the
    /// reserves at equal decimals, with a fee of 4 parts in ten thousand.
    /// A level that the curve cannot size is left out. The orders are
    /// written over what the pool had recorded and returned for the venue,
    /// asks first; the slot of a level left out is empty. A pool with an
    /// empty side places nothing, and all its slots are empty.
    ///
    /// `None` where an amount does not fit or the reserves have no balanced
    /// value; the pool is then as it was.
    pub fn place_stableswap_orders(&self, pool: &mut OpenAmmPool) -> (r: Option<Vec<NewOrder>>)
        ensures
            match r {
                Some(orders) => stableswap_plan(old(pool)@, self@) is Some && final(pool)@ == record_plan(
                    old(pool)@,
                    stableswap_plan(old(pool)@, self@).unwrap(),
                ) && orders@ == stableswap_plan(old(pool)@, self@).unwrap().orders(),
                None => stableswap_plan(old(pool)@, self@) is None && *final(pool) == *old(pool),
            },
    {
        let (base_fac, quote_fac) = get_token_decs_fac(pool.base_decimals, pool.quote_decimals)?;
        let base = pool.base_amount.checked_mul(base_fac)?;
        let quote = pool.quote_amount.checked_mul(quote_fac)?;
        if base == 0 || quote == 0 {
            pool.reset_placed_orders();
            proof {
                lemma_nothing_placed(pool.client_order_id);
                let plan = Plan::nothing(pool.client_order_id);
                assert(pool.placed_asks@ =~= record_plan(old(pool)@, plan).placed_asks);
                assert(pool.placed_bids@ =~= record_plan(old(pool)@, plan).placed_bids);
            }
            return Some(Vec::new());
        }
        let d = calc_d(base, quote, STABLESWAP_AMP_COEFFICIENT)?;
        let terms = Terms { d, base_fac, quote_fac, ..self.terms() };
        self.place_both(Rung::StableAsk, Rung::StableBid, base, quote, terms, pool)
    }

    /// Places the ladders of a pool, by its curve.
    pub fn place_new_orders(&self, pool: &mut OpenAmmPool) -> (r: Option<Vec<NewOrder>>)
        ensures
            match r {
                Some(orders) => planned(old(pool)@, self@) is Some && final(pool)@ == record_plan(
                    old(pool)@,
                    planned(old(pool)@, self@).unwrap(),
                ) && orders@ == planned(old(pool)@, self@).unwrap().orders(),
                None => planned(old(pool)@, self@) is None && *final(pool) == *old(pool),
            },
    {
        match pool.pool_type {
            PoolType::XYK => self.place_xyk_orders(pool),
            PoolType::STABLE => self.place_stableswap_orders(pool),
        }
    }
}

proof fn lemma_no_requests(side: Side, levels: Seq<Option<PlacedOrder>>, n: nat)
    requires
        n <= levels.len(),
        forall|i: int| 0 <= i < levels.len() ==> levels[i] is None,
    ensures
        requests(side, levels, n) == Seq::<NewOrder>::empty(),
    decreases n,
{
    if n > 0 {
        lemma_no_requests(side, levels, (n - 1) as nat);
    }
}

proof fn lemma_nothing_placed(next_id: u64)
    ensures
        Plan::nothing(next_id).orders() == Seq::<NewOrder>::empty(),
{
    let plan = Plan::nothing(next_id);
    lemma_no_requests(Side::Ask, plan.asks, 10);
    lemma_no_requests(Side::Bid, plan.bids, 9);
    assert(plan.orders() =~= Seq::<NewOrder>::empty());
}

} // verus!
