//! The view a pool has of its venue, and what follows from it: which of the
//! orders it placed were filled, and which orders it places next.
use crate::state::{OpenAmmPool, PlacedOrder, PoolType, PoolView};
use vstd::prelude::*;

verus! {

/// The share of a fill that is set aside for the next refresh: one part in
/// `REFUND_DENOMINATOR`.
pub const REFUND_DENOMINATOR: u64 = 10_000;

/// Orders with an identifier more than this far behind the counter of the
/// pool are not looked at.
pub const MAX_LIVE_ORDERS: u64 = 20;

/// The side of the book an order rests on.
#[derive(Clone, Copy, Debug, PartialEq, Eq, Structural)]
pub enum Side {
    /// An offer to buy base.
    Bid,
    /// An offer to sell base.
    Ask,
}

/// An order of the pool as it rests on the venue.
#[derive(Clone, Copy, Debug, PartialEq, Eq, Structural)]
pub struct CurrentOrder {
    pub side: Side,
    /// The identifier that the venue gave the order.
    pub order_id: u128,
    /// The identifier that the pool stamped on the order.
    pub client_order_id: u64,
    /// The price, in quote lots for one base lot.
    pub limit_price: u64,
    /// What is left of the order, in base lots.
    pub base_qty: u64,
}

/// An order for the venue to place. It is post-only and gives way to an
/// order of the same owner that it would trade with.
#[derive(Clone, Copy, Debug, PartialEq, Eq, Structural)]
pub struct NewOrder {
    pub side: Side,
    /// The price, in quote lots for one base lot; not zero.
    pub limit_price: u64,
    /// The size, in base lots; not zero.
    pub max_coin_qty: u64,
    /// The most that the order may move on the quote side; not zero.
    pub max_native_pc_qty_including_fees: u64,
    /// The identifier that the pool stamps on the order.
    pub client_order_id: u64,
}

/// An order for the venue to take off the book.
#[derive(Clone, Copy, Debug, PartialEq, Eq, Structural)]
pub struct CancelOrder {
    pub side: Side,
    /// The identifier that the venue gave the order.
    pub order_id: u128,
}

/// One slot in use of the account of the pool at the venue.
#[derive(Clone, Copy, Debug)]
pub struct OpenOrderSlot {
    /// The identifier that the pool stamped on the order of this slot.
    pub client_order_id: u64,
    /// The identifier that the venue gave the order.
    pub order_id: u128,
    pub side: Side,
    /// The order as the book holds it, or `None` where the book holds no
    /// order of that identifier.
    pub resting: Option<RestingOrder>,
}

/// What the book says of an order.
#[derive(Clone, Copy, Debug)]
pub struct RestingOrder {
    pub limit_price: u64,
    pub base_qty: u64,
    pub client_order_id: u64,
}

/// What a pool reads from its venue at the start of an operation.
pub struct OrderbookClient {
    /// Native base units in one base lot.
    pub base_lot_size: u64,
    /// Native quote units in one quote lot.
    pub quote_lot_size: u64,
    /// All base that the venue holds for the pool.
    pub native_base_total: u64,
    /// All quote that the venue holds for the pool.
    pub native_quote_total: u64,
    /// The base that the venue holds for the pool outside of orders.
    pub native_base_free: u64,
    /// The quote that the venue holds for the pool outside of orders.
    pub native_quote_free: u64,
    /// The orders of the pool that rest on the book.
    pub orders: Vec<CurrentOrder>,
    /// The highest bid on the book, where it was read.
    pub best_bid_price: Option<u64>,
    /// The lowest ask on the book, where it was read.
    pub best_ask_price: Option<u64>,
    pub pool_bump: u8,
    pub pool_type: PoolType,
}

/// A view of the venue as a value to reason about.
pub struct ClientView {
    pub base_lot_size: u64,
    pub quote_lot_size: u64,
    pub native_base_total: u64,
    pub native_quote_total: u64,
    pub native_base_free: u64,
    pub native_quote_free: u64,
    pub orders: Seq<CurrentOrder>,
    pub best_bid_price: Option<u64>,
    pub best_ask_price: Option<u64>,
    pub pool_bump: u8,
    pub pool_type: PoolType,
}

impl View for OrderbookClient {
    type V = ClientView;

    open spec fn view(&self) -> ClientView {
        ClientView {
            base_lot_size: self.base_lot_size,
            quote_lot_size: self.quote_lot_size,
            native_base_total: self.native_base_total,
            native_quote_total: self.native_quote_total,
            native_base_free: self.native_base_free,
            native_quote_free: self.native_quote_free,
            orders: self.orders@,
            best_bid_price: self.best_bid_price,
            best_ask_price: self.best_ask_price,
            pool_bump: self.pool_bump,
            pool_type: self.pool_type,
        }
    }
}

/// Greatest common divisor of two naturals.
pub open spec fn spec_gcd(a: nat, b: nat) -> nat
    decreases b,
{
    if b == 0 {
        a
    } else {
        spec_gcd(b, a % b)
    }
}

/// Greatest common divisor of `a` and `b`; `gcd(a, 0)` is `a`.
pub fn gcd(a: u64, b: u64) -> (r: u64)
    ensures
        r == spec_gcd(a as nat, b as nat),
    decreases b,
{
    if b == 0 {
        a
    } else {
        gcd(b, a % b)
    }
}

/// What [`same_fraction`] returns.
pub open spec fn spec_same_fraction(fraction1: (u64, u64), fraction2: (u64, u64)) -> Option<bool> {
    let g1 = spec_gcd(fraction1.0 as nat, fraction1.1 as nat);
    let g2 = spec_gcd(fraction2.0 as nat, fraction2.1 as nat);
    if g1 == 0 || g2 == 0 {
        None
    } else {
        Some(
            fraction1.0 as nat / g1 == fraction2.0 as nat / g2 && fraction1.1 as nat / g1
                == fraction2.1 as nat / g2,
        )
    }
}

/// Whether two fractions are equal once each is reduced by the greatest
/// common divisor of its two parts. `None` where a fraction is `0 / 0`,
/// which nothing reduces.
pub fn same_fraction(fraction1: (u64, u64), fraction2: (u64, u64)) -> (r: Option<bool>)
    ensures
        r == spec_same_fraction(fraction1, fraction2),
{
    let gcd1 = gcd(fraction1.0, fraction1.1);
    let gcd2 = gcd(fraction2.0, fraction2.1);
    if gcd1 == 0 || gcd2 == 0 {
        return None;
    }
    Some(
        fraction1.0 / gcd1 == fraction2.0 / gcd2 && fraction1.1 / gcd1 == fraction2.1 / gcd2,
    )
}

/// The greatest common divisor divides both numbers, and is zero only for
/// two zeros.
pub proof fn lemma_gcd_divides(a: nat, b: nat)
    ensures
        spec_gcd(a, b) == 0 <==> a == 0 && b == 0,
        spec_gcd(a, b) > 0 ==> a == spec_gcd(a, b) * (a / spec_gcd(a, b)) && b == spec_gcd(a, b) * (
        b / spec_gcd(a, b)),
    decreases b,
{
    let g = spec_gcd(a, b);
    if b == 0 {
        if a > 0 {
            vstd::arithmetic::div_mod::lemma_div_basics(a as int);
            assert(a * 1 == a && a * 0 == 0) by (nonlinear_arith);
        }
    } else {
        let r = a % b;
        lemma_gcd_divides(b, r);
        vstd::arithmetic::div_mod::lemma_fundamental_div_mod(a as int, b as int);
        let q = a / b;
        let bg = b / g;
        let rg = r / g;
        assert(a == g * (bg * q + rg)) by (nonlinear_arith)
            requires
                a == b * q + r,
                b == g * bg,
                r == g * rg,
        ;
        assert(g > 0);
        vstd::arithmetic::div_mod::lemma_fundamental_div_mod_converse(
            a as int,
            g as int,
            (bg * q + rg) as int,
            0,
        );
    }
}

/// Two whole numbers that combine `a` and `b` to their greatest common
/// divisor.
proof fn lemma_bezout(a: nat, b: nat) -> (r: (int, int))
    ensures
        a * r.0 + b * r.1 == spec_gcd(a, b),
    decreases b,
{
    if b == 0 {
        assert(a * 1 + b * 0 == a) by (nonlinear_arith)
            requires
                b == 0,
        ;
        (1, 0)
    } else {
        let (x, y) = lemma_bezout(b, a % b);
        vstd::arithmetic::div_mod::lemma_fundamental_div_mod(a as int, b as int);
        let q = (a / b) as int;
        let m = (a % b) as int;
        assert(a * y + b * (x - q * y) == b * x + m * y) by (nonlinear_arith)
            requires
                a == b * q + m,
        ;
        (y, x - q * y)
    }
}

/// A fraction in lowest terms: `n = g * n'` and `d = g * d'` for the
/// greatest common divisor `g > 0`, and two whole numbers combine `n'` and
/// `d'` to one.
proof fn lemma_lowest_terms(n: nat, d: nat) -> (r: (int, int))
    requires
        spec_gcd(n, d) > 0,
    ensures
        n == spec_gcd(n, d) * (n / spec_gcd(n, d)),
        d == spec_gcd(n, d) * (d / spec_gcd(n, d)),
        (n / spec_gcd(n, d)) * r.0 + (d / spec_gcd(n, d)) * r.1 == 1,
{
    let g = spec_gcd(n, d);
    lemma_gcd_divides(n, d);
    let (x, y) = lemma_bezout(n, d);
    let n1 = n / g;
    let d1 = d / g;
    assert(g * (n1 * x + d1 * y) == g) by (nonlinear_arith)
        requires
            n == g * n1,
            d == g * d1,
            n * x + d * y == g,
    ;
    assert(n1 * x + d1 * y == 1) by (nonlinear_arith)
        requires
            g * (n1 * x + d1 * y) == g,
            g > 0,
    ;
    (x, y)
}

/// Two fractions in lowest terms with equal cross products are the same.
proof fn lemma_lowest_terms_unique(a: int, b: int, c: int, d: int, x: int, y: int, u: int, v: int)
    requires
        a >= 0,
        b >= 0,
        c >= 0,
        d >= 0,
        a * x + b * y == 1,
        c * u + d * v == 1,
        a * d == c * b,
    ensures
        a == c,
        b == d,
{
    let k = a * u + b * v;
    let m = c * x + d * y;
    assert(a == c * k) by (nonlinear_arith)
        requires
            k == a * u + b * v,
            c * u + d * v == 1,
            a * d == c * b,
    ;
    assert(b == d * k) by (nonlinear_arith)
        requires
            k == a * u + b * v,
            c * u + d * v == 1,
            a * d == c * b,
    ;
    assert(c == a * m) by (nonlinear_arith)
        requires
            m == c * x + d * y,
            a * x + b * y == 1,
            a * d == c * b,
    ;
    assert(d == b * m) by (nonlinear_arith)
        requires
            m == c * x + d * y,
            a * x + b * y == 1,
            a * d == c * b,
    ;
    if a > 0 {
        assert(k == 1) by (nonlinear_arith)
            requires
                a == c * k,
                c == a * m,
                a > 0,
                c >= 0,
        ;
    } else {
        assert(b > 0) by (nonlinear_arith)
            requires
                a * x + b * y == 1,
                a == 0,
                b >= 0,
        ;
        assert(k == 1) by (nonlinear_arith)
            requires
                b == d * k,
                d == b * m,
                b > 0,
                d >= 0,
        ;
    }
    assert(c * 1 == c && d * 1 == d) by (nonlinear_arith);
}

/// What [`same_fraction`] decides is whether the fractions are equal: it
/// holds exactly where the cross products are.
pub proof fn lemma_same_fraction_is_equality(fraction1: (u64, u64), fraction2: (u64, u64))
    requires
        spec_same_fraction(fraction1, fraction2) is Some,
    ensures
        spec_same_fraction(fraction1, fraction2) == Some(
            fraction1.0 * fraction2.1 == fraction2.0 * fraction1.1,
        ),
{
    let (a, b) = (fraction1.0 as nat, fraction1.1 as nat);
    let (c, d) = (fraction2.0 as nat, fraction2.1 as nat);
    let g1 = spec_gcd(a, b);
    let g2 = spec_gcd(c, d);
    let (x, y) = lemma_lowest_terms(a, b);
    let (u, v) = lemma_lowest_terms(c, d);
    let (a1, b1) = ((a / g1) as int, (b / g1) as int);
    let (c1, d1) = ((c / g2) as int, (d / g2) as int);
    assert(a * d == (g1 * g2) * (a1 * d1)) by (nonlinear_arith)
        requires
            a == g1 * a1,
            d == g2 * d1,
    ;
    assert(c * b == (g1 * g2) * (c1 * b1)) by (nonlinear_arith)
        requires
            c == g2 * c1,
            b == g1 * b1,
    ;
    if a * d == c * b {
        assert(a1 * d1 == c1 * b1) by (nonlinear_arith)
            requires
                (g1 * g2) * (a1 * d1) == (g1 * g2) * (c1 * b1),
                g1 > 0,
                g2 > 0,
        ;
        lemma_lowest_terms_unique(a1, b1, c1, d1, x, y, u, v);
    }
}

/// Whether an order with the identifier `id` is looked at by a pool whose
/// counter stands at `counter`.
pub open spec fn in_window(counter: u64, id: u64) -> bool {
    counter <= MAX_LIVE_ORDERS || id >= counter - MAX_LIVE_ORDERS
}

/// The orders that the first `n` slots show to be resting on the book, in
/// the order of the slots.
pub open spec fn live_orders(slots: Seq<OpenOrderSlot>, counter: u64, n: nat) -> Seq<CurrentOrder>
    decreases n,
{
    if n == 0 || n > slots.len() {
        Seq::empty()
    } else {
        let rest = live_orders(slots, counter, (n - 1) as nat);
        let slot = slots[n - 1];
        match slot.resting {
            Some(o) => if in_window(counter, slot.client_order_id) {
                rest.push(
                    CurrentOrder {
                        side: slot.side,
                        order_id: slot.order_id,
                        client_order_id: o.client_order_id,
                        limit_price: o.limit_price,
                        base_qty: o.base_qty,
                    },
                )
            } else {
                rest
            },
            None => rest,
        }
    }
}

/// What the venue shows of a pool, before it is sifted.
pub struct VenueSnapshot {
    pub base_lot_size: u64,
    pub quote_lot_size: u64,
    pub native_base_total: u64,
    pub native_quote_total: u64,
    pub native_base_free: u64,
    pub native_quote_free: u64,
    /// The slots in use of the account of the pool, in their order.
    pub slots: Vec<OpenOrderSlot>,
    pub best_bid_price: Option<u64>,
    pub best_ask_price: Option<u64>,
}

/// What [`get_orderbook`] returns.
pub open spec fn spec_orderbook(
    curr_client_order_id: u64,
    pool_bump: u8,
    pool_type: PoolType,
    venue: &VenueSnapshot,
) -> Option<ClientView> {
    if exists|i: int| 0 <= i < venue.slots@.len() && venue.slots@[i].client_order_id == 0 {
        None
    } else {
        Some(
            ClientView {
                base_lot_size: venue.base_lot_size,
                quote_lot_size: venue.quote_lot_size,
                native_base_total: venue.native_base_total,
                native_quote_total: venue.native_quote_total,
                native_base_free: venue.native_base_free,
                native_quote_free: venue.native_quote_free,
                orders: live_orders(venue.slots@, curr_client_order_id, venue.slots@.len()),
                best_bid_price: venue.best_bid_price,
                best_ask_price: venue.best_ask_price,
                pool_bump,
                pool_type,
            },
        )
    }
}

/// The view of the venue for a pool whose counter stands at
/// `curr_client_order_id`: the lot sizes and balances as the venue shows
/// them, and of the slots those that hold a recent order that still rests on
/// the book. `None` where a slot in use carries the identifier zero, which
/// no pool stamps.
pub fn get_orderbook(
    curr_client_order_id: u64,
    pool_bump: u8,
    pool_type: PoolType,
    venue: &VenueSnapshot,
) -> (r: Option<OrderbookClient>)
    ensures
        match r {
            Some(c) => spec_orderbook(curr_client_order_id, pool_bump, pool_type, venue) == Some(
                c@,
            ),
            None => spec_orderbook(curr_client_order_id, pool_bump, pool_type, venue) is None,
        },
{
    let mut orders: Vec<CurrentOrder> = Vec::new();
    let mut i: usize = 0;
    while i < venue.slots.len()
        invariant
            i <= venue.slots@.len(),
            forall|j: int| 0 <= j < i ==> venue.slots@[j].client_order_id != 0,
            orders@ == live_orders(venue.slots@, curr_client_order_id, i as nat),
        decreases venue.slots@.len() - i,
    {
        let slot = venue.slots[i];
        if slot.client_order_id == 0 {
            return None;
        }
        let recent = curr_client_order_id <= MAX_LIVE_ORDERS || slot.client_order_id
            >= curr_client_order_id - MAX_LIVE_ORDERS;
        if recent {
            match slot.resting {
                Some(o) => {
                    orders.push(
                        CurrentOrder {
                            side: slot.side,
                            order_id: slot.order_id,
                            client_order_id: o.client_order_id,
                            limit_price: o.limit_price,
                            base_qty: o.base_qty,
                        },
                    );
                },
                None => {},
            }
        }
        i += 1;
    }
    Some(
        OrderbookClient {
            base_lot_size: venue.base_lot_size,
            quote_lot_size: venue.quote_lot_size,
            native_base_total: venue.native_base_total,
            native_quote_total: venue.native_quote_total,
            native_base_free: venue.native_base_free,
            native_quote_free: venue.native_quote_free,
            orders,
            best_bid_price: venue.best_bid_price,
            best_ask_price: venue.best_ask_price,
            pool_bump,
            pool_type,
        },
    )
}

/// The first order at or after position `i` that rests on `side` under the
/// identifier `id`.
pub open spec fn find_live(orders: Seq<CurrentOrder>, side: Side, id: u64, i: int) -> Option<
    CurrentOrder,
>
    decreases orders.len() - i,
{
    if i < 0 || i >= orders.len() {
        None
    } else if orders[i].side == side && orders[i].client_order_id == id {
        Some(orders[i])
    } else {
        find_live(orders, side, id, i + 1)
    }
}

/// Whether no slot after `i` holds an order.
pub open spec fn is_last_filled(slots: Seq<PlacedOrder>, i: int) -> bool {
    forall|j: int| i < j < slots.len() ==> slots[j].base_qty == 0
}

/// The quote value of `amount` native base units at `price`:
/// `amount * price * quote_lot / base_lot`, rounded down. `None` where a
/// product does not fit or the base lot is zero.
pub open spec fn fill_value(amount: int, price: int, quote_lot: int, base_lot: int) -> Option<
    int,
> {
    if amount * price > u64::MAX || amount * price * quote_lot > u64::MAX || base_lot == 0 {
        None
    } else {
        Some(amount * price * quote_lot / base_lot)
    }
}

/// The books of one pass over the placed orders.
pub struct Tally {
    /// The base reserve.
    pub base: int,
    /// The quote reserve.
    pub quote: int,
    /// The counter of all quote that fills brought in.
    pub cumulative_quote: int,
    /// The counter of all base that fills brought in.
    pub cumulative_base: int,
    /// The base that filled asks took out of the reserve in this pass.
    pub sold_base: int,
    /// The quote that filled bids took out of the reserve in this pass.
    pub paid_quote: int,
    /// The quote that filled asks brought in in this pass, before the skim.
    pub moved_quote: int,
    /// The base that filled bids brought in in this pass, before the skim.
    pub moved_base: int,
    /// The quote kept back from the reserve in this pass, fill by fill; it
    /// is what the pool comes to owe in quote.
    pub skimmed_quote: int,
    /// The base kept back from the reserve in this pass, fill by fill; it
    /// is what the pool comes to owe in base.
    pub skimmed_base: int,
    /// Whether the pool goes on placing orders.
    pub active: bool,
}

/// The books before the first placed order is looked at.
pub open spec fn opening_tally(pool: PoolView) -> Tally {
    Tally {
        base: pool.base_amount as int,
        quote: pool.quote_amount as int,
        cumulative_quote: pool.cumulative_quote_volume as int,
        cumulative_base: pool.cumulative_base_volume as int,
        sold_base: 0,
        paid_quote: 0,
        moved_quote: 0,
        moved_base: 0,
        skimmed_quote: 0,
        skimmed_base: 0,
        active: pool.mm_active,
    }
}

/// The books after one placed ask is settled. What the live order has left
/// counts as unfilled; an ask that is gone counts as filled in full, and
/// pauses the pool if it was the last one placed. The fill leaves the base
/// reserve and its value enters the quote reserve, less the skim. `None`
/// where an amount does not fit.
pub open spec fn settle_ask(
    t: Tally,
    p: PlacedOrder,
    last: bool,
    orders: Seq<CurrentOrder>,
    base_lot: u64,
    quote_lot: u64,
) -> Option<Tally> {
    if p.base_qty == 0 {
        Some(t)
    } else {
        let placed = p.base_qty * base_lot;
        let live = find_live(orders, Side::Ask, p.client_order_id, 0);
        let rest = match live {
            Some(c) => c.base_qty * base_lot,
            None => 0,
        };
        if placed > u64::MAX || rest > u64::MAX || rest > placed {
            None
        } else {
            let less = placed - rest;
            match fill_value(less, p.limit_price as int, quote_lot as int, base_lot as int) {
                None => None,
                Some(more) => if t.base - less < 0 || t.quote + more > u64::MAX || t.moved_quote
                    + more > u64::MAX || t.cumulative_quote + more > u64::MAX {
                    None
                } else {
                    Some(
                        Tally {
                            base: t.base - less,
                            quote: t.quote + more - more / 10000,
                            cumulative_quote: t.cumulative_quote + more,
                            sold_base: t.sold_base + less,
                            moved_quote: t.moved_quote + more,
                            skimmed_quote: t.skimmed_quote + more / 10000,
                            active: t.active && !(live is None && last),
                            ..t
                        },
                    )
                },
            }
        }
    }
}

/// The books after one placed bid is settled. The bid counts with the size
/// that its quote limit allows at its price. What the live order has left
/// counts as unfilled; a bid that is gone counts as filled in full, and
/// pauses the pool if it was the last one placed. The fill enters the base
/// reserve, less the skim, and its value leaves the quote reserve. `None`
/// where an amount does not fit or the price is zero.
pub open spec fn settle_bid(
    t: Tally,
    p: PlacedOrder,
    last: bool,
    orders: Seq<CurrentOrder>,
    base_lot: u64,
    quote_lot: u64,
) -> Option<Tally> {
    if p.base_qty == 0 {
        Some(t)
    } else if p.limit_price == 0 {
        None
    } else {
        let by_quote = p.max_native_quote_qty_including_fees / p.limit_price;
        let qty = if by_quote < p.base_qty {
            by_quote
        } else {
            p.base_qty
        };
        let placed = qty * base_lot;
        let live = find_live(orders, Side::Bid, p.client_order_id, 0);
        let rest = match live {
            Some(c) => c.base_qty * base_lot,
            None => 0,
        };
        if placed > u64::MAX || rest > u64::MAX || rest > placed {
            None
        } else {
            let more = placed - rest;
            match fill_value(more, p.limit_price as int, quote_lot as int, base_lot as int) {
                None => None,
                Some(less) => if t.moved_base + more > u64::MAX || t.base + more > u64::MAX
                    || t.quote - less < 0 || t.cumulative_base + more > u64::MAX {
                    None
                } else {
                    Some(
                        Tally {
                            base: t.base + more - more / 10000,
                            quote: t.quote - less,
                            cumulative_base: t.cumulative_base + more,
                            paid_quote: t.paid_quote + less,
                            moved_base: t.moved_base + more,
                            skimmed_base: t.skimmed_base + more / 10000,
                            active: t.active && !(live is None && last),
                            ..t
                        },
                    )
                },
            }
        }
    }
}

/// The books after the first `n` ask slots are settled, in their order.
pub open spec fn settle_asks(
    t: Tally,
    slots: Seq<PlacedOrder>,
    n: nat,
    orders: Seq<CurrentOrder>,
    base_lot: u64,
    quote_lot: u64,
) -> Option<Tally>
    decreases n,
{
    if n == 0 || n > slots.len() {
        Some(t)
    } else {
        match settle_asks(t, slots, (n - 1) as nat, orders, base_lot, quote_lot) {
            None => None,
            Some(before) => settle_ask(
                before,
                slots[n - 1],
                is_last_filled(slots, n - 1),
                orders,
                base_lot,
                quote_lot,
            ),
        }
    }
}

/// The books after the first `n` bid slots are settled, in their order.
pub open spec fn settle_bids(
    t: Tally,
    slots: Seq<PlacedOrder>,
    n: nat,
    orders: Seq<CurrentOrder>,
    base_lot: u64,
    quote_lot: u64,
) -> Option<Tally>
    decreases n,
{
    if n == 0 || n > slots.len() {
        Some(t)
    } else {
        match settle_bids(t, slots, (n - 1) as nat, orders, base_lot, quote_lot) {
            None => None,
            Some(before) => settle_bid(
                before,
                slots[n - 1],
                is_last_filled(slots, n - 1),
                orders,
                base_lot,
                quote_lot,
            ),
        }
    }
}

/// The books after a whole pass: all ask slots, then all bid slots. `None`
/// where an amount does not fit, also where what was kept back in the pass
/// does not fit on top of what the pool already owes.
pub open spec fn settled(pool: PoolView, client: ClientView) -> Option<Tally> {
    match settle_asks(
        opening_tally(pool),
        pool.placed_asks,
        10,
        client.orders,
        client.base_lot_size,
        client.quote_lot_size,
    ) {
        None => None,
        Some(asks) => match settle_bids(
            asks,
            pool.placed_bids,
            9,
            client.orders,
            client.base_lot_size,
            client.quote_lot_size,
        ) {
            None => None,
            Some(t) => if pool.refund_quote_amount + t.skimmed_quote > u64::MAX
                || pool.refund_base_amount + t.skimmed_base > u64::MAX {
                None
            } else {
                Some(t)
            },
        },
    }
}

/// The pool with the books `t` written back: reserves, counters and pause
/// as the books have them, what was kept back from the reserves added to
/// what the pool owes, and no order recorded as placed.
pub open spec fn close_books(before: PoolView, t: Tally) -> PoolView {
    PoolView {
        base_amount: t.base as u64,
        quote_amount: t.quote as u64,
        cumulative_quote_volume: t.cumulative_quote as u64,
        cumulative_base_volume: t.cumulative_base as u64,
        refund_quote_amount: (before.refund_quote_amount + t.skimmed_quote) as u64,
        refund_base_amount: (before.refund_base_amount + t.skimmed_base) as u64,
        mm_active: t.active,
        ..before
    }.without_orders()
}

/// What [`OrderbookClient::cancel_all_and_settle`] leaves of a pool, or
/// `None` where it fails.
pub open spec fn settle_pool(pool: PoolView, client: ClientView) -> Option<PoolView> {
    match settled(pool, client) {
        Some(t) => Some(close_books(pool, t)),
        None => None,
    }
}

/// One request to cancel for every live order, in their order.
pub open spec fn cancel_all(orders: Seq<CurrentOrder>) -> Seq<CancelOrder> {
    Seq::new(orders.len(), |i: int| CancelOrder { side: orders[i].side, order_id: orders[i].order_id })
}

/// The part of the books that is computed with.
#[derive(Clone, Copy)]
struct Books {
    base: u64,
    quote: u64,
    cumulative_quote: u64,
    cumulative_base: u64,
    moved_quote: u64,
    moved_base: u64,
    skimmed_quote: u64,
    skimmed_base: u64,
    active: bool,
}

impl Books {
    spec fn agrees(&self, t: Tally) -> bool {
        &&& self.base == t.base
        &&& self.quote == t.quote
        &&& self.cumulative_quote == t.cumulative_quote
        &&& self.cumulative_base == t.cumulative_base
        &&& self.moved_quote == t.moved_quote
        &&& self.moved_base == t.moved_base
        &&& self.skimmed_quote == t.skimmed_quote
        &&& self.skimmed_base == t.skimmed_base
        &&& t.skimmed_quote <= t.moved_quote
        &&& t.skimmed_base <= t.moved_base
        &&& self.active == t.active
    }
}

/// Whether no slot after `i` holds an order.
fn none_after<const N: usize>(slots: &[PlacedOrder; N], i: usize) -> (r: bool)
    requires
        i < N,
    ensures
        r == is_last_filled(slots@, i as int),
{
    let mut j: usize = i + 1;
    while j < N
        invariant
            i < j <= N,
            slots@.len() == N,
            forall|k: int| i < k < j ==> slots@[k].base_qty == 0,
        decreases N - j,
    {
        if slots[j].base_qty != 0 {
            return false;
        }
        j += 1;
    }
    true
}

/// `amount * price * quote_lot / base_lot`.
fn value_of_fill(amount: u64, price: u64, quote_lot: u64, base_lot: u64) -> (r: Option<u64>)
    ensures
        match fill_value(amount as int, price as int, quote_lot as int, base_lot as int) {
            Some(v) => r == Some(v as u64) && v <= u64::MAX,
            None => r is None,
        },
{
    let gross = amount.checked_mul(price)?.checked_mul(quote_lot)?;
    if base_lot == 0 {
        None
    } else {
        Some(gross / base_lot)
    }
}

impl OrderbookClient {
    /// The first live order on `side` with the identifier `id`.
    fn find_order(&self, side: Side, id: u64) -> (r: Option<CurrentOrder>)
        ensures
            r == find_live(self.orders@, side, id, 0),
    {
        let mut i: usize = 0;
        while i < self.orders.len()
            invariant
                i <= self.orders@.len(),
                find_live(self.orders@, side, id, 0) == find_live(self.orders@, side, id, i as int),
            decreases self.orders@.len() - i,
        {
            let o = self.orders[i];
            if o.side == side && o.client_order_id == id {
                return Some(o);
            }
            i += 1;
        }
        None
    }

    /// What is left unfilled of `placed` native base units under the
    /// identifier `id`: the size of the live order, or nothing where the
    /// order is gone. Also whether it is gone.
    fn unfilled(&self, side: Side, id: u64, placed: u64) -> (r: Option<(u64, bool)>)
        ensures
            ({
                let live = find_live(self.orders@, side, id, 0);
                let rest = match live {
                    Some(c) => c.base_qty * self.base_lot_size,
                    None => 0,
                };
                if rest > u64::MAX || rest > placed {
                    r is None
                } else {
                    r == Some(((placed - rest) as u64, live is None))
                }
            }),
    {
        match self.find_order(side, id) {
            Some(c) => {
                let rest = c.base_qty.checked_mul(self.base_lot_size)?;
                let gap = placed.checked_sub(rest)?;
                Some((gap, false))
            },
            None => Some((placed, true)),
        }
    }

    fn settle_one_ask(&self, b: Books, p: PlacedOrder, last: bool, Ghost(t): Ghost<Tally>) -> (r:
        Option<Books>)
        requires
            b.agrees(t),
        ensures
            match settle_ask(t, p, last, self.orders@, self.base_lot_size, self.quote_lot_size) {
                Some(next) => r is Some && r.unwrap().agrees(next),
                None => r is None,
            },
    {
        if p.base_qty == 0 {
            return Some(b);
        }
        let placed = p.base_qty.checked_mul(self.base_lot_size)?;
        let (less, gone) = self.unfilled(Side::Ask, p.client_order_id, placed)?;
        let more = value_of_fill(less, p.limit_price, self.quote_lot_size, self.base_lot_size)?;
        let refund = more / REFUND_DENOMINATOR;
        let base = b.base.checked_sub(less)?;
        let quote = b.quote.checked_add(more)? - refund;
        let moved_quote = b.moved_quote.checked_add(more)?;
        let cumulative_quote = b.cumulative_quote.checked_add(more)?;
        let skimmed_quote = b.skimmed_quote + refund;
        Some(
            Books {
                base,
                quote,
                cumulative_quote,
                moved_quote,
                skimmed_quote,
                active: b.active && !(gone && last),
                ..b
            },
        )
    }

    fn settle_one_bid(&self, b: Books, p: PlacedOrder, last: bool, Ghost(t): Ghost<Tally>) -> (r:
        Option<Books>)
        requires
            b.agrees(t),
        ensures
            match settle_bid(t, p, last, self.orders@, self.base_lot_size, self.quote_lot_size) {
                Some(next) => r is Some && r.unwrap().agrees(next),
                None => r is None,
            },
    {
        if p.base_qty == 0 {
            return Some(b);
        }
        if p.limit_price == 0 {
            return None;
        }
        let by_quote = p.max_native_quote_qty_including_fees / p.limit_price;
        let qty = if by_quote < p.base_qty {
            by_quote
        } else {
            p.base_qty
        };
        let placed = qty.checked_mul(self.base_lot_size)?;
        let (more, gone) = self.unfilled(Side::Bid, p.client_order_id, placed)?;
        let less = value_of_fill(more, p.limit_price, self.quote_lot_size, self.base_lot_size)?;
        let refund = more / REFUND_DENOMINATOR;
        let moved_base = b.moved_base.checked_add(more)?;
        let base = b.base.checked_add(more)? - refund;
        let quote = b.quote.checked_sub(less)?;
        let cumulative_base = b.cumulative_base.checked_add(more)?;
        let skimmed_base = b.skimmed_base + refund;
        Some(
            Books {
                base,
                quote,
                cumulative_base,
                moved_base,
                skimmed_base,
                active: b.active && !(gone && last),
                ..b
            },
        )
    }

    /// Settles what happened to the orders that the pool placed, and asks
    /// for every live order to be cancelled.
    ///
    /// Each placed order is held against the live order of the same
    /// identifier: what the live order has left is unfilled, the rest was
    /// filled, and an order that is gone was filled in full. A filled ask
    /// takes base out of the reserve and puts its value in quote in; a
    /// filled bid does the reverse. One part in ten thousand of what each
    /// fill brings in, rounded down, is kept back from the reserve and added
    /// to what the pool owes. If the last ask or the last bid placed is
    /// gone, the pool is paused. Afterwards no order is recorded as placed.
    ///
    /// `None` where an amount does not fit; the pool is then as it was.
    pub fn cancel_all_and_settle(&self, pool: &mut OpenAmmPool) -> (r: Option<Vec<CancelOrder>>)
        ensures
            match r {
                Some(cancels) => settle_pool(old(pool)@, self@) == Some(final(pool)@) && cancels@
                    == cancel_all(self.orders@),
                None => settle_pool(old(pool)@, self@) is None && *final(pool) == *old(pool),
            },
    {
        let mut b = Books {
            base: pool.base_amount,
            quote: pool.quote_amount,
            cumulative_quote: pool.cumulative_quote_volume,
            cumulative_base: pool.cumulative_base_volume,
            moved_quote: 0,
            moved_base: 0,
            skimmed_quote: 0,
            skimmed_base: 0,
            active: pool.mm_active,
        };
        let ghost pool_before = pool@;
        let ghost mut t = opening_tally(pool@);
        let mut i: usize = 0;
        while i < 10
            invariant
                i <= 10,
                *pool == *old(pool),
                b.agrees(t),
                settle_asks(
                    opening_tally(pool@),
                    pool.placed_asks@,
                    i as nat,
                    self.orders@,
                    self.base_lot_size,
                    self.quote_lot_size,
                ) == Some(t),
            decreases 10 - i,
        {
            let p = pool.placed_asks[i];
            let last = none_after(&pool.placed_asks, i);
            match self.settle_one_ask(b, p, last, Ghost(t)) {
                Some(next) => {
                    proof {
                        t = settle_ask(
                            t,
                            p,
                            last,
                            self.orders@,
                            self.base_lot_size,
                            self.quote_lot_size,
                        ).unwrap();
                    }
                    b = next;
                },
                None => {
                    proof {
                        lemma_asks_stay_failed(
                            opening_tally(pool@),
                            pool.placed_asks@,
                            (i + 1) as nat,
                            10,
                            self.orders@,
                            self.base_lot_size,
                            self.quote_lot_size,
                        );
                    }
                    return None;
                },
            }
            i += 1;
        }
        let ghost asks = t;
        let mut j: usize = 0;
        while j < 9
            invariant
                j <= 9,
                *pool == *old(pool),
                b.agrees(t),
                settle_asks(
                    opening_tally(pool@),
                    pool.placed_asks@,
                    10,
                    self.orders@,
                    self.base_lot_size,
                    self.quote_lot_size,
                ) == Some(asks),
                settle_bids(
                    asks,
                    pool.placed_bids@,
                    j as nat,
                    self.orders@,
                    self.base_lot_size,
                    self.quote_lot_size,
                ) == Some(t),
            decreases 9 - j,
        {
            let p = pool.placed_bids[j];
            let last = none_after(&pool.placed_bids, j);
            match self.settle_one_bid(b, p, last, Ghost(t)) {
                Some(next) => {
                    proof {
                        t = settle_bid(
                            t,
                            p,
                            last,
                            self.orders@,
                            self.base_lot_size,
                            self.quote_lot_size,
                        ).unwrap();
                    }
                    b = next;
                },
                None => {
                    proof {
                        lemma_bids_stay_failed(
                            asks,
                            pool.placed_bids@,
                            (j + 1) as nat,
                            9,
                            self.orders@,
                            self.base_lot_size,
                            self.quote_lot_size,
                        );
                    }
                    return None;
                },
            }
            j += 1;
        }
        let refund_quote = pool.refund_quote_amount.checked_add(b.skimmed_quote)?;
        let refund_base = pool.refund_base_amount.checked_add(b.skimmed_base)?;
        let mut cancels: Vec<CancelOrder> = Vec::new();
        let mut k: usize = 0;
        while k < self.orders.len()
            invariant
                k <= self.orders@.len(),
                cancels@.len() == k,
                forall|n: int|
                    0 <= n < k ==> cancels@[n] == (CancelOrder {
                        side: self.orders@[n].side,
                        order_id: self.orders@[n].order_id,
                    }),
            decreases self.orders@.len() - k,
        {
            let o = self.orders[k];
            cancels.push(CancelOrder { side: o.side, order_id: o.order_id });
            k += 1;
        }
        assert(cancels@ =~= cancel_all(self.orders@));
        pool.reset_placed_orders();
        pool.base_amount = b.base;
        pool.quote_amount = b.quote;
        pool.cumulative_quote_volume = b.cumulative_quote;
        pool.cumulative_base_volume = b.cumulative_base;
        pool.refund_quote_amount = refund_quote;
        pool.refund_base_amount = refund_base;
        pool.mm_active = b.active;
        proof {
            lemma_tally_in_range(pool_before, self@, t);
            assert(pool@ =~= close_books(old(pool)@, t));
        }
        Some(cancels)
    }
}

/// Whether the books `t` account for every unit that left or entered the
/// reserves since the books `open`.
pub open spec fn books_balance(open: Tally, t: Tally) -> bool {
    &&& t.base == open.base - t.sold_base + (t.moved_base - t.skimmed_base)
    &&& t.quote == open.quote - t.paid_quote + (t.moved_quote - t.skimmed_quote)
    &&& t.cumulative_quote == open.cumulative_quote + t.moved_quote
    &&& t.cumulative_base == open.cumulative_base + t.moved_base
    &&& t.sold_base >= 0
    &&& t.paid_quote >= 0
    &&& 0 <= t.skimmed_quote <= t.moved_quote / 10000
    &&& 0 <= t.skimmed_base <= t.moved_base / 10000
}

proof fn lemma_ask_keeps_balance(
    open: Tally,
    t: Tally,
    p: PlacedOrder,
    last: bool,
    orders: Seq<CurrentOrder>,
    base_lot: u64,
    quote_lot: u64,
)
    requires
        books_balance(open, t),
        settle_ask(t, p, last, orders, base_lot, quote_lot) is Some,
    ensures
        books_balance(open, settle_ask(t, p, last, orders, base_lot, quote_lot).unwrap()),
{
    if p.base_qty != 0 {
        let placed = p.base_qty * base_lot;
        let live = find_live(orders, Side::Ask, p.client_order_id, 0);
        let rest = match live {
            Some(c) => c.base_qty * base_lot,
            None => 0,
        };
        let less = placed - rest;
        let more = fill_value(less, p.limit_price as int, quote_lot as int, base_lot as int).unwrap();
        lemma_fill_value_not_negative(less, p.limit_price as int, quote_lot as int, base_lot as int);
    }
}

proof fn lemma_bid_keeps_balance(
    open: Tally,
    t: Tally,
    p: PlacedOrder,
    last: bool,
    orders: Seq<CurrentOrder>,
    base_lot: u64,
    quote_lot: u64,
)
    requires
        books_balance(open, t),
        settle_bid(t, p, last, orders, base_lot, quote_lot) is Some,
    ensures
        books_balance(open, settle_bid(t, p, last, orders, base_lot, quote_lot).unwrap()),
{
    if p.base_qty != 0 {
        let by_quote = p.max_native_quote_qty_including_fees / p.limit_price;
        let qty = if by_quote < p.base_qty {
            by_quote
        } else {
            p.base_qty
        };
        let placed = qty * base_lot;
        let live = find_live(orders, Side::Bid, p.client_order_id, 0);
        let rest = match live {
            Some(c) => c.base_qty * base_lot,
            None => 0,
        };
        let more = placed - rest;
        lemma_fill_value_not_negative(more, p.limit_price as int, quote_lot as int, base_lot as int);
    }
}

proof fn lemma_fill_value_not_negative(amount: int, price: int, quote_lot: int, base_lot: int)
    requires
        amount >= 0,
        price >= 0,
        quote_lot >= 0,
        base_lot >= 0,
        fill_value(amount, price, quote_lot, base_lot) is Some,
    ensures
        fill_value(amount, price, quote_lot, base_lot).unwrap() >= 0,
{
    assert(amount * price * quote_lot >= 0) by (nonlinear_arith)
        requires
            amount >= 0,
            price >= 0,
            quote_lot >= 0,
    ;
    vstd::arithmetic::div_mod::lemma_div_pos_is_pos(amount * price * quote_lot, base_lot);
}

proof fn lemma_asks_keep_balance(
    open: Tally,
    slots: Seq<PlacedOrder>,
    n: nat,
    orders: Seq<CurrentOrder>,
    base_lot: u64,
    quote_lot: u64,
)
    requires
        books_balance(open, open),
        settle_asks(open, slots, n, orders, base_lot, quote_lot) is Some,
    ensures
        books_balance(open, settle_asks(open, slots, n, orders, base_lot, quote_lot).unwrap()),
    decreases n,
{
    if n > 0 && n <= slots.len() {
        lemma_asks_keep_balance(open, slots, (n - 1) as nat, orders, base_lot, quote_lot);
        lemma_ask_keeps_balance(
            open,
            settle_asks(open, slots, (n - 1) as nat, orders, base_lot, quote_lot).unwrap(),
            slots[n - 1],
            is_last_filled(slots, n - 1),
            orders,
            base_lot,
            quote_lot,
        );
    }
}

proof fn lemma_bids_keep_balance(
    open: Tally,
    start: Tally,
    slots: Seq<PlacedOrder>,
    n: nat,
    orders: Seq<CurrentOrder>,
    base_lot: u64,
    quote_lot: u64,
)
    requires
        books_balance(open, start),
        settle_bids(start, slots, n, orders, base_lot, quote_lot) is Some,
    ensures
        books_balance(open, settle_bids(start, slots, n, orders, base_lot, quote_lot).unwrap()),
    decreases n,
{
    if n > 0 && n <= slots.len() {
        lemma_bids_keep_balance(open, start, slots, (n - 1) as nat, orders, base_lot, quote_lot);
        lemma_bid_keeps_balance(
            open,
            settle_bids(start, slots, (n - 1) as nat, orders, base_lot, quote_lot).unwrap(),
            slots[n - 1],
            is_last_filled(slots, n - 1),
            orders,
            base_lot,
            quote_lot,
        );
    }
}

/// Nothing is lost in a settlement. On each side, what the reserve kept of
/// the proceeds of the fills and what was added to the refund owed make up
/// the proceeds exactly, whatever the number of fills: what is kept back
/// from the reserve is what the pool comes to owe. The counters of volume
/// grow by the proceeds.
pub proof fn lemma_settlement_conserves(before: PoolView, client: ClientView)
    requires
        before.placed_asks.len() == 10,
        before.placed_bids.len() == 9,
        settle_pool(before, client) is Some,
    ensures
        ({
            let t = settled(before, client).unwrap();
            let after = settle_pool(before, client).unwrap();
            let kept_quote = after.quote_amount + t.paid_quote - before.quote_amount;
            let owed_quote = after.refund_quote_amount - before.refund_quote_amount;
            let kept_base = after.base_amount + t.sold_base - before.base_amount;
            let owed_base = after.refund_base_amount - before.refund_base_amount;
            &&& kept_quote + owed_quote == t.moved_quote
            &&& kept_base + owed_base == t.moved_base
            &&& owed_quote == t.skimmed_quote
            &&& owed_base == t.skimmed_base
            &&& 0 <= owed_quote <= t.moved_quote / 10000
            &&& 0 <= owed_base <= t.moved_base / 10000
            &&& t.paid_quote >= 0
            &&& t.sold_base >= 0
            &&& after.cumulative_quote_volume == before.cumulative_quote_volume + t.moved_quote
            &&& after.cumulative_base_volume == before.cumulative_base_volume + t.moved_base
        }),
{
    let open = opening_tally(before);
    lemma_asks_keep_balance(
        open,
        before.placed_asks,
        10,
        client.orders,
        client.base_lot_size,
        client.quote_lot_size,
    );
    let asks = settle_asks(
        open,
        before.placed_asks,
        10,
        client.orders,
        client.base_lot_size,
        client.quote_lot_size,
    ).unwrap();
    lemma_bids_keep_balance(
        open,
        asks,
        before.placed_bids,
        9,
        client.orders,
        client.base_lot_size,
        client.quote_lot_size,
    );
    lemma_tally_in_range(before, client, settled(before, client).unwrap());
}

/// The books of a pass that succeeds hold amounts that fit.
proof fn lemma_tally_in_range(before: PoolView, client: ClientView, t: Tally)
    requires
        settled(before, client) == Some(t),
    ensures
        0 <= t.base <= u64::MAX,
        0 <= t.quote <= u64::MAX,
        0 <= t.cumulative_quote <= u64::MAX,
        0 <= t.cumulative_base <= u64::MAX,
        0 <= t.moved_quote <= u64::MAX,
        0 <= t.moved_base <= u64::MAX,
        0 <= t.skimmed_quote <= t.moved_quote,
        0 <= t.skimmed_base <= t.moved_base,
        before.refund_quote_amount + t.skimmed_quote <= u64::MAX,
        before.refund_base_amount + t.skimmed_base <= u64::MAX,
{
    let open = opening_tally(before);
    let asks = settle_asks(
        open,
        before.placed_asks,
        10,
        client.orders,
        client.base_lot_size,
        client.quote_lot_size,
    ).unwrap();
    lemma_asks_in_range(open, before.placed_asks, 10, client.orders, client.base_lot_size, client.quote_lot_size);
    lemma_bids_in_range(asks, before.placed_bids, 9, client.orders, client.base_lot_size, client.quote_lot_size);
}

/// Whether every amount of the books fits.
spec fn tally_fits(t: Tally) -> bool {
    &&& 0 <= t.base <= u64::MAX
    &&& 0 <= t.quote <= u64::MAX
    &&& 0 <= t.cumulative_quote <= u64::MAX
    &&& 0 <= t.cumulative_base <= u64::MAX
    &&& 0 <= t.moved_quote <= u64::MAX
    &&& 0 <= t.moved_base <= u64::MAX
    &&& 0 <= t.skimmed_quote <= t.moved_quote
    &&& 0 <= t.skimmed_base <= t.moved_base
}

proof fn lemma_asks_in_range(
    open: Tally,
    slots: Seq<PlacedOrder>,
    n: nat,
    orders: Seq<CurrentOrder>,
    base_lot: u64,
    quote_lot: u64,
)
    requires
        tally_fits(open),
        settle_asks(open, slots, n, orders, base_lot, quote_lot) is Some,
    ensures
        tally_fits(settle_asks(open, slots, n, orders, base_lot, quote_lot).unwrap()),
    decreases n,
{
    if n > 0 && n <= slots.len() {
        lemma_asks_in_range(open, slots, (n - 1) as nat, orders, base_lot, quote_lot);
        let t = settle_asks(open, slots, (n - 1) as nat, orders, base_lot, quote_lot).unwrap();
        let p = slots[n - 1];
        if p.base_qty != 0 {
            let placed = p.base_qty * base_lot;
            let rest = match find_live(orders, Side::Ask, p.client_order_id, 0) {
                Some(c) => c.base_qty * base_lot,
                None => 0,
            };
            lemma_fill_value_not_negative(
                placed - rest,
                p.limit_price as int,
                quote_lot as int,
                base_lot as int,
            );
        }
    }
}

proof fn lemma_bids_in_range(
    open: Tally,
    slots: Seq<PlacedOrder>,
    n: nat,
    orders: Seq<CurrentOrder>,
    base_lot: u64,
    quote_lot: u64,
)
    requires
        tally_fits(open),
        settle_bids(open, slots, n, orders, base_lot, quote_lot) is Some,
    ensures
        tally_fits(settle_bids(open, slots, n, orders, base_lot, quote_lot).unwrap()),
    decreases n,
{
    if n > 0 && n <= slots.len() {
        lemma_bids_in_range(open, slots, (n - 1) as nat, orders, base_lot, quote_lot);
        let t = settle_bids(open, slots, (n - 1) as nat, orders, base_lot, quote_lot).unwrap();
        let p = slots[n - 1];
        if p.base_qty != 0 && p.limit_price != 0 {
            let by_quote = p.max_native_quote_qty_including_fees / p.limit_price;
            let qty = if by_quote < p.base_qty {
                by_quote
            } else {
                p.base_qty
            };
            let placed = qty * base_lot;
            let rest = match find_live(orders, Side::Bid, p.client_order_id, 0) {
                Some(c) => c.base_qty * base_lot,
                None => 0,
            };
            lemma_fill_value_not_negative(
                placed - rest,
                p.limit_price as int,
                quote_lot as int,
                base_lot as int,
            );
        }
    }
}

/// Once a pass over the asks has failed, it stays failed.
proof fn lemma_asks_stay_failed(
    t: Tally,
    slots: Seq<PlacedOrder>,
    n: nat,
    m: nat,
    orders: Seq<CurrentOrder>,
    base_lot: u64,
    quote_lot: u64,
)
    requires
        1 <= n <= m <= slots.len(),
        settle_asks(t, slots, n, orders, base_lot, quote_lot) is None,
    ensures
        settle_asks(t, slots, m, orders, base_lot, quote_lot) is None,
    decreases m,
{
    if m > n {
        lemma_asks_stay_failed(t, slots, n, (m - 1) as nat, orders, base_lot, quote_lot);
    }
}

/// Once a pass over the bids has failed, it stays failed.
proof fn lemma_bids_stay_failed(
    t: Tally,
    slots: Seq<PlacedOrder>,
    n: nat,
    m: nat,
    orders: Seq<CurrentOrder>,
    base_lot: u64,
    quote_lot: u64,
)
    requires
        1 <= n <= m <= slots.len(),
        settle_bids(t, slots, n, orders, base_lot, quote_lot) is None,
    ensures
        settle_bids(t, slots, m, orders, base_lot, quote_lot) is None,
    decreases m,
{
    if m > n {
        lemma_bids_stay_failed(t, slots, n, (m - 1) as nat, orders, base_lot, quote_lot);
    }
}

} // verus!
