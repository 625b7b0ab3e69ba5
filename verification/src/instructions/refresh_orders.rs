//! Renewing the ladder of a pool.
use crate::errors::Failure;
use crate::ladder::{planned, record_plan};
use crate::state::{OpenAmmPool, PoolView};
use crate::util::{cancel_all, settle_pool, CancelOrder, ClientView, NewOrder, OrderbookClient};
use vstd::prelude::*;

verus! {

/// What has to be done outside after a refresh.
pub struct RefreshOutcome {
    /// The orders to cancel, before anything else; then the venue settles.
    pub cancels: Vec<CancelOrder>,
    /// The base and quote that the pool owed and now pays to the caller.
    pub refunds: (u64, u64),
    /// The new ladder; empty where the pool is paused.
    pub orders: Vec<NewOrder>,
}

/// What [`handler`] makes of a pool, or why it ends without effect: the
/// pool settled, what it owed paid out and owed no longer, and, if the pool
/// places orders, the new ladder recorded.
pub open spec fn spec_refresh(pool: PoolView, client: ClientView) -> Result<
    (PoolView, (u64, u64), Seq<NewOrder>),
    Failure,
> {
    match settle_pool(pool, client) {
        None => Err(Failure::Arithmetic),
        Some(settled) => {
            let refunds = (settled.refund_base_amount, settled.refund_quote_amount);
            let paid = PoolView { refund_base_amount: 0, refund_quote_amount: 0, ..settled };
            if !settled.mm_active {
                Ok((paid, refunds, Seq::empty()))
            } else {
                match planned(paid, client) {
                    None => Err(Failure::Arithmetic),
                    Some(plan) => Ok((record_plan(paid, plan), refunds, plan.orders())),
                }
            }
        },
    }
}

/// Settles the orders that were placed and pays out what the pool owes:
/// the pool owes nothing afterwards, and its reserves are not touched by
/// the payment. A pool that places orders then places the new ladder; a
/// pool that is paused, or that the settlement pauses, places nothing.
///
/// Where the refresh fails, the pool is as it was.
pub fn handler(pool: &mut OpenAmmPool, client: &OrderbookClient) -> (r: Result<
    RefreshOutcome,
    Failure,
>)
    ensures
        match r {
            Ok(out) => spec_refresh(old(pool)@, client@) == Ok::<
                (PoolView, (u64, u64), Seq<NewOrder>),
                Failure,
            >((final(pool)@, out.refunds, out.orders@)) && out.cancels@ == cancel_all(
                client@.orders,
            ),
            Err(e) => spec_refresh(old(pool)@, client@) == Err::<
                (PoolView, (u64, u64), Seq<NewOrder>),
                Failure,
            >(e) && *final(pool) == *old(pool),
        },
{
    let mut work = *pool;
    let cancels = match client.cancel_all_and_settle(&mut work) {
        Some(c) => c,
        None => {
            return Err(Failure::Arithmetic);
        },
    };
    let refunds = (work.refund_base_amount, work.refund_quote_amount);
    work.refund_base_amount = 0;
    work.refund_quote_amount = 0;
    if !work.mm_active {
        *pool = work;
        return Ok(RefreshOutcome { cancels, refunds, orders: Vec::new() });
    }
    let orders = match client.place_new_orders(&mut work) {
        Some(o) => o,
        None => {
            return Err(Failure::Arithmetic);
        },
    };
    *pool = work;
    Ok(RefreshOutcome { cancels, refunds, orders })
}

} // verus!
