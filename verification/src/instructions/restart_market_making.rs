//! Taking a pool out of its pause.
//!
//! A pool pauses when the last order of a ladder is gone from the book: the
//! venue may have dropped it unfilled. The pool then no longer knows what
//! it holds. A restart settles once more, asks that the venue holds nothing
//! for the pool, and takes the reserves from the vaults.
use crate::errors::{Failure, OpenAmmErrorCode};
use crate::state::{OpenAmmPool, PoolView};
use crate::util::{cancel_all, settle_pool, CancelOrder, ClientView, OrderbookClient};
use vstd::prelude::*;

verus! {

/// What [`handler`] makes of a pool, or why it ends without effect.
pub open spec fn spec_restart(
    pool: PoolView,
    client: ClientView,
    base_vault_amount: u64,
    quote_vault_amount: u64,
) -> Result<PoolView, Failure> {
    if pool.mm_active {
        Err(Failure::Rejected(OpenAmmErrorCode::MarketMakingAlreadyActive))
    } else {
        match settle_pool(pool, client) {
            None => Err(Failure::Arithmetic),
            Some(settled) => if client.native_base_total != 0 || client.native_quote_total != 0 {
                Err(Failure::Rejected(OpenAmmErrorCode::OpenOrdersTokensLocked))
            } else {
                Ok(
                    PoolView {
                        base_amount: base_vault_amount,
                        quote_amount: quote_vault_amount,
                        mm_active: true,
                        ..settled
                    },
                )
            },
        }
    }
}

/// Restarts a paused pool: settles the orders that were placed, and, if
/// the venue holds nothing for the pool, takes the balances of the vaults
/// as the reserves and lets the pool place orders again.
///
/// It is refused with `MarketMakingAlreadyActive` where the pool is not
/// paused, and with `OpenOrdersTokensLocked` where the venue holds base or
/// quote for the pool. Where it is refused or fails, the pool is as it
/// was. The orders returned are to be cancelled, and the venue settled.
pub fn handler(
    pool: &mut OpenAmmPool,
    client: &OrderbookClient,
    base_vault_amount: u64,
    quote_vault_amount: u64,
) -> (r: Result<Vec<CancelOrder>, Failure>)
    ensures
        match r {
            Ok(cancels) => spec_restart(old(pool)@, client@, base_vault_amount, quote_vault_amount)
                == Ok::<PoolView, Failure>(final(pool)@) && cancels@ == cancel_all(client@.orders),
            Err(e) => spec_restart(old(pool)@, client@, base_vault_amount, quote_vault_amount)
                == Err::<PoolView, Failure>(e) && *final(pool) == *old(pool),
        },
{
    if pool.mm_active {
        return Err(Failure::Rejected(OpenAmmErrorCode::MarketMakingAlreadyActive));
    }
    let mut work = *pool;
    let cancels = match client.cancel_all_and_settle(&mut work) {
        Some(c) => c,
        None => {
            return Err(Failure::Arithmetic);
        },
    };
    if client.native_base_total != 0 || client.native_quote_total != 0 {
        return Err(Failure::Rejected(OpenAmmErrorCode::OpenOrdersTokensLocked));
    }
    work.base_amount = base_vault_amount;
    work.quote_amount = quote_vault_amount;
    work.mm_active = true;
    *pool = work;
    Ok(cancels)
}

} // verus!
