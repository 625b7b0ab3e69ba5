//! Adding liquidity to a pool.
use crate::errors::{Failure, OpenAmmErrorCode};
use crate::instructions::create_pool::{first_xyk_shares, spec_first_xyk_shares};
use crate::ladder::{planned, record_plan};
use crate::stableswap::{calculate_stableswap_lp_minted, spec_stableswap_lp_minted};
use crate::state::{OpenAmmPool, PoolType, PoolView};
use crate::util::{
    cancel_all, same_fraction, settle_pool, spec_same_fraction, CancelOrder, ClientView, NewOrder,
    OrderbookClient,
};
use vstd::prelude::*;

verus! {

/// What [`deposit_amounts`] returns.
pub open spec fn spec_deposit_amounts(
    reserve_base_amount: u64,
    reserve_quote_amount: u64,
    desired_base_amount: u64,
    desired_quote_amount: u64,
    min_base_amount: u64,
    min_quote_amount: u64,
) -> Result<(u64, u64), Failure> {
    match spec_same_fraction(
        (desired_quote_amount, desired_base_amount),
        (reserve_quote_amount, reserve_base_amount),
    ) {
        None => Err(Failure::Arithmetic),
        Some(true) => Ok((desired_base_amount, desired_quote_amount)),
        Some(false) => if reserve_base_amount == 0 || desired_base_amount * reserve_quote_amount
            / (reserve_base_amount as int) > u64::MAX {
            Err(Failure::Arithmetic)
        } else {
            let optimal_quote = (desired_base_amount * reserve_quote_amount / (
            reserve_base_amount as int)) as u64;
            if optimal_quote <= desired_quote_amount {
                if optimal_quote >= min_quote_amount {
                    Ok((desired_base_amount, optimal_quote))
                } else {
                    Err(Failure::Rejected(OpenAmmErrorCode::SlippageQuoteExceeded))
                }
            } else if reserve_quote_amount == 0 || desired_quote_amount * reserve_base_amount / (
            reserve_quote_amount as int) > u64::MAX {
                Err(Failure::Arithmetic)
            } else {
                let optimal_base = (desired_quote_amount * reserve_base_amount / (
                reserve_quote_amount as int)) as u64;
                if optimal_base <= desired_base_amount && optimal_base >= min_base_amount {
                    Ok((optimal_base, desired_quote_amount))
                } else {
                    Err(Failure::Rejected(OpenAmmErrorCode::SlippageBaseExceeded))
                }
            }
        },
    }
}

/// `a * b / c`, rounded down; `None` where `c` is zero or the result does
/// not fit.
pub fn mul_div(a: u64, b: u64, c: u64) -> (r: Option<u64>)
    ensures
        match r {
            Some(v) => c != 0 && v == a * b / (c as int),
            None => c == 0 || a * b / (c as int) > u64::MAX,
        },
{
    if c == 0 {
        return None;
    }
    assert(a as u128 * b as u128 <= u128::MAX) by (nonlinear_arith)
        requires
            a <= u64::MAX,
            b <= u64::MAX,
    ;
    let v: u128 = (a as u128 * b as u128) / (c as u128);
    if v > u64::MAX as u128 {
        None
    } else {
        Some(v as u64)
    }
}

/// The amounts that a deposit brings in, given what the depositor is ready
/// to bring and the least they accept to bring.
///
/// Where the amounts wished for stand in the ratio of the reserves, they
/// are taken as they are. Otherwise the quote that goes with the base
/// wished for is taken if it is within the quote wished for, and refused
/// with `SlippageQuoteExceeded` if it is below the least quote; else the
/// base that goes with the quote wished for is taken, and refused with
/// `SlippageBaseExceeded` if it is above the base wished for or below the
/// least base. It fails where both amounts wished for are zero, where a
/// reserve needed as divisor is zero, or where an amount does not fit.
pub fn deposit_amounts(
    reserve_base_amount: u64,
    reserve_quote_amount: u64,
    desired_base_amount: u64,
    desired_quote_amount: u64,
    min_base_amount: u64,
    min_quote_amount: u64,
) -> (r: Result<(u64, u64), Failure>)
    ensures
        r == spec_deposit_amounts(
            reserve_base_amount,
            reserve_quote_amount,
            desired_base_amount,
            desired_quote_amount,
            min_base_amount,
            min_quote_amount,
        ),
{
    match same_fraction(
        (desired_quote_amount, desired_base_amount),
        (reserve_quote_amount, reserve_base_amount),
    ) {
        None => Err(Failure::Arithmetic),
        Some(true) => Ok((desired_base_amount, desired_quote_amount)),
        Some(false) => {
            let optimal_quote = match mul_div(
                desired_base_amount,
                reserve_quote_amount,
                reserve_base_amount,
            ) {
                Some(v) => v,
                None => {
                    return Err(Failure::Arithmetic);
                },
            };
            if optimal_quote <= desired_quote_amount {
                if optimal_quote >= min_quote_amount {
                    Ok((desired_base_amount, optimal_quote))
                } else {
                    Err(Failure::Rejected(OpenAmmErrorCode::SlippageQuoteExceeded))
                }
            } else {
                let optimal_base = match mul_div(
                    desired_quote_amount,
                    reserve_base_amount,
                    reserve_quote_amount,
                ) {
                    Some(v) => v,
                    None => {
                        return Err(Failure::Arithmetic);
                    },
                };
                if optimal_base <= desired_base_amount && optimal_base >= min_base_amount {
                    Ok((optimal_base, desired_quote_amount))
                } else {
                    Err(Failure::Rejected(OpenAmmErrorCode::SlippageBaseExceeded))
                }
            }
        },
    }
}

/// What [`xyk_shares`] returns.
pub open spec fn spec_xyk_shares(
    lp_mint_supply: u64,
    reserve_base_amount: u64,
    reserve_quote_amount: u64,
    deposit_base_amount: u64,
    deposit_quote_amount: u64,
) -> Option<u64> {
    if lp_mint_supply == 0 {
        spec_first_xyk_shares(deposit_base_amount, deposit_quote_amount)
    } else if reserve_base_amount == 0 || reserve_quote_amount == 0 {
        None
    } else {
        let by_base = lp_mint_supply * deposit_base_amount / (reserve_base_amount as int);
        let by_quote = lp_mint_supply * deposit_quote_amount / (reserve_quote_amount as int);
        if by_base > u64::MAX || by_quote > u64::MAX {
            None
        } else if by_base <= by_quote {
            Some(by_base as u64)
        } else {
            Some(by_quote as u64)
        }
    }
}

/// The shares for a deposit into a pool on the constant product: the
/// supply times the deposit over the reserve as it was before, on the side
/// where that is less, rounded down. Into an empty supply, the first supply.
/// `None` where a reserve is zero or a share count does not fit.
pub fn xyk_shares(
    lp_mint_supply: u64,
    reserve_base_amount: u64,
    reserve_quote_amount: u64,
    deposit_base_amount: u64,
    deposit_quote_amount: u64,
) -> (r: Option<u64>)
    ensures
        r == spec_xyk_shares(
            lp_mint_supply,
            reserve_base_amount,
            reserve_quote_amount,
            deposit_base_amount,
            deposit_quote_amount,
        ),
{
    if lp_mint_supply == 0 {
        return first_xyk_shares(deposit_base_amount, deposit_quote_amount);
    }
    if reserve_base_amount == 0 || reserve_quote_amount == 0 {
        return None;
    }
    let by_base = mul_div(lp_mint_supply, deposit_base_amount, reserve_base_amount)?;
    let by_quote = mul_div(lp_mint_supply, deposit_quote_amount, reserve_quote_amount)?;
    if by_base <= by_quote {
        Some(by_base)
    } else {
        Some(by_quote)
    }
}

/// The shares for a deposit, by the curve of the pool.
pub open spec fn spec_shares(
    pool_type: PoolType,
    lp_mint_supply: u64,
    reserve_base_amount: u64,
    reserve_quote_amount: u64,
    deposit_base_amount: u64,
    deposit_quote_amount: u64,
    base_decimals: u8,
    quote_decimals: u8,
) -> Option<u64> {
    match pool_type {
        PoolType::XYK => spec_xyk_shares(
            lp_mint_supply,
            reserve_base_amount,
            reserve_quote_amount,
            deposit_base_amount,
            deposit_quote_amount,
        ),
        PoolType::STABLE => spec_stableswap_lp_minted(
            lp_mint_supply,
            reserve_base_amount,
            reserve_quote_amount,
            deposit_base_amount,
            deposit_quote_amount,
            base_decimals,
            quote_decimals,
        ),
    }
}

/// What a deposit comes to.
#[derive(Clone, Copy, Debug, PartialEq, Eq, Structural)]
pub struct Deposited {
    /// The base that the deposit counts with.
    pub deposit_base_amount: u64,
    /// The quote that the deposit counts with.
    pub deposit_quote_amount: u64,
    /// Whether the two amounts move from the depositor to the vaults. They
    /// do unless the pool had an empty side.
    pub paid_in: bool,
    /// The shares to mint for the depositor.
    pub lp_minted: u64,
}

/// What has to be done outside after a deposit.
pub struct DepositOutcome {
    /// The orders to cancel, before anything else; then the venue settles.
    pub cancels: Vec<CancelOrder>,
    /// The deposit, or `None` where the pool is paused and takes none.
    pub deposited: Option<Deposited>,
    /// The new ladder.
    pub orders: Vec<NewOrder>,
}

/// What [`handler`] makes of a pool, or why it ends without effect.
pub open spec fn spec_deposit(
    pool: PoolView,
    client: ClientView,
    lp_mint_supply: u64,
    desired_base_amount: u64,
    desired_quote_amount: u64,
    min_base_amount: u64,
    min_quote_amount: u64,
) -> Result<(PoolView, Option<Deposited>, Seq<NewOrder>), Failure> {
    match settle_pool(pool, client) {
        None => Err(Failure::Arithmetic),
        Some(settled) => if !settled.mm_active {
            Ok((settled, None, Seq::empty()))
        } else {
            let paid_in = settled.base_amount != 0 && settled.quote_amount != 0;
            let amounts = if paid_in {
                spec_deposit_amounts(
                    settled.base_amount,
                    settled.quote_amount,
                    desired_base_amount,
                    desired_quote_amount,
                    min_base_amount,
                    min_quote_amount,
                )
            } else {
                Ok((desired_base_amount, desired_quote_amount))
            };
            match amounts {
                Err(e) => Err(e),
                Ok((base, quote)) => if paid_in && (settled.base_amount + base > u64::MAX
                    || settled.quote_amount + quote > u64::MAX) {
                    Err(Failure::Arithmetic)
                } else {
                    let grown = if paid_in {
                        PoolView {
                            base_amount: (settled.base_amount + base) as u64,
                            quote_amount: (settled.quote_amount + quote) as u64,
                            ..settled
                        }
                    } else {
                        settled
                    };
                    match spec_shares(
                        settled.pool_type,
                        lp_mint_supply,
                        settled.base_amount,
                        settled.quote_amount,
                        base,
                        quote,
                        settled.base_decimals,
                        settled.quote_decimals,
                    ) {
                        None => Err(Failure::Arithmetic),
                        Some(lp_minted) => match planned(grown, client) {
                            None => Err(Failure::Arithmetic),
                            Some(plan) => Ok(
                                (
                                    record_plan(grown, plan),
                                    Some(
                                        Deposited {
                                            deposit_base_amount: base,
                                            deposit_quote_amount: quote,
                                            paid_in,
                                            lp_minted,
                                        },
                                    ),
                                    plan.orders(),
                                ),
                            ),
                        },
                    }
                },
            }
        },
    }
}

/// Takes a deposit: settles the orders that were placed, sizes the deposit
/// by [`deposit_amounts`] and the shares by the curve of the pool, adds the
/// deposit to the reserves and places the new ladder. A pool that is
/// paused, or that the settlement pauses, is settled and takes no deposit.
///
/// `lp_mint_supply` is the supply of shares before the deposit. Where the
/// deposit is refused or fails, the pool is as it was.
pub fn handler(
    pool: &mut OpenAmmPool,
    client: &OrderbookClient,
    lp_mint_supply: u64,
    desired_base_amount: u64,
    desired_quote_amount: u64,
    min_base_amount: u64,
    min_quote_amount: u64,
) -> (r: Result<DepositOutcome, Failure>)
    ensures
        match r {
            Ok(out) => spec_deposit(
                old(pool)@,
                client@,
                lp_mint_supply,
                desired_base_amount,
                desired_quote_amount,
                min_base_amount,
                min_quote_amount,
            ) == Ok::<(PoolView, Option<Deposited>, Seq<NewOrder>), Failure>(
                (final(pool)@, out.deposited, out.orders@),
            ) && out.cancels@ == cancel_all(client@.orders),
            Err(e) => spec_deposit(
                old(pool)@,
                client@,
                lp_mint_supply,
                desired_base_amount,
                desired_quote_amount,
                min_base_amount,
                min_quote_amount,
            ) == Err::<(PoolView, Option<Deposited>, Seq<NewOrder>), Failure>(e) && *final(pool)
                == *old(pool),
        },
{
    let mut work = *pool;
    let cancels = match client.cancel_all_and_settle(&mut work) {
        Some(c) => c,
        None => {
            return Err(Failure::Arithmetic);
        },
    };
    if !work.mm_active {
        *pool = work;
        return Ok(DepositOutcome { cancels, deposited: None, orders: Vec::new() });
    }
    let reserve_base_amount = work.base_amount;
    let reserve_quote_amount = work.quote_amount;
    let paid_in = reserve_base_amount != 0 && reserve_quote_amount != 0;
    let mut deposit_base_amount = desired_base_amount;
    let mut deposit_quote_amount = desired_quote_amount;
    if paid_in {
        match deposit_amounts(
            reserve_base_amount,
            reserve_quote_amount,
            desired_base_amount,
            desired_quote_amount,
            min_base_amount,
            min_quote_amount,
        ) {
            Ok((base, quote)) => {
                deposit_base_amount = base;
                deposit_quote_amount = quote;
            },
            Err(e) => {
                return Err(e);
            },
        }
        match (
            work.base_amount.checked_add(deposit_base_amount),
            work.quote_amount.checked_add(deposit_quote_amount),
        ) {
            (Some(base), Some(quote)) => {
                work.base_amount = base;
                work.quote_amount = quote;
            },
            _ => {
                return Err(Failure::Arithmetic);
            },
        }
    }
    let shares = match work.pool_type {
        PoolType::XYK => xyk_shares(
            lp_mint_supply,
            reserve_base_amount,
            reserve_quote_amount,
            deposit_base_amount,
            deposit_quote_amount,
        ),
        PoolType::STABLE => calculate_stableswap_lp_minted(
            lp_mint_supply,
            reserve_base_amount,
            reserve_quote_amount,
            deposit_base_amount,
            deposit_quote_amount,
            work.base_decimals,
            work.quote_decimals,
        ),
    };
    let lp_minted = match shares {
        Some(v) => v,
        None => {
            return Err(Failure::Arithmetic);
        },
    };
    let orders = match client.place_new_orders(&mut work) {
        Some(o) => o,
        None => {
            return Err(Failure::Arithmetic);
        },
    };
    *pool = work;
    Ok(
        DepositOutcome {
            cancels,
            deposited: Some(
                Deposited { deposit_base_amount, deposit_quote_amount, paid_in, lp_minted },
            ),
            orders,
        },
    )
}

} // verus!
