//! Taking liquidity out of a pool.
use crate::errors::Failure;
use crate::instructions::deposit::{mul_div, spec_xyk_shares};
use crate::ladder::{planned, record_plan};
use crate::state::{OpenAmmPool, PoolView};
use crate::util::{cancel_all, settle_pool, CancelOrder, ClientView, NewOrder, OrderbookClient};
use vstd::arithmetic::div_mod::{lemma_fundamental_div_mod, lemma_fundamental_div_mod_converse};
use vstd::prelude::*;

verus! {

/// What [`withdraw_amounts`] returns.
pub open spec fn spec_withdraw_amounts(
    lp_amt: u64,
    base_reserve: u64,
    quote_reserve: u64,
    lp_mint_supply: u64,
) -> Option<(u64, u64)> {
    if lp_mint_supply == 0 || lp_amt * base_reserve / (lp_mint_supply as int) > u64::MAX || lp_amt
        * quote_reserve / (lp_mint_supply as int) > u64::MAX {
        None
    } else {
        Some(
            (
                (lp_amt * base_reserve / (lp_mint_supply as int)) as u64,
                (lp_amt * quote_reserve / (lp_mint_supply as int)) as u64,
            ),
        )
    }
}

/// What `lp_amt` shares out of a supply of `lp_mint_supply` are worth: of
/// each reserve the part `lp_amt / lp_mint_supply`, rounded down, whatever
/// the curve. `None` where there is no supply or an amount does not fit.
pub fn withdraw_amounts(lp_amt: u64, base_reserve: u64, quote_reserve: u64, lp_mint_supply: u64) -> (r:
    Option<(u64, u64)>)
    ensures
        r == spec_withdraw_amounts(lp_amt, base_reserve, quote_reserve, lp_mint_supply),
{
    let base = mul_div(lp_amt, base_reserve, lp_mint_supply)?;
    let quote = mul_div(lp_amt, quote_reserve, lp_mint_supply)?;
    Some((base, quote))
}

proof fn lemma_floor_bounds(n: int, d: int)
    requires
        d > 0,
        n >= 0,
    ensures
        (n / d) * d <= n < (n / d + 1) * d,
        n / d >= 0,
{
    lemma_fundamental_div_mod(n, d);
    assert((n / d) * d == d * (n / d)) by (nonlinear_arith);
    assert((n / d + 1) * d == d * (n / d) + d) by (nonlinear_arith);
    assert(n / d >= 0) by (nonlinear_arith)
        requires
            n >= 0,
            d > 0,
            n < (n / d + 1) * d,
    ;
}

proof fn lemma_floor_between(n: int, d: int, lo: int, hi: int)
    requires
        d > 0,
        lo * d <= n,
        n <= hi * d,
    ensures
        lo <= n / d <= hi,
{
    lemma_fundamental_div_mod(n, d);
    let q = n / d;
    assert(q >= lo) by (nonlinear_arith)
        requires
            n == d * q + n % d,
            n % d < d,
            lo * d <= n,
            d > 0,
    ;
    assert(q <= hi) by (nonlinear_arith)
        requires
            n == d * q + n % d,
            0 <= n % d,
            n <= hi * d,
            d > 0,
    ;
}

/// What one side of a deposit gets back when its shares are withdrawn at
/// once: for `shares <= supply * deposit / reserve`, the part `shares` of
/// the grown reserve out of the grown supply is at most `deposit`; and it
/// is at least `deposit - 1` where `shares` is that quotient rounded down
/// and the reserve is not larger than the grown supply.
proof fn lemma_side_returns(supply: int, reserve: int, deposit: int, shares: int)
    requires
        supply > 0,
        reserve > 0,
        deposit >= 0,
        0 <= shares <= supply * deposit / reserve,
    ensures
        shares * (reserve + deposit) / (supply + shares) <= deposit,
        shares == supply * deposit / reserve && reserve <= supply + shares ==> shares * (reserve
            + deposit) / (supply + shares) >= deposit - 1,
{
    assert(supply * deposit >= 0) by (nonlinear_arith)
        requires
            supply > 0,
            deposit >= 0,
    ;
    lemma_floor_bounds(supply * deposit, reserve);
    let f = supply * deposit / reserve;
    assert(shares * reserve <= supply * deposit) by (nonlinear_arith)
        requires
            0 <= shares <= f,
            f * reserve <= supply * deposit,
            reserve > 0,
    ;
    let n = shares * (reserve + deposit);
    let m = supply + shares;
    assert(n == shares * reserve + shares * deposit) by (nonlinear_arith)
        requires
            n == shares * (reserve + deposit),
    ;
    assert(deposit * m == supply * deposit + shares * deposit) by (nonlinear_arith)
        requires
            m == supply + shares,
    ;
    assert(n >= 0) by (nonlinear_arith)
        requires
            n == shares * (reserve + deposit),
            shares >= 0,
            reserve > 0,
            deposit >= 0,
    ;
    if deposit >= 1 && shares == f && reserve <= m {
        assert(shares * reserve > supply * deposit - reserve) by (nonlinear_arith)
            requires
                supply * deposit < (f + 1) * reserve,
                shares == f,
        ;
        assert((deposit - 1) * m == deposit * m - m) by (nonlinear_arith);
        lemma_floor_between(n, m, deposit - 1, deposit);
    } else {
        lemma_floor_between(n, m, 0, deposit);
    }
}

/// Depositing and at once withdrawing the shares minted, on the constant
/// product with a supply in place: neither side returns more than was
/// deposited. The side that sized the shares returns the deposit or one
/// unit less, where its reserve is not larger than the supply after the
/// deposit. (A side whose reserve is larger than the supply is counted in
/// shares too coarse for that, and the side that did not size the shares
/// returns less by as much as the deposit was out of ratio.)
pub proof fn lemma_deposit_then_withdraw(
    lp_mint_supply: u64,
    reserve_base: u64,
    reserve_quote: u64,
    deposit_base: u64,
    deposit_quote: u64,
)
    requires
        lp_mint_supply > 0,
        spec_xyk_shares(lp_mint_supply, reserve_base, reserve_quote, deposit_base, deposit_quote)
            is Some,
        reserve_base + deposit_base <= u64::MAX,
        reserve_quote + deposit_quote <= u64::MAX,
        lp_mint_supply + spec_xyk_shares(
            lp_mint_supply,
            reserve_base,
            reserve_quote,
            deposit_base,
            deposit_quote,
        ).unwrap() <= u64::MAX,
    ensures
        ({
            let shares = spec_xyk_shares(
                lp_mint_supply,
                reserve_base,
                reserve_quote,
                deposit_base,
                deposit_quote,
            ).unwrap();
            let back = spec_withdraw_amounts(
                shares,
                (reserve_base + deposit_base) as u64,
                (reserve_quote + deposit_quote) as u64,
                (lp_mint_supply + shares) as u64,
            );
            &&& back is Some
            &&& back.unwrap().0 <= deposit_base
            &&& back.unwrap().1 <= deposit_quote
            &&& shares == lp_mint_supply * deposit_base / (reserve_base as int) && reserve_base
                <= lp_mint_supply + shares ==> back.unwrap().0 >= deposit_base - 1
            &&& shares == lp_mint_supply * deposit_quote / (reserve_quote as int) && reserve_quote
                <= lp_mint_supply + shares ==> back.unwrap().1 >= deposit_quote - 1
        }),
{
    let shares = spec_xyk_shares(
        lp_mint_supply,
        reserve_base,
        reserve_quote,
        deposit_base,
        deposit_quote,
    ).unwrap();
    lemma_side_returns(
        lp_mint_supply as int,
        reserve_base as int,
        deposit_base as int,
        shares as int,
    );
    lemma_side_returns(
        lp_mint_supply as int,
        reserve_quote as int,
        deposit_quote as int,
        shares as int,
    );
}

/// What has to be done outside after a withdrawal.
pub struct WithdrawOutcome {
    /// The orders to cancel, before anything else; then the venue settles.
    pub cancels: Vec<CancelOrder>,
    /// The base and quote to pay out for the shares that were burnt, or
    /// `None` where the pool is paused and pays nothing.
    pub paid_out: Option<(u64, u64)>,
    /// The new ladder.
    pub orders: Vec<NewOrder>,
}

/// What [`handler`] makes of a pool, or why it ends without effect.
pub open spec fn spec_withdraw(
    pool: PoolView,
    client: ClientView,
    lp_mint_supply: u64,
    lp_amt: u64,
) -> Result<(PoolView, Option<(u64, u64)>, Seq<NewOrder>), Failure> {
    match settle_pool(pool, client) {
        None => Err(Failure::Arithmetic),
        Some(settled) => if !settled.mm_active {
            Ok((settled, None, Seq::empty()))
        } else {
            match spec_withdraw_amounts(
                lp_amt,
                settled.base_amount,
                settled.quote_amount,
                lp_mint_supply,
            ) {
                None => Err(Failure::Arithmetic),
                Some((base, quote)) => if base > settled.base_amount || quote
                    > settled.quote_amount {
                    Err(Failure::Arithmetic)
                } else {
                    let shrunk = PoolView {
                        base_amount: (settled.base_amount - base) as u64,
                        quote_amount: (settled.quote_amount - quote) as u64,
                        ..settled
                    };
                    match planned(shrunk, client) {
                        None => Err(Failure::Arithmetic),
                        Some(plan) => Ok(
                            (record_plan(shrunk, plan), Some((base, quote)), plan.orders()),
                        ),
                    }
                },
            }
        },
    }
}

/// Pays out `lp_amt` shares: settles the orders that were placed, takes the
/// part of the shares out of both reserves and places the new ladder. A
/// pool that is paused, or that the settlement pauses, is settled and pays
/// nothing.
///
/// `lp_mint_supply` is the supply of shares before the shares are burnt.
/// Where the withdrawal fails, the pool is as it was.
pub fn handler(pool: &mut OpenAmmPool, client: &OrderbookClient, lp_mint_supply: u64, lp_amt: u64) -> (r:
    Result<WithdrawOutcome, Failure>)
    ensures
        match r {
            Ok(out) => spec_withdraw(old(pool)@, client@, lp_mint_supply, lp_amt) == Ok::<
                (PoolView, Option<(u64, u64)>, Seq<NewOrder>),
                Failure,
            >((final(pool)@, out.paid_out, out.orders@)) && out.cancels@ == cancel_all(
                client@.orders,
            ),
            Err(e) => spec_withdraw(old(pool)@, client@, lp_mint_supply, lp_amt) == Err::<
                (PoolView, Option<(u64, u64)>, Seq<NewOrder>),
                Failure,
            >(e) && *final(pool) == *old(pool),
        },
{
    let mut work = *pool;
    let cancels = match client.cancel_all_and_settle(&mut work) {
        Some(c) => c,
        None => {
            return Err(Failure::Arithmetic);
        },
    };
    if !work.mm_active {
        *pool = work;
        return Ok(WithdrawOutcome { cancels, paid_out: None, orders: Vec::new() });
    }
    let (base, quote) = match withdraw_amounts(
        lp_amt,
        work.base_amount,
        work.quote_amount,
        lp_mint_supply,
    ) {
        Some(v) => v,
        None => {
            return Err(Failure::Arithmetic);
        },
    };
    if base > work.base_amount || quote > work.quote_amount {
        return Err(Failure::Arithmetic);
    }
    work.base_amount = work.base_amount - base;
    work.quote_amount = work.quote_amount - quote;
    let orders = match client.place_new_orders(&mut work) {
        Some(o) => o,
        None => {
            return Err(Failure::Arithmetic);
        },
    };
    *pool = work;
    Ok(WithdrawOutcome { cancels, paid_out: Some((base, quote)), orders })
}

} // verus!
