//! What a pool sends to its venue, in the bytes that the venue reads.
use crate::util::{CancelOrder, NewOrder, OrderbookClient, Side};
use vstd::prelude::*;

verus! {

/// The code of the venue for an order that gives way to an order of the
/// same owner that it would trade with.
pub const SELF_TRADE_DECREMENT_TAKE: u8 = 0;

/// The code of the venue for an order that is only ever placed on the book.
pub const ORDER_TYPE_POST_ONLY: u8 = 2;

/// How many orders on the book an order of a pool may be matched against:
/// none, as it is only placed.
pub const MATCH_LIMIT: u16 = 0;

/// An instruction for the venue, field for field as the venue names them.
#[derive(Clone, Copy, Debug, PartialEq, Eq, Structural)]
pub enum VenueInstruction {
    /// Place an order.
    NewOrderV3 {
        /// 0 for a bid, 1 for an ask.
        side: u8,
        limit_price: u64,
        max_coin_qty: u64,
        max_native_pc_qty_including_fees: u64,
        /// 0 to decrement and take, 1 to cancel the resting order, 2 to
        /// abort.
        self_trade_behavior: u8,
        /// 0 for a limit order, 1 for immediate or cancel, 2 for post only.
        order_type: u8,
        client_order_id: u64,
        limit: u16,
    },
    /// Take an order off the book.
    CancelOrderV2 {
        /// 0 for a bid, 1 for an ask.
        side: u8,
        order_id: u128,
    },
}

impl VenueInstruction {
    /// Whether every code is one that the venue knows and no size is zero.
    pub open spec fn well_formed(&self) -> bool {
        match *self {
            VenueInstruction::NewOrderV3 {
                side,
                limit_price,
                max_coin_qty,
                max_native_pc_qty_including_fees,
                self_trade_behavior,
                order_type,
                client_order_id,
                limit,
            } => side <= 1 && limit_price != 0 && max_coin_qty != 0
                && max_native_pc_qty_including_fees != 0 && self_trade_behavior <= 2 && order_type
                <= 2,
            VenueInstruction::CancelOrderV2 { side, order_id } => side <= 1,
        }
    }
}

/// The bytes that the venue reads an instruction from.
pub uninterp spec fn packed(instruction: VenueInstruction) -> Seq<u8>;

/// `serum_dex::instruction::MarketInstruction::pack` on the instruction
/// of the same name and fields. The bytes depend on the instruction alone;
/// nothing more is claimed of them. The sizes must not be zero and the
/// codes must be known, or building the instruction would panic.
#[verifier::external_body]
fn pack(instruction: &VenueInstruction) -> (r: Vec<u8>)
    requires
        instruction.well_formed(),
    ensures
        r@ == packed(*instruction),
{
    match *instruction {
        VenueInstruction::NewOrderV3 { side, limit_price, max_coin_qty, max_native_pc_qty_including_fees, self_trade_behavior, order_type, client_order_id, limit } => serum_dex::instruction::MarketInstruction::NewOrderV3(serum_dex::instruction::NewOrderInstructionV3 {
            side: serum_dex::matching::Side::try_from(side).unwrap(),
            limit_price: std::num::NonZeroU64::new(limit_price).unwrap(),
            max_coin_qty: std::num::NonZeroU64::new(max_coin_qty).unwrap(),
            max_native_pc_qty_including_fees: std::num::NonZeroU64::new(max_native_pc_qty_including_fees).unwrap(),
            self_trade_behavior: serum_dex::instruction::SelfTradeBehavior::try_from(self_trade_behavior).unwrap(),
            order_type: serum_dex::matching::OrderType::try_from(order_type).unwrap(),
            client_order_id,
            limit,
        }),
        VenueInstruction::CancelOrderV2 { side, order_id } => serum_dex::instruction::MarketInstruction::CancelOrderV2(serum_dex::instruction::CancelOrderInstructionV2 { side: serum_dex::matching::Side::try_from(side).unwrap(), order_id }),
    }.pack()
}

/// The code of the venue for a side.
pub open spec fn side_code(side: Side) -> u8 {
    match side {
        Side::Bid => 0,
        Side::Ask => 1,
    }
}

/// The instruction that places `order`: post only, giving way to orders of
/// the same owner.
pub open spec fn placing(order: NewOrder) -> VenueInstruction {
    VenueInstruction::NewOrderV3 {
        side: side_code(order.side),
        limit_price: order.limit_price,
        max_coin_qty: order.max_coin_qty,
        max_native_pc_qty_including_fees: order.max_native_pc_qty_including_fees,
        self_trade_behavior: SELF_TRADE_DECREMENT_TAKE,
        order_type: ORDER_TYPE_POST_ONLY,
        client_order_id: order.client_order_id,
        limit: MATCH_LIMIT,
    }
}

/// The instruction that cancels as `cancel` asks.
pub open spec fn cancelling(cancel: CancelOrder) -> VenueInstruction {
    VenueInstruction::CancelOrderV2 { side: side_code(cancel.side), order_id: cancel.order_id }
}

/// Whether an order has a price and a size on both sides.
pub open spec fn has_size(order: NewOrder) -> bool {
    order.limit_price != 0 && order.max_coin_qty != 0 && order.max_native_pc_qty_including_fees
        != 0
}

/// An instruction to place an order, ready to send.
pub struct Placement {
    /// The side of the order. An ask is paid for out of the base vault, a
    /// bid out of the quote vault.
    pub payer: Side,
    /// The bytes of the instruction.
    pub data: Vec<u8>,
}

fn code_of(side: Side) -> (r: u8)
    ensures
        r == side_code(side),
{
    match side {
        Side::Bid => 0,
        Side::Ask => 1,
    }
}

impl OrderbookClient {
    /// The instructions that place `place_ixs`, one for each order in
    /// their order, each with the side that pays for it. `None` where an
    /// order has no price or no size.
    pub fn place_orders(&self, place_ixs: &Vec<NewOrder>) -> (r: Option<Vec<Placement>>)
        ensures
            match r {
                Some(v) => {
                    &&& v@.len() == place_ixs@.len()
                    &&& forall|i: int| 0 <= i < place_ixs@.len() ==> has_size(place_ixs@[i])
                    &&& forall|i: int|
                        0 <= i < v@.len() ==> (#[trigger] v@[i]).payer == place_ixs@[i].side
                            && v@[i].data@ == packed(placing(place_ixs@[i]))
                },
                None => exists|i: int| 0 <= i < place_ixs@.len() && !has_size(place_ixs@[i]),
            },
    {
        let mut out: Vec<Placement> = Vec::new();
        let mut i: usize = 0;
        while i < place_ixs.len()
            invariant
                i <= place_ixs@.len(),
                out@.len() == i,
                forall|j: int| 0 <= j < i ==> has_size(place_ixs@[j]),
                forall|j: int|
                    0 <= j < i ==> (#[trigger] out@[j]).payer == place_ixs@[j].side
                        && out@[j].data@ == packed(placing(place_ixs@[j])),
            decreases place_ixs@.len() - i,
        {
            let order = place_ixs[i];
            if order.limit_price == 0 || order.max_coin_qty == 0
                || order.max_native_pc_qty_including_fees == 0 {
                return None;
            }
            let instruction = VenueInstruction::NewOrderV3 {
                side: code_of(order.side),
                limit_price: order.limit_price,
                max_coin_qty: order.max_coin_qty,
                max_native_pc_qty_including_fees: order.max_native_pc_qty_including_fees,
                self_trade_behavior: SELF_TRADE_DECREMENT_TAKE,
                order_type: ORDER_TYPE_POST_ONLY,
                client_order_id: order.client_order_id,
                limit: MATCH_LIMIT,
            };
            out.push(Placement { payer: order.side, data: pack(&instruction) });
            i += 1;
        }
        Some(out)
    }

    /// The instructions that cancel as `cancel_ixs` ask, one for each in
    /// their order.
    pub fn cancel_orders(&self, cancel_ixs: &Vec<CancelOrder>) -> (r: Vec<Vec<u8>>)
        ensures
            r@.len() == cancel_ixs@.len(),
            forall|i: int|
                0 <= i < r@.len() ==> (#[trigger] r@[i])@ == packed(cancelling(cancel_ixs@[i])),
    {
        let mut out: Vec<Vec<u8>> = Vec::new();
        let mut i: usize = 0;
        while i < cancel_ixs.len()
            invariant
                i <= cancel_ixs@.len(),
                out@.len() == i,
                forall|j: int|
                    0 <= j < i ==> (#[trigger] out@[j])@ == packed(cancelling(cancel_ixs@[j])),
            decreases cancel_ixs@.len() - i,
        {
            let cancel = cancel_ixs[i];
            let instruction = VenueInstruction::CancelOrderV2 {
                side: code_of(cancel.side),
                order_id: cancel.order_id,
            };
            out.push(pack(&instruction));
            i += 1;
        }
        out
    }
}

} // verus!
