//! Orders, trades and the small value types around them.
use vstd::prelude::*;

verus! {

/// Why an operation on the book was refused.
#[derive(Debug, Clone, Copy, PartialEq, Eq, Structural)]
pub enum LivreError {
    /// A fill-and-kill or fill-or-kill order found too little crossing liquidity.
    UnfillableOrder,
    /// No resting order carries the requested id.
    OrderNotFound,
    /// A resting-eligible order reused the id of a resting order.
    DuplicateOrderId,
    /// A fill asked for more than the order has left.
    QuantityTooBig,
}

impl LivreError {
    /// A human-readable description of the error.
    pub fn message(&self) -> (r: &'static str) {
        match self {
            LivreError::UnfillableOrder => "Could not fill order",
            LivreError::DuplicateOrderId => "Order id already in use",
            LivreError::QuantityTooBig => "Fill quantity exceeds order lot size",
            LivreError::OrderNotFound => "Could not find order matching id",
        }
    }
}

/// How an order is admitted and whether its remainder may rest.
#[derive(Debug, Clone, Copy, PartialEq, Eq, Structural)]
pub enum OrderType {
    FillAndKill,
    GoodTillCancel,
    FillOrKill,
    GoodForDay,
    Market,
}

/// Buy side (`Bid`) or sell side (`Ask`).
#[derive(Debug, Clone, Copy, PartialEq, Eq, Structural)]
pub enum Side {
    Bid,
    Ask,
}

/// How much of an order has executed.
#[derive(Debug, Clone, Copy, PartialEq, Eq, Structural)]
pub enum OrderState {
    Filled,
    /// Carries the quantity executed so far.
    PartialFill(u64),
    Unfilled,
}

/// One order and its fill bookkeeping.
#[derive(Debug, Clone, Copy, PartialEq, Eq, Structural)]
pub struct Order {
    pub order_id: u64,
    pub order_type: OrderType,
    pub side: Side,
    pub price: u64,
    pub initial_quantity: u64,
    pub remaining_quantity: u64,
}

/// The state that `order_state` reports for given quantities.
pub open spec fn state_of(initial: u64, remaining: u64) -> OrderState {
    if initial == remaining {
        OrderState::Unfilled
    } else if remaining == 0 {
        OrderState::Filled
    } else {
        OrderState::PartialFill((initial - remaining) as u64)
    }
}

impl Order {
    /// Never more left than was asked for.
    pub open spec fn wf(&self) -> bool {
        self.remaining_quantity <= self.initial_quantity
    }

    /// This order with `q` less remaining.
    pub open spec fn filled_by(self, q: u64) -> Order {
        Order { remaining_quantity: (self.remaining_quantity - q) as u64, ..self }
    }

    pub fn new(order_type: OrderType, order_id: u64, side: Side, price: u64, quantity: u64) -> (r:
        Self)
        ensures
            r == (Order {
                order_id,
                order_type,
                side,
                price,
                initial_quantity: quantity,
                remaining_quantity: quantity,
            }),
            r.wf(),
    {
        Order {
            order_type,
            order_id,
            side,
            price,
            initial_quantity: quantity,
            remaining_quantity: quantity,
        }
    }

    pub fn is_filled(&self) -> (r: bool)
        ensures
            r == (self.remaining_quantity == 0),
    {
        self.remaining_quantity == 0
    }

    /// Unfilled while nothing has executed, which includes an order of quantity zero;
    /// Filled once nothing remains; PartialFill with the executed quantity otherwise.
    pub fn order_state(&self) -> (r: OrderState)
        requires
            self.wf(),
        ensures
            r == state_of(self.initial_quantity, self.remaining_quantity),
    {
        if self.initial_quantity == self.remaining_quantity {
            OrderState::Unfilled
        } else if self.is_filled() {
            OrderState::Filled
        } else {
            OrderState::PartialFill(self.initial_quantity - self.remaining_quantity)
        }
    }

    /// Takes `quantity` off what remains; refuses more than remains.
    pub fn fill(&mut self, quantity: u64) -> (r: Result<(), LivreError>)
        ensures
            quantity <= old(self).remaining_quantity ==> r is Ok && *final(self) == old(
                self,
            ).filled_by(quantity),
            quantity > old(self).remaining_quantity ==> r == Err::<(), LivreError>(
                LivreError::QuantityTooBig,
            ) && *final(self) == *old(self),
            final(self).remaining_quantity <= old(self).remaining_quantity,
            old(self).wf() ==> final(self).wf(),
    {
        if quantity > self.remaining_quantity {
            Err(LivreError::QuantityTooBig)
        } else {
            self.remaining_quantity = self.remaining_quantity - quantity;
            Ok(())
        }
    }
}

/// A request to replace a resting order's side, price and quantity.
#[derive(Debug, Clone, Copy, PartialEq, Eq, Structural)]
pub struct ModifyOrder {
    pub order_id: u64,
    pub side: Side,
    pub price: u64,
    pub quantity: u64,
}

impl ModifyOrder {
    pub open spec fn spec_to_order(self, order_type: OrderType) -> Order {
        Order {
            order_id: self.order_id,
            order_type,
            side: self.side,
            price: self.price,
            initial_quantity: self.quantity,
            remaining_quantity: self.quantity,
        }
    }

    pub fn to_order(self, order_type: OrderType) -> (r: Order)
        ensures
            r == self.spec_to_order(order_type),
            r.wf(),
    {
        Order::new(order_type, self.order_id, self.side, self.price, self.quantity)
    }
}

/// One execution between an incoming order (taker) and a resting one (maker).
#[derive(Debug, Clone, Copy, PartialEq, Eq, Structural)]
pub struct Trade {
    pub taker_order_id: u64,
    pub maker_order_id: u64,
    pub price: u64,
    pub quantity: u64,
}

impl Trade {
    pub fn new(taker_order_id: u64, maker_order_id: u64, price: u64, quantity: u64) -> (r: Self)
        ensures
            r == (Trade { taker_order_id, maker_order_id, price, quantity }),
    {
        Trade { taker_order_id, maker_order_id, price, quantity }
    }
}

/// Where a resting order sits: its level's price and side.
#[derive(Debug, Clone, Copy, PartialEq, Eq, Structural)]
pub struct LevelIdentifier {
    pub price: u64,
    pub side: Side,
}

impl LevelIdentifier {
    pub fn new(price: u64, side: Side) -> (r: Self)
        ensures
            r == (LevelIdentifier { price, side }),
    {
        LevelIdentifier { price, side }
    }
}

/// What `add_order` reports: the trades made and the order's final state.
#[derive(Debug, PartialEq, Eq)]
pub struct MatchInfo {
    pub trade_log: Vec<Trade>,
    pub order_state: OrderState,
}

impl MatchInfo {
    pub fn new(trade_log: Vec<Trade>, order_state: OrderState) -> (r: Self)
        ensures
            r.trade_log@ == trade_log@,
            r.order_state == order_state,
    {
        MatchInfo { trade_log, order_state }
    }
}

} // verus!
