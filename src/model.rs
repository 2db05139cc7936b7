//! The mathematical model of one side of the book: a sequence of price levels, best first,
//! each a price with its resting orders in arrival order.
use vstd::prelude::*;
use crate::order::{LevelIdentifier, Order, OrderType, Side, Trade};

verus! {

/// A price level: its price and its orders, oldest first.
pub type LevelV = (u64, Seq<Order>);

pub open spec fn opposite(s: Side) -> Side {
    match s {
        Side::Bid => Side::Ask,
        Side::Ask => Side::Bid,
    }
}

/// Whether a level at `level_price` can trade with an incoming order on `side` limited at `price`.
pub open spec fn crosses(side: Side, price: u64, level_price: u64) -> bool {
    match side {
        Side::Bid => level_price <= price,
        Side::Ask => level_price >= price,
    }
}

/// Whether, on the book side `s`, price `a` is matched before price `b`.
pub open spec fn better(s: Side, a: u64, b: u64) -> bool {
    match s {
        Side::Bid => a > b,
        Side::Ask => a < b,
    }
}

/// The order types whose unfilled remainder rests in the book.
pub open spec fn may_rest(t: OrderType) -> bool {
    t == OrderType::GoodTillCancel || t == OrderType::GoodForDay || t == OrderType::Market
}

pub open spec fn holds(levels: Seq<LevelV>, i: int, j: int) -> bool {
    0 <= i < levels.len() && 0 <= j < levels[i].1.len()
}

/// Some order of `levels` carries `id`.
pub open spec fn rests_in(levels: Seq<LevelV>, id: u64) -> bool {
    exists|i: int, j: int| holds(levels, i, j) && #[trigger] levels[i].1[j].order_id == id
}

/// What a resting order at price `p` on side `s` looks like.
pub open spec fn resting_ok(o: Order, p: u64, s: Side) -> bool {
    &&& o.price == p
    &&& o.side == s
    &&& 0 < o.remaining_quantity <= o.initial_quantity
}

/// One side of a well-formed book: strictly ordered best first, no empty level,
/// each order filed under its own price and side, ids distinct within a level.
pub open spec fn side_ok(levels: Seq<LevelV>, s: Side) -> bool {
    &&& forall|a: int, b: int|
        0 <= a < b < levels.len() ==> better(s, #[trigger] levels[a].0, #[trigger] levels[b].0)
    &&& forall|i: int| 0 <= i < levels.len() ==> (#[trigger] levels[i]).1.len() > 0
    &&& forall|i: int, j: int| holds(levels, i, j) ==> resting_ok(#[trigger] levels[i].1[j], levels[i].0, s)
    &&& forall|i: int, j: int, k: int|
        holds(levels, i, j) && holds(levels, i, k) && #[trigger] levels[i].1[j].order_id
            == #[trigger] levels[i].1[k].order_id ==> j == k
}

/// Every order of `levels` is in the index under its level's price and side `s`.
pub open spec fn agrees(index: Map<u64, LevelIdentifier>, levels: Seq<LevelV>, s: Side) -> bool {
    forall|i: int, j: int|
        holds(levels, i, j) ==> {
            let id = (#[trigger] levels[i].1[j]).order_id;
            index.contains_key(id) && index[id] == (LevelIdentifier { price: levels[i].0, side: s })
        }
}

/// Every id that the index files under side `s` rests in `levels`.
pub open spec fn covered(index: Map<u64, LevelIdentifier>, levels: Seq<LevelV>, s: Side) -> bool {
    forall|id: u64|
        #[trigger] index.contains_key(id) && index[id].side == s ==> rests_in(levels, id)
}

/// `side_ok`, `agrees` and `covered` together.
pub open spec fn consistent(index: Map<u64, LevelIdentifier>, levels: Seq<LevelV>, s: Side) -> bool {
    side_ok(levels, s) && agrees(index, levels, s) && covered(index, levels, s)
}

/// The two indexes hold the same entries for side `s`.
pub open spec fn same_on_side(a: Map<u64, LevelIdentifier>, b: Map<u64, LevelIdentifier>, s: Side) -> bool {
    forall|id: u64|
        #![trigger a.contains_key(id)]
        #![trigger b.contains_key(id)]
        (a.contains_key(id) && a[id].side == s) == (b.contains_key(id) && b[id].side == s)
            && (a.contains_key(id) && a[id].side == s ==> a[id] == b[id])
}

/// `a` is `b` with at most the remaining quantity that `b` has.
pub open spec fn worn_from(a: Order, b: Order) -> bool {
    a == (Order { remaining_quantity: a.remaining_quantity, ..b }) && a.remaining_quantity <= b.remaining_quantity
}

/// Sum of the remaining quantities.
pub open spec fn total_remaining(orders: Seq<Order>) -> nat
    decreases orders.len(),
{
    if orders.len() == 0 {
        0
    } else {
        (orders[0].remaining_quantity + total_remaining(orders.drop_first())) as nat
    }
}

/// Remaining quantity of the levels, best first, that cross an order on `side` at `price`.
pub open spec fn qualifying_total(levels: Seq<LevelV>, side: Side, price: u64) -> nat
    decreases levels.len(),
{
    if levels.len() == 0 || !crosses(side, price, levels[0].0) {
        0
    } else {
        total_remaining(levels[0].1) + qualifying_total(levels.drop_first(), side, price)
    }
}

pub open spec fn min_u64(a: u64, b: u64) -> u64 {
    if a <= b { a } else { b }
}

/// Matching `taker` against the orders of one level at `price`, oldest first: the orders left,
/// the taker afterwards, and the trades made.
pub open spec fn sweep_level(orders: Seq<Order>, price: u64, taker: Order) -> (Seq<Order>, Order, Seq<Trade>)
    decreases orders.len(),
{
    if taker.remaining_quantity == 0 || orders.len() == 0 {
        (orders, taker, Seq::empty())
    } else {
        let maker = orders[0];
        let q = min_u64(maker.remaining_quantity, taker.remaining_quantity);
        let trade = Trade { taker_order_id: taker.order_id, maker_order_id: maker.order_id, price, quantity: q };
        if q == maker.remaining_quantity {
            let r = sweep_level(orders.drop_first(), price, taker.filled_by(q));
            (r.0, r.1, seq![trade] + r.2)
        } else {
            (orders.update(0, maker.filled_by(q)), taker.filled_by(q), seq![trade])
        }
    }
}

/// Matching `taker` against the opposite side's levels, best first, while they cross:
/// the levels left, the taker afterwards, and the trades made.
pub open spec fn sweep_side(levels: Seq<LevelV>, taker: Order) -> (Seq<LevelV>, Order, Seq<Trade>)
    decreases levels.len(),
{
    if levels.len() == 0 || taker.remaining_quantity == 0 || !crosses(taker.side, taker.price, levels[0].0) {
        (levels, taker, Seq::empty())
    } else {
        let r = sweep_level(levels[0].1, levels[0].0, taker);
        if r.0.len() == 0 {
            let s = sweep_side(levels.drop_first(), r.1);
            (s.0, s.1, r.2 + s.2)
        } else {
            (levels.update(0, (levels[0].0, r.0)), r.1, r.2)
        }
    }
}

/// `o` appended to the level at its price, or in a new level at its place by price.
pub open spec fn insert_resting(levels: Seq<LevelV>, o: Order) -> Seq<LevelV>
    decreases levels.len(),
{
    if levels.len() == 0 {
        seq![(o.price, seq![o])]
    } else if levels[0].0 == o.price {
        levels.update(0, (o.price, levels[0].1.push(o)))
    } else if better(o.side, o.price, levels[0].0) {
        seq![(o.price, seq![o])] + levels
    } else {
        seq![levels[0]] + insert_resting(levels.drop_first(), o)
    }
}

/// A level put back in front of `rest`, unless it has no orders left.
pub open spec fn with_front(level: LevelV, rest: Seq<LevelV>) -> Seq<LevelV> {
    if level.1.len() == 0 {
        rest
    } else {
        seq![level] + rest
    }
}

/// The levels without the order at `(i, j)`; a level left empty goes too.
pub open spec fn remove_at(levels: Seq<LevelV>, i: int, j: int) -> Seq<LevelV> {
    let os = levels[i].1.remove(j);
    if os.len() == 0 {
        levels.remove(i)
    } else {
        levels.update(i, (levels[i].0, os))
    }
}

} // verus!
