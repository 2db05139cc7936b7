//! The order book: two sides of price levels and an index from order id to level.
use std::collections::{HashMap, VecDeque};
use vstd::prelude::*;
use crate::lemmas::{
    lemma_insert_ok, lemma_insert_placed, lemma_remove_at, lemma_same_on_side, lemma_sweep_level_rest, lemma_sweep_side_taker,
    lemma_update_front, place_of, placed,
};
use crate::model::{
    better, consistent, crosses, holds, insert_resting, may_rest, opposite, qualifying_total, remove_at,
    resting_ok, same_on_side, side_ok, sweep_level, sweep_side, total_remaining, with_front, LevelV,
};
use crate::order::{
    state_of, LevelIdentifier, LivreError, MatchInfo, ModifyOrder, Order, OrderType, Side, Trade,
};

verus! {

broadcast use vstd::std_specs::hash::group_hash_axioms;

/// The orders resting at one price on one side, oldest first.
pub struct PriceLevel {
    pub price: u64,
    pub orders: VecDeque<Order>,
}

impl View for PriceLevel {
    type V = LevelV;

    open spec fn view(&self) -> LevelV {
        (self.price, self.orders@)
    }
}

pub open spec fn view_levels(v: Seq<PriceLevel>) -> Seq<LevelV> {
    v.map_values(|l: PriceLevel| l@)
}

fn crosses_exec(side: Side, price: u64, level_price: u64) -> (r: bool)
    ensures
        r == crosses(side, price, level_price),
{
    match side {
        Side::Bid => level_price <= price,
        Side::Ask => level_price >= price,
    }
}

fn better_exec(s: Side, a: u64, b: u64) -> (r: bool)
    ensures
        r == better(s, a, b),
{
    match s {
        Side::Bid => a > b,
        Side::Ask => a < b,
    }
}

/// Matches `taker` against the orders of `lvl`, oldest first, dropping filled makers from the index.
fn match_level(
    lvl: &mut PriceLevel,
    index: &mut HashMap<u64, LevelIdentifier>,
    taker: &mut Order,
    log: &mut Vec<Trade>,
    Ghost(rest): Ghost<Seq<LevelV>>,
    Ghost(s): Ghost<Side>,
)
    requires
        consistent(old(index)@, seq![old(lvl)@] + rest, s),
        old(taker).wf(),
    ensures
        ({
            let r = sweep_level(old(lvl).orders@, old(lvl).price, *old(taker));
            final(lvl).orders@ == r.0 && *final(taker) == r.1 && final(log)@ == old(log)@ + r.2
        }),
        final(lvl).price == old(lvl).price,
        consistent(final(index)@, with_front(final(lvl)@, rest), s),
        same_on_side(old(index)@, final(index)@, opposite(s)),
        final(index)@.dom().subset_of(old(index)@.dom()),
        final(taker).wf(),
{
    let ghost o0 = lvl.orders@;
    let ghost t0 = *taker;
    let ghost log0 = log@;
    let ghost ix0 = index@;
    let ghost mut done: Seq<Trade> = Seq::empty();
    proof {
        assert(with_front(lvl@, rest) == seq![lvl@] + rest) by {
            assert(lvl.orders@.len() > 0) by {
                assert((seq![lvl@] + rest)[0] == lvl@);
            }
        }
    }
    while taker.remaining_quantity > 0 && lvl.orders.len() > 0
        invariant
            lvl.price == old(lvl).price,
            log@ == log0 + done,
            ({
                let r = sweep_level(lvl.orders@, lvl.price, *taker);
                sweep_level(o0, lvl.price, t0) == (r.0, r.1, done + r.2)
            }),
            consistent(index@, with_front(lvl@, rest), s),
            same_on_side(ix0, index@, opposite(s)),
            index@.dom().subset_of(ix0.dom()),
            taker.wf(),
        decreases lvl.orders@.len(), taker.remaining_quantity,
    {
        let ghost levels = with_front(lvl@, rest);
        let ghost ix = index@;
        let ghost os = lvl.orders@;
        proof {
            assert(levels[0] == lvl@);
        }
        let mut maker = lvl.orders.pop_front().unwrap();
        let q: u64 = if maker.remaining_quantity <= taker.remaining_quantity {
            maker.remaining_quantity
        } else {
            taker.remaining_quantity
        };
        let _ = maker.fill(q);
        let _ = taker.fill(q);
        let trade = Trade::new(taker.order_id, maker.order_id, lvl.price, q);
        log.push(trade);
        proof {
            done = done + seq![trade];
            assert(log@ =~= log0 + done);
            assert(resting_ok(levels[0].1[0], levels[0].0, s));
        }
        if maker.remaining_quantity == 0 {
            index.remove(&maker.order_id);
            proof {
                lemma_remove_at(ix, levels, s, 0, 0);
                assert(os.drop_first() =~= lvl.orders@);
                if lvl.orders@.len() == 0 {
                    assert(remove_at(levels, 0, 0) =~= with_front(lvl@, rest));
                } else {
                    assert(remove_at(levels, 0, 0) =~= with_front(lvl@, rest));
                }
                let r = sweep_level(lvl.orders@, lvl.price, *taker);
                assert(done + r.2 =~= (done.drop_last()) + (seq![trade] + r.2));
            }
        } else {
            lvl.orders.push_front(maker);
            proof {
                lemma_update_front(ix, levels, s, maker);
                assert(lvl.orders@ =~= os.update(0, maker));
                assert(levels.update(0, (levels[0].0, levels[0].1.update(0, maker))) =~= with_front(lvl@, rest));
                assert(done =~= done.drop_last() + seq![trade]);
                assert(done + Seq::<Trade>::empty() =~= done);
            }
        }
    }
}

/// Matches `taker` against `levels`, best first, while they cross it.
fn match_side(
    levels: &mut Vec<PriceLevel>,
    index: &mut HashMap<u64, LevelIdentifier>,
    taker: &mut Order,
    log: &mut Vec<Trade>,
    Ghost(s): Ghost<Side>,
)
    requires
        consistent(old(index)@, view_levels(old(levels)@), s),
        old(taker).wf(),
    ensures
        ({
            let r = sweep_side(view_levels(old(levels)@), *old(taker));
            view_levels(final(levels)@) == r.0 && *final(taker) == r.1 && final(log)@ == old(log)@ + r.2
        }),
        consistent(final(index)@, view_levels(final(levels)@), s),
        same_on_side(old(index)@, final(index)@, opposite(s)),
        final(index)@.dom().subset_of(old(index)@.dom()),
        final(taker).wf(),
{
    let ghost l0 = view_levels(levels@);
    let ghost t0 = *taker;
    let ghost log0 = log@;
    let ghost ix0 = index@;
    let ghost mut done: Seq<Trade> = Seq::empty();
    loop
        invariant
            log@ == log0 + done,
            ({
                let r = sweep_side(view_levels(levels@), *taker);
                sweep_side(l0, t0) == (r.0, r.1, done + r.2)
            }),
            consistent(index@, view_levels(levels@), s),
            same_on_side(ix0, index@, opposite(s)),
            index@.dom().subset_of(ix0.dom()),
            taker.wf(),
        ensures
            levels@.len() == 0 || taker.remaining_quantity == 0 || !crosses(
                taker.side,
                taker.price,
                view_levels(levels@)[0].0,
            ),
        decreases levels@.len() + if taker.remaining_quantity > 0 { 1int } else { 0int },
    {
        if levels.len() == 0 || taker.remaining_quantity == 0 {
            break;
        }
        if !crosses_exec(taker.side, taker.price, levels[0].price) {
            break;
        }
        let ghost lv = view_levels(levels@);
        let ghost t = *taker;
        let mut lvl = levels.remove(0);
        proof {
            assert(lv =~= seq![lvl@] + view_levels(levels@));
        }
        let ghost rest = view_levels(levels@);
        match_level(&mut lvl, index, taker, log, Ghost(rest), Ghost(s));
        let ghost r = sweep_level(lv[0].1, lv[0].0, t);
        proof {
            done = done + r.2;
            assert(log@ =~= log0 + done);
            lemma_sweep_level_rest(lv[0].1, lv[0].0, t);
        }
        if lvl.orders.len() > 0 {
            levels.insert(0, lvl);
            proof {
                assert(view_levels(levels@) =~= lv.update(0, (lv[0].0, r.0)));
                assert(with_front(lvl@, rest) =~= view_levels(levels@));
                assert(done + Seq::<Trade>::empty() =~= done);
            }
        } else {
            proof {
                assert(view_levels(levels@) =~= lv.drop_first());
                assert(with_front(lvl@, rest) =~= view_levels(levels@));
                let r2 = sweep_side(view_levels(levels@), *taker);
                assert(done + r2.2 =~= done.subrange(0, done.len() - r.2.len()) + (r.2 + r2.2));
            }
        }
    }
}

/// Puts `order` into `levels`: behind the orders at its price, or in a new level at its place.
fn rest_order(levels: &mut Vec<PriceLevel>, order: Order)
    requires
        side_ok(view_levels(old(levels)@), order.side),
    ensures
        view_levels(final(levels)@) == insert_resting(view_levels(old(levels)@), order),
        exists|k: int|
            place_of(view_levels(old(levels)@), order, k) && view_levels(final(levels)@)
                == #[trigger] placed(view_levels(old(levels)@), order, k),
{
    let ghost l0 = view_levels(levels@);
    let mut k: usize = 0;
    while k < levels.len()
        invariant
            0 <= k <= levels.len(),
            l0 == view_levels(levels@),
            forall|a: int| 0 <= a < k ==> better(order.side, #[trigger] l0[a].0, order.price),
        ensures
            0 <= k <= levels.len(),
            k < levels.len() ==> !better(order.side, l0[k as int].0, order.price),
        decreases levels.len() - k,
    {
        if !better_exec(order.side, levels[k].price, order.price) {
            break;
        }
        k = k + 1;
    }
    proof {
        assert(place_of(l0, order, k as int));
        lemma_insert_placed(l0, order, k as int);
    }
    if k < levels.len() && levels[k].price == order.price {
        let mut lvl = levels.remove(k);
        lvl.orders.push_back(order);
        levels.insert(k, lvl);
        assert(view_levels(levels@) =~= placed(l0, order, k as int));
    } else {
        let mut orders = VecDeque::new();
        orders.push_back(order);
        levels.insert(k, PriceLevel { price: order.price, orders });
        assert(view_levels(levels@) =~= placed(l0, order, k as int));
    }
}


/// Takes the order `id` out of `levels`, where the index files it at `price`.
fn remove_order(
    levels: &mut Vec<PriceLevel>,
    id: u64,
    price: u64,
    Ghost(index): Ghost<Map<u64, LevelIdentifier>>,
    Ghost(s): Ghost<Side>,
) -> (o: Order)
    requires
        consistent(index, view_levels(old(levels)@), s),
        index.contains_key(id),
        index[id] == (LevelIdentifier { price, side: s }),
    ensures
        ({
            let l0 = view_levels(old(levels)@);
            exists|i: int, j: int|
                holds(l0, i, j) && l0[i].1[j] == o && o.order_id == id && view_levels(final(levels)@)
                    == remove_at(l0, i, j)
        }),
{
    let ghost l0 = view_levels(levels@);
    let ghost (wi, wj) = choose|a: int, b: int| holds(l0, a, b) && #[trigger] l0[a].1[b].order_id == id;
    proof {
        assert(l0[wi].1[wj] == l0[wi].1[wj]);
    }
    let mut i: usize = 0;
    while i < levels.len()
        invariant
            0 <= i <= levels.len(),
            l0 == view_levels(levels@),
            0 <= wi < l0.len(),
            l0[wi].0 == price,
            forall|a: int| 0 <= a < i ==> (#[trigger] l0[a]).0 != price,
        ensures
            i < levels.len() && l0[i as int].0 == price,
        decreases levels.len() - i,
    {
        if levels[i].price == price {
            break;
        }
        i = i + 1;
    }
    proof {
        if wi != i {
            if wi < i {
                assert(better(s, l0[wi].0, l0[i as int].0));
            } else {
                assert(better(s, l0[i as int].0, l0[wi].0));
            }
        }
        assert(wi == i);
    }
    let mut lvl = levels.remove(i);
    let mut j: usize = 0;
    while j < lvl.orders.len()
        invariant
            0 <= j <= lvl.orders@.len(),
            lvl@ == l0[i as int],
            holds(l0, i as int, wj),
            l0[i as int].1[wj].order_id == id,
            forall|b: int| 0 <= b < j ==> (#[trigger] l0[i as int].1[b]).order_id != id,
        ensures
            j < lvl.orders@.len() && l0[i as int].1[j as int].order_id == id,
        decreases lvl.orders@.len() - j,
    {
        if lvl.orders[j].order_id == id {
            break;
        }
        j = j + 1;
    }
    let o = lvl.orders.remove(j).unwrap();
    if lvl.orders.len() > 0 {
        levels.insert(i, lvl);
        assert(view_levels(levels@) =~= remove_at(l0, i as int, j as int));
    } else {
        assert(view_levels(levels@) =~= remove_at(l0, i as int, j as int));
    }
    o
}

/// A limit order book for one instrument.
pub struct Orderbook {
    bids: Vec<PriceLevel>,
    asks: Vec<PriceLevel>,
    orders: HashMap<u64, LevelIdentifier>,
}

/// What `add_order` does to `pre`, giving `post` and `r`.
pub open spec fn add_spec(pre: Orderbook, order: Order, post: Orderbook, r: Result<MatchInfo, LivreError>) -> bool {
    if !pre.admits(order) {
        &&& r == Err::<MatchInfo, LivreError>(
            if order.order_type == OrderType::FillAndKill || order.order_type == OrderType::FillOrKill {
                LivreError::UnfillableOrder
            } else {
                LivreError::DuplicateOrderId
            },
        )
        &&& post.same_as(pre)
    } else {
        let m = sweep_side(pre.levels(opposite(order.side)), order);
        let t = m.1;
        &&& r is Ok
        &&& r->Ok_0.trade_log@ == m.2
        &&& r->Ok_0.order_state == state_of(t.initial_quantity, t.remaining_quantity)
        &&& post.levels(opposite(order.side)) == m.0
        &&& post.levels(order.side) == if t.remaining_quantity > 0 && may_rest(t.order_type) {
            insert_resting(pre.levels(order.side), t)
        } else {
            pre.levels(order.side)
        }
    }
}

/// What `cancel_order(id)` does to `pre`, giving `post` and `r`.
pub open spec fn cancel_spec(pre: Orderbook, id: u64, post: Orderbook, r: Result<Order, LivreError>) -> bool {
    if !pre.index().contains_key(id) {
        r == Err::<Order, LivreError>(LivreError::OrderNotFound) && post.same_as(pre)
    } else {
        let s = pre.index()[id].side;
        let l = pre.levels(s);
        &&& r is Ok
        &&& exists|i: int, j: int|
            holds(l, i, j) && #[trigger] l[i].1[j] == r->Ok_0 && post.levels(s) == remove_at(l, i, j)
        &&& r->Ok_0.order_id == id
        &&& post.levels(opposite(s)) == pre.levels(opposite(s))
        &&& post.index() == pre.index().remove(id)
    }
}

/// What `modify_order(req)` does to `pre`: the cancel, then the add of the new order.
pub open spec fn modify_spec(pre: Orderbook, req: ModifyOrder, post: Orderbook, r: Result<MatchInfo, LivreError>) -> bool {
    if !pre.index().contains_key(req.order_id) {
        r == Err::<MatchInfo, LivreError>(LivreError::OrderNotFound) && post.same_as(pre)
    } else {
        exists|mid: Orderbook, old_order: Order|
            #![trigger cancel_spec(pre, req.order_id, mid, Ok::<Order, LivreError>(old_order))]
            {
                &&& mid.wf()
                &&& cancel_spec(pre, req.order_id, mid, Ok::<Order, LivreError>(old_order))
                &&& add_spec(mid, req.spec_to_order(old_order.order_type), post, r)
            }
    }
}

proof fn lemma_side_ok(b: &Orderbook, s: Side)
    requires
        b.wf(),
    ensures
        side_ok(b.levels(s), s),
        consistent(b.index(), b.levels(s), s),
{
}

impl Orderbook {
    /// The bid levels, best (highest price) first.
    pub closed spec fn bid_levels(&self) -> Seq<LevelV> {
        view_levels(self.bids@)
    }

    /// The ask levels, best (lowest price) first.
    pub closed spec fn ask_levels(&self) -> Seq<LevelV> {
        view_levels(self.asks@)
    }

    /// The index from resting order id to its level.
    pub closed spec fn index(&self) -> Map<u64, LevelIdentifier> {
        self.orders@
    }

    pub open spec fn levels(&self, s: Side) -> Seq<LevelV> {
        match s {
            Side::Bid => self.bid_levels(),
            Side::Ask => self.ask_levels(),
        }
    }

    /// Both sides well formed, and the index holds exactly the resting orders, each under
    /// its level's price and side.
    pub open spec fn wf(&self) -> bool {
        &&& consistent(self.index(), self.bid_levels(), Side::Bid)
        &&& consistent(self.index(), self.ask_levels(), Side::Ask)
    }

    pub open spec fn same_as(&self, other: Orderbook) -> bool {
        &&& self.bid_levels() == other.bid_levels()
        &&& self.ask_levels() == other.ask_levels()
        &&& self.index() == other.index()
    }

    pub open spec fn spec_can_match(&self, side: Side, price: u64) -> bool {
        let opp = self.levels(opposite(side));
        opp.len() > 0 && crosses(side, price, opp[0].0)
    }

    /// Whether `add_order` lets `o` through to matching.
    pub open spec fn admits(&self, o: Order) -> bool {
        match o.order_type {
            OrderType::FillAndKill => self.spec_can_match(o.side, o.price),
            OrderType::FillOrKill => self.spec_can_match(o.side, o.price) && qualifying_total(
                self.levels(opposite(o.side)),
                o.side,
                o.price,
            ) >= o.initial_quantity,
            _ => !self.index().contains_key(o.order_id),
        }
    }

    pub fn new() -> (r: Self)
        ensures
            r.wf(),
            r.bid_levels() == Seq::<LevelV>::empty(),
            r.ask_levels() == Seq::<LevelV>::empty(),
            r.index() == Map::<u64, LevelIdentifier>::empty(),
    {
        let r = Orderbook { bids: Vec::new(), asks: Vec::new(), orders: HashMap::new() };
        assert(r.bid_levels() =~= Seq::<LevelV>::empty());
        assert(r.ask_levels() =~= Seq::<LevelV>::empty());
        r
    }

    /// The number of resting orders.
    pub fn order_count(&self) -> (r: usize)
        ensures
            r == self.index().len(),
    {
        self.orders.len()
    }

    /// Submits `order`: admits it by its type, matches it against the opposite side, and rests
    /// what is left of it where its type allows.
    ///
    /// A fill-and-kill or fill-or-kill order never rests, so it is not checked against the ids
    /// of resting orders.
    pub fn add_order(&mut self, order: Order) -> (r: Result<MatchInfo, LivreError>)
        requires
            old(self).wf(),
            order.wf(),
        ensures
            final(self).wf(),
            add_spec(*old(self), order, *final(self), r),
    {
        match order.order_type {
            OrderType::FillAndKill => {
                if !self.can_match(order.side, order.price) {
                    return Err(LivreError::UnfillableOrder);
                }
            },
            OrderType::FillOrKill => {
                if !self.can_fully_fill(order.price, order.initial_quantity, order.side) {
                    return Err(LivreError::UnfillableOrder);
                }
            },
            _ => {
                if self.orders.contains_key(&order.order_id) {
                    return Err(LivreError::DuplicateOrderId);
                }
            },
        }
        let ghost o0 = order;
        let mut order = order;
        let trade_log = self.match_order(&mut order);
        proof {
            lemma_sweep_side_taker(old(self).levels(opposite(o0.side)), o0);
        }
        let order_state = order.order_state();
        if !order.is_filled() && matches!(
            order.order_type,
            OrderType::GoodForDay | OrderType::Market | OrderType::GoodTillCancel
        ) {
            self.rest(order);
        }
        Ok(MatchInfo::new(trade_log, order_state))
    }

    /// Removes the resting order `order_id` from its level and from the index, and returns it.
    pub fn cancel_order(&mut self, order_id: u64) -> (r: Result<Order, LivreError>)
        requires
            old(self).wf(),
        ensures
            final(self).wf(),
            cancel_spec(*old(self), order_id, *final(self), r),
    {
        let li = match self.orders.get(&order_id) {
            Some(li) => *li,
            None => {
                return Err(LivreError::OrderNotFound);
            },
        };
        let ghost ix = self.orders@;
        let ghost s = li.side;
        proof {
            lemma_side_ok(self, s);
        }
        let o = match li.side {
            Side::Bid => remove_order(&mut self.bids, order_id, li.price, Ghost(ix), Ghost(Side::Bid)),
            Side::Ask => remove_order(&mut self.asks, order_id, li.price, Ghost(ix), Ghost(Side::Ask)),
        };
        self.orders.remove(&order_id);
        proof {
            let l = old(self).levels(s);
            let (i, j) = choose|i: int, j: int|
                holds(l, i, j) && l[i].1[j] == o && o.order_id == order_id && self.levels(s)
                    == remove_at(l, i, j);
            lemma_remove_at(ix, l, s, i, j);
            lemma_side_ok(old(self), opposite(s));
            lemma_same_on_side(ix, ix.remove(order_id), old(self).levels(opposite(s)), opposite(s));
        }
        Ok(o)
    }

    /// Cancels the resting order `order.order_id`, then submits a new order of the same type
    /// with the side, price and quantity of `order`.
    pub fn modify_order(&mut self, order: ModifyOrder) -> (r: Result<MatchInfo, LivreError>)
        requires
            old(self).wf(),
        ensures
            final(self).wf(),
            modify_spec(*old(self), order, *final(self), r),
    {
        let old_order = match self.cancel_order(order.order_id) {
            Ok(o) => o,
            Err(e) => {
                return Err(e);
            },
        };
        let ghost mid = *self;
        let new_order = order.to_order(old_order.order_type);
        let r = self.add_order(new_order);
        proof {
            assert(cancel_spec(*old(self), order.order_id, mid, Ok::<Order, LivreError>(old_order)));
        }
        r
    }

    /// Matches `order` against the opposite side and returns the trades made.
    fn match_order(&mut self, order: &mut Order) -> (log: Vec<Trade>)
        requires
            old(self).wf(),
            old(order).wf(),
        ensures
            ({
                let s = old(order).side;
                let m = sweep_side(old(self).levels(opposite(s)), *old(order));
                &&& final(self).levels(opposite(s)) == m.0
                &&& final(self).levels(s) == old(self).levels(s)
                &&& *final(order) == m.1
                &&& log@ == m.2
            }),
            final(self).wf(),
            final(self).index().dom().subset_of(old(self).index().dom()),
            final(order).wf(),
    {
        let mut trade_log = Vec::new();
        proof {
            lemma_side_ok(self, Side::Bid);
            lemma_side_ok(self, Side::Ask);
        }
        match order.side {
            Side::Bid => {
                match_side(&mut self.asks, &mut self.orders, order, &mut trade_log, Ghost(Side::Ask));
                proof {
                    lemma_same_on_side(old(self).index(), self.index(), self.bid_levels(), Side::Bid);
                }
            },
            Side::Ask => {
                match_side(&mut self.bids, &mut self.orders, order, &mut trade_log, Ghost(Side::Bid));
                proof {
                    lemma_same_on_side(old(self).index(), self.index(), self.ask_levels(), Side::Ask);
                }
            },
        }
        assert(trade_log@ =~= Seq::<Trade>::empty() + trade_log@);
        trade_log
    }

    /// Files `order` in its side's levels and in the index.
    fn rest(&mut self, order: Order)
        requires
            old(self).wf(),
            resting_ok(order, order.price, order.side),
            !old(self).index().contains_key(order.order_id),
        ensures
            final(self).wf(),
            final(self).levels(order.side) == insert_resting(old(self).levels(order.side), order),
            final(self).levels(opposite(order.side)) == old(self).levels(opposite(order.side)),
    {
        let ghost s = order.side;
        let ghost ix = self.orders@;
        proof {
            lemma_side_ok(self, Side::Bid);
            lemma_side_ok(self, Side::Ask);
        }
        match order.side {
            Side::Bid => rest_order(&mut self.bids, order),
            Side::Ask => rest_order(&mut self.asks, order),
        }
        self.orders.insert(order.order_id, LevelIdentifier::new(order.price, order.side));
        proof {
            let l = old(self).levels(s);
            let k = choose|k: int| place_of(l, order, k) && self.levels(s) == #[trigger] placed(l, order, k);
            lemma_insert_ok(ix, l, order, k);
            lemma_same_on_side(ix, self.orders@, old(self).levels(opposite(s)), opposite(s));
        }
    }

    /// Whether the opposite side's best price crosses an order on `side` at `price`.
    pub fn can_match(&self, side: Side, price: u64) -> (r: bool)
        ensures
            r == self.spec_can_match(side, price),
    {
        let levels = match side {
            Side::Ask => &self.bids,
            Side::Bid => &self.asks,
        };
        if levels.len() == 0 {
            false
        } else {
            crosses_exec(side, price, levels[0].price)
        }
    }

    /// Whether the opposite side holds at least `quantity` at prices crossing `price`.
    pub fn can_fully_fill(&self, price: u64, quantity: u64, side: Side) -> (r: bool)
        requires
            self.wf(),
        ensures
            r == (self.spec_can_match(side, price) && qualifying_total(
                self.levels(opposite(side)),
                side,
                price,
            ) >= quantity),
    {
        proof {
            lemma_side_ok(self, opposite(side));
        }
        if !self.can_match(side, price) {
            return false;
        }
        let levels = match side {
            Side::Ask => &self.bids,
            Side::Bid => &self.asks,
        };
        let ghost l = view_levels(levels@);
        let ghost goal = qualifying_total(l, side, price) >= quantity;
        proof {
            assert(l == self.levels(opposite(side)));
            assert(l.skip(0) =~= l);
            assert(l[0].1.len() > 0);
        }
        let mut need: u64 = quantity;
        let mut i: usize = 0;
        while i < levels.len()
            invariant
                0 <= i <= levels.len(),
                l == view_levels(levels@),
                l.len() > 0,
                l[0].1.len() > 0,
                crosses(side, price, l[0].0),
                goal == (qualifying_total(l, side, price) >= quantity),
                l == self.levels(opposite(side)),
                self.spec_can_match(side, price),
                goal == (qualifying_total(l.skip(i as int), side, price) >= need),
                i > 0 ==> need > 0,
            decreases levels.len() - i,
        {
            let lvl = &levels[i];
            if !crosses_exec(side, price, lvl.price) {
                proof {
                    assert(l.skip(i as int)[0] == l[i as int]);
                    assert(qualifying_total(l.skip(i as int), side, price) == 0);
                    assert(!goal);
                }
                return false;
            }
            let ghost os = lvl.orders@;
            proof {
                assert(l.skip(i as int).drop_first() =~= l.skip(i as int + 1));
                assert(l.skip(i as int)[0] == l[i as int]);
                assert(os.skip(0) =~= os);
                assert(qualifying_total(l.skip(i as int), side, price) == total_remaining(os) + qualifying_total(l.skip(i as int + 1), side, price));
            }
            let mut j: usize = 0;
            while j < lvl.orders.len()
                invariant
                    0 <= j <= os.len(),
                    os == lvl.orders@,
                    goal == (qualifying_total(l, side, price) >= quantity),
                    l == self.levels(opposite(side)),
                    self.spec_can_match(side, price),
                    goal == (total_remaining(os.skip(j as int)) + qualifying_total(
                        l.skip(i as int + 1),
                        side,
                        price,
                    ) >= need),
                    i > 0 || j > 0 ==> need > 0,
                    i == 0 ==> os.len() > 0,
                decreases os.len() - j,
            {
                let rem = lvl.orders[j].remaining_quantity;
                proof {
                    assert(os.skip(j as int).drop_first() =~= os.skip(j as int + 1));
                    assert(os.skip(j as int)[0] == os[j as int]);
                    assert(total_remaining(os.skip(j as int)) == rem + total_remaining(os.skip(j as int + 1)));
                }
                if rem >= need {
                    assert(goal);
                    return true;
                }
                need = need - rem;
                j = j + 1;
            }
            proof {
                assert(os.skip(j as int) =~= Seq::<Order>::empty());
            }
            i = i + 1;
        }
        proof {
            assert(l.skip(i as int) =~= Seq::<LevelV>::empty());
        }
        false
    }
}

} // verus!
