//! Lemmas that keep a book side and the index consistent across each kind of update.
use vstd::prelude::*;
use crate::model::{
    agrees, better, consistent, covered, holds, opposite, remove_at, resting_ok, rests_in, same_on_side,
    side_ok, LevelV, insert_resting, sweep_level, sweep_side, crosses, min_u64, worn_from,
};
use crate::order::{LevelIdentifier, Order, Side};

verus! {

/// Where the order at `(a, b)` of `remove_at(levels, i, j)` stood before.
pub open spec fn origin(levels: Seq<LevelV>, i: int, j: int, a: int, b: int) -> (int, int) {
    if levels[i].1.len() == 1 {
        (if a < i { a } else { a + 1 }, b)
    } else {
        (a, if a == i && b >= j { b + 1 } else { b })
    }
}

/// Where the order at `(a, b)` of `levels`, other than `(i, j)`, stands after `remove_at`.
pub open spec fn target(levels: Seq<LevelV>, i: int, j: int, a: int, b: int) -> (int, int) {
    if levels[i].1.len() == 1 {
        (if a < i { a } else { a - 1 }, b)
    } else {
        (a, if a == i && b > j { b - 1 } else { b })
    }
}

pub proof fn lemma_better_irreflexive(s: Side, a: u64, b: u64)
    ensures
        better(s, a, b) ==> a != b && !better(s, b, a),
{
}

proof fn lemma_remove_at_positions(levels: Seq<LevelV>, i: int, j: int, a: int, b: int)
    requires
        side_ok(levels, Side::Bid) || side_ok(levels, Side::Ask),
        holds(levels, i, j),
        holds(remove_at(levels, i, j), a, b),
    ensures
        ({
            let o = origin(levels, i, j, a, b);
            let l2 = remove_at(levels, i, j);
            &&& holds(levels, o.0, o.1)
            &&& o != (i, j)
            &&& l2[a].1[b] == levels[o.0].1[o.1]
            &&& l2[a].0 == levels[o.0].0
            &&& (o.0 == i <==> (a == i && levels[i].1.len() > 1))
        }),
{
    assert(levels[i].1.len() > 0);
}

pub proof fn lemma_remove_at(index: Map<u64, LevelIdentifier>, levels: Seq<LevelV>, s: Side, i: int, j: int)
    requires
        consistent(index, levels, s),
        holds(levels, i, j),
    ensures
        ({
            let id = levels[i].1[j].order_id;
            let ix2 = index.remove(id);
            let l2 = remove_at(levels, i, j);
            &&& consistent(ix2, l2, s)
            &&& same_on_side(index, ix2, opposite(s))
            &&& index.contains_key(id)
            &&& index[id] == (LevelIdentifier { price: levels[i].0, side: s })
            &&& !rests_in(l2, id)
        }),
{
    let id = levels[i].1[j].order_id;
    let ix2 = index.remove(id);
    let l2 = remove_at(levels, i, j);
    assert(levels[i].1[j] == levels[i].1[j]);
    assert forall|a: int, b: int| 0 <= a < b < l2.len() implies better(s, #[trigger] l2[a].0, #[trigger] l2[b].0) by {
        assert(l2[a].1.len() > 0 && l2[b].1.len() > 0) by {
            assert(levels[origin(levels, i, j, a, 0).0].1.len() > 0);
            assert(levels[origin(levels, i, j, b, 0).0].1.len() > 0);
        }
        lemma_remove_at_positions(levels, i, j, a, 0);
        lemma_remove_at_positions(levels, i, j, b, 0);
    }
    assert forall|a: int| 0 <= a < l2.len() implies (#[trigger] l2[a]).1.len() > 0 by {
        let a0 = if levels[i].1.len() == 1 { if a < i { a } else { a + 1 } } else { a };
        assert(levels[a0].1.len() > 0);
    }
    assert forall|a: int, b: int| holds(l2, a, b) implies resting_ok(#[trigger] l2[a].1[b], l2[a].0, s) by {
        lemma_remove_at_positions(levels, i, j, a, b);
        let o = origin(levels, i, j, a, b);
        assert(levels[o.0].1[o.1] == levels[o.0].1[o.1]);
    }
    assert forall|a: int, b: int, c: int|
        holds(l2, a, b) && holds(l2, a, c) && #[trigger] l2[a].1[b].order_id == #[trigger] l2[a].1[c].order_id implies b == c by {
        lemma_remove_at_positions(levels, i, j, a, b);
        lemma_remove_at_positions(levels, i, j, a, c);
        let ob = origin(levels, i, j, a, b);
        let oc = origin(levels, i, j, a, c);
        assert(levels[ob.0].1[ob.1] == levels[ob.0].1[ob.1]);
        assert(levels[oc.0].1[oc.1] == levels[oc.0].1[oc.1]);
    }
    assert forall|a: int, b: int| holds(l2, a, b) implies {
        let id2 = (#[trigger] l2[a].1[b]).order_id;
        ix2.contains_key(id2) && ix2[id2] == (LevelIdentifier { price: l2[a].0, side: s })
    } by {
        lemma_remove_at_positions(levels, i, j, a, b);
        let o = origin(levels, i, j, a, b);
        assert(levels[o.0].1[o.1] == levels[o.0].1[o.1]);
        let id2 = l2[a].1[b].order_id;
        if o.0 == i {
            assert(id2 != id);
        } else {
            if o.0 < i {
                assert(better(s, levels[o.0].0, levels[i].0));
            } else {
                assert(better(s, levels[i].0, levels[o.0].0));
            }
            lemma_better_irreflexive(s, levels[o.0].0, levels[i].0);
            lemma_better_irreflexive(s, levels[i].0, levels[o.0].0);
            assert(id2 != id);
        }
    }
    assert forall|id2: u64| #[trigger] ix2.contains_key(id2) && ix2[id2].side == s implies rests_in(l2, id2) by {
        assert(index.contains_key(id2) && index[id2].side == s);
        let (a, b) = choose|a: int, b: int| holds(levels, a, b) && #[trigger] levels[a].1[b].order_id == id2;
        assert((a, b) != (i, j));
        let t = target(levels, i, j, a, b);
        if levels[i].1.len() == 1 {
            assert(a != i);
        }
        assert(l2[t.0].1[t.1] == levels[a].1[b]);
        assert(holds(l2, t.0, t.1));
    }
    assert(!rests_in(l2, id)) by {
        if rests_in(l2, id) {
            let (a, b) = choose|a: int, b: int| holds(l2, a, b) && #[trigger] l2[a].1[b].order_id == id;
            assert(l2[a].1[b] == l2[a].1[b]);
        }
    }
}


pub proof fn lemma_update_front(index: Map<u64, LevelIdentifier>, levels: Seq<LevelV>, s: Side, o2: Order)
    requires
        consistent(index, levels, s),
        levels.len() > 0,
        o2.order_id == levels[0].1[0].order_id,
        resting_ok(o2, levels[0].0, s),
    ensures
        consistent(index, levels.update(0, (levels[0].0, levels[0].1.update(0, o2))), s),
{
    let l2 = levels.update(0, (levels[0].0, levels[0].1.update(0, o2)));
    assert(levels[0].1.len() > 0);
    assert forall|a: int, b: int| holds(l2, a, b) implies l2[a].1[b].order_id == levels[a].1[b].order_id
        && (resting_ok(levels[a].1[b], levels[a].0, s) ==> resting_ok(#[trigger] l2[a].1[b], l2[a].0, s)) by {
        assert(levels[a].1[b] == levels[a].1[b]);
    }
    assert forall|a: int, b: int| 0 <= a < b < l2.len() implies better(s, #[trigger] l2[a].0, #[trigger] l2[b].0) by {
        assert(levels[a].0 == l2[a].0 && levels[b].0 == l2[b].0);
    }
    assert forall|a: int| 0 <= a < l2.len() implies (#[trigger] l2[a]).1.len() > 0 by {
        assert(levels[a].1.len() > 0);
    }
    assert forall|id2: u64| #[trigger] index.contains_key(id2) && index[id2].side == s implies rests_in(l2, id2) by {
        let (a, b) = choose|a: int, b: int| holds(levels, a, b) && #[trigger] levels[a].1[b].order_id == id2;
        assert(l2[a].1[b].order_id == id2);
    }
}

/// `o` placed at level position `k`: appended to the level there if it has `o`'s price,
/// else in a new level inserted there.
pub open spec fn placed(levels: Seq<LevelV>, o: Order, k: int) -> Seq<LevelV> {
    if k < levels.len() && levels[k].0 == o.price {
        levels.update(k, (o.price, levels[k].1.push(o)))
    } else {
        levels.insert(k, (o.price, seq![o]))
    }
}

/// `k` is the first level position whose price is not matched before `o`'s.
pub open spec fn place_of(levels: Seq<LevelV>, o: Order, k: int) -> bool {
    &&& 0 <= k <= levels.len()
    &&& forall|a: int| 0 <= a < k ==> better(o.side, #[trigger] levels[a].0, o.price)
    &&& k < levels.len() ==> !better(o.side, levels[k].0, o.price)
}

pub proof fn lemma_better_total(s: Side, a: u64, b: u64)
    ensures
        a == b || better(s, a, b) || better(s, b, a),
{
}

pub proof fn lemma_better_trans(s: Side, a: u64, b: u64, c: u64)
    requires
        better(s, a, b),
        better(s, b, c),
    ensures
        better(s, a, c),
{
}

pub proof fn lemma_insert_placed(levels: Seq<LevelV>, o: Order, k: int)
    requires
        place_of(levels, o, k),
    ensures
        insert_resting(levels, o) == placed(levels, o, k),
    decreases k,
{
    if k == 0 {
        if levels.len() == 0 {
            assert(insert_resting(levels, o) =~= placed(levels, o, k));
        } else if levels[0].0 == o.price {
        } else {
            lemma_better_total(o.side, o.price, levels[0].0);
            assert(insert_resting(levels, o) =~= placed(levels, o, k));
        }
    } else {
        let rest = levels.drop_first();
        assert(better(o.side, levels[0].0, o.price));
        lemma_better_irreflexive(o.side, levels[0].0, o.price);
        assert forall|a: int| 0 <= a < k - 1 implies better(o.side, #[trigger] rest[a].0, o.price) by {
            assert(rest[a] == levels[a + 1]);
        }
        lemma_insert_placed(rest, o, k - 1);
        assert(insert_resting(levels, o) =~= placed(levels, o, k));
    }
}

pub proof fn lemma_insert_ok(index: Map<u64, LevelIdentifier>, levels: Seq<LevelV>, o: Order, k: int)
    requires
        consistent(index, levels, o.side),
        place_of(levels, o, k),
        resting_ok(o, o.price, o.side),
        !index.contains_key(o.order_id),
    ensures
        ({
            let ix2 = index.insert(o.order_id, LevelIdentifier { price: o.price, side: o.side });
            &&& consistent(ix2, placed(levels, o, k), o.side)
            &&& same_on_side(index, ix2, opposite(o.side))
        }),
{
    let s = o.side;
    let p = o.price;
    let ix2 = index.insert(o.order_id, LevelIdentifier { price: p, side: s });
    let l2 = placed(levels, o, k);
    assert forall|a: int, b: int| holds(levels, a, b) implies (#[trigger] levels[a].1[b]).order_id != o.order_id by {
        assert(levels[a].1[b] == levels[a].1[b]);
    }
    if k < levels.len() && levels[k].0 == p {
        let n = levels[k].1.len() as int;
        assert forall|a: int, b: int| holds(l2, a, b) implies
            (#[trigger] l2[a].1[b] == if a == k && b == n { o } else { levels[a].1[b] }) && l2[a].0 == levels[a].0
            && (!(a == k && b == n) ==> holds(levels, a, b)) by {
        }
        assert forall|a: int, b: int| 0 <= a < b < l2.len() implies better(s, #[trigger] l2[a].0, #[trigger] l2[b].0) by {
            assert(levels[a].0 == l2[a].0 && levels[b].0 == l2[b].0);
        }
        assert forall|a: int| 0 <= a < l2.len() implies (#[trigger] l2[a]).1.len() > 0 by {
            assert(levels[a].1.len() > 0);
        }
        assert forall|a: int, b: int| holds(l2, a, b) implies resting_ok(#[trigger] l2[a].1[b], l2[a].0, s) by {
            if !(a == k && b == n) {
                assert(levels[a].1[b] == levels[a].1[b]);
            }
        }
        assert forall|a: int, b: int, c: int|
            holds(l2, a, b) && holds(l2, a, c) && #[trigger] l2[a].1[b].order_id == #[trigger] l2[a].1[c].order_id implies b == c by {
            if !(a == k && b == n) {
                assert(levels[a].1[b] == levels[a].1[b]);
            }
            if !(a == k && c == n) {
                assert(levels[a].1[c] == levels[a].1[c]);
            }
        }
        assert forall|a: int, b: int| holds(l2, a, b) implies {
            let id2 = (#[trigger] l2[a].1[b]).order_id;
            ix2.contains_key(id2) && ix2[id2] == (LevelIdentifier { price: l2[a].0, side: s })
        } by {
            if !(a == k && b == n) {
                assert(levels[a].1[b] == levels[a].1[b]);
            }
        }
        assert forall|id2: u64| #[trigger] ix2.contains_key(id2) && ix2[id2].side == s implies rests_in(l2, id2) by {
            if id2 == o.order_id {
                assert(l2[k].1[n] == o);
            } else {
                let (a, b) = choose|a: int, b: int| holds(levels, a, b) && #[trigger] levels[a].1[b].order_id == id2;
                assert(l2[a].1[b] == levels[a].1[b]);
            }
        }
    } else {
        let nl: LevelV = (p, seq![o]);
        assert forall|a: int| 0 <= a < l2.len() implies #[trigger] l2[a] == if a < k { levels[a] } else if a == k { nl } else { levels[a - 1] } by {
        }
        assert forall|a: int, b: int| 0 <= a < b < l2.len() implies better(s, #[trigger] l2[a].0, #[trigger] l2[b].0) by {
            if b < k {
            } else if b == k {
            } else if a == k {
                lemma_better_total(s, p, levels[k].0);
                if b - 1 > k {
                    lemma_better_trans(s, p, levels[k].0, levels[b - 1].0);
                }
            } else if a < k {
                if k < levels.len() {
                    lemma_better_total(s, p, levels[k].0);
                    lemma_better_trans(s, levels[a].0, p, levels[k].0);
                    if b - 1 > k {
                        lemma_better_trans(s, levels[a].0, levels[k].0, levels[b - 1].0);
                    }
                }
            } else {
            }
        }
        assert forall|a: int| 0 <= a < l2.len() implies (#[trigger] l2[a]).1.len() > 0 by {
            if a < k {
                assert(levels[a].1.len() > 0);
            } else if a > k {
                assert(levels[a - 1].1.len() > 0);
            }
        }
        assert forall|a: int, b: int| holds(l2, a, b) implies resting_ok(#[trigger] l2[a].1[b], l2[a].0, s) && {
            let id2 = l2[a].1[b].order_id;
            ix2.contains_key(id2) && ix2[id2] == (LevelIdentifier { price: l2[a].0, side: s })
        } by {
            if a < k {
                assert(levels[a].1[b] == levels[a].1[b]);
            } else if a > k {
                assert(levels[a - 1].1[b] == levels[a - 1].1[b]);
            }
        }
        assert forall|a: int, b: int, c: int|
            holds(l2, a, b) && holds(l2, a, c) && #[trigger] l2[a].1[b].order_id == #[trigger] l2[a].1[c].order_id implies b == c by {
            if a < k {
                assert(levels[a].1[b] == levels[a].1[b]);
                assert(levels[a].1[c] == levels[a].1[c]);
            } else if a > k {
                assert(levels[a - 1].1[b] == levels[a - 1].1[b]);
                assert(levels[a - 1].1[c] == levels[a - 1].1[c]);
            }
        }
        assert forall|id2: u64| #[trigger] ix2.contains_key(id2) && ix2[id2].side == s implies rests_in(l2, id2) by {
            if id2 == o.order_id {
                assert(l2[k].1[0] == o);
            } else {
                let (a, b) = choose|a: int, b: int| holds(levels, a, b) && #[trigger] levels[a].1[b].order_id == id2;
                if a < k {
                    assert(l2[a].1[b] == levels[a].1[b]);
                } else {
                    assert(l2[a + 1].1[b] == levels[a].1[b]);
                }
            }
        }
    }
}

/// A level sweep leaves orders behind only once the taker is filled.
pub proof fn lemma_sweep_level_rest(orders: Seq<Order>, price: u64, taker: Order)
    ensures
        sweep_level(orders, price, taker).0.len() > 0 ==> sweep_level(orders, price, taker).1.remaining_quantity == 0,
    decreases orders.len(),
{
    if taker.remaining_quantity == 0 || orders.len() == 0 {
    } else {
        let maker = orders[0];
        let q = min_u64(maker.remaining_quantity, taker.remaining_quantity);
        if q == maker.remaining_quantity {
            lemma_sweep_level_rest(orders.drop_first(), price, taker.filled_by(q));
        }
    }
}


/// Consistency of a side depends on the index entries filed under that side alone.
pub proof fn lemma_same_on_side(a: Map<u64, LevelIdentifier>, b: Map<u64, LevelIdentifier>, levels: Seq<LevelV>, s: Side)
    requires
        consistent(a, levels, s),
        same_on_side(a, b, s),
    ensures
        consistent(b, levels, s),
{
    assert forall|i: int, j: int| holds(levels, i, j) implies {
        let id = (#[trigger] levels[i].1[j]).order_id;
        b.contains_key(id) && b[id] == (LevelIdentifier { price: levels[i].0, side: s })
    } by {
        let id = levels[i].1[j].order_id;
        assert(a.contains_key(id) && a[id].side == s);
    }
    assert forall|id: u64| #[trigger] b.contains_key(id) && b[id].side == s implies rests_in(levels, id) by {
        assert(a.contains_key(id) && a[id].side == s);
    }
}


/// Only the remaining quantity of the taker changes in a level sweep, and it does not grow.
pub proof fn lemma_sweep_level_taker(orders: Seq<Order>, price: u64, taker: Order)
    ensures
        ({
            let t = sweep_level(orders, price, taker).1;
            t == (Order { remaining_quantity: t.remaining_quantity, ..taker })
                && t.remaining_quantity <= taker.remaining_quantity
        }),
    decreases orders.len(),
{
    if taker.remaining_quantity == 0 || orders.len() == 0 {
    } else {
        let q = min_u64(orders[0].remaining_quantity, taker.remaining_quantity);
        if q == orders[0].remaining_quantity {
            lemma_sweep_level_taker(orders.drop_first(), price, taker.filled_by(q));
        }
    }
}

/// Only the remaining quantity of the taker changes in a sweep, and it does not grow.
pub proof fn lemma_sweep_side_taker(levels: Seq<LevelV>, taker: Order)
    ensures
        ({
            let t = sweep_side(levels, taker).1;
            t == (Order { remaining_quantity: t.remaining_quantity, ..taker })
                && t.remaining_quantity <= taker.remaining_quantity
        }),
    decreases levels.len(),
{
    if levels.len() == 0 || taker.remaining_quantity == 0 || !crosses(taker.side, taker.price, levels[0].0) {
    } else {
        let r = sweep_level(levels[0].1, levels[0].0, taker);
        lemma_sweep_level_taker(levels[0].1, levels[0].0, taker);
        if r.0.len() == 0 {
            lemma_sweep_side_taker(levels.drop_first(), r.1);
        }
    }
}


/// `r` is `orders` without its `k` oldest, each with at most its remaining quantity.
pub open spec fn kept_after(r: Seq<Order>, orders: Seq<Order>, k: int) -> bool {
    0 <= k <= orders.len() && r.len() + k == orders.len() && forall|j: int|
        0 <= j < r.len() ==> worn_from(#[trigger] r[j], orders[j + k])
}

/// A level sweep drops some oldest orders and lowers at most the remaining quantity of the
/// order after them.
pub proof fn lemma_sweep_level_makers(orders: Seq<Order>, price: u64, taker: Order)
    requires
        forall|j: int| 0 <= j < orders.len() ==> (#[trigger] orders[j]).remaining_quantity > 0,
    ensures
        ({
            let r = sweep_level(orders, price, taker).0;
            exists|k: int| #[trigger] kept_after(r, orders, k)
        }),
    decreases orders.len(),
{
    let r = sweep_level(orders, price, taker).0;
    if taker.remaining_quantity == 0 || orders.len() == 0 {
        assert(kept_after(r, orders, 0));
    } else {
        let maker = orders[0];
        let q = min_u64(maker.remaining_quantity, taker.remaining_quantity);
        if q == maker.remaining_quantity {
            let rest = orders.drop_first();
            assert forall|j: int| 0 <= j < rest.len() implies (#[trigger] rest[j]).remaining_quantity > 0 by {
                assert(rest[j] == orders[j + 1]);
            }
            lemma_sweep_level_makers(rest, price, taker.filled_by(q));
            let k = choose|k: int| #[trigger] kept_after(r, rest, k);
            assert forall|j: int| 0 <= j < r.len() implies worn_from(#[trigger] r[j], orders[j + (k + 1)]) by {
                assert(rest[j + k] == orders[j + k + 1]);
            }
            assert(kept_after(r, orders, k + 1));
        } else {
            assert(kept_after(r, orders, 0));
        }
    }
}

/// Every order left by a sweep is an order of before, with at most its remaining quantity.
pub proof fn lemma_sweep_side_makers(levels: Seq<LevelV>, taker: Order)
    requires
        forall|i: int, j: int| holds(levels, i, j) ==> (#[trigger] levels[i].1[j]).remaining_quantity > 0,
    ensures
        ({
            let r = sweep_side(levels, taker).0;
            forall|i: int, j: int| #[trigger] holds(r, i, j) ==> exists|a: int, b: int|
                holds(levels, a, b) && worn_from(r[i].1[j], #[trigger] levels[a].1[b])
        }),
    decreases levels.len(),
{
    let r = sweep_side(levels, taker).0;
    if levels.len() == 0 || taker.remaining_quantity == 0 || !crosses(taker.side, taker.price, levels[0].0) {
        assert forall|i: int, j: int| #[trigger] holds(r, i, j) implies exists|a: int, b: int|
            holds(levels, a, b) && worn_from(r[i].1[j], #[trigger] levels[a].1[b]) by {
            assert(worn_from(r[i].1[j], levels[i].1[j]));
        }
    } else {
        let os = levels[0].1;
        let lr = sweep_level(os, levels[0].0, taker);
        if lr.0.len() == 0 {
            let rest = levels.drop_first();
            assert forall|i: int, j: int| holds(rest, i, j) implies (#[trigger] rest[i].1[j]).remaining_quantity > 0 by {
                assert(rest[i] == levels[i + 1]);
                assert(holds(levels, i + 1, j));
            }
            lemma_sweep_side_makers(rest, lr.1);
            assert forall|i: int, j: int| #[trigger] holds(r, i, j) implies exists|a: int, b: int|
                holds(levels, a, b) && worn_from(r[i].1[j], #[trigger] levels[a].1[b]) by {
                assert(r == sweep_side(rest, lr.1).0);
                assert(holds(sweep_side(rest, lr.1).0, i, j));
                let (a, b) = choose|a: int, b: int| holds(rest, a, b) && worn_from(r[i].1[j], #[trigger] rest[a].1[b]);
                assert(rest[a] == levels[a + 1]);
                assert(holds(levels, a + 1, b));
            }
        } else {
            assert forall|j: int| 0 <= j < os.len() implies (#[trigger] os[j]).remaining_quantity > 0 by {
                assert(holds(levels, 0, j));
            }
            lemma_sweep_level_makers(os, levels[0].0, taker);
            let k = choose|k: int| #[trigger] kept_after(lr.0, os, k);
            assert forall|i: int, j: int| #[trigger] holds(r, i, j) implies exists|a: int, b: int|
                holds(levels, a, b) && worn_from(r[i].1[j], #[trigger] levels[a].1[b]) by {
                if i == 0 {
                    assert(worn_from(lr.0[j], os[j + k]));
                    assert(holds(levels, 0, j + k));
                } else {
                    assert(worn_from(r[i].1[j], levels[i].1[j]));
                }
            }
        }
    }
}

/// The orders after `insert_resting` are `o` and the orders of before.
pub proof fn lemma_insert_contents(levels: Seq<LevelV>, o: Order)
    ensures
        ({
            let l2 = insert_resting(levels, o);
            forall|i: int, j: int| #[trigger] holds(l2, i, j) ==> l2[i].1[j] == o || exists|a: int, b: int|
                holds(levels, a, b) && l2[i].1[j] == #[trigger] levels[a].1[b]
        }),
    decreases levels.len(),
{
    let l2 = insert_resting(levels, o);
    if levels.len() == 0 {
    } else if levels[0].0 == o.price {
        assert forall|i: int, j: int| #[trigger] holds(l2, i, j) implies l2[i].1[j] == o || exists|a: int, b: int|
            holds(levels, a, b) && l2[i].1[j] == #[trigger] levels[a].1[b] by {
            if i == 0 && j == levels[0].1.len() {
            } else {
                assert(l2[i].1[j] == levels[i].1[j]);
            }
        }
    } else if better(o.side, o.price, levels[0].0) {
        assert forall|i: int, j: int| #[trigger] holds(l2, i, j) implies l2[i].1[j] == o || exists|a: int, b: int|
            holds(levels, a, b) && l2[i].1[j] == #[trigger] levels[a].1[b] by {
            if i > 0 {
                assert(l2[i].1[j] == levels[i - 1].1[j]);
            }
        }
    } else {
        let rest = levels.drop_first();
        lemma_insert_contents(rest, o);
        assert forall|i: int, j: int| #[trigger] holds(l2, i, j) implies l2[i].1[j] == o || exists|a: int, b: int|
            holds(levels, a, b) && l2[i].1[j] == #[trigger] levels[a].1[b] by {
            if i == 0 {
                assert(l2[0].1[j] == levels[0].1[j]);
            } else {
                let l3 = insert_resting(rest, o);
                assert(l2[i] == l3[i - 1]);
                assert(holds(l3, i - 1, j));
                if l3[i - 1].1[j] != o {
                    let (a, b) = choose|a: int, b: int| holds(rest, a, b) && l3[i - 1].1[j] == #[trigger] rest[a].1[b];
                    assert(rest[a] == levels[a + 1]);
                    assert(holds(levels, a + 1, b));
                }
            }
        }
    }
}

} // verus!
