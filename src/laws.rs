//! Properties of the book that hold across operations.
use vstd::prelude::*;
use crate::book::{add_spec, Orderbook};
use crate::lemmas::{
    lemma_better_irreflexive, lemma_insert_contents, lemma_sweep_side_makers, lemma_sweep_side_taker,
};
use crate::model::{holds, opposite, rests_in, side_ok, sweep_side, worn_from};
use crate::order::{LivreError, MatchInfo, Order, Side};

verus! {

/// Index and levels agree: in a well-formed book, which every operation keeps, an id is in the
/// index exactly when a resting order carries it; that order sits in the level the index names,
/// and no other resting order, on either side, carries the same id.
pub proof fn lemma_index_matches_levels(book: Orderbook, id: u64)
    requires
        book.wf(),
    ensures
        book.index().contains_key(id) <==> (rests_in(book.levels(Side::Bid), id) || rests_in(
            book.levels(Side::Ask),
            id,
        )),
        book.index().contains_key(id) ==> {
            let li = book.index()[id];
            let l = book.levels(li.side);
            &&& !rests_in(book.levels(opposite(li.side)), id)
            &&& exists|i: int, j: int|
                holds(l, i, j) && #[trigger] l[i].1[j].order_id == id && l[i].0 == li.price
        },
        forall|s1: Side, i1: int, j1: int, s2: Side, i2: int, j2: int|
            holds(book.levels(s1), i1, j1) && holds(book.levels(s2), i2, j2)
                && #[trigger] book.levels(s1)[i1].1[j1].order_id == id
                && #[trigger] book.levels(s2)[i2].1[j2].order_id == id ==> s1 == s2 && i1 == i2 && j1
                == j2,
{
    let ix = book.index();
    assert forall|s: Side, i: int, j: int|
        holds(book.levels(s), i, j) && #[trigger] book.levels(s)[i].1[j].order_id == id implies ix.contains_key(id)
            && ix[id].side == s && ix[id].price == book.levels(s)[i].0 by {
        let l = book.levels(s);
        assert(l[i].1[j] == l[i].1[j]);
    }
    if ix.contains_key(id) {
        let li = ix[id];
        assert(rests_in(book.levels(li.side), id));
        let (i, j) = choose|i: int, j: int| holds(book.levels(li.side), i, j) && #[trigger] book.levels(li.side)[i].1[j].order_id == id;
        assert(book.levels(li.side)[i].1[j].order_id == id);
        if rests_in(book.levels(opposite(li.side)), id) {
            let s2 = opposite(li.side);
            let (a, b) = choose|a: int, b: int| holds(book.levels(s2), a, b) && #[trigger] book.levels(s2)[a].1[b].order_id == id;
            assert(book.levels(s2)[a].1[b].order_id == id);
        }
    }
    if rests_in(book.levels(Side::Bid), id) {
        let (a, b) = choose|a: int, b: int| holds(book.levels(Side::Bid), a, b) && #[trigger] book.levels(Side::Bid)[a].1[b].order_id == id;
        assert(book.levels(Side::Bid)[a].1[b].order_id == id);
    }
    if rests_in(book.levels(Side::Ask), id) {
        let (a, b) = choose|a: int, b: int| holds(book.levels(Side::Ask), a, b) && #[trigger] book.levels(Side::Ask)[a].1[b].order_id == id;
        assert(book.levels(Side::Ask)[a].1[b].order_id == id);
    }
    assert forall|s1: Side, i1: int, j1: int, s2: Side, i2: int, j2: int|
        holds(book.levels(s1), i1, j1) && holds(book.levels(s2), i2, j2)
            && #[trigger] book.levels(s1)[i1].1[j1].order_id == id
            && #[trigger] book.levels(s2)[i2].1[j2].order_id == id implies s1 == s2 && i1 == i2 && j1 == j2 by {
        let l = book.levels(s1);
        assert(s1 == s2);
        if i1 < i2 {
            assert(l[i1].0 != l[i2].0) by {
                lemma_better_irreflexive(s1, l[i1].0, l[i2].0);
            }
        } else if i2 < i1 {
            assert(l[i1].0 != l[i2].0) by {
                lemma_better_irreflexive(s1, l[i2].0, l[i1].0);
            }
        }
        assert(i1 == i2);
    }
}


/// Remaining quantity never grows: after `add_order`, each resting order is an order that rested
/// before, or the submitted order, with at most the remaining quantity it had then.
pub proof fn lemma_add_never_raises_remaining(
    pre: Orderbook,
    order: Order,
    post: Orderbook,
    r: Result<MatchInfo, LivreError>,
    s: Side,
    i: int,
    j: int,
)
    requires
        pre.wf(),
        order.wf(),
        add_spec(pre, order, post, r),
        holds(post.levels(s), i, j),
    ensures
        ({
            let o = post.levels(s)[i].1[j];
            worn_from(o, order) || exists|a: int, b: int|
                holds(pre.levels(s), a, b) && worn_from(o, #[trigger] pre.levels(s)[a].1[b])
        }),
{
    let o = post.levels(s)[i].1[j];
    let l = pre.levels(s);
    assert(side_ok(l, s)) by {
        if s == Side::Bid {
        } else {
        }
    }
    assert forall|a: int, b: int| holds(l, a, b) implies (#[trigger] l[a].1[b]).remaining_quantity > 0 by {
    }
    if !pre.admits(order) {
        assert(worn_from(o, l[i].1[j]));
    } else if s == opposite(order.side) {
        lemma_sweep_side_makers(l, order);
    } else {
        assert(s == order.side) by {
            if s == Side::Bid {
            } else {
            }
        }
        let t = sweep_side(pre.levels(opposite(s)), order).1;
        lemma_sweep_side_taker(pre.levels(opposite(s)), order);
        if post.levels(s) != l {
            lemma_insert_contents(l, t);
            if o != t {
                let (a, b) = choose|a: int, b: int| holds(l, a, b) && o == #[trigger] l[a].1[b];
                assert(worn_from(o, l[a].1[b]));
            }
        } else {
            assert(worn_from(o, l[i].1[j]));
        }
    }
}

} // verus!
