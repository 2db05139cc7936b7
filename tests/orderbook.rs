use livre::{LivreError, ModifyOrder, Order, OrderState, OrderType, Orderbook, Side, Trade};

fn gtc(id: u64, side: Side, price: u64, qty: u64) -> Order {
    Order::new(OrderType::GoodTillCancel, id, side, price, qty)
}

fn trade(taker: u64, maker: u64, price: u64, quantity: u64) -> Trade {
    Trade::new(taker, maker, price, quantity)
}

#[test]
fn add_then_cancel_returns_the_same_order() {
    let mut book = Orderbook::new();
    book.add_order(gtc(1, Side::Ask, 120, 4)).unwrap();
    book.add_order(gtc(7, Side::Bid, 100, 10)).unwrap();
    let info = book.add_order(gtc(2, Side::Bid, 110, 6)).unwrap();
    assert!(info.trade_log.is_empty());
    assert_eq!(info.order_state, OrderState::Unfilled);
    assert_eq!(book.order_count(), 3);
    let o = book.cancel_order(2).unwrap();
    assert_eq!(o.order_id, 2);
    assert_eq!(o.side, Side::Bid);
    assert_eq!(o.price, 110);
    assert_eq!(o.initial_quantity, 6);
    assert_eq!(o.remaining_quantity, o.initial_quantity);
    assert_eq!(o.order_type, OrderType::GoodTillCancel);
    assert_eq!(book.order_count(), 2);
}

#[test]
fn cancel_twice_fails_the_second_time() {
    let mut book = Orderbook::new();
    book.add_order(gtc(4, Side::Bid, 90, 2)).unwrap();
    assert!(book.cancel_order(4).is_ok());
    assert_eq!(book.cancel_order(4).unwrap_err(), LivreError::OrderNotFound);
    assert_eq!(book.order_count(), 0);
}

#[test]
fn price_time_priority_within_a_level() {
    let mut book = Orderbook::new();
    book.add_order(gtc(1, Side::Ask, 100, 5)).unwrap();
    book.add_order(gtc(2, Side::Ask, 100, 5)).unwrap();
    let info = book.add_order(gtc(3, Side::Bid, 100, 7)).unwrap();
    assert_eq!(info.trade_log, vec![trade(3, 1, 100, 5), trade(3, 2, 100, 2)]);
    assert_eq!(info.order_state, OrderState::Filled);
    assert_eq!(book.order_count(), 1);
    assert_eq!(book.cancel_order(1).unwrap_err(), LivreError::OrderNotFound);
    assert_eq!(book.cancel_order(3).unwrap_err(), LivreError::OrderNotFound);
    let rest = book.cancel_order(2).unwrap();
    assert_eq!(rest.remaining_quantity, 3);
    assert_eq!(rest.initial_quantity, 5);
}

#[test]
fn fill_or_kill_without_enough_liquidity_is_refused() {
    let mut book = Orderbook::new();
    book.add_order(gtc(1, Side::Ask, 99, 3)).unwrap();
    book.add_order(gtc(2, Side::Ask, 100, 5)).unwrap();
    book.add_order(gtc(3, Side::Ask, 101, 50)).unwrap();
    let r = book.add_order(Order::new(OrderType::FillOrKill, 9, Side::Bid, 100, 10));
    assert_eq!(r.unwrap_err(), LivreError::UnfillableOrder);
    assert_eq!(book.order_count(), 3);
    assert!(book.can_fully_fill(100, 8, Side::Bid));
    assert!(!book.can_fully_fill(100, 9, Side::Bid));
    assert_eq!(book.cancel_order(1).unwrap().remaining_quantity, 3);
    assert_eq!(book.cancel_order(2).unwrap().remaining_quantity, 5);
}

#[test]
fn fill_or_kill_with_enough_liquidity_fills_across_levels() {
    let mut book = Orderbook::new();
    book.add_order(gtc(1, Side::Ask, 99, 3)).unwrap();
    book.add_order(gtc(2, Side::Ask, 100, 5)).unwrap();
    let info = book.add_order(Order::new(OrderType::FillOrKill, 9, Side::Bid, 100, 8)).unwrap();
    assert_eq!(info.trade_log, vec![trade(9, 1, 99, 3), trade(9, 2, 100, 5)]);
    assert_eq!(info.order_state, OrderState::Filled);
    assert_eq!(book.order_count(), 0);
    assert!(!book.can_match(Side::Bid, 1000));
}

#[test]
fn fill_and_kill_discards_its_remainder() {
    let mut book = Orderbook::new();
    book.add_order(gtc(5, Side::Ask, 100, 3)).unwrap();
    let before = book.order_count();
    let info = book.add_order(Order::new(OrderType::FillAndKill, 6, Side::Bid, 100, 10)).unwrap();
    assert_eq!(info.trade_log, vec![trade(6, 5, 100, 3)]);
    assert_eq!(info.order_state, OrderState::PartialFill(3));
    assert_eq!(book.order_count(), before - 1);
    assert_eq!(book.cancel_order(6).unwrap_err(), LivreError::OrderNotFound);
    assert!(!book.can_match(Side::Bid, 100));
}

#[test]
fn fill_and_kill_without_crossing_is_refused() {
    let mut book = Orderbook::new();
    book.add_order(gtc(5, Side::Ask, 101, 3)).unwrap();
    let r = book.add_order(Order::new(OrderType::FillAndKill, 6, Side::Bid, 100, 10));
    assert_eq!(r.unwrap_err(), LivreError::UnfillableOrder);
    assert_eq!(book.order_count(), 1);
}

#[test]
fn can_fully_fill_counts_qualifying_levels_only() {
    let mut book = Orderbook::new();
    assert!(!book.can_fully_fill(100, 0, Side::Bid));
    book.add_order(gtc(1, Side::Bid, 100, 4)).unwrap();
    book.add_order(gtc(2, Side::Bid, 98, 6)).unwrap();
    book.add_order(gtc(3, Side::Bid, 98, 1)).unwrap();
    book.add_order(gtc(4, Side::Bid, 95, 100)).unwrap();
    assert!(book.can_fully_fill(98, 11, Side::Ask));
    assert!(!book.can_fully_fill(98, 12, Side::Ask));
    assert!(book.can_fully_fill(98, 0, Side::Ask));
    assert!(book.can_fully_fill(95, 111, Side::Ask));
    assert!(!book.can_fully_fill(101, 0, Side::Ask));
    assert!(!book.can_fully_fill(101, 1, Side::Bid));
}

#[test]
fn can_match_looks_at_the_best_opposite_price() {
    let mut book = Orderbook::new();
    assert!(!book.can_match(Side::Ask, 0));
    book.add_order(gtc(1, Side::Bid, 100, 1)).unwrap();
    book.add_order(gtc(2, Side::Bid, 102, 1)).unwrap();
    assert!(book.can_match(Side::Ask, 102));
    assert!(!book.can_match(Side::Ask, 103));
    assert!(!book.can_match(Side::Bid, 1000));
}

#[test]
fn incoming_ask_sweeps_bids_from_the_highest() {
    let mut book = Orderbook::new();
    book.add_order(gtc(1, Side::Bid, 100, 2)).unwrap();
    book.add_order(gtc(2, Side::Bid, 103, 2)).unwrap();
    book.add_order(gtc(3, Side::Bid, 101, 2)).unwrap();
    book.add_order(gtc(4, Side::Bid, 99, 2)).unwrap();
    let info = book.add_order(gtc(10, Side::Ask, 100, 7)).unwrap();
    assert_eq!(
        info.trade_log,
        vec![trade(10, 2, 103, 2), trade(10, 3, 101, 2), trade(10, 1, 100, 2)]
    );
    assert_eq!(info.order_state, OrderState::PartialFill(6));
    assert_eq!(book.order_count(), 2);
    let rested = book.cancel_order(10).unwrap();
    assert_eq!(rested.remaining_quantity, 1);
    assert_eq!(rested.price, 100);
    assert!(book.can_match(Side::Ask, 99));
    assert!(!book.can_match(Side::Ask, 100));
}

#[test]
fn resting_bid_keeps_its_partial_fill() {
    let mut book = Orderbook::new();
    book.add_order(gtc(1, Side::Ask, 50, 3)).unwrap();
    let info = book.add_order(gtc(2, Side::Bid, 60, 5)).unwrap();
    assert_eq!(info.trade_log, vec![trade(2, 1, 50, 3)]);
    assert_eq!(info.order_state, OrderState::PartialFill(3));
    assert!(book.can_match(Side::Ask, 60));
    let info = book.add_order(gtc(3, Side::Ask, 55, 1)).unwrap();
    assert_eq!(info.trade_log, vec![trade(3, 2, 60, 1)]);
    let o = book.cancel_order(2).unwrap();
    assert_eq!(o.remaining_quantity, 1);
}

#[test]
fn market_order_rests_its_remainder() {
    let mut book = Orderbook::new();
    let info = book.add_order(Order::new(OrderType::Market, 1, Side::Bid, 150, 10)).unwrap();
    assert_eq!(info.order_state, OrderState::Unfilled);
    let info = book.add_order(Order::new(OrderType::Market, 2, Side::Ask, 150, 5)).unwrap();
    assert_eq!(info.trade_log, vec![trade(2, 1, 150, 5)]);
    assert_eq!(info.order_state, OrderState::Filled);
    assert_eq!(book.order_count(), 1);
    assert_eq!(book.cancel_order(1).unwrap().remaining_quantity, 5);
}

#[test]
fn good_for_day_rests() {
    let mut book = Orderbook::new();
    book.add_order(Order::new(OrderType::GoodForDay, 1, Side::Ask, 10, 1)).unwrap();
    assert_eq!(book.order_count(), 1);
}

#[test]
fn duplicate_id_is_refused_for_resting_types() {
    let mut book = Orderbook::new();
    book.add_order(gtc(1, Side::Bid, 100, 2)).unwrap();
    let r = book.add_order(gtc(1, Side::Bid, 90, 2));
    assert_eq!(r.unwrap_err(), LivreError::DuplicateOrderId);
    let r = book.add_order(Order::new(OrderType::Market, 1, Side::Ask, 200, 2));
    assert_eq!(r.unwrap_err(), LivreError::DuplicateOrderId);
    assert_eq!(book.order_count(), 1);
}

#[test]
fn fill_and_kill_skips_the_duplicate_check() {
    let mut book = Orderbook::new();
    book.add_order(gtc(1, Side::Bid, 100, 2)).unwrap();
    book.add_order(gtc(2, Side::Ask, 105, 2)).unwrap();
    let info = book.add_order(Order::new(OrderType::FillAndKill, 1, Side::Ask, 100, 1)).unwrap();
    assert_eq!(info.trade_log, vec![trade(1, 1, 100, 1)]);
    assert_eq!(book.order_count(), 2);
}

#[test]
fn cancel_prunes_an_emptied_level() {
    let mut book = Orderbook::new();
    book.add_order(gtc(1, Side::Ask, 100, 2)).unwrap();
    book.add_order(gtc(2, Side::Ask, 105, 2)).unwrap();
    book.cancel_order(1).unwrap();
    assert!(!book.can_match(Side::Bid, 104));
    assert!(book.can_match(Side::Bid, 105));
    let info = book.add_order(gtc(3, Side::Bid, 104, 1)).unwrap();
    assert!(info.trade_log.is_empty());
}

#[test]
fn modify_unknown_order_fails() {
    let mut book = Orderbook::new();
    let r = book.modify_order(ModifyOrder { order_id: 8, side: Side::Bid, price: 1, quantity: 1 });
    assert_eq!(r.unwrap_err(), LivreError::OrderNotFound);
}

#[test]
fn modify_moves_the_order_and_keeps_its_type() {
    let mut book = Orderbook::new();
    book.add_order(Order::new(OrderType::GoodForDay, 1, Side::Bid, 90, 4)).unwrap();
    book.add_order(gtc(2, Side::Ask, 100, 3)).unwrap();
    let info = book
        .modify_order(ModifyOrder { order_id: 1, side: Side::Bid, price: 100, quantity: 5 })
        .unwrap();
    assert_eq!(info.trade_log, vec![trade(1, 2, 100, 3)]);
    assert_eq!(info.order_state, OrderState::PartialFill(3));
    let o = book.cancel_order(1).unwrap();
    assert_eq!(o.order_type, OrderType::GoodForDay);
    assert_eq!(o.price, 100);
    assert_eq!(o.initial_quantity, 5);
    assert_eq!(o.remaining_quantity, 2);
    assert_eq!(book.order_count(), 0);
}

#[test]
fn order_state_follows_the_quantities() {
    let mut o = gtc(1, Side::Bid, 10, 5);
    assert_eq!(o.order_state(), OrderState::Unfilled);
    assert!(!o.is_filled());
    assert_eq!(o.fill(2), Ok(()));
    assert_eq!(o.order_state(), OrderState::PartialFill(2));
    assert_eq!(o.fill(4), Err(LivreError::QuantityTooBig));
    assert_eq!(o.remaining_quantity, 3);
    assert_eq!(o.fill(3), Ok(()));
    assert_eq!(o.order_state(), OrderState::Filled);
    assert!(o.is_filled());
    let zero = gtc(2, Side::Ask, 10, 0);
    assert_eq!(zero.order_state(), OrderState::Unfilled);
    assert!(zero.is_filled());
}

#[test]
fn modify_request_builds_a_fresh_order() {
    let m = ModifyOrder { order_id: 3, side: Side::Ask, price: 7, quantity: 9 };
    let o = m.to_order(OrderType::FillOrKill);
    assert_eq!(o, Order::new(OrderType::FillOrKill, 3, Side::Ask, 7, 9));
}

#[test]
fn errors_describe_themselves() {
    assert_eq!(LivreError::UnfillableOrder.message(), "Could not fill order");
    assert_eq!(LivreError::DuplicateOrderId.message(), "Order id already in use");
    assert_eq!(LivreError::QuantityTooBig.message(), "Fill quantity exceeds order lot size");
    assert_eq!(LivreError::OrderNotFound.message(), "Could not find order matching id");
}

#[test]
fn zero_quantity_order_rests_as_unfilled() {
    let mut book = Orderbook::new();
    let info = book.add_order(gtc(1, Side::Bid, 10, 0)).unwrap();
    assert_eq!(info.order_state, OrderState::Unfilled);
    assert_eq!(book.order_count(), 0);
}

#[test]
fn index_and_levels_stay_in_step() {
    let mut book = Orderbook::new();
    book.add_order(gtc(1, Side::Bid, 100, 3)).unwrap();
    book.add_order(gtc(2, Side::Bid, 101, 3)).unwrap();
    book.add_order(gtc(3, Side::Ask, 105, 3)).unwrap();
    book.add_order(gtc(4, Side::Ask, 104, 3)).unwrap();
    book.add_order(gtc(5, Side::Ask, 101, 4)).unwrap();
    book.add_order(Order::new(OrderType::FillAndKill, 6, Side::Bid, 104, 2)).unwrap();
    book.modify_order(ModifyOrder { order_id: 1, side: Side::Ask, price: 110, quantity: 1 }).unwrap();
    assert_eq!(book.order_count(), 3);
    assert_eq!(book.cancel_order(4).unwrap().remaining_quantity, 2);
    for id in [1u64, 3] {
        assert_eq!(book.cancel_order(id).unwrap().order_id, id);
    }
    for id in [2u64, 4, 5, 6] {
        assert_eq!(book.cancel_order(id).unwrap_err(), LivreError::OrderNotFound);
    }
    assert_eq!(book.order_count(), 0);
    assert!(!book.can_match(Side::Bid, u64::MAX));
    assert!(!book.can_match(Side::Ask, 0));
}
