use match_engine::kernel::direct::{DirectOrderBook, DirectOrderBookFactory};
use match_engine::kernel::{MatchError, Order, OrderAction, OrderBookFactory, TimeInForce};

fn limit(id: u64, side: OrderAction, price: i64, size: i64, tif: TimeInForce) -> Order {
    Order { order_id: id, price, size, order_action: side, time_in_force: Some(tif) }
}

fn market(id: u64, side: OrderAction, size: i64) -> Order {
    Order { order_id: id, price: 0, size, order_action: side, time_in_force: None }
}

#[test]
fn gtc_ask_rests_on_empty_book() {
    let mut book = DirectOrderBook::new();
    let trades = book.place_order(limit(1, OrderAction::ASK, 100, 10, TimeInForce::GTC)).unwrap();
    assert!(trades.is_empty());
    assert_eq!(book.level_count(OrderAction::ASK), 1);
    assert_eq!(book.level_depth(OrderAction::ASK, 100), Some((10, 1)));
    assert_eq!(book.best_price(OrderAction::ASK), Some(100));
    assert_eq!(book.best_price(OrderAction::BID), None);
}

#[test]
fn gtc_bid_partially_takes_resting_ask() {
    let mut book = DirectOrderBook::new();
    book.place_order(limit(1, OrderAction::ASK, 100, 10, TimeInForce::GTC)).unwrap();
    let trades = book.place_order(limit(2, OrderAction::BID, 100, 4, TimeInForce::GTC)).unwrap();
    assert_eq!(trades.len(), 1);
    assert_eq!(trades[0].price, 100);
    assert_eq!(trades[0].quantity, 4);
    assert_eq!(trades[0].maker_order_id, 1);
    assert_eq!(trades[0].taker_order_id, 2);
    let ask = book.resting_order(1).unwrap();
    assert_eq!(ask.size - ask.filled, 6);
    assert_eq!(book.level_depth(OrderAction::ASK, 100), Some((6, 1)));
    assert!(!book.contains_order(2));
    assert_eq!(book.level_count(OrderAction::BID), 0);
}

#[test]
fn ioc_fills_in_time_priority() {
    let mut book = DirectOrderBook::new();
    book.place_order(limit(1, OrderAction::ASK, 50, 10, TimeInForce::GTC)).unwrap();
    book.place_order(limit(2, OrderAction::ASK, 50, 20, TimeInForce::GTC)).unwrap();
    let trades = book.place_order(limit(3, OrderAction::BID, 50, 25, TimeInForce::IOC)).unwrap();
    assert_eq!(trades.len(), 2);
    assert_eq!((trades[0].maker_order_id, trades[0].quantity), (1, 10));
    assert_eq!((trades[1].maker_order_id, trades[1].quantity), (2, 15));
    assert!(trades[0].maker_sequence < trades[1].maker_sequence);
    assert!(!book.contains_order(1));
    let b = book.resting_order(2).unwrap();
    assert_eq!(b.size - b.filled, 5);
    assert!(!book.contains_order(3));
    assert_eq!(book.level_count(OrderAction::BID), 0);
}

#[test]
fn fok_without_enough_liquidity_is_refused() {
    let mut book = DirectOrderBook::new();
    book.place_order(limit(1, OrderAction::ASK, 50, 10, TimeInForce::GTC)).unwrap();
    let r = book.place_order(limit(2, OrderAction::BID, 50, 15, TimeInForce::FOK));
    assert_eq!(r, Err(MatchError::NoFill));
    assert_eq!(book.level_depth(OrderAction::ASK, 50), Some((10, 1)));
    assert_eq!(book.resting_order(1).unwrap().filled, 0);
    assert!(!book.contains_order(2));
}

#[test]
fn fok_across_two_levels_fills() {
    let mut book = DirectOrderBook::new();
    book.place_order(limit(1, OrderAction::ASK, 50, 10, TimeInForce::GTC)).unwrap();
    book.place_order(limit(2, OrderAction::ASK, 51, 10, TimeInForce::GTC)).unwrap();
    let trades = book.place_order(limit(3, OrderAction::BID, 51, 20, TimeInForce::FOK)).unwrap();
    assert_eq!(trades.len(), 2);
    assert_eq!((trades[0].price, trades[0].quantity), (50, 10));
    assert_eq!((trades[1].price, trades[1].quantity), (51, 10));
    assert_eq!(book.level_count(OrderAction::ASK), 0);
    assert_eq!(book.level_count(OrderAction::BID), 0);
    assert!(!book.contains_order(3));
}

#[test]
fn cancel_twice() {
    let mut book = DirectOrderBook::new();
    book.place_order(limit(1, OrderAction::BID, 10, 5, TimeInForce::GTC)).unwrap();
    let o = book.cancel_order(1).unwrap();
    assert_eq!(o.order_id, 1);
    assert_eq!(book.level_count(OrderAction::BID), 0);
    assert_eq!(book.cancel_order(1), Err(MatchError::OrderNotFound));
}

#[test]
fn cancel_from_middle_of_level_keeps_fifo() {
    let mut book = DirectOrderBook::new();
    book.place_order(limit(1, OrderAction::ASK, 70, 1, TimeInForce::GTC)).unwrap();
    book.place_order(limit(2, OrderAction::ASK, 70, 2, TimeInForce::GTC)).unwrap();
    book.place_order(limit(3, OrderAction::ASK, 70, 3, TimeInForce::GTC)).unwrap();
    book.cancel_order(2).unwrap();
    assert_eq!(book.level_depth(OrderAction::ASK, 70), Some((4, 2)));
    let trades = book.place_order(limit(4, OrderAction::BID, 70, 4, TimeInForce::GTC)).unwrap();
    assert_eq!(trades.len(), 2);
    assert_eq!(trades[0].maker_order_id, 1);
    assert_eq!(trades[1].maker_order_id, 3);
    assert_eq!(book.level_count(OrderAction::ASK), 0);
}

#[test]
fn taker_trades_at_maker_price_best_first() {
    let mut book = DirectOrderBook::new();
    book.place_order(limit(1, OrderAction::BID, 98, 5, TimeInForce::GTC)).unwrap();
    book.place_order(limit(2, OrderAction::BID, 100, 5, TimeInForce::GTC)).unwrap();
    book.place_order(limit(3, OrderAction::BID, 99, 5, TimeInForce::GTC)).unwrap();
    assert_eq!(book.best_price(OrderAction::BID), Some(100));
    let trades = book.place_order(limit(4, OrderAction::ASK, 99, 12, TimeInForce::GTC)).unwrap();
    assert_eq!(trades.len(), 2);
    assert_eq!((trades[0].price, trades[0].quantity), (100, 5));
    assert_eq!((trades[1].price, trades[1].quantity), (99, 5));
    // The remainder of 2 rests at 99, above the best bid of 98: not crossed.
    assert_eq!(book.best_price(OrderAction::ASK), Some(99));
    assert_eq!(book.best_price(OrderAction::BID), Some(98));
    assert_eq!(book.level_depth(OrderAction::ASK, 99), Some((2, 1)));
}

#[test]
fn book_never_rests_crossed() {
    let mut book = DirectOrderBook::new();
    book.place_order(limit(1, OrderAction::ASK, 105, 3, TimeInForce::GTC)).unwrap();
    book.place_order(limit(2, OrderAction::BID, 110, 5, TimeInForce::GTC)).unwrap();
    let bid = book.best_price(OrderAction::BID).unwrap();
    assert_eq!(bid, 110);
    assert_eq!(book.best_price(OrderAction::ASK), None);
    book.place_order(limit(3, OrderAction::ASK, 111, 5, TimeInForce::GTC)).unwrap();
    assert!(book.best_price(OrderAction::BID).unwrap() < book.best_price(OrderAction::ASK).unwrap());
}

#[test]
fn conservation_of_filled_quantities() {
    let mut book = DirectOrderBook::new();
    book.place_order(limit(1, OrderAction::ASK, 10, 7, TimeInForce::GTC)).unwrap();
    book.place_order(limit(2, OrderAction::ASK, 11, 7, TimeInForce::GTC)).unwrap();
    let trades = book.place_order(limit(3, OrderAction::BID, 11, 9, TimeInForce::GTC)).unwrap();
    let total: i64 = trades.iter().map(|t| t.quantity).sum();
    assert_eq!(total, 9);
    let maker = book.resting_order(2).unwrap();
    assert_eq!(maker.filled, 2);
    assert_eq!(book.level_depth(OrderAction::ASK, 11), Some((5, 1)));
}

#[test]
fn ioc_remainder_is_discarded() {
    let mut book = DirectOrderBook::new();
    book.place_order(limit(1, OrderAction::ASK, 20, 3, TimeInForce::GTC)).unwrap();
    let trades = book.place_order(limit(2, OrderAction::BID, 25, 8, TimeInForce::IOC)).unwrap();
    assert_eq!(trades.len(), 1);
    assert_eq!(trades[0].quantity, 3);
    assert!(!book.contains_order(2));
    assert_eq!(book.level_count(OrderAction::BID), 0);
}

#[test]
fn market_order_sweeps_and_never_rests() {
    let mut book = DirectOrderBook::new();
    book.place_order(limit(1, OrderAction::BID, 5, 2, TimeInForce::GTC)).unwrap();
    book.place_order(limit(2, OrderAction::BID, 1, 2, TimeInForce::GTC)).unwrap();
    let trades = book.place_order(market(3, OrderAction::ASK, 10)).unwrap();
    assert_eq!(trades.len(), 2);
    assert_eq!(trades[0].price, 5);
    assert_eq!(trades[1].price, 1);
    assert!(!book.contains_order(3));
    assert_eq!(book.level_count(OrderAction::BID), 0);
    assert_eq!(book.level_count(OrderAction::ASK), 0);
}

#[test]
fn invalid_orders_are_refused() {
    let mut book = DirectOrderBook::new();
    assert_eq!(
        book.place_order(limit(1, OrderAction::BID, 10, 0, TimeInForce::GTC)),
        Err(MatchError::InvalidQuantity)
    );
    assert_eq!(
        book.place_order(limit(1, OrderAction::BID, 10, -3, TimeInForce::GTC)),
        Err(MatchError::InvalidQuantity)
    );
    assert_eq!(
        book.place_order(limit(1, OrderAction::BID, -1, 3, TimeInForce::GTC)),
        Err(MatchError::InvalidPrice)
    );
    book.place_order(limit(1, OrderAction::BID, 10, 3, TimeInForce::GTC)).unwrap();
    assert_eq!(
        book.place_order(limit(1, OrderAction::ASK, 20, 3, TimeInForce::GTC)),
        Err(MatchError::DuplicateOrderId)
    );
    assert_eq!(book.level_count(OrderAction::ASK), 0);
}

#[test]
fn filled_order_id_can_be_used_again() {
    let mut book = DirectOrderBook::new();
    book.place_order(limit(1, OrderAction::ASK, 10, 3, TimeInForce::GTC)).unwrap();
    book.place_order(limit(2, OrderAction::BID, 10, 3, TimeInForce::GTC)).unwrap();
    assert!(!book.contains_order(1));
    assert!(book.place_order(limit(1, OrderAction::ASK, 12, 1, TimeInForce::GTC)).is_ok());
}

#[test]
fn factory_creates_empty_books() {
    let factory = DirectOrderBookFactory::new();
    let book = factory.create();
    assert_eq!(book.level_count(OrderAction::BID), 0);
    assert_eq!(book.level_count(OrderAction::ASK), 0);
}

#[test]
fn largest_quantities_add_up_in_a_level() {
    let mut book = DirectOrderBook::new();
    book.place_order(limit(1, OrderAction::ASK, 1, i64::MAX, TimeInForce::GTC)).unwrap();
    book.place_order(limit(2, OrderAction::ASK, 1, i64::MAX, TimeInForce::GTC)).unwrap();
    assert_eq!(book.level_depth(OrderAction::ASK, 1), Some((2 * (i64::MAX as u128), 2)));
    let r = book.place_order(limit(3, OrderAction::BID, 1, i64::MAX, TimeInForce::FOK)).unwrap();
    assert_eq!(r.len(), 1);
    assert_eq!(book.level_depth(OrderAction::ASK, 1), Some((i64::MAX as u128, 1)));
}
