//! Orders, price levels and the spec model shared by the matching engine.
use vstd::prelude::*;

pub mod level;
pub mod ladder;
pub mod direct;

verus! {

/// Time in force of a limit order.
#[derive(PartialEq, Eq, Structural, Clone, Copy, Debug)]
pub enum TimeInForce {
    /// Good till canceled: the remainder rests on the book.
    GTC,
    /// Immediate or cancel: the remainder is discarded.
    IOC,
    /// Fill or kill: the whole quantity fills at once, or nothing happens.
    FOK,
}

/// Side of an order.
#[derive(PartialEq, Eq, Structural, Clone, Copy, Debug)]
pub enum OrderAction {
    BID,
    ASK,
}

/// An order as submitted to a book.
///
/// `time_in_force == None` marks a market order: it crosses at any price and
/// its remainder never rests.
#[derive(Clone, Copy, Debug)]
pub struct Order {
    pub order_id: u64,
    pub price: i64,
    pub size: i64,
    pub order_action: OrderAction,
    pub time_in_force: Option<TimeInForce>,
}

/// An order resting in a price level.
#[derive(PartialEq, Eq, Structural, Clone, Copy, Debug)]
pub struct RestingOrder {
    pub order_id: u64,
    pub price: i64,
    pub size: i64,
    pub filled: i64,
    pub sequence: u64,
}

/// One execution between a resting maker and an incoming taker, at the
/// maker's price.
#[derive(PartialEq, Eq, Structural, Clone, Copy, Debug)]
pub struct Trade {
    pub maker_order_id: u64,
    pub taker_order_id: u64,
    pub price: i64,
    pub quantity: i64,
    pub maker_sequence: u64,
    pub taker_sequence: u64,
}

/// Outcome of a rejected request.
#[derive(PartialEq, Eq, Structural, Clone, Copy, Debug)]
pub enum MatchError {
    InvalidQuantity,
    InvalidPrice,
    DuplicateOrderId,
    OrderNotFound,
    NoFill,
    UnknownMarket,
    /// The book has numbered as many orders as its sequence counter holds.
    SequenceExhausted,
}

/// The other side of the book.
pub open spec fn opposite(side: OrderAction) -> OrderAction {
    match side {
        OrderAction::BID => OrderAction::ASK,
        OrderAction::ASK => OrderAction::BID,
    }
}

/// Price `a` has priority over price `b` on a ladder of `side`: asks ascend,
/// bids descend.
pub open spec fn better(side: OrderAction, a: int, b: int) -> bool {
    match side {
        OrderAction::ASK => a < b,
        OrderAction::BID => a > b,
    }
}

/// A resting price `p` is marketable against a taker of `side` with limit
/// `limit` (`None`: a market order).
pub open spec fn crosses(side: OrderAction, limit: Option<i64>, p: int) -> bool {
    match limit {
        None => true,
        Some(l) => match side {
            OrderAction::BID => p <= l,
            OrderAction::ASK => p >= l,
        },
    }
}

/// Quantity of a resting order still open.
pub open spec fn remaining(o: RestingOrder) -> int {
    o.size - o.filled
}

pub open spec fn order_wf(o: RestingOrder) -> bool {
    0 <= o.filled < o.size
}

/// Sum of the open quantities of a queue.
pub open spec fn volume(s: Seq<RestingOrder>) -> int
    decreases s.len(),
{
    if s.len() == 0 {
        0
    } else {
        remaining(s[0]) + volume(s.drop_first())
    }
}

/// Sum of the quantities of a list of trades.
pub open spec fn traded(t: Seq<Trade>) -> int
    decreases t.len(),
{
    if t.len() == 0 {
        0
    } else {
        traded(t.drop_last()) + t.last().quantity
    }
}

/// The head of `a` comes before the head of `b` under price-time priority on
/// a ladder of `side`.
pub open spec fn trade_precedes(side: OrderAction, a: Trade, b: Trade) -> bool {
    better(side, a.price as int, b.price as int) || (a.price == b.price && a.maker_sequence
        < b.maker_sequence)
}

/// Consecutive trades of one call follow price-time priority of the ladder
/// they were taken from.
pub open spec fn trades_in_priority(side: OrderAction, t: Seq<Trade>) -> bool {
    forall|i: int| 0 <= i < t.len() - 1 ==> #[trigger] trade_precedes(side, t[i], t[i + 1])
}

/// A book that accepts orders for one instrument.
pub trait OrderBook: Sized {
    /// The book's invariant.
    spec fn book_wf(&self) -> bool;

    /// The book holds no order and has numbered none.
    spec fn book_empty(&self) -> bool;

    fn place_order(&mut self, order: Order) -> (r: Result<Vec<Trade>, MatchError>)
        requires
            old(self).book_wf(),
        ensures
            final(self).book_wf(),
    ;

    fn cancel_order(&mut self, order_id: u64) -> (r: Result<RestingOrder, MatchError>)
        requires
            old(self).book_wf(),
        ensures
            final(self).book_wf(),
    ;
}

/// Makes order books.
pub trait OrderBookFactory {
    type Book: OrderBook;

    fn create(&self) -> (r: Self::Book)
        ensures
            r.book_wf(),
            r.book_empty(),
    ;
}

} // verus!
