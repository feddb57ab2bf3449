use high_performance_trading_engine::order_book::{
    Order, OrderBook, OrderError, OrderSide, OrderType, Trade, TradeRecorder,
};

fn order(side: OrderSide, order_type: OrderType, price: u64, quantity: u64) -> Order {
    Order {
        id: 0,
        side,
        order_type,
        price,
        quantity,
        timestamp: 0,
        trader_id: "trader".to_string(),
    }
}

fn limit(side: OrderSide, price: u64, quantity: u64) -> Order {
    order(side, OrderType::Limit { price }, price, quantity)
}

fn market(side: OrderSide, quantity: u64) -> Order {
    order(side, OrderType::Market, 0, quantity)
}

fn recorded_book() -> OrderBook {
    let mut book = OrderBook::new();
    book.set_trade_recorder(TradeRecorder::new());
    book
}

fn trades(book: &OrderBook) -> Vec<Trade> {
    book.trade_recorder().unwrap().trades().to_vec()
}

fn trade(taker: u64, maker: u64, quantity: u64, price: u64) -> Trade {
    Trade { taker_order_id: taker, maker_order_id: maker, quantity, price }
}

#[test]
fn scenario_market_buy_sweeps_one_level() {
    let mut book = recorded_book();
    book.place_order(limit(OrderSide::Sell, 100, 50)).unwrap();
    book.place_order(limit(OrderSide::Sell, 100, 30)).unwrap();
    book.place_order(market(OrderSide::Buy, 70)).unwrap();
    assert_eq!(trades(&book), vec![trade(3, 1, 50, 100), trade(3, 2, 20, 100)]);
    assert_eq!(book.resting_quantities(OrderSide::Sell, 100), vec![10]);
    assert_eq!(book.best_price(OrderSide::Buy), None);
    assert_eq!(book.best_price(OrderSide::Sell), Some(100));
}

#[test]
fn scenario_limit_buy_below_ask_rests() {
    let mut book = recorded_book();
    book.place_order(limit(OrderSide::Sell, 100, 50)).unwrap();
    book.place_order(limit(OrderSide::Buy, 90, 70)).unwrap();
    assert!(trades(&book).is_empty());
    assert_eq!(book.resting_quantities(OrderSide::Buy, 90), vec![70]);
    assert_eq!(book.best_price(OrderSide::Buy), Some(90));
    assert_eq!(book.resting_quantities(OrderSide::Sell, 100), vec![50]);
}

#[test]
fn scenario_limit_buy_crosses_at_maker_price() {
    let mut book = recorded_book();
    book.place_order(limit(OrderSide::Sell, 100, 50)).unwrap();
    book.place_order(limit(OrderSide::Buy, 110, 70)).unwrap();
    assert_eq!(trades(&book), vec![trade(2, 1, 50, 100)]);
    assert_eq!(book.resting_quantities(OrderSide::Buy, 110), vec![20]);
    assert_eq!(book.best_price(OrderSide::Sell), None);
}

#[test]
fn scenario_market_order_on_empty_book_is_dropped() {
    let mut book = recorded_book();
    assert_eq!(book.place_order(market(OrderSide::Buy, 50)), Ok(()));
    assert!(trades(&book).is_empty());
    assert_eq!(book.best_price(OrderSide::Buy), None);
    assert_eq!(book.best_price(OrderSide::Sell), None);
}

#[test]
fn zero_quantity_leaves_book_unchanged() {
    let mut book = recorded_book();
    book.place_order(limit(OrderSide::Sell, 100, 50)).unwrap();
    assert_eq!(book.place_order(limit(OrderSide::Buy, 100, 0)), Err(OrderError::InvalidQuantity));
    assert!(trades(&book).is_empty());
    assert_eq!(book.resting_quantities(OrderSide::Sell, 100), vec![50]);
    // The refused order took no id.
    book.place_order(market(OrderSide::Buy, 5)).unwrap();
    assert_eq!(trades(&book), vec![trade(2, 1, 5, 100)]);
}

#[test]
fn zero_limit_price_is_refused() {
    let mut book = OrderBook::new();
    assert_eq!(book.place_order(limit(OrderSide::Sell, 0, 10)), Err(OrderError::InvalidPrice));
    assert_eq!(book.best_price(OrderSide::Sell), None);
    assert_eq!(OrderError::InvalidPrice.message(), "Cannot place limit order at price zero");
}

#[test]
fn error_messages() {
    assert_eq!(OrderError::InvalidQuantity.message(), "Cannot place order with zero quantity");
    assert_eq!(OrderError::IdSpaceExhausted.message(), "No order id is left to assign");
}

#[test]
fn buy_takes_lowest_ask_first() {
    let mut book = recorded_book();
    book.place_order(limit(OrderSide::Sell, 105, 10)).unwrap();
    book.place_order(limit(OrderSide::Sell, 101, 10)).unwrap();
    book.place_order(limit(OrderSide::Sell, 103, 10)).unwrap();
    book.place_order(limit(OrderSide::Buy, 104, 25)).unwrap();
    assert_eq!(trades(&book), vec![trade(4, 2, 10, 101), trade(4, 3, 10, 103)]);
    assert_eq!(book.resting_quantities(OrderSide::Buy, 104), vec![5]);
    assert_eq!(book.best_price(OrderSide::Sell), Some(105));
}

#[test]
fn sell_takes_highest_bid_first() {
    let mut book = recorded_book();
    book.place_order(limit(OrderSide::Buy, 95, 10)).unwrap();
    book.place_order(limit(OrderSide::Buy, 99, 10)).unwrap();
    book.place_order(limit(OrderSide::Buy, 97, 10)).unwrap();
    book.place_order(market(OrderSide::Sell, 15)).unwrap();
    assert_eq!(trades(&book), vec![trade(4, 2, 10, 99), trade(4, 3, 5, 97)]);
    assert_eq!(book.resting_quantities(OrderSide::Buy, 97), vec![5]);
    assert_eq!(book.best_price(OrderSide::Buy), Some(97));
}

#[test]
fn sell_limit_stops_at_its_price() {
    let mut book = recorded_book();
    book.place_order(limit(OrderSide::Buy, 99, 10)).unwrap();
    book.place_order(limit(OrderSide::Buy, 95, 10)).unwrap();
    book.place_order(limit(OrderSide::Sell, 97, 30)).unwrap();
    assert_eq!(trades(&book), vec![trade(3, 1, 10, 99)]);
    assert_eq!(book.resting_quantities(OrderSide::Sell, 97), vec![20]);
    assert_eq!(book.best_price(OrderSide::Buy), Some(95));
}

#[test]
fn same_price_fills_oldest_first() {
    let mut book = recorded_book();
    book.place_order(limit(OrderSide::Buy, 50, 5)).unwrap();
    book.place_order(limit(OrderSide::Buy, 50, 7)).unwrap();
    book.place_order(limit(OrderSide::Buy, 50, 9)).unwrap();
    assert_eq!(book.resting_quantities(OrderSide::Buy, 50), vec![5, 7, 9]);
    book.place_order(limit(OrderSide::Sell, 50, 8)).unwrap();
    assert_eq!(trades(&book), vec![trade(4, 1, 5, 50), trade(4, 2, 3, 50)]);
    assert_eq!(book.resting_quantities(OrderSide::Buy, 50), vec![4, 9]);
}

#[test]
fn traded_plus_left_equals_quantity() {
    let mut book = recorded_book();
    book.place_order(limit(OrderSide::Sell, 10, 4)).unwrap();
    book.place_order(limit(OrderSide::Sell, 11, 6)).unwrap();
    book.place_order(limit(OrderSide::Buy, 11, 25)).unwrap();
    let traded: u64 = trades(&book).iter().map(|t| t.quantity).sum();
    let left: u64 = book.resting_quantities(OrderSide::Buy, 11).iter().sum();
    assert_eq!(traded, 10);
    assert_eq!(traded + left, 25);
    assert_eq!(book.best_price(OrderSide::Sell), None);
}

#[test]
fn drained_level_is_removed() {
    let mut book = OrderBook::new();
    book.place_order(limit(OrderSide::Sell, 100, 5)).unwrap();
    book.place_order(limit(OrderSide::Sell, 102, 5)).unwrap();
    book.place_order(market(OrderSide::Buy, 5)).unwrap();
    assert!(book.resting_quantities(OrderSide::Sell, 100).is_empty());
    assert_eq!(book.best_price(OrderSide::Sell), Some(102));
}

#[test]
fn matching_without_recorder_is_the_same() {
    let mut book = OrderBook::new();
    book.place_order(limit(OrderSide::Sell, 100, 50)).unwrap();
    book.place_order(limit(OrderSide::Buy, 110, 70)).unwrap();
    assert!(book.trade_recorder().is_none());
    assert_eq!(book.resting_quantities(OrderSide::Buy, 110), vec![20]);
    assert_eq!(book.best_price(OrderSide::Sell), None);
}

#[test]
fn limit_order_rests_at_its_limit_price() {
    let mut book = OrderBook::new();
    book.place_order(order(OrderSide::Buy, OrderType::Limit { price: 80 }, 75, 3)).unwrap();
    assert_eq!(book.resting_quantities(OrderSide::Buy, 80), vec![3]);
    assert!(book.resting_quantities(OrderSide::Buy, 75).is_empty());
}

#[test]
fn recorder_keeps_trades_in_order() {
    let mut recorder = TradeRecorder::new();
    recorder.record(2, 1, 5, 100);
    recorder.record(3, 1, 7, 101);
    assert_eq!(recorder.trades(), &[trade(2, 1, 5, 100), trade(3, 1, 7, 101)][..]);
}
