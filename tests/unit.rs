use high_performance_trading_engine::order_book::{Order, OrderBook, OrderSide, OrderType};

// Helper function to create a test order
fn create_test_order(side: OrderSide, order_type: OrderType, price: u64, quantity: u64) -> Order {
    Order {
        id: 0, // Will be set by OrderBook
        side,
        order_type,
        price,
        quantity,
        timestamp: 0,
        trader_id: "test_trader".to_string(),
    }
}

#[test]
fn test_place_market_buy_order() {
    let mut order_book = OrderBook::new();

    let sell_order1 = create_test_order(OrderSide::Sell, OrderType::Market, 100, 50);
    let sell_order2 = create_test_order(OrderSide::Sell, OrderType::Market, 100, 30);

    order_book.place_order(sell_order1).unwrap();
    order_book.place_order(sell_order2).unwrap();

    let buy_order = create_test_order(OrderSide::Buy, OrderType::Market, 100, 70);

    let result = order_book.place_order(buy_order);

    assert!(result.is_ok());
}

#[test]
fn test_place_limit_buy_order() {
    let mut order_book = OrderBook::new();

    let sell_order1 = create_test_order(OrderSide::Sell, OrderType::Limit { price: 100 }, 100, 50);
    let sell_order2 = create_test_order(OrderSide::Sell, OrderType::Limit { price: 100 }, 100, 30);

    order_book.place_order(sell_order1).unwrap();
    order_book.place_order(sell_order2).unwrap();

    let buy_order = create_test_order(OrderSide::Buy, OrderType::Limit { price: 110 }, 110, 70);

    let result = order_book.place_order(buy_order);

    assert!(result.is_ok());
}

#[test]
fn test_zero_quantity_order() {
    let mut order_book = OrderBook::new();

    let order = create_test_order(OrderSide::Buy, OrderType::Market, 100, 0);

    let result = order_book.place_order(order);

    assert!(result.is_err());
    assert_eq!(result.unwrap_err().message(), "Cannot place order with zero quantity");
}

#[test]
fn test_partial_fill() {
    let mut order_book = OrderBook::new();

    let sell_order = create_test_order(OrderSide::Sell, OrderType::Limit { price: 100 }, 100, 50);

    order_book.place_order(sell_order).unwrap();

    let buy_order = create_test_order(OrderSide::Buy, OrderType::Market, 100, 70);

    let result = order_book.place_order(buy_order);

    assert!(result.is_ok());
}
