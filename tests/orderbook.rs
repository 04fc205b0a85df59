use matcher::orderbook::OrderBook;
use matcher::types::{OrderSide, TimeInForce};

fn setup_book() -> OrderBook {
    OrderBook::new("TEST-USD".to_string(), 100) // 100 = 2 decimal places
}

#[test]
fn test_new_order_book() {
    let book = setup_book();
    assert!(book.bid_side().best_tick.is_none());
    assert!(book.ask_side().best_tick.is_none());
    assert!(book.bid_side().worst_tick.is_none());
    assert!(book.ask_side().worst_tick.is_none());
    assert_eq!(book.total_orders(), 0);
    assert_eq!(book.order_id_counter(), 0);
    assert_eq!(book.trade_id_counter(), 0);
    assert_eq!(book.tick_multiplier(), 100);
}

#[test]
fn test_add_gtc_limit_order() {
    let mut book = setup_book();
    let price_tick = 101;
    let quantity = 10;

    // Add a buy order
    let (order, trades) =
        book.add_order(1, price_tick, quantity, OrderSide::Bid, TimeInForce::GTC);

    assert!(order.is_some());
    let order = order.unwrap();
    assert_eq!(order.price_tick, price_tick);
    assert_eq!(order.quantity, quantity);
    assert_eq!(order.side, OrderSide::Bid);
    assert!(trades.is_empty());

    assert_eq!(book.bid_side().best_tick, Some(price_tick));
    assert_eq!(book.bid_side().worst_tick, Some(price_tick));
    assert!(book.ask_side().best_tick.is_none());
    let level = book.bid_side().get_level(price_tick).unwrap();
    assert_eq!(level.total_quantity, quantity);
    assert_eq!(level.orders.len(), 1);
    assert_eq!(book.total_orders(), 1);

    // Add a sell order
    let sell_price_tick = 102;
    let (sell_order, trades) =
        book.add_order(1, sell_price_tick, 5, OrderSide::Ask, TimeInForce::GTC);
    assert!(sell_order.is_some());
    assert!(trades.is_empty());
    assert_eq!(book.ask_side().best_tick, Some(sell_price_tick));
    assert_eq!(book.ask_side().worst_tick, Some(sell_price_tick));
    let ask_level = book.ask_side().get_level(sell_price_tick).unwrap();
    assert_eq!(ask_level.total_quantity, 5);
    assert_eq!(book.total_orders(), 2);
}

#[test]
fn test_simple_order_match() {
    let mut book = setup_book();

    // Add a resting sell order
    book.add_order(1, 101, 10, OrderSide::Ask, TimeInForce::GTC);

    // Add a matching buy order
    let (buy_order, trades) = book.add_order(1, 101, 5, OrderSide::Bid, TimeInForce::GTC);

    assert!(buy_order.is_some());
    let buy_order = buy_order.unwrap();
    assert_eq!(buy_order.quantity_filled, 5);
    assert_eq!(trades.len(), 1);

    let trade = &trades[0];
    assert_eq!(trade.quantity, 5);
    assert_eq!(trade.price_tick, 101);
    assert_eq!(trade.taker_order_id, buy_order.id);

    // Check the state of the resting order
    let ask_level = book.ask_side().get_level(101).unwrap();
    assert_eq!(ask_level.total_quantity, 5);
    assert_eq!(ask_level.orders[0].quantity_filled, 5);
}

#[test]
fn test_market_order_full_fill() {
    let mut book = setup_book();
    book.add_order(1, 101, 10, OrderSide::Ask, TimeInForce::GTC);
    book.add_order(1, 102, 10, OrderSide::Ask, TimeInForce::GTC);

    // Market buy order, price_tick = 0
    let (market_order, trades) = book.add_order(1, 0, 15, OrderSide::Bid, TimeInForce::GTC);

    assert!(market_order.is_some());
    let market_order = market_order.unwrap();
    assert_eq!(market_order.quantity_filled, 15);
    assert_eq!(trades.len(), 2);

    assert_eq!(trades[0].quantity, 10);
    assert_eq!(trades[0].price_tick, 101);
    assert_eq!(trades[1].quantity, 5);
    assert_eq!(trades[1].price_tick, 102);

    // Best ask should be gone, next best ask is now the best
    assert_eq!(book.ask_side().best_tick, Some(102));
    let level = book.ask_side().get_level(102).unwrap();
    assert_eq!(level.total_quantity, 5);
}

#[test]
fn test_cancel_order() {
    let mut book = setup_book();
    let (order, _) = book.add_order(1, 101, 10, OrderSide::Bid, TimeInForce::GTC);
    let order_id = order.unwrap().id;

    let cancelled = book.cancel_order(order_id, 101, OrderSide::Bid);
    assert!(cancelled);

    // After cancelling the only order in the level, the level should be None
    assert!(book.bid_side().get_level(101).is_none());

    // Try to cancel again
    let cancelled_again = book.cancel_order(order_id, 101, OrderSide::Bid);
    assert!(!cancelled_again);
}

#[test]
fn test_ioc_order_partial_fill() {
    let mut book = setup_book();
    book.add_order(1, 101, 5, OrderSide::Ask, TimeInForce::GTC);

    // IOC order for 10, only 5 available
    let (order, trades) = book.add_order(1, 102, 10, OrderSide::Bid, TimeInForce::IOC);

    // IOC orders are not added to the book, so we get None
    assert!(order.is_none());
    assert_eq!(trades.len(), 1);
    assert_eq!(trades[0].quantity, 5);

    // The resting order should be gone
    assert!(book.ask_side().get_level(101).is_none());
    assert!(book.ask_side().best_tick.is_none());
    assert_eq!(book.total_orders(), 0);
}

#[test]
fn test_fok_order_success() {
    let mut book = setup_book();
    book.add_order(1, 101, 10, OrderSide::Ask, TimeInForce::GTC);

    // FOK order that can be filled
    let (order, trades) = book.add_order(1, 101, 10, OrderSide::Bid, TimeInForce::FOK);

    assert!(order.is_some());
    assert_eq!(order.unwrap().quantity_filled, 10);
    assert_eq!(trades.len(), 1);
    assert_eq!(trades[0].quantity, 10);

    // Book should be empty
    assert!(book.ask_side().best_tick.is_none());
}

#[test]
fn test_fok_order_fail() {
    let mut book = setup_book();
    book.add_order(1, 101, 5, OrderSide::Ask, TimeInForce::GTC);

    // FOK order that cannot be fully filled
    let (order, trades) = book.add_order(1, 101, 10, OrderSide::Bid, TimeInForce::FOK);

    // Order should be rejected
    assert!(order.is_none());
    assert!(trades.is_empty());

    // Book should be unchanged
    let level = book.ask_side().get_level(101).unwrap();
    assert_eq!(level.total_quantity, 5);
    assert_eq!(book.total_orders(), 1);
}

#[test]
fn test_cancel_order_updates_best_tick() {
    let mut book = setup_book();
    // Add two orders on the buy side
    let (order1, _) = book.add_order(1, 101, 10, OrderSide::Bid, TimeInForce::GTC);
    book.add_order(1, 100, 10, OrderSide::Bid, TimeInForce::GTC);
    let order1_id = order1.unwrap().id;

    assert_eq!(book.bid_side().best_tick, Some(101));

    // Cancel the order at the best tick
    let cancelled = book.cancel_order(order1_id, 101, OrderSide::Bid);
    assert!(cancelled);

    // The best tick should be updated to the next best price
    assert_eq!(book.bid_side().best_tick, Some(100));

    // After cancelling the only order in the level, the level should be None
    assert!(book.bid_side().get_level(101).is_none());
}

#[test]
fn test_add_order_updates_best_tick() {
    let mut book = setup_book();

    // Test buy side - higher prices should become new best tick
    book.add_order(1, 100, 10, OrderSide::Bid, TimeInForce::GTC);
    assert_eq!(book.bid_side().best_tick, Some(100));

    book.add_order(1, 101, 5, OrderSide::Bid, TimeInForce::GTC);
    assert_eq!(book.bid_side().best_tick, Some(101)); // Higher price becomes best

    book.add_order(1, 99, 5, OrderSide::Bid, TimeInForce::GTC);
    assert_eq!(book.bid_side().best_tick, Some(101)); // Lower price doesn't change best

    // Test sell side - lower prices should become new best tick
    book.add_order(1, 110, 10, OrderSide::Ask, TimeInForce::GTC);
    assert_eq!(book.ask_side().best_tick, Some(110));

    book.add_order(1, 109, 5, OrderSide::Ask, TimeInForce::GTC);
    assert_eq!(book.ask_side().best_tick, Some(109)); // Lower price becomes best

    book.add_order(1, 111, 5, OrderSide::Ask, TimeInForce::GTC);
    assert_eq!(book.ask_side().best_tick, Some(109)); // Higher price doesn't change best
}

#[test]
fn test_match_order_updates_best_tick() {
    let mut book = setup_book();

    // Set up sell side with multiple price levels
    book.add_order(1, 101, 10, OrderSide::Ask, TimeInForce::GTC);
    book.add_order(1, 102, 10, OrderSide::Ask, TimeInForce::GTC);
    book.add_order(1, 103, 10, OrderSide::Ask, TimeInForce::GTC);
    assert_eq!(book.ask_side().best_tick, Some(101));

    // Market buy order that fully consumes the best ask level
    let (order, trades) = book.add_order(1, 0, 10, OrderSide::Bid, TimeInForce::GTC);
    assert!(order.is_some());
    assert_eq!(trades.len(), 1);
    assert_eq!(trades[0].price_tick, 101);
    assert_eq!(trades[0].quantity, 10);

    // Best tick should be updated to the next best price
    assert_eq!(book.ask_side().best_tick, Some(102));

    // Another market buy that consumes the next level partially
    let (order, trades) = book.add_order(1, 0, 5, OrderSide::Bid, TimeInForce::GTC);
    assert!(order.is_some());
    assert_eq!(trades.len(), 1);
    assert_eq!(trades[0].price_tick, 102);
    assert_eq!(trades[0].quantity, 5);

    // Best tick should remain the same since level still has quantity
    assert_eq!(book.ask_side().best_tick, Some(102));
    let level = book.ask_side().get_level(102).unwrap();
    assert_eq!(level.total_quantity, 5);

    // Final market buy that fully consumes the 102 level
    let (order, trades) = book.add_order(1, 0, 5, OrderSide::Bid, TimeInForce::GTC);
    assert!(order.is_some());
    assert_eq!(trades.len(), 1);
    assert_eq!(trades[0].price_tick, 102);
    assert_eq!(trades[0].quantity, 5);

    // Best tick should now move to 103
    assert_eq!(book.ask_side().best_tick, Some(103));
}

#[test]
fn test_match_order_updates_best_tick_bid_side() {
    let mut book = setup_book();

    // Set up bid side with multiple price levels
    book.add_order(1, 103, 10, OrderSide::Bid, TimeInForce::GTC);
    book.add_order(1, 102, 10, OrderSide::Bid, TimeInForce::GTC);
    book.add_order(1, 101, 10, OrderSide::Bid, TimeInForce::GTC);
    assert_eq!(book.bid_side().best_tick, Some(103));

    // Market sell order that fully consumes the best bid level
    let (order, trades) = book.add_order(1, 0, 10, OrderSide::Ask, TimeInForce::GTC);
    assert!(order.is_some());
    assert_eq!(trades.len(), 1);
    assert_eq!(trades[0].price_tick, 103);
    assert_eq!(trades[0].quantity, 10);

    // Best tick should be updated to the next best price
    assert_eq!(book.bid_side().best_tick, Some(102));

    // Another market sell that fully consumes two levels
    let (order, trades) = book.add_order(1, 0, 20, OrderSide::Ask, TimeInForce::GTC);
    assert!(order.is_some());
    assert_eq!(trades.len(), 2);
    assert_eq!(trades[0].price_tick, 102);
    assert_eq!(trades[0].quantity, 10);
    assert_eq!(trades[1].price_tick, 101);
    assert_eq!(trades[1].quantity, 10);

    // Best tick should be None as all levels are consumed
    assert_eq!(book.bid_side().best_tick, None);
}

#[test]
fn test_match_order_multiple_levels_updates_best_tick() {
    let mut book = setup_book();

    // Set up ask side with multiple small orders at the same price
    book.add_order(1, 101, 3, OrderSide::Ask, TimeInForce::GTC);
    book.add_order(1, 101, 3, OrderSide::Ask, TimeInForce::GTC);
    book.add_order(1, 101, 4, OrderSide::Ask, TimeInForce::GTC);
    book.add_order(1, 102, 20, OrderSide::Ask, TimeInForce::GTC);

    assert_eq!(book.ask_side().best_tick, Some(101));
    let level = book.ask_side().get_level(101).unwrap();
    assert_eq!(level.total_quantity, 10);
    assert_eq!(level.orders.len(), 3);

    // Large buy order that consumes all orders at 101 and moves to 102
    let (order, trades) = book.add_order(1, 0, 15, OrderSide::Bid, TimeInForce::GTC);
    assert!(order.is_some());
    assert_eq!(trades.len(), 4); // 3 orders at 101 + 1 partial at 102

    // Verify trades
    assert_eq!(trades[0].price_tick, 101);
    assert_eq!(trades[1].price_tick, 101);
    assert_eq!(trades[2].price_tick, 101);
    assert_eq!(trades[3].price_tick, 102);
    assert_eq!(
        trades[0].quantity + trades[1].quantity + trades[2].quantity,
        10
    );
    assert_eq!(trades[3].quantity, 5);

    // Best tick should be updated to 102
    assert_eq!(book.ask_side().best_tick, Some(102));

    // Verify the 101 level is cleared
    assert!(book.ask_side().get_level(101).is_none());

    // Verify remaining quantity at 102
    let level = book.ask_side().get_level(102).unwrap();
    assert_eq!(level.total_quantity, 15);
}

// Additional comprehensive tests
#[test]
fn test_market_order_no_liquidity() {
    let mut book = setup_book();

    // Market order with no liquidity should be cancelled
    let (order, trades) = book.add_order(1, 0, 10, OrderSide::Bid, TimeInForce::GTC);
    assert!(order.is_none());
    assert!(trades.is_empty());
}

#[test]
fn test_ioc_order_no_liquidity() {
    let mut book = setup_book();

    // IOC order with no liquidity should be rejected
    let (order, trades) = book.add_order(1, 100, 10, OrderSide::Bid, TimeInForce::IOC);
    assert!(order.is_none());
    assert!(trades.is_empty());
}

#[test]
fn test_fok_order_no_liquidity() {
    let mut book = setup_book();

    // FOK order with no liquidity should be rejected
    let (order, trades) = book.add_order(1, 100, 10, OrderSide::Bid, TimeInForce::FOK);
    assert!(order.is_none());
    assert!(trades.is_empty());
}

#[test]
fn test_limit_order_improvement() {
    let mut book = setup_book();

    // Add a sell order at 100
    book.add_order(1, 100, 10, OrderSide::Ask, TimeInForce::GTC);

    // Add a buy order at 99 (should not match)
    let (order, trades) = book.add_order(1, 99, 5, OrderSide::Bid, TimeInForce::GTC);
    assert!(order.is_some());
    assert!(trades.is_empty());

    // Add a buy order at 100 (should match)
    let (order, trades) = book.add_order(1, 100, 5, OrderSide::Bid, TimeInForce::GTC);
    assert!(order.is_some());
    assert_eq!(trades.len(), 1);
    assert_eq!(trades[0].quantity, 5);
}

#[test]
fn test_multiple_orders_same_price() {
    let mut book = setup_book();

    // Add multiple orders at the same price
    book.add_order(1, 100, 5, OrderSide::Bid, TimeInForce::GTC);
    book.add_order(1, 100, 3, OrderSide::Bid, TimeInForce::GTC);
    book.add_order(1, 100, 2, OrderSide::Bid, TimeInForce::GTC);

    let level = book.bid_side().get_level(100).unwrap();
    assert_eq!(level.total_quantity, 10);
    assert_eq!(level.orders.len(), 3);
    assert_eq!(book.total_orders(), 3);
}

#[test]
fn test_cancel_nonexistent_order() {
    let mut book = setup_book();

    // Try to cancel an order that doesn't exist
    let cancelled = book.cancel_order(999, 100, OrderSide::Bid);
    assert!(!cancelled);
}

#[test]
fn test_cancel_order_wrong_price() {
    let mut book = setup_book();

    // Add an order
    let (order, _) = book.add_order(1, 100, 10, OrderSide::Bid, TimeInForce::GTC);
    let order_id = order.unwrap().id;

    // Try to cancel with wrong price
    let cancelled = book.cancel_order(order_id, 101, OrderSide::Bid);
    assert!(!cancelled);

    // Order should still exist
    let level = book.bid_side().get_level(100).unwrap();
    assert_eq!(level.total_quantity, 10);
}

#[test]
fn test_cancel_order_wrong_side() {
    let mut book = setup_book();

    // Add a bid order
    let (order, _) = book.add_order(1, 100, 10, OrderSide::Bid, TimeInForce::GTC);
    let order_id = order.unwrap().id;

    // Try to cancel with wrong side
    let cancelled = book.cancel_order(order_id, 100, OrderSide::Ask);
    assert!(!cancelled);

    // Order should still exist
    let level = book.bid_side().get_level(100).unwrap();
    assert_eq!(level.total_quantity, 10);
}

#[test]
fn test_cancel_already_cancelled_order() {
    let mut book = setup_book();

    // Add an order
    let (order, _) = book.add_order(1, 100, 10, OrderSide::Bid, TimeInForce::GTC);
    let order_id = order.unwrap().id;

    // Cancel it
    let cancelled = book.cancel_order(order_id, 100, OrderSide::Bid);
    assert!(cancelled);

    // Try to cancel again
    let cancelled_again = book.cancel_order(order_id, 100, OrderSide::Bid);
    assert!(!cancelled_again);
}

#[test]
fn test_order_id_counter_increments() {
    let mut book = setup_book();

    let (order1, _) = book.add_order(1, 100, 10, OrderSide::Bid, TimeInForce::GTC);
    let (order2, _) = book.add_order(1, 101, 5, OrderSide::Ask, TimeInForce::GTC);

    assert_eq!(order1.unwrap().id, 0);
    assert_eq!(order2.unwrap().id, 1);
    assert_eq!(book.order_id_counter(), 2);
}

#[test]
fn test_trade_id_counter_increments() {
    let mut book = setup_book();

    // Add a resting order
    book.add_order(1, 100, 10, OrderSide::Ask, TimeInForce::GTC);

    // Add matching orders
    let (_, trades1) = book.add_order(1, 100, 5, OrderSide::Bid, TimeInForce::GTC);
    let (_, trades2) = book.add_order(1, 100, 3, OrderSide::Bid, TimeInForce::GTC);

    assert_eq!(trades1[0].id, 0);
    assert_eq!(trades2[0].id, 1);
    assert_eq!(book.trade_id_counter(), 2);
}

#[test]
fn test_worst_tick_tracking() {
    let mut book = setup_book();

    // Add orders at different prices
    book.add_order(1, 100, 10, OrderSide::Bid, TimeInForce::GTC);
    book.add_order(1, 102, 5, OrderSide::Bid, TimeInForce::GTC);
    book.add_order(1, 98, 3, OrderSide::Bid, TimeInForce::GTC);

    assert_eq!(book.bid_side().best_tick, Some(102)); // Highest price
    assert_eq!(book.bid_side().worst_tick, Some(98)); // Lowest price

    // Cancel the worst tick (the first order at 98)
    // We need to get the order ID of the first order at 98
    let level = book.bid_side().get_level(98).unwrap();
    let order_id = level.orders[0].id;
    book.cancel_order(order_id, 98, OrderSide::Bid);

    assert_eq!(book.bid_side().best_tick, Some(102));
    assert_eq!(book.bid_side().worst_tick, Some(100)); // Should update to next worst
}

#[test]
fn test_zero_price_tick_limit_order() {
    let mut book = setup_book();

    // Zero price tick should not be added as limit order
    let (order, trades) = book.add_order(1, 0, 10, OrderSide::Bid, TimeInForce::GTC);
    assert!(order.is_none());
    assert!(trades.is_empty());
}

#[test]
fn test_partial_fill_resting_order() {
    let mut book = setup_book();

    // Add a large resting order
    book.add_order(1, 100, 100, OrderSide::Ask, TimeInForce::GTC);

    // Partially fill it
    let (order, trades) = book.add_order(1, 100, 30, OrderSide::Bid, TimeInForce::GTC);
    assert!(order.is_some());
    assert_eq!(trades.len(), 1);
    assert_eq!(trades[0].quantity, 30);

    // Check resting order state
    let level = book.ask_side().get_level(100).unwrap();
    assert_eq!(level.total_quantity, 70);
    assert_eq!(level.orders[0].quantity_filled, 30);
}

#[test]
fn test_cross_spread_matching() {
    let mut book = setup_book();

    // Add orders that cross the spread
    book.add_order(1, 100, 10, OrderSide::Ask, TimeInForce::GTC);
    let (bid_order, trades) = book.add_order(1, 102, 5, OrderSide::Bid, TimeInForce::GTC);

    // The bid at 102 should match against the ask at 100, filling 5 units
    assert!(bid_order.is_some());
    assert_eq!(trades.len(), 1);
    assert_eq!(trades[0].quantity, 5);
    assert_eq!(trades[0].price_tick, 100); // Should match at ask price

    // Ask should be partially filled (10 - 5 = 5 remaining)
    let level = book.ask_side().get_level(100).unwrap();
    assert_eq!(level.total_quantity, 5);

    // The bid at 102 should be fully filled and not in the book
    assert_eq!(book.bid_side().best_tick, None);
    assert_eq!(book.ask_side().best_tick, Some(100));

    // Add an aggressive order that crosses
    let (order, trades) = book.add_order(1, 103, 8, OrderSide::Bid, TimeInForce::GTC);
    assert!(order.is_some());
    assert_eq!(trades.len(), 1);
    assert_eq!(trades[0].quantity, 5); // Should match remaining ask quantity
    assert_eq!(trades[0].price_tick, 100); // Should match at ask price

    // Ask should be fully consumed
    assert!(book.ask_side().get_level(100).is_none());
    assert_eq!(book.ask_side().best_tick, None);

    // The new bid at 103 should remain in the book with 3 units (8 - 5 = 3)
    assert_eq!(book.bid_side().best_tick, Some(103));
    let level = book.bid_side().get_level(103).unwrap();
    assert_eq!(level.total_quantity, 3);
}

#[test]
fn test_get_depth_empty_book() {
    let book = setup_book();
    let depth = book.get_depth(10);

    assert!(depth.bids.is_empty());
    assert!(depth.asks.is_empty());
}

#[test]
fn test_get_depth_single_levels() {
    let mut book = setup_book();

    // Add one bid and one ask
    book.add_order(1, 100, 10, OrderSide::Bid, TimeInForce::GTC);
    book.add_order(1, 105, 5, OrderSide::Ask, TimeInForce::GTC);

    let depth = book.get_depth(10);

    assert_eq!(depth.bids.len(), 1);
    assert_eq!(depth.bids[0].price_tick, 100);
    assert_eq!(depth.bids[0].quantity, 10);

    assert_eq!(depth.asks.len(), 1);
    assert_eq!(depth.asks[0].price_tick, 105);
    assert_eq!(depth.asks[0].quantity, 5);
}

#[test]
fn test_get_depth_multiple_levels() {
    let mut book = setup_book();

    // Add multiple bid levels (higher prices should come first)
    book.add_order(1, 100, 10, OrderSide::Bid, TimeInForce::GTC);
    book.add_order(1, 102, 5, OrderSide::Bid, TimeInForce::GTC);
    book.add_order(1, 98, 15, OrderSide::Bid, TimeInForce::GTC);

    // Add multiple ask levels (lower prices should come first)
    book.add_order(1, 105, 8, OrderSide::Ask, TimeInForce::GTC);
    book.add_order(1, 108, 12, OrderSide::Ask, TimeInForce::GTC);
    book.add_order(1, 103, 3, OrderSide::Ask, TimeInForce::GTC);

    let depth = book.get_depth(10);

    // Bids should be sorted by price descending (highest first)
    assert_eq!(depth.bids.len(), 3);
    assert_eq!(depth.bids[0].price_tick, 102);
    assert_eq!(depth.bids[0].quantity, 5);
    assert_eq!(depth.bids[1].price_tick, 100);
    assert_eq!(depth.bids[1].quantity, 10);
    assert_eq!(depth.bids[2].price_tick, 98);
    assert_eq!(depth.bids[2].quantity, 15);

    // Asks should be sorted by price ascending (lowest first)
    assert_eq!(depth.asks.len(), 3);
    assert_eq!(depth.asks[0].price_tick, 103);
    assert_eq!(depth.asks[0].quantity, 3);
    assert_eq!(depth.asks[1].price_tick, 105);
    assert_eq!(depth.asks[1].quantity, 8);
    assert_eq!(depth.asks[2].price_tick, 108);
    assert_eq!(depth.asks[2].quantity, 12);
}

#[test]
fn test_get_depth_limit_levels() {
    let mut book = setup_book();

    // Add 5 bid levels
    for i in 0..5 {
        book.add_order(1, 100 + i, 10, OrderSide::Bid, TimeInForce::GTC);
    }

    // Add 5 ask levels
    for i in 0..5 {
        book.add_order(1, 110 + i, 10, OrderSide::Ask, TimeInForce::GTC);
    }

    // Request only 3 levels
    let depth = book.get_depth(3);

    assert_eq!(depth.bids.len(), 3);
    assert_eq!(depth.asks.len(), 3);

    // Should get the best 3 levels
    assert_eq!(depth.bids[0].price_tick, 104); // Highest bid
    assert_eq!(depth.bids[1].price_tick, 103);
    assert_eq!(depth.bids[2].price_tick, 102);

    assert_eq!(depth.asks[0].price_tick, 110); // Lowest ask
    assert_eq!(depth.asks[1].price_tick, 111);
    assert_eq!(depth.asks[2].price_tick, 112);
}

#[test]
fn test_get_depth_after_matching() {
    let mut book = setup_book();

    // Add orders
    book.add_order(1, 100, 10, OrderSide::Bid, TimeInForce::GTC);
    book.add_order(1, 102, 5, OrderSide::Bid, TimeInForce::GTC);
    book.add_order(1, 105, 8, OrderSide::Ask, TimeInForce::GTC);
    book.add_order(1, 108, 12, OrderSide::Ask, TimeInForce::GTC);

    // Match some orders - this should consume the bid at 102 and partially consume ask at 105
    book.add_order(1, 105, 3, OrderSide::Bid, TimeInForce::GTC);

    let depth = book.get_depth(10);

    // After matching: both bids should remain (102 and 100)
    assert_eq!(depth.bids.len(), 2);
    assert_eq!(depth.bids[0].price_tick, 102);
    assert_eq!(depth.bids[0].quantity, 5);
    assert_eq!(depth.bids[1].price_tick, 100);
    assert_eq!(depth.bids[1].quantity, 10);

    // Ask at 105 should be partially consumed (8 - 3 = 5), ask at 108 should remain
    assert_eq!(depth.asks.len(), 2);
    assert_eq!(depth.asks[0].price_tick, 105);
    assert_eq!(depth.asks[0].quantity, 5); // 8 - 3 = 5
    assert_eq!(depth.asks[1].price_tick, 108);
    assert_eq!(depth.asks[1].quantity, 12);
}

#[test]
fn test_ask_crossing_bid_fix() {
    let mut book = setup_book();

    // Add bids at 102 (simulating your scenario with smaller numbers)
    book.add_order(1, 102, 2, OrderSide::Bid, TimeInForce::GTC);

    // Add an ask at 101 that should cross with the bids
    let (ask_order, trades) = book.add_order(2, 101, 1, OrderSide::Ask, TimeInForce::GTC);

    // The ask should be fully filled and not remain in the book
    assert!(ask_order.is_some());
    let ask_order = ask_order.unwrap();
    assert_eq!(ask_order.quantity_filled, 1);
    assert_eq!(ask_order.quantity, 1);

    // Should have 1 trade
    assert_eq!(trades.len(), 1);
    let trade = &trades[0];
    assert_eq!(trade.quantity, 1);
    assert_eq!(trade.price_tick, 102); // Should match at bid price
    assert_eq!(trade.taker_order_id, ask_order.id);
    assert_eq!(trade.maker_order_id, 0); // First bid order

    // The bid should be partially filled (2 - 1 = 1 remaining)
    let bid_level = book.bid_side().get_level(102).unwrap();
    assert_eq!(bid_level.total_quantity, 1);
    assert_eq!(bid_level.orders[0].quantity_filled, 1);

    // The ask should not be in the book since it was fully filled
    assert!(book.ask_side().get_level(101).is_none());
    assert_eq!(book.ask_side().best_tick, None);
}
