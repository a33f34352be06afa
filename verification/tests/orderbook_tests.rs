use engine::matcher::Matcher;
use engine::models::{Order, OrderStatus, OrderType, Side, TradingPair};
use engine::orderbook::{OrderBook, PriceLevel};

const U: u64 = 100_000_000;

fn order(id: &str, side: Side, order_type: OrderType, price: u64, quantity: u64) -> Order {
    Order {
        id: id.to_string(),
        user_id: "u1".to_string(),
        trading_pair: TradingPair::BTC_USDT,
        side,
        order_type,
        price,
        quantity,
        filled: 0,
        status: OrderStatus::Open,
    }
}

fn book_with(orders: Vec<Order>) -> OrderBook {
    let mut book = OrderBook::new(TradingPair::BTC_USDT);
    for o in orders {
        book.add_order(o);
    }
    book
}

#[test]
fn new_book_is_empty() {
    let book = OrderBook::new(TradingPair::ETH_USDT);
    assert_eq!(book.trading_pair, TradingPair::ETH_USDT);
    assert!(book.bids.is_empty());
    assert!(book.asks.is_empty());
    assert_eq!(book.best_bid(), None);
    assert_eq!(book.best_ask(), None);
}

#[test]
fn add_order_groups_by_price_in_arrival_order() {
    let book = book_with(vec![
        order("b1", Side::Buy, OrderType::Limit, 100 * U, 1 * U),
        order("b2", Side::Buy, OrderType::Limit, 100 * U, 2 * U),
        order("b3", Side::Buy, OrderType::Limit, 99 * U, 3 * U),
        order("a1", Side::Sell, OrderType::Limit, 101 * U, 4 * U),
    ]);
    assert_eq!(book.bids.len(), 2);
    assert_eq!(book.asks.len(), 1);
    let level = &book.bids[&(100 * U)];
    assert_eq!(level.price, 100 * U);
    let ids: Vec<&str> = level.orders.iter().map(|o| o.id.as_str()).collect();
    assert_eq!(ids, vec!["b1", "b2"]);
}

#[test]
fn best_prices() {
    let book = book_with(vec![
        order("b1", Side::Buy, OrderType::Limit, 100 * U, U),
        order("b2", Side::Buy, OrderType::Limit, 98 * U, U),
        order("a1", Side::Sell, OrderType::Limit, 105 * U, U),
        order("a2", Side::Sell, OrderType::Limit, 103 * U, U),
    ]);
    assert_eq!(book.best_bid(), Some(100 * U));
    assert_eq!(book.best_ask(), Some(103 * U));
}

#[test]
fn price_level_totals() {
    let mut level = PriceLevel::new(7);
    assert!(level.is_empty());
    assert_eq!(level.total_quantity(), 0);
    let mut o = order("x", Side::Buy, OrderType::Limit, 7, 10);
    o.filled = 4;
    level.orders.push(o);
    level.orders.push(order("y", Side::Buy, OrderType::Limit, 7, 5));
    assert!(!level.is_empty());
    assert_eq!(level.total_quantity(), 11);
}

#[test]
fn total_quantity_does_not_overflow() {
    let mut level = PriceLevel::new(1);
    level.orders.push(order("x", Side::Buy, OrderType::Limit, 1, u64::MAX));
    level.orders.push(order("y", Side::Buy, OrderType::Limit, 1, u64::MAX));
    assert_eq!(level.total_quantity(), 2 * (u64::MAX as u128));
}

#[test]
fn depth_lists_best_levels_first() {
    let book = book_with(vec![
        order("b1", Side::Buy, OrderType::Limit, 100 * U, 1 * U),
        order("b2", Side::Buy, OrderType::Limit, 100 * U, 2 * U),
        order("b3", Side::Buy, OrderType::Limit, 99 * U, 3 * U),
        order("b4", Side::Buy, OrderType::Limit, 101 * U, 1 * U),
        order("a1", Side::Sell, OrderType::Limit, 105 * U, 4 * U),
        order("a2", Side::Sell, OrderType::Limit, 103 * U, 5 * U),
    ]);
    let depth = book.get_depth(2);
    assert_eq!(depth.bids, vec![(101 * U, U as u128), (100 * U, 3 * U as u128)]);
    assert_eq!(depth.asks, vec![(103 * U, 5 * U as u128), (105 * U, 4 * U as u128)]);
    let all = book.get_depth(20);
    assert_eq!(all.bids.len(), 3);
    assert_eq!(all.bids[2], (99 * U, 3 * U as u128));
    let none = book.get_depth(0);
    assert!(none.bids.is_empty() && none.asks.is_empty());
}

#[test]
fn cancel_finds_bids_before_asks() {
    let mut book = book_with(vec![
        order("same", Side::Sell, OrderType::Limit, 101 * U, 1 * U),
        order("same", Side::Buy, OrderType::Limit, 100 * U, 2 * U),
    ]);
    let got = book.cancel_order("same").unwrap();
    assert_eq!(got.side, Side::Buy);
    assert_eq!(got.quantity, 2 * U);
    let got2 = book.cancel_order("same").unwrap();
    assert_eq!(got2.side, Side::Sell);
    assert!(book.cancel_order("same").is_none());
}

#[test]
fn cancel_missing_order_changes_nothing() {
    let mut book = book_with(vec![order("b1", Side::Buy, OrderType::Limit, 100 * U, U)]);
    assert!(book.cancel_order("nope").is_none());
    assert_eq!(book.bids[&(100 * U)].orders.len(), 1);
}

#[test]
fn cancel_leaves_empty_level_in_place() {
    let mut book = book_with(vec![order("b1", Side::Buy, OrderType::Limit, 100 * U, U)]);
    let got = book.cancel_order("b1").unwrap();
    assert_eq!(got.id, "b1");
    assert_eq!(book.bids.len(), 1);
    assert!(book.bids[&(100 * U)].is_empty());
    assert_eq!(book.best_bid(), Some(100 * U));
}

#[test]
fn cancel_after_add_returns_the_order() {
    let mut book = book_with(vec![
        order("b1", Side::Buy, OrderType::Limit, 100 * U, U),
        order("a1", Side::Sell, OrderType::Limit, 102 * U, U),
    ]);
    let o = order("new", Side::Sell, OrderType::Limit, 102 * U, 3 * U);
    book.add_order(o.clone());
    let got = book.cancel_order("new").unwrap();
    assert_eq!(got.id, o.id);
    assert_eq!(got.quantity, o.quantity);
    assert_eq!(got.price, o.price);
    let ids: Vec<&str> = book.asks[&(102 * U)].orders.iter().map(|o| o.id.as_str()).collect();
    assert_eq!(ids, vec!["a1"]);
}

#[test]
fn limit_buy_trades_at_resting_prices_lowest_first() {
    let mut book = book_with(vec![
        order("a1", Side::Sell, OrderType::Limit, 102 * U, 1 * U),
        order("a2", Side::Sell, OrderType::Limit, 101 * U, 1 * U),
        order("a3", Side::Sell, OrderType::Limit, 105 * U, 1 * U),
    ]);
    let mut taker = order("t", Side::Buy, OrderType::Limit, 103 * U, 3 * U);
    let trades = Matcher::process(&mut taker, &mut book);
    assert_eq!(trades.len(), 2);
    assert_eq!(trades[0].maker_order_id, "a2");
    assert_eq!(trades[0].price, 101 * U);
    assert_eq!(trades[1].maker_order_id, "a1");
    assert_eq!(trades[1].price, 102 * U);
    for t in &trades {
        assert_eq!(t.taker_order_id, "t");
        assert_eq!(t.trading_pair, TradingPair::BTC_USDT);
        assert_eq!(t.quantity, U);
    }
    assert_eq!(taker.filled, 2 * U);
    assert_eq!(taker.status, OrderStatus::PartiallyFilled);
    // the rest of the buy rests at its limit; the consumed ask levels are gone
    assert_eq!(book.asks.len(), 1);
    assert_eq!(book.best_ask(), Some(105 * U));
    assert_eq!(book.best_bid(), Some(103 * U));
    let resting = &book.bids[&(103 * U)].orders[0];
    assert_eq!(resting.id, "t");
    assert_eq!(resting.filled, 2 * U);
    assert_eq!(resting.remaining(), U);
}

#[test]
fn fifo_within_a_level() {
    let mut book = book_with(vec![
        order("first", Side::Buy, OrderType::Limit, 100 * U, 2 * U),
        order("second", Side::Buy, OrderType::Limit, 100 * U, 2 * U),
    ]);
    let mut taker = order("t", Side::Sell, OrderType::Limit, 100 * U, 3 * U);
    let trades = Matcher::process(&mut taker, &mut book);
    assert_eq!(trades.len(), 2);
    assert_eq!(trades[0].maker_order_id, "first");
    assert_eq!(trades[0].quantity, 2 * U);
    assert_eq!(trades[1].maker_order_id, "second");
    assert_eq!(trades[1].quantity, U);
    assert_eq!(taker.status, OrderStatus::Filled);
    let left = &book.bids[&(100 * U)].orders;
    assert_eq!(left.len(), 1);
    assert_eq!(left[0].id, "second");
    assert_eq!(left[0].filled, U);
    assert_eq!(left[0].status, OrderStatus::PartiallyFilled);
    assert!(book.asks.is_empty());
}

#[test]
fn sell_walks_bids_from_highest_and_stops_at_limit() {
    let mut book = book_with(vec![
        order("b1", Side::Buy, OrderType::Limit, 99 * U, U),
        order("b2", Side::Buy, OrderType::Limit, 101 * U, U),
        order("b3", Side::Buy, OrderType::Limit, 100 * U, U),
    ]);
    let mut taker = order("t", Side::Sell, OrderType::Limit, 100 * U, 5 * U);
    let trades = Matcher::process(&mut taker, &mut book);
    let prices: Vec<u64> = trades.iter().map(|t| t.price).collect();
    assert_eq!(prices, vec![101 * U, 100 * U]);
    assert_eq!(taker.filled, 2 * U);
    assert_eq!(book.best_bid(), Some(99 * U));
    assert_eq!(book.best_ask(), Some(100 * U));
}

#[test]
fn limit_order_without_match_rests_open() {
    let mut book = book_with(vec![order("a1", Side::Sell, OrderType::Limit, 110 * U, U)]);
    let mut taker = order("t", Side::Buy, OrderType::Limit, 100 * U, U);
    let trades = Matcher::process(&mut taker, &mut book);
    assert!(trades.is_empty());
    assert_eq!(taker.status, OrderStatus::Open);
    assert_eq!(taker.filled, 0);
    assert_eq!(book.bids[&(100 * U)].orders[0].id, "t");
}

#[test]
fn market_order_without_liquidity_is_cancelled() {
    let mut book = OrderBook::new(TradingPair::BTC_USDT);
    let mut taker = order("t", Side::Buy, OrderType::Market, 0, U);
    let trades = Matcher::process(&mut taker, &mut book);
    assert!(trades.is_empty());
    assert_eq!(taker.status, OrderStatus::Cancelled);
    assert!(book.bids.is_empty());
}

#[test]
fn market_order_takes_any_price_and_never_rests() {
    let mut book = book_with(vec![
        order("a1", Side::Sell, OrderType::Limit, 1_000 * U, U),
        order("a2", Side::Sell, OrderType::Limit, 2_000 * U, U),
    ]);
    let mut taker = order("t", Side::Buy, OrderType::Market, 0, 3 * U);
    let trades = Matcher::process(&mut taker, &mut book);
    assert_eq!(trades.len(), 2);
    assert_eq!(taker.filled, 2 * U);
    assert_eq!(taker.status, OrderStatus::PartiallyFilled);
    assert!(book.asks.is_empty());
    assert!(book.bids.is_empty());
}

#[test]
fn matching_sweeps_stale_empty_levels() {
    let mut book = book_with(vec![
        order("a1", Side::Sell, OrderType::Limit, 101 * U, U),
        order("a2", Side::Sell, OrderType::Limit, 150 * U, U),
    ]);
    book.cancel_order("a2");
    assert_eq!(book.asks.len(), 2);
    let mut taker = order("t", Side::Buy, OrderType::Limit, 101 * U, U);
    let trades = Matcher::process(&mut taker, &mut book);
    assert_eq!(trades.len(), 1);
    assert_eq!(taker.status, OrderStatus::Filled);
    assert!(book.asks.is_empty());
}

#[test]
fn filled_quantity_is_sum_of_trades() {
    let mut book = book_with(vec![
        order("a1", Side::Sell, OrderType::Limit, 100 * U, 3),
        order("a2", Side::Sell, OrderType::Limit, 100 * U, 5),
        order("a3", Side::Sell, OrderType::Limit, 101 * U, 7),
    ]);
    let mut taker = order("t", Side::Buy, OrderType::Limit, 101 * U, 12);
    let trades = Matcher::process(&mut taker, &mut book);
    let sum: u64 = trades.iter().map(|t| t.quantity).sum();
    assert_eq!(sum, taker.filled);
    assert_eq!(taker.filled, 12);
    assert_eq!(book.asks[&(101 * U)].orders[0].remaining(), 3);
}

#[test]
fn processing_keeps_book_uncrossed() {
    let mut book = book_with(vec![
        order("b1", Side::Buy, OrderType::Limit, 99 * U, U),
        order("a1", Side::Sell, OrderType::Limit, 101 * U, U),
        order("a2", Side::Sell, OrderType::Limit, 102 * U, U),
    ]);
    let mut taker = order("t", Side::Buy, OrderType::Limit, 102 * U, 5 * U);
    Matcher::process(&mut taker, &mut book);
    let bid = book.best_bid().unwrap();
    assert!(book.best_ask().map_or(true, |ask| bid < ask));
    assert_eq!(bid, 102 * U);
}

#[test]
fn zero_quantity_order_is_filled_at_once() {
    let mut book = book_with(vec![order("a1", Side::Sell, OrderType::Limit, 100 * U, U)]);
    let mut taker = order("t", Side::Buy, OrderType::Limit, 100 * U, 0);
    let trades = Matcher::process(&mut taker, &mut book);
    assert!(trades.is_empty());
    assert_eq!(taker.status, OrderStatus::Filled);
    assert!(book.bids.is_empty());
    assert_eq!(book.asks[&(100 * U)].orders.len(), 1);
}

#[test]
fn better_levels_are_used_up_before_worse_ones_trade() {
    let mut book = book_with(vec![
        order("a1", Side::Sell, OrderType::Limit, 100 * U, 2 * U),
        order("a2", Side::Sell, OrderType::Limit, 101 * U, 2 * U),
        order("a3", Side::Sell, OrderType::Limit, 102 * U, 2 * U),
    ]);
    let mut taker = order("t", Side::Buy, OrderType::Limit, 102 * U, 5 * U);
    let trades = Matcher::process(&mut taker, &mut book);
    let got: Vec<(&str, u64, u64)> =
        trades.iter().map(|t| (t.maker_order_id.as_str(), t.price, t.quantity)).collect();
    assert_eq!(got, vec![("a1", 100 * U, 2 * U), ("a2", 101 * U, 2 * U), ("a3", 102 * U, U)]);
    assert!(!book.asks.contains_key(&(100 * U)));
    assert!(!book.asks.contains_key(&(101 * U)));
    let left = &book.asks[&(102 * U)].orders;
    assert_eq!(left[0].id, "a3");
    assert_eq!(left[0].filled, U);
    assert_eq!(left[0].status, OrderStatus::PartiallyFilled);
}

#[test]
fn matching_leaves_only_live_orders_and_nonempty_levels() {
    let mut book = book_with(vec![
        order("b1", Side::Buy, OrderType::Limit, 100 * U, U),
        order("b2", Side::Buy, OrderType::Limit, 100 * U, 3 * U),
        order("b3", Side::Buy, OrderType::Limit, 98 * U, U),
    ]);
    let mut taker = order("t", Side::Sell, OrderType::Limit, 99 * U, 2 * U);
    let trades = Matcher::process(&mut taker, &mut book);
    assert!(trades.iter().all(|t| t.quantity > 0));
    for level in book.bids.values().chain(book.asks.values()) {
        assert!(!level.is_empty());
        assert!(level.orders.iter().all(|o| o.remaining() > 0));
    }
    assert_eq!(book.bids[&(100 * U)].orders[0].id, "b2");
    assert_eq!(book.bids[&(100 * U)].orders[0].remaining(), 2 * U);
    assert_eq!(taker.status, OrderStatus::Filled);
}

#[test]
fn limit_sell_stops_where_bids_fall_below_its_price() {
    let mut book = book_with(vec![
        order("b1", Side::Buy, OrderType::Limit, 100 * U, U),
        order("b2", Side::Buy, OrderType::Limit, 95 * U, U),
    ]);
    let mut taker = order("t", Side::Sell, OrderType::Limit, 97 * U, 4 * U);
    let trades = Matcher::process(&mut taker, &mut book);
    assert_eq!(trades.len(), 1);
    assert!(book.bids.keys().all(|k| *k < 97 * U));
    assert_eq!(book.best_ask(), Some(97 * U));
}

#[test]
fn each_resting_order_fills_by_its_own_trades() {
    let mut book = book_with(vec![
        order("m1", Side::Sell, OrderType::Limit, 100 * U, 2 * U),
        order("m2", Side::Sell, OrderType::Limit, 100 * U, 3 * U),
        order("m3", Side::Sell, OrderType::Limit, 101 * U, 4 * U),
    ]);
    let mut taker = order("t", Side::Buy, OrderType::Limit, 101 * U, 6 * U);
    let trades = Matcher::process(&mut taker, &mut book);
    let traded = |id: &str| -> u64 { trades.iter().filter(|t| t.maker_order_id == id).map(|t| t.quantity).sum() };
    assert_eq!(traded("m1"), 2 * U);
    assert_eq!(traded("m2"), 3 * U);
    assert_eq!(traded("m3"), U);
    assert!(!book.asks.contains_key(&(100 * U)));
    let m3 = &book.asks[&(101 * U)].orders[0];
    assert_eq!(m3.id, "m3");
    assert_eq!(m3.filled, U);
    assert_eq!(m3.status, OrderStatus::PartiallyFilled);
}
