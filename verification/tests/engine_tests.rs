use engine::error::EngineError;
use engine::handlers::{handle_request, parse_trading_pair};
use engine::models::{
    str_eq, EngineRequest, EngineState, Order, OrderStatus, OrderType, RequestPayload,
    ResponseData, Side, Trade, TradingPair,
};
use engine::orderbook::OrderBook;
use engine::redis::{Outgoing, PublishData, RedisClient};

const U: u64 = 100_000_000;

fn payload() -> RequestPayload {
    RequestPayload {
        user_id: None,
        symbol: None,
        side: None,
        order_type: None,
        price: None,
        quantity: None,
        order_id: None,
        levels: None,
    }
}

fn place(side: &str, kind: &str, price: Option<u64>, quantity: u64) -> RequestPayload {
    RequestPayload {
        user_id: Some("alice".to_string()),
        symbol: Some("BTC_USDT".to_string()),
        side: Some(side.to_string()),
        order_type: Some(kind.to_string()),
        price,
        quantity: Some(quantity),
        ..payload()
    }
}

fn request(kind: &str, p: RequestPayload) -> EngineRequest {
    EngineRequest {
        correlation_id: "c1".to_string(),
        response_queue: "q1".to_string(),
        kind: kind.to_string(),
        payload: p,
    }
}

fn error_of(o: &Outgoing) -> String {
    match o {
        Outgoing::Push { queue, response } => {
            assert_eq!(queue, "q1");
            assert_eq!(response.correlation_id, "c1");
            assert!(!response.success);
            assert!(response.data.is_none());
            response.error.clone().unwrap()
        }
        _ => panic!("expected a reply"),
    }
}

fn data_of(o: &Outgoing) -> &ResponseData {
    match o {
        Outgoing::Push { queue, response } => {
            assert_eq!(queue, "q1");
            assert_eq!(response.correlation_id, "c1");
            assert!(response.success);
            assert!(response.error.is_none());
            response.data.as_ref().unwrap()
        }
        _ => panic!("expected a reply"),
    }
}

fn run(book: &mut OrderBook, req: EngineRequest) -> Vec<Outgoing> {
    let mut redis = RedisClient::new("redis://localhost:6379");
    handle_request(req, book, &mut redis);
    redis.take_outbox()
}

#[test]
fn place_order_reports_each_missing_field_in_order() {
    let cases: Vec<(RequestPayload, &str)> = vec![
        (RequestPayload { user_id: None, ..place("buy", "limit", Some(U), U) }, "missing userId"),
        (RequestPayload { symbol: None, ..place("buy", "limit", Some(U), U) }, "missing symbol"),
        (RequestPayload { side: Some("hold".to_string()), ..place("buy", "limit", Some(U), U) }, "invalid side"),
        (RequestPayload { side: None, ..place("buy", "limit", Some(U), U) }, "invalid side"),
        (RequestPayload { order_type: Some("stop".to_string()), ..place("buy", "limit", Some(U), U) }, "invalid orderType"),
        (RequestPayload { quantity: None, ..place("buy", "limit", Some(U), U) }, "missing quantity"),
        (RequestPayload { symbol: Some("DOGE_USDT".to_string()), ..place("buy", "limit", Some(U), U) }, "invalid symbol"),
        (RequestPayload { user_id: None, side: None, ..place("buy", "limit", Some(U), U) }, "missing userId"),
    ];
    for (p, msg) in cases {
        let mut book = OrderBook::new(TradingPair::BTC_USDT);
        let out = run(&mut book, request("place_order", p));
        assert_eq!(out.len(), 1);
        assert_eq!(error_of(&out[0]), msg);
        assert!(book.bids.is_empty() && book.asks.is_empty());
    }
}

#[test]
fn place_order_without_trades_publishes_depth_then_replies() {
    let mut book = OrderBook::new(TradingPair::BTC_USDT);
    let out = run(&mut book, request("place_order", place("buy", "limit", Some(100 * U), 2 * U)));
    assert_eq!(out.len(), 2);
    match &out[0] {
        Outgoing::Publish { channel, data: PublishData::Depth(d) } => {
            assert_eq!(channel, "orderbook:BTC_USDT");
            assert_eq!(d.bids, vec![(100 * U, 2 * U as u128)]);
            assert!(d.asks.is_empty());
        }
        _ => panic!("expected a depth broadcast"),
    }
    match data_of(&out[1]) {
        ResponseData::OrderPlaced { order_id, status, filled, remaining, trades } => {
            assert_eq!(order_id.len(), 36);
            assert_eq!(*status, OrderStatus::Open);
            assert_eq!(*filled, 0);
            assert_eq!(*remaining, 2 * U);
            assert!(trades.is_empty());
            assert_eq!(&book.bids[&(100 * U)].orders[0].id, order_id);
            assert_eq!(book.bids[&(100 * U)].orders[0].user_id, "alice");
        }
        _ => panic!("expected an order reply"),
    }
}

#[test]
fn place_order_with_trades_publishes_them() {
    let mut book = OrderBook::new(TradingPair::BTC_USDT);
    run(&mut book, request("place_order", place("sell", "limit", Some(100 * U), U)));
    let out = run(&mut book, request("place_order", place("buy", "market", None, 3 * U)));
    assert_eq!(out.len(), 3);
    match &out[1] {
        Outgoing::Publish { channel, data: PublishData::Trades(ts) } => {
            assert_eq!(channel, "trades:BTC_USDT");
            assert_eq!(ts.len(), 1);
            assert_eq!(ts[0].price, 100 * U);
            assert_eq!(ts[0].quantity, U);
        }
        _ => panic!("expected a trades broadcast"),
    }
    match data_of(&out[2]) {
        ResponseData::OrderPlaced { status, filled, remaining, trades, .. } => {
            assert_eq!(*status, OrderStatus::PartiallyFilled);
            assert_eq!(*filled, U);
            assert_eq!(*remaining, 2 * U);
            assert_eq!(trades.len(), 1);
        }
        _ => panic!("expected an order reply"),
    }
    assert!(book.asks.is_empty() && book.bids.is_empty());
}

#[test]
fn missing_price_counts_as_zero() {
    let mut book = OrderBook::new(TradingPair::BTC_USDT);
    run(&mut book, request("place_order", place("sell", "limit", None, U)));
    assert!(book.asks.contains_key(&0));
}

#[test]
fn cancel_request_outcomes() {
    let mut book = OrderBook::new(TradingPair::BTC_USDT);
    let out = run(&mut book, request("cancel_order", payload()));
    assert_eq!(error_of(&out[0]), "missing orderId");
    let out = run(&mut book, request("cancel_order", RequestPayload { order_id: Some("x".to_string()), ..payload() }));
    assert_eq!(error_of(&out[0]), "order not found");
    let out = run(&mut book, request("place_order", place("buy", "limit", Some(5 * U), U)));
    let id = match data_of(&out[1]) {
        ResponseData::OrderPlaced { order_id, .. } => order_id.clone(),
        _ => panic!(),
    };
    let out = run(&mut book, request("cancel_order", RequestPayload { order_id: Some(id.clone()), ..payload() }));
    assert_eq!(out.len(), 1);
    match data_of(&out[0]) {
        ResponseData::OrderCancelled { order_id } => assert_eq!(order_id, &id),
        _ => panic!("expected a cancel reply"),
    }
    assert!(book.bids[&(5 * U)].orders.is_empty());
}

#[test]
fn depth_request_defaults_to_twenty_levels() {
    let mut book = OrderBook::new(TradingPair::BTC_USDT);
    for i in 1..=25u64 {
        run(&mut book, request("place_order", place("buy", "limit", Some(i * U), U)));
    }
    let out = run(&mut book, request("get_depth", payload()));
    match data_of(&out[0]) {
        ResponseData::Depth(d) => {
            assert_eq!(d.bids.len(), 20);
            assert_eq!(d.bids[0].0, 25 * U);
            assert_eq!(d.bids[19].0, 6 * U);
        }
        _ => panic!("expected depth"),
    }
    let out = run(&mut book, request("get_depth", RequestPayload { levels: Some(3), ..payload() }));
    match data_of(&out[0]) {
        ResponseData::Depth(d) => assert_eq!(d.bids.len(), 3),
        _ => panic!("expected depth"),
    }
}

#[test]
fn ticker_reports_best_prices_and_spread() {
    let mut book = OrderBook::new(TradingPair::BTC_USDT);
    let out = run(&mut book, request("get_ticker", payload()));
    match data_of(&out[0]) {
        ResponseData::Ticker { best_bid, best_ask, spread } => {
            assert_eq!((*best_bid, *best_ask, *spread), (None, None, None));
        }
        _ => panic!(),
    }
    run(&mut book, request("place_order", place("buy", "limit", Some(99 * U), U)));
    run(&mut book, request("place_order", place("sell", "limit", Some(101 * U), U)));
    let out = run(&mut book, request("get_ticker", payload()));
    match data_of(&out[0]) {
        ResponseData::Ticker { best_bid, best_ask, spread } => {
            assert_eq!(*best_bid, Some(99 * U));
            assert_eq!(*best_ask, Some(101 * U));
            assert_eq!(*spread, Some(2 * U as i128));
        }
        _ => panic!(),
    }
}

#[test]
fn unknown_command_is_answered_with_an_error() {
    let mut book = OrderBook::new(TradingPair::BTC_USDT);
    let out = run(&mut book, request("dance", payload()));
    assert_eq!(out.len(), 1);
    assert_eq!(error_of(&out[0]), "unknown command: dance");
}

#[test]
fn redis_client_queues_messages_in_order() {
    let mut redis = RedisClient::new("redis://example:6379");
    assert_eq!(redis.redis_url, "redis://example:6379");
    redis.send_error("c1", "q1", "boom");
    redis.send_success("c2", "q2", ResponseData::OrderCancelled { order_id: "o".to_string() });
    let out = redis.take_outbox();
    assert_eq!(out.len(), 2);
    assert_eq!(error_of(&out[0]), "boom");
    assert!(redis.outbox.is_empty());
    match &out[1] {
        Outgoing::Push { queue, response } => {
            assert_eq!(queue, "q2");
            assert_eq!(response.correlation_id, "c2");
            assert!(response.success);
        }
        _ => panic!(),
    }
}

#[test]
fn trading_pairs_and_their_symbols() {
    let all = TradingPair::all();
    let names: Vec<String> = all.iter().map(|p| p.name()).collect();
    assert_eq!(names, vec!["BTC_USDT", "ETH_USDT", "SOL_USDT"]);
    for p in all {
        assert_eq!(parse_trading_pair(&p.name()), Some(p));
    }
    assert_eq!(parse_trading_pair("btc_usdt"), None);
    assert_eq!(parse_trading_pair(""), None);
}

#[test]
fn orders_and_trades_get_fresh_ids() {
    let a = Order::new("u".to_string(), TradingPair::SOL_USDT, Side::Sell, OrderType::Limit, 5, 9);
    let b = Order::new("u".to_string(), TradingPair::SOL_USDT, Side::Sell, OrderType::Limit, 5, 9);
    assert_eq!(a.id.len(), 36);
    assert_ne!(a.id, b.id);
    assert_eq!(a.filled, 0);
    assert_eq!(a.status, OrderStatus::Open);
    assert_eq!(a.remaining(), 9);
    assert!(!a.is_filled());
    let t = Trade::new(TradingPair::SOL_USDT, "m".to_string(), "t".to_string(), 5, 1);
    assert_eq!(t.id.len(), 36);
    assert_eq!(t.maker_order_id, "m");
}

#[test]
fn balances_are_created_once_with_starting_holdings() {
    let mut state = EngineState::new();
    {
        let b = state.get_or_create_balance("bob");
        assert_eq!(b.user_id, "bob");
        assert_eq!(b.usdt, 100_000 * U);
        assert_eq!(b.btc, 10 * U);
        assert_eq!(b.eth, 100 * U);
        assert_eq!(b.sol, 1_000 * U);
        b.usdt -= U;
    }
    let again = state.get_or_create_balance("bob");
    assert_eq!(again.usdt, 99_999 * U);
    state.get_or_create_balance("carol");
    assert_eq!(state.balances.len(), 2);
}

#[test]
fn error_messages() {
    assert_eq!(EngineError::MissingField("price".to_string()).message(), "Missing field: price");
    assert_eq!(EngineError::InsufficientLiquidity.message(), "Insufficient liquidity");
    assert_eq!(EngineError::OrderNotFound("x1".to_string()).message(), "Order not found: x1");
    assert_eq!(
        EngineError::RedisConnectionFailed("refused".to_string()).message(),
        "Redis connection failed: refused"
    );
    assert_eq!(
        EngineError::DeserializationFailed("bad".to_string()).message(),
        "Deserialization failed: bad"
    );
}

#[test]
fn string_equality() {
    assert!(str_eq("abc", "abc"));
    assert!(!str_eq("abc", "abd"));
}

#[test]
fn reply_carries_the_broadcast_trades() {
    let mut book = OrderBook::new(TradingPair::BTC_USDT);
    run(&mut book, request("place_order", place("sell", "limit", Some(100 * U), U)));
    run(&mut book, request("place_order", place("sell", "limit", Some(101 * U), U)));
    let out = run(&mut book, request("place_order", place("buy", "market", None, 2 * U)));
    let broadcast: Vec<(String, u64, u64)> = match &out[1] {
        Outgoing::Publish { data: PublishData::Trades(ts), .. } => {
            ts.iter().map(|t| (t.id.clone(), t.price, t.quantity)).collect()
        }
        _ => panic!("expected a trades broadcast"),
    };
    let replied: Vec<(String, u64, u64)> = match data_of(&out[2]) {
        ResponseData::OrderPlaced { trades, status, .. } => {
            assert_eq!(*status, OrderStatus::Filled);
            trades.iter().map(|t| (t.id.clone(), t.price, t.quantity)).collect()
        }
        _ => panic!("expected an order reply"),
    };
    assert_eq!(broadcast.len(), 2);
    assert_eq!(broadcast, replied);
    assert_eq!(broadcast[0].1, 100 * U);
    assert_eq!(broadcast[1].1, 101 * U);
}

fn is_uuid_v4(s: &str) -> bool {
    let b = s.as_bytes();
    b.len() == 36
        && b.iter().enumerate().all(|(i, c)| match i {
            8 | 13 | 18 | 23 => *c == b'-',
            _ => c.is_ascii_digit() || (b'a'..=b'f').contains(c),
        })
        && b[14] == b'4'
        && matches!(b[19], b'8' | b'9' | b'a' | b'b')
}

#[test]
fn ids_are_random_uuid_text() {
    let o = Order::new("u".to_string(), TradingPair::BTC_USDT, Side::Buy, OrderType::Market, 0, 1);
    assert!(is_uuid_v4(&o.id));
    let t = Trade::new(TradingPair::BTC_USDT, "m".to_string(), "t".to_string(), 1, 1);
    assert!(is_uuid_v4(&t.id));
}

#[test]
fn market_order_reply_has_a_real_order_id() {
    let mut book = OrderBook::new(TradingPair::BTC_USDT);
    let out = run(&mut book, request("place_order", place("buy", "market", None, U)));
    match data_of(&out[1]) {
        ResponseData::OrderPlaced { order_id, status, .. } => {
            assert!(is_uuid_v4(order_id));
            assert_eq!(*status, OrderStatus::Cancelled);
        }
        _ => panic!("expected an order reply"),
    }
}

#[test]
fn balance_stays_under_the_id_it_was_created_with() {
    let mut state = EngineState::new();
    state.get_or_create_balance("dave").user_id = "erin".to_string();
    assert_eq!(state.get_or_create_balance("dave").user_id, "erin");
    assert_eq!(state.balances.len(), 1);
    state.get_or_create_balance("erin");
    assert_eq!(state.balances.len(), 2);
}
