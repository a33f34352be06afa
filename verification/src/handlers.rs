//! What the engine does with each request: it updates the book and queues its replies and
//! broadcasts on the Redis client.
use vstd::prelude::*;
use vstd::string::*;

use crate::matcher::{
    final_status, lemma_match_walk_bounds, match_walk, opposite, own_side_after, trades_match, without_empty_levels,
    Matcher,
};
use crate::models::{
    copy_trades, is_uuid_v4_text, str_eq, EngineRequest, Order, OrderStatus, OrderType, RequestPayload,
    ResponseData, Side, Trade, TradingPair,
};
use crate::orderbook::{
    book_side, cancel_outcome, depth_rows, highest, lowest, side_view, OrderBook,
};
use crate::redis::{appended, is_error_reply, Outgoing, PublishData, RedisClient};

verus! {

/// The levels a depth snapshot shows unless asked otherwise.
pub const DEFAULT_DEPTH_LEVELS: usize = 20;

/// The trading pair quoted under `symbol`.
pub open spec fn pair_of(symbol: Seq<char>) -> Option<TradingPair> {
    if symbol == "BTC_USDT"@ {
        Some(TradingPair::BTC_USDT)
    } else if symbol == "ETH_USDT"@ {
        Some(TradingPair::ETH_USDT)
    } else if symbol == "SOL_USDT"@ {
        Some(TradingPair::SOL_USDT)
    } else {
        None
    }
}

/// The side named `s` (`buy` or `sell`).
pub open spec fn side_named(s: Seq<char>) -> Option<Side> {
    if s == "buy"@ {
        Some(Side::Buy)
    } else if s == "sell"@ {
        Some(Side::Sell)
    } else {
        None
    }
}

/// The order type named `s` (`limit` or `market`).
pub open spec fn order_type_named(s: Seq<char>) -> Option<OrderType> {
    if s == "limit"@ {
        Some(OrderType::Limit)
    } else if s == "market"@ {
        Some(OrderType::Market)
    } else {
        None
    }
}

/// Why a place-order payload is refused, checked in this order; `None` when it is accepted.
pub open spec fn place_order_error(p: RequestPayload) -> Option<Seq<char>> {
    if p.user_id is None {
        Some("missing userId"@)
    } else if p.symbol is None {
        Some("missing symbol"@)
    } else if !(p.side matches Some(s) && side_named(s@) is Some) {
        Some("invalid side"@)
    } else if !(p.order_type matches Some(t) && order_type_named(t@) is Some) {
        Some("invalid orderType"@)
    } else if p.quantity is None {
        Some("missing quantity"@)
    } else if pair_of(p.symbol.unwrap()@) is None {
        Some("invalid symbol"@)
    } else {
        None
    }
}

/// `o` is the fresh order an accepted place-order payload describes, under a new random id;
/// a missing price counts as 0.
pub open spec fn order_described(o: Order, p: RequestPayload) -> bool {
    &&& is_uuid_v4_text(o.id@)
    &&& o.user_id@ == p.user_id.unwrap()@
    &&& Some(o.trading_pair) == pair_of(p.symbol.unwrap()@)
    &&& Some(o.side) == side_named(p.side.unwrap()@)
    &&& Some(o.order_type) == order_type_named(p.order_type.unwrap()@)
    &&& o.price == (match p.price {
        Some(x) => x,
        None => 0,
    })
    &&& o.quantity == p.quantity.unwrap()
    &&& o.filled == 0
    &&& o.status == OrderStatus::Open
}

/// The reply a message carries, if it is a successful reply to `req`.
pub open spec fn success_data(o: Outgoing, req: EngineRequest) -> Option<ResponseData> {
    match o {
        Outgoing::Push { queue: q, response: r } => if q@ == req.response_queue@
            && r.correlation_id@ == req.correlation_id@ && r.success && r.error is None {
            r.data
        } else {
            None
        },
        _ => None,
    }
}

/// `o` broadcasts on channel `prefix` + `symbol` the depth (20 levels) of `book`.
pub open spec fn is_depth_broadcast(o: Outgoing, symbol: Seq<char>, book: OrderBook) -> bool {
    o matches Outgoing::Publish { channel: c, data: PublishData::Depth(d) } && c@ == "orderbook:"@
        + symbol && d.bids@ == depth_rows(side_view(book.bids@), Side::Buy, 20) && d.asks@
        == depth_rows(side_view(book.asks@), Side::Sell, 20)
}

/// What placing the order `taker` did: the book after matching, then a depth broadcast, a
/// trades broadcast when it traded, and the reply.
pub open spec fn placed(
    req: EngineRequest,
    taker: Order,
    b0: OrderBook,
    b1: OrderBook,
    o0: Seq<Outgoing>,
    o1: Seq<Outgoing>,
) -> bool {
    let w = match_walk(taker, b0);
    let symbol = req.payload.symbol.unwrap()@;
    let n = o0.len() as int;
    &&& b1.wf()
    &&& b1.trading_pair == b0.trading_pair
    &&& side_view(book_side(b1, opposite(taker.side))) == without_empty_levels(w.side)
    &&& side_view(book_side(b1, taker.side)) == own_side_after(b0, taker, w)
    &&& appended(o0, o1, if w.fills.len() > 0 { 3 } else { 2 })
    &&& is_depth_broadcast(o1[n], symbol, b1)
    &&& w.fills.len() > 0 ==> (o1[n + 1] matches Outgoing::Publish {
        channel: c,
        data: PublishData::Trades(ts),
    } && c@ == "trades:"@ + symbol && trades_match(ts@, w.fills, taker))
    &&& success_data(o1.last(), req) matches Some(
        ResponseData::OrderPlaced { order_id, status, filled, remaining, trades },
    ) && order_id@ == taker.id@ && status == final_status(taker, w.filled) && filled == w.filled
        && remaining == taker.quantity - w.filled && trades_match(trades@, w.fills, taker)
    &&& w.fills.len() > 0 ==> broadcast_trades(o1[n + 1]) == reply_trades(o1.last())
}

/// The trades a broadcast carries (none for any other message).
pub open spec fn broadcast_trades(o: Outgoing) -> Seq<Trade> {
    match o {
        Outgoing::Publish { data: PublishData::Trades(ts), .. } => ts@,
        _ => Seq::empty(),
    }
}

/// The trades an order-placed reply carries (none for any other message).
pub open spec fn reply_trades(o: Outgoing) -> Seq<Trade> {
    match o {
        Outgoing::Push { response: r, .. } => match r.data {
            Some(ResponseData::OrderPlaced { trades, .. }) => trades@,
            _ => Seq::empty(),
        },
        _ => Seq::empty(),
    }
}

/// What a place-order request does.
pub open spec fn place_order_outcome(
    req: EngineRequest,
    b0: OrderBook,
    b1: OrderBook,
    o0: Seq<Outgoing>,
    o1: Seq<Outgoing>,
) -> bool {
    match place_order_error(req.payload) {
        Some(msg) => {
            &&& b1 == b0
            &&& appended(o0, o1, 1)
            &&& is_error_reply(o1.last(), req.response_queue@, req.correlation_id@, msg)
        },
        None => exists|taker: Order|
            #![trigger order_described(taker, req.payload)]
            order_described(taker, req.payload) && placed(req, taker, b0, b1, o0, o1),
    }
}

/// What a cancel-order request does.
pub open spec fn cancel_order_outcome(
    req: EngineRequest,
    b0: OrderBook,
    b1: OrderBook,
    o0: Seq<Outgoing>,
    o1: Seq<Outgoing>,
) -> bool {
    &&& appended(o0, o1, 1)
    &&& match req.payload.order_id {
        None => {
            &&& b1 == b0
            &&& is_error_reply(o1.last(), req.response_queue@, req.correlation_id@, "missing orderId"@)
        },
        Some(id) => exists|r: Option<Order>|
            #![trigger cancel_outcome(b0, b1, id@, r)]
            {
                &&& cancel_outcome(b0, b1, id@, r)
                &&& b1.wf()
                &&& match r {
                    None => is_error_reply(
                        o1.last(),
                        req.response_queue@,
                        req.correlation_id@,
                        "order not found"@,
                    ),
                    Some(o) => success_data(o1.last(), req) matches Some(
                        ResponseData::OrderCancelled { order_id },
                    ) && order_id@ == o.id@,
                }
            },
    }
}

/// What a depth request does: a snapshot of the levels asked for (20 by default).
pub open spec fn depth_outcome(
    req: EngineRequest,
    b0: OrderBook,
    b1: OrderBook,
    o0: Seq<Outgoing>,
    o1: Seq<Outgoing>,
) -> bool {
    let levels: nat = match req.payload.levels {
        Some(l) => l as nat,
        None => 20,
    };
    &&& b1 == b0
    &&& appended(o0, o1, 1)
    &&& success_data(o1.last(), req) matches Some(ResponseData::Depth(d)) && d.bids@
        == depth_rows(side_view(b0.bids@), Side::Buy, levels) && d.asks@ == depth_rows(
        side_view(b0.asks@),
        Side::Sell,
        levels,
    )
}

/// What a ticker request does: the best bid, the best ask, and the ask less the bid when
/// there are both.
pub open spec fn ticker_outcome(
    req: EngineRequest,
    b0: OrderBook,
    b1: OrderBook,
    o0: Seq<Outgoing>,
    o1: Seq<Outgoing>,
) -> bool {
    &&& b1 == b0
    &&& appended(o0, o1, 1)
    &&& success_data(o1.last(), req) matches Some(
        ResponseData::Ticker { best_bid, best_ask, spread },
    ) && best_bid == highest(b0.bids@.dom()) && best_ask == lowest(b0.asks@.dom()) && spread
        == (match (best_bid, best_ask) {
        (Some(bid), Some(ask)) => Some((ask - bid) as i128),
        _ => None,
    })
}

/// What any request does, by its kind; an unknown kind is answered with an error.
pub open spec fn request_outcome(
    req: EngineRequest,
    b0: OrderBook,
    b1: OrderBook,
    o0: Seq<Outgoing>,
    o1: Seq<Outgoing>,
) -> bool {
    if req.kind@ == "place_order"@ {
        place_order_outcome(req, b0, b1, o0, o1)
    } else if req.kind@ == "cancel_order"@ {
        cancel_order_outcome(req, b0, b1, o0, o1)
    } else if req.kind@ == "get_depth"@ {
        depth_outcome(req, b0, b1, o0, o1)
    } else if req.kind@ == "get_ticker"@ {
        ticker_outcome(req, b0, b1, o0, o1)
    } else {
        &&& b1 == b0
        &&& appended(o0, o1, 1)
        &&& is_error_reply(
            o1.last(),
            req.response_queue@,
            req.correlation_id@,
            "unknown command: "@ + req.kind@,
        )
    }
}

/// Handles one request against the book of its pair, queueing the replies on `redis`.
pub fn handle_request(request: EngineRequest, orderbook: &mut OrderBook, redis: &mut RedisClient)
    requires
        old(orderbook).wf(),
    ensures
        final(orderbook).wf(),
        final(redis).redis_url == old(redis).redis_url,
        request_outcome(request, *old(orderbook), *final(orderbook), old(redis).outbox@, final(redis).outbox@),
{
    if str_eq(request.kind.as_str(), "place_order") {
        handle_place_order(request, orderbook, redis)
    } else if str_eq(request.kind.as_str(), "cancel_order") {
        handle_cancel_order(request, orderbook, redis)
    } else if str_eq(request.kind.as_str(), "get_depth") {
        handle_get_depth(request, orderbook, redis)
    } else if str_eq(request.kind.as_str(), "get_ticker") {
        handle_get_ticker(request, orderbook, redis)
    } else {
        let msg = String::from_str("unknown command: ").concat(request.kind.as_str());
        redis.send_error(request.correlation_id.as_str(), request.response_queue.as_str(), msg.as_str());
    }
}

fn handle_place_order(request: EngineRequest, orderbook: &mut OrderBook, redis: &mut RedisClient)
    requires
        old(orderbook).wf(),
    ensures
        final(orderbook).wf(),
        final(redis).redis_url == old(redis).redis_url,
        place_order_outcome(request, *old(orderbook), *final(orderbook), old(redis).outbox@, final(redis).outbox@),
{
    let cid = request.correlation_id.as_str();
    let queue = request.response_queue.as_str();
    let payload = &request.payload;
    let user_id = match &payload.user_id {
        Some(v) => v.clone(),
        None => {
            redis.send_error(cid, queue, "missing userId");
            return;
        },
    };
    let symbol = match &payload.symbol {
        Some(v) => v.clone(),
        None => {
            redis.send_error(cid, queue, "missing symbol");
            return;
        },
    };
    let side = match &payload.side {
        Some(v) => if str_eq(v.as_str(), "buy") {
            Side::Buy
        } else if str_eq(v.as_str(), "sell") {
            Side::Sell
        } else {
            redis.send_error(cid, queue, "invalid side");
            return;
        },
        None => {
            redis.send_error(cid, queue, "invalid side");
            return;
        },
    };
    let order_type = match &payload.order_type {
        Some(v) => if str_eq(v.as_str(), "limit") {
            OrderType::Limit
        } else if str_eq(v.as_str(), "market") {
            OrderType::Market
        } else {
            redis.send_error(cid, queue, "invalid orderType");
            return;
        },
        None => {
            redis.send_error(cid, queue, "invalid orderType");
            return;
        },
    };
    let price = match payload.price {
        Some(p) => p,
        None => 0,
    };
    let quantity = match payload.quantity {
        Some(q) => q,
        None => {
            redis.send_error(cid, queue, "missing quantity");
            return;
        },
    };
    let trading_pair = match parse_trading_pair(symbol.as_str()) {
        Some(p) => p,
        None => {
            redis.send_error(cid, queue, "invalid symbol");
            return;
        },
    };
    let mut order = Order::new(user_id, trading_pair, side, order_type, price, quantity);
    let ghost taker = order;
    let ghost b0 = *orderbook;
    let ghost o0 = redis.outbox@;
    let trades = Matcher::process(&mut order, orderbook);
    let depth = orderbook.get_depth(DEFAULT_DEPTH_LEVELS);
    let book_channel = String::from_str("orderbook:").concat(symbol.as_str());
    redis.publish(book_channel.as_str(), PublishData::Depth(depth));
    let ghost o_depth = redis.outbox@;
    if trades.len() > 0 {
        let trades_channel = String::from_str("trades:").concat(symbol.as_str());
        redis.publish(trades_channel.as_str(), PublishData::Trades(copy_trades(&trades)));
    }
    let ghost o_trades = redis.outbox@;
    let remaining = order.remaining();
    redis.send_success(
        cid,
        queue,
        ResponseData::OrderPlaced {
            order_id: order.id.clone(),
            status: order.status,
            filled: order.filled,
            remaining,
            trades,
        },
    );
    proof {
        let n = o0.len() as int;
        assert(redis.outbox@.take(o_depth.len() as int) =~= o_depth);
        assert(redis.outbox@.take(o_trades.len() as int) =~= o_trades);
        assert(redis.outbox@[n] == o_depth[n]);
        if trades@.len() > 0 {
            assert(redis.outbox@[n + 1] == o_trades[n + 1]);
        }
        assert(redis.outbox@.take(n) =~= o0);
        assert(order_described(taker, request.payload));
        let w = match_walk(taker, b0);
        lemma_match_walk_bounds(taker, b0);
        let symbol = request.payload.symbol.unwrap()@;
        assert(orderbook.wf());
        assert(side_view(book_side(*orderbook, opposite(taker.side))) == without_empty_levels(w.side));
        assert(side_view(book_side(*orderbook, taker.side)) == own_side_after(b0, taker, w));
        assert(appended(o0, redis.outbox@, if w.fills.len() > 0 { 3 } else { 2 }));
        assert(is_depth_broadcast(redis.outbox@[n], symbol, *orderbook));
        assert(success_data(redis.outbox@.last(), request) is Some);
        assert(placed(request, taker, b0, *orderbook, o0, redis.outbox@));
    }
}

fn handle_cancel_order(request: EngineRequest, orderbook: &mut OrderBook, redis: &mut RedisClient)
    requires
        old(orderbook).wf(),
    ensures
        final(orderbook).wf(),
        final(redis).redis_url == old(redis).redis_url,
        cancel_order_outcome(request, *old(orderbook), *final(orderbook), old(redis).outbox@, final(redis).outbox@),
{
    let cid = request.correlation_id.as_str();
    let queue = request.response_queue.as_str();
    let order_id = match &request.payload.order_id {
        Some(v) => v.as_str(),
        None => {
            redis.send_error(cid, queue, "missing orderId");
            return;
        },
    };
    let ghost b0 = *orderbook;
    let r = orderbook.cancel_order(order_id);
    let ghost rr = r;
    match r {
        Some(order) => {
            redis.send_success(cid, queue, ResponseData::OrderCancelled { order_id: order.id });
        },
        None => {
            redis.send_error(cid, queue, "order not found");
        },
    }
    proof {
        assert(cancel_outcome(b0, *orderbook, request.payload.order_id.unwrap()@, rr));
    }
}

fn handle_get_depth(request: EngineRequest, orderbook: &mut OrderBook, redis: &mut RedisClient)
    requires
        old(orderbook).wf(),
    ensures
        final(orderbook).wf(),
        final(redis).redis_url == old(redis).redis_url,
        depth_outcome(request, *old(orderbook), *final(orderbook), old(redis).outbox@, final(redis).outbox@),
{
    let levels = match request.payload.levels {
        Some(l) => l,
        None => DEFAULT_DEPTH_LEVELS,
    };
    let depth = orderbook.get_depth(levels);
    redis.send_success(
        request.correlation_id.as_str(),
        request.response_queue.as_str(),
        ResponseData::Depth(depth),
    );
}

fn handle_get_ticker(request: EngineRequest, orderbook: &mut OrderBook, redis: &mut RedisClient)
    requires
        old(orderbook).wf(),
    ensures
        final(orderbook).wf(),
        final(redis).redis_url == old(redis).redis_url,
        ticker_outcome(request, *old(orderbook), *final(orderbook), old(redis).outbox@, final(redis).outbox@),
{
    let best_bid = orderbook.best_bid();
    let best_ask = orderbook.best_ask();
    let spread = match (best_bid, best_ask) {
        (Some(bid), Some(ask)) => Some(ask as i128 - bid as i128),
        _ => None,
    };
    redis.send_success(
        request.correlation_id.as_str(),
        request.response_queue.as_str(),
        ResponseData::Ticker { best_bid, best_ask, spread },
    );
}

/// The trading pair quoted under `symbol`, if the engine runs it.
pub fn parse_trading_pair(symbol: &str) -> (r: Option<TradingPair>)
    ensures
        r == pair_of(symbol@),
{
    if str_eq(symbol, "BTC_USDT") {
        Some(TradingPair::BTC_USDT)
    } else if str_eq(symbol, "ETH_USDT") {
        Some(TradingPair::ETH_USDT)
    } else if str_eq(symbol, "SOL_USDT") {
        Some(TradingPair::SOL_USDT)
    } else {
        None
    }
}

} // verus!
