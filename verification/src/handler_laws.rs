//! What the engine's answers to requests must satisfy, stated over the book before and after
//! and the messages sent, whatever the request.
use vstd::prelude::*;
use vstd::string::*;

use crate::handlers::{order_described, place_order_error, request_outcome, side_named, success_data};
use crate::keys::sorted_key_seq;
use crate::laws::lemma_sorted_keys_exist;
use crate::laws::{
    all_have_left, fills_for, fills_total, ids_unique, lemma_each_maker_fills_by_its_trades, lemma_match_conserves_quantity,
    maker_outcome,
};
use crate::matcher::{lemma_match_walk_bounds, match_walk, opposite, trades_match, without_empty_levels, Fill};
use crate::models::{Order, OrderStatus, OrderType, ResponseData, Side, Trade};
use crate::orderbook::{
    book_side, depth_rows, first_with_id, level_total, orders_at, priority_keys, side_holds_id, side_view, side_wf,
    OrderBook, PriceLevel,
};
use crate::redis::{is_error_reply, Outgoing};

verus! {

broadcast use vstd::std_specs::btree::group_btree_axioms;

/// The request names, and the order-type names, differ from one another in length.
proof fn lemma_kinds_differ()
    ensures
        "place_order"@ != "cancel_order"@,
        "place_order"@ != "get_depth"@,
        "place_order"@ != "get_ticker"@,
        "cancel_order"@ != "get_depth"@,
        "cancel_order"@ != "get_ticker"@,
        "get_depth"@ != "get_ticker"@,
        "limit"@ != "market"@,
{
    reveal_strlit("place_order");
    reveal_strlit("cancel_order");
    reveal_strlit("get_depth");
    reveal_strlit("get_ticker");
    reveal_strlit("limit");
    reveal_strlit("market");
    assert("place_order"@.len() == 11);
    assert("cancel_order"@.len() == 12);
    assert("get_depth"@.len() == 9);
    assert("get_ticker"@.len() == 10);
    assert("limit"@.len() == 5);
    assert("market"@.len() == 6);
}

/// What a place-order reply says was filled (none when it is no such reply).
pub open spec fn reply_filled(out: Outgoing, req: crate::models::EngineRequest) -> nat {
    match success_data(out, req) {
        Some(ResponseData::OrderPlaced { filled, .. }) => filled as nat,
        _ => 0,
    }
}

/// A place-order request whose limit order does not fill completely leaves that order at the
/// back of the level at its price on its side: the orders that rested there keep their
/// places, in order, ahead of it, and every other level of that side is as it was. A market
/// order, or one filled completely, leaves its own side as it was.
pub proof fn law_unfilled_limit_order_joins_back_of_its_level(
    req: crate::models::EngineRequest,
    b0: OrderBook,
    b1: OrderBook,
    o0: Seq<Outgoing>,
    o1: Seq<Outgoing>,
)
    requires
        b0.wf(),
        req.kind@ == "place_order"@,
        request_outcome(req, b0, b1, o0, o1),
        place_order_error(req.payload) is None,
    ensures
        exists|t: Order|
            {
                let f = reply_filled(o1.last(), req);
                &&& #[trigger] order_described(t, req.payload)
                &&& f <= t.quantity
                &&& success_data(o1.last(), req) matches Some(
                    ResponseData::OrderPlaced { order_id, filled, .. },
                ) && order_id@ == t.id@ && filled == f
                &&& t.order_type == OrderType::Limit && f < t.quantity ==> {
                    let before = side_view(book_side(b0, t.side));
                    let after = side_view(book_side(b1, t.side));
                    let old_level = orders_at(before, t.price);
                    let new_level = orders_at(after, t.price);
                    &&& new_level.len() == old_level.len() + 1
                    &&& forall|i: int| 0 <= i < old_level.len() ==> #[trigger] new_level[i] == old_level[i]
                    &&& new_level.last() == Order { filled: f as u64, ..t }
                    &&& forall|k: u64| k != t.price ==> #[trigger] orders_at(after, k) == orders_at(before, k)
                }
                &&& !(t.order_type == OrderType::Limit && f < t.quantity) ==> side_view(book_side(b1, t.side))
                    == side_view(book_side(b0, t.side))
            },
{
    let t = choose|t: Order| #[trigger] order_described(t, req.payload) && crate::handlers::placed(req, t, b0, b1, o0, o1);
    lemma_match_walk_bounds(t, b0);
    let f = match_walk(t, b0).filled;
    let before = side_view(book_side(b0, t.side));
    let after = side_view(book_side(b1, t.side));
    if t.order_type == OrderType::Limit && f < t.quantity {
        let old_level = orders_at(before, t.price);
        let new_level = orders_at(after, t.price);
        assert(after.contains_key(t.price));
        assert(new_level == old_level.push(Order { filled: f as u64, ..t }));
        assert forall|k: u64| k != t.price implies #[trigger] orders_at(after, k) == orders_at(before, k) by {}
    }
    assert(order_described(t, req.payload) && f <= t.quantity);
}

/// The status a place-order reply carries matches what was filled: `Filled` exactly when
/// nothing is left, `PartiallyFilled` exactly when some but not all was filled, and, when
/// nothing was filled, `Open` for a limit order and `Cancelled` for a market order. What is
/// filled is what the reported trades add up to, and with what is left it makes the quantity
/// asked for.
pub proof fn law_place_order_reply_status(
    req: crate::models::EngineRequest,
    b0: OrderBook,
    b1: OrderBook,
    o0: Seq<Outgoing>,
    o1: Seq<Outgoing>,
)
    requires
        b0.wf(),
        req.kind@ == "place_order"@,
        request_outcome(req, b0, b1, o0, o1),
        place_order_error(req.payload) is None,
    ensures
        success_data(o1.last(), req) matches Some(
            ResponseData::OrderPlaced { status, filled, remaining, trades, .. },
        ) && filled == trades_total(trades@) && filled + remaining == req.payload.quantity.unwrap() && (status == OrderStatus::Filled
            <==> remaining == 0) && (status == OrderStatus::PartiallyFilled <==> (filled > 0
            && remaining > 0)) && (status == OrderStatus::Open <==> (filled == 0 && remaining > 0
            && req.payload.order_type.unwrap()@ == "limit"@)) && (status == OrderStatus::Cancelled
            <==> (filled == 0 && remaining > 0 && req.payload.order_type.unwrap()@ == "market"@)),
{
    lemma_kinds_differ();
    let t = choose|t: Order| #[trigger] order_described(t, req.payload) && crate::handlers::placed(req, t, b0, b1, o0, o1);
    lemma_match_walk_bounds(t, b0);
    lemma_match_conserves_quantity(t, b0);
    let w = match_walk(t, b0);
    match success_data(o1.last(), req) {
        Some(ResponseData::OrderPlaced { trades, .. }) => {
            lemma_trades_total_matches(trades@, w.fills, t);
        },
        _ => {},
    }
}

/// The quantities traded in a sequence of trades.
pub open spec fn trades_total(ts: Seq<Trade>) -> nat
    decreases ts.len(),
{
    if ts.len() == 0 {
        0
    } else {
        trades_total(ts.drop_last()) + ts.last().quantity as nat
    }
}

proof fn lemma_trades_total_matches(ts: Seq<Trade>, fs: Seq<Fill>, taker: Order)
    requires
        trades_match(ts, fs, taker),
    ensures
        trades_total(ts) == fills_total(fs),
    decreases ts.len(),
{
    if ts.len() > 0 {
        let n = ts.len() - 1;
        assert(trades_match(ts.drop_last(), fs.drop_last(), taker)) by {
            assert forall|i: int| 0 <= i < fs.drop_last().len() implies {
                &&& (#[trigger] ts.drop_last()[i]).maker_order_id == fs.drop_last()[i].maker_order_id
                &&& ts.drop_last()[i].price == fs.drop_last()[i].price
                &&& ts.drop_last()[i].quantity == fs.drop_last()[i].quantity
                &&& ts.drop_last()[i].taker_order_id == taker.id
                &&& ts.drop_last()[i].trading_pair == taker.trading_pair
            } by {
                assert(ts[i].quantity == fs[i].quantity);
            }
        }
        lemma_trades_total_matches(ts.drop_last(), fs.drop_last(), taker);
        assert(ts[n].quantity == fs[n].quantity);
    }
}

/// The quantity the trades made against the resting order with identifier `id`.
pub open spec fn trades_for(ts: Seq<Trade>, id: String) -> nat
    decreases ts.len(),
{
    if ts.len() == 0 {
        0
    } else {
        trades_for(ts.drop_last(), id) + if ts.last().maker_order_id == id {
            ts.last().quantity as nat
        } else {
            0
        }
    }
}

proof fn lemma_trades_for_matches(ts: Seq<Trade>, fs: Seq<Fill>, taker: Order, id: String)
    requires
        trades_match(ts, fs, taker),
    ensures
        trades_for(ts, id) == fills_for(fs, id),
    decreases ts.len(),
{
    if ts.len() > 0 {
        let n = ts.len() - 1;
        assert(trades_match(ts.drop_last(), fs.drop_last(), taker)) by {
            assert forall|i: int| 0 <= i < fs.drop_last().len() implies {
                &&& (#[trigger] ts.drop_last()[i]).maker_order_id == fs.drop_last()[i].maker_order_id
                &&& ts.drop_last()[i].price == fs.drop_last()[i].price
                &&& ts.drop_last()[i].quantity == fs.drop_last()[i].quantity
                &&& ts.drop_last()[i].taker_order_id == taker.id
                &&& ts.drop_last()[i].trading_pair == taker.trading_pair
            } by {
                assert(ts[i].quantity == fs[i].quantity);
            }
        }
        lemma_trades_for_matches(ts.drop_last(), fs.drop_last(), taker, id);
        assert(ts[n].quantity == fs[n].quantity && ts[n].maker_order_id == fs[n].maker_order_id);
    }
}

/// A place-order request, on a book whose resting orders on the side it trades against have
/// distinct ids and something left each, treats each such order by the trades its reply
/// reports against that order's id: their quantities `s` fill it no further than its
/// quantity; with `s` 0 it is still at its level, untouched; with `s` leaving it something it
/// is there with `s` more filled; and with `s` filling it, it has left the book.
pub proof fn law_place_order_fills_makers_by_reported_trades(
    req: crate::models::EngineRequest,
    b0: OrderBook,
    b1: OrderBook,
    o0: Seq<Outgoing>,
    o1: Seq<Outgoing>,
    side: Side,
)
    requires
        b0.wf(),
        req.kind@ == "place_order"@,
        request_outcome(req, b0, b1, o0, o1),
        place_order_error(req.payload) is None,
        side_named(req.payload.side.unwrap()@) == Some(opposite(side)),
        ids_unique(side_view(book_side(b0, side))),
        all_have_left(side_view(book_side(b0, side))),
    ensures
        success_data(o1.last(), req) matches Some(ResponseData::OrderPlaced { trades, .. }) && ({
            let v = side_view(book_side(b0, side));
            let after = side_view(book_side(b1, side));
            forall|k: u64, j: int|
                #![trigger v[k][j]]
                v.contains_key(k) && 0 <= j < v[k].len() ==> maker_outcome(
                    v[k][j],
                    trades_for(trades@, v[k][j].id),
                    orders_at(after, k),
                )
        }),
{
    lemma_kinds_differ();
    let t = choose|t: Order| #[trigger] order_described(t, req.payload) && crate::handlers::placed(req, t, b0, b1, o0, o1);
    lemma_match_walk_bounds(t, b0);
    assert(opposite(t.side) == side) by {
        reveal_strlit("buy");
        reveal_strlit("sell");
        assert("buy"@.len() == 3 && "sell"@.len() == 4);
    }
    lemma_each_maker_fills_by_its_trades(t, b0);
    let w = match_walk(t, b0);
    let v = side_view(book_side(b0, side));
    let after = side_view(book_side(b1, side));
    assert(after == without_empty_levels(w.side));
    match success_data(o1.last(), req) {
        Some(ResponseData::OrderPlaced { trades, .. }) => {
            assert forall|k: u64, j: int|
                #![trigger v[k][j]]
                v.contains_key(k) && 0 <= j < v[k].len() implies maker_outcome(
                    v[k][j],
                    trades_for(trades@, v[k][j].id),
                    orders_at(after, k),
                ) by {
                lemma_trades_for_matches(trades@, w.fills, t, v[k][j].id);
            }
        },
        _ => {},
    }
}

/// A cancel request for an id finds it on either side: when some bid or some ask has that id,
/// the first such order (bids searched first, lowest price first, oldest first) is taken out
/// of its level and the reply is a success naming that id; "order not found" comes exactly
/// when no bid and no ask has it.
pub proof fn law_cancel_finds_either_side(
    req: crate::models::EngineRequest,
    b0: OrderBook,
    b1: OrderBook,
    o0: Seq<Outgoing>,
    o1: Seq<Outgoing>,
)
    requires
        b0.wf(),
        req.kind@ == "cancel_order"@,
        request_outcome(req, b0, b1, o0, o1),
        req.payload.order_id is Some,
    ensures
        ({
            let id = req.payload.order_id.unwrap()@;
            let bids0 = side_view(b0.bids@);
            let asks0 = side_view(b0.asks@);
            let bids1 = side_view(b1.bids@);
            let asks1 = side_view(b1.asks@);
            &&& is_error_reply(o1.last(), req.response_queue@, req.correlation_id@, "order not found"@)
                <==> !(side_holds_id(bids0, id) || side_holds_id(asks0, id))
            &&& (side_holds_id(bids0, id) || side_holds_id(asks0, id)) ==> (success_data(o1.last(), req)
                matches Some(ResponseData::OrderCancelled { order_id }) && order_id@ == id)
            &&& side_holds_id(bids0, id) ==> exists|k: u64, i: int|
                first_with_id(bids0, id, k, i) && bids1 == bids0.insert(k, #[trigger] bids0[k].remove(i))
                    && b1.asks@ == b0.asks@
            &&& !side_holds_id(bids0, id) && side_holds_id(asks0, id) ==> exists|k: u64, i: int|
                first_with_id(asks0, id, k, i) && asks1 == asks0.insert(k, #[trigger] asks0[k].remove(i))
                    && b1.bids@ == b0.bids@
            &&& !(side_holds_id(bids0, id) || side_holds_id(asks0, id)) ==> b1.bids@ == b0.bids@
                && b1.asks@ == b0.asks@
        }),
{
    lemma_kinds_differ();
    let id = req.payload.order_id.unwrap()@;
    let r = choose|r: Option<Order>|
        #[trigger] crate::orderbook::cancel_outcome(b0, b1, id, r) && b1.wf() && match r {
            None => is_error_reply(o1.last(), req.response_queue@, req.correlation_id@, "order not found"@),
            Some(o) => success_data(o1.last(), req) matches Some(
                ResponseData::OrderCancelled { order_id },
            ) && order_id@ == o.id@,
        };
    match r {
        None => {},
        Some(o) => {
            assert(!is_error_reply(o1.last(), req.response_queue@, req.correlation_id@, "order not found"@));
            if side_holds_id(side_view(b0.bids@), id) {
                if !crate::orderbook::cancelled_from(side_view(b0.bids@), side_view(b1.bids@), id, o) {
                    assert(false);
                }
            } else {
                let (k, i) = choose|k: u64, i: int| {
                    &&& first_with_id(side_view(b0.asks@), id, k, i)
                    &&& o == side_view(b0.asks@)[k][i]
                    &&& side_view(b1.asks@) == side_view(b0.asks@).insert(k, side_view(b0.asks@)[k].remove(i))
                };
                assert(side_holds_id(side_view(b0.asks@), id)) by {
                    assert(crate::orderbook::holds_id(side_view(b0.asks@)[k], id)) by {
                        assert(side_view(b0.asks@)[k][i].id@ == id);
                    }
                }
            }
        },
    }
}

/// The ticker reports the highest bid price and the lowest ask price of the book (none when
/// that side is empty), and, when both exist, the ask less the bid as the spread.
pub proof fn law_ticker_reports_best_prices(
    req: crate::models::EngineRequest,
    b0: OrderBook,
    b1: OrderBook,
    o0: Seq<Outgoing>,
    o1: Seq<Outgoing>,
)
    requires
        b0.wf(),
        req.kind@ == "get_ticker"@,
        request_outcome(req, b0, b1, o0, o1),
    ensures
        b1 == b0,
        success_data(o1.last(), req) matches Some(
            ResponseData::Ticker { best_bid, best_ask, spread },
        ) && (best_bid is None <==> b0.bids@.dom().is_empty()) && (best_ask is None
            <==> b0.asks@.dom().is_empty()) && (best_bid matches Some(p) ==> b0.bids@.contains_key(p)
            && forall|k: u64| #[trigger] b0.bids@.contains_key(k) ==> k <= p) && (best_ask matches Some(
            p,
        ) ==> b0.asks@.contains_key(p) && forall|k: u64| #[trigger] b0.asks@.contains_key(k) ==> p <= k)
            && (spread is Some <==> (best_bid is Some && best_ask is Some)) && (spread matches Some(
            s,
        ) ==> s == best_ask.unwrap() - best_bid.unwrap()),
{
    lemma_kinds_differ();
    let bd = b0.bids@.dom();
    let ad = b0.asks@.dom();
    lemma_sorted_keys_exist(bd);
    lemma_sorted_keys_exist(ad);
    let bs = sorted_key_seq(bd);
    let asq = sorted_key_seq(ad);
    if !bd.is_empty() {
        if bs.len() == 0 {
            assert(bd =~= Set::<u64>::empty()) by {
                assert forall|k: u64| !bd.contains(k) by {
                    if bd.contains(k) {
                        assert(bs.to_set().contains(k));
                    }
                }
            }
        }
        let p = bs.last();
        assert(bs.to_set().contains(p));
        assert forall|k: u64| #[trigger] b0.bids@.contains_key(k) implies k <= p by {
            assert(bs.to_set().contains(k));
            let a = choose|a: int| 0 <= a < bs.len() && bs[a] == k;
            if a < bs.len() - 1 {
                assert(bs[a] < bs[bs.len() - 1]);
            }
        }
    }
    if !ad.is_empty() {
        if asq.len() == 0 {
            assert(ad =~= Set::<u64>::empty()) by {
                assert forall|k: u64| !ad.contains(k) by {
                    if ad.contains(k) {
                        assert(asq.to_set().contains(k));
                    }
                }
            }
        }
        let p = asq[0];
        assert(asq.to_set().contains(p));
        assert forall|k: u64| #[trigger] b0.asks@.contains_key(k) implies p <= k by {
            assert(asq.to_set().contains(k));
            let a = choose|a: int| 0 <= a < asq.len() && asq[a] == k;
            if a > 0 {
                assert(asq[0] < asq[a]);
            }
        }
    }
}

/// The quantities asked for in a sequence of orders.
pub open spec fn quantity_sum(s: Seq<Order>) -> nat
    decreases s.len(),
{
    if s.len() == 0 {
        0
    } else {
        quantity_sum(s.drop_last()) + s.last().quantity as nat
    }
}

/// The quantities filled in a sequence of orders.
pub open spec fn filled_sum(s: Seq<Order>) -> nat
    decreases s.len(),
{
    if s.len() == 0 {
        0
    } else {
        filled_sum(s.drop_last()) + s.last().filled as nat
    }
}

/// What is left to fill at a level is what its orders asked for less what they filled,
/// whatever the status of each.
pub proof fn law_level_total_is_asked_less_filled(s: Seq<Order>)
    requires
        forall|i: int| 0 <= i < s.len() ==> (#[trigger] s[i]).filled <= s[i].quantity,
    ensures
        level_total(s) + filled_sum(s) == quantity_sum(s),
    decreases s.len(),
{
    if s.len() > 0 {
        let d = s.drop_last();
        assert forall|i: int| 0 <= i < d.len() implies (#[trigger] d[i]).filled <= d[i].quantity by {
            assert(d[i] == s[i]);
        }
        law_level_total_is_asked_less_filled(d);
        assert(s[s.len() - 1].filled <= s[s.len() - 1].quantity);
    }
}

/// Price `a` comes before price `b` on `side`: a higher bid, a lower ask.
pub open spec fn better_price(side: Side, a: u64, b: u64) -> bool {
    match side {
        Side::Buy => a > b,
        Side::Sell => a < b,
    }
}

/// `rows` shows the best `n` levels of the side `m` (all of them when it has fewer), best
/// price first, each price once, each with what its orders asked for less what they filled;
/// every level left out has a worse price than every level shown.
pub open spec fn rows_best_first(rows: Seq<(u64, u128)>, m: Map<u64, PriceLevel>, side: Side, n: nat) -> bool {
    &&& rows.len() == if n < m.dom().len() { n } else { m.dom().len() }
    &&& forall|i: int|
        0 <= i < rows.len() ==> {
            &&& m.contains_key((#[trigger] rows[i]).0)
            &&& rows[i].1 == (quantity_sum(m[rows[i].0].orders@) - filled_sum(m[rows[i].0].orders@)) as u128
        }
    &&& forall|i: int, j: int| 0 <= i < j < rows.len() ==> better_price(side, (#[trigger] rows[i]).0, (#[trigger] rows[j]).0)
    &&& forall|k: u64|
        #[trigger] m.contains_key(k) && rows.len() > 0 && !(exists|i: int| 0 <= i < rows.len() && rows[i].0 == k)
            ==> better_price(side, rows.last().0, k)
}

/// A depth snapshot of `levels` levels shows, on each side, the best levels of the book, best
/// price first, each with the quantity its orders have left to fill, whatever their status.
pub proof fn law_depth_rows_best_first(book: OrderBook, levels: nat)
    requires
        book.wf(),
    ensures
        rows_best_first(depth_rows(side_view(book.bids@), Side::Buy, levels), book.bids@, Side::Buy, levels),
        rows_best_first(depth_rows(side_view(book.asks@), Side::Sell, levels), book.asks@, Side::Sell, levels),
{
    lemma_depth_side(book.bids@, Side::Buy, levels);
    lemma_depth_side(book.asks@, Side::Sell, levels);
}

/// A depth request leaves the book as it was and answers with the best levels of each side,
/// best price first, as many as asked for (20 when not said).
pub proof fn law_depth_reply_shows_best_levels(
    req: crate::models::EngineRequest,
    b0: OrderBook,
    b1: OrderBook,
    o0: Seq<Outgoing>,
    o1: Seq<Outgoing>,
)
    requires
        b0.wf(),
        req.kind@ == "get_depth"@,
        request_outcome(req, b0, b1, o0, o1),
    ensures
        b1 == b0,
        success_data(o1.last(), req) matches Some(ResponseData::Depth(d)) && ({
            let levels: nat = match req.payload.levels {
                Some(l) => l as nat,
                None => 20,
            };
            &&& rows_best_first(d.bids@, b0.bids@, Side::Buy, levels)
            &&& rows_best_first(d.asks@, b0.asks@, Side::Sell, levels)
        }),
{
    lemma_kinds_differ();
    let levels: nat = match req.payload.levels {
        Some(l) => l as nat,
        None => 20,
    };
    law_depth_rows_best_first(b0, levels);
}

proof fn lemma_depth_side(m: Map<u64, PriceLevel>, side: Side, levels: nat)
    requires
        side_wf(m, side),
        m.dom().finite(),
    ensures
        rows_best_first(depth_rows(side_view(m), side, levels), m, side, levels),
{
    let v = side_view(m);
    let d = v.dom();
    assert(d == m.dom()) by {
        assert(d =~= m.dom());
    }
    lemma_sorted_keys_exist(d);
    let s = sorted_key_seq(d);
    assert(s.no_duplicates()) by {
        assert forall|a: int, b: int| 0 <= a < s.len() && 0 <= b < s.len() && a != b implies s[a] != s[b] by {
            if a < b {
                assert(s[a] < s[b]);
            } else {
                assert(s[b] < s[a]);
            }
        }
    }
    s.unique_seq_to_set();
    let ks = priority_keys(d, side);
    let len = s.len() as int;
    assert forall|i: int| 0 <= i < ks.len() implies #[trigger] ks[i] == if side == Side::Buy {
        s[len - 1 - i]
    } else {
        s[i]
    } by {}
    let rows = depth_rows(v, side, levels);
    let shown: int = if levels < ks.len() { levels as int } else { ks.len() as int };
    assert(rows.len() == shown);
    assert forall|i: int| 0 <= i < rows.len() implies #[trigger] rows[i] == (ks[i], level_total(v[ks[i]]) as u128) by {}
    assert forall|i: int| 0 <= i < rows.len() implies {
        &&& m.contains_key((#[trigger] rows[i]).0)
        &&& rows[i].1 == (quantity_sum(m[rows[i].0].orders@) - filled_sum(m[rows[i].0].orders@)) as u128
    } by {
        let k = ks[i];
        assert(s.to_set().contains(k));
        assert(m.contains_key(k));
        let o = m[k].orders@;
        assert forall|j: int| 0 <= j < o.len() implies (#[trigger] o[j]).filled <= o[j].quantity by {}
        law_level_total_is_asked_less_filled(o);
    }
    assert forall|i: int, j: int| 0 <= i < j < rows.len() implies better_price(side, (#[trigger] rows[i]).0, (#[trigger] rows[j]).0) by {
        if side == Side::Buy {
            assert(s[len - 1 - j] < s[len - 1 - i]);
        } else {
            assert(s[i] < s[j]);
        }
    }
    assert forall|k: u64|
        #[trigger] m.contains_key(k) && rows.len() > 0 && !(exists|i: int| 0 <= i < rows.len() && rows[i].0 == k)
            implies better_price(side, rows.last().0, k) by {
        assert(d.contains(k));
        assert(s.to_set().contains(k));
        let a = choose|a: int| 0 <= a < s.len() && s[a] == k;
        let p: int = if side == Side::Buy { len - 1 - a } else { a };
        assert(ks[p] == k);
        if p < shown {
            assert(rows[p].0 == k);
            assert(false);
        }
        assert(ks.len() == len);
        assert(rows[shown - 1].0 == ks[shown - 1]);
        if side == Side::Buy {
            assert(s[a] < s[len - 1 - (shown - 1)]);
        } else {
            assert(s[shown - 1] < s[a]);
        }
    }
}

} // verus!
