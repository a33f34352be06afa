//! Price-time priority matching of an incoming order against the book.
use std::collections::BTreeMap;
use vstd::prelude::*;

use crate::keys::{is_sorted_keys, sorted_keys};
use crate::models::{filled_of, order_wf, remaining_of, Order, OrderStatus, OrderType, Side, Trade};
use crate::orderbook::{
    book_side, orders_at, orders_wf_at, priority_keys, side_view, side_wf, view_wf, OrderBook,
    PriceLevel,
};

verus! {

broadcast use vstd::std_specs::btree::group_btree_axioms;

/// One fill of the incoming order against a resting one, at the resting order's price.
pub struct Fill {
    pub maker_order_id: String,
    pub price: u64,
    pub quantity: u64,
}

/// The side whose resting orders an order of `side` trades against.
pub open spec fn opposite(side: Side) -> Side {
    match side {
        Side::Buy => Side::Sell,
        Side::Sell => Side::Buy,
    }
}

/// A market order takes any price; a limit buy takes prices up to its limit, a limit sell
/// prices down to its limit.
pub open spec fn price_acceptable(taker: Order, price: u64) -> bool {
    match taker.order_type {
        OrderType::Market => true,
        OrderType::Limit => match taker.side {
            Side::Buy => price <= taker.price,
            Side::Sell => price >= taker.price,
        },
    }
}

pub open spec fn min_nat(a: nat, b: nat) -> nat {
    if a <= b {
        a
    } else {
        b
    }
}

/// A resting order after a fill of `q` against it.
pub open spec fn after_fill(m: Order, q: nat) -> Order {
    Order {
        filled: (m.filled + q) as u64,
        status: if m.filled + q >= m.quantity {
            OrderStatus::Filled
        } else {
            OrderStatus::PartiallyFilled
        },
        ..m
    }
}

/// The incoming order (with `filled` already filled) going down the queue of one level,
/// oldest first: each resting order in turn gets the smaller of what the two have left,
/// until the incoming order is filled. Gives what the incoming order has filled afterwards,
/// the orders left at the level (those the pass filled completely leave), and the fills.
pub open spec fn level_pass(quantity: nat, filled: nat, price: u64, makers: Seq<Order>) -> (
    nat,
    Seq<Order>,
    Seq<Fill>,
)
    decreases makers.len(),
{
    if makers.len() == 0 {
        (filled, Seq::empty(), Seq::empty())
    } else {
        let prev = level_pass(quantity, filled, price, makers.drop_last());
        let f = prev.0;
        let m = makers.last();
        if f >= quantity {
            (f, prev.1.push(m), prev.2)
        } else {
            let q = min_nat((quantity - f) as nat, remaining_of(m));
            let m2 = after_fill(m, q);
            (
                f + q,
                if filled_of(m2) {
                    prev.1
                } else {
                    prev.1.push(m2)
                },
                prev.2.push(Fill { maker_order_id: m.id, price, quantity: q as u64 }),
            )
        }
    }
}

/// The state of a walk of the incoming order over levels: what it has filled, the side of
/// the book as it now stands, the fills so far, and whether it met a price it does not take.
pub struct Walk {
    pub filled: nat,
    pub side: Map<u64, Seq<Order>>,
    pub fills: Seq<Fill>,
    pub stopped: bool,
}

/// The incoming order walking the levels at `keys` in turn. It stops at the first level
/// whose price it does not take, and once it is filled.
pub open spec fn walk(taker: Order, keys: Seq<u64>, v: Map<u64, Seq<Order>>) -> Walk
    decreases keys.len(),
{
    if keys.len() == 0 {
        Walk { filled: taker.filled as nat, side: v, fills: Seq::empty(), stopped: false }
    } else {
        let w = walk(taker, keys.drop_last(), v);
        let k = keys.last();
        if w.stopped || w.filled >= taker.quantity {
            w
        } else if !w.side.contains_key(k) {
            w
        } else if !price_acceptable(taker, k) {
            Walk { stopped: true, ..w }
        } else {
            let p = level_pass(taker.quantity as nat, w.filled, k, w.side[k]);
            Walk { filled: p.0, side: w.side.insert(k, p.1), fills: w.fills + p.2, stopped: false }
        }
    }
}

/// The side without its empty levels.
pub open spec fn without_empty_levels(v: Map<u64, Seq<Order>>) -> Map<u64, Seq<Order>> {
    Map::new(|k: u64| v.contains_key(k) && v[k].len() > 0, |k: u64| v[k])
}

/// Matching `taker` against the opposite side of `book`, best price first.
pub open spec fn match_walk(taker: Order, book: OrderBook) -> Walk {
    let opp = book_side(book, opposite(taker.side));
    walk(taker, priority_keys(opp.dom(), opposite(taker.side)), side_view(opp))
}

/// The trades are the fills, in order, made by `taker` in its pair.
pub open spec fn trades_match(trades: Seq<Trade>, fills: Seq<Fill>, taker: Order) -> bool {
    &&& trades.len() == fills.len()
    &&& forall|i: int|
        0 <= i < fills.len() ==> {
            &&& (#[trigger] trades[i]).maker_order_id == fills[i].maker_order_id
            &&& trades[i].price == fills[i].price
            &&& trades[i].quantity == fills[i].quantity
            &&& trades[i].taker_order_id == taker.id
            &&& trades[i].trading_pair == taker.trading_pair
        }
}

/// The incoming order with `f` filled.
pub open spec fn with_filled(o: Order, f: nat) -> Order {
    Order { filled: f as u64, ..o }
}

/// The status of an incoming limit order once matched.
pub open spec fn limit_status(o: Order, f: nat) -> OrderStatus {
    if f >= o.quantity {
        OrderStatus::Filled
    } else if f > 0 {
        OrderStatus::PartiallyFilled
    } else {
        OrderStatus::Open
    }
}

/// The status of an incoming market order once matched: what it could not fill is dropped.
pub open spec fn market_status(o: Order, f: nat) -> OrderStatus {
    if f >= o.quantity {
        OrderStatus::Filled
    } else if f > 0 {
        OrderStatus::PartiallyFilled
    } else {
        OrderStatus::Cancelled
    }
}

pub struct Matcher;

/// A limit order that is not filled by matching rests in the book.
pub open spec fn rests(taker: Order, w: Walk) -> bool {
    taker.order_type == OrderType::Limit && w.filled < taker.quantity
}

/// The status the incoming order ends with.
pub open spec fn final_status(taker: Order, f: nat) -> OrderStatus {
    match taker.order_type {
        OrderType::Limit => limit_status(taker, f),
        OrderType::Market => market_status(taker, f),
    }
}

/// The side of the book the incoming order rests on, after it was matched: with the order
/// (as it was handed in, with what it filled) at the back of its price level when it rests.
pub open spec fn own_side_after(book: OrderBook, taker: Order, w: Walk) -> Map<u64, Seq<Order>> {
    let own = side_view(book_side(book, taker.side));
    if rests(taker, w) {
        own.insert(taker.price, orders_at(own, taker.price).push(with_filled(taker, w.filled)))
    } else {
        own
    }
}

impl Matcher {
    /// Matches an incoming order against the book by price-time priority: a buy takes asks
    /// from the lowest price up, a sell takes bids from the highest price down, oldest order
    /// first within a price, each trade at the resting order's price. A limit order only
    /// takes prices within its limit and rests with what it could not fill; a market order
    /// takes any price and drops what it could not fill.
    pub fn process(order: &mut Order, orderbook: &mut OrderBook) -> (trades: Vec<Trade>)
        requires
            old(orderbook).wf(),
            order_wf(*old(order)),
        ensures
            ({
                let w = match_walk(*old(order), *old(orderbook));
                &&& *final(order) == Order {
                    filled: w.filled as u64,
                    status: final_status(*old(order), w.filled),
                    ..*old(order)
                }
                &&& trades_match(trades@, w.fills, *old(order))
                &&& side_view(book_side(*final(orderbook), opposite(old(order).side)))
                    == without_empty_levels(w.side)
                &&& side_view(book_side(*final(orderbook), old(order).side)) == own_side_after(
                    *old(orderbook),
                    *old(order),
                    w,
                )
            }),
            final(orderbook).wf(),
            final(orderbook).trading_pair == old(orderbook).trading_pair,
            order_wf(*final(order)),
    {
        match order.order_type {
            OrderType::Limit => Self::match_limit(order, orderbook),
            OrderType::Market => Self::match_market(order, orderbook),
        }
    }

    fn match_limit(order: &mut Order, orderbook: &mut OrderBook) -> (trades: Vec<Trade>)
        requires
            old(orderbook).wf(),
            order_wf(*old(order)),
            old(order).order_type == OrderType::Limit,
        ensures
            ({
                let w = match_walk(*old(order), *old(orderbook));
                &&& *final(order) == Order {
                    filled: w.filled as u64,
                    status: limit_status(*old(order), w.filled),
                    ..*old(order)
                }
                &&& trades_match(trades@, w.fills, *old(order))
                &&& side_view(book_side(*final(orderbook), opposite(old(order).side)))
                    == without_empty_levels(w.side)
                &&& side_view(book_side(*final(orderbook), old(order).side)) == own_side_after(
                    *old(orderbook),
                    *old(order),
                    w,
                )
            }),
            final(orderbook).wf(),
            final(orderbook).trading_pair == old(orderbook).trading_pair,
            order_wf(*final(order)),
    {
        let mut trades = Vec::new();
        proof {
            lemma_match_walk_bounds(*old(order), *old(orderbook));
        }
        Self::match_against_book(order, orderbook, &mut trades);
        if !order.is_filled() {
            orderbook.add_order(order.clone());
            order.status = if order.filled > 0 {
                OrderStatus::PartiallyFilled
            } else {
                OrderStatus::Open
            };
        } else {
            order.status = OrderStatus::Filled;
        }
        proof {
            assert(trades@.skip(0) =~= trades@);
        }
        trades
    }

    fn match_market(order: &mut Order, orderbook: &mut OrderBook) -> (trades: Vec<Trade>)
        requires
            old(orderbook).wf(),
            order_wf(*old(order)),
            old(order).order_type == OrderType::Market,
        ensures
            ({
                let w = match_walk(*old(order), *old(orderbook));
                &&& *final(order) == Order {
                    filled: w.filled as u64,
                    status: market_status(*old(order), w.filled),
                    ..*old(order)
                }
                &&& trades_match(trades@, w.fills, *old(order))
                &&& side_view(book_side(*final(orderbook), opposite(old(order).side)))
                    == without_empty_levels(w.side)
                &&& book_side(*final(orderbook), old(order).side) == book_side(
                    *old(orderbook),
                    old(order).side,
                )
            }),
            final(orderbook).wf(),
            final(orderbook).trading_pair == old(orderbook).trading_pair,
            order_wf(*final(order)),
    {
        let mut trades = Vec::new();
        proof {
            lemma_match_walk_bounds(*old(order), *old(orderbook));
        }
        Self::match_against_book(order, orderbook, &mut trades);
        order.status = if order.is_filled() {
            OrderStatus::Filled
        } else if order.filled > 0 {
            OrderStatus::PartiallyFilled
        } else {
            OrderStatus::Cancelled
        };
        proof {
            assert(trades@.skip(0) =~= trades@);
        }
        trades
    }

    /// Walks the incoming order over the opposite side, appending its trades to `trades`.
    fn match_against_book(order: &mut Order, orderbook: &mut OrderBook, trades: &mut Vec<Trade>)
        requires
            old(orderbook).wf(),
            order_wf(*old(order)),
        ensures
            ({
                let w = match_walk(*old(order), *old(orderbook));
                &&& *final(order) == with_filled(*old(order), w.filled)
                &&& side_view(book_side(*final(orderbook), opposite(old(order).side)))
                    == without_empty_levels(w.side)
                &&& book_side(*final(orderbook), old(order).side) == book_side(
                    *old(orderbook),
                    old(order).side,
                )
                &&& trades_match(final(trades)@.skip(old(trades)@.len() as int), w.fills, *old(order))
                &&& final(trades)@.take(old(trades)@.len() as int) == old(trades)@
                &&& final(trades)@.len() >= old(trades)@.len()
            }),
            final(orderbook).wf(),
            final(orderbook).trading_pair == old(orderbook).trading_pair,
            order_wf(*final(order)),
    {
        match order.side {
            Side::Buy => match_side(order, &mut orderbook.asks, trades),
            Side::Sell => match_side(order, &mut orderbook.bids, trades),
        }
    }
}

proof fn lemma_level_pass_bounds(taker: Order, filled: nat, price: u64, makers: Seq<Order>)
    requires
        filled <= taker.quantity,
        orders_wf_at(makers, price, opposite(taker.side)),
    ensures
        filled <= level_pass(taker.quantity as nat, filled, price, makers).0 <= taker.quantity,
        orders_wf_at(level_pass(taker.quantity as nat, filled, price, makers).1, price, opposite(taker.side)),
    decreases makers.len(),
{
    if makers.len() > 0 {
        lemma_level_pass_bounds(taker, filled, price, makers.drop_last());
    }
}

/// A walk never takes back what the incoming order filled nor fills it beyond its quantity,
/// and leaves the side well formed.
pub proof fn lemma_walk_bounds(taker: Order, keys: Seq<u64>, v: Map<u64, Seq<Order>>)
    requires
        order_wf(taker),
        view_wf(v, opposite(taker.side)),
    ensures
        taker.filled <= walk(taker, keys, v).filled <= taker.quantity,
        view_wf(walk(taker, keys, v).side, opposite(taker.side)),
    decreases keys.len(),
{
    if keys.len() > 0 {
        let w = walk(taker, keys.drop_last(), v);
        lemma_walk_bounds(taker, keys.drop_last(), v);
        let k = keys.last();
        if !(w.stopped || w.filled >= taker.quantity) && w.side.contains_key(k) && price_acceptable(taker, k) {
            lemma_level_pass_bounds(taker, w.filled, k, w.side[k]);
            let p = level_pass(taker.quantity as nat, w.filled, k, w.side[k]);
            assert(view_wf(w.side.insert(k, p.1), opposite(taker.side)));
        }
    }
}

/// Matching never takes back what an order has filled, and never fills it beyond its
/// quantity.
pub proof fn lemma_match_walk_bounds(taker: Order, book: OrderBook)
    requires
        order_wf(taker),
        book.wf(),
    ensures
        taker.filled <= match_walk(taker, book).filled <= taker.quantity,
{
    let opp = book_side(book, opposite(taker.side));
    assert(view_wf(side_view(opp), opposite(taker.side)));
    lemma_walk_bounds(taker, priority_keys(opp.dom(), opposite(taker.side)), side_view(opp));
}

/// The incoming order goes down the queue of one level; returns the level with the orders
/// it left.
fn pass_level(
    order: &mut Order,
    level: PriceLevel,
    trades: &mut Vec<Trade>,
) -> (kept: PriceLevel)
    requires
        order_wf(*old(order)),
        orders_wf_at(level.orders@, level.price, opposite(old(order).side)),
    ensures
        ({
            let p = level_pass(old(order).quantity as nat, old(order).filled as nat, level.price, level.orders@);
            &&& *final(order) == with_filled(*old(order), p.0)
            &&& kept.price == level.price
            &&& kept.orders@ == p.1
            &&& trades_match(final(trades)@.skip(old(trades)@.len() as int), p.2, *old(order))
            &&& final(trades)@.take(old(trades)@.len() as int) == old(trades)@
        }),
        order_wf(*final(order)),
        orders_wf_at(kept.orders@, level.price, opposite(old(order).side)),
        final(trades)@.len() >= old(trades)@.len(),
{
    let ghost taker0 = *order;
    let ghost trades0 = trades@;
    let price = level.price;
    let n = level.orders.len();
    let mut kept: Vec<Order> = Vec::new();
    let mut i: usize = 0;
    while i < n
        invariant
            n == level.orders@.len(),
            i <= n,
            order_wf(taker0),
            orders_wf_at(level.orders@, price, opposite(taker0.side)),
            price == level.price,
            ({
                let p = level_pass(taker0.quantity as nat, taker0.filled as nat, price, level.orders@.take(i as int));
                &&& *order == with_filled(taker0, p.0)
                &&& kept@ == p.1
                &&& trades_match(trades@.skip(trades0.len() as int), p.2, taker0)
                &&& trades@.take(trades0.len() as int) == trades0
            }),
            order_wf(*order),
            trades@.len() >= trades0.len(),
        decreases n - i,
    {
        proof {
            assert(level.orders@.take(i + 1).drop_last() =~= level.orders@.take(i as int));
            lemma_level_pass_bounds(taker0, taker0.filled as nat, price, level.orders@.take(i as int));
        }
        let maker = level.orders[i].clone();
        if order.is_filled() {
            kept.push(maker);
        } else {
            let want = order.remaining();
            let has = maker.remaining();
            let q = if want <= has { want } else { has };
            order.filled = order.filled + q;
            let mut m2 = maker;
            m2.filled = m2.filled + q;
            m2.status = if m2.is_filled() { OrderStatus::Filled } else { OrderStatus::PartiallyFilled };
            let ghost before = trades@;
            trades.push(Trade::new(order.trading_pair, m2.id.clone(), order.id.clone(), price, q));
            proof {
                assert(trades@.skip(trades0.len() as int) =~= before.skip(trades0.len() as int).push(trades@.last()));
                assert(trades@.take(trades0.len() as int) =~= before.take(trades0.len() as int));
            }
            if !m2.is_filled() {
                kept.push(m2);
            }
        }
        i = i + 1;
    }
    proof {
        assert(level.orders@.take(n as int) =~= level.orders@);
        lemma_level_pass_bounds(taker0, taker0.filled as nat, price, level.orders@);
    }
    PriceLevel { price, orders: kept }
}


fn price_ok(order: &Order, price: u64) -> (b: bool)
    ensures
        b == price_acceptable(*order, price),
{
    match order.order_type {
        OrderType::Market => true,
        OrderType::Limit => match order.side {
            Side::Buy => price <= order.price,
            Side::Sell => price >= order.price,
        },
    }
}

proof fn lemma_walk_frozen(taker: Order, s: Seq<u64>, v: Map<u64, Seq<Order>>, i: int, j: int)
    requires
        0 <= i <= j <= s.len(),
        walk(taker, s.take(i), v).stopped || walk(taker, s.take(i), v).filled >= taker.quantity,
    ensures
        walk(taker, s.take(j), v) == walk(taker, s.take(i), v),
    decreases j - i,
{
    if j > i {
        lemma_walk_frozen(taker, s, v, i, j - 1);
        assert(s.take(j).drop_last() =~= s.take(j - 1));
    }
}

proof fn lemma_trades_concat(a: Seq<Trade>, b: Seq<Trade>, f1: Seq<Fill>, f2: Seq<Fill>, taker: Order)
    requires
        trades_match(a, f1, taker),
        trades_match(b, f2, taker),
    ensures
        trades_match(a + b, f1 + f2, taker),
{
    assert forall|i: int| 0 <= i < (f1 + f2).len() implies {
        &&& (#[trigger] (a + b)[i]).maker_order_id == (f1 + f2)[i].maker_order_id
        &&& (a + b)[i].price == (f1 + f2)[i].price
        &&& (a + b)[i].quantity == (f1 + f2)[i].quantity
        &&& (a + b)[i].taker_order_id == taker.id
        &&& (a + b)[i].trading_pair == taker.trading_pair
    } by {
        if i >= a.len() {
            assert(b[i - a.len()] == (a + b)[i]);
        } else {
            assert(a[i] == (a + b)[i]);
        }
    }
}

/// The keys of a side in the order it is matched.
fn priority_order(m: &BTreeMap<u64, PriceLevel>, side: Side) -> (pk: Vec<u64>)
    ensures
        pk@ == priority_keys(m@.dom(), side),
        pk@.no_duplicates(),
        pk@.to_set() == m@.dom(),
{
    let ks = sorted_keys(m);
    proof {
        assert(ks@.no_duplicates());
    }
    match side {
        Side::Sell => ks,
        Side::Buy => {
            let n = ks.len();
            let mut pk: Vec<u64> = Vec::new();
            let mut j: usize = 0;
            while j < n
                invariant
                    n == ks@.len(),
                    j <= n,
                    pk@ == ks@.reverse().take(j as int),
                decreases n - j,
            {
                pk.push(ks[n - 1 - j]);
                j = j + 1;
                assert(pk@ =~= ks@.reverse().take(j as int));
            }
            proof {
                assert(ks@.reverse().take(n as int) =~= ks@.reverse());
                assert(pk@.no_duplicates()) by {
                    assert forall|a: int, b: int| 0 <= a < b < pk@.len() implies pk@[a] != pk@[b] by {
                        assert(pk@[a] == ks@[n - 1 - a]);
                        assert(pk@[b] == ks@[n - 1 - b]);
                    }
                }
                assert(pk@.to_set() =~= ks@.to_set()) by {
                    assert forall|x: u64| pk@.to_set().contains(x) implies ks@.to_set().contains(x) by {
                        let a = choose|a: int| 0 <= a < pk@.len() && pk@[a] == x;
                        assert(ks@[n - 1 - a] == x);
                    }
                    assert forall|x: u64| ks@.to_set().contains(x) implies pk@.to_set().contains(x) by {
                        let a = choose|a: int| 0 <= a < ks@.len() && ks@[a] == x;
                        assert(pk@[n - 1 - a] == x);
                    }
                }
            }
            pk
        },
    }
}

/// Removes every level left without orders.
fn remove_empty_levels(m: &mut BTreeMap<u64, PriceLevel>, Ghost(side): Ghost<Side>)
    requires
        side_wf(old(m)@, side),
    ensures
        side_wf(final(m)@, side),
        side_view(final(m)@) == without_empty_levels(side_view(old(m)@)),
{
    let ghost m0 = m@;
    let ks = sorted_keys(m);
    let n = ks.len();
    let mut i: usize = 0;
    while i < n
        invariant
            n == ks@.len(),
            i <= n,
            is_sorted_keys(ks@, m0.dom()),
            forall|k: u64|
                #[trigger] m@.contains_key(k) <==> (m0.contains_key(k) && (m0[k].orders@.len() > 0
                    || !ks@.take(i as int).contains(k))),
            forall|k: u64| #[trigger] m@.contains_key(k) ==> m@[k] == m0[k],
            side_wf(m0, side),
        decreases n - i,
    {
        let k = ks[i];
        assert(ks@.to_set().contains(k));
        assert(ks@.no_duplicates());
        let empty = match m.get(&k) {
            Some(l) => l.orders.len() == 0,
            None => false,
        };
        if empty {
            m.remove(&k);
        }
        i = i + 1;
        proof {
            assert(ks@.take(i as int) =~= ks@.take(i - 1).push(k));
            assert forall|k2: u64| ks@.take(i as int).contains(k2) <==> (ks@.take(i - 1).contains(k2) || k2 == k) by {
                vstd::seq_lib::lemma_seq_contains_after_push(ks@.take(i - 1), k, k2);
            }
        }
    }
    proof {
        assert(ks@.take(n as int) =~= ks@);
        assert(side_view(m@) =~= without_empty_levels(side_view(m0)));
    }
}

/// Walks `order` over the levels of the opposite side `m`, best price first, then removes
/// the levels it left empty (and any other empty level of that side).
fn match_side(order: &mut Order, m: &mut BTreeMap<u64, PriceLevel>, trades: &mut Vec<Trade>)
    requires
        order_wf(*old(order)),
        side_wf(old(m)@, opposite(old(order).side)),
    ensures
        ({
            let w = walk(
                *old(order),
                priority_keys(old(m)@.dom(), opposite(old(order).side)),
                side_view(old(m)@),
            );
            &&& *final(order) == with_filled(*old(order), w.filled)
            &&& side_view(final(m)@) == without_empty_levels(w.side)
            &&& trades_match(final(trades)@.skip(old(trades)@.len() as int), w.fills, *old(order))
            &&& final(trades)@.take(old(trades)@.len() as int) == old(trades)@
            &&& final(trades)@.len() >= old(trades)@.len()
        }),
        side_wf(final(m)@, opposite(old(order).side)),
        order_wf(*final(order)),
{
    let ghost taker0 = *order;
    let ghost t0 = trades@;
    let ghost v0 = side_view(m@);
    let ghost bs = opposite(taker0.side);
    let pk = priority_order(m, opposite_side(order.side));
    let n = pk.len();
    let mut idx: usize = 0;
    let mut stop = order.is_filled();
    proof {
        assert(v0.dom() =~= m@.dom());
        assert(*order == with_filled(taker0, taker0.filled as nat));
        assert(pk@.take(0) =~= Seq::<u64>::empty());
        assert(trades@.skip(t0.len() as int) =~= Seq::<Trade>::empty());
        assert(trades@.take(t0.len() as int) =~= t0);
    }
    while idx < n && !stop
        invariant
            n == pk@.len(),
            idx <= n,
            pk@ == priority_keys(v0.dom(), bs),
            pk@.no_duplicates(),
            v0 == side_view(old(m)@),
            bs == opposite(taker0.side),
            order_wf(taker0),
            ({
                let w = walk(taker0, pk@.take(idx as int), v0);
                &&& stop == (w.stopped || w.filled >= taker0.quantity)
                &&& *order == with_filled(taker0, w.filled)
                &&& side_view(m@) == w.side
                &&& trades_match(trades@.skip(t0.len() as int), w.fills, taker0)
                &&& trades@.take(t0.len() as int) == t0
            }),
            trades@.len() >= t0.len(),
            side_wf(m@, bs),
            order_wf(*order),
        decreases n - idx,
    {
        proof {
            assert(pk@.take(idx + 1).drop_last() =~= pk@.take(idx as int));
        }
        let ghost w = walk(taker0, pk@.take(idx as int), v0);
        if order.is_filled() {
            stop = true;
        } else {
            let k = pk[idx];
            let lp = match m.get(&k) {
                Some(l) => Some(l.price),
                None => None,
            };
            match lp {
                None => {},
                Some(price) => {
                    if !price_ok(order, price) {
                        stop = true;
                    } else {
                        let level = m.remove(&k).unwrap();
                        assert(level.orders@ == w.side[k]);
                        assert(level.price == k);
                        let ghost tb = trades@;
                        let kept = pass_level(order, level, trades);
                        m.insert(k, kept);
                        stop = order.is_filled();
                        proof {
                            let p = level_pass(taker0.quantity as nat, w.filled, k, w.side[k]);
                            assert(side_view(m@) =~= w.side.insert(k, p.1));
                            lemma_level_pass_bounds(taker0, w.filled, k, w.side[k]);
                            assert(trades@.skip(t0.len() as int) =~= tb.skip(t0.len() as int) + trades@.skip(tb.len() as int));
                            lemma_trades_concat(tb.skip(t0.len() as int), trades@.skip(tb.len() as int), w.fills, p.2, taker0);
                            assert(trades@.take(t0.len() as int) =~= tb.take(t0.len() as int));
                        }
                    }
                },
            }
        }
        idx = idx + 1;
    }
    proof {
        if idx < n {
            lemma_walk_frozen(taker0, pk@, v0, idx as int, n as int);
        }
        assert(pk@.take(n as int) =~= pk@);
    }
    remove_empty_levels(m, Ghost(bs));
}

fn opposite_side(side: Side) -> (r: Side)
    ensures
        r == opposite(side),
{
    match side {
        Side::Buy => Side::Sell,
        Side::Sell => Side::Buy,
    }
}

} // verus!
