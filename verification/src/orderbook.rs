//! The order book of one trading pair: resting buy orders (bids) and sell
//! orders (asks), each grouped into price levels keyed by price.
use std::collections::BTreeMap;
use vstd::prelude::*;

use crate::keys::{is_sorted_keys, sorted_key_seq, sorted_keys};
use crate::models::{order_wf, remaining_of, Order, Side, TradingPair};

verus! {

broadcast use vstd::std_specs::btree::group_btree_axioms;

/// The orders resting at one price, oldest first.
#[derive(Clone, Debug)]
pub struct PriceLevel {
    pub price: u64,
    pub orders: Vec<Order>,
}

/// Sum of what is left to fill of each order.
pub open spec fn level_total(s: Seq<Order>) -> nat
    decreases s.len(),
{
    if s.len() == 0 {
        0
    } else {
        level_total(s.drop_last()) + remaining_of(s.last())
    }
}

/// Every order of the sequence is well formed, rests on `side` and is priced at `price`.
pub open spec fn orders_wf_at(s: Seq<Order>, price: u64, side: Side) -> bool {
    forall|i: int|
        0 <= i < s.len() ==> {
            &&& order_wf(#[trigger] s[i])
            &&& s[i].price == price
            &&& s[i].side == side
        }
}

/// One side of the book viewed as the orders resting at each price.
pub open spec fn side_view(m: Map<u64, PriceLevel>) -> Map<u64, Seq<Order>> {
    Map::new(|k: u64| m.contains_key(k), |k: u64| m[k].orders@)
}

/// The orders at `price`, none where the side has no level there.
pub open spec fn orders_at(v: Map<u64, Seq<Order>>, price: u64) -> Seq<Order> {
    if v.contains_key(price) {
        v[price]
    } else {
        Seq::empty()
    }
}

/// Each level of a side is keyed by its own price and holds well-formed orders of that side
/// and price.
pub open spec fn side_wf(m: Map<u64, PriceLevel>, side: Side) -> bool {
    forall|k: u64|
        #[trigger] m.contains_key(k) ==> m[k].price == k && orders_wf_at(m[k].orders@, k, side)
}

/// The same invariant stated over a side's view.
pub open spec fn view_wf(v: Map<u64, Seq<Order>>, side: Side) -> bool {
    forall|k: u64| #[trigger] v.contains_key(k) ==> orders_wf_at(v[k], k, side)
}

/// Levels in the order the engine matches them: asks from the lowest price up,
/// bids from the highest price down.
pub open spec fn priority_keys(d: Set<u64>, side: Side) -> Seq<u64> {
    match side {
        Side::Sell => sorted_key_seq(d),
        Side::Buy => sorted_key_seq(d).reverse(),
    }
}

/// The depth rows of a side: for the first `n` levels in priority order, the price and the
/// quantity left to fill there.
pub open spec fn depth_rows(v: Map<u64, Seq<Order>>, side: Side, n: nat) -> Seq<(u64, u128)> {
    let ks = priority_keys(v.dom(), side);
    let shown = if n < ks.len() { n } else { ks.len() };
    ks.take(shown as int).map_values(|k: u64| (k, level_total(v[k]) as u128))
}


/// Some order of the sequence has identifier `id`.
pub open spec fn holds_id(s: Seq<Order>, id: Seq<char>) -> bool {
    exists|i: int| 0 <= i < s.len() && (#[trigger] s[i]).id@ == id
}

/// Some level of the side holds an order with identifier `id`.
pub open spec fn side_holds_id(v: Map<u64, Seq<Order>>, id: Seq<char>) -> bool {
    exists|k: u64| #[trigger] v.contains_key(k) && holds_id(v[k], id)
}

/// Position `i` of the level at `k` holds the first order with identifier `id`, levels taken
/// from the lowest price up and orders oldest first.
pub open spec fn first_with_id(v: Map<u64, Seq<Order>>, id: Seq<char>, k: u64, i: int) -> bool {
    &&& v.contains_key(k)
    &&& 0 <= i < v[k].len()
    &&& v[k][i].id@ == id
    &&& forall|j: int| 0 <= j < i ==> (#[trigger] v[k][j]).id@ != id
    &&& forall|k2: u64| #[trigger] v.contains_key(k2) && k2 < k ==> !holds_id(v[k2], id)
}

/// Cancelling `id` on one side took out the order at `(k, i)`, the first one with that id,
/// and left the rest of the side as it was (the level stays, even when it is left empty).
pub open spec fn cancelled_from(
    before: Map<u64, Seq<Order>>,
    after: Map<u64, Seq<Order>>,
    id: Seq<char>,
    o: Order,
) -> bool {
    exists|k: u64, i: int|
        {
            &&& first_with_id(before, id, k, i)
            &&& o == before[k][i]
            &&& after == before.insert(k, before[k].remove(i))
        }
}

/// What adding `o` does to a book: `o` joins the back of the level at its price on its side
/// (a level opens there when there is none), the rest of the book unchanged.
pub open spec fn add_outcome(before: OrderBook, after: OrderBook, o: Order) -> bool {
    &&& after.trading_pair == before.trading_pair
    &&& side_view(book_side(after, o.side)) == side_view(book_side(before, o.side)).insert(
        o.price,
        orders_at(side_view(book_side(before, o.side)), o.price).push(o),
    )
    &&& o.side == Side::Buy ==> after.asks@ == before.asks@
    &&& o.side == Side::Sell ==> after.bids@ == before.bids@
}

/// What cancelling `id` does to a book: with `None`, no order of either side has that id
/// and the book is as it was; with `Some(o)`, `o` has that id and was taken out of its level
/// (bids are searched first), the rest of the book unchanged.
pub open spec fn cancel_outcome(before: OrderBook, after: OrderBook, id: Seq<char>, r: Option<Order>) -> bool {
    &&& after.trading_pair == before.trading_pair
    &&& match r {
        None => {
            &&& !side_holds_id(side_view(before.bids@), id)
            &&& !side_holds_id(side_view(before.asks@), id)
            &&& after.bids@ == before.bids@
            &&& after.asks@ == before.asks@
        },
        Some(o) => {
            &&& o.id@ == id
            &&& {
                ||| {
                    &&& cancelled_from(side_view(before.bids@), side_view(after.bids@), id, o)
                    &&& after.asks@ == before.asks@
                }
                ||| {
                    &&& !side_holds_id(side_view(before.bids@), id)
                    &&& cancelled_from(side_view(before.asks@), side_view(after.asks@), id, o)
                    &&& after.bids@ == before.bids@
                }
            }
        },
    }
}

/// The highest key of a set, if it has any.
pub open spec fn highest(d: Set<u64>) -> Option<u64> {
    if d.is_empty() {
        None
    } else {
        Some(sorted_key_seq(d).last())
    }
}

/// The lowest key of a set, if it has any.
pub open spec fn lowest(d: Set<u64>) -> Option<u64> {
    if d.is_empty() {
        None
    } else {
        Some(sorted_key_seq(d)[0])
    }
}

impl PriceLevel {
    pub fn new(price: u64) -> (l: PriceLevel)
        ensures
            l.price == price,
            l.orders@ == Seq::<Order>::empty(),
    {
        PriceLevel { price, orders: Vec::new() }
    }

    pub fn total_quantity(&self) -> (t: u128)
        requires
            forall|i: int| 0 <= i < self.orders@.len() ==> order_wf(#[trigger] self.orders@[i]),
        ensures
            t == level_total(self.orders@),
    {
        let mut t: u128 = 0;
        let n = self.orders.len();
        let mut i: usize = 0;
        while i < n
            invariant
                n == self.orders@.len(),
                i <= n,
                forall|j: int| 0 <= j < self.orders@.len() ==> order_wf(#[trigger] self.orders@[j]),
                t == level_total(self.orders@.take(i as int)),
                t <= i * 0xFFFF_FFFF_FFFF_FFFFu128,
            decreases n - i,
        {
            assert(self.orders@.take(i + 1).drop_last() =~= self.orders@.take(i as int));
            let r = self.orders[i].remaining();
            proof {
                lemma_sum_bound(t as int, i as int, r as int);
            }
            t = t + r as u128;
            i = i + 1;
        }
        assert(self.orders@.take(n as int) =~= self.orders@);
        t
    }

    pub fn is_empty(&self) -> (b: bool)
        ensures
            b == (self.orders@.len() == 0),
    {
        self.orders.len() == 0
    }
}

proof fn lemma_sum_bound(t: int, i: int, r: int)
    by (nonlinear_arith)
    requires
        0 <= i < 0x1_0000_0000_0000_0000,
        0 <= t <= i * 0xFFFF_FFFF_FFFF_FFFF,
        0 <= r <= 0xFFFF_FFFF_FFFF_FFFF,
    ensures
        t + r <= (i + 1) * 0xFFFF_FFFF_FFFF_FFFF,
        (i + 1) * 0xFFFF_FFFF_FFFF_FFFF <= 0xFFFF_FFFF_FFFF_FFFF_FFFF_FFFF_FFFF_FFFF,
{
}

/// A snapshot of the book: `(price, quantity left)` per level, best price first.
#[derive(Clone, Debug)]
pub struct OrderBookDepth {
    pub bids: Vec<(u64, u128)>,
    pub asks: Vec<(u64, u128)>,
}

#[derive(Clone, Debug)]
pub struct OrderBook {
    pub trading_pair: TradingPair,
    /// Buy orders, by price.
    pub bids: BTreeMap<u64, PriceLevel>,
    /// Sell orders, by price.
    pub asks: BTreeMap<u64, PriceLevel>,
}

/// The side of the book that an order of `side` rests on.
pub open spec fn book_side(book: OrderBook, side: Side) -> Map<u64, PriceLevel> {
    match side {
        Side::Buy => book.bids@,
        Side::Sell => book.asks@,
    }
}

impl OrderBook {
    pub open spec fn wf(&self) -> bool {
        side_wf(self.bids@, Side::Buy) && side_wf(self.asks@, Side::Sell)
    }

    pub fn new(trading_pair: TradingPair) -> (b: OrderBook)
        ensures
            b.wf(),
            b.trading_pair == trading_pair,
            b.bids@ == Map::<u64, PriceLevel>::empty(),
            b.asks@ == Map::<u64, PriceLevel>::empty(),
    {
        OrderBook { trading_pair, bids: BTreeMap::new(), asks: BTreeMap::new() }
    }

    /// Rests `order` at the back of the level at its price on its side, opening the level
    /// when there is none.
    pub fn add_order(&mut self, order: Order)
        requires
            old(self).wf(),
            order_wf(order),
        ensures
            final(self).wf(),
            add_outcome(*old(self), *final(self), order),
    {
        match order.side {
            Side::Buy => add_to_side(&mut self.bids, order),
            Side::Sell => add_to_side(&mut self.asks, order),
        }
    }

    /// Takes out the first order with identifier `order_id`: bids are searched before asks,
    /// levels from the lowest price up, orders oldest first. A level left empty stays.
    pub fn cancel_order(&mut self, order_id: &str) -> (r: Option<Order>)
        requires
            old(self).wf(),
        ensures
            final(self).wf(),
            cancel_outcome(*old(self), *final(self), order_id@, r),
    {
        let target = order_id.to_owned();
        match find_in_side(&self.bids, &target) {
            Some((k, i)) => {
                let o = take_at(&mut self.bids, k, i, Side::Buy);
                return Some(o);
            },
            None => {},
        }
        match find_in_side(&self.asks, &target) {
            Some((k, i)) => {
                let o = take_at(&mut self.asks, k, i, Side::Sell);
                Some(o)
            },
            None => None,
        }
    }

    /// A snapshot of the first `levels` levels of each side in priority order (best price
    /// first), each with the quantity left to fill there.
    pub fn get_depth(&self, levels: usize) -> (d: OrderBookDepth)
        requires
            self.wf(),
        ensures
            d.bids@ == depth_rows(side_view(self.bids@), Side::Buy, levels as nat),
            d.asks@ == depth_rows(side_view(self.asks@), Side::Sell, levels as nat),
    {
        let bids = side_depth(&self.bids, Side::Buy, levels);
        let asks = side_depth(&self.asks, Side::Sell, levels);
        OrderBookDepth { bids, asks }
    }

    /// The highest bid price, if any level of bids exists.
    pub fn best_bid(&self) -> (r: Option<u64>)
        ensures
            r == highest(self.bids@.dom()),
            r is None <==> self.bids@.dom().is_empty(),
            r matches Some(p) ==> self.bids@.contains_key(p) && forall|k: u64|
                #[trigger] self.bids@.contains_key(k) ==> k <= p,
    {
        let ks = sorted_keys(&self.bids);
        if ks.len() == 0 {
            proof { empty_dom(ks@, self.bids@.dom()); }
            None
        } else {
            let p = ks[ks.len() - 1];
            proof {
                assert(ks@.to_set().contains(p));
                assert forall|k: u64| #[trigger] self.bids@.contains_key(k) implies k <= p by {
                    assert(ks@.to_set().contains(k));
                }
            }
            Some(p)
        }
    }

    /// The lowest ask price, if any level of asks exists.
    pub fn best_ask(&self) -> (r: Option<u64>)
        ensures
            r == lowest(self.asks@.dom()),
            r is None <==> self.asks@.dom().is_empty(),
            r matches Some(p) ==> self.asks@.contains_key(p) && forall|k: u64|
                #[trigger] self.asks@.contains_key(k) ==> p <= k,
    {
        let ks = sorted_keys(&self.asks);
        if ks.len() == 0 {
            proof { empty_dom(ks@, self.asks@.dom()); }
            None
        } else {
            let p = ks[0];
            proof {
                assert(ks@.to_set().contains(p));
                assert forall|k: u64| #[trigger] self.asks@.contains_key(k) implies p <= k by {
                    assert(ks@.to_set().contains(k));
                }
            }
            Some(p)
        }
    }
}

/// Where the first order with identifier `target` rests on a side, if anywhere.
fn find_in_side(m: &BTreeMap<u64, PriceLevel>, target: &String) -> (r: Option<(u64, usize)>)
    ensures
        match r {
            None => !side_holds_id(side_view(m@), target@),
            Some((k, i)) => first_with_id(side_view(m@), target@, k, i as int),
        },
{
    let ghost v = side_view(m@);
    let ks = sorted_keys(m);
    let nk = ks.len();
    let mut a: usize = 0;
    while a < nk
        invariant
            nk == ks@.len(),
            a <= nk,
            v == side_view(m@),
            is_sorted_keys(ks@, m@.dom()),
            forall|b: int| 0 <= b < a ==> !holds_id(v[#[trigger] ks@[b]], target@),
        decreases nk - a,
    {
        let k = ks[a];
        assert(ks@.to_set().contains(k));
        let level = m.get(&k).unwrap();
        let n = level.orders.len();
        let mut i: usize = 0;
        while i < n
            invariant
                n == level.orders@.len(),
                i <= n,
                v.contains_key(k),
                v[k] == level.orders@,
                forall|j: int| 0 <= j < i ==> (#[trigger] v[k][j]).id@ != target@,
                v == side_view(m@),
                is_sorted_keys(ks@, m@.dom()),
                a < nk,
                nk == ks@.len(),
                k == ks@[a as int],
                forall|b: int| 0 <= b < a ==> !holds_id(v[#[trigger] ks@[b]], target@),
            decreases n - i,
        {
            if level.orders[i].id == *target {
                proof {
                    assert forall|k2: u64| #[trigger] v.contains_key(k2) && k2 < k implies !holds_id(v[k2], target@) by {
                        assert(ks@.to_set().contains(k2));
                        let b = choose|b: int| 0 <= b < ks@.len() && ks@[b] == k2;
                        if b >= a {
                            if b > a {
                                assert(ks@[a as int] < ks@[b]);
                            }
                        }
                    }
                }
                return Some((k, i));
            }
            i = i + 1;
        }
        a = a + 1;
    }
    proof {
        assert forall|k2: u64| #[trigger] v.contains_key(k2) implies !holds_id(v[k2], target@) by {
            assert(ks@.to_set().contains(k2));
            let b = choose|b: int| 0 <= b < ks@.len() && ks@[b] == k2;
            assert(!holds_id(v[ks@[b]], target@));
        }
    }
    None
}

/// Takes out the order at position `i` of the level at `k`; the level stays.
fn take_at(m: &mut BTreeMap<u64, PriceLevel>, k: u64, i: usize, side: Side) -> (o: Order)
    requires
        side_wf(old(m)@, side),
        side_view(old(m)@).contains_key(k),
        i < side_view(old(m)@)[k].len(),
    ensures
        side_wf(final(m)@, side),
        o == side_view(old(m)@)[k][i as int],
        side_view(final(m)@) == side_view(old(m)@).insert(k, side_view(old(m)@)[k].remove(i as int)),
{
    let mut level = m.remove(&k).unwrap();
    let o = level.orders.remove(i);
    m.insert(k, level);
    assert(side_view(final(m)@) =~= side_view(old(m)@).insert(k, side_view(old(m)@)[k].remove(i as int)));
    o
}

fn side_depth(m: &BTreeMap<u64, PriceLevel>, side: Side, levels: usize) -> (rows: Vec<(u64, u128)>)
    requires
        side_wf(m@, side),
    ensures
        rows@ == depth_rows(side_view(m@), side, levels as nat),
{
    let ghost v = side_view(m@);
    let ks = sorted_keys(m);
    let nk = ks.len();
    let shown = if levels < nk { levels } else { nk };
    let ghost pk = priority_keys(m@.dom(), side);
    assert(v.dom() =~= m@.dom());
    let mut rows: Vec<(u64, u128)> = Vec::new();
    let mut j: usize = 0;
    while j < shown
        invariant
            nk == ks@.len(),
            shown <= nk,
            j <= shown,
            is_sorted_keys(ks@, m@.dom()),
            ks@ == sorted_key_seq(m@.dom()),
            pk == priority_keys(m@.dom(), side),
            v == side_view(m@),
            side_wf(m@, side),
            rows@ == pk.take(j as int).map_values(|k: u64| (k, level_total(v[k]) as u128)),
        decreases shown - j,
    {
        let k = match side {
            Side::Sell => ks[j],
            Side::Buy => ks[nk - 1 - j],
        };
        assert(k == pk[j as int]);
        assert(ks@.to_set().contains(k));
        let level = m.get(&k).unwrap();
        let t = level.total_quantity();
        rows.push((k, t));
        j = j + 1;
        assert(rows@ =~= pk.take(j as int).map_values(|k: u64| (k, level_total(v[k]) as u128)));
    }
    rows
}

proof fn empty_dom(ks: Seq<u64>, d: Set<u64>)
    requires
        is_sorted_keys(ks, d),
        ks.len() == 0,
    ensures
        d.is_empty(),
{
    assert(ks =~= Seq::<u64>::empty());
    assert(d =~= Set::<u64>::empty());
}

fn add_to_side(m: &mut BTreeMap<u64, PriceLevel>, order: Order)
    requires
        side_wf(old(m)@, order.side),
        order_wf(order),
    ensures
        side_wf(final(m)@, order.side),
        side_view(final(m)@) == side_view(old(m)@).insert(
            order.price,
            orders_at(side_view(old(m)@), order.price).push(order),
        ),
{
    let key = order.price;
    let mut level = match m.remove(&key) {
        Some(l) => l,
        None => PriceLevel::new(key),
    };
    level.orders.push(order);
    m.insert(key, level);
    assert(side_view(final(m)@) =~= side_view(old(m)@).insert(
        order.price,
        orders_at(side_view(old(m)@), order.price).push(order),
    ));
}

} // verus!
