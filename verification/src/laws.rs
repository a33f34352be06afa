//! What holds of matching whatever the book and the incoming order.
use vstd::prelude::*;

use crate::keys::{is_sorted_keys, sorted_key_seq};
use crate::matcher::{
    after_fill, lemma_match_walk_bounds, lemma_walk_bounds, level_pass, match_walk, opposite, own_side_after, price_acceptable, walk,
    without_empty_levels, Fill, Walk,
};
use crate::models::{filled_of, order_wf, remaining_of, Order, OrderType, Side};
use crate::orderbook::{
    add_outcome, book_side, cancel_outcome, first_with_id, holds_id, orders_at,
    priority_keys, side_holds_id, side_view, view_wf, OrderBook,
};

verus! {

/// The quantity of a sequence of fills.
pub open spec fn fills_total(fs: Seq<Fill>) -> nat
    decreases fs.len(),
{
    if fs.len() == 0 {
        0
    } else {
        fills_total(fs.drop_last()) + fs.last().quantity as nat
    }
}

proof fn lemma_fills_total_concat(a: Seq<Fill>, b: Seq<Fill>)
    ensures
        fills_total(a + b) == fills_total(a) + fills_total(b),
    decreases b.len(),
{
    if b.len() == 0 {
        assert(a + b =~= a);
    } else {
        lemma_fills_total_concat(a, b.drop_last());
        assert((a + b).drop_last() =~= a + b.drop_last());
    }
}

proof fn lemma_level_pass_total(quantity: nat, filled: nat, price: u64, makers: Seq<Order>)
    requires
        filled <= quantity <= u64::MAX,
    ensures
        level_pass(quantity, filled, price, makers).0 == filled + fills_total(
            level_pass(quantity, filled, price, makers).2,
        ),
        level_pass(quantity, filled, price, makers).0 <= quantity,
        forall|i: int|
            0 <= i < level_pass(quantity, filled, price, makers).2.len() ==> (#[trigger] level_pass(
                quantity,
                filled,
                price,
                makers,
            ).2[i]).price == price,
        forall|i: int|
            0 <= i < level_pass(quantity, filled, price, makers).2.len() ==> exists|j: int|
                0 <= j < makers.len() && makers[j].id == (#[trigger] level_pass(
                    quantity,
                    filled,
                    price,
                    makers,
                ).2[i]).maker_order_id,
    decreases makers.len(),
{
    if makers.len() > 0 {
        let prev = level_pass(quantity, filled, price, makers.drop_last());
        lemma_level_pass_total(quantity, filled, price, makers.drop_last());
        let p = level_pass(quantity, filled, price, makers);
        if prev.0 < quantity {
            assert(p.2.drop_last() =~= prev.2);
        }
        assert forall|i: int| 0 <= i < p.2.len() implies exists|j: int|
            0 <= j < makers.len() && makers[j].id == (#[trigger] p.2[i]).maker_order_id by {
            if i < prev.2.len() {
                assert(p.2[i] == prev.2[i]);
                let j = choose|j: int|
                    0 <= j < makers.drop_last().len() && makers.drop_last()[j].id == prev.2[i].maker_order_id;
                assert(makers[j] == makers.drop_last()[j]);
            } else {
                assert(makers[makers.len() - 1].id == p.2[i].maker_order_id);
            }
        }
    }
}

/// Time priority: going down one level, the incoming order trades with the level's orders
/// oldest first, one trade each, and each trade is for the smaller of what the two had left.
pub proof fn lemma_level_fills_oldest_first(quantity: nat, filled: nat, price: u64, makers: Seq<Order>)
    requires
        filled <= quantity <= u64::MAX,
    ensures
        ({
            let fills = level_pass(quantity, filled, price, makers).2;
            &&& fills.len() <= makers.len()
            &&& fills.len() < makers.len() ==> level_pass(quantity, filled, price, makers).0 >= quantity
            &&& forall|i: int|
                0 <= i < fills.len() ==> (#[trigger] fills[i]).maker_order_id == makers[i].id
                    && fills[i].quantity <= remaining_of(makers[i])
        }),
    decreases makers.len(),
{
    if makers.len() > 0 {
        lemma_level_fills_oldest_first(quantity, filled, price, makers.drop_last());
        lemma_level_pass_total(quantity, filled, price, makers.drop_last());
        let prev = level_pass(quantity, filled, price, makers.drop_last());
        let p = level_pass(quantity, filled, price, makers);
        assert forall|i: int| 0 <= i < p.2.len() implies (#[trigger] p.2[i]).maker_order_id
            == makers[i].id && p.2[i].quantity <= remaining_of(makers[i]) by {
            if i < prev.2.len() {
                assert(p.2[i] == prev.2[i]);
                assert(makers.drop_last()[i] == makers[i]);
            } else {
                assert(prev.2.len() == makers.len() - 1);
            }
        }
    }
}

/// What one level holds after the incoming order went down it.
pub open spec fn level_after_pass(makers: Seq<Order>, fills: Seq<Fill>) -> Seq<Order> {
    let t = fills.len() as int;
    if t > 0 && !filled_of(after_fill(makers[t - 1], fills[t - 1].quantity as nat)) {
        seq![after_fill(makers[t - 1], fills[t - 1].quantity as nat)] + makers.skip(t)
    } else {
        makers.skip(t)
    }
}

/// Time priority and the resting orders' side of matching, on one level: the orders that
/// trade are the oldest ones, one trade each, in queue order; every one of them but the last
/// gives all it had left and leaves the level; the last keeps its place at the front with
/// its fill added, unless that fills it; the orders behind are untouched. The incoming order
/// stops short of the end of the queue only once it is filled, and a trade is never for
/// nothing when the resting order had something left.
pub proof fn lemma_level_pass_shape(quantity: nat, filled: nat, price: u64, makers: Seq<Order>)
    requires
        filled <= quantity <= u64::MAX,
        forall|i: int| 0 <= i < makers.len() ==> order_wf(#[trigger] makers[i]),
    ensures
        ({
            let p = level_pass(quantity, filled, price, makers);
            let t = p.2.len() as int;
            &&& t <= makers.len()
            &&& t < makers.len() ==> p.0 >= quantity
            &&& forall|i: int|
                0 <= i < t ==> {
                    &&& (#[trigger] p.2[i]).maker_order_id == makers[i].id
                    &&& p.2[i].price == price
                    &&& p.2[i].quantity <= remaining_of(makers[i])
                    &&& remaining_of(makers[i]) > 0 ==> p.2[i].quantity > 0
                }
            &&& forall|i: int|
                0 <= i < t - 1 ==> (#[trigger] p.2[i]).quantity == remaining_of(makers[i])
                    && filled_of(after_fill(makers[i], p.2[i].quantity as nat))
            &&& p.0 < quantity ==> forall|i: int|
                0 <= i < t ==> (#[trigger] p.2[i]).quantity == remaining_of(makers[i])
            &&& p.1 == level_after_pass(makers, p.2)
        }),
    decreases makers.len(),
{
    if makers.len() == 0 {
        assert(makers.skip(0) =~= makers);
    } else {
        let ms = makers.drop_last();
        let m = makers.last();
        assert forall|i: int| 0 <= i < ms.len() implies order_wf(#[trigger] ms[i]) by {
            assert(ms[i] == makers[i]);
        }
        lemma_level_pass_shape(quantity, filled, price, ms);
        lemma_level_pass_total(quantity, filled, price, ms);
        let prev = level_pass(quantity, filled, price, ms);
        let p = level_pass(quantity, filled, price, makers);
        let t0 = prev.2.len() as int;
        assert forall|i: int| 0 <= i < ms.len() implies ms[i] == makers[i] by {}
        if prev.0 >= quantity {
            assert(p.2 == prev.2);
            assert(makers.skip(t0) =~= ms.skip(t0).push(m));
            if t0 > 0 {
                assert(ms[t0 - 1] == makers[t0 - 1]);
            }
            assert(p.1 =~= level_after_pass(makers, p.2));
        } else {
            assert(t0 == ms.len());
            assert(makers.skip(t0 + 1) =~= Seq::<Order>::empty());
            assert(ms.skip(t0) =~= Seq::<Order>::empty());
            if t0 > 0 {
                assert(ms[t0 - 1] == makers[t0 - 1]);
                assert(order_wf(makers[t0 - 1]));
                assert(filled_of(after_fill(ms[t0 - 1], prev.2[t0 - 1].quantity as nat)));
            }
            assert(prev.1 =~= Seq::<Order>::empty());
            assert(order_wf(m));
            assert(p.2[t0] .maker_order_id == makers[t0].id);
            assert(p.1 =~= level_after_pass(makers, p.2));
        }
    }
}

/// The quantity traded against the resting order with identifier `id`.
pub open spec fn fills_for(fs: Seq<Fill>, id: String) -> nat
    decreases fs.len(),
{
    if fs.len() == 0 {
        0
    } else {
        fills_for(fs.drop_last(), id) + if fs.last().maker_order_id == id {
            fs.last().quantity as nat
        } else {
            0
        }
    }
}

proof fn lemma_fills_for_concat(a: Seq<Fill>, b: Seq<Fill>, id: String)
    ensures
        fills_for(a + b, id) == fills_for(a, id) + fills_for(b, id),
    decreases b.len(),
{
    if b.len() == 0 {
        assert(a + b =~= a);
    } else {
        lemma_fills_for_concat(a, b.drop_last(), id);
        assert((a + b).drop_last() =~= a + b.drop_last());
    }
}

/// With at most the fill at `j` for `id`, the quantity traded for `id` is that fill's.
proof fn lemma_fills_for_one(fs: Seq<Fill>, id: String, j: int)
    requires
        forall|i: int| 0 <= i < fs.len() && i != j ==> (#[trigger] fs[i]).maker_order_id != id,
    ensures
        fills_for(fs, id) == if 0 <= j < fs.len() && fs[j].maker_order_id == id {
            fs[j].quantity as nat
        } else {
            0
        },
    decreases fs.len(),
{
    if fs.len() > 0 {
        let d = fs.drop_last();
        assert forall|i: int| 0 <= i < d.len() && i != j implies (#[trigger] d[i]).maker_order_id != id by {
            assert(d[i] == fs[i]);
        }
        lemma_fills_for_one(d, id, j);
        if 0 <= j < d.len() {
            assert(d[j] == fs[j]);
        }
    }
}

/// No two orders of a level share an identifier.
pub open spec fn level_ids_unique(s: Seq<Order>) -> bool {
    forall|a: int, b: int| 0 <= a < s.len() && 0 <= b < s.len() && a != b ==> (#[trigger] s[a]).id != (#[trigger] s[b]).id
}

/// No two orders of a side share an identifier.
pub open spec fn ids_unique(v: Map<u64, Seq<Order>>) -> bool {
    forall|k1: u64, a: int, k2: u64, b: int|
        v.contains_key(k1) && v.contains_key(k2) && 0 <= a < v[k1].len() && 0 <= b < v[k2].len() && (
        k1 != k2 || a != b) ==> (#[trigger] v[k1][a]).id != (#[trigger] v[k2][b]).id
}

/// What the resting order at position `j` of a level traded in one pass down the level.
pub open spec fn pass_fill_of(fills: Seq<Fill>, j: int) -> nat {
    if j < fills.len() {
        fills[j].quantity as nat
    } else {
        0
    }
}

/// One resting order's side of a pass down its level: it traded `s` in all; it stays in the
/// level untouched when `s` is 0, stays with `s` more filled when that leaves it something,
/// and leaves the level when `s` fills it.
pub open spec fn maker_outcome(m: Order, s: nat, level: Seq<Order>) -> bool {
    &&& m.filled + s <= m.quantity
    &&& s == 0 ==> level.contains(m)
    &&& 0 < s && m.filled + s < m.quantity ==> level.contains(after_fill(m, s))
    &&& m.filled + s >= m.quantity ==> forall|i: int| 0 <= i < level.len() ==> (#[trigger] level[i]).id != m.id
}

proof fn lemma_level_maker_outcome(quantity: nat, filled: nat, price: u64, makers: Seq<Order>, j: int)
    requires
        filled <= quantity <= u64::MAX,
        forall|i: int| 0 <= i < makers.len() ==> order_wf(#[trigger] makers[i]) && remaining_of(makers[i]) > 0,
        level_ids_unique(makers),
        0 <= j < makers.len(),
    ensures
        ({
            let p = level_pass(quantity, filled, price, makers);
            &&& fills_for(p.2, makers[j].id) == pass_fill_of(p.2, j)
            &&& maker_outcome(makers[j], pass_fill_of(p.2, j), p.1)
        }),
{
    lemma_level_pass_shape(quantity, filled, price, makers);
    let p = level_pass(quantity, filled, price, makers);
    let t = p.2.len() as int;
    let m = makers[j];
    assert forall|i: int| 0 <= i < p.2.len() && i != j implies (#[trigger] p.2[i]).maker_order_id != m.id by {
        assert(p.2[i].maker_order_id == makers[i].id);
    }
    lemma_fills_for_one(p.2, m.id, j);
    let s = pass_fill_of(p.2, j);
    let kept = p.1;
    let rest = makers.skip(t);
    let head = t > 0 && !filled_of(after_fill(makers[t - 1], p.2[t - 1].quantity as nat));
    if j >= t {
        if head {
            assert(kept[1 + j - t] == m);
        } else {
            assert(kept[j - t] == m);
        }
    } else {
        assert(s > 0);
        if j < t - 1 {
            assert(filled_of(after_fill(m, s)));
        }
        if m.filled + s < m.quantity {
            assert(j == t - 1);
            assert(head);
            assert(kept[0] == after_fill(m, s));
        }
        if m.filled + s >= m.quantity {
            assert forall|i: int| 0 <= i < kept.len() implies (#[trigger] kept[i]).id != m.id by {
                if head && i == 0 {
                    assert(j != t - 1);
                    assert(kept[0].id == makers[t - 1].id);
                } else if head {
                    assert(kept[i] == makers[t + i - 1]);
                } else {
                    assert(kept[i] == makers[t + i]);
                }
            }
        }
    }
}

/// The resting order at position `j` of the level at `k`: either the level is as it was and
/// nothing traded against that order, or the incoming order went down the level once (having
/// filled `f` before) and the order traded what that pass gave it.
pub open spec fn level_traded(taker: Order, w: Walk, v: Map<u64, Seq<Order>>, k: u64, j: int) -> bool {
    ||| w.side[k] == v[k] && fills_for(w.fills, v[k][j].id) == 0
    ||| exists|f: nat|
        {
            &&& f <= taker.quantity
            &&& #[trigger] level_pass(taker.quantity as nat, f, k, v[k]).1 == w.side[k]
            &&& fills_for(w.fills, v[k][j].id) == pass_fill_of(
                level_pass(taker.quantity as nat, f, k, v[k]).2,
                j,
            )
        }
}

/// `level_traded` for the order at `(k, j)` after a walk over `keys`, and nothing traded at
/// a level the walk did not come to.
pub open spec fn maker_traded(taker: Order, keys: Seq<u64>, v: Map<u64, Seq<Order>>, k: u64, j: int) -> bool {
    &&& !keys.contains(k) ==> walk(taker, keys, v).side[k] == v[k] && fills_for(
        walk(taker, keys, v).fills,
        v[k][j].id,
    ) == 0
    &&& level_traded(taker, walk(taker, keys, v), v, k, j)
}

proof fn lemma_walk_maker(taker: Order, keys: Seq<u64>, v: Map<u64, Seq<Order>>, k: u64, j: int)
    requires
        order_wf(taker),
        keys.no_duplicates(),
        view_wf(v, opposite(taker.side)),
        all_have_left(v),
        ids_unique(v),
        v.contains_key(k),
        0 <= j < v[k].len(),
    ensures
        maker_traded(taker, keys, v, k, j),
    decreases keys.len(),
{
    let id = v[k][j].id;
    if keys.len() == 0 {
        assert(fills_for(walk(taker, keys, v).fills, id) == 0);
    } else {
        let ks = keys.drop_last();
        let kk = keys.last();
        assert(ks.no_duplicates());
        assert(!ks.contains(kk));
        assert(keys.contains(kk)) by {
            assert(keys[keys.len() - 1] == kk);
        }
        if !keys.contains(k) {
            assert(!ks.contains(k)) by {
                if ks.contains(k) {
                    let a = choose|a: int| 0 <= a < ks.len() && ks[a] == k;
                    assert(keys[a] == k);
                }
            }
        }
        lemma_walk_maker(taker, ks, v, k, j);
        lemma_walk_facts(taker, ks, v);
        lemma_walk_bounds(taker, ks, v);
        let w = walk(taker, ks, v);
        let w2 = walk(taker, keys, v);
        if !(w.stopped || w.filled >= taker.quantity) && w.side.contains_key(kk) && price_acceptable(taker, kk) {
            assert(w.side[kk] == v[kk]);
            let p = level_pass(taker.quantity as nat, w.filled, kk, v[kk]);
            assert forall|i: int| 0 <= i < v[kk].len() implies order_wf(#[trigger] v[kk][i]) && remaining_of(v[kk][i]) > 0 by {}
            lemma_level_pass_shape(taker.quantity as nat, w.filled, kk, v[kk]);
            assert(level_ids_unique(v[kk])) by {
                assert forall|a: int, b: int| 0 <= a < v[kk].len() && 0 <= b < v[kk].len() && a != b implies (#[trigger] v[kk][a]).id != (#[trigger] v[kk][b]).id by {}
            }
            assert(w2.fills == w.fills + p.2);
            lemma_fills_for_concat(w.fills, p.2, id);
            if k == kk {
                lemma_level_maker_outcome(taker.quantity as nat, w.filled, kk, v[kk], j);
                assert(fills_for(w.fills, id) == 0);
                assert(level_pass(taker.quantity as nat, w.filled, k, v[k]).1 == w2.side[k]);
                assert(level_traded(taker, w2, v, k, j));
            } else {
                assert forall|i: int| 0 <= i < p.2.len() implies (#[trigger] p.2[i]).maker_order_id != id by {
                    assert(p.2[i].maker_order_id == v[kk][i].id);
                }
                lemma_fills_for_one(p.2, id, -1);
                assert(w2.side[k] == w.side[k]);
                assert(fills_for(w2.fills, id) == fills_for(w.fills, id));
                if w.side[k] == v[k] && fills_for(w.fills, id) == 0 {
                } else {
                    let f = choose|f: nat| {
                        &&& f <= taker.quantity
                        &&& #[trigger] level_pass(taker.quantity as nat, f, k, v[k]).1 == w.side[k]
                        &&& fills_for(w.fills, v[k][j].id) == pass_fill_of(level_pass(taker.quantity as nat, f, k, v[k]).2, j)
                    };
                    assert(level_pass(taker.quantity as nat, f, k, v[k]).1 == w2.side[k]);
                }
                assert(level_traded(taker, w2, v, k, j));
            }
        } else {
            assert(w2.side == w.side && w2.fills == w.fills);
            assert(level_traded(taker, w, v, k, j));
            if w.side[k] == v[k] && fills_for(w.fills, id) == 0 {
            } else {
                let f = choose|f: nat| {
                    &&& f <= taker.quantity
                    &&& #[trigger] level_pass(taker.quantity as nat, f, k, v[k]).1 == w.side[k]
                    &&& fills_for(w.fills, v[k][j].id) == pass_fill_of(level_pass(taker.quantity as nat, f, k, v[k]).2, j)
                };
                assert(level_pass(taker.quantity as nat, f, k, v[k]).1 == w2.side[k]);
            }
        }
    }
}

/// The resting orders' side of matching, for the whole match, when no two resting orders of
/// the opposite side share an id and each has something left: each such order traded some
/// quantity `s` in all (the sum of the trades made against its id) that fills it no further
/// than its quantity; it is still in its level, untouched, when `s` is 0; it is there with
/// `s` more filled when that leaves it something; and it has left the book when `s` fills it.
pub proof fn lemma_each_maker_fills_by_its_trades(taker: Order, book: OrderBook)
    requires
        order_wf(taker),
        book.wf(),
        ids_unique(side_view(book_side(book, opposite(taker.side)))),
        all_have_left(side_view(book_side(book, opposite(taker.side)))),
    ensures
        ({
            let w = match_walk(taker, book);
            let v = side_view(book_side(book, opposite(taker.side)));
            let after = without_empty_levels(w.side);
            forall|k: u64, j: int|
                #![trigger v[k][j]]
                v.contains_key(k) && 0 <= j < v[k].len() ==> maker_outcome(
                    v[k][j],
                    fills_for(w.fills, v[k][j].id),
                    if after.contains_key(k) {
                        after[k]
                    } else {
                        Seq::empty()
                    },
                )
        }),
{
    let opp_m = book_side(book, opposite(taker.side));
    let d = opp_m.dom();
    let v = side_view(opp_m);
    let keys = priority_keys(d, opposite(taker.side));
    lemma_priority_keys_no_dup(d, opposite(taker.side));
    assert(view_wf(v, opposite(taker.side)));
    lemma_walk_facts(taker, keys, v);
    let w = match_walk(taker, book);
    let after = without_empty_levels(w.side);
    assert(w.side.dom() == v.dom());
    assert forall|k: u64, j: int|
        #![trigger v[k][j]]
        v.contains_key(k) && 0 <= j < v[k].len() implies maker_outcome(
            v[k][j],
            fills_for(w.fills, v[k][j].id),
            if after.contains_key(k) {
                after[k]
            } else {
                Seq::empty()
            },
        ) by {
        lemma_walk_maker(taker, keys, v, k, j);
        let m = v[k][j];
        let lvl = if after.contains_key(k) { after[k] } else { Seq::<Order>::empty() };
        assert forall|i: int| 0 <= i < v[k].len() implies order_wf(#[trigger] v[k][i]) && remaining_of(v[k][i]) > 0 by {}
        assert(level_ids_unique(v[k])) by {
            assert forall|a: int, b: int| 0 <= a < v[k].len() && 0 <= b < v[k].len() && a != b implies (#[trigger] v[k][a]).id != (#[trigger] v[k][b]).id by {}
        }
        if w.side[k] == v[k] && fills_for(w.fills, m.id) == 0 {
            assert(v[k].len() > 0);
            assert(after.contains_key(k));
            assert(lvl[j] == m);
        } else {
            let f = choose|f: nat| {
                &&& f <= taker.quantity
                &&& #[trigger] level_pass(taker.quantity as nat, f, k, v[k]).1 == w.side[k]
                &&& fills_for(w.fills, v[k][j].id) == pass_fill_of(level_pass(taker.quantity as nat, f, k, v[k]).2, j)
            };
            lemma_level_maker_outcome(taker.quantity as nat, f, k, v[k], j);
            let kept = w.side[k];
            if kept.len() > 0 {
                assert(after.contains_key(k) && lvl == kept);
            } else {
                assert(lvl =~= kept);
            }
        }
    }
}

/// Facts about a walk over `keys`, by induction over its prefixes.
proof fn lemma_walk_facts(taker: Order, keys: Seq<u64>, v: Map<u64, Seq<Order>>)
    requires
        order_wf(taker),
        keys.no_duplicates(),
    ensures
        ({
            let w = walk(taker, keys, v);
            &&& w.filled == taker.filled + fills_total(w.fills)
            &&& taker.filled <= w.filled <= taker.quantity
            &&& w.side.dom() == v.dom()
            &&& forall|k: u64| #[trigger]
                v.contains_key(k) && !keys.contains(k) ==> w.side[k] == v[k]
            &&& forall|i: int|
                0 <= i < w.fills.len() ==> {
                    &&& price_acceptable(taker, (#[trigger] w.fills[i]).price)
                    &&& keys.contains(w.fills[i].price)
                    &&& v.contains_key(w.fills[i].price)
                    &&& exists|j: int|
                        0 <= j < v[w.fills[i].price].len() && v[w.fills[i].price][j].id
                            == w.fills[i].maker_order_id
                }
        }),
    decreases keys.len(),
{
    if keys.len() > 0 {
        let ks = keys.drop_last();
        let k = keys.last();
        assert(ks.no_duplicates());
        lemma_walk_facts(taker, ks, v);
        let w = walk(taker, ks, v);
        assert(!ks.contains(k));
        assert forall|x: u64| ks.contains(x) implies keys.contains(x) by {
            let a = choose|a: int| 0 <= a < ks.len() && ks[a] == x;
            assert(keys[a] == x);
        }
        assert forall|x: u64| #[trigger] keys.contains(x) && x != k implies ks.contains(x) by {
            let a = choose|a: int| 0 <= a < keys.len() && keys[a] == x;
            assert(ks[a] == x);
        }
        assert(keys.contains(k)) by {
            assert(keys[keys.len() - 1] == k);
        }
        if !(w.stopped || w.filled >= taker.quantity) && w.side.contains_key(k) && price_acceptable(
            taker,
            k,
        ) {
            let p = level_pass(taker.quantity as nat, w.filled, k, w.side[k]);
            lemma_level_pass_total(taker.quantity as nat, w.filled, k, w.side[k]);
            lemma_fills_total_concat(w.fills, p.2);
            let w2 = walk(taker, keys, v);
            assert(w2.side.dom() =~= v.dom());
            assert(w.side[k] == v[k]);
            assert forall|i: int| 0 <= i < w2.fills.len() implies {
                &&& price_acceptable(taker, (#[trigger] w2.fills[i]).price)
                &&& keys.contains(w2.fills[i].price)
                &&& v.contains_key(w2.fills[i].price)
                &&& exists|j: int|
                    0 <= j < v[w2.fills[i].price].len() && v[w2.fills[i].price][j].id
                        == w2.fills[i].maker_order_id
            } by {
                if i < w.fills.len() {
                    assert(w2.fills[i] == w.fills[i]);
                } else {
                    assert(w2.fills[i] == p.2[i - w.fills.len()]);
                }
            }
        }
    }
}

/// Matching conserves quantity: what the incoming order fills is exactly the sum of the
/// quantities of its trades, and never more than it asked for.
pub proof fn lemma_match_conserves_quantity(taker: Order, book: OrderBook)
    requires
        order_wf(taker),
        book.wf(),
    ensures
        match_walk(taker, book).filled == taker.filled + fills_total(match_walk(taker, book).fills),
        match_walk(taker, book).filled <= taker.quantity,
{
    lemma_match_walk_facts(taker, book);
}

#[verifier::spinoff_prover]
/// A limit order trades only at prices within its limit: a buy at or below it, a sell at or
/// above it. Each trade is at the price of a level of the opposite side, and fills an order
/// that was resting there, so it is at that resting order's own price.
pub proof fn lemma_trades_at_resting_prices(taker: Order, book: OrderBook)
    requires
        order_wf(taker),
        book.wf(),
    ensures
        ({
            let w = match_walk(taker, book);
            let opp = side_view(book_side(book, opposite(taker.side)));
            forall|i: int|
                0 <= i < w.fills.len() ==> {
                    &&& taker.order_type == OrderType::Limit ==> (match taker.side {
                        Side::Buy => (#[trigger] w.fills[i]).price <= taker.price,
                        Side::Sell => w.fills[i].price >= taker.price,
                    })
                    &&& opp.contains_key(w.fills[i].price)
                    &&& exists|j: int|
                        0 <= j < opp[w.fills[i].price].len() && opp[w.fills[i].price][j].id
                            == w.fills[i].maker_order_id && opp[w.fills[i].price][j].price
                            == w.fills[i].price
                }
        }),
{
    lemma_match_walk_facts(taker, book);
    let w = match_walk(taker, book);
    let opp = side_view(book_side(book, opposite(taker.side)));
    assert forall|i: int| 0 <= i < w.fills.len() implies {
        &&& taker.order_type == OrderType::Limit ==> (match taker.side {
            Side::Buy => (#[trigger] w.fills[i]).price <= taker.price,
            Side::Sell => w.fills[i].price >= taker.price,
        })
        &&& opp.contains_key(w.fills[i].price)
        &&& exists|j: int|
            0 <= j < opp[w.fills[i].price].len() && opp[w.fills[i].price][j].id
                == w.fills[i].maker_order_id && opp[w.fills[i].price][j].price
                == w.fills[i].price
    } by {
        let f = w.fills[i];
        assert(price_acceptable(taker, f.price));
        let j = choose|j: int|
            0 <= j < opp[f.price].len() && opp[f.price][j].id == f.maker_order_id;
        assert(opp[f.price][j].price == f.price);
    }
}

/// `keys` are strictly increasing when `up`, strictly decreasing otherwise.
pub open spec fn strictly_monotone(keys: Seq<u64>, up: bool) -> bool {
    forall|i: int, j: int|
        0 <= i < j < keys.len() ==> if up {
            keys[i] < keys[j]
        } else {
            keys[i] > keys[j]
        }
}

proof fn lemma_walk_monotone(taker: Order, keys: Seq<u64>, v: Map<u64, Seq<Order>>, up: bool)
    requires
        order_wf(taker),
        strictly_monotone(keys, up),
    ensures
        ({
            let w = walk(taker, keys, v);
            forall|i: int, j: int|
                0 <= i < j < w.fills.len() ==> if up {
                    (#[trigger] w.fills[i]).price <= (#[trigger] w.fills[j]).price
                } else {
                    w.fills[i].price >= w.fills[j].price
                }
        }),
    decreases keys.len(),
{
    if keys.len() > 0 {
        let ks = keys.drop_last();
        let k = keys.last();
        assert(ks.no_duplicates()) by {
            assert forall|a: int, b: int| 0 <= a < ks.len() && 0 <= b < ks.len() && a != b implies ks[a] != ks[b] by {
                if a < b {
                    assert(keys[a] != keys[b]);
                } else {
                    assert(keys[b] != keys[a]);
                }
            }
        }
        assert(keys.no_duplicates()) by {
            assert forall|a: int, b: int| 0 <= a < keys.len() && 0 <= b < keys.len() && a != b implies keys[a] != keys[b] by {
                if a < b {
                    assert(keys[a] != keys[b]);
                } else {
                    assert(keys[b] != keys[a]);
                }
            }
        }
        lemma_walk_monotone(taker, ks, v, up);
        lemma_walk_facts(taker, ks, v);
        let w = walk(taker, ks, v);
        if !(w.stopped || w.filled >= taker.quantity) && w.side.contains_key(k) && price_acceptable(
            taker,
            k,
        ) {
            let p = level_pass(taker.quantity as nat, w.filled, k, w.side[k]);
            lemma_level_pass_total(taker.quantity as nat, w.filled, k, w.side[k]);
            let w2 = walk(taker, keys, v);
            assert forall|i: int, j: int| 0 <= i < j < w2.fills.len() implies if up {
                (#[trigger] w2.fills[i]).price <= (#[trigger] w2.fills[j]).price
            } else {
                w2.fills[i].price >= w2.fills[j].price
            } by {
                if j >= w.fills.len() {
                    assert(w2.fills[j] == p.2[j - w.fills.len()]);
                    if i < w.fills.len() {
                        assert(w2.fills[i] == w.fills[i]);
                        assert(ks.contains(w.fills[i].price));
                        let a = choose|a: int| 0 <= a < ks.len() && ks[a] == w.fills[i].price;
                        assert(keys[a] == ks[a]);
                    } else {
                        assert(w2.fills[i] == p.2[i - w.fills.len()]);
                    }
                } else {
                    assert(w2.fills[i] == w.fills[i]);
                    assert(w2.fills[j] == w.fills[j]);
                }
            }
        }
    }
}

/// Price priority: an incoming buy takes asks from the lowest price up, an incoming sell
/// takes bids from the highest price down, so the prices of its trades never get better for
/// it from one trade to the next.
pub proof fn lemma_trades_in_price_priority(taker: Order, book: OrderBook)
    requires
        order_wf(taker),
        book.wf(),
    ensures
        ({
            let w = match_walk(taker, book);
            forall|i: int, j: int|
                0 <= i < j < w.fills.len() ==> match taker.side {
                    Side::Buy => (#[trigger] w.fills[i]).price <= (#[trigger] w.fills[j]).price,
                    Side::Sell => w.fills[i].price >= w.fills[j].price,
                }
        }),
{
    let opp_m = book_side(book, opposite(taker.side));
    let d = opp_m.dom();
    lemma_sorted_keys_exist(d);
    let s = sorted_key_seq(d);
    match taker.side {
        Side::Buy => {
            lemma_walk_monotone(taker, s, side_view(opp_m), true);
        },
        Side::Sell => {
            let r = s.reverse();
            assert forall|a: int, b: int| 0 <= a < b < r.len() implies r[a] > r[b] by {
                assert(r[a] == s[s.len() - 1 - a]);
                assert(r[b] == s[s.len() - 1 - b]);
            }
            lemma_walk_monotone(taker, r, side_view(opp_m), false);
        },
    }
}

proof fn lemma_level_pass_consumes(quantity: nat, filled: nat, price: u64, makers: Seq<Order>)
    requires
        forall|i: int| 0 <= i < makers.len() ==> order_wf(#[trigger] makers[i]),
    ensures
        level_pass(quantity, filled, price, makers).0 >= filled,
        level_pass(quantity, filled, price, makers).0 < quantity ==> level_pass(
            quantity,
            filled,
            price,
            makers,
        ).1.len() == 0,
    decreases makers.len(),
{
    if makers.len() > 0 {
        assert forall|i: int| 0 <= i < makers.drop_last().len() implies order_wf(
            #[trigger] makers.drop_last()[i],
        ) by {
            assert(makers.drop_last()[i] == makers[i]);
        }
        lemma_level_pass_consumes(quantity, filled, price, makers.drop_last());
        assert(order_wf(makers[makers.len() - 1]));
    }
}

/// Acceptable prices come first along `keys`: once a price is not taken, no later one is.
pub open spec fn acceptable_prefix(taker: Order, keys: Seq<u64>) -> bool {
    forall|i: int, j: int|
        0 <= i < j < keys.len() && price_acceptable(taker, #[trigger] keys[j]) ==> price_acceptable(
            taker,
            #[trigger] keys[i],
        )
}

proof fn lemma_walk_consumes(taker: Order, keys: Seq<u64>, v: Map<u64, Seq<Order>>)
    requires
        order_wf(taker),
        keys.no_duplicates(),
        acceptable_prefix(taker, keys),
        view_wf(v, opposite(taker.side)),
    ensures
        ({
            let w = walk(taker, keys, v);
            &&& w.stopped ==> exists|j: int| 0 <= j < keys.len() && !price_acceptable(taker, #[trigger] keys[j])
            &&& w.filled < taker.quantity ==> forall|j: int|
                0 <= j < keys.len() && v.contains_key(#[trigger] keys[j]) && price_acceptable(taker, keys[j])
                    ==> w.side[keys[j]].len() == 0
        }),
    decreases keys.len(),
{
    if keys.len() > 0 {
        let ks = keys.drop_last();
        let k = keys.last();
        assert(ks.no_duplicates());
        assert(acceptable_prefix(taker, ks)) by {
            assert forall|i: int, j: int|
                0 <= i < j < ks.len() && price_acceptable(taker, #[trigger] ks[j]) implies price_acceptable(
                taker,
                #[trigger] ks[i],
            ) by {
                assert(keys[i] == ks[i] && keys[j] == ks[j]);
            }
        }
        lemma_walk_consumes(taker, ks, v);
        lemma_walk_facts(taker, ks, v);
        lemma_walk_bounds(taker, ks, v);
        let w = walk(taker, ks, v);
        let w2 = walk(taker, keys, v);
        if w.stopped || w.filled >= taker.quantity {
            if w.stopped {
                let j0 = choose|j: int| 0 <= j < ks.len() && !price_acceptable(taker, #[trigger] ks[j]);
                assert(keys[j0] == ks[j0]);
                assert(!price_acceptable(taker, k)) by {
                    if price_acceptable(taker, keys[keys.len() - 1]) {
                        assert(price_acceptable(taker, keys[j0]));
                    }
                }
            }
            assert forall|j: int|
                0 <= j < keys.len() && v.contains_key(#[trigger] keys[j]) && price_acceptable(taker, keys[j])
                    && w2.filled < taker.quantity implies w2.side[keys[j]].len() == 0 by {
                if j < ks.len() {
                    assert(keys[j] == ks[j]);
                }
            }
        } else if !w.side.contains_key(k) {
            assert forall|j: int|
                0 <= j < keys.len() && v.contains_key(#[trigger] keys[j]) && price_acceptable(taker, keys[j])
                    && w2.filled < taker.quantity implies w2.side[keys[j]].len() == 0 by {
                if j < ks.len() {
                    assert(keys[j] == ks[j]);
                }
            }
        } else if !price_acceptable(taker, k) {
            assert(!price_acceptable(taker, keys[keys.len() - 1]));
            assert forall|j: int|
                0 <= j < keys.len() && v.contains_key(#[trigger] keys[j]) && price_acceptable(taker, keys[j])
                    && w2.filled < taker.quantity implies w2.side[keys[j]].len() == 0 by {
                if j < ks.len() {
                    assert(keys[j] == ks[j]);
                }
            }
        } else {
            let p = level_pass(taker.quantity as nat, w.filled, k, w.side[k]);
            assert forall|i: int| 0 <= i < w.side[k].len() implies order_wf(#[trigger] w.side[k][i]) by {
                assert(w.side.contains_key(k));
            }
            lemma_level_pass_consumes(taker.quantity as nat, w.filled, k, w.side[k]);
            assert forall|j: int|
                0 <= j < keys.len() && v.contains_key(#[trigger] keys[j]) && price_acceptable(taker, keys[j])
                    && w2.filled < taker.quantity implies w2.side[keys[j]].len() == 0 by {
                if j < ks.len() {
                    assert(keys[j] == ks[j]);
                    assert(keys[j] != k);
                }
            }
        }
    }
}

/// No bid price is at or above any ask price.
pub open spec fn uncrossed(bids: Map<u64, Seq<Order>>, asks: Map<u64, Seq<Order>>) -> bool {
    forall|b: u64, a: u64| #[trigger] bids.contains_key(b) && #[trigger] asks.contains_key(a) ==> b < a
}

/// The bids and the asks after processing `taker`.
pub open spec fn bids_after(book: OrderBook, taker: Order) -> Map<u64, Seq<Order>> {
    let w = match_walk(taker, book);
    match taker.side {
        Side::Buy => own_side_after(book, taker, w),
        Side::Sell => without_empty_levels(w.side),
    }
}

pub open spec fn asks_after(book: OrderBook, taker: Order) -> Map<u64, Seq<Order>> {
    let w = match_walk(taker, book);
    match taker.side {
        Side::Buy => without_empty_levels(w.side),
        Side::Sell => own_side_after(book, taker, w),
    }
}

/// Processing an order keeps an uncrossed book uncrossed: a limit order that rests has taken
/// every opposite level at a price it accepts, so no bid is left at or above any ask.
pub proof fn lemma_process_keeps_book_uncrossed(taker: Order, book: OrderBook)
    requires
        order_wf(taker),
        book.wf(),
        uncrossed(side_view(book.bids@), side_view(book.asks@)),
    ensures
        uncrossed(bids_after(book, taker), asks_after(book, taker)),
{
    let opp_m = book_side(book, opposite(taker.side));
    let d = opp_m.dom();
    let v = side_view(opp_m);
    let keys = priority_keys(d, opposite(taker.side));
    lemma_priority_keys_no_dup(d, opposite(taker.side));
    lemma_priority_acceptable_prefix(taker, d);
    assert(view_wf(v, opposite(taker.side)));
    lemma_walk_consumes(taker, keys, v);
    lemma_walk_facts(taker, keys, v);
    let w = match_walk(taker, book);
    let bids = side_view(book.bids@);
    let asks = side_view(book.asks@);
    let nb = bids_after(book, taker);
    let na = asks_after(book, taker);
    assert forall|b: u64, a: u64| #[trigger] nb.contains_key(b) && #[trigger] na.contains_key(a) implies b < a by {
        let rests = taker.order_type == OrderType::Limit && w.filled < taker.quantity;
        match taker.side {
            Side::Buy => {
                assert(asks.contains_key(a));
                if rests && b == taker.price {
                    assert(keys.to_set().contains(a));
                    let j = choose|j: int| 0 <= j < keys.len() && keys[j] == a;
                    assert(!price_acceptable(taker, keys[j]));
                } else {
                    assert(bids.contains_key(b));
                }
            },
            Side::Sell => {
                assert(bids.contains_key(b));
                if rests && a == taker.price {
                    assert(keys.to_set().contains(b));
                    let j = choose|j: int| 0 <= j < keys.len() && keys[j] == b;
                    assert(!price_acceptable(taker, keys[j]));
                } else {
                    assert(asks.contains_key(a));
                }
            },
        }
    }
}

/// Adding an order puts it behind every order already resting at its price on its side:
/// those keep their places, in order, and every other level of the book is as it was.
pub proof fn lemma_added_order_joins_back_of_its_level(b0: OrderBook, b1: OrderBook, o: Order)
    requires
        add_outcome(b0, b1, o),
    ensures
        ({
            let before = side_view(book_side(b0, o.side));
            let after = side_view(book_side(b1, o.side));
            let old_level = orders_at(before, o.price);
            let new_level = orders_at(after, o.price);
            &&& new_level.len() == old_level.len() + 1
            &&& forall|i: int| 0 <= i < old_level.len() ==> #[trigger] new_level[i] == old_level[i]
            &&& new_level.last() == o
            &&& forall|k: u64| k != o.price ==> #[trigger] orders_at(after, k) == orders_at(before, k)
            &&& side_view(book_side(b1, opposite(o.side))) == side_view(book_side(b0, opposite(o.side)))
        }),
{
    let before = side_view(book_side(b0, o.side));
    let after = side_view(book_side(b1, o.side));
    assert(after.contains_key(o.price));
    assert forall|k: u64| k != o.price implies #[trigger] orders_at(after, k) == orders_at(before, k) by {}
}

/// Cancelling an order just added gives it back: when no order of the book has its id,
/// adding it and then cancelling that id returns exactly it, and every level holds again
/// what it held before (a level that the add opened stays, empty).
pub proof fn lemma_cancel_returns_added(
    b0: OrderBook,
    b1: OrderBook,
    b2: OrderBook,
    o: Order,
    r: Option<Order>,
)
    requires
        b0.wf(),
        order_wf(o),
        !side_holds_id(side_view(b0.bids@), o.id@),
        !side_holds_id(side_view(b0.asks@), o.id@),
        add_outcome(b0, b1, o),
        cancel_outcome(b1, b2, o.id@, r),
    ensures
        r == Some(o),
        forall|k: u64|
            #![trigger orders_at(side_view(b2.bids@), k)]
            orders_at(side_view(b2.bids@), k) == orders_at(side_view(b0.bids@), k),
        forall|k: u64|
            #![trigger orders_at(side_view(b2.asks@), k)]
            orders_at(side_view(b2.asks@), k) == orders_at(side_view(b0.asks@), k),
{
    let id = o.id@;
    let v0 = side_view(book_side(b0, o.side));
    let v1 = side_view(book_side(b1, o.side));
    let p = o.price;
    let last = orders_at(v0, p).len() as int;
    assert(v1.contains_key(p) && v1[p][last] == o);
    assert(holds_id(v1[p], id));
    assert(side_holds_id(v1, id));
    // Only `o` has the id after the add.
    assert forall|k: u64, i: int| v1.contains_key(k) && 0 <= i < v1[k].len() && (#[trigger] v1[k][i]).id@ == id
        implies k == p && i == last by {
        if k != p {
            assert(v0.contains_key(k) && v1[k] == v0[k]);
            assert(holds_id(v0[k], id));
        } else if i != last {
            assert(v1[p][i] == orders_at(v0, p)[i]);
            assert(holds_id(v0[p], id));
        }
    }
    let o2 = r.unwrap();
    match o.side {
        Side::Buy => {
            assert(side_view(b1.asks@) == side_view(b0.asks@));
            let (k, i) = choose|k: u64, i: int|
                {
                    &&& first_with_id(side_view(b1.bids@), id, k, i)
                    &&& o2 == side_view(b1.bids@)[k][i]
                    &&& side_view(b2.bids@) == side_view(b1.bids@).insert(k, side_view(b1.bids@)[k].remove(i))
                };
            assert(k == p && i == last);
            assert(v1[p].remove(last) =~= orders_at(v0, p));
        },
        Side::Sell => {
            assert(side_view(b1.bids@) == side_view(b0.bids@));
            let (k, i) = choose|k: u64, i: int|
                {
                    &&& first_with_id(side_view(b1.asks@), id, k, i)
                    &&& o2 == side_view(b1.asks@)[k][i]
                    &&& side_view(b2.asks@) == side_view(b1.asks@).insert(k, side_view(b1.asks@)[k].remove(i))
                };
            assert(k == p && i == last);
            assert(v1[p].remove(last) =~= orders_at(v0, p));
        },
    }
}

/// Along the matching order of the opposite side, the prices an order takes come first.
proof fn lemma_priority_acceptable_prefix(taker: Order, d: Set<u64>)
    requires
        d.finite(),
    ensures
        acceptable_prefix(taker, priority_keys(d, opposite(taker.side))),
        strictly_monotone(priority_keys(d, opposite(taker.side)), taker.side == Side::Buy),
{
    let keys = priority_keys(d, opposite(taker.side));
    lemma_sorted_keys_exist(d);
    let s = sorted_key_seq(d);
    assert forall|i: int, j: int| 0 <= i < j < keys.len() implies if taker.side == Side::Buy {
        keys[i] < keys[j]
    } else {
        keys[i] > keys[j]
    } by {
        if taker.side == Side::Sell {
            assert(keys[i] == s[s.len() - 1 - i]);
            assert(keys[j] == s[s.len() - 1 - j]);
        }
    }
    assert forall|i: int, j: int|
        0 <= i < j < keys.len() && price_acceptable(taker, #[trigger] keys[j]) implies price_acceptable(
        taker,
        #[trigger] keys[i],
    ) by {
        if taker.side == Side::Buy {
            assert(keys[i] < keys[j]);
        } else {
            assert(keys[i] > keys[j]);
        }
    }
}

/// Every order of the side has something left to fill.
pub open spec fn all_have_left(v: Map<u64, Seq<Order>>) -> bool {
    forall|k: u64, i: int| #[trigger] v.contains_key(k) && 0 <= i < v[k].len() ==> remaining_of(#[trigger] v[k][i]) > 0
}

/// The incoming order went down the level at `k` once, having filled `f` before: the level
/// now holds what that pass left, and the pass's fills stand at `lo` among all the fills.
pub open spec fn level_passed(taker: Order, w: Walk, v: Map<u64, Seq<Order>>, k: u64, f: nat, lo: int) -> bool {
    let p = level_pass(taker.quantity as nat, f, k, v[k]);
    &&& f <= taker.quantity
    &&& 0 <= lo
    &&& lo + p.2.len() <= w.fills.len()
    &&& w.side[k] == p.1
    &&& w.fills.subrange(lo, lo + p.2.len()) == p.2
}

proof fn lemma_walk_levels(taker: Order, keys: Seq<u64>, v: Map<u64, Seq<Order>>)
    requires
        order_wf(taker),
        keys.no_duplicates(),
        view_wf(v, opposite(taker.side)),
    ensures
        ({
            let w = walk(taker, keys, v);
            &&& forall|k: u64|
                #[trigger] v.contains_key(k) ==> w.side[k] == v[k] || exists|f: nat, lo: int|
                    level_passed(taker, w, v, k, f, lo)
            &&& all_have_left(v) ==> forall|i: int| 0 <= i < w.fills.len() ==> (#[trigger] w.fills[i]).quantity > 0
        }),
    decreases keys.len(),
{
    if keys.len() > 0 {
        let ks = keys.drop_last();
        let kk = keys.last();
        assert(ks.no_duplicates());
        assert(!ks.contains(kk));
        lemma_walk_levels(taker, ks, v);
        lemma_walk_facts(taker, ks, v);
        lemma_walk_bounds(taker, ks, v);
        let w = walk(taker, ks, v);
        let w2 = walk(taker, keys, v);
        if !(w.stopped || w.filled >= taker.quantity) && w.side.contains_key(kk) && price_acceptable(taker, kk) {
            assert(w.side[kk] == v[kk]);
            let p = level_pass(taker.quantity as nat, w.filled, kk, v[kk]);
            assert forall|i: int| 0 <= i < v[kk].len() implies order_wf(#[trigger] v[kk][i]) by {}
            lemma_level_pass_shape(taker.quantity as nat, w.filled, kk, v[kk]);
            assert(w2.fills == w.fills + p.2);
            assert forall|k: u64| #[trigger] v.contains_key(k) implies w2.side[k] == v[k] || exists|f: nat, lo: int|
                level_passed(taker, w2, v, k, f, lo) by {
                if k == kk {
                    assert(w2.fills.subrange(w.fills.len() as int, w2.fills.len() as int) =~= p.2);
                    assert(level_passed(taker, w2, v, k, w.filled, w.fills.len() as int));
                } else if w.side[k] != v[k] {
                    let (f, lo) = choose|f: nat, lo: int| level_passed(taker, w, v, k, f, lo);
                    let q = level_pass(taker.quantity as nat, f, k, v[k]);
                    assert(w2.fills.subrange(lo, lo + q.2.len()) =~= w.fills.subrange(lo, lo + q.2.len()));
                    assert(level_passed(taker, w2, v, k, f, lo));
                }
            }
            if all_have_left(v) {
                assert forall|i: int| 0 <= i < w2.fills.len() implies (#[trigger] w2.fills[i]).quantity > 0 by {
                    if i >= w.fills.len() {
                        let j = i - w.fills.len();
                        assert(w2.fills[i] == p.2[j]);
                        assert(remaining_of(v[kk][j]) > 0);
                    } else {
                        assert(w2.fills[i] == w.fills[i]);
                    }
                }
            }
        } else {
            assert forall|k: u64| #[trigger] v.contains_key(k) implies w2.side[k] == v[k] || exists|f: nat, lo: int|
                level_passed(taker, w2, v, k, f, lo) by {
                if w.side[k] != v[k] {
                    let (f, lo) = choose|f: nat, lo: int| level_passed(taker, w, v, k, f, lo);
                    assert(level_passed(taker, w2, v, k, f, lo));
                }
            }
        }
    }
}

/// Time priority over the whole match: every level of the opposite side either was not
/// reached and is as it was, or the incoming order went down it once, and then it holds what
/// that pass left (see `lemma_level_pass_shape`: the oldest orders trade first, those used up
/// leave, the rest keep their places) and that pass's trades stand together, in queue order,
/// among all the trades. When no resting order was empty, every trade is for something.
pub proof fn lemma_match_levels(taker: Order, book: OrderBook)
    requires
        order_wf(taker),
        book.wf(),
    ensures
        ({
            let w = match_walk(taker, book);
            let v = side_view(book_side(book, opposite(taker.side)));
            &&& forall|k: u64|
                #[trigger] v.contains_key(k) ==> w.side[k] == v[k] || exists|f: nat, lo: int|
                    level_passed(taker, w, v, k, f, lo)
            &&& all_have_left(v) ==> forall|i: int| 0 <= i < w.fills.len() ==> (#[trigger] w.fills[i]).quantity > 0
        }),
{
    let opp_m = book_side(book, opposite(taker.side));
    let d = opp_m.dom();
    lemma_priority_keys_no_dup(d, opposite(taker.side));
    assert(view_wf(side_view(opp_m), opposite(taker.side)));
    lemma_walk_levels(taker, priority_keys(d, opposite(taker.side)), side_view(opp_m));
}

proof fn lemma_walk_earlier_levels_emptied(taker: Order, keys: Seq<u64>, v: Map<u64, Seq<Order>>)
    requires
        order_wf(taker),
        keys.no_duplicates(),
        acceptable_prefix(taker, keys),
        view_wf(v, opposite(taker.side)),
    ensures
        ({
            let w = walk(taker, keys, v);
            forall|i: int, a: int, b: int|
                #![trigger w.fills[i], keys[a], keys[b]]
                0 <= i < w.fills.len() && 0 <= b < a < keys.len() && keys[a] == w.fills[i].price
                    && v.contains_key(keys[b]) ==> w.side[keys[b]].len() == 0
        }),
    decreases keys.len(),
{
    if keys.len() > 0 {
        let ks = keys.drop_last();
        let kk = keys.last();
        assert(ks.no_duplicates());
        assert(!ks.contains(kk));
        assert(acceptable_prefix(taker, ks)) by {
            assert forall|i: int, j: int|
                0 <= i < j < ks.len() && price_acceptable(taker, #[trigger] ks[j]) implies price_acceptable(
                taker,
                #[trigger] ks[i],
            ) by {
                assert(keys[i] == ks[i] && keys[j] == ks[j]);
            }
        }
        lemma_walk_earlier_levels_emptied(taker, ks, v);
        lemma_walk_facts(taker, ks, v);
        lemma_walk_consumes(taker, ks, v);
        lemma_walk_bounds(taker, ks, v);
        let w = walk(taker, ks, v);
        let w2 = walk(taker, keys, v);
        let passed = !(w.stopped || w.filled >= taker.quantity) && w.side.contains_key(kk) && price_acceptable(taker, kk);
        let p = level_pass(taker.quantity as nat, w.filled, kk, w.side[kk]);
        if passed {
            lemma_level_pass_total(taker.quantity as nat, w.filled, kk, w.side[kk]);
            assert(w2.fills == w.fills + p.2);
        }
        assert forall|i: int, a: int, b: int|
            #![trigger w2.fills[i], keys[a], keys[b]]
            0 <= i < w2.fills.len() && 0 <= b < a < keys.len() && keys[a] == w2.fills[i].price
                && v.contains_key(keys[b]) implies w2.side[keys[b]].len() == 0 by {
            if passed && i >= w.fills.len() {
                // a fill of the level just passed: every earlier acceptable level was used up
                assert(w2.fills[i] == p.2[i - w.fills.len()]);
                assert(keys[a] == kk);
                assert(a == keys.len() - 1);
                assert(keys[b] == ks[b]);
                assert(price_acceptable(taker, keys[b]));
                assert(ks[b] != kk);
            } else {
                assert(w2.fills[i] == w.fills[i]);
                assert(ks.contains(w.fills[i].price));
                let a2 = choose|a2: int| 0 <= a2 < ks.len() && ks[a2] == w.fills[i].price;
                assert(keys[a2] == ks[a2]);
                assert(a == a2);
                assert(keys[b] == ks[b]);
                if passed {
                    assert(ks[b] != kk);
                }
            }
        }
    }
}

/// Price priority, in full: before an incoming buy trades at some ask price, every ask level
/// below it has been used up and is gone; before an incoming sell trades at some bid price,
/// every bid level above it has been used up and is gone.
pub proof fn lemma_better_levels_used_up_first(taker: Order, book: OrderBook)
    requires
        order_wf(taker),
        book.wf(),
    ensures
        ({
            let w = match_walk(taker, book);
            let v = side_view(book_side(book, opposite(taker.side)));
            let after = without_empty_levels(w.side);
            forall|i: int, k: u64|
                0 <= i < w.fills.len() && #[trigger] v.contains_key(k) && (match taker.side {
                    Side::Buy => k < (#[trigger] w.fills[i]).price,
                    Side::Sell => k > w.fills[i].price,
                }) ==> !after.contains_key(k)
        }),
{
    let opp_m = book_side(book, opposite(taker.side));
    let d = opp_m.dom();
    let v = side_view(opp_m);
    let keys = priority_keys(d, opposite(taker.side));
    lemma_priority_keys_no_dup(d, opposite(taker.side));
    lemma_priority_acceptable_prefix(taker, d);
    assert(view_wf(v, opposite(taker.side)));
    lemma_walk_earlier_levels_emptied(taker, keys, v);
    lemma_walk_facts(taker, keys, v);
    let w = match_walk(taker, book);
    let after = without_empty_levels(w.side);
    assert forall|i: int, k: u64|
        0 <= i < w.fills.len() && #[trigger] v.contains_key(k) && (match taker.side {
            Side::Buy => k < (#[trigger] w.fills[i]).price,
            Side::Sell => k > w.fills[i].price,
        }) implies !after.contains_key(k) by {
        assert(keys.contains(w.fills[i].price));
        let a = choose|a: int| 0 <= a < keys.len() && keys[a] == w.fills[i].price;
        assert(keys.to_set().contains(k));
        let b = choose|b: int| 0 <= b < keys.len() && keys[b] == k;
        if a <= b {
            if a < b {
                assert(strictly_monotone(keys, taker.side == Side::Buy));
            }
        } else {
            assert(w.side[keys[b]].len() == 0);
        }
    }
}

/// When matching stops: the incoming order is filled; or, if not, a market order has used up
/// the whole opposite side, a limit buy has left only asks above its price, and a limit sell
/// only bids below its price.
pub proof fn lemma_match_stops_only_when_filled_or_out_of_price(taker: Order, book: OrderBook)
    requires
        order_wf(taker),
        book.wf(),
    ensures
        ({
            let w = match_walk(taker, book);
            let after = without_empty_levels(w.side);
            ||| w.filled >= taker.quantity
            ||| taker.order_type == OrderType::Market && after.dom().is_empty()
            ||| taker.order_type == OrderType::Limit && taker.side == Side::Buy && forall|k: u64|
                #[trigger] after.contains_key(k) ==> k > taker.price
            ||| taker.order_type == OrderType::Limit && taker.side == Side::Sell && forall|k: u64|
                #[trigger] after.contains_key(k) ==> k < taker.price
        }),
{
    let opp_m = book_side(book, opposite(taker.side));
    let d = opp_m.dom();
    let v = side_view(opp_m);
    let keys = priority_keys(d, opposite(taker.side));
    lemma_priority_keys_no_dup(d, opposite(taker.side));
    lemma_priority_acceptable_prefix(taker, d);
    assert(view_wf(v, opposite(taker.side)));
    lemma_walk_consumes(taker, keys, v);
    lemma_walk_facts(taker, keys, v);
    let w = match_walk(taker, book);
    let after = without_empty_levels(w.side);
    if w.filled < taker.quantity {
        assert forall|k: u64| #[trigger] after.contains_key(k) implies !price_acceptable(taker, k) by {
            assert(keys.to_set().contains(k));
            let j = choose|j: int| 0 <= j < keys.len() && keys[j] == k;
            assert(v.contains_key(keys[j]));
        }
        if taker.order_type == OrderType::Market {
            assert(after.dom() =~= Set::<u64>::empty()) by {
                assert forall|k: u64| !after.dom().contains(k) by {
                    if after.contains_key(k) {
                        assert(!price_acceptable(taker, k));
                    }
                }
            }
        }
    }
}

/// Matching keeps every resting order with something left to fill: the side it swept has
/// no empty level, a resting order it traded with stays only while it has something left,
/// and the incoming order rests only with something left. When no resting order was empty,
/// every trade is for something.
pub proof fn lemma_process_keeps_orders_live(taker: Order, book: OrderBook)
    requires
        order_wf(taker),
        book.wf(),
        all_have_left(side_view(book.bids@)),
        all_have_left(side_view(book.asks@)),
    ensures
        all_have_left(bids_after(book, taker)),
        all_have_left(asks_after(book, taker)),
        forall|k: u64| #[trigger] without_empty_levels(match_walk(taker, book).side).contains_key(k)
            ==> without_empty_levels(match_walk(taker, book).side)[k].len() > 0,
        forall|i: int| 0 <= i < match_walk(taker, book).fills.len()
            ==> (#[trigger] match_walk(taker, book).fills[i]).quantity > 0,
{
    let w = match_walk(taker, book);
    let opp = side_view(book_side(book, opposite(taker.side)));
    let own = side_view(book_side(book, taker.side));
    lemma_match_levels(taker, book);
    lemma_match_walk_bounds(taker, book);
    let after = without_empty_levels(w.side);
    assert(all_have_left(after)) by {
        assert forall|k: u64, i: int| #[trigger] after.contains_key(k) && 0 <= i < after[k].len()
            implies remaining_of(#[trigger] after[k][i]) > 0 by {
            lemma_walk_facts_for(taker, book);
            assert(opp.contains_key(k));
            if w.side[k] != opp[k] {
                let (f, lo) = choose|f: nat, lo: int| level_passed(taker, w, opp, k, f, lo);
                assert forall|j: int| 0 <= j < opp[k].len() implies order_wf(#[trigger] opp[k][j]) by {}
                lemma_level_pass_shape(taker.quantity as nat, f, k, opp[k]);
                let p = level_pass(taker.quantity as nat, f, k, opp[k]);
                let t = p.2.len() as int;
                if t > 0 && !filled_of(after_fill(opp[k][t - 1], p.2[t - 1].quantity as nat)) {
                    if i > 0 {
                        assert(after[k][i] == opp[k][t + i - 1]);
                    }
                } else {
                    assert(after[k][i] == opp[k][t + i]);
                }
            }
        }
    }
    let rests = taker.order_type == OrderType::Limit && w.filled < taker.quantity;
    let own2 = own_side_after(book, taker, w);
    assert(all_have_left(own2)) by {
        assert forall|k: u64, i: int| #[trigger] own2.contains_key(k) && 0 <= i < own2[k].len()
            implies remaining_of(#[trigger] own2[k][i]) > 0 by {
            if rests && k == taker.price {
                if i < orders_at(own, k).len() {
                    assert(own2[k][i] == orders_at(own, k)[i]);
                    assert(own.contains_key(k));
                }
            }
        }
    }
}

proof fn lemma_walk_facts_for(taker: Order, book: OrderBook)
    requires
        order_wf(taker),
        book.wf(),
    ensures
        match_walk(taker, book).side.dom() == side_view(book_side(book, opposite(taker.side))).dom(),
{
    let opp_m = book_side(book, opposite(taker.side));
    lemma_priority_keys_no_dup(opp_m.dom(), opposite(taker.side));
    lemma_walk_facts(taker, priority_keys(opp_m.dom(), opposite(taker.side)), side_view(opp_m));
}

proof fn lemma_priority_keys_no_dup(d: Set<u64>, side: Side)
    requires
        d.finite(),
    ensures
        priority_keys(d, side).no_duplicates(),
        priority_keys(d, side).to_set() == d,
        is_sorted_keys(sorted_key_seq(d), d),
{
    lemma_sorted_keys_exist(d);
    let s = sorted_key_seq(d);
    assert(s.no_duplicates());
    match side {
        Side::Sell => {},
        Side::Buy => {
            let r = s.reverse();
            assert forall|a: int, b: int| 0 <= a < b < r.len() implies r[a] != r[b] by {
                assert(r[a] == s[s.len() - 1 - a]);
                assert(r[b] == s[s.len() - 1 - b]);
            }
            assert forall|x: u64| r.to_set().contains(x) <==> s.to_set().contains(x) by {
                if r.to_set().contains(x) {
                    let a = choose|a: int| 0 <= a < r.len() && r[a] == x;
                    assert(s[s.len() - 1 - a] == x);
                }
                if s.to_set().contains(x) {
                    let a = choose|a: int| 0 <= a < s.len() && s[a] == x;
                    assert(r[s.len() - 1 - a] == x);
                }
            }
            assert(r.to_set() =~= s.to_set());
        },
    }
}

proof fn lemma_set_has_max(d: Set<u64>) -> (m: u64)
    requires
        d.finite(),
        !d.is_empty(),
    ensures
        d.contains(m),
        forall|x: u64| #[trigger] d.contains(x) ==> x <= m,
    decreases d.len(),
{
    let x = d.choose();
    let rest = d.remove(x);
    if rest.is_empty() {
        assert forall|y: u64| #[trigger] d.contains(y) implies y <= x by {
            if y != x {
                assert(rest.contains(y));
            }
        }
        x
    } else {
        let m2 = lemma_set_has_max(rest);
        if m2 < x {
            x
        } else {
            m2
        }
    }
}

/// Every finite set of keys has an increasing listing.
pub proof fn lemma_sorted_keys_exist(d: Set<u64>)
    requires
        d.finite(),
    ensures
        is_sorted_keys(sorted_key_seq(d), d),
    decreases d.len(),
{
    if d.is_empty() {
        assert(is_sorted_keys(Seq::<u64>::empty(), d)) by {
            assert(Seq::<u64>::empty().to_set() =~= d);
        }
    } else {
        let m = lemma_set_has_max(d);
        let rest = d.remove(m);
        lemma_sorted_keys_exist(rest);
        let s = sorted_key_seq(rest).push(m);
        assert(sorted_key_seq(rest).to_set().contains(m) == false);
        assert forall|i: int, j: int| 0 <= i < j < s.len() implies s[i] < s[j] by {
            if j == s.len() - 1 {
                assert(sorted_key_seq(rest).to_set().contains(s[i]));
                assert(d.contains(s[i]));
            }
        }
        assert(s.to_set() =~= d) by {
            assert forall|x: u64| s.to_set().contains(x) <==> d.contains(x) by {
                if d.contains(x) && x != m {
                    assert(rest.contains(x));
                    let a = choose|a: int| 0 <= a < sorted_key_seq(rest).len() && sorted_key_seq(rest)[a] == x;
                    assert(s[a] == x);
                }
                if x == m {
                    assert(s[s.len() - 1] == x);
                }
                if s.to_set().contains(x) {
                    let a = choose|a: int| 0 <= a < s.len() && s[a] == x;
                    if a < s.len() - 1 {
                        assert(sorted_key_seq(rest).to_set().contains(x));
                    }
                }
            }
        }
        assert(is_sorted_keys(s, d));
    }
}

proof fn lemma_match_walk_facts(taker: Order, book: OrderBook)
    requires
        order_wf(taker),
        book.wf(),
    ensures
        ({
            let w = match_walk(taker, book);
            let opp = side_view(book_side(book, opposite(taker.side)));
            &&& w.filled == taker.filled + fills_total(w.fills)
            &&& w.filled <= taker.quantity
            &&& forall|i: int|
                0 <= i < w.fills.len() ==> {
                    &&& price_acceptable(taker, (#[trigger] w.fills[i]).price)
                    &&& opp.contains_key(w.fills[i].price)
                    &&& exists|j: int|
                        0 <= j < opp[w.fills[i].price].len() && opp[w.fills[i].price][j].id
                            == w.fills[i].maker_order_id
                }
        }),
{
    let opp_m = book_side(book, opposite(taker.side));
    let ks = priority_keys(opp_m.dom(), opposite(taker.side));
    lemma_priority_keys_no_dup(opp_m.dom(), opposite(taker.side));
    lemma_walk_facts(taker, ks, side_view(opp_m));
}

} // verus!
