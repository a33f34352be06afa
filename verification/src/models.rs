//! The exchange's data model: trading pairs, orders, trades and the
//! per-pair engine state.
//!
//! Prices and quantities are fixed-point integers: one unit is 10^-8 of the
//! quoted currency (a price of 50000.5 USDT is `5_000_050_000_000`).
use vstd::prelude::*;
use vstd::string::*;

use crate::orderbook::OrderBookDepth;

verus! {

/// The number of fixed-point units in one whole unit of price or quantity.
pub const UNITS_PER_WHOLE: u64 = 100_000_000;

#[allow(non_camel_case_types)]
#[derive(Clone, Copy, Debug, PartialEq, Eq, Structural)]
pub enum TradingPair {
    BTC_USDT,
    ETH_USDT,
    SOL_USDT,
}

/// The symbol under which a trading pair is quoted, e.g. `BTC_USDT`.
pub open spec fn pair_name(pair: TradingPair) -> Seq<char> {
    match pair {
        TradingPair::BTC_USDT => "BTC_USDT"@,
        TradingPair::ETH_USDT => "ETH_USDT"@,
        TradingPair::SOL_USDT => "SOL_USDT"@,
    }
}

impl TradingPair {
    /// Every trading pair the engine runs, in declaration order.
    pub fn all() -> (pairs: Vec<TradingPair>)
        ensures
            pairs@ == seq![TradingPair::BTC_USDT, TradingPair::ETH_USDT, TradingPair::SOL_USDT],
    {
        let mut pairs = Vec::new();
        pairs.push(TradingPair::BTC_USDT);
        pairs.push(TradingPair::ETH_USDT);
        pairs.push(TradingPair::SOL_USDT);
        pairs
    }

    /// The pair's symbol, e.g. `"BTC_USDT"`.
    pub fn name(&self) -> (s: String)
        ensures
            s@ == pair_name(*self),
    {
        match self {
            TradingPair::BTC_USDT => String::from_str("BTC_USDT"),
            TradingPair::ETH_USDT => String::from_str("ETH_USDT"),
            TradingPair::SOL_USDT => String::from_str("SOL_USDT"),
        }
    }
}

#[derive(Clone, Copy, Debug, PartialEq, Eq, Structural)]
pub enum Side {
    Buy,
    Sell,
}

#[derive(Clone, Copy, Debug, PartialEq, Eq, Structural)]
pub enum OrderType {
    Limit,
    Market,
}

#[derive(Clone, Copy, Debug, PartialEq, Eq, Structural)]
pub enum OrderStatus {
    Open,
    PartiallyFilled,
    Filled,
    Cancelled,
}

/// A lowercase hexadecimal digit.
pub open spec fn is_lower_hex(c: char) -> bool {
    (48 <= c as int <= 57) || (97 <= c as int <= 102)
}

/// The text of a random (version 4) UUID: 36 characters in groups of 8, 4, 4, 4 and 12
/// lowercase hex digits joined by hyphens, whose version digit is `4` and whose variant digit
/// is one of `8`, `9`, `a`, `b`.
pub open spec fn is_uuid_v4_text(s: Seq<char>) -> bool {
    &&& s.len() == 36
    &&& forall|i: int|
        0 <= i < 36 ==> if i == 8 || i == 13 || i == 18 || i == 23 {
            #[trigger] s[i] == '-'
        } else {
            is_lower_hex(s[i])
        }
    &&& s[14] == '4'
    &&& (s[19] == '8' || s[19] == '9' || s[19] == 'a' || s[19] == 'b')
}

/// What `uuid::Uuid::new_v4` renders as a string: a fresh random identifier.
/// Nothing is promised of its value but its form (the hyphenated lowercase text of a
/// version 4 UUID, which `Uuid::new_v4` masks in and `Display` writes out).
#[verifier::external_body]
fn fresh_id() -> (id: String)
    ensures
        is_uuid_v4_text(id@),
{
    uuid::Uuid::new_v4().to_string()
}

#[derive(Debug)]
pub struct Order {
    pub id: String,
    pub user_id: String,
    pub trading_pair: TradingPair,
    pub side: Side,
    pub order_type: OrderType,
    /// Limit price in fixed-point units (ignored for market orders).
    pub price: u64,
    pub quantity: u64,
    pub filled: u64,
    pub status: OrderStatus,
}

/// An order never has more filled than it asked for.
pub open spec fn order_wf(o: Order) -> bool {
    o.filled <= o.quantity
}

/// What is left to fill of an order.
pub open spec fn remaining_of(o: Order) -> nat {
    (o.quantity - o.filled) as nat
}

pub open spec fn filled_of(o: Order) -> bool {
    o.filled >= o.quantity
}

impl Clone for Order {
    fn clone(&self) -> (res: Self)
        ensures
            res == *self,
    {
        Order {
            id: self.id.clone(),
            user_id: self.user_id.clone(),
            trading_pair: self.trading_pair,
            side: self.side,
            order_type: self.order_type,
            price: self.price,
            quantity: self.quantity,
            filled: self.filled,
            status: self.status,
        }
    }
}

impl Order {
    /// A fresh open order with nothing filled, under a new random id.
    pub fn new(
        user_id: String,
        trading_pair: TradingPair,
        side: Side,
        order_type: OrderType,
        price: u64,
        quantity: u64,
    ) -> (o: Order)
        ensures
            is_uuid_v4_text(o.id@),
            o.user_id == user_id,
            o.trading_pair == trading_pair,
            o.side == side,
            o.order_type == order_type,
            o.price == price,
            o.quantity == quantity,
            o.filled == 0,
            o.status == OrderStatus::Open,
    {
        Order {
            id: fresh_id(),
            user_id,
            trading_pair,
            side,
            order_type,
            price,
            quantity,
            filled: 0,
            status: OrderStatus::Open,
        }
    }

    pub fn remaining(&self) -> (r: u64)
        requires
            order_wf(*self),
        ensures
            r == remaining_of(*self),
    {
        self.quantity - self.filled
    }

    pub fn is_filled(&self) -> (b: bool)
        ensures
            b == filled_of(*self),
    {
        self.filled >= self.quantity
    }
}

#[derive(Debug)]
pub struct Trade {
    pub id: String,
    pub trading_pair: TradingPair,
    pub maker_order_id: String,
    pub taker_order_id: String,
    pub price: u64,
    pub quantity: u64,
}

impl Clone for Trade {
    fn clone(&self) -> (res: Self)
        ensures
            res == *self,
    {
        Trade {
            id: self.id.clone(),
            trading_pair: self.trading_pair,
            maker_order_id: self.maker_order_id.clone(),
            taker_order_id: self.taker_order_id.clone(),
            price: self.price,
            quantity: self.quantity,
        }
    }
}

impl Trade {
    /// A trade under a new random id.
    pub fn new(
        trading_pair: TradingPair,
        maker_order_id: String,
        taker_order_id: String,
        price: u64,
        quantity: u64,
    ) -> (t: Trade)
        ensures
            is_uuid_v4_text(t.id@),
            t.trading_pair == trading_pair,
            t.maker_order_id == maker_order_id,
            t.taker_order_id == taker_order_id,
            t.price == price,
            t.quantity == quantity,
    {
        Trade { id: fresh_id(), trading_pair, maker_order_id, taker_order_id, price, quantity }
    }
}


/// A user's holdings, in fixed-point units.
#[derive(Clone, Debug)]
pub struct UserBalance {
    pub user_id: String,
    pub usdt: u64,
    pub btc: u64,
    pub eth: u64,
    pub sol: u64,
}

/// The holdings a user starts with: 100000 USDT, 10 BTC, 100 ETH and 1000 SOL.
pub open spec fn starting_balance_of(b: UserBalance, user_id: Seq<char>) -> bool {
    &&& b.user_id@ == user_id
    &&& b.usdt == 10_000_000_000_000
    &&& b.btc == 1_000_000_000
    &&& b.eth == 10_000_000_000
    &&& b.sol == 100_000_000_000
}

/// Where the entry of `user_id` stands among the entries, each kept under its user's id.
pub open spec fn balance_position(bs: Seq<(String, UserBalance)>, user_id: Seq<char>) -> Option<int>
    decreases bs.len(),
{
    if bs.len() == 0 {
        None
    } else {
        match balance_position(bs.drop_last(), user_id) {
            Some(i) => Some(i),
            None => if bs.last().0@ == user_id {
                Some(bs.len() - 1)
            } else {
                None
            },
        }
    }
}

/// The open orders and the balances of the users of one trading pair, each kept under its
/// key (the order's id, the user's id) as it was when it was entered.
#[derive(Clone, Debug)]
pub struct EngineState {
    pub orders: Vec<(String, Order)>,
    pub balances: Vec<(String, UserBalance)>,
}

impl EngineState {
    /// No two balances are kept under the same user id.
    pub open spec fn wf(&self) -> bool {
        forall|i: int, j: int|
            0 <= i < j < self.balances@.len() ==> (#[trigger] self.balances@[i]).0@
                != (#[trigger] self.balances@[j]).0@
    }

    pub fn new() -> (s: EngineState)
        ensures
            s.wf(),
            s.orders@ == Seq::<(String, Order)>::empty(),
            s.balances@ == Seq::<(String, UserBalance)>::empty(),
    {
        EngineState { orders: Vec::new(), balances: Vec::new() }
    }

    /// The balance kept under `user_id`, opened with the starting holdings when there is none.
    pub fn get_or_create_balance(&mut self, user_id: &str) -> (b: &mut UserBalance)
        requires
            old(self).wf(),
        ensures
            final(self).wf(),
            final(self).orders@ == old(self).orders@,
            match balance_position(old(self).balances@, user_id@) {
                Some(i) => {
                    &&& *b == old(self).balances@[i].1
                    &&& final(self).balances@ == old(self).balances@.update(
                        i,
                        (old(self).balances@[i].0, *final(b)),
                    )
                },
                None => {
                    &&& starting_balance_of(*b, user_id@)
                    &&& final(self).balances@.len() == old(self).balances@.len() + 1
                    &&& forall|j: int| 0 <= j < old(self).balances@.len() ==> #[trigger] final(self).balances@[j] == old(self).balances@[j]
                    &&& final(self).balances@.last().0@ == user_id@
                    &&& final(self).balances@.last().1 == *final(b)
                },
            },
    {
        let n = self.balances.len();
        let mut i: usize = 0;
        while i < n
            invariant
                n == self.balances@.len(),
                i <= n,
                balance_position(self.balances@.take(i as int), user_id@) is None,
                *self == *old(self),
                old(self).wf(),
            decreases n - i,
        {
            assert(self.balances@.take(i + 1).drop_last() =~= self.balances@.take(i as int));
            if str_eq(self.balances[i].0.as_str(), user_id) {
                proof {
                    lemma_position_prefix(self.balances@, i as int + 1, i as int, user_id@);
                }
                return balance_at(&mut self.balances, i);
            }
            i = i + 1;
        }
        assert(self.balances@.take(n as int) =~= self.balances@);
        proof {
            lemma_no_position(self.balances@, user_id@);
        }
        self.balances.push(
            (
                user_id.to_owned(),
                UserBalance {
                    user_id: user_id.to_owned(),
                    usdt: 10_000_000_000_000,
                    btc: 1_000_000_000,
                    eth: 10_000_000_000,
                    sol: 100_000_000_000,
                },
            ),
        );
        let last = self.balances.len() - 1;
        assert(self.balances@.drop_last() =~= old(self).balances@);
        balance_at(&mut self.balances, last)
    }
}

fn balance_at(v: &mut Vec<(String, UserBalance)>, i: usize) -> (b: &mut UserBalance)
    requires
        i < old(v)@.len(),
    ensures
        *b == old(v)@[i as int].1,
        final(v)@ == old(v)@.update(i as int, (old(v)@[i as int].0, *final(b))),
{
    &mut v[i].1
}

proof fn lemma_no_position(bs: Seq<(String, UserBalance)>, user_id: Seq<char>)
    requires
        balance_position(bs, user_id) is None,
    ensures
        forall|i: int| 0 <= i < bs.len() ==> (#[trigger] bs[i]).0@ != user_id,
    decreases bs.len(),
{
    if bs.len() > 0 {
        lemma_no_position(bs.drop_last(), user_id);
        assert forall|i: int| 0 <= i < bs.len() implies (#[trigger] bs[i]).0@ != user_id by {
            if i < bs.len() - 1 {
                assert(bs.drop_last()[i] == bs[i]);
            }
        }
    }
}

proof fn lemma_position_prefix(bs: Seq<(String, UserBalance)>, i: int, p: int, user_id: Seq<char>)
    requires
        0 <= p < i <= bs.len(),
        balance_position(bs.take(i), user_id) == Some(p),
    ensures
        balance_position(bs, user_id) == Some(p),
    decreases bs.len() - i,
{
    if i < bs.len() {
        assert(bs.take(i + 1).drop_last() =~= bs.take(i));
        assert(balance_position(bs.take(i + 1), user_id) == Some(p));
        lemma_position_prefix(bs, i + 1, p, user_id);
    } else {
        assert(bs.take(i) =~= bs);
    }
}

/// Whether two strings hold the same characters.
pub fn str_eq(a: &str, b: &str) -> (r: bool)
    ensures
        r == (a@ == b@),
{
    a.to_owned() == b.to_owned()
}


/// Copies a list of trades.
pub fn copy_trades(ts: &Vec<Trade>) -> (r: Vec<Trade>)
    ensures
        r@ == ts@,
{
    let mut r: Vec<Trade> = Vec::new();
    let n = ts.len();
    let mut i: usize = 0;
    while i < n
        invariant
            n == ts@.len(),
            i <= n,
            r@ == ts@.take(i as int),
        decreases n - i,
    {
        r.push(ts[i].clone());
        i = i + 1;
        assert(r@ =~= ts@.take(i as int));
    }
    assert(ts@.take(n as int) =~= ts@);
    r
}

/// The fields a request's payload may carry, as the engine reads them: strings where the
/// payload holds a string, prices and quantities in fixed-point units, and the number of
/// depth levels asked for.
#[derive(Clone, Debug)]
pub struct RequestPayload {
    pub user_id: Option<String>,
    pub symbol: Option<String>,
    pub side: Option<String>,
    pub order_type: Option<String>,
    pub price: Option<u64>,
    pub quantity: Option<u64>,
    pub order_id: Option<String>,
    pub levels: Option<usize>,
}

/// A command for the engine: its kind (`place_order`, `cancel_order`, `get_depth` or
/// `get_ticker`), its payload, and where and under which id to answer.
#[derive(Clone, Debug)]
pub struct EngineRequest {
    pub correlation_id: String,
    pub response_queue: String,
    pub kind: String,
    pub payload: RequestPayload,
}

/// What a successful reply carries.
#[derive(Clone, Debug)]
pub enum ResponseData {
    /// The outcome of placing an order.
    OrderPlaced {
        order_id: String,
        status: OrderStatus,
        filled: u64,
        remaining: u64,
        trades: Vec<Trade>,
    },
    /// The order that a cancel took out of the book.
    OrderCancelled { order_id: String },
    /// A depth snapshot of the book.
    Depth(OrderBookDepth),
    /// The best prices and the spread between them.
    Ticker { best_bid: Option<u64>, best_ask: Option<u64>, spread: Option<i128> },
}

/// The engine's answer to a request.
#[derive(Clone, Debug)]
pub struct EngineResponse {
    pub correlation_id: String,
    pub success: bool,
    pub data: Option<ResponseData>,
    pub error: Option<String>,
}

} // verus!
