//! The engine's side of its Redis connection: the messages it sends, queued in order.
//! The program that owns the connection sends them out and empties the queue.
use vstd::prelude::*;
use vstd::string::*;

use crate::models::{EngineResponse, ResponseData, Trade};
use crate::orderbook::OrderBookDepth;

verus! {

/// What the engine broadcasts on a pub/sub channel.
#[derive(Clone, Debug)]
pub enum PublishData {
    Depth(OrderBookDepth),
    Trades(Vec<Trade>),
}

/// One message for Redis: a reply pushed onto a response queue, or a broadcast.
#[derive(Clone, Debug)]
pub enum Outgoing {
    Push { queue: String, response: EngineResponse },
    Publish { channel: String, data: PublishData },
}

#[derive(Clone, Debug)]
pub struct RedisClient {
    /// Where the connection goes.
    pub redis_url: String,
    /// The messages not yet sent, oldest first.
    pub outbox: Vec<Outgoing>,
}

/// `after` is `before` with `n` more messages at its end.
pub open spec fn appended(before: Seq<Outgoing>, after: Seq<Outgoing>, n: nat) -> bool {
    &&& after.len() == before.len() + n
    &&& after.take(before.len() as int) == before
}

/// A failure reply to `correlation_id` on `queue`, with message `error`.
pub open spec fn is_error_reply(
    o: Outgoing,
    queue: Seq<char>,
    correlation_id: Seq<char>,
    error: Seq<char>,
) -> bool {
    match o {
        Outgoing::Push { queue: q, response: r } => {
            &&& q@ == queue
            &&& r.correlation_id@ == correlation_id
            &&& !r.success
            &&& r.data is None
            &&& r.error matches Some(e) && e@ == error
        },
        _ => false,
    }
}

/// A success reply to `correlation_id` on `queue`, carrying `data`.
pub open spec fn is_success_reply(
    o: Outgoing,
    queue: Seq<char>,
    correlation_id: Seq<char>,
    data: ResponseData,
) -> bool {
    match o {
        Outgoing::Push { queue: q, response: r } => {
            &&& q@ == queue
            &&& r.correlation_id@ == correlation_id
            &&& r.success
            &&& r.data == Some(data)
            &&& r.error is None
        },
        _ => false,
    }
}

impl RedisClient {
    /// A client for the server at `redis_url`, with nothing to send.
    pub fn new(redis_url: &str) -> (c: RedisClient)
        ensures
            c.redis_url@ == redis_url@,
            c.outbox@ == Seq::<Outgoing>::empty(),
    {
        RedisClient { redis_url: redis_url.to_owned(), outbox: Vec::new() }
    }

    /// Broadcasts `data` on `channel`.
    pub fn publish(&mut self, channel: &str, data: PublishData)
        ensures
            final(self).redis_url == old(self).redis_url,
            appended(old(self).outbox@, final(self).outbox@, 1),
            final(self).outbox@.last() matches Outgoing::Publish { channel: c, data: d } && c@
                == channel@ && d == data,
    {
        self.outbox.push(Outgoing::Publish { channel: channel.to_owned(), data });
        assert(self.outbox@.take(old(self).outbox@.len() as int) =~= old(self).outbox@);
    }

    /// Pushes `response` onto `queue`.
    pub fn push_response(&mut self, queue: &str, response: EngineResponse)
        ensures
            final(self).redis_url == old(self).redis_url,
            appended(old(self).outbox@, final(self).outbox@, 1),
            final(self).outbox@.last() matches Outgoing::Push { queue: q, response: r } && q@
                == queue@ && r == response,
    {
        self.outbox.push(Outgoing::Push { queue: queue.to_owned(), response });
        assert(self.outbox@.take(old(self).outbox@.len() as int) =~= old(self).outbox@);
    }

    /// Answers request `correlation_id` on `response_queue` with success and `data`.
    pub fn send_success(&mut self, correlation_id: &str, response_queue: &str, data: ResponseData)
        ensures
            final(self).redis_url == old(self).redis_url,
            appended(old(self).outbox@, final(self).outbox@, 1),
            is_success_reply(final(self).outbox@.last(), response_queue@, correlation_id@, data),
    {
        self.push_response(
            response_queue,
            EngineResponse {
                correlation_id: correlation_id.to_owned(),
                success: true,
                data: Some(data),
                error: None,
            },
        );
    }

    /// Answers request `correlation_id` on `response_queue` with failure and `error`.
    pub fn send_error(&mut self, correlation_id: &str, response_queue: &str, error: &str)
        ensures
            final(self).redis_url == old(self).redis_url,
            appended(old(self).outbox@, final(self).outbox@, 1),
            is_error_reply(final(self).outbox@.last(), response_queue@, correlation_id@, error@),
    {
        self.push_response(
            response_queue,
            EngineResponse {
                correlation_id: correlation_id.to_owned(),
                success: false,
                data: None,
                error: Some(error.to_owned()),
            },
        );
    }

    /// Hands over the messages to send, oldest first, and empties the queue.
    pub fn take_outbox(&mut self) -> (sent: Vec<Outgoing>)
        ensures
            sent@ == old(self).outbox@,
            final(self).outbox@ == Seq::<Outgoing>::empty(),
            final(self).redis_url == old(self).redis_url,
    {
        let mut sent = Vec::new();
        std::mem::swap(&mut sent, &mut self.outbox);
        sent
    }
}

} // verus!
