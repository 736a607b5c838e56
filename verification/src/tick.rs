use vstd::prelude::*;

verus! {

/// One bid/ask quote, already transformed into edge weights.
///
/// `bid_log_nano` is `-ln(bid) * 1e9` rounded to an integer, the cost
/// of the edge from the base node to the quote node; it is absent when
/// the submitted bid was not a positive finite price. `ask_log_nano`
/// is `ln(ask) * 1e9` rounded, the cost of the reverse edge, absent
/// under the same condition for the ask.
#[derive(Clone, Debug)]
pub struct MarketTick {
    pub exchange: String,
    pub symbol: String,
    pub bid_log_nano: Option<i64>,
    pub ask_log_nano: Option<i64>,
    pub volume_nano: i64,
    pub timestamp: u64,
    pub sequence: u64,
}

/// The ticks pending in a queue, oldest first.
pub uninterp spec fn tick_queue_view(q: TickQueue) -> Seq<MarketTick>;

/// FIFO queue that carries ticks from the ingress path to the drain.
///
/// It is backed by an unbounded `crossbeam` channel whose two ends the
/// queue owns, so a send can never fail and messages come out in the
/// order they went in.
#[verifier::external_body]
pub struct TickQueue {
    sender: crossbeam::channel::Sender<MarketTick>,
    receiver: crossbeam::channel::Receiver<MarketTick>,
}

impl TickQueue {
    /// Relies on `crossbeam::channel::unbounded`: a fresh channel holds
    /// no messages.
    #[verifier::external_body]
    pub fn new() -> (q: TickQueue)
        ensures
            tick_queue_view(q) == Seq::<MarketTick>::empty(),
    {
        let (sender, receiver) = crossbeam::channel::unbounded();
        TickQueue { sender, receiver }
    }

    /// Relies on `crossbeam::channel::Sender::send`: on an unbounded
    /// channel it appends the message without blocking, and it can fail
    /// only when every receiver is gone, while this queue owns its
    /// receiver.
    #[verifier::external_body]
    pub fn push(&mut self, tick: MarketTick)
        ensures
            tick_queue_view(*final(self)) == tick_queue_view(*old(self)).push(tick),
    {
        let _ = self.sender.send(tick);
    }

    /// Relies on `crossbeam::channel::Receiver::try_recv`: it returns
    /// the oldest pending message, or nothing when the channel is
    /// empty, and messages arrive in the order they were sent.
    #[verifier::external_body]
    pub fn pop(&mut self) -> (r: Option<MarketTick>)
        ensures
            tick_queue_view(*old(self)).len() == 0 ==> r is None
                && tick_queue_view(*final(self)) == tick_queue_view(*old(self)),
            tick_queue_view(*old(self)).len() > 0 ==> r == Some(tick_queue_view(
                *old(self),
            )[0]) && tick_queue_view(*final(self)) == tick_queue_view(*old(self)).drop_first(),
    {
        match self.receiver.try_recv() {
            Ok(tick) => Some(tick),
            Err(_) => None,
        }
    }

    /// Relies on `crossbeam::channel::Receiver::len`: the number of
    /// messages currently pending in the channel.
    #[verifier::external_body]
    pub fn len(&self) -> (n: usize)
        ensures
            n == tick_queue_view(*self).len(),
    {
        self.receiver.len()
    }
}

} // verus!
