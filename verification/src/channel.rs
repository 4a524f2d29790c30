//! The dispatch channel: a first-in-first-out queue of messages from the
//! pool (the single sender) to the workers (the competing receivers).

use vstd::prelude::*;

use crate::message::Message;

verus! {

/// The abstract value of a channel is the sequence of messages in flight,
/// oldest first. Sending appends at the back and never blocks; receiving
/// takes from the front, so messages are delivered in arrival order.
pub struct Channel {
    pub queue: Vec<Message>,
}

impl View for Channel {
    type V = Seq<Message>;

    open spec fn view(&self) -> Seq<Message> {
        self.queue@
    }
}

impl Channel {
    /// A fresh channel with no messages in flight.
    pub fn new() -> (c: Channel)
        ensures
            c@ =~= Seq::<Message>::empty(),
    {
        Channel { queue: Vec::new() }
    }

    /// How many messages are in flight.
    pub fn len(&self) -> (n: usize)
        ensures
            n == self@.len(),
    {
        self.queue.len()
    }

    /// Append a message behind every message already in flight.
    pub fn send(&mut self, m: Message)
        ensures
            final(self)@ =~= old(self)@.push(m),
    {
        self.queue.push(m);
    }

    /// Take the oldest message, or report that the channel is empty.
    pub fn recv(&mut self) -> (r: Option<Message>)
        ensures
            match r {
                Option::None => old(self)@.len() == 0 && final(self)@ =~= old(self)@,
                Option::Some(m) => {
                    &&& old(self)@.len() > 0
                    &&& m == old(self)@[0]
                    &&& final(self)@ =~= old(self)@.drop_first()
                },
            },
    {
        if self.queue.len() == 0 {
            None
        } else {
            Some(self.queue.remove(0))
        }
    }
}

} // verus!
