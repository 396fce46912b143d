//! A channel with many senders and many receivers.
//!
//! [`Mpmc`] is the record that the threads share: the messages in their order, the condition
//! variable that receivers sleep on, the bound, whether the channel is closed, and the number
//! of handles. A thread holds the channel's mutex while it changes the messages.

use crate::atomic::vec::AtomicVec;
use crate::base::futex::FutexCall;
use crate::base::scondvar::SCondVar;
use vstd::prelude::*;

verus! {

use crate::atomic::vec::push_limit;
use crate::bits::{bumped, lowered};
use crate::order::{is_run, lemma_first_in_first_out, put, taken, Event};

/// The shared record of a channel.
#[derive(Debug)]
pub struct Mpmc<T> {
    buffer: AtomicVec<T>,
    condvar: SCondVar,
    ref_count: usize,
    bounded: usize,
    closed: bool,
}

/// What a channel says.
pub struct MpmcView<T> {
    /// The messages, the oldest one first.
    pub messages: Seq<T>,
    /// The epoch of the condition variable.
    pub epoch: usize,
    /// The most messages that wait at a time; zero for no bound.
    pub bounded: usize,
    /// No message is accepted any more.
    pub closed: bool,
    /// How many handles share the channel.
    pub ref_count: usize,
}

/// What a receiver does that has looked for a message.
#[derive(Debug, PartialEq, Eq)]
pub enum Receipt<T> {
    /// Go on with the message.
    Message(T),
    /// The channel is closed and empty.
    Closed,
    /// Sleep on the condition variable, and look again.
    Block,
}

impl<T> View for Mpmc<T> {
    type V = MpmcView<T>;

    closed spec fn view(&self) -> MpmcView<T> {
        MpmcView {
            messages: self.buffer@,
            epoch: self.condvar@,
            bounded: self.bounded,
            closed: self.closed,
            ref_count: self.ref_count,
        }
    }
}

impl<T> MpmcView<T> {
    /// The channel has as many messages as it may have.
    pub open spec fn is_full(self) -> bool {
        self.bounded > 0 && self.messages.len() >= self.bounded
    }

    /// The channel without its oldest message.
    pub open spec fn taken(self) -> Self {
        MpmcView { messages: self.messages.drop_first(), ..self }
    }
}

impl<T> Mpmc<T> {
    /// The buffer is in order.
    pub closed spec fn wf(self) -> bool {
        self.buffer.wf()
    }

    /// How many more messages the channel can carry in its life.
    pub closed spec fn room(self) -> int {
        self.buffer.room()
    }

    /// An open channel without a bound.
    pub fn new() -> (channel: Mpmc<T>)
        ensures
            channel.wf(),
            channel.room() == push_limit(),
            channel@ == (MpmcView {
                messages: Seq::<T>::empty(),
                epoch: 0,
                bounded: 0,
                closed: false,
                ref_count: 1,
            }),
    {
        Self::bounded(0)
    }

    /// An open channel in which up to `n` messages wait at a time; zero for no bound.
    pub fn bounded(n: usize) -> (channel: Mpmc<T>)
        ensures
            channel.wf(),
            channel.room() == push_limit(),
            channel@ == (MpmcView {
                messages: Seq::<T>::empty(),
                epoch: 0,
                bounded: n,
                closed: false,
                ref_count: 1,
            }),
    {
        Mpmc {
            buffer: AtomicVec::new(),
            condvar: SCondVar::new(),
            ref_count: 1,
            bounded: n,
            closed: false,
        }
    }

    /// Whether a message would be accepted: the channel is open, and not full.
    pub fn accepts(&self) -> (accepted: bool)
        requires
            self.wf(),
        ensures
            accepted == (!self@.closed && !self@.is_full()),
    {
        if self.closed {
            return false;
        }
        !(self.bounded > 0 && self.buffer.len() >= self.bounded)
    }

    /// How many more messages the channel can carry in its life.
    pub fn room_left(&self) -> (room: usize)
        requires
            self.wf(),
        ensures
            room == self.room(),
    {
        self.buffer.room_left()
    }

    /// Appends a message that was accepted, and wakes one receiver. The thread holds the
    /// channel's mutex since [`Mpmc::accepts`] said so.
    pub fn enqueue(&mut self, value: T) -> (call: FutexCall)
        requires
            old(self).wf(),
            !old(self)@.closed && !old(self)@.is_full(),
            old(self).room() >= 1,
        ensures
            final(self).wf(),
            final(self).room() == old(self).room() - 1,
            call == (FutexCall::Wake { count: 1 }),
            final(self)@ == (MpmcView {
                messages: old(self)@.messages.push(value),
                epoch: bumped(old(self)@.epoch),
                ..old(self)@
            }),
    {
        self.buffer.push(value);
        self.condvar.notify_one()
    }

    /// Appends a message and wakes one receiver, or gives the message back where the channel
    /// is closed or full.
    pub fn send(&mut self, value: T) -> (result: Result<(), T>)
        requires
            old(self).wf(),
            old(self).room() >= 1,
        ensures
            final(self).wf(),
            result is Err <==> old(self)@.closed || old(self)@.is_full(),
            result matches Err(back) ==> back == value && *final(self) == *old(self),
            result is Ok ==> {
                &&& final(self).room() == old(self).room() - 1
                &&& final(self)@ == (MpmcView {
                    messages: old(self)@.messages.push(value),
                    epoch: bumped(old(self)@.epoch),
                    ..old(self)@
                })
            },
    {
        if !self.accepts() {
            return Err(value);
        }
        self.enqueue(value);
        Ok(())
    }

    /// Takes the oldest message; `None` when there is none.
    pub fn try_recv(&mut self) -> (result: Option<T>)
        requires
            old(self).wf(),
        ensures
            final(self).wf(),
            final(self).room() == old(self).room(),
            result is None <==> old(self)@.messages.len() == 0,
            result is None ==> *final(self) == *old(self),
            result matches Some(message) ==> {
                &&& message == old(self)@.messages.first()
                &&& final(self)@ == old(self)@.taken()
            },
    {
        self.buffer.pop()
    }

    /// One look of a receiver that holds the channel's mutex: it takes the oldest message,
    /// gives up on a closed channel, and otherwise has to sleep.
    pub fn poll_recv(&mut self) -> (receipt: Receipt<T>)
        requires
            old(self).wf(),
        ensures
            final(self).wf(),
            final(self).room() == old(self).room(),
            match receipt {
                Receipt::Message(message) => {
                    &&& old(self)@.messages.len() > 0
                    &&& message == old(self)@.messages.first()
                    &&& final(self)@ == old(self)@.taken()
                },
                Receipt::Closed => {
                    &&& old(self)@.messages.len() == 0
                    &&& old(self)@.closed
                    &&& *final(self) == *old(self)
                },
                Receipt::Block => {
                    &&& old(self)@.messages.len() == 0
                    &&& !old(self)@.closed
                    &&& *final(self) == *old(self)
                },
            },
    {
        match self.buffer.pop() {
            Some(message) => Receipt::Message(message),
            None => {
                if self.closed {
                    Receipt::Closed
                } else {
                    Receipt::Block
                }
            },
        }
    }

    /// Takes the oldest message; `None` where the channel is closed and empty. An open channel
    /// must not be empty: a thread that finds it so sleeps, as [`Mpmc::poll_recv`] says.
    pub fn recv(&mut self) -> (result: Option<T>)
        requires
            old(self).wf(),
            old(self)@.messages.len() > 0 || old(self)@.closed,
        ensures
            final(self).wf(),
            final(self).room() == old(self).room(),
            result is None <==> old(self)@.messages.len() == 0,
            result is None ==> *final(self) == *old(self),
            result matches Some(message) ==> {
                &&& message == old(self)@.messages.first()
                &&& final(self)@ == old(self)@.taken()
            },
    {
        match self.poll_recv() {
            Receipt::Message(message) => Some(message),
            Receipt::Closed | Receipt::Block => None,
        }
    }

    /// Closes the channel and wakes every receiver.
    pub fn close(&mut self) -> (call: FutexCall)
        requires
            old(self).wf(),
        ensures
            final(self).wf(),
            final(self).room() == old(self).room(),
            call == (FutexCall::Wake { count: u32::MAX }),
            final(self)@ == (MpmcView {
                closed: true,
                epoch: bumped(old(self)@.epoch),
                ..old(self)@
            }),
    {
        self.closed = true;
        self.condvar.notify_all()
    }

    /// Counts one handle more.
    pub fn clone_ref(&mut self)
        requires
            old(self).wf(),
        ensures
            final(self).wf(),
            final(self).room() == old(self).room(),
            final(self)@ == (MpmcView { ref_count: bumped(old(self)@.ref_count), ..old(self)@ }),
    {
        self.ref_count = self.ref_count.wrapping_add(1);
    }

    /// Counts one handle less, and says whether it was the last.
    pub fn drop_ref(&mut self) -> (last: bool)
        requires
            old(self).wf(),
        ensures
            final(self).wf(),
            final(self).room() == old(self).room(),
            last == (old(self)@.ref_count == 1),
            final(self)@ == (MpmcView { ref_count: lowered(old(self)@.ref_count), ..old(self)@ }),
    {
        let previous: usize = self.ref_count;
        self.ref_count = previous.wrapping_sub(1);
        previous == 1
    }
}

/// Whoever sends and whoever receives, and however they take turns: the messages received,
/// followed by those that wait, are the messages that waited at first, followed by those
/// sent. None is lost, none comes twice, and none overtakes another.
pub proof fn lemma_order_of_messages<T>(states: Seq<MpmcView<T>>, events: Seq<Event<T>>)
    requires
        is_run(states.map_values(|state: MpmcView<T>| state.messages), events),
    ensures
        taken(events) + states.last().messages == states.first().messages + put(events),
{
    let contents = states.map_values(|state: MpmcView<T>| state.messages);
    lemma_first_in_first_out(contents, events);
}

/// A bounded channel has at most as many messages as its bound says, as long as it takes one
/// only where it is not full; a channel whose bound is zero is never full. Taking the oldest
/// message leaves the others in their order, and the rest of the channel as it was.
pub proof fn lemma_bound_kept<T>(channel: MpmcView<T>, message: T)
    ensures
        channel.bounded == 0 ==> !channel.is_full(),
        channel.bounded > 0 ==> (channel.is_full() <==> channel.bounded
            <= channel.messages.len()),
        channel.bounded > 0 && !channel.is_full() ==> channel.messages.push(message).len()
            <= channel.bounded,
        channel.messages.len() > 0 ==> {
            &&& channel.messages == seq![channel.messages[0]] + channel.taken().messages
            &&& channel.bounded > 0 && channel.messages.len() <= channel.bounded
                ==> !channel.taken().is_full()
        },
        channel.taken().epoch == channel.epoch,
        channel.taken().bounded == channel.bounded,
        channel.taken().closed == channel.closed,
        channel.taken().ref_count == channel.ref_count,
{
    if channel.messages.len() > 0 {
        assert(channel.messages =~= seq![channel.messages[0]] + channel.taken().messages);
    }
}

} // verus!
