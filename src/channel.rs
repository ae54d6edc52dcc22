use vstd::prelude::*;

verus! {

/// A send failed because no receiver remains; the message comes back.
#[derive(Clone, Copy, PartialEq, Eq, Debug)]
pub struct SendError<T>(pub T);

/// The outcome of one poll of a future.
#[derive(Clone, Copy, PartialEq, Eq, Debug)]
pub enum Poll<T> {
    Pending,
    Ready(T),
}

/// An unbounded multi-producer, single-consumer channel: a FIFO queue of messages, the count
/// of live senders, whether the receiver is alive, and the task parked waiting to receive.
/// The channel is closed once no sender remains.
pub struct Channel<T> {
    queue: Vec<T>,
    senders: usize,
    receiver: bool,
    parked: Option<usize>,
}

impl<T> Channel<T> {
    /// The messages sent and not yet received, oldest first.
    pub closed spec fn view(&self) -> Seq<T> {
        self.queue@
    }

    pub closed spec fn senders(&self) -> nat {
        self.senders as nat
    }

    pub closed spec fn has_receiver(&self) -> bool {
        self.receiver
    }

    /// The task waiting for a message, if any.
    pub closed spec fn parked(&self) -> Option<usize> {
        self.parked
    }

    /// A channel with one sender and its receiver.
    pub fn new() -> (r: Channel<T>)
        ensures
            r@ == Seq::<T>::empty(),
            r.senders() == 1,
            r.has_receiver(),
            r.parked().is_none(),
    {
        Channel { queue: Vec::new(), senders: 1, receiver: true, parked: None }
    }

    /// The number of live senders.
    pub fn senders_count(&self) -> (r: usize)
        ensures
            r == self.senders(),
    {
        self.senders
    }

    pub fn is_closed(&self) -> (r: bool)
        ensures
            r == (self.senders() == 0),
    {
        self.senders == 0
    }

    /// Clones a sender.
    pub fn clone_sender(&mut self)
        requires
            0 < old(self).senders() < usize::MAX,
        ensures
            final(self).senders() == old(self).senders() + 1,
            final(self)@ == old(self)@,
            final(self).has_receiver() == old(self).has_receiver(),
            final(self).parked() == old(self).parked(),
    {
        self.senders = self.senders + 1;
    }

    /// Drops a sender. Dropping the last one closes the channel and hands back the parked
    /// receiver's task, which must be woken to see the close.
    pub fn drop_sender(&mut self) -> (wake: Option<usize>)
        requires
            old(self).senders() > 0,
        ensures
            final(self).senders() == old(self).senders() - 1,
            final(self)@ == old(self)@,
            final(self).has_receiver() == old(self).has_receiver(),
            final(self).senders() == 0 ==> wake == old(self).parked() && final(self).parked().is_none(),
            final(self).senders() > 0 ==> wake.is_none() && final(self).parked() == old(self).parked(),
    {
        self.senders = self.senders - 1;
        if self.senders == 0 {
            self.parked.take()
        } else {
            None
        }
    }

    /// Drops the receiver: later sends fail and queued messages are discarded.
    pub fn drop_receiver(&mut self)
        ensures
            !final(self).has_receiver(),
            final(self)@ == Seq::<T>::empty(),
            final(self).senders() == old(self).senders(),
            final(self).parked().is_none(),
    {
        self.receiver = false;
        self.queue = Vec::new();
        self.parked = None;
    }

    /// Forgets task `t` as the parked receiver, if it is the one parked: a dropped task
    /// leaves no registration behind.
    pub fn unpark(&mut self, t: usize)
        ensures
            final(self)@ == old(self)@,
            final(self).senders() == old(self).senders(),
            final(self).has_receiver() == old(self).has_receiver(),
            final(self).parked() == if old(self).parked() == Some(t) { None } else { old(self).parked() },
    {
        if self.parked == Some(t) {
            self.parked = None;
        }
    }

    /// Sends `value`. Fails, handing it back, when the receiver is gone; otherwise queues it
    /// and hands back the parked receiver's task, to be woken.
    pub fn send(&mut self, value: T) -> (r: Result<Option<usize>, SendError<T>>)
        ensures
            !old(self).has_receiver() ==> r == Err::<Option<usize>, SendError<T>>(SendError(value))
                && *final(self) == *old(self),
            old(self).has_receiver() ==> r == Ok::<Option<usize>, SendError<T>>(old(self).parked())
                && final(self)@ == old(self)@.push(value) && final(self).parked().is_none(),
            final(self).senders() == old(self).senders(),
            final(self).has_receiver() == old(self).has_receiver(),
    {
        if !self.receiver {
            return Err(SendError(value));
        }
        self.queue.push(value);
        Ok(self.parked.take())
    }

    /// Polls for the next message on behalf of task `waker`: the oldest queued message if
    /// there is one; `Ready(None)` once the channel is closed and drained, on this and every
    /// later poll; otherwise parks `waker` and returns `Pending`.
    pub fn poll_recv(&mut self, waker: usize) -> (r: Poll<Option<T>>)
        requires
            old(self).has_receiver(),
        ensures
            final(self).senders() == old(self).senders(),
            final(self).has_receiver(),
            old(self)@.len() > 0 ==> r == Poll::Ready(Some(old(self)@[0])) && final(self)@
                == old(self)@.skip(1) && final(self).parked() == old(self).parked(),
            old(self)@.len() == 0 && old(self).senders() == 0 ==> r == Poll::<Option<T>>::Ready(None)
                && *final(self) == *old(self),
            old(self)@.len() == 0 && old(self).senders() > 0 ==> r == Poll::<Option<T>>::Pending
                && final(self)@ == old(self)@ && final(self).parked() == Some(waker),
    {
        if self.queue.len() > 0 {
            let v = self.queue.remove(0);
            Poll::Ready(Some(v))
        } else if self.senders == 0 {
            Poll::Ready(None)
        } else {
            self.parked = Some(waker);
            Poll::Pending
        }
    }
}

} // verus!
