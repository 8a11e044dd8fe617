use crate::conflict_queue::{key_laws, next_id, ConflictQueue, QueueView};
use crate::errors::ChannelError;
use crate::history::{ready_at, with_dropped, with_received, with_sent};
use crate::laws;
use crate::trace::{Event, Kind, Trace};
use std::hash::Hash;
use std::sync::LockResult;
use vstd::prelude::*;
use vstd::std_specs::iter::IteratorSpec;
use vstd::std_specs::slice::into_iter_elts;

verus! {

/// Message id.
pub type MSGID = usize;

/// A message: one or several keys, a content, and the id under which the
/// channel knows it.
#[derive(Debug)]
pub struct Message<K, T> {
    /// A message has one or several keys.
    keys: Vec<K>,
    /// Message content.
    content: T,
    /// Message id.
    id: MSGID,
}

/// What a message holds.
#[verifier::ext_equal]
pub struct MessageView<K, T> {
    /// The keys, in the order in which the sender listed them.
    pub keys: Seq<K>,
    /// The content.
    pub content: T,
    /// The id.
    pub id: MSGID,
}

impl<K, T> View for Message<K, T> {
    type V = MessageView<K, T>;

    closed spec fn view(&self) -> MessageView<K, T> {
        MessageView { keys: self.keys@, content: self.content, id: self.id }
    }
}

impl<K, T> Message<K, T> {
    /// Creates a new message.
    pub fn new(keys: Vec<K>, content: T, id: MSGID) -> (msg: Self)
        ensures
            msg@ == (MessageView { keys: keys@, content, id }),
    {
        Message { keys, content, id }
    }

    /// Returns an iterator over the message's keys.
    pub fn keys(&self) -> (keys: std::slice::Iter<'_, K>)
        ensures
            into_iter_elts(keys) == self@.keys,
            keys.remaining().unref() == self@.keys,
            IteratorSpec::decrease(&keys) is Some,
            IteratorSpec::initial_value_relation(&keys, &keys),
    {
        let keys = self.keys.as_slice().iter();
        assert(into_iter_elts(keys) =~= self.keys@);
        keys
    }

    /// Returns a reference to the content of the message.
    pub fn content(&self) -> (content: &T)
        ensures
            *content == self@.content,
    {
        &self.content
    }

    /// Returns the id of the message.
    pub fn id(&self) -> (id: MSGID)
        ensures
            id == self@.id,
    {
        self.id
    }
}

/// The state that the two ends of a channel share.
#[verifier::ext_equal]
#[verifier::reject_recursive_types(K)]
#[verifier::reject_recursive_types(T)]
pub struct SharedView<K, T> {
    /// The messages inside the channel.
    pub queue: QueueView<K, T>,
    /// The number of messages that the channel has room for.
    pub capacity: usize,
    /// The number of senders alive.
    pub senders: usize,
    /// Whether the receiver is alive.
    pub receiver: bool,
}

impl<K, T> SharedView<K, T> {
    /// A new channel: it holds nothing, and has one sender and a receiver.
    pub open spec fn new(cap: usize) -> Self {
        SharedView { queue: QueueView::empty(), capacity: cap, senders: 1, receiver: true }
    }

    /// Whether there is no room for a message.
    pub open spec fn full(self) -> bool {
        self.queue.total() >= self.capacity
    }

    /// The channel once a message with `keys` and `content` is inside it.
    pub open spec fn sent(self, keys: Seq<K>, content: T) -> Self {
        let id = self.queue.next_id;
        let queue = self.queue.with_msg(MessageView { keys, content, id });
        SharedView {
            queue: QueueView { next_id: next_id(id), ..queue },
            ..self
        }
    }

    /// The channel once the first message that is ready has left it.
    pub open spec fn received(self) -> Self {
        SharedView {
            queue: QueueView { fifo: self.queue.fifo.drop_first(), ..self.queue },
            ..self
        }
    }
}

/// What a sender has to do next.
#[derive(Debug)]
pub enum SendStep<K, T> {
    /// Give up with an error. The message comes back, so that whoever holds the lock
    /// can release it first.
    Refused {
        /// The error.
        error: ChannelError,
        /// The keys of the message.
        keys: Vec<K>,
        /// The content of the message.
        content: T,
    },
    /// Wait until the channel changes, and then send the same message again.
    Full {
        /// The keys of the message.
        keys: Vec<K>,
        /// The content of the message.
        content: T,
    },
    /// Return: the message is sent.
    Sent {
        /// Whether to wake up every waiter first.
        notify_all: bool,
    },
}

/// What a receiver has to do next.
#[derive(Debug)]
pub enum RecvStep<K, T> {
    /// Give up with an error.
    Refused(ChannelError),
    /// Wait until the channel changes, and then try again.
    Empty,
    /// Return the message.
    Received {
        /// The message.
        msg: Message<K, T>,
        /// Whether to wake up every waiter first.
        notify_all: bool,
    },
}

/// The state that the two ends of a channel share: what a lock protects. Its
/// methods decide what each end does; to wait and to wake up is left to whoever
/// holds the lock.
#[derive(Debug)]
#[verifier::reject_recursive_types(K)]
#[verifier::reject_recursive_types(T)]
pub struct Shared<K, T> {
    /// Channel queue.
    queue: ConflictQueue<K, T>,
    /// Bounded channel capacity.
    capacity: usize,
    /// Sender counter.
    senders: usize,
    /// Receiver flag.
    receiver: bool,
}

impl<K, T> View for Shared<K, T> {
    type V = SharedView<K, T>;

    closed spec fn view(&self) -> SharedView<K, T> {
        SharedView {
            queue: self.queue@,
            capacity: self.capacity,
            senders: self.senders,
            receiver: self.receiver,
        }
    }
}

impl<K: Clone + Eq + Hash, T> Shared<K, T> {
    /// Well-formedness: the queue is well formed and holds no more messages than
    /// the channel has room for.
    pub closed spec fn wf(&self) -> bool {
        &&& self.queue.wf()
        &&& self.queue@.total() <= self.capacity
    }

    /// A channel never holds more messages than it has room for.
    pub proof fn law_bounded(&self)
        requires
            self.wf(),
        ensures
            self@.queue.total() <= self@.capacity,
    {
    }

    /// What a channel holds can be counted.
    pub proof fn lemma_countable(&self)
        requires
            self.wf(),
        ensures
            self@.queue.countable(),
    {
        self.queue.lemma_countable();
    }

    /// Creates the state of a new channel.
    pub fn new(cap: usize) -> (shared: Self)
        requires
            key_laws::<K>(),
        ensures
            shared.wf(),
            shared@ == SharedView::<K, T>::new(cap),
            shared@.receiver && shared@.senders == 1 && shared@.capacity == cap,
            shared@.queue.fifo.len() == 0 && shared@.queue.buffer.dom().len() == 0,
    {
        Shared {
            queue: ConflictQueue::with_capacity(cap),
            capacity: cap,
            senders: 1,
            receiver: true,
        }
    }

    /// Sends a message, given what came of taking the lock. A channel without a
    /// receiver refuses it, and so does one whose lock is poisoned; a full one lets
    /// the sender wait, and then send the message again. Waiters are woken up if
    /// there was nothing to receive and now there is.
    pub fn send(&mut self, lock: LockResult<()>, keys: Vec<K>, t: T) -> (step: SendStep<K, T>)
        requires
            lock is Ok ==> old(self).wf(),
        ensures
            lock is Ok ==> final(self).wf(),
            final(self)@ == (SharedView { queue: final(self)@.queue, ..old(self)@ }),
            step is Full ==> old(self)@.queue.buffer.dom().len() + old(self)@.queue.fifo.len()
                >= old(self)@.capacity,
            step is Sent ==> old(self)@.queue.buffer.dom().len() + old(self)@.queue.fifo.len()
                < old(self)@.capacity,
            match step {
                SendStep::Refused { error, keys: k, content } => {
                    &&& error == (if old(self)@.receiver {
                        ChannelError::PoisonedLock
                    } else {
                        ChannelError::NoReceiverLeft
                    })
                    &&& old(self)@.receiver ==> lock is Err
                    &&& k == keys && content == t
                    &&& final(self)@ == old(self)@
                },
                SendStep::Full { keys: k, content } => {
                    &&& old(self)@.receiver && lock is Ok && old(self)@.full()
                    &&& k == keys && content == t
                    &&& final(self)@ == old(self)@
                },
                SendStep::Sent { notify_all } => {
                    &&& old(self)@.receiver && lock is Ok && !old(self)@.full()
                    &&& final(self)@ == old(self)@.sent(keys@, t)
                    &&& notify_all == (old(self)@.queue.fifo.len() == 0
                        && final(self)@.queue.fifo.len() > 0)
                    &&& notify_all == laws::notifies(old(self)@, Kind::Send, final(self)@)
                    &&& forall|trace: Trace<K, T>|
                        trace.shared == old(self)@ ==> #[trigger] trace.step(
                            Event::Send { keys: keys@, content: t },
                            Trace {
                                shared: final(self)@,
                                sent: with_sent(
                                    trace.sent,
                                    MessageView {
                                        keys: keys@,
                                        content: t,
                                        id: old(self)@.queue.next_id,
                                    },
                                ),
                                ..trace
                            },
                        )
                },
            },
    {
        if self.is_closed() {
            return SendStep::Refused { error: ChannelError::NoReceiverLeft, keys, content: t };
        }
        if let Err(poison) = lock {
            return SendStep::Refused { error: ChannelError::from(poison), keys, content: t };
        }
        proof {
            self.queue.lemma_countable();
        }
        if self.queue.capacity() >= self.capacity {
            return SendStep::Full { keys, content: t };
        }
        let empty_before = self.queue.is_empty();
        let id = self.queue.generate_id();
        let msg = Message::new(keys, t, id);
        proof {
            laws::law_add_counts_one(self.queue@, msg@);
        }
        self.queue.add_msg(msg);
        assert(self@ =~= old(self)@.sent(keys@, t));
        SendStep::Sent { notify_all: empty_before && !self.queue.is_empty() }
    }

    /// Receives a message, given what came of taking the lock. An empty channel lets
    /// the receiver wait, or gives it an error if no sender is left; a poisoned lock
    /// is an error too. Waiters are woken up if the channel was full.
    pub fn recv(&mut self, lock: LockResult<()>) -> (step: RecvStep<K, T>)
        requires
            lock is Ok ==> old(self).wf(),
        ensures
            lock is Ok ==> final(self).wf(),
            final(self)@ == (SharedView { queue: final(self)@.queue, ..old(self)@ }),
            match step {
                RecvStep::Refused(error) => {
                    &&& error == (if lock is Ok {
                        ChannelError::NoSenderLeft
                    } else {
                        ChannelError::PoisonedLock
                    })
                    &&& lock is Ok ==> old(self)@.queue.fifo.len() == 0 && old(self)@.senders == 0
                    &&& final(self)@ == old(self)@
                },
                RecvStep::Empty => {
                    &&& lock is Ok
                    &&& old(self)@.queue.fifo.len() == 0 && old(self)@.senders > 0
                    &&& final(self)@ == old(self)@
                },
                RecvStep::Received { msg, notify_all } => {
                    &&& lock is Ok
                    &&& old(self)@.queue.fifo.len() > 0
                    &&& msg@ == old(self)@.queue.fifo[0]
                    &&& final(self)@ == old(self)@.received()
                    &&& notify_all == old(self)@.full()
                    &&& notify_all == laws::notifies(old(self)@, Kind::Receive, final(self)@)
                    &&& old(self)@.queue.fifo == seq![msg@] + final(self)@.queue.fifo
                    &&& forall|trace: Trace<K, T>, p: int|
                        trace.shared == old(self)@ && ready_at(trace.sent, p, msg@)
                            ==> #[trigger] trace.step(
                            Event::Receive { p },
                            Trace {
                                shared: final(self)@,
                                sent: with_received(trace.sent, p),
                                received: trace.received.push(p),
                            },
                        )
                },
            },
    {
        if let Err(poison) = lock {
            return RecvStep::Refused(ChannelError::from(poison));
        }
        match self.queue.pop_front() {
            Some(msg) => {
                let mut notify_all = false;
                if let Some(capacity_upperbound) = self.capacity.checked_sub(1) {
                    if self.queue.capacity() == capacity_upperbound {
                        notify_all = true;
                    }
                }
                RecvStep::Received { msg, notify_all }
            },
            None => {
                if self.total_senders() == 0 {
                    RecvStep::Refused(ChannelError::NoSenderLeft)
                } else {
                    RecvStep::Empty
                }
            },
        }
    }

    /// Ends the active state of a message that is dropped. Returns whether to wake
    /// up every waiter: if there was nothing to receive, and now there is.
    pub fn drop_message(&mut self, msg: &Message<K, T>) -> (notify_all: bool)
        requires
            old(self).wf(),
        ensures
            final(self).wf(),
            old(self)@.queue.released(final(self)@.queue, msg@.id, msg@.keys),
            final(self)@ == (SharedView { queue: final(self)@.queue, ..old(self)@ }),
            final(self)@.queue.total() == old(self)@.queue.total(),
            notify_all == (old(self)@.queue.fifo.len() == 0 && final(self)@.queue.fifo.len() > 0),
            notify_all == laws::notifies(old(self)@, Kind::DropMessage, final(self)@),
            forall|trace: Trace<K, T>, p: int|
                trace.shared == old(self)@ && 0 <= p < trace.sent.len()
                    && trace.sent[p].stage is Held && trace.sent[p].msg == msg@
                    ==> #[trigger] trace.step(
                    Event::DropMessage { p },
                    Trace {
                        shared: final(self)@,
                        sent: with_dropped(trace.sent, p),
                        ..trace
                    },
                ),
    {
        let empty = self.queue.is_empty();
        let mut res = false;
        let id = msg.id();
        let ghost start = self.queue@;
        let ghost keys = msg@.keys;
        proof {
            self.queue.lemma_countable();
        }
        for key in it: msg.keys()
            invariant
                it.seq().unref() == keys,
                keys == msg@.keys,
                id == msg@.id,
                start == old(self)@.queue,
                start.buffer.dom().finite(),
                self.queue.wf(),
                self@ == (SharedView { queue: self.queue@, ..old(self)@ }),
                start.released(self.queue@, id, keys.take(it.index())),
                res == (self.queue@.fifo.len() > start.fifo.len()),
        {
            let ghost before = self.queue@;
            assert(*key == keys[it.index()]) by {
                assert(it.seq().unref()[it.index()] == *key);
            }
            let solved = self.queue.deactivate(id, key);
            res = res || solved;
            proof {
                let now = keys.take(it.index() + 1);
                assert(now.drop_last() =~= keys.take(it.index()));
                assert(before.deactivated(self.queue@, id, now.last()));
                laws::law_release_keeps_total(start, before, id, keys.take(it.index()));
                laws::law_deactivate_keeps_total(before, self.queue@, id, *key);
            }
        }
        proof {
            assert(keys.take(keys.len() as int) =~= keys);
            laws::law_release_keeps_total(start, self.queue@, id, keys);
        }
        empty && res
    }

    /// Returns the number of messages inside the channel.
    #[must_use]
    pub fn total_queued_items(&self) -> (total: usize)
        requires
            self.wf(),
        ensures
            total == self@.queue.total(),
    {
        self.queue.capacity()
    }

    /// Returns true if the receiver is dropped.
    #[must_use]
    pub fn is_closed(&self) -> (closed: bool)
        ensures
            closed == !self@.receiver,
    {
        !self.receiver
    }

    /// Returns the number of senders alive.
    #[must_use]
    pub fn total_senders(&self) -> (senders: usize)
        ensures
            senders == self@.senders,
    {
        self.senders
    }

    /// Counts a sender that comes by cloning another. The count wraps around, as
    /// that of an atomic counter does.
    pub fn clone_sender(&mut self)
        ensures
            old(self).wf() ==> final(self).wf(),
            final(self)@ == (SharedView {
                senders: old(self)@.senders.wrapping_add(1),
                ..old(self)@
            }),
            forall|trace: Trace<K, T>|
                trace.shared == old(self)@ ==> #[trigger] trace.step(
                    Event::CloneSender,
                    Trace { shared: final(self)@, ..trace },
                ),
    {
        self.senders = self.senders.wrapping_add(1);
    }

    /// Discounts a sender that is dropped. Returns whether to wake up every waiter:
    /// if it was the last one, since a receiver that waits would wait forever.
    pub fn drop_sender(&mut self) -> (notify_all: bool)
        ensures
            old(self).wf() ==> final(self).wf(),
            final(self)@ == (SharedView {
                senders: old(self)@.senders.wrapping_sub(1),
                ..old(self)@
            }),
            notify_all == (old(self)@.senders <= 1),
            notify_all == laws::notifies(old(self)@, Kind::DropSender, final(self)@),
            forall|trace: Trace<K, T>|
                trace.shared == old(self)@ ==> #[trigger] trace.step(
                    Event::DropSender,
                    Trace { shared: final(self)@, ..trace },
                ),
    {
        let before = self.senders;
        self.senders = before.wrapping_sub(1);
        before <= 1
    }

    /// Notes that the receiver is dropped. Returns whether to wake up every waiter,
    /// which is always the case: a sender that waits would wait forever.
    pub fn drop_receiver(&mut self) -> (notify_all: bool)
        ensures
            old(self).wf() ==> final(self).wf(),
            final(self)@ == (SharedView { receiver: false, ..old(self)@ }),
            notify_all,
            notify_all == laws::notifies(old(self)@, Kind::DropReceiver, final(self)@),
            forall|trace: Trace<K, T>|
                trace.shared == old(self)@ ==> #[trigger] trace.step(
                    Event::DropReceiver,
                    Trace { shared: final(self)@, ..trace },
                ),
    {
        self.receiver = false;
        true
    }
}

/// Creates a new bounded channel, with one sender and the receiver. A channel
/// without room for a message is not accepted.
#[must_use]
pub fn bounded<K: Clone + Eq + Hash, T>(cap: usize) -> (shared: Shared<K, T>)
    requires
        cap > 0,
        key_laws::<K>(),
    ensures
        shared.wf(),
        shared@ == SharedView::<K, T>::new(cap),
        shared@.receiver && shared@.senders == 1 && shared@.capacity == cap,
        shared@.queue.fifo.len() == 0 && shared@.queue.buffer.dom().len() == 0,
{
    Shared::new(cap)
}

} // verus!
