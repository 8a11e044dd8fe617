//! What happens to a channel, event by event.
use crate::channel::{MessageView, SharedView};
use crate::history::{
    blockers, fifo_ok, fresh, ids_distinct, is_ready, lemma_blockers_positive,
    lemma_orderly_dropped, lemma_orderly_received, lemma_orderly_sent, orderly, ready_at, with_dropped, with_live, with_received, with_sent, Sent,
};
use vstd::prelude::*;

verus! {

/// Something that happens to a channel. A message that was sent before is named by
/// its position among those sent.
#[verifier::reject_recursive_types(K)]
#[verifier::reject_recursive_types(T)]
pub enum Event<K, T> {
    /// A message is sent.
    Send {
        /// Its keys.
        keys: Seq<K>,
        /// Its content.
        content: T,
    },
    /// The message at `p` is received.
    Receive { p: int },
    /// The message at `p`, received before, is dropped.
    DropMessage { p: int },
    /// A sender is cloned.
    CloneSender,
    /// A sender is dropped.
    DropSender,
    /// The receiver is dropped.
    DropReceiver,
}

/// What kind of event it is.
pub enum Kind {
    /// A message is sent.
    Send,
    /// A message is received.
    Receive,
    /// A message is dropped.
    DropMessage,
    /// A sender is cloned.
    CloneSender,
    /// A sender is dropped.
    DropSender,
    /// The receiver is dropped.
    DropReceiver,
}

impl<K, T> Event<K, T> {
    /// The kind of the event.
    pub open spec fn kind(self) -> Kind {
        match self {
            Event::Send { .. } => Kind::Send,
            Event::Receive { .. } => Kind::Receive,
            Event::DropMessage { .. } => Kind::DropMessage,
            Event::CloneSender => Kind::CloneSender,
            Event::DropSender => Kind::DropSender,
            Event::DropReceiver => Kind::DropReceiver,
        }
    }
}

/// How many of the first `n` events are of this kind.
pub open spec fn happened<K, T>(events: Seq<Event<K, T>>, n: int, kind: Kind) -> nat
    decreases n,
{
    if n <= 0 {
        0
    } else {
        happened(events, n - 1, kind) + if events[n - 1].kind() == kind {
            1nat
        } else {
            0
        }
    }
}

/// What `event` leaves of the messages that are ready.
pub open spec fn left<K, T>(fifo: Seq<MessageView<K, T>>, event: Event<K, T>) -> Seq<
    MessageView<K, T>,
> {
    if event is Receive {
        fifo.drop_first()
    } else {
        fifo
    }
}

/// A channel with what happened to it.
#[verifier::reject_recursive_types(K)]
#[verifier::reject_recursive_types(T)]
pub struct Trace<K, T> {
    /// The state of the channel.
    pub shared: SharedView<K, T>,
    /// The messages sent so far, in the order in which they were sent.
    pub sent: Seq<Sent<K, T>>,
    /// The messages received so far, in the order in which they were received,
    /// each by its position among those sent.
    pub received: Seq<int>,
}

impl<K, T> Trace<K, T> {
    /// A new channel.
    pub open spec fn start(cap: usize) -> Self {
        Trace { shared: SharedView::new(cap), sent: Seq::empty(), received: Seq::empty() }
    }

    /// Whether `event` leads from this trace to `post`.
    pub open spec fn step(self, event: Event<K, T>, post: Self) -> bool {
        match event {
            Event::Send { keys, content } => {
                let msg = MessageView { keys, content, id: self.shared.queue.next_id };
                &&& self.shared.receiver && !self.shared.full()
                &&& post.shared == self.shared.sent(keys, content)
                &&& post.sent == with_sent(self.sent, msg)
                &&& post.received == self.received
            },
            Event::Receive { p } => {
                &&& self.shared.queue.fifo.len() > 0
                &&& ready_at(self.sent, p, self.shared.queue.fifo[0])
                &&& post.shared == self.shared.received()
                &&& post.sent == with_received(self.sent, p)
                &&& post.received == self.received.push(p)
            },
            Event::DropMessage { p } => {
                let msg = self.sent[p].msg;
                &&& 0 <= p < self.sent.len()
                &&& self.sent[p].stage is Held
                &&& self.shared.queue.released(post.shared.queue, msg.id, msg.keys)
                &&& post.shared == SharedView { queue: post.shared.queue, ..self.shared }
                &&& post.sent == with_dropped(self.sent, p)
                &&& post.received == self.received
            },
            Event::CloneSender => post == (Trace {
                shared: SharedView {
                    senders: self.shared.senders.wrapping_add(1),
                    ..self.shared
                },
                ..self
            }),
            Event::DropSender => post == (Trace {
                shared: SharedView {
                    senders: self.shared.senders.wrapping_sub(1),
                    ..self.shared
                },
                ..self
            }),
            Event::DropReceiver => post == (Trace {
                shared: SharedView { receiver: false, ..self.shared },
                ..self
            }),
        }
    }

    /// Whether `event` stays within the limits of the machine: a message that is
    /// sent gets an id that no message in use has, and its conflicts can be counted.
    pub open spec fn within_limits(self, event: Event<K, T>) -> bool {
        match event {
            Event::Send { keys, content } => {
                &&& fresh(self.sent, self.shared.queue.next_id)
                &&& blockers(self.sent, keys.to_set(), self.sent.len() as int) <= usize::MAX
            },
            _ => true,
        }
    }

    /// A message that is not dropped is active under all of its keys.
    pub open spec fn settled(self) -> bool {
        forall|i: int|
            0 <= i < self.sent.len() && !((#[trigger] self.sent[i]).stage is Gone)
                ==> self.sent[i].live == self.sent[i].keys()
    }

    /// The messages received are those that are held or gone, each of them once.
    pub open spec fn received_once(self) -> bool {
        &&& self.received.no_duplicates()
        &&& forall|b: int|
            0 <= b < self.received.len() ==> 0 <= #[trigger] self.received[b] < self.sent.len()
        &&& forall|i: int|
            0 <= i < self.sent.len() ==> (self.received.contains(i) <==> (
            #[trigger] self.sent[i]).stage is Held || self.sent[i].stage is Gone)
    }

    /// Whatever is received comes after all messages that were sent before it and
    /// have a key in common with it, and those are dropped.
    pub open spec fn received_in_order(self) -> bool {
        forall|i: int, b: int|
            #![trigger self.sent[i], self.received[b]]
            0 <= b < self.received.len() && 0 <= i < self.received[b] && self.sent[i].conflicts(
                self.sent[self.received[b]],
            ) ==> self.sent[i].stage is Gone && self.received.take(b).contains(i)
    }

    /// What holds of a channel at all times.
    pub open spec fn ok(self) -> bool {
        &&& orderly(self.shared.queue, self.sent)
        &&& self.settled()
        &&& self.received_once()
        &&& self.received_in_order()
    }

    /// Whether the message at `i` is ahead of the message at `j`: it is received, and
    /// before the other, or it is ready, and the other neither received nor ready
    /// before it.
    pub open spec fn ahead(self, i: int, j: int) -> bool {
        ||| exists|a: int|
            0 <= a < self.received.len() && #[trigger] self.received[a] == i
                && !self.received.take(a).contains(j)
        ||| {
            &&& self.sent[i].stage is Ready
            &&& !self.received.contains(j)
            &&& exists|a: int|
                0 <= a < self.shared.queue.fifo.len() && #[trigger] self.shared.queue.fifo[a]
                    == self.sent[i].msg && !self.shared.queue.fifo.take(a).contains(
                    self.sent[j].msg,
                )
        }
    }

    /// A message that is not parked is ahead of one that is sent now.
    pub proof fn lemma_ahead_of_new(self, event: Event<K, T>, post: Self, i: int)
        requires
            self.ok(),
            event is Send,
            self.step(event, post),
            self.within_limits(event),
            0 <= i < self.sent.len(),
            !(self.sent[i].stage is Parked),
        ensures
            post.ahead(i, self.sent.len() as int),
    {
        let j = self.sent.len() as int;
        assert(!self.received.contains(j));
        assert(post.sent[i] == self.sent[i]);
        if self.sent[i].stage is Ready {
            let fifo = self.shared.queue.fifo;
            let a = fifo.index_of(self.sent[i].msg);
            assert(fifo.contains(self.sent[i].msg));
            assert(post.shared.queue.fifo[a] == post.sent[i].msg);
            let before = post.shared.queue.fifo.take(a);
            if before.contains(post.sent[j].msg) {
                let c = before.index_of(post.sent[j].msg);
                assert(fifo[c] == post.sent[j].msg);
                assert(is_ready(self.sent, fifo[c]));
                let p = choose|p: int| ready_at(self.sent, p, fifo[c]);
                assert(self.sent[p].msg.id == self.shared.queue.next_id);
            }
        } else {
            assert(self.received.contains(i));
            let a = self.received.index_of(i);
            assert(post.received[a] == i);
            assert(!post.received.take(a).contains(j)) by {
                if post.received.take(a).contains(j) {
                    let c = post.received.take(a).index_of(j);
                    assert(self.received[c] == j);
                }
            }
        }
    }

    /// A message that is ahead of another stays ahead of it when one is received.
    proof fn lemma_ahead_receive(self, p: int, post: Self, i: int, j: int)
        requires
            ids_distinct(self.sent),
            fifo_ok(self.shared.queue, self.sent),
            self.step(Event::Receive { p }, post),
            0 <= i < self.sent.len(),
            0 <= j < self.sent.len(),
            i != j,
            self.ahead(i, j),
        ensures
            post.ahead(i, j),
    {
        let fifo = self.shared.queue.fifo;
        let after = post.shared.queue.fifo;
        let n = self.received.len() as int;
        if exists|a: int|
            0 <= a < n && #[trigger] self.received[a] == i && !self.received.take(a).contains(j) {
            let a = choose|a: int|
                0 <= a < n && #[trigger] self.received[a] == i && !self.received.take(a).contains(j);
            assert(post.received[a] == i);
            assert(post.received.take(a) =~= self.received.take(a));
        } else {
            let a = choose|a: int|
                0 <= a < fifo.len() && #[trigger] fifo[a] == self.sent[i].msg && !fifo.take(
                    a,
                ).contains(self.sent[j].msg);
            assert(post.received[n] == p);
            if a == 0 {
                assert(self.sent[p].msg.id == self.sent[i].msg.id);
                assert(p == i);
                assert(post.received.take(n) =~= self.received);
            } else {
                assert(fifo[0].id != fifo[a].id);
                assert(fifo.take(a)[0] == fifo[0]);
                assert(p != i && p != j);
                assert(after[a - 1] == post.sent[i].msg);
                if after.take(a - 1).contains(post.sent[j].msg) {
                    let c = after.take(a - 1).index_of(post.sent[j].msg);
                    assert(fifo.take(a)[c + 1] == self.sent[j].msg);
                }
                if post.received.contains(j) {
                    let c = post.received.index_of(j);
                    assert(self.received[c] == j);
                }
            }
        }
    }

    /// A message that is ahead of another stays ahead of it as long as the messages
    /// that are ready only become more.
    proof fn lemma_ahead_append(self, post: Self, i: int, j: int)
        requires
            post.received == self.received,
            self.shared.queue.fifo.is_prefix_of(post.shared.queue.fifo),
            post.sent[i].msg == self.sent[i].msg,
            post.sent[j].msg == self.sent[j].msg,
            self.sent[i].stage is Ready ==> post.sent[i].stage is Ready,
            self.ahead(i, j),
        ensures
            post.ahead(i, j),
    {
        let fifo = self.shared.queue.fifo;
        let after = post.shared.queue.fifo;
        if exists|a: int|
            0 <= a < fifo.len() && #[trigger] fifo[a] == self.sent[i].msg && !fifo.take(
                a,
            ).contains(self.sent[j].msg) {
            let a = choose|a: int|
                0 <= a < fifo.len() && #[trigger] fifo[a] == self.sent[i].msg && !fifo.take(
                    a,
                ).contains(self.sent[j].msg);
            assert(after[a] == post.sent[i].msg);
            assert(after.take(a) =~= fifo.take(a));
        }
    }

    /// A message that is ahead of another stays ahead of it.
    pub proof fn lemma_ahead_step(self, event: Event<K, T>, post: Self, i: int, j: int)
        requires
            ids_distinct(self.sent),
            fifo_ok(self.shared.queue, self.sent),
            self.step(event, post),
            left(self.shared.queue.fifo, event).is_prefix_of(post.shared.queue.fifo),
            0 <= i < self.sent.len(),
            0 <= j < self.sent.len(),
            i != j,
            self.ahead(i, j),
        ensures
            post.ahead(i, j),
    {
        match event {
            Event::Receive { p } => self.lemma_ahead_receive(p, post, i, j),
            _ => self.lemma_ahead_append(post, i, j),
        }
    }

    /// A new channel is in order.
    pub proof fn lemma_ok_start(cap: usize)
        ensures
            Self::start(cap).ok(),
    {
    }

    /// To send keeps a channel in order.
    #[verifier::spinoff_prover]
    #[verifier::rlimit(50)]
    proof fn lemma_ok_send(self, keys: Seq<K>, content: T, post: Self)
        requires
            self.ok(),
            self.step(Event::Send { keys, content }, post),
            self.within_limits(Event::Send { keys, content }),
        ensures
            post.ok(),
    {
        let n = self.sent.len() as int;
        let msg = MessageView { keys, content, id: self.shared.queue.next_id };
        lemma_orderly_sent(self.shared.queue, self.sent, msg);
        assert(forall|i: int| 0 <= i < n ==> post.sent[i] == self.sent[i]);
        assert(orderly(post.shared.queue, post.sent)) by {
            let queue = self.shared.queue.with_msg(msg);
            assert(post.shared.queue.active == queue.active);
            assert(forall|key: K|
                #![trigger post.shared.queue.active_under(key)]
                post.shared.queue.active_under(key) == queue.active_under(key));
        }
        assert(!self.received.contains(n));
    }

    /// To receive keeps a channel in order.
    #[verifier::spinoff_prover]
    #[verifier::rlimit(50)]
    proof fn lemma_ok_receive(self, p: int, post: Self)
        requires
            self.ok(),
            self.step(Event::Receive { p }, post),
        ensures
            post.ok(),
    {
        lemma_orderly_received(self.shared.queue, self.sent, p);
        assert(forall|i: int| 0 <= i < self.sent.len() && i != p ==> post.sent[i] == self.sent[i]);
        assert(post.received_in_order()) by {
            assert forall|i: int, b: int|
                #![trigger post.sent[i], post.received[b]]
                0 <= b < post.received.len() && 0 <= i < post.received[b]
                    && post.sent[i].conflicts(
                    post.sent[post.received[b]],
                ) implies post.sent[i].stage is Gone && post.received.take(b).contains(i) by {
                let j = post.received[b];
                if b < self.received.len() {
                    assert(self.received[b] == j);
                    assert(self.sent[i].conflicts(self.sent[j]));
                    assert(post.received.take(b) =~= self.received.take(b));
                } else {
                    assert(j == p);
                    assert(post.received.take(b) =~= self.received);
                    let key = choose|key: K|
                        self.sent[i].keys().contains(key) && self.sent[p].keys().contains(key);
                    if !(self.sent[i].stage is Gone) {
                        vstd::seq_lib::seq_to_set_is_finite(self.sent[p].msg.keys);
                        lemma_blockers_positive(self.sent, self.sent[p].keys(), p, i, key);
                    }
                    assert(self.received.contains(i));
                }
            }
        }
        assert(post.received_once()) by {
            assert(!self.received.contains(p));
            assert forall|i: int| 0 <= i < post.sent.len() implies (post.received.contains(i)
                <==> (#[trigger] post.sent[i]).stage is Held || post.sent[i].stage is Gone) by {
                if self.received.contains(i) {
                    assert(post.received[self.received.index_of(i)] == i);
                }
                assert(post.received[self.received.len() as int] == p);
            }
        }
    }

    /// To drop a message keeps a channel in order.
    #[verifier::spinoff_prover]
    #[verifier::rlimit(50)]
    proof fn lemma_ok_drop(self, p: int, post: Self)
        requires
            self.ok(),
            self.step(Event::DropMessage { p }, post),
        ensures
            post.ok(),
    {
        lemma_orderly_dropped(self.shared.queue, post.shared.queue, self.sent, p);
        let released = with_live(self.sent, p, Set::empty());
        assert forall|i: int| 0 <= i < self.sent.len() implies (#[trigger] post.sent[i]).msg
            == self.sent[i].msg && (i != p ==> post.sent[i].live == self.sent[i].live) && (
        post.sent[i].stage is Gone <==> self.sent[i].stage is Gone || i == p) && (
        post.sent[i].stage is Held ==> self.sent[i].stage is Held) && (self.sent[i].stage is Held
            && i != p ==> post.sent[i].stage is Held) by {
            assert(i != p ==> post.sent[i] == released[i]);
        }
        assert(post.received_in_order()) by {
            assert forall|i: int, b: int|
                #![trigger post.sent[i], post.received[b]]
                0 <= b < post.received.len() && 0 <= i < post.received[b]
                    && post.sent[i].conflicts(
                    post.sent[post.received[b]],
                ) implies post.sent[i].stage is Gone && post.received.take(b).contains(i) by {
                let j = self.received[b];
                assert(post.sent[j].msg == self.sent[j].msg);
                assert(self.sent[i].conflicts(self.sent[j]));
            }
        }
    }

    /// Whatever happens within the limits of the machine keeps a channel in order.
    pub proof fn lemma_ok_step(self, event: Event<K, T>, post: Self)
        requires
            self.ok(),
            self.step(event, post),
            self.within_limits(event),
        ensures
            post.ok(),
    {
        match event {
            Event::Send { keys, content } => self.lemma_ok_send(keys, content, post),
            Event::Receive { p } => self.lemma_ok_receive(p, post),
            Event::DropMessage { p } => self.lemma_ok_drop(p, post),
            _ => {},
        }
    }
}

} // verus!
