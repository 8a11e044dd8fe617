//! Laws of the channel as a whole.
use crate::channel::{MessageView, SharedView, MSGID};
use crate::conflict_queue::{conflicts_at, ids_under, in_degree, next_id, QueueView};
use crate::history::{
    active_at, blockers, fifo_ok, fresh, ids_distinct, is_ready, lemma_blockers_common,
    lemma_blockers_positive, lemma_live_history, lemma_orderly_dropped, lemma_orderly_released,
    lemma_parked_under, orderly, parked_at, ready_at, with_dropped, with_live, with_sent, Sent,
};
use crate::queue_trace::{
    adds_new, is_queue_walk, put_in, puts_distinct, taken_out, QueueEvent,
};
use crate::step_laws::law_drop_goes_key_by_key;
use crate::trace::{happened, left, Event, Kind, Trace};
use vstd::prelude::*;

verus! {

/// To deactivate a message moves messages inside the queue, and neither adds nor
/// loses one.
pub proof fn law_deactivate_keeps_total<K, T>(
    pre: QueueView<K, T>,
    post: QueueView<K, T>,
    id: MSGID,
    key: K,
)
    requires
        pre.buffer.dom().finite(),
        pre.deactivated(post, id, key),
    ensures
        post.total() == pre.total(),
        post.buffer.dom().finite(),
        post.fifo.len() >= pre.fifo.len(),
{
    if pre.active_under(key).contains(id) {
        let ids = pre.active[key].remove(id);
        let order = choose|order: Seq<MSGID>| pre.unblocked(post, ids, order);
        let freed = pre.freed(ids);
        order.unique_seq_to_set();
        vstd::set_lib::lemma_len_subset(freed, pre.buffer.dom());
        assert(post.buffer.dom() =~= pre.buffer.dom().difference(freed));
        assert(pre.buffer.dom().intersect(freed) =~= freed);
        vstd::set_lib::lemma_set_difference_len(pre.buffer.dom(), freed);
    }
}

/// To drop a message moves messages inside the queue, and neither adds nor loses
/// one.
pub proof fn law_release_keeps_total<K, T>(
    pre: QueueView<K, T>,
    post: QueueView<K, T>,
    id: MSGID,
    keys: Seq<K>,
)
    requires
        pre.buffer.dom().finite(),
        pre.released(post, id, keys),
    ensures
        post.total() == pre.total(),
        post.buffer.dom().finite(),
        post.fifo.len() >= pre.fifo.len(),
    decreases keys.len(),
{
    if keys.len() > 0 {
        let mid = choose|mid: QueueView<K, T>|
            pre.released(mid, id, keys.drop_last()) && #[trigger] mid.deactivated(
                post,
                id,
                keys.last(),
            );
        law_release_keeps_total(pre, mid, id, keys.drop_last());
        law_deactivate_keeps_total(mid, post, id, keys.last());
    }
}

/// To add a message adds one to the messages held, unless its id is that of a
/// message that waits.
pub proof fn law_add_counts_one<K, T>(
    pre: QueueView<K, T>,
    msg: MessageView<K, T>,
)
    requires
        pre.buffer.dom().finite(),
    ensures
        pre.with_msg(msg).buffer.dom().finite(),
        pre.with_msg(msg).total() <= pre.total() + 1,
        !pre.buffer.contains_key(msg.id) ==> pre.with_msg(msg).total() == pre.total() + 1,
{
}

/// A queue holds the messages that were put in less those that were taken out, as long
/// as no message is added with the id of one that waits.
pub proof fn law_held_is_put_in_less_taken_out<K, T>(
    queues: Seq<QueueView<K, T>>,
    events: Seq<QueueEvent<K, T>>,
    n: int,
)
    requires
        is_queue_walk(queues, events),
        0 <= n < queues.len(),
        adds_new(queues, events, n),
    ensures
        queues[n].total() == put_in(events, n) - taken_out(events, n),
        queues[n].total() == queues[n].fifo.len() + queues[n].buffer.dom().len(),
        queues[n].buffer.dom().finite(),
    decreases n,
{
    if n > 0 {
        law_held_is_put_in_less_taken_out(queues, events, n - 1);
        let pre = queues[n - 1];
        let event = events[n - 1];
        assert(event.step(pre, queues[n]));
        match event {
            QueueEvent::AddMsg { msg } => law_add_counts_one(pre, msg),
            QueueEvent::Deactivate { id, key } => law_deactivate_keeps_total(
                pre,
                queues[n],
                id,
                key,
            ),
            _ => {},
        }
    }
}

/// Messages that wait were added.
proof fn lemma_waiting_was_added<K, T>(
    queues: Seq<QueueView<K, T>>,
    events: Seq<QueueEvent<K, T>>,
    n: int,
    id: MSGID,
) -> (i: int)
    requires
        is_queue_walk(queues, events),
        0 <= n < queues.len(),
        queues[n].buffer.contains_key(id),
    ensures
        0 <= i < n,
        events[i] is AddMsg,
        events[i]->AddMsg_msg.id == id,
    decreases n,
{
    assert(n > 0);
    let event = events[n - 1];
    assert(event.step(queues[n - 1], queues[n]));
    if event is AddMsg && event->AddMsg_msg.id == id {
        n - 1
    } else {
        lemma_waiting_was_added(queues, events, n - 1, id)
    }
}

/// Messages with distinct ids are all held until they are taken out.
pub proof fn law_distinct_messages_are_held<K, T>(
    queues: Seq<QueueView<K, T>>,
    events: Seq<QueueEvent<K, T>>,
    n: int,
)
    requires
        is_queue_walk(queues, events),
        0 <= n < queues.len(),
        puts_distinct(events, n),
    ensures
        queues[n].total() == put_in(events, n) - taken_out(events, n),
        queues[n].total() == queues[n].fifo.len() + queues[n].buffer.dom().len(),
{
    assert forall|i: int| 0 <= i < n && #[trigger] events[i] is AddMsg implies !queues[
        i
    ].buffer.contains_key(events[i]->AddMsg_msg.id) by {
        let id = events[i]->AddMsg_msg.id;
        if queues[i].buffer.contains_key(id) {
            let j = lemma_waiting_was_added(queues, events, i, id);
            assert(events[j].put_in()->0.id == events[i].put_in()->0.id);
        }
    }
    law_held_is_put_in_less_taken_out(queues, events, n);
}

/// Whether no message is active under one of `keys`.
pub open spec fn conflict_free<K, T>(queue: QueueView<K, T>, keys: Seq<K>) -> bool {
    forall|i: int|
        0 <= i < keys.len() ==> #[trigger] queue.active_under(keys[i]) == Set::<MSGID>::empty()
}

/// A new message is ready at once exactly if no message is active under one of its
/// keys; else it waits in the buffer.
pub proof fn law_conflict_detection<K, T>(pre: QueueView<K, T>, msg: MessageView<K, T>)
    requires
        pre.countable(),
    ensures
        conflict_free(pre, msg.keys) ==> pre.with_msg(msg).fifo == pre.fifo.push(msg)
            && pre.with_msg(msg).buffer == pre.buffer,
        !conflict_free(pre, msg.keys) ==> pre.with_msg(msg).fifo == pre.fifo && pre.with_msg(
            msg,
        ).buffer == pre.buffer.insert(msg.id, pre.with_msg(msg).buffer[msg.id])
            && pre.with_msg(msg).buffer[msg.id].1 == msg,
{
    lemma_in_degree_zero(pre, msg.keys);
}

/// The in-degree is zero exactly if no message is active under a key.
proof fn lemma_in_degree_zero<K, T>(pre: QueueView<K, T>, keys: Seq<K>)
    requires
        pre.countable(),
    ensures
        in_degree(pre.active, keys) == 0 <==> conflict_free(pre, keys),
    decreases keys.len(),
{
    if keys.len() > 0 {
        let none = Set::<MSGID>::empty();
        let before = keys.drop_last();
        let last = keys.len() - 1;
        assert(forall|i: int| 0 <= i < before.len() ==> before[i] == keys[i]);
        lemma_in_degree_zero(pre, before);
        assert(keys.take(last) =~= before);
        vstd::set_lib::lemma_set_empty_equivalency_len(pre.active_under(keys[last]));
        assert(pre.active_under(keys[last]) == ids_under(pre.active, keys[last]));
        if conflict_free(pre, before) {
            assert(conflicts_at(pre.active, keys, last) == 0 <==> pre.active_under(keys[last])
                == none) by {
                if before.contains(keys[last]) {
                    let i = before.index_of(keys[last]);
                    assert(pre.active_under(before[i]) == none);
                }
            }
            if in_degree(pre.active, keys) == 0 {
                assert forall|i: int| 0 <= i < keys.len() implies #[trigger] pre.active_under(
                    keys[i],
                ) == none by {
                    if i < last {
                        assert(pre.active_under(before[i]) == none);
                    }
                }
            }
        } else {
            let i = choose|i: int|
                0 <= i < before.len() && #[trigger] pre.active_under(before[i]) != none;
            assert(pre.active_under(keys[i]) != none);
        }
    }
}

/// A message that is sent to an open channel with room, with nothing else to receive
/// and no message active under its keys, is what is received next, with its keys and
/// its content.
pub proof fn law_received_as_sent<K, T>(pre: SharedView<K, T>, keys: Seq<K>, content: T)
    requires
        pre.queue.fifo.len() == 0,
        pre.queue.countable(),
        conflict_free(pre.queue, keys),
    ensures
        pre.sent(keys, content).queue.fifo == seq![
            MessageView { keys, content, id: pre.queue.next_id },
        ],
{
    let msg = MessageView { keys, content, id: pre.queue.next_id };
    law_conflict_detection(pre.queue, msg);
    assert(pre.queue.fifo.push(msg) =~= seq![msg]);
}

/// What happens to a channel from its creation on, one event after the other.
pub open spec fn is_walk<K, T>(
    cap: usize,
    run: Seq<Trace<K, T>>,
    events: Seq<Event<K, T>>,
) -> bool {
    &&& run.len() == events.len() + 1
    &&& run[0] == Trace::<K, T>::start(cap)
    &&& forall|i: int| 0 <= i < events.len() ==> run[i].step(#[trigger] events[i], run[i + 1])
}

/// A run of a channel: what happens to it, within the limits of the machine.
pub open spec fn is_run<K, T>(
    cap: usize,
    run: Seq<Trace<K, T>>,
    events: Seq<Event<K, T>>,
) -> bool {
    &&& is_walk(cap, run, events)
    &&& forall|i: int| 0 <= i < events.len() ==> run[i].within_limits(#[trigger] events[i])
}

/// Until as many messages are sent as there are ids, the next message gets an id that
/// no other message has.
pub proof fn law_ids_are_fresh<K, T>(
    cap: usize,
    run: Seq<Trace<K, T>>,
    events: Seq<Event<K, T>>,
    n: int,
)
    requires
        is_walk(cap, run, events),
        0 <= n < run.len(),
        run[n].sent.len() <= MSGID::MAX,
    ensures
        fresh(run[n].sent, run[n].shared.queue.next_id),
{
    lemma_ids_are_positions(cap, run, events, n);
}

/// Until the ids start over, the id of a message is its position among those sent.
proof fn lemma_ids_are_positions<K, T>(
    cap: usize,
    run: Seq<Trace<K, T>>,
    events: Seq<Event<K, T>>,
    n: int,
)
    requires
        is_walk(cap, run, events),
        0 <= n < run.len(),
        run[n].sent.len() <= MSGID::MAX,
    ensures
        run[n].shared.queue.next_id == run[n].sent.len(),
        forall|i: int| 0 <= i < run[n].sent.len() ==> (#[trigger] run[n].sent[i]).msg.id == i,
    decreases n,
{
    if n > 0 {
        let pre = run[n - 1];
        let post = run[n];
        let event = events[n - 1];
        assert(pre.step(event, post));
        assert(pre.sent.len() <= post.sent.len());
        lemma_ids_are_positions(cap, run, events, n - 1);
        assert forall|i: int| 0 <= i < post.sent.len() implies (#[trigger] post.sent[i]).msg.id
            == i by {
            if i < pre.sent.len() {
                assert(post.sent[i].msg == pre.sent[i].msg);
            }
        }
        match event {
            Event::DropMessage { p } => {
                let msg = pre.sent[p].msg;
                lemma_release_appends(pre.shared.queue, post.shared.queue, msg.id, msg.keys);
            },
            _ => {},
        }
    }
}

/// A channel is in order at all times of a run.
pub proof fn law_always_in_order<K, T>(
    cap: usize,
    run: Seq<Trace<K, T>>,
    events: Seq<Event<K, T>>,
    n: int,
)
    requires
        is_run(cap, run, events),
        0 <= n < run.len(),
    ensures
        run[n].ok(),
    decreases n,
{
    if n == 0 {
        Trace::<K, T>::lemma_ok_start(cap);
    } else {
        law_always_in_order(cap, run, events, n - 1);
        let event = events[n - 1];
        run[n - 1].lemma_ok_step(event, run[n]);
    }
}

/// Messages with a key in common are received in the order in which they were sent:
/// when the later one is received, the earlier one has been received before, and
/// has been dropped.
pub proof fn law_conflicts_received_in_order<K, T>(
    cap: usize,
    run: Seq<Trace<K, T>>,
    events: Seq<Event<K, T>>,
    n: int,
    first: int,
    b: int,
)
    requires
        is_run(cap, run, events),
        0 <= n < run.len(),
        0 <= b < run[n].received.len(),
        0 <= first < run[n].received[b],
        run[n].sent[first].conflicts(run[n].sent[run[n].received[b]]),
    ensures
        run[n].received.take(b).contains(first),
        run[n].sent[first].stage is Gone,
{
    law_always_in_order(cap, run, events, n);
    assert(run[n].sent[first].conflicts(run[n].sent[run[n].received[b]]));
}

/// No message is received twice.
pub proof fn law_received_once<K, T>(
    cap: usize,
    run: Seq<Trace<K, T>>,
    events: Seq<Event<K, T>>,
    n: int,
)
    requires
        is_run(cap, run, events),
        0 <= n < run.len(),
    ensures
        run[n].received.no_duplicates(),
{
    law_always_in_order(cap, run, events, n);
}

/// Two messages with a key in common are never both received and not dropped, nor
/// ready to be.
pub proof fn law_conflicts_exclude_each_other<K, T>(
    cap: usize,
    run: Seq<Trace<K, T>>,
    events: Seq<Event<K, T>>,
    n: int,
    i: int,
    j: int,
)
    requires
        is_run(cap, run, events),
        0 <= n < run.len(),
        0 <= i < j < run[n].sent.len(),
        run[n].sent[i].stage is Ready || run[n].sent[i].stage is Held,
        run[n].sent[j].stage is Ready || run[n].sent[j].stage is Held,
    ensures
        !run[n].sent[i].conflicts(run[n].sent[j]),
{
    law_parked_for_a_conflict(cap, run, events, n, j);
}

/// A message is parked exactly as long as a message that was sent before it and has
/// a key in common with it is not dropped.
pub proof fn law_parked_for_a_conflict<K, T>(
    cap: usize,
    run: Seq<Trace<K, T>>,
    events: Seq<Event<K, T>>,
    n: int,
    j: int,
)
    requires
        is_run(cap, run, events),
        0 <= n < run.len(),
        0 <= j < run[n].sent.len(),
    ensures
        run[n].sent[j].stage is Parked <==> exists|i: int|
            0 <= i < j && !((#[trigger] run[n].sent[i]).stage is Gone) && run[n].sent[i].conflicts(
                run[n].sent[j],
            ),
{
    law_always_in_order(cap, run, events, n);
    let sent = run[n].sent;
    let keys = sent[j].keys();
    vstd::seq_lib::seq_to_set_is_finite(sent[j].msg.keys);
    if sent[j].stage is Parked {
        let (i, key) = lemma_some_blocker(sent, keys, j);
        assert(sent[i].live.contains(key));
        assert(sent[i].conflicts(sent[j]));
    }
    if exists|i: int|
        0 <= i < j && !((#[trigger] sent[i]).stage is Gone) && sent[i].conflicts(sent[j]) {
        let i = choose|i: int|
            0 <= i < j && !((#[trigger] sent[i]).stage is Gone) && sent[i].conflicts(sent[j]);
        let key = choose|key: K| sent[i].keys().contains(key) && sent[j].keys().contains(key);
        lemma_blockers_positive(sent, keys, j, i, key);
    }
}

/// Where there are conflicts there is a message with one of the keys.
proof fn lemma_some_blocker<K, T>(sent: Seq<Sent<K, T>>, keys: Set<K>, n: int) -> (found: (int, K))
    requires
        keys.finite(),
        blockers(sent, keys, n) > 0,
    ensures
        0 <= found.0 < n,
        keys.contains(found.1),
        sent[found.0].live.contains(found.1),
    decreases n,
{
    let common = keys.intersect(sent[n - 1].live);
    if common.len() > 0 {
        vstd::set_lib::lemma_set_empty_equivalency_len(common);
        let key = choose|key: K| common.contains(key);
        (n - 1, key)
    } else {
        lemma_some_blocker(sent, keys, n - 1)
    }
}

/// A channel does not get stuck: as long as a message is inside it and every message
/// that was received is dropped, there is a message to receive.
pub proof fn law_no_deadlock<K, T>(
    cap: usize,
    run: Seq<Trace<K, T>>,
    events: Seq<Event<K, T>>,
    n: int,
    i: int,
)
    requires
        is_run(cap, run, events),
        0 <= n < run.len(),
        0 <= i < run[n].sent.len(),
        run[n].sent[i].stage is Parked || run[n].sent[i].stage is Ready,
        forall|j: int| 0 <= j < run[n].sent.len() ==> !((#[trigger] run[n].sent[j]).stage is Held),
    ensures
        run[n].shared.queue.fifo.len() > 0,
    decreases i,
{
    law_always_in_order(cap, run, events, n);
    let sent = run[n].sent;
    if sent[i].stage is Ready {
        assert(run[n].shared.queue.fifo.contains(sent[i].msg));
    } else {
        law_parked_for_a_conflict(cap, run, events, n, i);
        let j = choose|j: int|
            0 <= j < i && !((#[trigger] sent[j]).stage is Gone) && sent[j].conflicts(sent[i]);
        law_no_deadlock(cap, run, events, n, j);
    }
}

/// What a channel gives out is a message that was sent to it, with the keys and the
/// content that it was sent with, and that was not received before.
pub proof fn law_received_was_sent<K, T>(
    cap: usize,
    run: Seq<Trace<K, T>>,
    events: Seq<Event<K, T>>,
    n: int,
)
    requires
        is_run(cap, run, events),
        0 <= n < run.len(),
        run[n].shared.queue.fifo.len() > 0,
    ensures
        exists|p: int|
            #![trigger run[n].sent[p]]
            0 <= p < run[n].sent.len() && run[n].sent[p].msg == run[n].shared.queue.fifo[0]
                && run[n].sent[p].stage is Ready && !run[n].received.contains(p),
{
    law_always_in_order(cap, run, events, n);
    let msg = run[n].shared.queue.fifo[0];
    assert(is_ready(run[n].sent, msg));
    let p = choose|p: int| ready_at(run[n].sent, p, msg);
    assert(run[n].sent[p].msg == msg);
}

/// A channel never holds more messages than it has room for, and its room never
/// changes.
pub proof fn law_bounded<K, T>(
    cap: usize,
    run: Seq<Trace<K, T>>,
    events: Seq<Event<K, T>>,
    n: int,
)
    requires
        is_walk(cap, run, events),
        0 <= n < run.len(),
    ensures
        run[n].shared.capacity == cap,
        run[n].shared.queue.buffer.dom().finite(),
        run[n].shared.queue.total() <= cap,
    decreases n,
{
    if n > 0 {
        law_bounded(cap, run, events, n - 1);
        let pre = run[n - 1];
        let event = events[n - 1];
        assert(pre.step(event, run[n]));
        match event {
            Event::Send { keys, content } => {
                let msg = MessageView { keys, content, id: pre.shared.queue.next_id };
                law_add_counts_one(pre.shared.queue, msg);
            },
            Event::DropMessage { p } => {
                let msg = pre.sent[p].msg;
                law_release_keeps_total(
                    pre.shared.queue,
                    run[n].shared.queue,
                    msg.id,
                    msg.keys,
                );
            },
            _ => {},
        }
    }
}

/// The messages inside a channel, ready or parked, are those sent less those received,
/// dropped or not.
pub proof fn law_queued_is_sent_less_received<K, T>(
    cap: usize,
    run: Seq<Trace<K, T>>,
    events: Seq<Event<K, T>>,
    n: int,
)
    requires
        is_run(cap, run, events),
        0 <= n < run.len(),
    ensures
        run[n].shared.queue.total() == happened(events, n, Kind::Send) - happened(
            events,
            n,
            Kind::Receive,
        ),
        run[n].sent.len() == happened(events, n, Kind::Send),
        run[n].received.len() == happened(events, n, Kind::Receive),
    decreases n,
{
    if n > 0 {
        law_queued_is_sent_less_received(cap, run, events, n - 1);
        let pre = run[n - 1];
        let queue = pre.shared.queue;
        let event = events[n - 1];
        assert(pre.step(event, run[n]));
        law_bounded(cap, run, events, n - 1);
        match event {
            Event::Send { keys, content } => {
                let msg = MessageView { keys, content, id: queue.next_id };
                law_always_in_order(cap, run, events, n - 1);
                assert(pre.within_limits(event));
                if queue.buffer.contains_key(msg.id) {
                    let i = choose|i: int| parked_at(pre.sent, i, msg.id);
                    assert(pre.sent[i].msg.id == msg.id);
                }
                law_add_counts_one(queue, msg);
            },
            Event::DropMessage { p } => {
                let msg = pre.sent[p].msg;
                law_release_keeps_total(queue, run[n].shared.queue, msg.id, msg.keys);
            },
            _ => {},
        }
    }
}

/// A channel is open exactly as long as its receiver is not dropped: whatever room it
/// has, and whatever is sent, received and dropped through it.
pub proof fn law_open_until_receiver_dropped<K, T>(
    cap: usize,
    run: Seq<Trace<K, T>>,
    events: Seq<Event<K, T>>,
    n: int,
)
    requires
        is_walk(cap, run, events),
        0 <= n < run.len(),
    ensures
        run[n].shared.receiver <==> happened(events, n, Kind::DropReceiver) == 0,
    decreases n,
{
    if n > 0 {
        law_open_until_receiver_dropped(cap, run, events, n - 1);
        let event = events[n - 1];
        assert(run[n - 1].step(event, run[n]));
    }
}

/// A channel is full exactly if the messages that were sent and not received are as many
/// as it was made for: with fewer there is room, and there are never more.
pub proof fn law_full_exactly_at_capacity<K, T>(
    cap: usize,
    run: Seq<Trace<K, T>>,
    events: Seq<Event<K, T>>,
    n: int,
)
    requires
        is_run(cap, run, events),
        0 <= n < run.len(),
    ensures
        happened(events, n, Kind::Send) - happened(events, n, Kind::Receive) <= cap,
        run[n].shared.full() <==> happened(events, n, Kind::Send) - happened(
            events,
            n,
            Kind::Receive,
        ) == cap,
{
    law_queued_is_sent_less_received(cap, run, events, n);
    law_bounded(cap, run, events, n);
}

/// A message can be sent exactly if the receiver is not dropped and fewer messages are
/// inside the channel than it was made for, whatever its keys and its content are.
pub proof fn law_open_channel_with_room_accepts<K, T>(
    cap: usize,
    run: Seq<Trace<K, T>>,
    events: Seq<Event<K, T>>,
    n: int,
    keys: Seq<K>,
    content: T,
)
    requires
        is_run(cap, run, events),
        0 <= n < run.len(),
    ensures
        (exists|post: Trace<K, T>| run[n].step(Event::Send { keys, content }, post)) <==> happened(
            events,
            n,
            Kind::DropReceiver,
        ) == 0 && happened(events, n, Kind::Send) - happened(events, n, Kind::Receive) < cap,
{
    law_open_until_receiver_dropped(cap, run, events, n);
    law_full_exactly_at_capacity(cap, run, events, n);
    let msg = MessageView { keys, content, id: run[n].shared.queue.next_id };
    if run[n].shared.receiver && !run[n].shared.full() {
        let post = Trace {
            shared: run[n].shared.sent(keys, content),
            sent: with_sent(run[n].sent, msg),
            received: run[n].received,
        };
        assert(run[n].step(Event::Send { keys, content }, post));
    }
}

/// Whether the message at `i` can be received: it was not received before, and every
/// message that was sent before it and has a key in common with it is dropped.
pub open spec fn receivable<K, T>(trace: Trace<K, T>, i: int) -> bool {
    &&& 0 <= i < trace.sent.len()
    &&& !trace.received.contains(i)
    &&& forall|m: int|
        0 <= m < i && (#[trigger] trace.sent[m]).conflicts(trace.sent[i])
            ==> trace.sent[m].stage is Gone
}

/// There is something to receive exactly if there is a message that was not received, and
/// whose conflicts with earlier messages are all gone.
pub proof fn law_something_to_receive<K, T>(
    cap: usize,
    run: Seq<Trace<K, T>>,
    events: Seq<Event<K, T>>,
    n: int,
)
    requires
        is_run(cap, run, events),
        0 <= n < run.len(),
    ensures
        run[n].shared.queue.fifo.len() > 0 <==> exists|i: int| receivable(run[n], i),
        run[n].shared.queue.fifo.len() > 0 ==> exists|i: int|
            #[trigger] receivable(run[n], i) && run[n].sent[i].msg == run[n].shared.queue.fifo[0],
        forall|i: int| #[trigger]
            receivable(run[n], i) ==> run[n].shared.queue.fifo.contains(run[n].sent[i].msg),
{
    law_always_in_order(cap, run, events, n);
    let trace = run[n];
    let fifo = trace.shared.queue.fifo;
    if fifo.len() > 0 {
        law_received_was_sent(cap, run, events, n);
        let p = choose|p: int|
            #![trigger trace.sent[p]]
            0 <= p < trace.sent.len() && trace.sent[p].msg == fifo[0] && trace.sent[p].stage is Ready
                && !trace.received.contains(p);
        law_parked_for_a_conflict(cap, run, events, n, p);
        assert(receivable(trace, p));
    }
    assert forall|i: int| #[trigger] receivable(trace, i) implies fifo.contains(
        trace.sent[i].msg,
    ) by {
        law_parked_for_a_conflict(cap, run, events, n, i);
        assert(trace.sent[i].stage is Ready);
    }
    if exists|i: int| receivable(trace, i) {
        let i = choose|i: int| receivable(trace, i);
        assert(fifo.contains(trace.sent[i].msg));
    }
}

/// Messages that were sent do not change.
proof fn lemma_messages_stay<K, T>(
    cap: usize,
    run: Seq<Trace<K, T>>,
    events: Seq<Event<K, T>>,
    m: int,
    n: int,
    i: int,
)
    requires
        is_walk(cap, run, events),
        0 <= m <= n < run.len(),
        0 <= i < run[m].sent.len(),
    ensures
        i < run[n].sent.len(),
        run[n].sent[i].msg == run[m].sent[i].msg,
    decreases n - m,
{
    if m < n {
        lemma_messages_stay(cap, run, events, m, n - 1, i);
        assert(run[n - 1].step(events[n - 1], run[n]));
    }
}

/// Each message that was sent was sent at some time.
proof fn lemma_time_of_sending<K, T>(
    cap: usize,
    run: Seq<Trace<K, T>>,
    events: Seq<Event<K, T>>,
    n: int,
    i: int,
) -> (t: int)
    requires
        is_walk(cap, run, events),
        0 <= n < run.len(),
        0 <= i < run[n].sent.len(),
    ensures
        0 <= t < n,
        events[t] is Send,
        run[t].sent.len() == i,
        run[t + 1].sent.len() == i + 1,
        run[t + 1].sent[i].msg.keys == events[t]->keys,
        run[t + 1].sent[i].msg.content == events[t]->content,
    decreases n,
{
    assert(n > 0);
    assert(run[n - 1].step(events[n - 1], run[n]));
    if i < run[n - 1].sent.len() {
        lemma_time_of_sending(cap, run, events, n - 1, i)
    } else {
        n - 1
    }
}

/// What is received was sent before, with the same keys in the same order and the same
/// content.
pub proof fn law_receive_gives_what_was_sent<K, T>(
    cap: usize,
    run: Seq<Trace<K, T>>,
    events: Seq<Event<K, T>>,
    n: int,
    p: int,
)
    requires
        is_walk(cap, run, events),
        0 <= n < events.len(),
        events[n] == (Event::<K, T>::Receive { p }),
    ensures
        exists|t: int|
            0 <= t < n && #[trigger] events[t] is Send && run[t].sent.len() == p
                && run[n].shared.queue.fifo[0].keys == events[t]->keys
                && run[n].shared.queue.fifo[0].content == events[t]->content,
{
    assert(run[n].step(events[n], run[n + 1]));
    let t = lemma_time_of_sending(cap, run, events, n, p);
    lemma_messages_stay(cap, run, events, t + 1, n, p);
}

/// Whatever is sent within the limits of the machine is in order. Those are out of reach
/// until as many messages are sent as there are ids, and as long as the keys of a message
/// times the messages sent before it fit in a `usize`.
pub proof fn law_limits<K, T>(
    cap: usize,
    run: Seq<Trace<K, T>>,
    events: Seq<Event<K, T>>,
    n: int,
    keys: Seq<K>,
    content: T,
)
    requires
        is_walk(cap, run, events),
        0 <= n < run.len(),
        run[n].sent.len() <= MSGID::MAX,
        run[n].sent.len() * keys.len() <= usize::MAX,
    ensures
        run[n].within_limits(Event::Send { keys, content }),
{
    let len = run[n].sent.len();
    law_ids_are_fresh(cap, run, events, n);
    vstd::seq_lib::seq_to_set_is_finite(keys);
    keys.lemma_cardinality_of_set();
    lemma_blockers_bounded(run[n].sent, keys.to_set(), len as int, keys.len());
}

/// A message has at most one conflict for each of its keys and each earlier message.
proof fn lemma_blockers_bounded<K, T>(sent: Seq<Sent<K, T>>, keys: Set<K>, n: int, most: nat)
    requires
        keys.finite(),
        keys.len() <= most,
        0 <= n,
    ensures
        blockers(sent, keys, n) <= n * most,
    decreases n,
{
    if n > 0 {
        lemma_blockers_bounded(sent, keys, n - 1, most);
        vstd::set_lib::lemma_len_subset(keys.intersect(sent[n - 1].live), keys);
        assert(n * most == (n - 1) * most + most) by (nonlinear_arith);
    }
}

/// A channel whose receiver is dropped stays closed, and nothing is sent to it any
/// more.
pub proof fn law_closed_for_good<K, T>(
    cap: usize,
    run: Seq<Trace<K, T>>,
    events: Seq<Event<K, T>>,
    m: int,
    n: int,
)
    requires
        is_walk(cap, run, events),
        0 <= m <= n < run.len(),
        !run[m].shared.receiver,
    ensures
        !run[n].shared.receiver,
        run[n].sent.len() == run[m].sent.len(),
    decreases n - m,
{
    if m < n {
        law_closed_for_good(cap, run, events, m, n - 1);
        let event = events[n - 1];
        assert(run[n - 1].step(event, run[n]));
    }
}

/// The number of senders alive is one more than the senders that were cloned, less
/// those that were dropped. The counter starts over where that number does not fit.
pub proof fn law_senders_alive<K, T>(
    cap: usize,
    run: Seq<Trace<K, T>>,
    events: Seq<Event<K, T>>,
    n: int,
)
    requires
        is_walk(cap, run, events),
        0 <= n < run.len(),
    ensures
        ({
            let alive = 1 + happened(events, n, Kind::CloneSender) - happened(
                events,
                n,
                Kind::DropSender,
            );
            &&& run[n].shared.senders == alive % (usize::MAX + 1)
            &&& 0 <= alive <= usize::MAX ==> run[n].shared.senders == alive
        }),
    decreases n,
{
    let limit = usize::MAX + 1;
    let alive = 1 + happened(events, n, Kind::CloneSender) - happened(
        events,
        n,
        Kind::DropSender,
    );
    if n > 0 {
        law_senders_alive(cap, run, events, n - 1);
        let event = events[n - 1];
        assert(run[n - 1].step(event, run[n]));
        let before = 1 + happened(events, n - 1, Kind::CloneSender) - happened(
            events,
            n - 1,
            Kind::DropSender,
        );
        vstd::arithmetic::div_mod::lemma_fundamental_div_mod(before, limit);
        let turns = before / limit;
        let senders = run[n].shared.senders as int;
        assert(limit * (turns + 1) == limit * turns + limit) by (nonlinear_arith);
        assert(limit * (turns - 1) == limit * turns - limit) by (nonlinear_arith);
        let now = if alive == limit * turns + senders {
            turns
        } else if alive > before {
            turns + 1
        } else {
            turns - 1
        };
        assert(alive == limit * now + senders);
        assert(now * limit == limit * now) by (nonlinear_arith);
        vstd::arithmetic::div_mod::lemma_fundamental_div_mod_converse(alive, limit, now, senders);
    } else {
        vstd::arithmetic::div_mod::lemma_small_mod(1, limit as nat);
    }
    if 0 <= alive <= usize::MAX {
        vstd::arithmetic::div_mod::lemma_small_mod(alive as nat, limit as nat);
    }
}

/// Only cloning and dropping senders changes their number, and to drop a clone undoes
/// the cloning.
pub proof fn law_senders_counted<K, T>(pre: Trace<K, T>, event: Event<K, T>, post: Trace<K, T>)
    requires
        pre.step(event, post),
    ensures
        event is CloneSender ==> post.shared.senders.wrapping_sub(1) == pre.shared.senders,
        event is DropSender ==> post.shared.senders.wrapping_add(1) == pre.shared.senders,
        !(event is CloneSender) && !(event is DropSender) ==> post.shared.senders
            == pre.shared.senders,
{
}

/// The messages that are ready leave in the order in which they became ready: only
/// the first one is taken, and new ones come behind the others.
pub proof fn law_first_ready_first_out<K, T>(
    pre: Trace<K, T>,
    event: Event<K, T>,
    post: Trace<K, T>,
)
    requires
        pre.step(event, post),
    ensures
        left(pre.shared.queue.fifo, event).is_prefix_of(post.shared.queue.fifo),
{
    match event {
        Event::DropMessage { p } => {
            let msg = pre.sent[p].msg;
            lemma_release_appends(pre.shared.queue, post.shared.queue, msg.id, msg.keys);
        },
        Event::Receive { p } => {
            assert(post.shared.queue.fifo == pre.shared.queue.fifo.drop_first());
        },
        _ => {},
    }
}

/// A message that is sent while an earlier one is not parked is received after it.
pub proof fn law_unparked_received_first<K, T>(
    cap: usize,
    run: Seq<Trace<K, T>>,
    events: Seq<Event<K, T>>,
    t: int,
    n: int,
    i: int,
    b: int,
)
    requires
        is_run(cap, run, events),
        0 <= t < n < run.len(),
        events[t] is Send,
        0 <= i < run[t].sent.len(),
        !(run[t].sent[i].stage is Parked),
        0 <= b < run[n].received.len(),
        run[n].received[b] == run[t].sent.len(),
    ensures
        run[n].received.take(b).contains(i),
{
    let j = run[t].sent.len() as int;
    lemma_ahead(cap, run, events, t, n, i);
    lemma_ahead_received(run[n], i, j, b);
}

/// A message that is not parked is ahead of those that are sent from then on.
#[verifier::spinoff_prover]
#[verifier::rlimit(50)]
proof fn lemma_ahead<K, T>(
    cap: usize,
    run: Seq<Trace<K, T>>,
    events: Seq<Event<K, T>>,
    t: int,
    n: int,
    i: int,
)
    requires
        is_run(cap, run, events),
        0 <= t < n < run.len(),
        events[t] is Send,
        0 <= i < run[t].sent.len(),
        !(run[t].sent[i].stage is Parked),
    ensures
        run[t].sent.len() < run[n].sent.len(),
        run[n].ahead(i, run[t].sent.len() as int),
{
    let event = events[t];
    law_always_in_order(cap, run, events, t);
    assert(run[t].step(event, run[t + 1]));
    assert(run[t].within_limits(event));
    run[t].lemma_ahead_of_new(event, run[t + 1], i);
    lemma_stays_ahead(cap, run, events, t + 1, n, i, run[t].sent.len() as int);
}

/// Of two messages that are received, the one that is ahead was received first.
proof fn lemma_ahead_received<K, T>(trace: Trace<K, T>, i: int, j: int, b: int)
    requires
        trace.ahead(i, j),
        i != j,
        0 <= b < trace.received.len(),
        trace.received[b] == j,
    ensures
        trace.received.take(b).contains(i),
{
    assert(trace.received.contains(j));
    let a = choose|a: int|
        0 <= a < trace.received.len() && #[trigger] trace.received[a] == i
            && !trace.received.take(a).contains(j);
    if b < a {
        assert(trace.received.take(a)[b] == j);
    }
    assert(trace.received.take(b)[a] == i);
}

/// A message that is ahead of another stays ahead of it.
#[verifier::spinoff_prover]
#[verifier::rlimit(50)]
proof fn lemma_stays_ahead<K, T>(
    cap: usize,
    run: Seq<Trace<K, T>>,
    events: Seq<Event<K, T>>,
    m: int,
    n: int,
    i: int,
    j: int,
)
    requires
        is_run(cap, run, events),
        0 <= m <= n < run.len(),
        0 <= i < run[m].sent.len(),
        0 <= j < run[m].sent.len(),
        i != j,
        run[m].ahead(i, j),
    ensures
        run[m].sent.len() <= run[n].sent.len(),
        run[n].ahead(i, j),
    decreases n - m,
{
    if m < n {
        let event = events[n - 1];
        assert(run[n - 1].step(event, run[n]));
        lemma_stays_ahead(cap, run, events, m, n - 1, i, j);
        assert(ids_distinct(run[n - 1].sent) && fifo_ok(run[n - 1].shared.queue, run[n - 1].sent))
            by {
            law_always_in_order(cap, run, events, n - 1);
        }
        law_first_ready_first_out(run[n - 1], event, run[n]);
        run[n - 1].lemma_ahead_step(event, run[n], i, j);
    }
}

/// Whether all conflicts of the message at `i` with the one at `p` lie under keys that
/// the latter lists before the position `y`.
pub open spec fn waits_before<K, T>(sent: Seq<Sent<K, T>>, p: int, i: int, y: int) -> bool {
    forall|key: K|
        sent[i].keys().contains(key) && sent[p].keys().contains(key)
            ==> #[trigger] sent[p].msg.keys.take(y).contains(key)
}

/// Whether the message at `j` has the key that the one at `p` lists at the position `y`,
/// and not before.
pub open spec fn waits_at<K, T>(sent: Seq<Sent<K, T>>, p: int, j: int, y: int) -> bool {
    &&& 0 <= y < sent[p].msg.keys.len()
    &&& sent[j].keys().contains(sent[p].msg.keys[y])
    &&& !sent[p].msg.keys.take(y).contains(sent[p].msg.keys[y])
}

/// A dropped message gives its keys free in the order in which it lists them. A message
/// that becomes ready, and waited only under keys that are listed earlier, comes before
/// one that waited under a key that is listed later.
#[verifier::rlimit(40)]
pub proof fn law_freed_in_key_order<K, T>(
    pre: QueueView<K, T>,
    post: QueueView<K, T>,
    sent: Seq<Sent<K, T>>,
    p: int,
    i: int,
    j: int,
    y: int,
)
    requires
        orderly(pre, sent),
        0 <= p < sent.len(),
        sent[p].stage is Held,
        sent[p].live == sent[p].keys(),
        pre.released(post, sent[p].msg.id, sent[p].msg.keys),
        0 <= i < sent.len(),
        0 <= j < sent.len(),
        sent[i].stage is Parked,
        sent[j].stage is Parked,
        post.fifo.contains(sent[i].msg),
        waits_before(sent, p, i, y),
        waits_at(sent, p, j, y),
    ensures
        exists|a: int|
            0 <= a < post.fifo.len() && #[trigger] post.fifo[a] == sent[i].msg
                && !post.fifo.take(a + 1).contains(sent[j].msg),
{
    let id = sent[p].msg.id;
    let keys = sent[p].msg.keys;
    let mid = lemma_drop_up_to(pre, post, id, keys, y);
    let live = sent[p].live.difference(keys.take(y).to_set());
    let between = with_live(sent, p, live);
    assert(between[p] == Sent { live, ..sent[p] });
    lemma_orderly_released(pre, mid, sent, p, keys.take(y));
    lemma_freed_between(pre, post, sent, p, i, y);
    lemma_parked_between(pre, sent, p, j, y);
    assert(mid.fifo.contains(between[i].msg));
    let a = mid.fifo.index_of(sent[i].msg);
    assert(post.fifo[a] == sent[i].msg);
    let first = post.fifo.take(a + 1);
    if first.contains(sent[j].msg) {
        let c = first.index_of(sent[j].msg);
        assert(mid.fifo[c] == sent[j].msg);
        assert(is_ready(between, mid.fifo[c]));
        let q = choose|q: int| ready_at(between, q, mid.fifo[c]);
        assert(between[q].msg.id == between[j].msg.id);
        assert(q == j);
    }
}

/// The queue in the middle of a drop, once the first `y` keys are done: what follows only
/// appends to the fifo.
proof fn lemma_drop_up_to<K, T>(
    pre: QueueView<K, T>,
    post: QueueView<K, T>,
    id: MSGID,
    keys: Seq<K>,
    y: int,
) -> (mid: QueueView<K, T>)
    requires
        pre.released(post, id, keys),
        0 <= y <= keys.len(),
    ensures
        pre.released(mid, id, keys.take(y)),
        mid.fifo.len() <= post.fifo.len(),
        forall|n: int| 0 <= n < mid.fifo.len() ==> #[trigger] post.fifo[n] == mid.fifo[n],
{
    assert(keys =~= keys.take(y) + keys.skip(y));
    law_drop_goes_key_by_key(pre, post, id, keys.take(y), keys.skip(y));
    let mid = choose|mid: QueueView<K, T>|
        pre.released(mid, id, keys.take(y)) && #[trigger] mid.released(post, id, keys.skip(y));
    lemma_release_appends(mid, post, id, keys.skip(y));
    mid
}

/// A message that becomes ready is ready as soon as none of its keys is left.
proof fn lemma_freed_between<K, T>(
    pre: QueueView<K, T>,
    post: QueueView<K, T>,
    sent: Seq<Sent<K, T>>,
    p: int,
    i: int,
    y: int,
)
    requires
        orderly(pre, sent),
        0 <= p < sent.len(),
        sent[p].stage is Held,
        sent[p].live == sent[p].keys(),
        pre.released(post, sent[p].msg.id, sent[p].msg.keys),
        0 <= i < sent.len(),
        sent[i].stage is Parked,
        post.fifo.contains(sent[i].msg),
        waits_before(sent, p, i, y),
    ensures
        ({
            let live = sent[p].live.difference(sent[p].msg.keys.take(y).to_set());
            let between = with_live(sent, p, live);
            between[i].stage is Ready && between[i].msg == sent[i].msg
        }),
{
    let live = sent[p].live.difference(sent[p].msg.keys.take(y).to_set());
    let lowered = sent.update(p, Sent { live, ..sent[p] });
    let after = with_dropped(sent, p);
    let keys = sent[i].keys();
    lemma_orderly_dropped(pre, post, sent, p);
    assert forall|m: int| 0 <= m < sent.len() implies (#[trigger] after[m]).msg == sent[m].msg && (m
        != p ==> after[m].live == sent[m].live && (after[m].stage is Gone <==> sent[m].stage is Gone))
        by {}
    let c = post.fifo.index_of(sent[i].msg);
    assert(is_ready(after, post.fifo[c]));
    let q = choose|q: int| ready_at(after, q, post.fifo[c]);
    assert(after[q].msg.id == after[i].msg.id);
    assert(q == i);
    assert(blockers(after, after[i].keys(), i) == 0);
    vstd::seq_lib::seq_to_set_is_finite(sent[i].msg.keys);
    assert forall|m: int| 0 <= m < i implies keys.intersect((#[trigger] lowered[m]).live)
        == keys.intersect(after[m].live) by {
        if m == p {
            assert forall|key: K| !keys.intersect(live).contains(key) by {
                if keys.contains(key) && sent[p].keys().contains(key) {
                    assert(sent[p].msg.keys.take(y).contains(key));
                }
            }
            assert(keys.intersect(live) =~= keys.intersect(after[p].live));
        }
    }
    lemma_blockers_common(lowered, after, keys, i);
}

/// A message stays parked as long as one of its keys is left.
proof fn lemma_parked_between<K, T>(
    pre: QueueView<K, T>,
    sent: Seq<Sent<K, T>>,
    p: int,
    j: int,
    y: int,
)
    requires
        orderly(pre, sent),
        0 <= p < sent.len(),
        sent[p].stage is Held,
        sent[p].live == sent[p].keys(),
        0 <= j < sent.len(),
        sent[j].stage is Parked,
        waits_at(sent, p, j, y),
    ensures
        ({
            let live = sent[p].live.difference(sent[p].msg.keys.take(y).to_set());
            let between = with_live(sent, p, live);
            between[j].stage is Parked && between[j].msg == sent[j].msg
        }),
{
    let live = sent[p].live.difference(sent[p].msg.keys.take(y).to_set());
    let lowered = sent.update(p, Sent { live, ..sent[p] });
    let key = sent[p].msg.keys[y];
    assert(sent[p].msg.keys.contains(key));
    lemma_parked_under(pre, sent, p, key, j);
    vstd::seq_lib::seq_to_set_is_finite(sent[j].msg.keys);
    assert(lowered[p].live.contains(key));
    lemma_blockers_positive(lowered, sent[j].keys(), j, p, key);
}

/// Messages that a drop makes ready are received in the order in which the dropped
/// message lists the keys that they waited under: whichever waited only under keys that
/// are listed earlier is received before one that waited under a key that is listed
/// later.
pub proof fn law_freed_received_in_key_order<K, T>(
    cap: usize,
    run: Seq<Trace<K, T>>,
    events: Seq<Event<K, T>>,
    t: int,
    n: int,
    p: int,
    i: int,
    j: int,
    y: int,
    b: int,
)
    requires
        is_run(cap, run, events),
        0 <= t < n < run.len(),
        events[t] == (Event::<K, T>::DropMessage { p }),
        0 <= i < run[t].sent.len(),
        0 <= j < run[t].sent.len(),
        run[t].sent[i].stage is Parked,
        run[t].sent[j].stage is Parked,
        run[t + 1].sent[i].stage is Ready,
        waits_before(run[t].sent, p, i, y),
        waits_at(run[t].sent, p, j, y),
        0 <= b < run[n].received.len(),
        run[n].received[b] == j,
    ensures
        run[n].received.take(b).contains(i),
{
    let event = events[t];
    let sent = run[t].sent;
    let post = run[t + 1];
    assert(run[t].step(event, post));
    law_always_in_order(cap, run, events, t);
    law_always_in_order(cap, run, events, t + 1);
    lemma_freed_ahead(run[t], post, p, i, j, y);
    assert(i != j);
    lemma_stays_ahead(cap, run, events, t + 1, n, i, j);
    lemma_ahead_received(run[n], i, j, b);
}

/// A message that becomes ready first is ahead.
proof fn lemma_freed_ahead<K, T>(
    pre: Trace<K, T>,
    post: Trace<K, T>,
    p: int,
    i: int,
    j: int,
    y: int,
)
    requires
        pre.ok(),
        post.ok(),
        pre.step(Event::DropMessage { p }, post),
        0 <= i < pre.sent.len(),
        0 <= j < pre.sent.len(),
        pre.sent[i].stage is Parked,
        pre.sent[j].stage is Parked,
        post.sent[i].stage is Ready,
        waits_before(pre.sent, p, i, y),
        waits_at(pre.sent, p, j, y),
    ensures
        i != j,
        post.ahead(i, j),
{
    let fifo = post.shared.queue.fifo;
    assert(post.sent[i].msg == pre.sent[i].msg);
    assert(post.sent[j].msg == pre.sent[j].msg);
    assert(fifo.contains(pre.sent[i].msg));
    law_freed_in_key_order(pre.shared.queue, post.shared.queue, pre.sent, p, i, j, y);
    let a = choose|a: int|
        0 <= a < fifo.len() && #[trigger] fifo[a] == pre.sent[i].msg && !fifo.take(a + 1).contains(
            pre.sent[j].msg,
        );
    assert(fifo.take(a + 1)[a] == fifo[a]);
    if fifo.take(a).contains(pre.sent[j].msg) {
        let c = fifo.take(a).index_of(pre.sent[j].msg);
        assert(fifo.take(a + 1)[c] == pre.sent[j].msg);
    }
    assert(!pre.received.contains(j));
}

/// A message that is not parked is received before one that is parked at the same time.
pub proof fn law_unparked_before_parked<K, T>(
    cap: usize,
    run: Seq<Trace<K, T>>,
    events: Seq<Event<K, T>>,
    t: int,
    n: int,
    i: int,
    j: int,
    b: int,
)
    requires
        is_run(cap, run, events),
        0 <= t <= n < run.len(),
        0 <= i < run[t].sent.len(),
        0 <= j < run[t].sent.len(),
        !(run[t].sent[i].stage is Parked),
        run[t].sent[j].stage is Parked,
        0 <= b < run[n].received.len(),
        run[n].received[b] == j,
    ensures
        run[n].received.take(b).contains(i),
{
    law_always_in_order(cap, run, events, t);
    lemma_unparked_ahead(run[t], i, j);
    lemma_stays_ahead(cap, run, events, t, n, i, j);
    lemma_ahead_received(run[n], i, j, b);
}

/// A message that is not parked is ahead of one that is.
proof fn lemma_unparked_ahead<K, T>(trace: Trace<K, T>, i: int, j: int)
    requires
        trace.ok(),
        0 <= i < trace.sent.len(),
        0 <= j < trace.sent.len(),
        !(trace.sent[i].stage is Parked),
        trace.sent[j].stage is Parked,
    ensures
        trace.ahead(i, j),
{
    let fifo = trace.shared.queue.fifo;
    assert(!trace.received.contains(j));
    if trace.sent[i].stage is Ready {
        assert(fifo.contains(trace.sent[i].msg));
        let a = fifo.index_of(trace.sent[i].msg);
        assert(fifo[a] == trace.sent[i].msg);
        if fifo.take(a).contains(trace.sent[j].msg) {
            let c = fifo.take(a).index_of(trace.sent[j].msg);
            assert(fifo[c] == trace.sent[j].msg);
            assert(is_ready(trace.sent, fifo[c]));
            let q = choose|q: int| ready_at(trace.sent, q, fifo[c]);
            assert(trace.sent[q].msg.id == trace.sent[j].msg.id);
        }
    } else {
        assert(trace.received.contains(i));
        let a = trace.received.index_of(i);
        assert(trace.received[a] == i);
        if trace.received.take(a).contains(j) {
            let c = trace.received.take(a).index_of(j);
            assert(trace.received[c] == j);
        }
    }
}

/// Two messages are in conflict exactly if one of the keys that the one lists is also
/// listed by the other.
pub proof fn law_conflict_is_a_common_key<K, T>(a: Sent<K, T>, b: Sent<K, T>)
    ensures
        a.conflicts(b) <==> exists|i: int, j: int|
            0 <= i < a.msg.keys.len() && 0 <= j < b.msg.keys.len() && #[trigger] a.msg.keys[i]
                == #[trigger] b.msg.keys[j],
{
    if a.conflicts(b) {
        let key = choose|key: K| a.keys().contains(key) && b.keys().contains(key);
        let i = a.msg.keys.index_of(key);
        let j = b.msg.keys.index_of(key);
        assert(a.msg.keys[i] == b.msg.keys[j]);
    }
    if exists|i: int, j: int|
        0 <= i < a.msg.keys.len() && 0 <= j < b.msg.keys.len() && #[trigger] a.msg.keys[i]
            == #[trigger] b.msg.keys[j] {
        let (i, j) = choose|i: int, j: int|
            0 <= i < a.msg.keys.len() && 0 <= j < b.msg.keys.len() && #[trigger] a.msg.keys[i]
                == #[trigger] b.msg.keys[j];
        assert(a.keys().contains(a.msg.keys[i]) && b.keys().contains(a.msg.keys[i]));
    }
}

/// A message is gone exactly if it was dropped, and among those received exactly if it was
/// received; until then it is parked or ready.
pub proof fn law_stages_follow_events<K, T>(
    cap: usize,
    run: Seq<Trace<K, T>>,
    events: Seq<Event<K, T>>,
    n: int,
    i: int,
)
    requires
        is_run(cap, run, events),
        0 <= n < run.len(),
        0 <= i < run[n].sent.len(),
    ensures
        run[n].sent[i].stage is Gone <==> exists|t: int|
            0 <= t < n && #[trigger] events[t] == (Event::<K, T>::DropMessage { p: i }),
        run[n].received.contains(i) <==> exists|t: int|
            0 <= t < n && #[trigger] events[t] == (Event::<K, T>::Receive { p: i }),
        run[n].received.contains(i) <==> run[n].sent[i].stage is Held
            || run[n].sent[i].stage is Gone,
{
    law_always_in_order(cap, run, events, n);
    lemma_gone_is_dropped(cap, run, events, n, i);
    lemma_received_is_received(cap, run, events, n, i);
}

/// A message is gone exactly if it was dropped.
proof fn lemma_gone_is_dropped<K, T>(
    cap: usize,
    run: Seq<Trace<K, T>>,
    events: Seq<Event<K, T>>,
    n: int,
    i: int,
)
    requires
        is_walk(cap, run, events),
        0 <= n < run.len(),
    ensures
        0 <= i < run[n].sent.len() && run[n].sent[i].stage is Gone <==> exists|t: int|
            0 <= t < n && #[trigger] events[t] == (Event::<K, T>::DropMessage { p: i }),
    decreases n,
{
    if n > 0 {
        let pre = run[n - 1];
        let event = events[n - 1];
        lemma_gone_is_dropped(cap, run, events, n - 1, i);
        assert(pre.step(event, run[n]));
        let drop = Event::<K, T>::DropMessage { p: i };
        assert((exists|t: int| 0 <= t < n && #[trigger] events[t] == drop) <==> (exists|t: int|
            0 <= t < n - 1 && #[trigger] events[t] == drop) || event == drop);
    }
}

/// A message is among those received exactly if it was received.
proof fn lemma_received_is_received<K, T>(
    cap: usize,
    run: Seq<Trace<K, T>>,
    events: Seq<Event<K, T>>,
    n: int,
    i: int,
)
    requires
        is_walk(cap, run, events),
        0 <= n < run.len(),
    ensures
        run[n].received.contains(i) <==> exists|t: int|
            0 <= t < n && #[trigger] events[t] == (Event::<K, T>::Receive { p: i }),
    decreases n,
{
    if n > 0 {
        let pre = run[n - 1];
        let event = events[n - 1];
        lemma_received_is_received(cap, run, events, n - 1, i);
        assert(pre.step(event, run[n]));
        let receive = Event::<K, T>::Receive { p: i };
        assert((exists|t: int| 0 <= t < n && #[trigger] events[t] == receive) <==> (exists|t: int|
            0 <= t < n - 1 && #[trigger] events[t] == receive) || event == receive);
        match event {
            Event::Receive { p } => {
                if pre.received.contains(i) {
                    assert(run[n].received[pre.received.index_of(i)] == i);
                }
                assert(run[n].received[pre.received.len() as int] == p);
                if run[n].received.contains(i) && i != p {
                    assert(pre.received[run[n].received.index_of(i)] == i);
                }
            },
            _ => {},
        }
    }
}

/// Whether the message that leads from `pre` to `post` has no key in common with a
/// message that is not dropped.
pub open spec fn sent_free<K, T>(pre: Trace<K, T>, post: Trace<K, T>) -> bool {
    forall|i: int|
        0 <= i < pre.sent.len() && !((#[trigger] pre.sent[i]).stage is Gone)
            ==> !pre.sent[i].conflicts(post.sent.last())
}

/// Messages that were in no conflict when they were sent are received in the order in
/// which they were sent.
pub proof fn law_free_received_in_order<K, T>(
    cap: usize,
    run: Seq<Trace<K, T>>,
    events: Seq<Event<K, T>>,
    s: int,
    t: int,
    n: int,
    b: int,
)
    requires
        is_run(cap, run, events),
        0 <= s < t < n < run.len(),
        events[s] is Send,
        events[t] is Send,
        sent_free(run[s], run[s + 1]),
        sent_free(run[t], run[t + 1]),
        0 <= b < run[n].received.len(),
        run[n].received[b] == run[t].sent.len(),
    ensures
        run[n].received.take(b).contains(run[s].sent.len() as int),
{
    let i = run[s].sent.len() as int;
    assert(run[s].step(events[s], run[s + 1]));
    assert(!(run[s + 1].sent[i].stage is Parked)) by {
        law_parked_for_a_conflict(cap, run, events, s + 1, i);
        if run[s + 1].sent[i].stage is Parked {
            let m = choose|m: int|
                0 <= m < i && !((#[trigger] run[s + 1].sent[m]).stage is Gone)
                    && run[s + 1].sent[m].conflicts(run[s + 1].sent[i]);
            assert(run[s].sent[m] == run[s + 1].sent[m]);
        }
    }
    lemma_never_parked_again(cap, run, events, s + 1, t, i);
    law_unparked_received_first(cap, run, events, t, n, i, b);
}

/// A message that is not parked is never parked again.
proof fn lemma_never_parked_again<K, T>(
    cap: usize,
    run: Seq<Trace<K, T>>,
    events: Seq<Event<K, T>>,
    m: int,
    n: int,
    i: int,
)
    requires
        is_walk(cap, run, events),
        0 <= m <= n < run.len(),
        0 <= i < run[m].sent.len(),
        !(run[m].sent[i].stage is Parked),
    ensures
        i < run[n].sent.len(),
        !(run[n].sent[i].stage is Parked),
    decreases n - m,
{
    if m < n {
        lemma_never_parked_again(cap, run, events, m, n - 1, i);
        assert(run[n - 1].step(events[n - 1], run[n]));
    }
}

/// To drop a message only appends to the fifo, and uses no id.
proof fn lemma_release_appends<K, T>(
    pre: QueueView<K, T>,
    post: QueueView<K, T>,
    id: MSGID,
    keys: Seq<K>,
)
    requires
        pre.released(post, id, keys),
    ensures
        pre.fifo.is_prefix_of(post.fifo),
        post.next_id == pre.next_id,
    decreases keys.len(),
{
    if keys.len() > 0 {
        let mid = choose|mid: QueueView<K, T>|
            pre.released(mid, id, keys.drop_last()) && #[trigger] mid.deactivated(
                post,
                id,
                keys.last(),
            );
        lemma_release_appends(pre, mid, id, keys.drop_last());
    }
}

/// To deactivate a received message under one key frees at most one message, so the
/// order in which a hash set is walked does not show.
pub proof fn law_one_key_frees_at_most_one<K, T>(
    pre: QueueView<K, T>,
    post: QueueView<K, T>,
    sent: Seq<Sent<K, T>>,
    p: int,
    key: K,
)
    requires
        orderly(pre, sent),
        0 <= p < sent.len(),
        sent[p].stage is Held,
        pre.deactivated(post, sent[p].msg.id, key),
    ensures
        post.fifo.len() <= pre.fifo.len() + 1,
{
    let id = sent[p].msg.id;
    if pre.active_under(key).contains(id) {
        let q = choose|q: int| active_at(sent, q, key, id);
        assert(sent[q].live.contains(key) && sent[q].msg.id == sent[p].msg.id);
        assert(q == p);
        let ids = pre.active[key].remove(id);
        let order = choose|order: Seq<MSGID>| pre.unblocked(post, ids, order);
        if order.len() >= 2 {
            assert(order.to_set().contains(order[0]) && order.to_set().contains(order[1]));
            assert(order[0] != order[1]);
            let i = choose|i: int| parked_at(sent, i, order[0]);
            let j = choose|j: int| parked_at(sent, j, order[1]);
            if i < j {
                lemma_not_freed_together(pre, sent, p, key, i, j);
            } else {
                lemma_not_freed_together(pre, sent, p, key, j, i);
            }
        }
    }
}

/// Of two parked messages that have the key, the later one waits for the earlier one.
proof fn lemma_not_freed_together<K, T>(
    pre: QueueView<K, T>,
    sent: Seq<Sent<K, T>>,
    p: int,
    key: K,
    i: int,
    j: int,
)
    requires
        orderly(pre, sent),
        0 <= p < sent.len(),
        sent[p].stage is Held,
        sent[p].live.contains(key),
        0 <= i < j < sent.len(),
        sent[i].stage is Parked,
        sent[j].stage is Parked,
        pre.active_under(key).remove(sent[p].msg.id).contains(sent[i].msg.id),
        pre.active_under(key).remove(sent[p].msg.id).contains(sent[j].msg.id),
    ensures
        pre.buffer[sent[j].msg.id].0 > 1,
{
    let after = with_live(sent, p, sent[p].live.remove(key));
    lemma_parked_under(pre, sent, p, key, i);
    lemma_parked_under(pre, sent, p, key, j);
    lemma_live_history(sent, p, key);
    vstd::seq_lib::seq_to_set_is_finite(sent[j].msg.keys);
    assert(after[i].live == sent[i].live);
    lemma_blockers_positive(after, sent[j].keys(), j, i, key);
    assert(blockers(after, sent[j].keys(), j) + 1 == blockers(sent, sent[j].keys(), j));
}

/// Where at most one message is freed, there is one outcome.
proof fn lemma_one_outcome<K, T>(
    pre: QueueView<K, T>,
    a: QueueView<K, T>,
    b: QueueView<K, T>,
    id: MSGID,
    key: K,
)
    requires
        pre.deactivated(a, id, key),
        pre.deactivated(b, id, key),
        a.fifo.len() <= pre.fifo.len() + 1,
        b.fifo.len() <= pre.fifo.len() + 1,
    ensures
        a == b,
{
    if pre.active_under(key).contains(id) {
        let ids = pre.active[key].remove(id);
        let one = choose|order: Seq<MSGID>| pre.unblocked(a, ids, order);
        let two = choose|order: Seq<MSGID>| pre.unblocked(b, ids, order);
        one.unique_seq_to_set();
        two.unique_seq_to_set();
        if one.len() > 0 {
            assert(one.to_set().contains(one[0]));
            assert(two.contains(one[0]));
        }
        assert(one =~= two);
        assert(a =~= b);
    }
}

/// To drop a received message has one outcome: which messages become ready, and in
/// which order, follows from the queue alone.
pub proof fn law_drop_has_one_outcome<K, T>(
    pre: QueueView<K, T>,
    a: QueueView<K, T>,
    b: QueueView<K, T>,
    sent: Seq<Sent<K, T>>,
    p: int,
    keys: Seq<K>,
)
    requires
        orderly(pre, sent),
        0 <= p < sent.len(),
        sent[p].stage is Held,
        pre.released(a, sent[p].msg.id, keys),
        pre.released(b, sent[p].msg.id, keys),
    ensures
        a == b,
    decreases keys.len(),
{
    if keys.len() > 0 {
        let id = sent[p].msg.id;
        let before = keys.drop_last();
        let one = choose|mid: QueueView<K, T>|
            pre.released(mid, id, before) && #[trigger] mid.deactivated(a, id, keys.last());
        let two = choose|mid: QueueView<K, T>|
            pre.released(mid, id, before) && #[trigger] mid.deactivated(b, id, keys.last());
        law_drop_has_one_outcome(pre, one, two, sent, p, before);
        lemma_orderly_released(pre, one, sent, p, before);
        let live = sent[p].live.difference(before.to_set());
        let between = with_live(sent, p, live);
        assert(between[p] == Sent { live, ..sent[p] });
        law_one_key_frees_at_most_one(one, a, between, p, keys.last());
        law_one_key_frees_at_most_one(one, b, between, p, keys.last());
        lemma_one_outcome(one, a, b, id, keys.last());
    }
}

/// The id that is generated after `n` others, from `start` on.
pub open spec fn id_after(start: MSGID, n: nat) -> MSGID
    decreases n,
{
    if n == 0 {
        start
    } else {
        next_id(id_after(start, (n - 1) as nat))
    }
}

/// The ids count up and start over at zero.
proof fn lemma_id_after(start: MSGID, n: nat)
    requires
        n <= MSGID::MAX,
    ensures
        id_after(start, n) == (if start + n <= MSGID::MAX {
            start + n
        } else {
            start + n - MSGID::MAX - 1
        }),
    decreases n,
{
    if n > 0 {
        lemma_id_after(start, (n - 1) as nat);
    }
}

/// Ids go on from where they are.
proof fn lemma_id_after_sum(start: MSGID, n: nat, m: nat)
    ensures
        id_after(start, n + m) == id_after(id_after(start, n), m),
    decreases m,
{
    if m > 0 {
        lemma_id_after_sum(start, n, (m - 1) as nat);
    }
}

/// One more, modulo the number of ids.
proof fn lemma_one_more(x: int)
    requires
        0 <= x,
    ensures
        (x + 1) % (MSGID::MAX + 1) == (if x % (MSGID::MAX + 1) == MSGID::MAX {
            0
        } else {
            x % (MSGID::MAX + 1) + 1
        }),
{
    let limit = MSGID::MAX + 1;
    let rest = x % limit;
    let turns = x / limit;
    vstd::arithmetic::div_mod::lemma_fundamental_div_mod(x, limit);
    assert(limit * turns == turns * limit) by (nonlinear_arith);
    assert(limit * (turns + 1) == (turns + 1) * limit && (turns + 1) * limit == turns * limit
        + limit) by (nonlinear_arith);
    if rest == MSGID::MAX {
        vstd::arithmetic::div_mod::lemma_fundamental_div_mod_converse(
            x + 1,
            limit,
            turns + 1,
            0,
        );
    } else {
        vstd::arithmetic::div_mod::lemma_fundamental_div_mod_converse(
            x + 1,
            limit,
            turns,
            rest + 1,
        );
    }
}

/// Generated ids count up from where they start, and start over at zero.
pub proof fn law_ids_count_up(start: MSGID, n: nat)
    ensures
        id_after(start, n) == (start + n) % (MSGID::MAX + 1),
    decreases n,
{
    if n > 0 {
        law_ids_count_up(start, (n - 1) as nat);
        lemma_one_more(start + n - 1);
    } else {
        vstd::arithmetic::div_mod::lemma_small_mod(start as nat, (MSGID::MAX + 1) as nat);
    }
}

/// The messages of a channel get the ids zero, one, two and so on, in the order in which
/// they are sent; the ids start over once all of them were used.
pub proof fn law_message_ids_count_up<K, T>(
    cap: usize,
    run: Seq<Trace<K, T>>,
    events: Seq<Event<K, T>>,
    n: int,
)
    requires
        is_walk(cap, run, events),
        0 <= n < run.len(),
    ensures
        run[n].shared.queue.next_id == run[n].sent.len() as int % (MSGID::MAX + 1),
        forall|i: int|
            0 <= i < run[n].sent.len() ==> (#[trigger] run[n].sent[i]).msg.id == i % (MSGID::MAX
                + 1),
    decreases n,
{
    if n > 0 {
        let pre = run[n - 1];
        let post = run[n];
        let event = events[n - 1];
        assert(pre.step(event, post));
        law_message_ids_count_up(cap, run, events, n - 1);
        assert forall|i: int| 0 <= i < post.sent.len() implies (#[trigger] post.sent[i]).msg.id
            == i % (MSGID::MAX + 1) by {
            if i < pre.sent.len() {
                assert(post.sent[i].msg == pre.sent[i].msg);
            }
        }
        match event {
            Event::Send { keys, content } => lemma_one_more(pre.sent.len() as int),
            Event::DropMessage { p } => {
                let msg = pre.sent[p].msg;
                lemma_release_appends(pre.shared.queue, post.shared.queue, msg.id, msg.keys);
            },
            _ => {},
        }
    } else {
        vstd::arithmetic::div_mod::lemma_small_mod(0, (MSGID::MAX + 1) as nat);
    }
}

/// Generated ids are unique: two of them differ, unless one comes so much later that
/// all ids have been used in between.
pub proof fn law_ids_are_unique(start: MSGID, n: nat, m: nat)
    requires
        n < m,
        m - n <= MSGID::MAX,
    ensures
        id_after(start, n) != id_after(start, m),
{
    lemma_id_after_sum(start, n, (m - n) as nat);
    lemma_id_after(id_after(start, n), (m - n) as nat);
}

/// Whether a receiver has to wait.
pub open spec fn receiver_waits<K, T>(shared: SharedView<K, T>) -> bool {
    shared.queue.fifo.len() == 0 && shared.senders > 0
}

/// Whether a sender has to wait.
pub open spec fn sender_waits<K, T>(shared: SharedView<K, T>) -> bool {
    shared.receiver && shared.full()
}

/// A sender has to wait exactly while the receiver is not dropped and as many messages
/// are inside the channel as it was made for. A receiver has to wait exactly while there
/// is a sender and no message can be received.
pub proof fn law_who_waits<K, T>(
    cap: usize,
    run: Seq<Trace<K, T>>,
    events: Seq<Event<K, T>>,
    n: int,
)
    requires
        is_run(cap, run, events),
        0 <= n < run.len(),
    ensures
        sender_waits(run[n].shared) <==> happened(events, n, Kind::DropReceiver) == 0 && happened(
            events,
            n,
            Kind::Send,
        ) - happened(events, n, Kind::Receive) == cap,
        receiver_waits(run[n].shared) <==> run[n].shared.senders > 0 && !(exists|i: int|
            receivable(run[n], i)),
{
    law_open_until_receiver_dropped(cap, run, events, n);
    law_full_exactly_at_capacity(cap, run, events, n);
    law_something_to_receive(cap, run, events, n);
}

/// Whether the method behind `event` asks for every waiter to be woken up.
pub open spec fn wakes_up<K, T>(
    pre: SharedView<K, T>,
    event: Event<K, T>,
    post: SharedView<K, T>,
) -> bool {
    notifies(pre, event.kind(), post)
}

/// Whether the method behind events of this kind asks for every waiter to be woken up.
pub open spec fn notifies<K, T>(
    pre: SharedView<K, T>,
    kind: Kind,
    post: SharedView<K, T>,
) -> bool {
    match kind {
        Kind::Send => pre.queue.fifo.len() == 0 && post.queue.fifo.len() > 0,
        Kind::Receive => pre.full(),
        Kind::DropMessage => pre.queue.fifo.len() == 0 && post.queue.fifo.len() > 0,
        Kind::CloneSender => false,
        Kind::DropSender => pre.senders <= 1,
        Kind::DropReceiver => true,
    }
}

/// Whatever ends the reason for which a receiver or a sender has to wait asks for every
/// waiter to be woken up. The counter of the senders must not wrap around.
pub proof fn law_end_of_waiting_wakes_up<K, T>(
    pre: Trace<K, T>,
    event: Event<K, T>,
    post: Trace<K, T>,
)
    requires
        pre.step(event, post),
        pre.shared.queue.buffer.dom().finite(),
        event is CloneSender ==> pre.shared.senders < usize::MAX,
    ensures
        receiver_waits(pre.shared) && !receiver_waits(post.shared) ==> wakes_up(
            pre.shared,
            event,
            post.shared,
        ),
        sender_waits(pre.shared) && !sender_waits(post.shared) ==> wakes_up(
            pre.shared,
            event,
            post.shared,
        ),
{
    match event {
        Event::DropMessage { p } => {
            let msg = pre.sent[p].msg;
            law_release_keeps_total(pre.shared.queue, post.shared.queue, msg.id, msg.keys);
        },
        _ => {},
    }
}

/// Nobody is woken up without a reason. As long as there is a sender, to send or to drop a
/// message asks for it exactly if it ends the waiting of a receiver, and to drop a sender
/// does so if nothing is ready. As long as the receiver is there, to receive asks for it
/// exactly if it ends the waiting of a sender.
pub proof fn law_wakes_up_for_a_reason<K, T>(
    pre: Trace<K, T>,
    event: Event<K, T>,
    post: Trace<K, T>,
)
    requires
        pre.step(event, post),
        pre.shared.queue.buffer.dom().finite(),
        pre.shared.queue.total() <= pre.shared.capacity,
    ensures
        (event is Send || event is DropMessage || (event is DropSender
            && pre.shared.queue.fifo.len() == 0)) && pre.shared.senders > 0 ==> (wakes_up(
            pre.shared,
            event,
            post.shared,
        ) <==> receiver_waits(pre.shared) && !receiver_waits(post.shared)),
        event is Receive && pre.shared.receiver ==> (wakes_up(
            pre.shared,
            event,
            post.shared,
        ) <==> sender_waits(pre.shared) && !sender_waits(post.shared)),
        event is CloneSender ==> !wakes_up(pre.shared, event, post.shared),
{
    match event {
        Event::DropMessage { p } => {
            let msg = pre.sent[p].msg;
            law_release_keeps_total(pre.shared.queue, post.shared.queue, msg.id, msg.keys);
        },
        _ => {},
    }
}

/// No waiter is forgotten: if a receiver or a sender had to wait at one time of a run
/// and no longer has to at a later time, every waiter was asked to be woken up in
/// between. The counter of the senders must not wrap around.
pub proof fn law_no_waiter_forgotten<K, T>(
    cap: usize,
    run: Seq<Trace<K, T>>,
    events: Seq<Event<K, T>>,
    m: int,
    n: int,
)
    requires
        is_walk(cap, run, events),
        0 <= m <= n < run.len(),
        forall|i: int|
            m <= i < n && #[trigger] events[i] is CloneSender ==> run[i].shared.senders
                < usize::MAX,
        (receiver_waits(run[m].shared) && !receiver_waits(run[n].shared)) || (sender_waits(
            run[m].shared,
        ) && !sender_waits(run[n].shared)),
    ensures
        exists|i: int|
            m <= i < n && wakes_up(
                run[i].shared,
                #[trigger] events[i],
                run[i + 1].shared,
            ),
    decreases n - m,
{
    let pre = run[n - 1];
    let event = events[n - 1];
    law_bounded(cap, run, events, n - 1);
    assert(pre.step(event, run[n]));
    law_end_of_waiting_wakes_up(pre, event, run[n]);
    if !wakes_up(pre.shared, event, run[n].shared) {
        law_no_waiter_forgotten(cap, run, events, m, n - 1);
    }
}

} // verus!
