//! Laws of the single operations: what each of them changes, and what it leaves alone.
use crate::channel::{MessageView, SharedView, MSGID};
use crate::conflict_queue::{conflicts_at, in_degree, QueueView};
use vstd::prelude::*;

verus! {

/// A new channel is open, whatever room it has. It has one sender and holds nothing, no
/// message is active in it, and its first message gets the id zero.
pub proof fn law_new_channel_is_open<K, T>(cap: usize)
    ensures
        SharedView::<K, T>::new(cap).receiver,
        SharedView::<K, T>::new(cap).senders == 1,
        SharedView::<K, T>::new(cap).capacity == cap,
        SharedView::<K, T>::new(cap).queue.fifo.len() == 0,
        SharedView::<K, T>::new(cap).queue.buffer.dom() == Set::<MSGID>::empty(),
        SharedView::<K, T>::new(cap).queue.active.dom() == Set::<K>::empty(),
        SharedView::<K, T>::new(cap).queue.next_id == 0,
{
}

/// A channel is full exactly if the messages inside it, parked or ready, are as many as
/// it has room for: below that there is room.
pub proof fn law_full_at_capacity<K, T>(shared: SharedView<K, T>)
    ensures
        shared.queue.buffer.dom().len() + shared.queue.fifo.len() < shared.capacity
            ==> !shared.full(),
        shared.queue.buffer.dom().len() + shared.queue.fifo.len() >= shared.capacity
            ==> shared.full(),
{
}

/// To send leaves the ends and the room of a channel alone. The message is inside it
/// afterwards, ready or parked, with the keys and the content it was sent with; the
/// messages that were inside before stay where they are.
pub proof fn law_send_only_adds<K, T>(pre: SharedView<K, T>, keys: Seq<K>, content: T)
    ensures
        ({
            let post = pre.sent(keys, content);
            let id = pre.queue.next_id;
            let msg = MessageView { keys, content, id };
            &&& post.receiver == pre.receiver
            &&& post.senders == pre.senders
            &&& post.capacity == pre.capacity
            &&& post.queue.fifo == pre.queue.fifo.push(msg) || {
                &&& post.queue.fifo == pre.queue.fifo
                &&& post.queue.buffer.contains_key(id)
                &&& post.queue.buffer[id].1 == msg
                &&& post.queue.buffer[id].0 > 0
            }
            &&& forall|other: MSGID|
                other != id ==> (#[trigger] post.queue.buffer.contains_key(other)
                    <==> pre.queue.buffer.contains_key(other))
            &&& forall|other: MSGID|
                other != id && pre.queue.buffer.contains_key(other)
                    ==> #[trigger] post.queue.buffer[other] == pre.queue.buffer[other]
            &&& post.queue.next_id == (id + 1) % (MSGID::MAX + 1)
        }),
{
    let id = pre.queue.next_id;
    let msg = MessageView { keys, content, id };
    law_add_only_adds(pre.queue, msg);
    if id < MSGID::MAX {
        vstd::arithmetic::div_mod::lemma_small_mod((id + 1) as nat, (MSGID::MAX + 1) as nat);
    } else {
        vstd::arithmetic::div_mod::lemma_mod_self_0(MSGID::MAX + 1);
    }
}

/// To receive takes the first message that is ready and leaves all else alone: the other
/// messages, the ends and the room of the channel, and the message stays active.
pub proof fn law_receive_only_takes<K, T>(pre: SharedView<K, T>)
    requires
        pre.queue.fifo.len() > 0,
    ensures
        pre.queue.fifo == seq![pre.queue.fifo[0]] + pre.received().queue.fifo,
        pre.received().queue.buffer == pre.queue.buffer,
        pre.received().queue.active == pre.queue.active,
        pre.received().queue.next_id == pre.queue.next_id,
        pre.received().receiver == pre.receiver,
        pre.received().senders == pre.senders,
        pre.received().capacity == pre.capacity,
{
    assert(pre.queue.fifo =~= seq![pre.queue.fifo[0]] + pre.queue.fifo.drop_first());
}

/// The messages that a queue holds are those that wait and those that are ready.
pub proof fn law_total_counts_both<K, T>(queue: QueueView<K, T>)
    ensures
        queue.total() == queue.buffer.dom().len() + queue.fifo.len(),
{
}

/// A new queue holds nothing, no message is active in it, and its first id is zero.
pub proof fn law_new_queue_is_empty<K, T>()
    ensures
        QueueView::<K, T>::empty().fifo.len() == 0,
        QueueView::<K, T>::empty().buffer.dom() == Set::<MSGID>::empty(),
        QueueView::<K, T>::empty().active.dom() == Set::<K>::empty(),
        QueueView::<K, T>::empty().next_id == 0,
{
}

/// A message that is added is active under each of its keys, and no other message
/// becomes active or ceases to be. It is last among those that are ready, or waits;
/// the messages that were held before stay where they are.
pub proof fn law_add_only_adds<K, T>(pre: QueueView<K, T>, msg: MessageView<K, T>)
    ensures
        ({
            let post = pre.with_msg(msg);
            &&& forall|key: K, id: MSGID|
                (#[trigger] post.active_under(key).contains(id)) <==> (
                pre.active.contains_key(key) && pre.active[key].contains(id)) || (
                msg.keys.contains(key) && id == msg.id)
            &&& forall|key: K, id: MSGID|
                post.active_under(key).contains(id) <==> post.active.contains_key(key)
                    && #[trigger] post.active[key].contains(id)
            &&& post.fifo == pre.fifo.push(msg) && post.buffer == pre.buffer || {
                &&& post.fifo == pre.fifo
                &&& post.buffer.contains_key(msg.id)
                &&& post.buffer[msg.id].1 == msg
                &&& post.buffer[msg.id].0 > 0
                &&& post.buffer.remove(msg.id) == pre.buffer.remove(msg.id)
            }
            &&& post.next_id == pre.next_id
        }),
{
    let post = pre.with_msg(msg);
    lemma_in_degree_fits(pre, msg.keys);
    assert(post.fifo != pre.fifo ==> post.fifo == pre.fifo.push(msg));
    if in_degree(pre.active, msg.keys) > 0 {
        assert(post.buffer.remove(msg.id) =~= pre.buffer.remove(msg.id));
    }
}

/// An in-degree fits in a `usize`.
proof fn lemma_in_degree_fits<K, T>(queue: QueueView<K, T>, keys: Seq<K>)
    ensures
        in_degree(queue.active, keys) <= usize::MAX,
    decreases keys.len(),
{
    if keys.len() > 0 {
        lemma_in_degree_fits(queue, keys.drop_last());
    }
}

/// The conflicts of a new message with `keys`: a pair for each of the keys and each
/// message that is active under it.
pub open spec fn conflicts_of<K, T>(queue: QueueView<K, T>, keys: Seq<K>) -> Set<(K, MSGID)> {
    Set::new(
        |pair: (K, MSGID)|
            keys.contains(pair.0) && queue.active.contains_key(pair.0)
                && queue.active[pair.0].contains(pair.1),
    )
}

/// A message that is added waits for as many conflicts as there are pairs of a key of
/// its own and a message that is active under it. Without any it is ready at once. How
/// often and in which order the keys are listed does not matter.
pub proof fn law_waits_for_its_conflicts<K, T>(pre: QueueView<K, T>, msg: MessageView<K, T>)
    requires
        pre.countable(),
        conflicts_of(pre, msg.keys).len() <= usize::MAX,
    ensures
        conflicts_of(pre, msg.keys).finite(),
        conflicts_of(pre, msg.keys).len() == 0 ==> pre.with_msg(msg).fifo == pre.fifo.push(msg)
            && pre.with_msg(msg).buffer == pre.buffer,
        conflicts_of(pre, msg.keys).len() > 0 ==> pre.with_msg(msg).fifo == pre.fifo
            && pre.with_msg(msg).buffer == pre.buffer.insert(
            msg.id,
            (conflicts_of(pre, msg.keys).len() as usize, msg),
        ),
{
    lemma_in_degree_counts(pre, msg.keys);
}

/// The in-degree is the number of the conflicts.
proof fn lemma_in_degree_counts<K, T>(queue: QueueView<K, T>, keys: Seq<K>)
    requires
        queue.countable(),
    ensures
        conflicts_of(queue, keys).finite(),
        conflicts_of(queue, keys).len() <= usize::MAX ==> in_degree(queue.active, keys)
            == conflicts_of(queue, keys).len(),
    decreases keys.len(),
{
    let all = conflicts_of(queue, keys);
    if keys.len() == 0 {
        assert(all =~= Set::empty());
    } else {
        let before = keys.drop_last();
        let key = keys.last();
        let some = conflicts_of(queue, before);
        lemma_in_degree_counts(queue, before);
        assert(keys.take(keys.len() - 1) =~= before);
        assert forall|k: K| keys.contains(k) <==> before.contains(k) || k == key by {
            assert(keys =~= before.push(key));
            if before.contains(k) {
                assert(keys[before.index_of(k)] == k);
            }
            assert(keys[keys.len() - 1] == key);
        }
        if before.contains(key) {
            assert(all =~= some);
            assert(conflicts_at(queue.active, keys, keys.len() - 1) == 0);
        } else {
            let ids = queue.active_under(key);
            let pair_of = |id: MSGID| (key, id);
            let new = ids.map(pair_of);
            vstd::set_lib::lemma_map_size(ids, new, pair_of);
            assert forall|pair: (K, MSGID)| new.contains(pair) <==> pair.0 == key && ids.contains(
                pair.1,
            ) by {
                if pair.0 == key && ids.contains(pair.1) {
                    assert(pair_of(pair.1) == pair);
                }
            }
            assert(all =~= some + new);
            assert(some.disjoint(new));
            vstd::set_lib::lemma_set_disjoint_lens(some, new);
            assert(conflicts_at(queue.active, keys, keys.len() - 1) == new.len());
        }
    }
}

/// Whether `msg` waits for a single conflict and is active under `key`, as the message
/// `id` is.
pub open spec fn waits_only_for<K, T>(
    queue: QueueView<K, T>,
    id: MSGID,
    key: K,
    msg: MessageView<K, T>,
) -> bool {
    exists|other: MSGID|
        {
            &&& other != id
            &&& queue.active_under(key).contains(id)
            &&& queue.active_under(key).contains(other)
            &&& #[trigger] queue.buffer.contains_key(other)
            &&& queue.buffer[other].0 == 1
            &&& queue.buffer[other].1 == msg
        }
}

/// To deactivate a message ends its being active under the key, and no other. Each other
/// message that is active under the key and waits has one conflict less; if that was the
/// last one, it follows those that are ready. Nothing else changes. If the message is
/// not active under the key, nothing changes at all.
pub proof fn law_deactivate_solves_conflicts<K, T>(
    pre: QueueView<K, T>,
    post: QueueView<K, T>,
    id: MSGID,
    key: K,
)
    requires
        pre.deactivated(post, id, key),
    ensures
        !(pre.active.contains_key(key) && pre.active[key].contains(id)) ==> post == pre,
        forall|k: K, other: MSGID|
            (#[trigger] post.active_under(k).contains(other)) <==> pre.active_under(k).contains(other)
                && !(k == key && other == id),
        pre.fifo.is_prefix_of(post.fifo),
        post.next_id == pre.next_id,
        forall|other: MSGID|
            #![trigger post.buffer.contains_key(other)]
            #![trigger pre.buffer.contains_key(other)]
            pre.buffer.contains_key(other) && pre.active_under(key).contains(id) && other != id
                && pre.active_under(key).contains(other) ==> if pre.buffer[other].0 == 1 {
                &&& !post.buffer.contains_key(other)
                &&& exists|n: int|
                    pre.fifo.len() <= n < post.fifo.len() && #[trigger] post.fifo[n]
                        == pre.buffer[other].1
            } else {
                &&& post.buffer.contains_key(other)
                &&& post.buffer[other].0 == pre.buffer[other].0 - 1 || (post.buffer[other].0 == 0
                    && pre.buffer[other].0 == 0)
                &&& post.buffer[other].1 == pre.buffer[other].1
            },
        forall|other: MSGID|
            #![trigger post.buffer.contains_key(other)]
            #![trigger pre.buffer.contains_key(other)]
            !(pre.active_under(key).contains(id) && other != id && pre.active_under(key).contains(
                other,
            )) ==> {
                &&& post.buffer.contains_key(other) <==> pre.buffer.contains_key(other)
                &&& post.buffer.contains_key(other) ==> post.buffer[other] == pre.buffer[other]
            },
        forall|other: MSGID| #[trigger]
            post.buffer.contains_key(other) ==> pre.buffer.contains_key(other),
        forall|n: int|
            pre.fifo.len() <= n < post.fifo.len() ==> waits_only_for(
                pre,
                id,
                key,
                #[trigger] post.fifo[n],
            ),
{
    if pre.active_under(key).contains(id) {
        let ids = pre.active[key].remove(id);
        let order = choose|order: Seq<MSGID>| pre.unblocked(post, ids, order);
        assert(pre.unblocked(post, ids, order));
        let len = pre.fifo.len() as int;
        assert forall|other: MSGID| #[trigger] pre.freed(ids).contains(other) implies exists|n: int|
            len <= n < post.fifo.len() && #[trigger] post.fifo[n] == pre.buffer[other].1 by {
            assert(order.to_set().contains(other));
            let a = order.index_of(other);
            assert(post.fifo[len + a] == pre.buffer[other].1);
        }
        assert forall|n: int| pre.fifo.len() <= n < post.fifo.len() implies waits_only_for(
            pre,
            id,
            key,
            #[trigger] post.fifo[n],
        ) by {
            let other = order[n - len];
            assert(order.to_set().contains(other));
            assert(pre.freed(ids).contains(other));
            assert(post.fifo[n] == pre.buffer[other].1);
            assert(pre.buffer.contains_key(other));
        }
        assert forall|other: MSGID|
            #![trigger post.buffer.contains_key(other)]
            #![trigger pre.buffer.contains_key(other)]
            pre.buffer.contains_key(other) && other != id && pre.active_under(key).contains(
                other,
            ) implies if pre.buffer[other].0 == 1 {
            &&& !post.buffer.contains_key(other)
            &&& exists|n: int|
                pre.fifo.len() <= n < post.fifo.len() && #[trigger] post.fifo[n]
                    == pre.buffer[other].1
        } else {
            &&& post.buffer.contains_key(other)
            &&& post.buffer[other].0 == pre.buffer[other].0 - 1 || (post.buffer[other].0 == 0
                    && pre.buffer[other].0 == 0)
            &&& post.buffer[other].1 == pre.buffer[other].1
        } by {
            if pre.buffer[other].0 == 1 {
                assert(pre.freed(ids).contains(other));
            }
        }
    }
}

/// To drop a message under no key changes nothing, and to drop it under one key is to
/// deactivate it there.
pub proof fn law_drop_of_one_key<K, T>(
    pre: QueueView<K, T>,
    post: QueueView<K, T>,
    id: MSGID,
    key: K,
)
    ensures
        pre.released(post, id, Seq::empty()) <==> post == pre,
        pre.released(post, id, seq![key]) <==> pre.deactivated(post, id, key),
{
    let one = seq![key];
    reveal_with_fuel(QueueView::released, 2);
    assert(one.drop_last() =~= Seq::empty());
    assert(one.last() == key);
    assert(pre.released(pre, id, one.drop_last()));
    if pre.deactivated(post, id, key) {
        assert(pre.deactivated(post, id, one.last()));
    }
}

/// A message is dropped under its keys one after the other, in the order in which they
/// are listed: to drop it under `keys` and then under `more` is to drop it under `keys`
/// followed by `more`.
pub proof fn law_drop_goes_key_by_key<K, T>(
    pre: QueueView<K, T>,
    post: QueueView<K, T>,
    id: MSGID,
    keys: Seq<K>,
    more: Seq<K>,
)
    ensures
        pre.released(post, id, keys + more) <==> exists|mid: QueueView<K, T>|
            pre.released(mid, id, keys) && #[trigger] mid.released(post, id, more),
    decreases more.len(),
{
    let all = keys + more;
    if more.len() == 0 {
        assert(all =~= keys);
        if pre.released(post, id, keys) {
            assert(post.released(post, id, more));
        }
    } else {
        let some = more.drop_last();
        assert(all.drop_last() =~= keys + some);
        assert(all.last() == more.last());
        if pre.released(post, id, all) {
            let last = choose|last: QueueView<K, T>|
                pre.released(last, id, all.drop_last()) && #[trigger] last.deactivated(
                    post,
                    id,
                    all.last(),
                );
            law_drop_goes_key_by_key(pre, last, id, keys, some);
            let mid = choose|mid: QueueView<K, T>|
                pre.released(mid, id, keys) && #[trigger] mid.released(last, id, some);
            assert(last.deactivated(post, id, more.last()));
            assert(mid.released(post, id, more));
        }
        if exists|mid: QueueView<K, T>|
            pre.released(mid, id, keys) && #[trigger] mid.released(post, id, more) {
            let mid = choose|mid: QueueView<K, T>|
                pre.released(mid, id, keys) && #[trigger] mid.released(post, id, more);
            let last = choose|last: QueueView<K, T>|
                mid.released(last, id, some) && #[trigger] last.deactivated(post, id, more.last());
            law_drop_goes_key_by_key(pre, last, id, keys, some);
            assert(pre.released(last, id, all.drop_last()));
            assert(last.deactivated(post, id, all.last()));
        }
    }
}

/// To drop a message ends its being active under each of its keys, and no other message
/// ceases to be active.
pub proof fn law_drop_ends_active_state<K, T>(
    pre: QueueView<K, T>,
    post: QueueView<K, T>,
    id: MSGID,
    keys: Seq<K>,
)
    requires
        pre.released(post, id, keys),
    ensures
        forall|k: K, other: MSGID|
            (#[trigger] post.active_under(k).contains(other)) <==> pre.active_under(k).contains(other)
                && !(keys.contains(k) && other == id),
        post.next_id == pre.next_id,
    decreases keys.len(),
{
    if keys.len() > 0 {
        let before = keys.drop_last();
        let key = keys.last();
        let mid = choose|mid: QueueView<K, T>|
            pre.released(mid, id, before) && #[trigger] mid.deactivated(post, id, key);
        law_drop_ends_active_state(pre, mid, id, before);
        law_deactivate_solves_conflicts(mid, post, id, key);
        assert forall|k: K| #[trigger] keys.contains(k) <==> before.contains(k) || k == key by {
            assert(keys =~= before.push(key));
            if before.contains(k) {
                assert(keys[before.index_of(k)] == k);
            }
            assert(keys[keys.len() - 1] == key);
        }
        assert forall|k: K, other: MSGID|
            (#[trigger] post.active_under(k).contains(other)) <==> pre.active_under(k).contains(other)
                && !(keys.contains(k) && other == id) by {
            assert(post.active_under(k).contains(other) <==> mid.active_under(k).contains(other)
                && !(k == key && other == id));
            assert(keys.contains(k) <==> before.contains(k) || k == key);
        }
    }
}

/// To drop a message that is active under none of the keys changes nothing.
pub proof fn law_drop_of_inactive_changes_nothing<K, T>(
    pre: QueueView<K, T>,
    post: QueueView<K, T>,
    id: MSGID,
    keys: Seq<K>,
)
    requires
        pre.released(post, id, keys),
        forall|i: int| 0 <= i < keys.len() ==> !(#[trigger] pre.active_under(keys[i])).contains(id),
    ensures
        post == pre,
    decreases keys.len(),
{
    if keys.len() > 0 {
        let before = keys.drop_last();
        let mid = choose|mid: QueueView<K, T>|
            pre.released(mid, id, before) && #[trigger] mid.deactivated(post, id, keys.last());
        assert forall|i: int| 0 <= i < before.len() implies !(#[trigger] pre.active_under(
            before[i],
        )).contains(id) by {
            assert(!pre.active_under(keys[i]).contains(id));
        }
        law_drop_of_inactive_changes_nothing(pre, mid, id, before);
        assert(!pre.active_under(keys[keys.len() - 1]).contains(id));
    }
}

/// To drop a message again changes nothing.
pub proof fn law_drop_again_changes_nothing<K, T>(
    pre: QueueView<K, T>,
    mid: QueueView<K, T>,
    post: QueueView<K, T>,
    id: MSGID,
    keys: Seq<K>,
)
    requires
        pre.released(mid, id, keys),
        mid.released(post, id, keys),
    ensures
        post == mid,
{
    law_drop_ends_active_state(pre, mid, id, keys);
    assert forall|i: int| 0 <= i < keys.len() implies !(#[trigger] mid.active_under(
        keys[i],
    )).contains(id) by {
        assert(keys.contains(keys[i]));
    }
    law_drop_of_inactive_changes_nothing(mid, post, id, keys);
}

} // verus!
