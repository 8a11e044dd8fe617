//! The messages sent through a channel so far, and what the conflict queue has to
//! hold of them.
use crate::channel::{MessageView, MSGID};
use crate::conflict_queue::{activate, conflicts_at, in_degree, QueueView};
use vstd::prelude::*;

verus! {

/// How far a message has come.
pub enum Stage {
    /// It waits inside the channel for an earlier message with a common key.
    Parked,
    /// It is ready to be received.
    Ready,
    /// It has been received.
    Held,
    /// It has been received and dropped.
    Gone,
}

/// A message that was sent.
#[verifier::reject_recursive_types(K)]
#[verifier::reject_recursive_types(T)]
pub struct Sent<K, T> {
    /// The message.
    pub msg: MessageView<K, T>,
    /// The keys under which it is active.
    pub live: Set<K>,
    /// How far it has come.
    pub stage: Stage,
}

impl<K, T> Sent<K, T> {
    /// The keys of the message.
    pub open spec fn keys(self) -> Set<K> {
        self.msg.keys.to_set()
    }

    /// Whether two messages have a key in common.
    pub open spec fn conflicts(self, other: Self) -> bool {
        exists|key: K| self.keys().contains(key) && other.keys().contains(key)
    }
}

/// The number of conflicts between `keys` and the first `n` messages of a history:
/// one for each of `keys` and each message that is active under it.
pub open spec fn blockers<K, T>(history: Seq<Sent<K, T>>, keys: Set<K>, n: int) -> nat
    decreases n,
{
    if n <= 0 {
        0
    } else {
        blockers(history, keys, n - 1) + keys.intersect(history[n - 1].live).len()
    }
}

/// Whether the message at `i` is active under `key` and has this `id`.
pub open spec fn active_at<K, T>(history: Seq<Sent<K, T>>, i: int, key: K, id: MSGID) -> bool {
    0 <= i < history.len() && history[i].msg.id == id && history[i].live.contains(key)
}

/// Whether the message at `i` is parked and has this `id`.
pub open spec fn parked_at<K, T>(history: Seq<Sent<K, T>>, i: int, id: MSGID) -> bool {
    0 <= i < history.len() && history[i].stage is Parked && history[i].msg.id == id
}

/// Whether the message at `i` is ready and is `msg`.
pub open spec fn ready_at<K, T>(
    history: Seq<Sent<K, T>>,
    i: int,
    msg: MessageView<K, T>,
) -> bool {
    0 <= i < history.len() && history[i].stage is Ready && history[i].msg == msg
}

/// Whether `msg` is a message of the history that is ready.
pub open spec fn is_ready<K, T>(history: Seq<Sent<K, T>>, msg: MessageView<K, T>) -> bool {
    exists|i: int| ready_at(history, i, msg)
}

/// Each message is active under keys of its own: all of them before it is
/// received, none of them once it is dropped.
pub open spec fn records_ok<K, T>(history: Seq<Sent<K, T>>) -> bool {
    forall|i: int|
        0 <= i < history.len() ==> {
            let sent = #[trigger] history[i];
            &&& sent.live.subset_of(sent.keys())
            &&& sent.stage is Parked || sent.stage is Ready ==> sent.live == sent.keys()
            &&& sent.stage is Gone ==> sent.live == Set::<K>::empty()
        }
}

/// No two messages that are not dropped have the same id.
pub open spec fn ids_distinct<K, T>(history: Seq<Sent<K, T>>) -> bool {
    forall|i: int, j: int|
        #![trigger history[i], history[j]]
        0 <= i < j < history.len() && !(history[i].stage is Gone) && !(history[j].stage is Gone)
            ==> history[i].msg.id != history[j].msg.id
}

/// A message is parked exactly as long as it has conflicts with earlier messages.
pub open spec fn parked_ok<K, T>(history: Seq<Sent<K, T>>) -> bool {
    forall|i: int|
        0 <= i < history.len() ==> ((#[trigger] history[i]).stage is Parked <==> blockers(
            history,
            history[i].keys(),
            i,
        ) > 0)
}

/// The index lists a message under the keys under which it is active.
pub open spec fn index_ok<K, T>(queue: QueueView<K, T>, history: Seq<Sent<K, T>>) -> bool {
    forall|key: K, id: MSGID| #[trigger]
        queue.active_under(key).contains(id) <==> exists|i: int| active_at(history, i, key, id)
}

/// The buffer holds the parked messages, each with the number of its conflicts.
pub open spec fn buffer_ok<K, T>(queue: QueueView<K, T>, history: Seq<Sent<K, T>>) -> bool {
    &&& forall|i: int|
        0 <= i < history.len() && (#[trigger] history[i]).stage is Parked ==> {
            let id = history[i].msg.id;
            &&& queue.buffer.contains_key(id)
            &&& queue.buffer[id].0 == blockers(history, history[i].keys(), i)
            &&& queue.buffer[id].1 == history[i].msg
        }
    &&& forall|id: MSGID| #[trigger]
        queue.buffer.contains_key(id) ==> exists|i: int| parked_at(history, i, id)
}

/// The fifo holds the messages that are ready, each of them once.
pub open spec fn fifo_ok<K, T>(queue: QueueView<K, T>, history: Seq<Sent<K, T>>) -> bool {
    &&& forall|n: int|
        0 <= n < queue.fifo.len() ==> is_ready(history, #[trigger] queue.fifo[n])
    &&& forall|n: int, m: int|
        0 <= n < m < queue.fifo.len() ==> (#[trigger] queue.fifo[n]).id != (
        #[trigger] queue.fifo[m]).id
    &&& forall|i: int|
        0 <= i < history.len() && (#[trigger] history[i]).stage is Ready ==> queue.fifo.contains(
            history[i].msg,
        )
}

/// The queue holds of the messages of a history what it has to.
pub open spec fn orderly<K, T>(queue: QueueView<K, T>, history: Seq<Sent<K, T>>) -> bool {
    &&& records_ok(history)
    &&& ids_distinct(history)
    &&& parked_ok(history)
    &&& index_ok(queue, history)
    &&& buffer_ok(queue, history)
    &&& fifo_ok(queue, history)
}

/// Whether no message of the history that is not dropped has this `id`.
pub open spec fn fresh<K, T>(history: Seq<Sent<K, T>>, id: MSGID) -> bool {
    forall|i: int|
        0 <= i < history.len() && !((#[trigger] history[i]).stage is Gone) ==> history[i].msg.id
            != id
}

/// The history once `msg` is sent.
pub open spec fn with_sent<K, T>(
    history: Seq<Sent<K, T>>,
    msg: MessageView<K, T>,
) -> Seq<Sent<K, T>> {
    let keys = msg.keys.to_set();
    history.push(
        Sent {
            msg,
            live: keys,
            stage: if blockers(history, keys, history.len() as int) > 0 {
                Stage::Parked
            } else {
                Stage::Ready
            },
        },
    )
}

/// The history once the message at `p` is received.
pub open spec fn with_received<K, T>(history: Seq<Sent<K, T>>, p: int) -> Seq<Sent<K, T>> {
    history.update(p, Sent { stage: Stage::Held, ..history[p] })
}

/// The history once the message at `p` is active under the keys in `live` only:
/// parked messages that have no conflict left are ready.
pub open spec fn with_live<K, T>(
    history: Seq<Sent<K, T>>,
    p: int,
    live: Set<K>,
) -> Seq<Sent<K, T>> {
    let lowered = history.update(p, Sent { live, ..history[p] });
    Seq::new(
        history.len(),
        |i: int|
            if lowered[i].stage is Parked && blockers(lowered, lowered[i].keys(), i) == 0 {
                Sent { stage: Stage::Ready, ..lowered[i] }
            } else {
                lowered[i]
            },
    )
}

/// The history once the message at `p` is dropped.
pub open spec fn with_dropped<K, T>(history: Seq<Sent<K, T>>, p: int) -> Seq<Sent<K, T>> {
    let after = with_live(history, p, Set::empty());
    after.update(p, Sent { stage: Stage::Gone, ..after[p] })
}

/// The number of the first `n` messages of a history that are active under `key`.
spec fn holders<K, T>(history: Seq<Sent<K, T>>, key: K, n: int) -> nat
    decreases n,
{
    if n <= 0 {
        0
    } else {
        holders(history, key, n - 1) + if history[n - 1].live.contains(key) {
            1nat
        } else {
            0
        }
    }
}

/// The ids of the first `n` messages of a history that are active under `key`.
spec fn holder_ids<K, T>(history: Seq<Sent<K, T>>, key: K, n: int) -> Set<MSGID> {
    Set::new(|id: MSGID| exists|i: int| 0 <= i < n && active_at(history, i, key, id))
}

/// Only the keys under which messages are active count.
proof fn lemma_blockers_same<K, T>(
    h1: Seq<Sent<K, T>>,
    h2: Seq<Sent<K, T>>,
    keys: Set<K>,
    n: int,
)
    requires
        n <= h1.len(),
        n <= h2.len(),
        forall|i: int| 0 <= i < n ==> (#[trigger] h1[i]).live == h2[i].live,
    ensures
        blockers(h1, keys, n) == blockers(h2, keys, n),
    decreases n,
{
    if n > 0 {
        lemma_blockers_same(h1, h2, keys, n - 1);
        assert(h1[n - 1].live == h2[n - 1].live);
    }
}

/// Only those of the keys count under which messages are active.
pub proof fn lemma_blockers_common<K, T>(
    h1: Seq<Sent<K, T>>,
    h2: Seq<Sent<K, T>>,
    keys: Set<K>,
    n: int,
)
    requires
        n <= h1.len(),
        n <= h2.len(),
        forall|i: int|
            0 <= i < n ==> keys.intersect((#[trigger] h1[i]).live) == keys.intersect(h2[i].live),
    ensures
        blockers(h1, keys, n) == blockers(h2, keys, n),
    decreases n,
{
    if n > 0 {
        lemma_blockers_common(h1, h2, keys, n - 1);
        assert(keys.intersect(h1[n - 1].live) == keys.intersect(h2[n - 1].live));
    }
}

/// A key counts once for each message that is active under it.
proof fn lemma_blockers_insert<K, T>(history: Seq<Sent<K, T>>, keys: Set<K>, key: K, n: int)
    requires
        keys.finite(),
        !keys.contains(key),
    ensures
        blockers(history, keys.insert(key), n) == blockers(history, keys, n) + holders(
            history,
            key,
            n,
        ),
    decreases n,
{
    if n > 0 {
        lemma_blockers_insert(history, keys, key, n - 1);
        let live = history[n - 1].live;
        if live.contains(key) {
            assert(keys.insert(key).intersect(live) =~= keys.intersect(live).insert(key));
        } else {
            assert(keys.insert(key).intersect(live) =~= keys.intersect(live));
        }
    }
}

/// Different messages that are active under a key have different ids.
proof fn lemma_holder_ids<K, T>(history: Seq<Sent<K, T>>, key: K, n: int)
    requires
        0 <= n <= history.len(),
        records_ok(history),
        ids_distinct(history),
    ensures
        holder_ids(history, key, n).finite(),
        holder_ids(history, key, n).len() == holders(history, key, n),
    decreases n,
{
    let ids = holder_ids(history, key, n);
    if n == 0 {
        assert(ids =~= Set::empty());
    } else {
        lemma_holder_ids(history, key, n - 1);
        let before = holder_ids(history, key, n - 1);
        let last = history[n - 1];
        if last.live.contains(key) {
            assert(active_at(history, n - 1, key, last.msg.id));
            assert forall|id: MSGID| ids.contains(id) <==> before.insert(last.msg.id).contains(
                id,
            ) by {
                if before.contains(id) {
                    let i = choose|i: int| 0 <= i < n - 1 && active_at(history, i, key, id);
                    assert(0 <= i < n && active_at(history, i, key, id));
                }
            }
            assert(ids =~= before.insert(last.msg.id));
            if before.contains(last.msg.id) {
                let i = choose|i: int|
                    0 <= i < n - 1 && active_at(history, i, key, last.msg.id);
                assert(history[i].msg.id == history[n - 1].msg.id);
            }
        } else {
            assert forall|id: MSGID| ids.contains(id) <==> before.contains(id) by {
                if before.contains(id) {
                    let i = choose|i: int| 0 <= i < n - 1 && active_at(history, i, key, id);
                    assert(0 <= i < n && active_at(history, i, key, id));
                }
            }
            assert(ids =~= before);
        }
    }
}

/// The index lists as many ids under a key as messages are active under it.
proof fn lemma_index_len<K, T>(queue: QueueView<K, T>, history: Seq<Sent<K, T>>, key: K)
    requires
        records_ok(history),
        ids_distinct(history),
        index_ok(queue, history),
    ensures
        queue.active_under(key).finite(),
        queue.active_under(key).len() == holders(history, key, history.len() as int),
{
    let n = history.len() as int;
    lemma_holder_ids(history, key, n);
    assert forall|id: MSGID| queue.active_under(key).contains(id) <==> holder_ids(
        history,
        key,
        n,
    ).contains(id) by {
        if queue.active_under(key).contains(id) {
            let i = choose|i: int| active_at(history, i, key, id);
            assert(0 <= i < n && active_at(history, i, key, id));
        }
    }
    assert(queue.active_under(key) =~= holder_ids(history, key, n));
}

/// The in-degree of a new message is the number of its conflicts.
proof fn lemma_in_degree<K, T>(
    queue: QueueView<K, T>,
    history: Seq<Sent<K, T>>,
    keys: Seq<K>,
)
    requires
        records_ok(history),
        ids_distinct(history),
        index_ok(queue, history),
        blockers(history, keys.to_set(), history.len() as int) <= usize::MAX,
    ensures
        in_degree(queue.active, keys) == blockers(
            history,
            keys.to_set(),
            history.len() as int,
        ),
    decreases keys.len(),
{
    let n = history.len() as int;
    if keys.len() == 0 {
        assert(keys.to_set() =~= Set::empty());
        lemma_blockers_none(history, keys.to_set(), n);
    } else {
        let before = keys.drop_last();
        let key = keys.last();
        assert(keys =~= before.push(key));
        before.lemma_push_to_set_commute(key);
        vstd::seq_lib::seq_to_set_is_finite(before);
        assert(keys.take(keys.len() - 1) =~= before);
        lemma_index_len(queue, history, key);
        if before.contains(key) {
            assert(keys.to_set() =~= before.to_set());
        } else {
            lemma_blockers_insert(history, before.to_set(), key, n);
        }
        lemma_in_degree(queue, history, before);
        assert(conflicts_at(queue.active, keys, keys.len() - 1) == if before.contains(key) {
            0
        } else {
            holders(history, key, n)
        });
    }
}

/// Without a key there is no conflict.
proof fn lemma_blockers_none<K, T>(history: Seq<Sent<K, T>>, keys: Set<K>, n: int)
    requires
        keys == Set::<K>::empty(),
    ensures
        blockers(history, keys, n) == 0,
    decreases n,
{
    if n > 0 {
        lemma_blockers_none(history, keys, n - 1);
        assert(keys.intersect(history[n - 1].live) =~= Set::empty());
    }
}

/// Sending keeps the parts of an orderly history that do not speak of the queue.
proof fn lemma_sent_history<K, T>(history: Seq<Sent<K, T>>, msg: MessageView<K, T>)
    requires
        records_ok(history),
        ids_distinct(history),
        parked_ok(history),
        fresh(history, msg.id),
    ensures
        records_ok(with_sent(history, msg)),
        ids_distinct(with_sent(history, msg)),
        parked_ok(with_sent(history, msg)),
        forall|i: int|
            0 <= i < history.len() ==> #[trigger] blockers(
                with_sent(history, msg),
                history[i].keys(),
                i,
            ) == blockers(history, history[i].keys(), i),
        blockers(with_sent(history, msg), msg.keys.to_set(), history.len() as int) == blockers(
            history,
            msg.keys.to_set(),
            history.len() as int,
        ),
{
    let n = history.len() as int;
    let after = with_sent(history, msg);
    lemma_blockers_same(after, history, msg.keys.to_set(), n);
    assert forall|i: int| 0 <= i < n implies #[trigger] blockers(after, history[i].keys(), i)
        == blockers(history, history[i].keys(), i) by {
        lemma_blockers_same(after, history, history[i].keys(), i);
    }
    assert forall|i: int| 0 <= i < after.len() implies ((#[trigger] after[i]).stage is Parked
        <==> blockers(after, after[i].keys(), i) > 0) by {
        if i < n {
            assert(after[i] == history[i]);
        }
    }
}

/// Sending keeps the index.
proof fn lemma_sent_index<K, T>(
    queue: QueueView<K, T>,
    history: Seq<Sent<K, T>>,
    msg: MessageView<K, T>,
)
    requires
        index_ok(queue, history),
    ensures
        index_ok(queue.with_msg(msg), with_sent(history, msg)),
{
    let n = history.len() as int;
    let post = queue.with_msg(msg);
    let after = with_sent(history, msg);
    assert(post.active == activate(queue.active, msg.keys, msg.id));
    assert forall|key: K, id: MSGID| #[trigger]
        post.active_under(key).contains(id) <==> exists|i: int|
            active_at(after, i, key, id) by {
        assert(post.active_under(key).contains(id) <==> queue.active_under(key).contains(id) || (
        msg.keys.contains(key) && id == msg.id));
        if queue.active_under(key).contains(id) {
            let i = choose|i: int| active_at(history, i, key, id);
            assert(active_at(after, i, key, id));
        }
        if msg.keys.contains(key) && id == msg.id {
            assert(active_at(after, n, key, id));
        }
        if exists|i: int| active_at(after, i, key, id) {
            let i = choose|i: int| active_at(after, i, key, id);
            if i < n {
                assert(active_at(history, i, key, id));
            }
        }
    }
}

/// Sending keeps the buffer.
proof fn lemma_sent_buffer<K, T>(
    queue: QueueView<K, T>,
    history: Seq<Sent<K, T>>,
    msg: MessageView<K, T>,
)
    requires
        orderly(queue, history),
        fresh(history, msg.id),
        blockers(history, msg.keys.to_set(), history.len() as int) <= usize::MAX,
    ensures
        buffer_ok(queue.with_msg(msg), with_sent(history, msg)),
{
    let n = history.len() as int;
    let post = queue.with_msg(msg);
    let after = with_sent(history, msg);
    lemma_in_degree(queue, history, msg.keys);
    lemma_sent_history(history, msg);
    assert forall|i: int| 0 <= i < after.len() && (#[trigger] after[i]).stage is Parked implies {
        let id = after[i].msg.id;
        &&& post.buffer.contains_key(id)
        &&& post.buffer[id].0 == blockers(after, after[i].keys(), i)
        &&& post.buffer[id].1 == after[i].msg
    } by {
        if i < n {
            assert(after[i] == history[i]);
            assert(blockers(after, history[i].keys(), i) == blockers(
                history,
                history[i].keys(),
                i,
            ));
        }
    }
    assert forall|id: MSGID| #[trigger] post.buffer.contains_key(id) implies exists|i: int|
        parked_at(after, i, id) by {
        if queue.buffer.contains_key(id) {
            let i = choose|i: int| parked_at(history, i, id);
            assert(parked_at(after, i, id));
        } else {
            assert(parked_at(after, n, id));
        }
    }
}

/// Sending keeps the fifo.
proof fn lemma_sent_fifo<K, T>(
    queue: QueueView<K, T>,
    history: Seq<Sent<K, T>>,
    msg: MessageView<K, T>,
)
    requires
        orderly(queue, history),
        fresh(history, msg.id),
        blockers(history, msg.keys.to_set(), history.len() as int) <= usize::MAX,
    ensures
        fifo_ok(queue.with_msg(msg), with_sent(history, msg)),
{
    let n = history.len() as int;
    let post = queue.with_msg(msg);
    let after = with_sent(history, msg);
    lemma_in_degree(queue, history, msg.keys);
    assert forall|m: int| 0 <= m < post.fifo.len() implies is_ready(
        after,
        #[trigger] post.fifo[m],
    ) by {
        if m < queue.fifo.len() {
            let i = choose|i: int| ready_at(history, i, queue.fifo[m]);
            assert(ready_at(after, i, post.fifo[m]));
        } else {
            assert(ready_at(after, n, post.fifo[m]));
        }
    }
    assert forall|a: int, b: int| 0 <= a < b < post.fifo.len() implies (
    #[trigger] post.fifo[a]).id != (#[trigger] post.fifo[b]).id by {
        assert(queue.fifo[a] == post.fifo[a]);
        if b == queue.fifo.len() {
            let i = choose|i: int| ready_at(history, i, queue.fifo[a]);
            assert(!(history[i].stage is Gone));
        } else {
            assert(queue.fifo[b] == post.fifo[b]);
        }
    }
    assert forall|i: int|
        0 <= i < after.len() && (#[trigger] after[i]).stage is Ready implies post.fifo.contains(
        after[i].msg,
    ) by {
        if i < n {
            assert(history[i].stage is Ready);
            let m = queue.fifo.index_of(history[i].msg);
            assert(post.fifo[m] == after[i].msg);
        } else {
            assert(post.fifo[queue.fifo.len() as int] == msg);
        }
    }
}

/// To send a message keeps the queue orderly.
pub proof fn lemma_orderly_sent<K, T>(
    queue: QueueView<K, T>,
    history: Seq<Sent<K, T>>,
    msg: MessageView<K, T>,
)
    requires
        orderly(queue, history),
        fresh(history, msg.id),
        blockers(history, msg.keys.to_set(), history.len() as int) <= usize::MAX,
    ensures
        orderly(queue.with_msg(msg), with_sent(history, msg)),
{
    lemma_sent_history(history, msg);
    lemma_sent_index(queue, history, msg);
    lemma_sent_buffer(queue, history, msg);
    lemma_sent_fifo(queue, history, msg);
}

/// To receive the first message that is ready keeps the queue orderly.
pub proof fn lemma_orderly_received<K, T>(
    queue: QueueView<K, T>,
    history: Seq<Sent<K, T>>,
    p: int,
)
    requires
        orderly(queue, history),
        queue.fifo.len() > 0,
        ready_at(history, p, queue.fifo[0]),
    ensures
        orderly(
            QueueView { fifo: queue.fifo.drop_first(), ..queue },
            with_received(history, p),
        ),
{
    let post = QueueView { fifo: queue.fifo.drop_first(), ..queue };
    let after = with_received(history, p);
    assert forall|i: int| 0 <= i < history.len() implies #[trigger] blockers(
        after,
        history[i].keys(),
        i,
    ) == blockers(history, history[i].keys(), i) by {
        lemma_blockers_same(after, history, history[i].keys(), i);
    }
    assert(parked_ok(after)) by {
        assert forall|i: int| 0 <= i < after.len() implies ((#[trigger] after[i]).stage is Parked
            <==> blockers(after, after[i].keys(), i) > 0) by {
            assert(history[i].keys() == after[i].keys());
        }
    }
    assert(index_ok(post, after)) by {
        assert forall|key: K, id: MSGID| #[trigger]
            post.active_under(key).contains(id) <==> exists|i: int|
                active_at(after, i, key, id) by {
            assert(post.active_under(key) == queue.active_under(key));
            if queue.active_under(key).contains(id) {
                let i = choose|i: int| active_at(history, i, key, id);
                assert(active_at(after, i, key, id));
            }
            if exists|i: int| active_at(after, i, key, id) {
                let i = choose|i: int| active_at(after, i, key, id);
                assert(active_at(history, i, key, id));
            }
        }
    }
    assert(buffer_ok(post, after)) by {
        assert forall|i: int| 0 <= i < after.len() && (#[trigger] after[i]).stage is Parked implies {
            let id = after[i].msg.id;
            &&& post.buffer.contains_key(id)
            &&& post.buffer[id].0 == blockers(after, after[i].keys(), i)
            &&& post.buffer[id].1 == after[i].msg
        } by {
            assert(after[i] == history[i]);
        }
        assert forall|id: MSGID| #[trigger] post.buffer.contains_key(id) implies exists|i: int|
            parked_at(after, i, id) by {
            let i = choose|i: int| parked_at(history, i, id);
            assert(parked_at(after, i, id));
        }
    }
    assert(fifo_ok(post, after)) by {
        assert forall|m: int| 0 <= m < post.fifo.len() implies is_ready(
            after,
            #[trigger] post.fifo[m],
        ) by {
            let msg = queue.fifo[m + 1];
            assert(post.fifo[m] == msg);
            assert(is_ready(history, msg));
            let i = choose|i: int| ready_at(history, i, msg);
            assert(queue.fifo[0].id != msg.id);
            assert(ready_at(after, i, post.fifo[m]));
        }
        assert forall|i: int|
            0 <= i < after.len() && (
            #[trigger] after[i]).stage is Ready implies post.fifo.contains(after[i].msg) by {
            assert(after[i] == history[i]);
            let m = queue.fifo.index_of(history[i].msg);
            if m == 0 {
                assert(history[i].msg.id == history[p].msg.id);
            }
            assert(post.fifo[m - 1] == after[i].msg);
        }
    }
}

/// A common key is a conflict.
pub proof fn lemma_blockers_positive<K, T>(
    history: Seq<Sent<K, T>>,
    keys: Set<K>,
    n: int,
    i: int,
    key: K,
)
    requires
        keys.finite(),
        0 <= i < n,
        keys.contains(key),
        history[i].live.contains(key),
    ensures
        blockers(history, keys, n) > 0,
    decreases n,
{
    if i == n - 1 {
        let common = keys.intersect(history[i].live);
        assert(common.contains(key));
        vstd::set_lib::lemma_set_empty_equivalency_len(common);
    } else {
        lemma_blockers_positive(history, keys, n - 1, i, key);
    }
}

/// A message that is no longer active under a key is one conflict less for those
/// that come later and have the key.
proof fn lemma_blockers_drop<K, T>(
    history: Seq<Sent<K, T>>,
    p: int,
    key: K,
    keys: Set<K>,
    n: int,
)
    requires
        0 <= p < history.len(),
        n <= history.len(),
        keys.finite(),
        history[p].live.contains(key),
    ensures
        blockers(
            history.update(p, Sent { live: history[p].live.remove(key), ..history[p] }),
            keys,
            n,
        ) + (if p < n && keys.contains(key) {
            1nat
        } else {
            0
        }) == blockers(history, keys, n),
    decreases n,
{
    let lowered = history.update(p, Sent { live: history[p].live.remove(key), ..history[p] });
    if n > 0 {
        lemma_blockers_drop(history, p, key, keys, n - 1);
        if n - 1 == p {
            let live = history[p].live;
            if keys.contains(key) {
                assert(keys.intersect(live) =~= keys.intersect(live.remove(key)).insert(key));
            } else {
                assert(keys.intersect(live) =~= keys.intersect(live.remove(key)));
            }
        }
    }
}

/// To deactivate a received message keeps the parts of an orderly history that do
/// not speak of the queue, and takes one conflict from those that have the key.
pub proof fn lemma_live_history<K, T>(history: Seq<Sent<K, T>>, p: int, key: K)
    requires
        records_ok(history),
        ids_distinct(history),
        parked_ok(history),
        0 <= p < history.len(),
        history[p].stage is Held,
        history[p].live.contains(key),
    ensures
        ({
            let after = with_live(history, p, history[p].live.remove(key));
            &&& records_ok(after)
            &&& ids_distinct(after)
            &&& parked_ok(after)
            &&& forall|i: int|
                0 <= i < history.len() ==> #[trigger] blockers(after, history[i].keys(), i) + (
                if p < i && history[i].keys().contains(key) {
                    1nat
                } else {
                    0
                }) == blockers(history, history[i].keys(), i)
            &&& forall|i: int|
                0 <= i < history.len() && i != p ==> (#[trigger] after[i]).live
                    == history[i].live && after[i].msg == history[i].msg
            &&& forall|i: int|
                0 <= i < history.len() && !(history[i].stage is Parked) ==> (
                #[trigger] after[i]).stage == history[i].stage
            &&& forall|i: int|
                0 <= i < history.len() && history[i].stage is Parked ==> (
                #[trigger] after[i]).stage == (if blockers(after, history[i].keys(), i) == 0 {
                    Stage::Ready
                } else {
                    Stage::Parked
                })
        }),
{
    let live = history[p].live.remove(key);
    let lowered = history.update(p, Sent { live, ..history[p] });
    let after = with_live(history, p, live);
    assert forall|i: int| 0 <= i < history.len() implies #[trigger] blockers(
        after,
        history[i].keys(),
        i,
    ) == blockers(lowered, history[i].keys(), i) && blockers(after, history[i].keys(), i) + (
    if p < i && history[i].keys().contains(key) {
        1nat
    } else {
        0
    }) == blockers(history, history[i].keys(), i) by {
        vstd::seq_lib::seq_to_set_is_finite(history[i].msg.keys);
        lemma_blockers_same(after, lowered, history[i].keys(), i);
        lemma_blockers_drop(history, p, key, history[i].keys(), i);
    }
    assert forall|i: int| 0 <= i < after.len() implies ((#[trigger] after[i]).stage is Parked
        <==> blockers(after, after[i].keys(), i) > 0) by {
        assert(after[i].keys() == history[i].keys());
    }
}

/// Deactivation keeps the index.
proof fn lemma_live_index<K, T>(
    queue: QueueView<K, T>,
    post: QueueView<K, T>,
    history: Seq<Sent<K, T>>,
    p: int,
    key: K,
)
    requires
        orderly(queue, history),
        0 <= p < history.len(),
        history[p].stage is Held,
        history[p].live.contains(key),
        queue.deactivated(post, history[p].msg.id, key),
    ensures
        queue.active_under(key).contains(history[p].msg.id),
        index_ok(post, with_live(history, p, history[p].live.remove(key))),
{
    let after = with_live(history, p, history[p].live.remove(key));
    let mine = history[p].msg.id;
    lemma_live_history(history, p, key);
    assert(active_at(history, p, key, mine));
    assert(queue.active_under(key).contains(mine));
    assert forall|k: K, id: MSGID| #[trigger]
        post.active_under(k).contains(id) <==> exists|i: int| active_at(after, i, k, id) by {
        assert(post.active_under(k).contains(id) <==> queue.active_under(k).contains(id) && !(k
            == key && id == mine));
        if post.active_under(k).contains(id) {
            let i = choose|i: int| active_at(history, i, k, id);
            assert(after[i].msg == history[i].msg);
            assert(active_at(after, i, k, id));
        }
        if exists|i: int| active_at(after, i, k, id) {
            let i = choose|i: int| active_at(after, i, k, id);
            assert(after[i].msg == history[i].msg);
            assert(active_at(history, i, k, id));
            if k == key && id == mine && i != p {
                assert(history[i].live.contains(key));
                assert(history[i].msg.id == history[p].msg.id);
            }
        }
    }
}

/// The parked messages that are active under a key of a received message are those
/// that have the key, and all of them were sent later.
pub proof fn lemma_parked_under<K, T>(
    queue: QueueView<K, T>,
    history: Seq<Sent<K, T>>,
    p: int,
    key: K,
    i: int,
)
    requires
        orderly(queue, history),
        0 <= p < history.len(),
        history[p].stage is Held,
        history[p].live.contains(key),
        0 <= i < history.len(),
        history[i].stage is Parked,
    ensures
        queue.active_under(key).remove(history[p].msg.id).contains(history[i].msg.id)
            <==> history[i].keys().contains(key),
        history[i].keys().contains(key) ==> p < i,
{
    let id = history[i].msg.id;
    assert(id != history[p].msg.id) by {
        assert(i != p);
    }
    if history[i].keys().contains(key) {
        assert(active_at(history, i, key, id));
        if i < p {
            vstd::seq_lib::seq_to_set_is_finite(history[p].msg.keys);
            lemma_blockers_positive(history, history[p].keys(), p, i, key);
        }
    }
    if queue.active_under(key).contains(id) {
        let j = choose|j: int| active_at(history, j, key, id);
        assert(history[j].msg.id == history[i].msg.id);
        assert(history[j].live.contains(key));
        assert(j == i);
    }
}

/// Deactivation keeps the buffer.
proof fn lemma_live_buffer<K, T>(
    queue: QueueView<K, T>,
    post: QueueView<K, T>,
    history: Seq<Sent<K, T>>,
    p: int,
    key: K,
)
    requires
        orderly(queue, history),
        0 <= p < history.len(),
        history[p].stage is Held,
        history[p].live.contains(key),
        queue.deactivated(post, history[p].msg.id, key),
    ensures
        buffer_ok(post, with_live(history, p, history[p].live.remove(key))),
{
    let after = with_live(history, p, history[p].live.remove(key));
    let mine = history[p].msg.id;
    let ids = queue.active_under(key).remove(mine);
    lemma_live_history(history, p, key);
    lemma_live_index(queue, post, history, p, key);
    assert(post.buffer == queue.lowered(ids));
    assert forall|i: int| 0 <= i < after.len() && (#[trigger] after[i]).stage is Parked implies {
        let id = after[i].msg.id;
        &&& post.buffer.contains_key(id)
        &&& post.buffer[id].0 == blockers(after, after[i].keys(), i)
        &&& post.buffer[id].1 == after[i].msg
    } by {
        assert(i != p);
        assert(history[i].stage is Parked);
        assert(after[i].keys() == history[i].keys());
        lemma_parked_under(queue, history, p, key, i);
        assert(blockers(after, history[i].keys(), i) > 0);
        assert(!queue.freed(ids).contains(history[i].msg.id));
    }
    assert forall|id: MSGID| #[trigger] post.buffer.contains_key(id) implies exists|i: int|
        parked_at(after, i, id) by {
        let i = choose|i: int| parked_at(history, i, id);
        assert(i != p);
        lemma_parked_under(queue, history, p, key, i);
        assert(!queue.freed(ids).contains(id));
        assert(blockers(after, history[i].keys(), i) > 0);
        assert(after[i].msg == history[i].msg);
        assert(parked_at(after, i, id));
    }
}

/// Deactivation keeps the fifo.
proof fn lemma_live_fifo<K, T>(
    queue: QueueView<K, T>,
    post: QueueView<K, T>,
    history: Seq<Sent<K, T>>,
    p: int,
    key: K,
)
    requires
        orderly(queue, history),
        0 <= p < history.len(),
        history[p].stage is Held,
        history[p].live.contains(key),
        queue.deactivated(post, history[p].msg.id, key),
    ensures
        fifo_ok(post, with_live(history, p, history[p].live.remove(key))),
{
    let after = with_live(history, p, history[p].live.remove(key));
    let mine = history[p].msg.id;
    let ids = queue.active_under(key).remove(mine);
    let n = queue.fifo.len() as int;
    lemma_live_history(history, p, key);
    lemma_live_index(queue, post, history, p, key);
    let order = choose|order: Seq<MSGID>| queue.unblocked(post, ids, order);
    assert(queue.unblocked(post, ids, order));
    assert forall|a: int| 0 <= a < order.len() implies {
        let id = #[trigger] order[a];
        &&& queue.buffer.contains_key(id)
        &&& queue.buffer[id].1.id == id
        &&& post.fifo[n + a] == queue.buffer[id].1
        &&& is_ready(after, queue.buffer[id].1)
        &&& !is_ready(history, queue.buffer[id].1)
    } by {
        let id = order[a];
        assert(order.to_set().contains(id));
        assert(queue.freed(ids).contains(id));
        let i = choose|i: int| parked_at(history, i, id);
        lemma_parked_under(queue, history, p, key, i);
        assert(blockers(after, history[i].keys(), i) == 0);
        assert(after[i].msg == history[i].msg);
        assert(ready_at(after, i, queue.buffer[id].1));
        if is_ready(history, queue.buffer[id].1) {
            let j = choose|j: int| ready_at(history, j, queue.buffer[id].1);
            assert(history[j].msg.id == history[i].msg.id);
        }
    }
    assert forall|m: int| 0 <= m < post.fifo.len() implies is_ready(
        after,
        #[trigger] post.fifo[m],
    ) by {
        if m < n {
            assert(post.fifo[m] == queue.fifo[m]);
            let i = choose|i: int| ready_at(history, i, queue.fifo[m]);
            assert(after[i].msg == history[i].msg);
            assert(ready_at(after, i, post.fifo[m]));
        } else {
            let id = order[m - n];
            assert(post.fifo[n + (m - n)] == queue.buffer[id].1);
        }
    }
    assert forall|a: int, b: int| 0 <= a < b < post.fifo.len() implies (
    #[trigger] post.fifo[a]).id != (#[trigger] post.fifo[b]).id by {
        if b < n {
            assert(post.fifo[a] == queue.fifo[a] && post.fifo[b] == queue.fifo[b]);
        } else {
            let id = order[b - n];
            assert(post.fifo[n + (b - n)] == queue.buffer[id].1);
            if a >= n {
                let other = order[a - n];
                assert(post.fifo[n + (a - n)] == queue.buffer[other].1);
                assert(other != id);
            } else {
                assert(post.fifo[a] == queue.fifo[a]);
                let i = choose|i: int| ready_at(history, i, queue.fifo[a]);
                let j = choose|j: int| parked_at(history, j, id);
                assert(history[i].msg.id != history[j].msg.id) by {
                    assert(i != j);
                }
            }
        }
    }
    assert forall|i: int|
        0 <= i < after.len() && (#[trigger] after[i]).stage is Ready implies post.fifo.contains(
        after[i].msg,
    ) by {
        assert(after[i].msg == history[i].msg);
        if history[i].stage is Ready {
            let m = queue.fifo.index_of(history[i].msg);
            assert(post.fifo[m] == after[i].msg);
        } else {
            assert(history[i].stage is Parked);
            let id = history[i].msg.id;
            lemma_parked_under(queue, history, p, key, i);
            assert(queue.freed(ids).contains(id));
            assert(order.to_set().contains(id));
            let a = order.index_of(id);
            assert(order[a] == id);
            assert(post.fifo[n + a] == after[i].msg);
        }
    }
}

/// To deactivate a received message under one of its keys keeps the queue orderly.
proof fn lemma_orderly_deactivated<K, T>(
    queue: QueueView<K, T>,
    post: QueueView<K, T>,
    history: Seq<Sent<K, T>>,
    p: int,
    key: K,
)
    requires
        orderly(queue, history),
        0 <= p < history.len(),
        history[p].stage is Held,
        queue.deactivated(post, history[p].msg.id, key),
    ensures
        orderly(post, with_live(history, p, history[p].live.remove(key))),
{
    if history[p].live.contains(key) {
        lemma_live_history(history, p, key);
        lemma_live_index(queue, post, history, p, key);
        lemma_live_buffer(queue, post, history, p, key);
        lemma_live_fifo(queue, post, history, p, key);
    } else {
        assert(history[p].live.remove(key) =~= history[p].live);
        lemma_with_live_same(history, p);
        if queue.active_under(key).contains(history[p].msg.id) {
            let i = choose|i: int| active_at(history, i, key, history[p].msg.id);
            assert(history[i].live.contains(key));
            assert(history[i].msg.id == history[p].msg.id);
        }
    }
}

/// A message that stays active under its keys changes nothing.
proof fn lemma_with_live_same<K, T>(history: Seq<Sent<K, T>>, p: int)
    requires
        parked_ok(history),
        0 <= p < history.len(),
    ensures
        with_live(history, p, history[p].live) == history,
{
    let after = with_live(history, p, history[p].live);
    assert(history.update(p, Sent { live: history[p].live, ..history[p] }) =~= history);
    assert forall|i: int| 0 <= i < history.len() implies after[i] == history[i] by {
        assert(history[i].stage is Parked <==> blockers(history, history[i].keys(), i) > 0);
    }
    assert(after =~= history);
}

/// Fewer keys, fewer conflicts.
proof fn lemma_blockers_fewer<K, T>(
    h1: Seq<Sent<K, T>>,
    h2: Seq<Sent<K, T>>,
    keys: Set<K>,
    n: int,
)
    requires
        keys.finite(),
        n <= h1.len(),
        n <= h2.len(),
        forall|i: int| 0 <= i < n ==> (#[trigger] h1[i]).live.subset_of(h2[i].live),
    ensures
        blockers(h1, keys, n) <= blockers(h2, keys, n),
    decreases n,
{
    if n > 0 {
        lemma_blockers_fewer(h1, h2, keys, n - 1);
        assert(h1[n - 1].live.subset_of(h2[n - 1].live));
        vstd::set_lib::lemma_len_subset(
            keys.intersect(h1[n - 1].live),
            keys.intersect(h2[n - 1].live),
        );
    }
}

/// To take keys from a message in two steps is to take them at once.
proof fn lemma_with_live_twice<K, T>(
    history: Seq<Sent<K, T>>,
    p: int,
    more: Set<K>,
    less: Set<K>,
)
    requires
        0 <= p < history.len(),
        !(history[p].stage is Parked),
        less.subset_of(more),
    ensures
        with_live(with_live(history, p, more), p, less) == with_live(history, p, less),
{
    let mid = with_live(history, p, more);
    let high = history.update(p, Sent { live: more, ..history[p] });
    let low = history.update(p, Sent { live: less, ..history[p] });
    let low_mid = mid.update(p, Sent { live: less, ..mid[p] });
    let twice = with_live(mid, p, less);
    let once = with_live(history, p, less);
    assert forall|i: int| 0 <= i < history.len() implies twice[i] == once[i] by {
        let keys = history[i].keys();
        vstd::seq_lib::seq_to_set_is_finite(history[i].msg.keys);
        lemma_blockers_same(low_mid, low, keys, i);
        lemma_blockers_fewer(low, high, keys, i);
    }
    assert(twice =~= once);
}

/// To deactivate a received message under keys keeps the queue orderly.
#[verifier::spinoff_prover]
#[verifier::rlimit(40)]
pub proof fn lemma_orderly_released<K, T>(
    queue: QueueView<K, T>,
    post: QueueView<K, T>,
    history: Seq<Sent<K, T>>,
    p: int,
    keys: Seq<K>,
)
    requires
        orderly(queue, history),
        0 <= p < history.len(),
        history[p].stage is Held,
        queue.released(post, history[p].msg.id, keys),
    ensures
        orderly(post, with_live(history, p, history[p].live.difference(keys.to_set()))),
    decreases keys.len(),
{
    let live = history[p].live;
    if keys.len() == 0 {
        assert(live.difference(keys.to_set()) =~= live);
        lemma_with_live_same(history, p);
    } else {
        let id = history[p].msg.id;
        let before = keys.drop_last();
        let mid = choose|mid: QueueView<K, T>|
            queue.released(mid, id, before) && #[trigger] mid.deactivated(post, id, keys.last());
        lemma_orderly_released(queue, mid, history, p, before);
        let some = live.difference(before.to_set());
        let between = with_live(history, p, some);
        assert(between[p] == Sent { live: some, ..history[p] });
        lemma_orderly_deactivated(mid, post, between, p, keys.last());
        lemma_with_live_twice(history, p, some, some.remove(keys.last()));
        assert(keys =~= before.push(keys.last()));
        before.lemma_push_to_set_commute(keys.last());
        assert(some.remove(keys.last()) =~= live.difference(keys.to_set()));
    }
}

/// To drop a received message keeps the queue orderly.
pub proof fn lemma_orderly_dropped<K, T>(
    queue: QueueView<K, T>,
    post: QueueView<K, T>,
    history: Seq<Sent<K, T>>,
    p: int,
)
    requires
        orderly(queue, history),
        0 <= p < history.len(),
        history[p].stage is Held,
        queue.released(post, history[p].msg.id, history[p].msg.keys),
    ensures
        orderly(post, with_dropped(history, p)),
{
    let none = Set::<K>::empty();
    let released = with_live(history, p, none);
    let after = with_dropped(history, p);
    lemma_orderly_released(queue, post, history, p, history[p].msg.keys);
    assert(history[p].live.difference(history[p].keys()) =~= none);
    assert(released[p] == Sent { live: none, ..history[p] });
    assert forall|i: int| 0 <= i < after.len() implies #[trigger] blockers(
        after,
        released[i].keys(),
        i,
    ) == blockers(released, released[i].keys(), i) by {
        lemma_blockers_same(after, released, released[i].keys(), i);
    }
    assert(records_ok(after) && ids_distinct(after));
    assert(parked_ok(after)) by {
        assert forall|i: int| 0 <= i < after.len() implies ((#[trigger] after[i]).stage is Parked
            <==> blockers(after, after[i].keys(), i) > 0) by {
            assert(released[i].keys() == after[i].keys());
        }
    }
    assert(index_ok(post, after)) by {
        assert forall|key: K, id: MSGID| #[trigger]
            post.active_under(key).contains(id) <==> exists|i: int|
                active_at(after, i, key, id) by {
            if post.active_under(key).contains(id) {
                let i = choose|i: int| active_at(released, i, key, id);
                assert(active_at(after, i, key, id));
            }
            if exists|i: int| active_at(after, i, key, id) {
                let i = choose|i: int| active_at(after, i, key, id);
                assert(active_at(released, i, key, id));
            }
        }
    }
    assert(buffer_ok(post, after)) by {
        assert forall|i: int| 0 <= i < after.len() && (#[trigger] after[i]).stage is Parked implies {
            let id = after[i].msg.id;
            &&& post.buffer.contains_key(id)
            &&& post.buffer[id].0 == blockers(after, after[i].keys(), i)
            &&& post.buffer[id].1 == after[i].msg
        } by {
            assert(after[i] == released[i]);
        }
        assert forall|id: MSGID| #[trigger] post.buffer.contains_key(id) implies exists|i: int|
            parked_at(after, i, id) by {
            let i = choose|i: int| parked_at(released, i, id);
            assert(parked_at(after, i, id));
        }
    }
    assert(fifo_ok(post, after)) by {
        assert forall|m: int| 0 <= m < post.fifo.len() implies is_ready(
            after,
            #[trigger] post.fifo[m],
        ) by {
            let i = choose|i: int| ready_at(released, i, post.fifo[m]);
            assert(ready_at(after, i, post.fifo[m]));
        }
        assert forall|i: int|
            0 <= i < after.len() && (
            #[trigger] after[i]).stage is Ready implies post.fifo.contains(after[i].msg) by {
            assert(after[i] == released[i]);
        }
    }
}

} // verus!
