use crate::channel::{Message, MessageView, MSGID};
use crate::ids::{IdCounts, IdSet};
use crate::queue_trace::QueueEvent;
use std::collections::{HashMap, HashSet, VecDeque};
use std::hash::Hash;
use vstd::prelude::*;
use vstd::std_specs::hash::obeys_key_model;

verus! {

broadcast use vstd::std_specs::hash::group_hash_axioms;

/// What a key type has to keep for a hash table over it to be a map: `Hash` is
/// deterministic, `==` tells exactly the identical keys, and `clone` gives the
/// same key again.
pub open spec fn key_laws<K: Clone + Eq + Hash>() -> bool {
    &&& obeys_key_model::<K>()
    &&& forall|a: K, b: K| #[trigger] cloned(a, b) ==> a == b
}

/// The id that follows `id`.
pub open spec fn next_id(id: MSGID) -> MSGID {
    if id == MSGID::MAX {
        0
    } else {
        (id + 1) as MSGID
    }
}

/// The ids that `active` lists under `key`.
pub open spec fn ids_under<K>(active: Map<K, Set<MSGID>>, key: K) -> Set<MSGID> {
    if active.contains_key(key) {
        active[key]
    } else {
        Set::empty()
    }
}

/// The number of conflicts that the key at position `i` of `keys` brings to a new
/// message: one for each message that is active under it. A key that `keys` lists
/// before brings none.
pub open spec fn conflicts_at<K>(active: Map<K, Set<MSGID>>, keys: Seq<K>, i: int) -> nat {
    if keys.take(i).contains(keys[i]) {
        0
    } else {
        ids_under(active, keys[i]).len()
    }
}

/// The in-degree of a new message with `keys`: the conflicts that its keys bring,
/// added up. A key whose conflicts no longer fit in a `usize` is left out of the
/// sum.
pub open spec fn in_degree<K>(active: Map<K, Set<MSGID>>, keys: Seq<K>) -> nat
    decreases keys.len(),
{
    if keys.len() == 0 {
        0
    } else {
        let before = in_degree(active, keys.drop_last());
        let sum = before + conflicts_at(active, keys, keys.len() - 1);
        if sum <= usize::MAX {
            sum
        } else {
            before
        }
    }
}

/// The index of active messages once `id` is active under each of `keys`.
pub open spec fn activate<K>(active: Map<K, Set<MSGID>>, keys: Seq<K>, id: MSGID) -> Map<
    K,
    Set<MSGID>,
> {
    Map::new(
        |key: K| active.contains_key(key) || keys.contains(key),
        |key: K|
            if keys.contains(key) {
                ids_under(active, key).insert(id)
            } else {
                active[key]
            },
    )
}

/// Activation goes key by key.
proof fn lemma_activate_push<K>(active: Map<K, Set<MSGID>>, keys: Seq<K>, key: K, id: MSGID)
    ensures
        activate(active, keys.push(key), id) == activate(active, keys, id).insert(
            key,
            ids_under(active, key).insert(id),
        ),
{
    assert forall|k: K| keys.push(key).contains(k) <==> keys.contains(k) || k == key by {
        if keys.contains(k) {
            let i = keys.index_of(k);
            assert(keys.push(key)[i] == k);
        }
        assert(keys.push(key)[keys.len() as int] == key);
    }
    let lhs = activate(active, keys.push(key), id);
    let rhs = activate(active, keys, id).insert(key, ids_under(active, key).insert(id));
    assert forall|k: K| lhs.dom().contains(k) <==> rhs.dom().contains(k) by {
        assert(keys.push(key).contains(k) <==> keys.contains(k) || k == key);
    }
    assert forall|k: K| lhs.dom().contains(k) implies lhs[k] == rhs[k] by {
        assert(keys.push(key).contains(k) <==> keys.contains(k) || k == key);
    }
    assert(lhs =~= rhs);
}

/// The contents of a conflict queue.
#[verifier::ext_equal]
#[verifier::reject_recursive_types(K)]
#[verifier::reject_recursive_types(T)]
pub struct QueueView<K, T> {
    /// For each key met so far, the ids of the messages that are active under it.
    pub active: Map<K, Set<MSGID>>,
    /// The messages that wait for conflicts, each with its in-degree: the number
    /// of conflicts that it waits for.
    pub buffer: Map<MSGID, (usize, MessageView<K, T>)>,
    /// The messages without a conflict, in the order in which they leave.
    pub fifo: Seq<MessageView<K, T>>,
    /// The id that the next message gets.
    pub next_id: MSGID,
}

impl<K, T> QueueView<K, T> {
    /// A queue that holds nothing and has met no key.
    pub open spec fn empty() -> Self {
        QueueView {
            active: Map::empty(),
            buffer: Map::empty(),
            fifo: Seq::empty(),
            next_id: 0,
        }
    }

    /// The ids of the messages that are active under `key`.
    pub open spec fn active_under(self, key: K) -> Set<MSGID> {
        ids_under(self.active, key)
    }

    /// The number of messages held, in conflict or not.
    pub open spec fn total(self) -> nat {
        self.buffer.dom().len() + self.fifo.len()
    }

    /// Whether the messages that wait, and those that are active under a key, can be
    /// counted.
    pub open spec fn countable(self) -> bool {
        &&& self.buffer.dom().finite()
        &&& forall|key: K|
            #![trigger self.active_under(key)]
            self.active_under(key).finite() && self.active_under(key).len() <= usize::MAX
    }

    /// The queue once `msg` is added: active under its keys, at the end of the
    /// fifo if it has no conflict, and else in the buffer.
    pub open spec fn with_msg(self, msg: MessageView<K, T>) -> Self {
        let degree = in_degree(self.active, msg.keys);
        let added = QueueView { active: activate(self.active, msg.keys, msg.id), ..self };
        if degree == 0 {
            QueueView { fifo: self.fifo.push(msg), ..added }
        } else {
            QueueView { buffer: self.buffer.insert(msg.id, (degree as usize, msg)), ..added }
        }
    }

    /// Those of `ids` that wait for a single conflict.
    pub open spec fn freed(self, ids: Set<MSGID>) -> Set<MSGID> {
        ids.filter(|id: MSGID| self.buffer.contains_key(id) && self.buffer[id].0 == 1)
    }

    /// The buffer once each of `ids` that waits in it has lost a conflict.
    pub open spec fn lowered(self, ids: Set<MSGID>) -> Map<MSGID, (usize, MessageView<K, T>)> {
        Map::new(
            |id: MSGID| self.buffer.contains_key(id) && !self.freed(ids).contains(id),
            |id: MSGID|
                {
                    let (degree, msg) = self.buffer[id];
                    if ids.contains(id) && degree > 0 {
                        ((degree - 1) as usize, msg)
                    } else {
                        (degree, msg)
                    }
                },
        )
    }

    /// `post` is the queue once each of `ids` that waits in the buffer has lost a
    /// conflict: those that lost their last one follow in the fifo, in some order.
    pub open spec fn unblocked(self, post: Self, ids: Set<MSGID>, order: Seq<MSGID>) -> bool {
        &&& order.no_duplicates()
        &&& order.to_set() == self.freed(ids)
        &&& post.fifo == self.fifo + order.map_values(|id: MSGID| self.buffer[id].1)
        &&& post.buffer == self.lowered(ids)
        &&& post.next_id == self.next_id
    }

    /// Without an id nothing is unblocked.
    proof fn lemma_unblocked_none(self)
        ensures
            self.unblocked(self, Set::empty(), Seq::empty()),
    {
        let none = Set::<MSGID>::empty();
        let order = Seq::<MSGID>::empty();
        assert(order.to_set() =~= self.freed(none));
        assert(self.fifo + order.map_values(|id: MSGID| self.buffer[id].1) =~= self.fifo);
        assert(self.lowered(none) =~= self.buffer);
    }

    /// Unblocking goes id by id.
    proof fn lemma_unblocked_next(
        self,
        mid: Self,
        post: Self,
        ids: Set<MSGID>,
        order: Seq<MSGID>,
        id: MSGID,
    )
        requires
            self.unblocked(mid, ids, order),
            !ids.contains(id),
            post.next_id == mid.next_id,
            !self.buffer.contains_key(id) ==> post.buffer == mid.buffer && post.fifo == mid.fifo,
            self.buffer.contains_key(id) && self.buffer[id].0 == 1 ==> post.buffer
                == mid.buffer.remove(id) && post.fifo == mid.fifo.push(self.buffer[id].1),
            self.buffer.contains_key(id) && self.buffer[id].0 != 1 ==> post.fifo == mid.fifo
                && post.buffer == mid.buffer.insert(
                id,
                (
                    if self.buffer[id].0 > 0 {
                        (self.buffer[id].0 - 1) as usize
                    } else {
                        0
                    },
                    self.buffer[id].1,
                ),
            ),
        ensures
            self.unblocked(
                post,
                ids.insert(id),
                if self.buffer.contains_key(id) && self.buffer[id].0 == 1 {
                    order.push(id)
                } else {
                    order
                },
            ),
    {
        let msg_of = |id: MSGID| self.buffer[id].1;
        if self.buffer.contains_key(id) && self.buffer[id].0 == 1 {
            assert(!order.to_set().contains(id));
            assert(self.freed(ids.insert(id)) =~= self.freed(ids).insert(id));
            order.lemma_push_to_set_commute(id);
            assert(order.push(id).map_values(msg_of) =~= order.map_values(msg_of).push(msg_of(id)));
            assert(post.fifo =~= self.fifo + order.push(id).map_values(msg_of));
        } else {
            assert(self.freed(ids.insert(id)) =~= self.freed(ids));
        }
        assert(post.buffer =~= self.lowered(ids.insert(id)));
    }

    /// `post` is the queue once the message `id` is no longer active under `key`.
    /// Each other message that is active under `key` loses a conflict. Where `id`
    /// is not active under `key`, nothing changes.
    pub open spec fn deactivated(self, post: Self, id: MSGID, key: K) -> bool {
        if self.active_under(key).contains(id) {
            &&& post.active == self.active.insert(key, self.active[key].remove(id))
            &&& exists|order: Seq<MSGID>|
                self.unblocked(post, self.active[key].remove(id), order)
        } else {
            post == self
        }
    }

    /// `post` is the queue once the message `id` is no longer active under any of
    /// `keys`, which are taken one after the other.
    pub open spec fn released(self, post: Self, id: MSGID, keys: Seq<K>) -> bool
        decreases keys.len(),
    {
        if keys.len() == 0 {
            post == self
        } else {
            exists|mid: Self|
                self.released(mid, id, keys.drop_last()) && #[trigger] mid.deactivated(
                    post,
                    id,
                    keys.last(),
                )
        }
    }
}

/// Conflict queue: orders messages by the conflicts between their keys.
#[derive(Debug)]
#[verifier::reject_recursive_types(K)]
#[verifier::reject_recursive_types(T)]
pub struct ConflictQueue<K, T> {
    /// Active messages index.
    active: HashMap<K, IdSet>,
    /// The in-degree of each message that waits for conflicts.
    conflict_buffer: IdCounts,
    /// The messages that wait for conflicts.
    waiting: HashMap<MSGID, Message<K, T>>,
    /// The messages without a conflict.
    fifo_queue: VecDeque<Message<K, T>>,
    /// The id of the next message.
    id: MSGID,
}

impl<K, T> View for ConflictQueue<K, T> {
    type V = QueueView<K, T>;

    closed spec fn view(&self) -> QueueView<K, T> {
        QueueView {
            active: self.active@.map_values(|ids: IdSet| ids@),
            buffer: Map::new(
                |id: MSGID| self.conflict_buffer@.contains_key(id),
                |id: MSGID| (self.conflict_buffer@[id], self.waiting@[id]@),
            ),
            fifo: self.fifo_queue@.map_values(|msg: Message<K, T>| msg@),
            next_id: self.id,
        }
    }
}

impl<K: Clone + Eq + Hash, T> ConflictQueue<K, T> {
    /// Well-formedness: the keys keep their laws, the messages that wait are those
    /// that have an in-degree, and those that are active under a key can be counted.
    pub closed spec fn wf(&self) -> bool {
        &&& key_laws::<K>()
        &&& self.conflict_buffer@.dom() == self.waiting@.dom()
        &&& forall|key: K|
            #![trigger self.active@[key]]
            self.active@.contains_key(key) ==> self.active@[key]@.finite()
                && self.active@[key]@.len() <= usize::MAX
    }

    /// What a queue holds can be counted.
    pub proof fn lemma_countable(&self)
        requires
            self.wf(),
        ensures
            self@.countable(),
    {
        assert(self@.buffer.dom() =~= self.waiting@.dom());
        assert forall|key: K|
            #![trigger self@.active_under(key)]
            self@.active_under(key).finite() && self@.active_under(key).len() <= usize::MAX by {
            if self.active@.contains_key(key) {
                assert(self@.active_under(key) == self.active@[key]@);
            }
        }
    }

    /// Constructs a new, empty queue with at least the specified capacity. The room
    /// for it is reserved at once, and std ends the program where there is too
    /// little memory.
    #[must_use]
    pub fn with_capacity(cap: usize) -> (queue: Self)
        requires
            key_laws::<K>(),
        ensures
            queue.wf(),
            queue@ == QueueView::<K, T>::empty(),
            queue@.fifo.len() == 0 && queue@.buffer.dom().len() == 0 && queue@.next_id == 0,
    {
        let queue = ConflictQueue {
            active: HashMap::new(),
            conflict_buffer: IdCounts::new(),
            waiting: HashMap::with_capacity(cap),
            fifo_queue: VecDeque::with_capacity(cap),
            id: 0,
        };
        assert(queue@ =~= QueueView::<K, T>::empty());
        assert(queue.conflict_buffer@.dom() =~= queue.waiting@.dom());
        queue
    }

    /// Generates a unique message id: the ids count up, and start over at zero
    /// once they reach the largest `MSGID`.
    pub fn generate_id(&mut self) -> (id: MSGID)
        requires
            old(self).wf(),
        ensures
            final(self).wf(),
            id == old(self)@.next_id,
            final(self)@ == (QueueView { next_id: next_id(id), ..old(self)@ }),
            (QueueEvent::<K, T>::GenerateId).step(old(self)@, final(self)@),
    {
        let old_id = self.id;
        if let Some(new_id) = self.id.checked_add(1) {
            self.id = new_id;
        } else {
            self.id = 0;
        }
        old_id
    }

    /// Returns whether no message is ready to leave.
    #[must_use]
    pub fn is_empty(&self) -> (empty: bool)
        ensures
            empty == (self@.fifo.len() == 0),
    {
        self.fifo_queue.len() == 0
    }

    /// Returns the number of messages held, in conflict or not; zero where that
    /// number does not fit in a `usize`.
    #[must_use]
    pub fn capacity(&self) -> (total: usize)
        requires
            self.wf(),
        ensures
            total == (if self@.total() <= usize::MAX {
                self@.total()
            } else {
                0
            }),
    {
        let buffer_len = self.conflict_buffer.len();
        let fifo_len = self.fifo_queue.len();
        assert(self@.buffer.dom() =~= self.conflict_buffer@.dom());
        if let Some(capacity) = buffer_len.checked_add(fifo_len) {
            capacity
        } else {
            0
        }
    }

    /// Returns the number of messages that are ready to leave.
    #[must_use]
    pub fn len(&self) -> (len: usize)
        ensures
            len == self@.fifo.len(),
    {
        self.fifo_queue.len()
    }

    /// Takes the first message that is ready to leave.
    pub fn pop_front(&mut self) -> (msg: Option<Message<K, T>>)
        requires
            old(self).wf(),
        ensures
            final(self).wf(),
            match msg {
                Some(msg) => {
                    &&& old(self)@.fifo.len() > 0
                    &&& msg@ == old(self)@.fifo[0]
                    &&& final(self)@ == (QueueView {
                        fifo: old(self)@.fifo.drop_first(),
                        ..old(self)@
                    })
                    &&& (QueueEvent::<K, T>::PopFront).step(old(self)@, final(self)@)
                },
                None => old(self)@.fifo.len() == 0 && final(self)@ == old(self)@,
            },
    {
        let msg = self.fifo_queue.pop_front();
        assert(msg is Some ==> self@.fifo =~= old(self)@.fifo.drop_first());
        msg
    }

    /// Puts a message behind those that are ready to leave.
    pub fn push_back(&mut self, msg: Message<K, T>)
        requires
            old(self).wf(),
        ensures
            final(self).wf(),
            final(self)@ == (QueueView { fifo: old(self)@.fifo.push(msg@), ..old(self)@ }),
            (QueueEvent::PushBack { msg: msg@ }).step(old(self)@, final(self)@),
    {
        self.fifo_queue.push_back(msg);
        assert(self@.fifo =~= old(self)@.fifo.push(msg@));
    }

    /// Adds a message to the queue: it becomes active under its keys, and is
    /// ready to leave if it has no conflict.
    pub fn add_msg(&mut self, msg: Message<K, T>)
        requires
            old(self).wf(),
        ensures
            final(self).wf(),
            final(self)@ == old(self)@.with_msg(msg@),
            (QueueEvent::AddMsg { msg: msg@ }).step(old(self)@, final(self)@),
    {
        let id = msg.id();
        let mut indegree: usize = 0;
        let mut listed: HashSet<K> = HashSet::new();
        let ghost keys = msg@.keys;
        let ghost start = self@;
        for key in it: msg.keys()
            invariant
                it.seq().unref() == keys,
                self.wf(),
                id == msg@.id,
                keys == msg@.keys,
                start == old(self)@,
                self@ == (QueueView {
                    active: activate(start.active, keys.take(it.index()), id),
                    ..start
                }),
                indegree == in_degree(start.active, keys.take(it.index())),
                listed@ == keys.take(it.index()).to_set(),
        {
            let ghost seen = keys.take(it.index());
            let ghost before = *self;
            assert(*key == keys[it.index()]) by {
                assert(it.seq().unref()[it.index()] == *key);
            }
            let own = key.clone();
            assert(cloned(*key, own));
            let entry = self.active.entry(own).or_insert(IdSet::new());
            // the messages that were active under the key before
            let added = entry.insert(id);
            let total = entry.len();
            let others = if added {
                total - 1
            } else {
                total
            };
            let own = key.clone();
            assert(cloned(*key, own));
            // a key that is listed again brings no further conflict
            if listed.insert(own) {
                if let Some(new_indegree) = indegree.checked_add(others) {
                    indegree = new_indegree;
                }
            }
            proof {
                let now = keys.take(it.index() + 1);
                assert(now =~= seen.push(*key));
                assert(now.drop_last() =~= seen);
                assert(seen.push(*key).take(seen.len() as int) =~= seen);
                lemma_activate_push(start.active, seen, *key, id);
                assert(self@.active =~= before@.active.insert(
                    *key,
                    before@.active_under(*key).insert(id),
                ));
                assert(before@.active_under(*key).insert(id) =~= start.active_under(*key).insert(id));
            }
        }
        proof {
            assert(keys.take(keys.len() as int) =~= keys);
        }
        let ghost before = self@;
        if indegree == 0 {
            self.fifo_queue.push_back(msg);
            assert(self@.fifo =~= before.fifo.push(msg@));
        } else {
            let _ = self.conflict_buffer.insert(id, indegree);
            let _ = self.waiting.insert(id, msg);
        }
    }

    /// Deactivates a message under one of its keys. Returns true if any conflict
    /// has been solved, that is, if a message became ready to leave.
    pub fn deactivate(&mut self, msg_id: MSGID, key: &K) -> (solved: bool)
        requires
            old(self).wf(),
        ensures
            final(self).wf(),
            old(self)@.deactivated(final(self)@, msg_id, *key),
            (QueueEvent::Deactivate { id: msg_id, key: *key }).step(old(self)@, final(self)@),
            solved == (final(self)@.fifo.len() > old(self)@.fifo.len()),
    {
        if !self.active.contains_key(key) {
            return false;
        }
        let own = key.clone();
        assert(cloned(*key, own));
        let entry = self.active.entry(own).or_insert(IdSet::new());
        if !entry.remove(msg_id) {
            proof {
                let ids = old(self)@.active[*key];
                assert(ids.remove(msg_id) =~= ids);
                assert(self@.active =~= old(self)@.active);
            }
            return false;
        }
        let ids = entry.to_vec();
        let ghost start = self@;
        let ghost mut order: Seq<MSGID> = Seq::empty();
        let mut res = false;
        proof {
            assert(start.active =~= old(self)@.active.insert(*key, ids@.to_set()));
            assert(start =~= QueueView { active: start.active, ..old(self)@ });
            assert(ids@.take(0).to_set() =~= Set::empty());
            start.lemma_unblocked_none();
        }
        for i in 0..ids.len()
            invariant
                self.wf(),
                ids@.no_duplicates(),
                start.unblocked(self@, ids@.take(i as int).to_set(), order),
                self@.active == start.active,
                res == (order.len() > 0),
        {
            let id = ids[i];
            let ghost seen = ids@.take(i as int).to_set();
            let ghost before = self@;
            let ghost old_order = order;
            assert(!seen.contains(id));
            assert(before.buffer.contains_key(id) == start.buffer.contains_key(id));
            assert(before.buffer.contains_key(id) ==> before.buffer[id] == start.buffer[id]);
            assert(before.buffer.contains_key(id) == self.conflict_buffer@.contains_key(id));
            if let Some(indegree) = self.conflict_buffer.remove(id) {
                if indegree == 1 {
                    if let Some(msg) = self.waiting.remove(&id) {
                        self.fifo_queue.push_back(msg);
                        assert(self@.fifo =~= before.fifo.push(msg@));
                        res = true;
                        proof {
                            order = order.push(id);
                        }
                    }
                } else {
                    let mut left = indegree;
                    if let Some(new_indegree) = indegree.checked_sub(1) {
                        left = new_indegree;
                    }
                    let _ = self.conflict_buffer.insert(id, left);
                }
            }
            proof {
                assert(ids@.take(i + 1) =~= ids@.take(i as int).push(id));
                ids@.take(i as int).lemma_push_to_set_commute(id);
                if !start.buffer.contains_key(id) {
                    assert(self@.buffer =~= before.buffer);
                } else if start.buffer[id].0 == 1 {
                    assert(self@.buffer =~= before.buffer.remove(id));
                } else {
                    assert(self@.buffer =~= before.buffer.insert(id, self@.buffer[id]));
                }
                assert(self.conflict_buffer@.dom() =~= self.waiting@.dom());
                start.lemma_unblocked_next(before, self@, seen, old_order, id);
            }
        }
        proof {
            assert(ids@.take(ids@.len() as int) =~= ids@);
            assert(start.freed(ids@.to_set()) == old(self)@.freed(ids@.to_set()));
            assert(start.lowered(ids@.to_set()) =~= old(self)@.lowered(ids@.to_set()));
            assert(old(self)@.unblocked(self@, ids@.to_set(), order));
        }
        res
    }
}

} // verus!
