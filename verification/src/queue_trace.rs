//! What happens to a conflict queue, operation by operation.
use crate::channel::{MessageView, MSGID};
use crate::conflict_queue::{next_id, QueueView};
use vstd::prelude::*;

verus! {

/// Something that happens to a conflict queue.
#[verifier::reject_recursive_types(K)]
#[verifier::reject_recursive_types(T)]
pub enum QueueEvent<K, T> {
    /// A message is added.
    AddMsg { msg: MessageView<K, T> },
    /// A message is put behind those that are ready.
    PushBack { msg: MessageView<K, T> },
    /// The first message that is ready is taken.
    PopFront,
    /// A message is deactivated under a key.
    Deactivate { id: MSGID, key: K },
    /// An id is generated.
    GenerateId,
}

impl<K, T> QueueEvent<K, T> {
    /// The message that is put into the queue.
    pub open spec fn put_in(self) -> Option<MessageView<K, T>> {
        match self {
            QueueEvent::AddMsg { msg } => Some(msg),
            QueueEvent::PushBack { msg } => Some(msg),
            _ => None,
        }
    }

    /// Whether the event leads from `pre` to `post`.
    pub open spec fn step(self, pre: QueueView<K, T>, post: QueueView<K, T>) -> bool {
        match self {
            QueueEvent::AddMsg { msg } => post == pre.with_msg(msg),
            QueueEvent::PushBack { msg } => post == (QueueView { fifo: pre.fifo.push(msg), ..pre }),
            QueueEvent::PopFront => {
                &&& pre.fifo.len() > 0
                &&& post == (QueueView { fifo: pre.fifo.drop_first(), ..pre })
            },
            QueueEvent::Deactivate { id, key } => pre.deactivated(post, id, key),
            QueueEvent::GenerateId => post == (QueueView { next_id: next_id(pre.next_id), ..pre }),
        }
    }
}

/// What happens to a queue from its creation on, one event after the other.
pub open spec fn is_queue_walk<K, T>(
    queues: Seq<QueueView<K, T>>,
    events: Seq<QueueEvent<K, T>>,
) -> bool {
    &&& queues.len() == events.len() + 1
    &&& queues[0] == QueueView::<K, T>::empty()
    &&& forall|i: int|
        0 <= i < events.len() ==> (#[trigger] events[i]).step(queues[i], queues[i + 1])
}

/// How many messages the first `n` events put into the queue.
pub open spec fn put_in<K, T>(events: Seq<QueueEvent<K, T>>, n: int) -> nat
    decreases n,
{
    if n <= 0 {
        0
    } else {
        put_in(events, n - 1) + if events[n - 1].put_in() is Some {
            1nat
        } else {
            0
        }
    }
}

/// How many messages the first `n` events take out of the queue.
pub open spec fn taken_out<K, T>(events: Seq<QueueEvent<K, T>>, n: int) -> nat
    decreases n,
{
    if n <= 0 {
        0
    } else {
        taken_out(events, n - 1) + if events[n - 1] is PopFront {
            1nat
        } else {
            0
        }
    }
}

/// Whether no message that the first `n` events add has the id of one that waits.
pub open spec fn adds_new<K, T>(
    queues: Seq<QueueView<K, T>>,
    events: Seq<QueueEvent<K, T>>,
    n: int,
) -> bool {
    forall|i: int|
        0 <= i < n && #[trigger] events[i] is AddMsg ==> !queues[i].buffer.contains_key(
            events[i]->AddMsg_msg.id,
        )
}

/// Whether no two messages that the first `n` events put in have the same id.
pub open spec fn puts_distinct<K, T>(events: Seq<QueueEvent<K, T>>, n: int) -> bool {
    forall|i: int, j: int|
        #![trigger events[i], events[j]]
        0 <= i < j < n && events[i].put_in() is Some && events[j].put_in() is Some
            ==> events[i].put_in()->0.id != events[j].put_in()->0.id
}

} // verus!
