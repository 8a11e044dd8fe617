use mpsc_channel::channel::Message;
use mpsc_channel::conflict_queue::ConflictQueue;

fn content<T: Copy>(msg: Option<Message<u32, T>>) -> Option<T> {
    msg.map(|msg| *msg.content())
}

#[test]
fn a_new_queue_is_empty() {
    let mut queue = ConflictQueue::<u32, char>::with_capacity(4);
    assert!(queue.is_empty());
    assert_eq!(queue.len(), 0);
    assert_eq!(queue.capacity(), 0);
    assert!(queue.pop_front().is_none());
}

#[test]
fn ids_count_up_from_zero() {
    let mut queue = ConflictQueue::<u32, char>::with_capacity(1);
    for id in 0..100 {
        assert_eq!(queue.generate_id(), id);
    }
}

#[test]
fn a_message_keeps_what_it_was_made_of() {
    let msg = Message::new(vec![3, 1, 3], 'x', 42);
    assert_eq!(msg.keys().copied().collect::<Vec<u32>>(), vec![3, 1, 3]);
    assert_eq!(*msg.content(), 'x');
    assert_eq!(msg.id(), 42);
}

#[test]
fn messages_without_a_conflict_are_ready_in_order() {
    let mut queue = ConflictQueue::with_capacity(4);
    queue.add_msg(Message::new(vec![1], 'a', 0));
    queue.add_msg(Message::new(vec![2, 3], 'b', 1));
    assert_eq!(queue.len(), 2);
    assert_eq!(queue.capacity(), 2);
    assert_eq!(content(queue.pop_front()), Some('a'));
    assert_eq!(content(queue.pop_front()), Some('b'));
    assert_eq!(content(queue.pop_front()), None);
}

#[test]
fn a_conflict_is_counted_for_each_key() {
    let mut queue = ConflictQueue::with_capacity(4);
    queue.add_msg(Message::new(vec![1, 2], 'a', 0));
    queue.add_msg(Message::new(vec![1, 2], 'b', 1));
    assert_eq!(queue.len(), 1);
    assert_eq!(queue.capacity(), 2);
    assert_eq!(content(queue.pop_front()), Some('a'));
    assert!(!queue.deactivate(0, &1));
    assert!(queue.is_empty());
    assert!(queue.deactivate(0, &2));
    assert_eq!(queue.len(), 1);
    assert_eq!(queue.capacity(), 1);
    assert_eq!(content(queue.pop_front()), Some('b'));
}

#[test]
fn what_is_not_active_is_not_deactivated() {
    let mut queue = ConflictQueue::with_capacity(4);
    queue.add_msg(Message::new(vec![1], 'a', 0));
    queue.add_msg(Message::new(vec![1], 'b', 1));
    // no such key
    assert!(!queue.deactivate(0, &7));
    // no such message
    assert!(!queue.deactivate(5, &1));
    assert_eq!(queue.len(), 1);
    assert!(queue.deactivate(0, &1));
    // not active under the key any more
    assert!(!queue.deactivate(0, &1));
    assert_eq!(queue.len(), 2);
}

#[test]
fn one_of_three_is_freed() {
    let mut queue = ConflictQueue::with_capacity(4);
    for (id, name) in ['a', 'b', 'c', 'd'].into_iter().enumerate() {
        queue.add_msg(Message::new(vec![1], name, id));
    }
    assert_eq!(content(queue.pop_front()), Some('a'));
    assert!(queue.deactivate(0, &1));
    assert_eq!(queue.len(), 1);
    assert_eq!(queue.capacity(), 3);
    assert_eq!(content(queue.pop_front()), Some('b'));
    assert!(queue.deactivate(1, &1));
    assert_eq!(content(queue.pop_front()), Some('c'));
    assert!(queue.deactivate(2, &1));
    assert_eq!(content(queue.pop_front()), Some('d'));
    assert!(!queue.deactivate(3, &1));
    assert_eq!(queue.capacity(), 0);
}

#[test]
fn a_pushed_message_goes_to_the_back() {
    let mut queue = ConflictQueue::with_capacity(4);
    queue.add_msg(Message::new(vec![1], 'a', 0));
    queue.push_back(Message::new(vec![1], 'b', 1));
    assert_eq!(queue.len(), 2);
    assert_eq!(content(queue.pop_front()), Some('a'));
    assert_eq!(content(queue.pop_front()), Some('b'));
    // it was not made active
    assert!(!queue.deactivate(1, &1));
}

#[test]
fn messages_under_different_keys_are_freed_one_by_one() {
    let mut queue = ConflictQueue::with_capacity(4);
    queue.add_msg(Message::new(vec![1, 2], 'a', 0));
    queue.add_msg(Message::new(vec![2], 'b', 1));
    queue.add_msg(Message::new(vec![1], 'c', 2));
    assert_eq!(content(queue.pop_front()), Some('a'));
    assert!(queue.deactivate(0, &1));
    assert!(queue.deactivate(0, &2));
    assert_eq!(content(queue.pop_front()), Some('c'));
    assert_eq!(content(queue.pop_front()), Some('b'));
}

#[test]
fn a_message_with_the_id_of_an_active_one_is_in_conflict_with_it() {
    let mut queue = ConflictQueue::with_capacity(4);
    queue.add_msg(Message::new(vec![1], 'a', 0));
    queue.add_msg(Message::new(vec![1], 'b', 0));
    assert_eq!(queue.len(), 1);
    assert_eq!(queue.capacity(), 2);
    assert_eq!(content(queue.pop_front()), Some('a'));
    assert_eq!(content(queue.pop_front()), None);
}

#[test]
fn a_repeated_key_counts_its_conflicts_once() {
    let mut queue = ConflictQueue::with_capacity(4);
    queue.add_msg(Message::new(vec![1], 'a', 0));
    queue.add_msg(Message::new(vec![1, 1], 'b', 1));
    assert_eq!(queue.len(), 1);
    assert_eq!(queue.capacity(), 2);
    assert!(queue.deactivate(0, &1));
    assert_eq!(queue.len(), 2);
}

#[test]
fn what_is_held_is_what_was_put_in_less_what_was_taken_out() {
    let mut queue = ConflictQueue::with_capacity(1);
    queue.add_msg(Message::new(vec![1], 'a', 0));
    queue.add_msg(Message::new(vec![1], 'b', 1));
    queue.push_back(Message::new(vec![1], 'c', 2));
    assert_eq!((queue.capacity(), queue.len()), (3, 2));
    queue.pop_front();
    assert_eq!((queue.capacity(), queue.len()), (2, 1));
    queue.deactivate(0, &1);
    assert_eq!((queue.capacity(), queue.len()), (2, 2));
}
