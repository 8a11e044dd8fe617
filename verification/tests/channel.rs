use mpsc_channel::channel::{bounded, Message, RecvStep, SendStep, Shared};
use mpsc_channel::errors::ChannelError;
use std::hash::Hash;
use std::sync::PoisonError;

/// Sends a message for which the channel has to have room; tells whether to wake up
/// the waiters.
fn send<K: Clone + Eq + Hash, T>(shared: &mut Shared<K, T>, keys: Vec<K>, t: T) -> bool {
    match shared.send(Ok(()), keys, t) {
        SendStep::Sent { notify_all } => notify_all,
        SendStep::Full { .. } => panic!("the channel is full"),
        SendStep::Refused { error, .. } => panic!("{:?}", error),
    }
}

/// Receives a message that has to be there.
fn recv<K: Clone + Eq + Hash, T>(shared: &mut Shared<K, T>) -> Message<K, T> {
    recv_and_notify(shared).0
}

/// Receives a message that has to be there; tells whether to wake up the waiters.
fn recv_and_notify<K: Clone + Eq + Hash, T>(shared: &mut Shared<K, T>) -> (Message<K, T>, bool) {
    match shared.recv(Ok(())) {
        RecvStep::Received { msg, notify_all } => (msg, notify_all),
        RecvStep::Empty => panic!("the channel is empty"),
        RecvStep::Refused(error) => panic!("{:?}", error),
    }
}

fn is_empty<K: Clone + Eq + Hash, T>(shared: &mut Shared<K, T>) -> bool {
    matches!(shared.recv(Ok(())), RecvStep::Empty)
}

#[test]
fn channel_should_work() {
    let mut shared = bounded(3);
    send(&mut shared, vec![1, 2, 3], "hello world!".to_owned());
    let msg = recv(&mut shared);
    assert_eq!(msg.content().clone(), "hello world!".to_owned());
    assert_eq!(msg.keys().copied().collect::<Vec<_>>(), vec![1, 2, 3]);
}

#[test]
fn multiple_senders_and_one_receiver_should_work() {
    let mut shared = bounded(3);
    shared.clone_sender();
    shared.clone_sender();
    assert_eq!(shared.total_senders(), 3);
    for idx in 0..3usize {
        send(&mut shared, vec![idx], idx + 1);
        assert_eq!(shared.drop_sender(), idx == 2);
    }
    let mut result = vec![
        *recv(&mut shared).content(),
        *recv(&mut shared).content(),
        *recv(&mut shared).content(),
    ];
    result.sort_unstable();
    assert_eq!(result, [1, 2, 3]);
}

#[test]
fn receiver_should_be_blocked_when_the_channel_is_empty() {
    let mut shared = bounded::<usize, usize>(10);
    shared.clone_sender();
    assert!(is_empty(&mut shared));
    for i in 0..10usize {
        assert_eq!(send(&mut shared, vec![i], i), i == 0);
    }
    for idx in 0..10usize {
        let msg = recv(&mut shared);
        assert_eq!(idx, *msg.content());
        shared.drop_message(&msg);
    }
    assert!(is_empty(&mut shared));
    for i in 10..20usize {
        send(&mut shared, vec![i], i);
    }
    for idx in 10..20usize {
        let msg = recv(&mut shared);
        assert_eq!(idx, *msg.content());
        shared.drop_message(&msg);
    }
    assert_eq!(shared.total_queued_items(), 0);
}

#[test]
fn sender_should_be_blocked_when_the_channel_is_available() {
    let mut shared = bounded(3);
    let mut cnt = 0;
    for i in 0..3 {
        send(&mut shared, vec![1, 2], i);
        cnt += 1;
    }
    let (mut keys, mut content) = match shared.send(Ok(()), vec![1, 2], 3) {
        SendStep::Full { keys, content } => (keys, content),
        _ => panic!("the channel has room"),
    };
    assert_eq!((keys.clone(), content), (vec![1, 2], 3));
    assert_eq!(3, cnt);
    for i in 0..2 {
        let (msg, notify_all) = recv_and_notify(&mut shared);
        assert!(notify_all);
        assert_eq!(i, *msg.content());
        send(&mut shared, keys, content);
        cnt += 1;
        shared.drop_message(&msg);
        match shared.send(Ok(()), vec![1, 2], 4 + i) {
            SendStep::Full { keys: k, content: c } => {
                keys = k;
                content = c;
            }
            _ => panic!("the channel has room"),
        }
    }
    assert_eq!(5, cnt);
    let msg = recv(&mut shared);
    assert_eq!(2, *msg.content());
    send(&mut shared, keys, content);
    assert_eq!(shared.total_queued_items(), 3);
}

#[test]
fn receive_error_when_the_last_sender_is_dropped() {
    let mut shared = bounded(3);
    shared.clone_sender();
    let total = shared.total_senders();
    assert_eq!(total, 2);
    for _i in 0..total {
        send(&mut shared, vec![1], "hello".to_owned());
        shared.drop_sender();
    }
    // what was sent before is still received
    for _i in 0..total {
        let msg = recv(&mut shared);
        assert_eq!(msg.content(), "hello");
        shared.drop_message(&msg);
    }
    assert!(matches!(
        shared.recv(Ok(())),
        RecvStep::Refused(ChannelError::NoSenderLeft)
    ));
}

#[test]
fn sender_get_error_when_the_receiver_is_dropped() {
    let mut shared = bounded(3);
    shared.clone_sender();
    assert!(!shared.is_closed());
    assert!(shared.drop_receiver());
    assert!(shared.is_closed());
    assert!(matches!(
        shared.send(Ok(()), vec![1], 1),
        SendStep::Refused { error: ChannelError::NoReceiverLeft, .. }
    ));
    assert!(shared.is_closed());
    assert!(matches!(
        shared.send(Ok(()), vec![1], 1),
        SendStep::Refused { error: ChannelError::NoReceiverLeft, .. }
    ));
    assert_eq!(shared.total_queued_items(), 0);
}

#[test]
fn a_blocked_receiver_should_be_waken_up_when_the_last_sender_dropped() {
    let mut shared = bounded::<i32, i32>(1);
    assert!(is_empty(&mut shared));
    assert!(shared.drop_sender());
    match shared.recv(Ok(())) {
        RecvStep::Refused(e) => assert_eq!(e, ChannelError::NoSenderLeft),
        _ => unreachable!(),
    }
}

#[test]
fn receiver_will_get_correct_sequence_when_message_conflict() {
    let mut shared = bounded(6);
    send(&mut shared, vec![1, 2, 3], "Message A".to_owned());
    send(&mut shared, vec![5, 6], "Message B".to_owned());
    send(&mut shared, vec![2, 3, 5], "Message C".to_owned());
    send(&mut shared, vec![2], "Message D".to_owned());
    send(&mut shared, vec![5], "Message E".to_owned());
    send(&mut shared, vec![1], "Message F".to_owned());

    let msg_1 = recv(&mut shared);
    let msg_2 = recv(&mut shared);
    assert_eq!(msg_1.content().clone(), "Message A".to_owned());
    assert_eq!(msg_1.keys().copied().collect::<Vec<_>>(), vec![1, 2, 3]);

    assert_eq!(msg_2.content().clone(), "Message B".to_owned());
    assert_eq!(msg_2.keys().copied().collect::<Vec<_>>(), vec![5, 6]);

    send(&mut shared, vec![7], "Message G".to_owned());
    shared.drop_message(&msg_1);
    send(&mut shared, vec![8], "Message H".to_owned());

    let msg_3 = recv(&mut shared);
    assert_eq!(msg_3.content().clone(), "Message G".to_owned());
    assert_eq!(msg_3.keys().copied().collect::<Vec<_>>(), vec![7]);

    let msg_4 = recv(&mut shared);
    assert_eq!(msg_4.content().clone(), "Message F".to_owned());
    assert_eq!(msg_4.keys().copied().collect::<Vec<_>>(), vec![1]);

    let msg_5 = recv(&mut shared);
    assert_eq!(msg_5.content().clone(), "Message H".to_owned());
    assert_eq!(msg_5.keys().copied().collect::<Vec<_>>(), vec![8]);

    shared.drop_message(&msg_2);
    let msg_6 = recv(&mut shared);
    assert_eq!(msg_6.content().clone(), "Message C".to_owned());
    assert_eq!(msg_6.keys().copied().collect::<Vec<_>>(), vec![2, 3, 5]);

    shared.drop_message(&msg_6);
    let msg_7 = recv(&mut shared);
    assert_eq!(msg_7.content().clone(), "Message D".to_owned());
    assert_eq!(msg_7.keys().copied().collect::<Vec<_>>(), vec![2]);

    let msg_8 = recv(&mut shared);
    assert_eq!(msg_8.content().clone(), "Message E".to_owned());
    assert_eq!(msg_8.keys().copied().collect::<Vec<_>>(), vec![5]);
}

#[test]
fn a_key_listed_twice_is_no_conflict() {
    let mut shared = bounded(3);
    assert!(send(&mut shared, vec![1, 1], 'a'));
    send(&mut shared, vec![1], 'b');
    send(&mut shared, vec![1, 1], 'c');
    let a = recv(&mut shared);
    assert_eq!(*a.content(), 'a');
    assert!(is_empty(&mut shared));
    // only the next one is freed, though the key is dropped twice
    assert!(shared.drop_message(&a));
    let b = recv(&mut shared);
    assert_eq!(*b.content(), 'b');
    assert!(is_empty(&mut shared));
    assert!(shared.drop_message(&b));
    assert_eq!(*recv(&mut shared).content(), 'c');
}

#[test]
fn a_message_without_a_key_is_never_in_conflict() {
    let mut shared = bounded::<u8, u8>(2);
    assert!(send(&mut shared, vec![], 1));
    assert!(!send(&mut shared, vec![], 2));
    let first = recv(&mut shared);
    assert_eq!((*first.content(), first.id()), (1, 0));
    let second = recv(&mut shared);
    assert_eq!((*second.content(), second.id()), (2, 1));
    assert!(!shared.drop_message(&first));
}

#[test]
fn conflicting_messages_come_in_the_order_sent() {
    let mut shared = bounded(5);
    for i in 0..5 {
        send(&mut shared, vec!["k"], i);
    }
    assert_eq!(shared.total_queued_items(), 5);
    for i in 0..5 {
        let msg = recv(&mut shared);
        assert_eq!(*msg.content(), i);
        // nothing else before this one is dropped
        assert!(is_empty(&mut shared));
        assert_eq!(shared.total_queued_items(), 4 - i);
        assert_eq!(shared.drop_message(&msg), i < 4);
    }
    assert!(is_empty(&mut shared));
}

#[test]
fn string_keys_work() {
    let mut shared = bounded(2);
    send(&mut shared, vec!["a".to_owned(), "b".to_owned()], 1);
    send(&mut shared, vec!["b".to_owned()], 2);
    let first = recv(&mut shared);
    assert!(is_empty(&mut shared));
    assert!(shared.drop_message(&first));
    assert_eq!(*recv(&mut shared).content(), 2);
}

#[test]
fn a_drop_wakes_up_only_a_receiver_without_a_message() {
    let mut shared = bounded(3);
    send(&mut shared, vec![1], 'a');
    send(&mut shared, vec![1], 'b');
    let a = recv(&mut shared);
    send(&mut shared, vec![2], 'c');
    // 'b' becomes ready, but 'c' was ready before
    assert!(!shared.drop_message(&a));
    assert_eq!(*recv(&mut shared).content(), 'c');
    assert_eq!(*recv(&mut shared).content(), 'b');
}

#[test]
fn a_sender_is_woken_up_only_if_the_channel_was_full() {
    let mut shared = bounded(2);
    send(&mut shared, vec![1], 1);
    send(&mut shared, vec![2], 2);
    assert!(recv_and_notify(&mut shared).1);
    assert!(!recv_and_notify(&mut shared).1);
}

#[test]
fn a_parked_message_takes_up_room() {
    let mut shared = bounded(2);
    send(&mut shared, vec![1], 'a');
    // the receiver is not woken up for a message that it cannot receive
    assert!(!send(&mut shared, vec![1], 'b'));
    let a = recv(&mut shared);
    assert!(!send(&mut shared, vec![1], 'c'));
    assert!(matches!(
        shared.send(Ok(()), vec![9], 'd'),
        SendStep::Full { content: 'd', .. }
    ));
    assert!(shared.drop_message(&a));
    assert_eq!(shared.total_queued_items(), 2);
}

#[test]
fn a_sender_that_waits_gets_an_error_when_the_receiver_is_dropped() {
    let mut shared = bounded(1);
    send(&mut shared, vec![1], 1);
    let (keys, content) = match shared.send(Ok(()), vec![2], 2) {
        SendStep::Full { keys, content } => (keys, content),
        _ => panic!("the channel has room"),
    };
    // the sender is woken up, and its message is not queued
    assert!(shared.drop_receiver());
    match shared.send(Ok(()), keys, content) {
        SendStep::Refused { error, keys, content } => {
            assert_eq!(error, ChannelError::NoReceiverLeft);
            assert_eq!((keys, content), (vec![2], 2));
        }
        _ => panic!("the channel is open"),
    }
    assert_eq!(shared.total_queued_items(), 1);
}

#[test]
fn nothing_is_sent_to_a_closed_channel_with_room() {
    let mut shared = bounded(1);
    send(&mut shared, vec![1], 1);
    assert!(matches!(shared.send(Ok(()), vec![2], 2), SendStep::Full { .. }));
    let _first = recv(&mut shared);
    shared.drop_receiver();
    assert!(matches!(
        shared.send(Ok(()), vec![2], 2),
        SendStep::Refused { error: ChannelError::NoReceiverLeft, .. }
    ));
    assert_eq!(shared.total_queued_items(), 0);
}

#[test]
fn every_sender_that_waits_is_woken_up() {
    let mut shared = bounded(3);
    for i in 0..3 {
        send(&mut shared, vec![i], i);
    }
    assert!(matches!(shared.send(Ok(()), vec![3], 3), SendStep::Full { .. }));
    assert!(matches!(shared.send(Ok(()), vec![4], 4), SendStep::Full { .. }));
    // two receives before a sender is back: the first one wakes up both senders
    assert!(recv_and_notify(&mut shared).1);
    assert!(!recv_and_notify(&mut shared).1);
    send(&mut shared, vec![3], 3);
    send(&mut shared, vec![4], 4);
    assert_eq!(shared.total_queued_items(), 3);
}

#[test]
fn messages_without_a_conflict_come_in_the_order_sent() {
    let mut shared = bounded(6);
    send(&mut shared, vec![1], 'a');
    send(&mut shared, vec![1], 'b');
    send(&mut shared, vec![2], 'c');
    send(&mut shared, vec![3], 'd');
    let a = recv(&mut shared);
    shared.drop_message(&a);
    send(&mut shared, vec![4], 'e');
    // 'b' became ready when 'a' was dropped, behind 'c' and 'd' and ahead of 'e'
    for expected in ['c', 'd', 'b', 'e'] {
        assert_eq!(*recv(&mut shared).content(), expected);
    }
}

#[test]
fn what_is_inside_is_what_was_sent_less_what_was_received() {
    let mut shared = bounded(4);
    for i in 0..4 {
        send(&mut shared, vec![i % 2], i);
        assert_eq!(shared.total_queued_items(), i + 1);
    }
    let first = recv(&mut shared);
    assert_eq!(shared.total_queued_items(), 3);
    shared.drop_message(&first);
    assert_eq!(shared.total_queued_items(), 3);
    recv(&mut shared);
    recv(&mut shared);
    assert_eq!(shared.total_queued_items(), 1);
}

#[test]
fn senders_are_counted() {
    let mut shared = bounded::<u8, u8>(1);
    assert_eq!(shared.total_senders(), 1);
    shared.clone_sender();
    assert_eq!(shared.total_senders(), 2);
    assert!(!shared.drop_sender());
    assert_eq!(shared.total_senders(), 1);
    assert!(shared.drop_sender());
    assert_eq!(shared.total_senders(), 0);
    // the counter wraps around, and a clone undoes it
    assert!(shared.drop_sender());
    assert_eq!(shared.total_senders(), usize::MAX);
    shared.clone_sender();
    assert_eq!(shared.total_senders(), 0);
}

#[test]
fn no_sender_left_though_a_message_is_parked() {
    let mut shared = bounded(2);
    send(&mut shared, vec![1], 'a');
    send(&mut shared, vec![1], 'b');
    assert!(shared.drop_sender());
    let a = recv(&mut shared);
    assert!(matches!(
        shared.recv(Ok(())),
        RecvStep::Refused(ChannelError::NoSenderLeft)
    ));
    assert!(shared.drop_message(&a));
    assert_eq!(*recv(&mut shared).content(), 'b');
}

#[test]
fn a_poisoned_lock_refuses_everything() {
    let mut shared = bounded(1);
    assert!(matches!(
        shared.send(Err(PoisonError::new(())), vec![1], 1),
        SendStep::Refused { error: ChannelError::PoisonedLock, .. }
    ));
    assert!(matches!(
        shared.send(Err(PoisonError::new(())), vec![2], 2),
        SendStep::Refused { error: ChannelError::PoisonedLock, content: 2, .. }
    ));
    assert!(matches!(
        shared.recv(Err(PoisonError::new(()))),
        RecvStep::Refused(ChannelError::PoisonedLock)
    ));
    assert_eq!(shared.total_queued_items(), 0);
    // that the receiver is gone matters more
    shared.drop_receiver();
    assert!(matches!(
        shared.send(Err(PoisonError::new(())), vec![1], 1),
        SendStep::Refused { error: ChannelError::NoReceiverLeft, .. }
    ));
}
