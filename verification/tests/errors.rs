use mpsc_channel::errors::ChannelError;
use std::sync::PoisonError;

#[test]
fn a_poisoned_lock_is_an_error() {
    let error: ChannelError = PoisonError::new(5).into();
    assert_eq!(error, ChannelError::PoisonedLock);
}

#[test]
fn errors_describe_themselves() {
    assert_eq!(ChannelError::NoReceiverLeft.to_string(), "No Receiver Left!");
    assert_eq!(ChannelError::NoSenderLeft.to_string(), "No Sender Left!");
    assert_eq!(ChannelError::PoisonedLock.to_string(), "Poisoned Lock");
}

#[test]
fn errors_are_told_apart() {
    assert_ne!(ChannelError::NoReceiverLeft, ChannelError::NoSenderLeft);
    assert_ne!(ChannelError::NoSenderLeft, ChannelError::PoisonedLock);
}
