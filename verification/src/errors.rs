use std::sync::PoisonError;
use vstd::prelude::*;
use vstd::std_specs::convert::FromSpecImpl;

verus! {

/// Makes `std::sync::PoisonError`, the error of a poisoned lock, known to
/// Verus. Nothing is claimed of a value of it.
#[verifier::external_type_specification]
#[verifier::external_body]
#[verifier::reject_recursive_types(T)]
pub struct ExPoisonError<T>(PoisonError<T>);

/// Channel error definitions.
#[derive(Debug, Clone, Copy, PartialEq, Eq, Structural)]
#[non_exhaustive]
pub enum ChannelError {
    /// A sender tried to send a message to a channel without any receiver left.
    NoReceiverLeft,
    /// A receiver tried to receive a message from an empty channel without any
    /// sender left.
    NoSenderLeft,
    /// Another user of the channel's lock panicked while holding it.
    PoisonedLock,
}

impl ChannelError {
    /// The text that describes the error.
    pub open spec fn text(self) -> Seq<char> {
        match self {
            ChannelError::NoReceiverLeft => "No Receiver Left!"@,
            ChannelError::NoSenderLeft => "No Sender Left!"@,
            ChannelError::PoisonedLock => "Poisoned Lock"@,
        }
    }

    /// Describes the error to a reader.
    pub fn to_string(&self) -> (text: String)
        ensures
            text@ == self.text(),
    {
        match self {
            ChannelError::NoReceiverLeft => "No Receiver Left!".to_owned(),
            ChannelError::NoSenderLeft => "No Sender Left!".to_owned(),
            ChannelError::PoisonedLock => "Poisoned Lock".to_owned(),
        }
    }
}

impl<T> FromSpecImpl<PoisonError<T>> for ChannelError {
    open spec fn obeys_from_spec() -> bool {
        true
    }

    open spec fn from_spec(_err: PoisonError<T>) -> Self {
        ChannelError::PoisonedLock
    }
}

impl<T> From<PoisonError<T>> for ChannelError {
    fn from(_err: PoisonError<T>) -> (error: Self) {
        ChannelError::PoisonedLock
    }
}

} // verus!
