//! A bounded channel whose messages carry keys. A message is active from the
//! moment it is sent until it is dropped; a message that shares a key with an
//! earlier active one waits inside the channel until that conflict is gone.
pub mod channel;
pub mod conflict_queue;
pub mod errors;
pub mod history;
pub mod ids;
pub mod laws;
pub mod queue_trace;
pub mod step_laws;
pub mod trace;
