# mpsc_channel

A bounded, multi-producer, single-consumer channel whose messages carry keys.

A message is active from the moment it is sent until it is dropped by whoever
received it. A message that has a key in common with an earlier active message is
in conflict with it: it waits inside the channel until that message is dropped.
Messages with common keys are therefore received one after the other, in the order
in which they were sent, while messages without a conflict pass them by.

## Layout

- `src/` is the library, verified with Verus.
  - `errors`: the errors of a channel.
  - `ids`: hash collections of message ids, held in `hashbrown`.
  - `conflict_queue`: the queue that parks messages in conflict and frees them.
  - `channel`: messages, and the state that the ends of a channel share. Its methods
    decide what a sender and a receiver do next, and when to wake up those that wait.
  - `history`, `trace`: what was sent, received and dropped, as a mathematical model;
    `queue_trace`: the same for a conflict queue alone.
  - `laws`: what holds of a channel at all times, such as the order of delivery.
- `app/` is the channel as threads use it: `Sender`, `Receiver` and `Message` around a
  lock and a condition variable.
- `tests/` runs the library.
