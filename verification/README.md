# mio_worker

A worker on top of mio that, in one thread, receives messages, runs timeouts
and handles I/O readiness.

- `src/` is the verified library: the first-in first-out message queue
  (`message.rs`), the store of upcoming timeouts keyed by the instant each is due, a
  `BTreeMap` (`timeout.rs`, with the three `BTreeMap` methods vstd does not
  specify behind trusted wrappers), the
  state a context shares with its worker (`context.rs`), and the worker loop
  as a state machine from state and input to the next action (`worker.rs`).
  `waker.rs` declares the outside types the library carries and the one call
  into mio it makes; the waker is held in a handle whose ghost record of wakes only the
  trusted call to `mio::Waker::wake` extends.
- `app/` holds the thread-safe `WorkerContext` handle, the `Handler` trait and
  the `Worker` that polls, calls the handler and wakes itself as the
  library's loop decides.
- `tests/` exercises the library, including the loop driven by a real mio
  poll.
