# sp_events

An event loop that runs callbacks after a delay and when a file descriptor is ready, written in
Rust and verified with Verus.

- `src/` is the verified library. It keeps what is scheduled and attached and decides, step by
  step, what the owner of the loop is to do: run a callback, poll, or leave. `time.rs` has spans,
  readings and the clock; `readiness.rs` the events that a poll leaves behind; `registry.rs` the
  model of a loop's contents; `steps.rs` the steps of a loop; `spevents.rs` the loop itself;
  `messages.rs` what its example callbacks report and schedule; `first.rs` a smaller loop, which
  ends once nothing has come in for a while; `laws.rs` what holds of the loops' operations;
  `runs.rs` what holds over any sequence of calls.
- `app/` puts the loops on the operating system's poll and on UDP sockets.
- `tests/` runs the library on concrete values, on a simulated clock and network and on a real
  poll.
