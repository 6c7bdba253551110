# sgl_interrupt

Context-interruption registry for a request scheduler, verified with Verus.

Aborts are registered by prefix of the request's id and kept until they are acknowledged or older
than a time to live. An abort of all requests interrupts those admitted before it and spares those
admitted later.

* `src/state.rs` is the model: the state of a registry and what each operation makes of it.
* `src/laws.rs` holds what the registry promises as a whole, as proof functions over the model.
* `src/inner.rs` is the table of registered aborts, `src/registry.rs` the registry that is told the
  time, `src/controller.rs` the registry with its clock, and `src/shared.rs` the registry behind a
  reader-writer lock.
* `src/reason.rs`, `src/stats.rs`, `src/text.rs` and `src/clock.rs` hold the reasons, the counters,
  facts about strings, and the clock. The clock is taken never to go back.
* `app/` holds the Python bindings.

What is trusted and not proved: that the `parking_lot` lock hands its contents to one writer or to
readers only and so puts all accesses in one order, that std's clock and `Debug` formatting do what
their names say, and what vstd says of std's strings and collections.
