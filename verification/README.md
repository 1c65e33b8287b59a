# stream_shared

A shareable stream: many consumers read one underlying stream, each from its
own position. A clone starts where the stream it was cloned from stands, and
sees every item the source yields after that point, in order.

Layout:

- `src/` is the verified library.
  - `hub.rs`: `StreamHub`, the shared state behind all clones of one stream.
    It buffers the items the source has produced, keeps each consumer's
    position and size hint, hands back the wakers of consumers that waited
    for the source (when it makes progress, and when the consumer that last
    found it not ready is dropped), and keeps the active-clone count, which is
    only ever read through the hub. Its contracts state,
    for each operation, exactly what each consumer reads next and how the
    state changes; its proof functions state the invariants (the count equals
    the number of reading consumers; an item is held exactly until every
    reading consumer has passed it; each consumer is handed the source's items
    in order from where it started, and stops only after the source ended; a
    reading consumer's size hint is the source's hint after the last item it
    took, and a stopped one keeps the hint the source gave after its last
    item; so, when the source's hints are right, every consumer's hint bounds
    the items it still has to read).
  - `stats.rs`: `Stats`, the active-clone count the hub owns.
  - `count.rs`: the counting lemmas the invariants rest on.
- `app/` implements `futures_util::Stream` for `SharedStream<S>` on top of the
  hub: it holds the hub and the source behind a lock, polls the source when the
  hub asks for it, and wakes the wakers the hub hands back. Its `Stats<S>` is a
  cloneable live view that reads the count from the hub.
- `tests/` drives the hub with a simulated source.
