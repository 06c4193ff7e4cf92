# message_transforms

Two transforms of a message proxy, verified with Verus.

- `Null` sends nothing on and answers by itself: each query with an empty response, or all that
  it is handed with a single one.
- `ParallelMap` spreads messages over copies of one chain, a round at a time, and joins what the
  chains answer, in the order of the messages or in the order in which the answers come. The
  first error of a round, once all of its chains are done, is the answer and ends the rounds.

The library decides and the caller awaits: `ParallelMap::transform` and `Run::resume` name the
requests of the next round, `Run::gather` makes one future of the round's replies, and what that
future yields goes into the next `Run::resume`.

- `src/message.rs`: messages, over any type of query, value and frame
- `src/null.rs`: `Null`
- `src/uo_futures.rs`: `UOFutures`, over the collections of the `futures` crate
- `src/parallel_map.rs`: `ParallelMap`, its configuration and its rounds
- `src/rounds.rs`: what holds of all the rounds of a transformation together
- `app/`: the transforms behind async traits
