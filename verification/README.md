# entmoot

A conversation-tree tracker: one branch per channel, planted by the first
message and grown by later ones; staleness computed on demand from an explicit
`now`; `tend` surfaces the branches idle past a threshold with their earliest
unpruned message; `prune` clears a branch up to a cursor under a required
disposition and keeps the decision in a history; an optional per-branch cap
evicts the oldest unpruned messages.

The library in `src/` is written in Verus and verified:

- `time.rs`: instants and spans as plain integers (nanosecond arithmetic,
  leap seconds counted as chrono counts them).
- `text.rs`: author names, message bodies and channel names, validated once
  at construction and bounded by a type invariant.
- `channel.rs`: channel ids read from and written as decimal digits, with the
  proof that writing and reading give back the same id.
- `message.rs`: messages, dispositions, prune records and errors.
- `branch.rs`: a branch, its abstract view and the operations on it
  (insertion in id order, eviction, pruning, snapshots).
- `store.rs`: the store of branches and history, with `water`, `prune`,
  `prune_latest`, `status`, `tend`, the cap, and the parts a ledger is saved
  from and restored to.
- `laws.rs`: properties across operations (the prune race, arrival-order
  independence, eviction order, save/restore round trip, ...).
- `calls.rs`: properties of every store reached from an empty one by a
  sequence of calls (consistency, append-only history, latest known ids,
  the set of branches).

`app/main.rs` is the command-line front end: argument parsing, the clock, the
JSON ledger and its atomic save, none of which the library touches.
