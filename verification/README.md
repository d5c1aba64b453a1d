# solana_validator

The decisions of a validator, verified with Verus: how it replays a ledger, which statuses of
signatures it remembers, how it names, picks and purges snapshots, how it signs and verifies, how
it retransmits packets, how it finds the nodes of a cluster, and what it fetches from which node
before it starts.

- `src/` is the library. Each public function states in its contract what it returns or changes,
  and the functions named `law_...` state what holds of several of them together. What does I/O
  is a machine that takes in what happened outside and says what to do next.
- `tests/` runs the library on examples, with small banks and ledgers where it needs some.
- `app/` is the ordinary Rust around it: the command line, files, sockets, threads, floating point
  numbers, and traits for the services of the node that a validator runs on.
