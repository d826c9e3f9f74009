# omnipaxos_kv

Deadline-ordered request processing for a key-value store replicated with
OmniPaxos, with its decision logic proved against its contracts.

- `src/` is the verified library:
  - `common/kv.rs`, `common/messages.rs`: commands and messages;
  - `common/snapshot.rs`: snapshots of the key-value state that compact the
    replicated log, with the law that merging snapshots of consecutive log
    segments gives the state of the whole log, except where the later
    segment puts and then deletes a key that was present before it (that
    delete finds its key, is not recorded, and the merge keeps the older
    value);
  - `deadline.rs`: the late and release rules and the early buffer that
    holds commands in order of deadline;
  - `server.rs`: a server's decisions (slow or fast path, releases, fast-path
    quorum, leader answers), modelled as steps on `ServerView`, with the laws
    that the fast path delivers commands to the log in order of deadline
    under any clock readings, and that a client's answer goes out exactly
    once when enough followers confirm the leader's log hash, in whatever
    order the replies arrive;
  - `common/utils.rs`: the wall clock, read without panicking;
  - `client.rs`: a client's request schedule and start synchronisation.
- `app/` holds the runtime: serde forms of the types, framed TCP
  connections, the floating-point simulated clock, and the event loops that
  call the library.
- `tests/` runs the library on concrete values.
