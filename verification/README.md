# redis_rs

A small Redis-protocol server whose core is verified with Verus.

- `src/kv/`: a chained hash table (`HTab`) and a map built on two of them
  (`HMap`) that grows by progressive rehashing. Contracts speak of the values
  filed under each hash code; proof functions state what lookups find after
  insertions and removals.
- `src/resp.rs`: the RESP reader and writer. Reading is specified by
  `spec_parse`, writing by `serialize_spec`; `lemma_parse_extend` and
  `lemma_parse_own_bytes` show that a message reads the same whatever bytes
  follow it, `lemma_parse_cut` that a cut-off message reads as incomplete, and
  `lemma_read_what_was_written` that written values read back unchanged.
- `src/command.rs`: the command dispatcher (`PING`, and an error for anything else).
- `src/connection.rs`, `src/server.rs`: per-connection state, how each read or
  write outcome changes it, and answering every complete command in the input.
- `app/main.rs`: the event loop on `mio`, which performs the socket I/O and
  hands its outcomes to the library.
