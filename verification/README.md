# malachite_store

Storage and proposal-streaming logic for a consensus application node,
written in Verus.

- `src/streaming.rs` reassembles proposals that peers stream in parts
  (`PartStreamsMap`): messages are deduplicated by sequence number, buffered
  in ascending order, and handed out as `ProposalParts` once the init part,
  the end of the stream and every announced message are in. Its proof
  functions state what reassembly guarantees, including that a complete
  stream delivered in any order yields its proposal exactly on its last
  message.
- `src/store.rs` keeps decided values, their certificates and undecided
  proposals, as encoded bytes, in redb tables (`Db`). Its table-level
  functions have exact contracts over what the tables hold. Each `Db`
  method states what it did in a transaction begun on the store's
  database: a read's result is what that read transaction's snapshot
  holds, and a write is the named tables of that write transaction taking
  the written bytes. What a later transaction sees of an earlier one's
  commit is not stated. Functions that take a decoder's outcome give the
  store's answer for undecodable bytes (absent for a decided value, a
  `Protobuf` error for a proposal).
- `src/tables.rs` holds the redb items the store relies on and the
  contracts taken for granted of them.
- `src/types.rs`, `src/txns/`, `src/block/` hold the value types.
- `app/` holds the asynchronous `Store` handle (tokio's blocking pool) and
  the error type with its display messages.
