# Gaffa

A small Kafka-like message queue whose core is written in Verus and proved
against its contracts.

- `src/` is the library: the on-disk record format with its CRC, log
  segments and their offset index, in-memory partitions and the topic
  registry, retention, the wire framing, partitioners, the broker's
  request handling, cluster metadata with in-sync replica tracking and
  leader election, consumer-group coordination and rebalancing, committed
  offsets and their file format, and the decisions of the producer and
  consumer clients. Calls into `crc32fast`, `flate2`, `snap`, `lz4_flex`,
  `uuid` and `dashmap` go through small trusted wrappers whose contracts
  are stated next to them.
- `app/` is the broker program and the network clients: sockets, files,
  tasks, timers, Prometheus metrics and the serde/bincode wire encoding.
- `tests/` exercises the library on concrete values.
