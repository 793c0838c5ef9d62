# Rafka

A message queue in the manner of Kafka, with its logic verified by Verus.

- **Append-only segmented log**: ordered message storage, as bytes of `.log` and
  `.index` files
- **Topics and partitions**: named streams split for parallel processing
- **Offset-based consumption**: consumers own their position; a fetch changes nothing
- **Key-based routing**: a key always leads to the same partition, in order
- **High-water mark**: consumers see committed messages only

## Layout

- `src/` is the verified library. It holds files and streams as bytes and does no
  I/O.
  - `log/index.rs`, `log/segment.rs`, `log.rs`: the storage of one partition;
    `log/names.rs` and `log/listing.rs`: the names of its files
  - `partition.rs`, `topic.rs`, `broker.rs`: the layers above it
  - `protocol.rs`: the wire format; `client.rs`: a client's requests and results
  - `bigendian.rs`, `text.rs`, `error.rs`: numbers, text and errors
- `app/` is the program around it: files, sockets, and the Node.js addon.
- `tests/` run the library.

Each data type has a view, and each operation a contract over the views. The laws
that span operations are the public proof functions whose names begin with `law_`:
what a read gives back of a write, what a restart recovers, where a key goes, what a
refused request is answered.

## How a request is served

The broker never touches the disk. For each request the program reads what
`Broker::needs` names, writes what `Broker::plan` returns, and then calls
`Broker::serve`, which answers. For some requests `Broker::serve` returns `None`, and the task of that connection
panics:

- an offset, a message count or a file size would leave 64 bits;
- a frame is met that is too short to hold its own offset;
- a message would go to a segment whose stored offsets lie below its base offset.

## Running the broker

```
rafka                              # listens on 127.0.0.1:9092, data in ./data
rafka 0.0.0.0:9092 /var/rafka-data
```
