# mercury

An append-only log in the manner of Kafka: producers send logs over WebSocket, a
single writer stages them in batches of 100 and appends each batch to the current
segment, rolling over to a new segment once a segment's log file reaches 1 GiB.

Each record is `[offset][length][payload]` (little-endian `u64`s, the payload being the
log's text in bincode's standard configuration), and every 100th offset gets an
`[offset][position]` entry in the segment's sparse index. Reading an offset finds its
segment, binary-searches the index for the last entry at or before it (or starts at the
beginning of the file), and scans the records forward until one carries that offset.
When a batch does not fit in the current segment, a new segment takes the batch and its
offsets, with an index built from the batch's records.

- `src/` is the verified library: the record layout (`record`), the payload codec over
  the `bincode` crate (`codec`), segments (`segment`), the index search (`index`), the
  writer (`writer`), and the laws relating writes to reads (`logs`).
- `app/` is the server: WebSocket intake, the queue, and the file I/O.
