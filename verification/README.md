# rustikv

A key-value store with two storage engines and a binary, length-prefixed wire protocol,
written and proved in Verus.

- **KV**: an index in memory over append-only segment files, with hint files for a fast start
  and a log of what was written since.
- **LSM**: a memtable that is flushed to sorted tables. The tables are merged in tiers of
  similar size or in levels.

## Layout

`src/` is the verified library. It does no input or output: a `Directory` holds the files of a
database in memory and keeps a list of the changes made to them, which the caller performs on
disk. Time is handed in with each call (`Clock`).

| Modules | Contents |
| --- | --- |
| `bytes`, `number`, `text`, `sorted_map`, `error`, `utils` | integers, decimal numbers, strings and their order, a sorted map, errors |
| `crc`, `lz77`, `bloom`, `record`, `block`, `hint`, `segment`, `wal`, `sstable` | what is on disk |
| `memtable`, `hash_index`, `directory` | what is in memory |
| `engine` | what a storage engine promises |
| `store`, `kvengine`, `db`, `recovery` | the KV engine, and what it holds when it is opened again |
| `compaction`, `size_tiered`, `levels`, `leveled` | when and how tables are merged |
| `lsm`, `lsmengine`, `reopening` | the LSM engine, and what it holds when it is opened again |
| `bffp`, `server`, `stats`, `settings`, `cli`, `bench` | the protocol, the answers of the server, its counters and settings, the client's commands, the benchmark's workload |

`tests/` runs the library. `app/` holds the programs around it: the server, the command line
client and two benchmarks, with threads, sockets, files and floating point numbers.

## What is stated

- A record, a hint file, a block, a table, a request and a response read back as they were
  written. A record in which one byte was changed is refused, unless the byte changed its
  length: then it is refused or read as one of that other length.
- What is compressed decompresses to itself, and is at most twice as long.
- A filter never denies a key that was inserted.
- Each operation of an engine is stated over its files and what it has in memory, in
  whatever order they are. Of a store in good order it is stated over the map of keys to
  values and times of expiry as well; there a compaction drops what has expired and nothing
  else, and a step of compaction changes nothing that is read.
- A store that is opened again from its files holds what it held, whatever writes, deletions
  and compactions came before. A write that was broken off in the log leaves no trace.
- The server answers a request to a store in good order as the map has it, and one to any
  other store as its files have it. It counts each request.

Three functions of the standard library are taken on trust: `String::from_utf8`,
`char::is_whitespace` and `str::to_uppercase`.
