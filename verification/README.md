# kvstore

An in-memory ordered key-value store with its server and benchmark client.
The library under `src/` is written in Verus and proved against its
contracts; `app/` holds the programs around it.

- `src/key.rs`: the key orders (`String`, `u64`, fixed-size byte keys).
- `src/tree.rs`: an unbalanced binary search tree map (`TreeMap`).
- `src/btree.rs`: a B-tree map of fan-out `M` (`BTree`) and its range walk
  (`RangeIter`).
- `src/server.rs`: the request protocol: parsing a request line and
  answering it on the map.
- `src/bench.rs`: the requests of the benchmark workload.
- `src/process_handle.rs`: the errors of running the server as a child process.
- `src/bench_saver.rs`: the checksums that sign a saved benchmark result.
- `src/text.rs`: characters, white space, words and decimal numerals.
- `app/`: the server, client and benchmark programs: sockets, threads,
  files, command-line options, timing, and `TreeMap` persistence.
