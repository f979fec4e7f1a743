# routemap

In-memory longest-prefix-match routing tables for IPv4 and IPv6, verified with Verus.

A table maps network prefixes to values of any type. Looking up an address gives the value
of the most specific prefix that covers it. `RouteMap` is backed by a stride-4 tree bitmap:
each node resolves four address bits with two bitmaps and two arrays without gaps.

## The model

The network bits of a prefix are a `Seq<bool>`, the most significant bit first, and a table
is a `Map<Seq<bool>, V>`. Every contract speaks of these: `insert` and `remove` are the
map's, `longest_match` finds the longest key that the address begins with, and `iter` lists
the map in one fixed order. What follows from the contracts for every table is proved in
`src/laws.rs`.

## Layout

- `src/address.rs`, `src/prefix.rs`: addresses and prefixes, and the bits they stand for.
- `src/model.rs`: longest match, iteration order and collected tables, on maps.
- `src/laws.rs`: what holds of every table.
- `src/bits.rs`: bitmaps that index compact arrays, heap positions, nibbles. The contract of
  `u32::count_ones` is the one thing that is taken on trust.
- `src/treebitmap/`: `RouteMap`, its nodes, the lookup, the iteration, and what holds of
  every well-formed tree.
- `src/arena/`: `ArenaTable`, a binary trie in one vector.
- `src/node.rs`, `src/table.rs`: `IpTable`, a binary trie of boxed nodes.
- `tests/`: scenarios, properties on pseudo-random inputs, and the laws on concrete values.
- `app/`: the table on the address types of std and the prefixes of `ipnetx`, with the std
  traits of a collection; the benchmarks and the fuzz target.
