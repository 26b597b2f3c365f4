# snmalloc_profile

Heap profiles of a sampling allocator: what was sampled, where it was
allocated, how much it stands for, and the formats that other tools read.

The library under `src/` is written in Verus. Its functions carry contracts
that are proved. What it takes from outside crates and from the standard
library without proof is marked and described where it stands. Which symbols
the running program reports for a code address is not promised; that they are
asked for at that address, and what follows from them, is.

| Module | What it holds |
| --- | --- |
| `profile` | samples, snapshots and their byte totals |
| `hotspot` | samples grouped by call site, leaf frame or stack, and ranked |
| `flamegraph` | folded stacks |
| `pprof`, `wire`, `intern`, `gzip` | pprof messages, their encoding, and their gzip form |
| `symbols` | names for code addresses |
| `load_bias` | the load address, read from a list of mappings |
| `config`, `allocator` | the sampler's configuration and state, and what the allocator reports |
| `stats_dump`, `output` | statistics as text, and the default output path |
| `joiner` | cache misses and contended lines attributed to allocation sites |
| `rate_report` | per-site counts from a log of events |
| `order`, `table`, `text` | strict orders and sorting, grouping tables, text and numerals |

Code addresses and data addresses are plain words; the library never follows
one. Wherever a result depends on the running program (names of functions, the
environment, the allocator's replies), one function takes that result as an
argument and says exactly what follows from it. A function of the library that
asks for such a result itself also says what it asks.

`app/` is ordinary Rust around the library: the allocator's C interface, files,
the environment, the process-wide caches, JSON and floating point.

Two kinds of pprof profile are written. `HeapProfile::write_pprof` describes the
live heap on the axes `inuse_objects` and `inuse_space` and states the sampling
period. The functions of module `pprof` write the same samples on the axes
`alloc_objects` and `alloc_space`.
