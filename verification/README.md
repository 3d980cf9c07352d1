# Oni

An rsync-like file synchronisation tool. `src/` is a Verus library that decides: what a
manifest lists, what is planned, how a delta is made and applied, what goes over the wire.
`app/` is the program around it: it parses the command line, walks directories, opens files and
pipes, and carries out what the library decides.

## The library

| Module                   | What it holds                                                      |
| ------------------------ | ------------------------------------------------------------------ |
| `checksum`, `digest`     | Rolling checksum; BLAKE3 and SHA-256                               |
| `block`, `delta`         | Block sizes and block deltas filtered by half a checksum           |
| `strategy::fixed`        | Fixed-size blocks: signatures, recipes, replay                     |
| `chunker`, `strategy::cdc` | Content-defined chunks: signatures, decisions, rebuilding        |
| `path`, `manifest`, `plan` | Paths, inventories of files, and the plan for two inventories    |
| `session`                | Requests, the course of a local sync, and what it leaves behind    |
| `protocol`, `transport`, `internal`, `wire` | Greetings, negotiation, frames and prefaces     |
| `endpoint`, `cli`, `text`, `error` | Endpoints, options, text and errors                      |
| `engine`, `chunking`, `fs` | Session states, chunker settings and destination paths           |
| `bench`                  | Benchmark data, commands and reports                               |

Each function states what it returns or changes. The laws that span functions are public proof
functions named `lemma_...`; among them:

- a recipe, a list of chunk decisions and a list of block deltas each rebuild the source;
- a plan covers every entry once, with reason, and reaches the source's paths;
- a copy that does not fit is refused, behind everything that came before it;
- a sync leaves every file of the source in the destination, as it is in the source, as long as no
  two different chunks share a hash;
- messages, prefaces, headers and frames are read back as they were written;
- two peers come to the same agreement, on the highest version that both know.

Hashes and chunk boundaries come from `blake3`, `sha2` and `fastcdc`. The functions that call them
say in their documentation what is taken from those crates without proof.

## The program

```
oni [--delete] [--strategy auto|whole|cdc] [--chunker fastcdc|seqcdc] [--stats] <SOURCE> <DESTINATION>
oni internal serve --stdio
```

Under the name `oni-bench` it runs reproducible local benchmarks against `rsync`.
