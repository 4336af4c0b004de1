# dexlock

Resolve monitor-contention source sites to the canonical lock taken at each one, by
static analysis of DEX bytecode — with the analysis proved in Verus.

A contention record says where a thread blocked (`Foo.java:1234`), not on which lock.
`dexlock` decodes the bytecode of the build, names every lock acquisition by the field
that owns the lock, and answers each site from that. Over the same model it finds binder
calls made while a lock is held, fields that are mostly but not always locked, and which
locks may be held at a line, how far away each was taken, and how locks order.

## Layout

`src/` is the verified library.

- `dex/native` decodes DEX images; `dex/archive`, `dex/apex` and `dex/zipped` take them out
  of jars, apks and APEX payloads (EROFS and ext4); `dex/input` merges what was decoded.
- `dex/extract`, `dex/inject` and `dex/acquire` name every acquisition; `dex/alias` states
  what its aliases promise. `dex/resolve` answers source lines.
- `dex/flow` solves which locks are held where; `dex/settle` and `dex/rounds` show why it
  comes to rest, and `dex/held` states what its answers promise. `dex/binder` and `dex/race`
  are the hazard passes.
- `dex/ctx` is the lock-context index: call graph, distances, witnesses, lock order,
  cycles, and its file format. `lockctx` answers and reports queries over it.
- `traces`, `csv_io`, `resolver` and `pipeline` are the table side: read observations, group
  them by build, answer their sites, write the result. `dump`, `pprof`, `proto` and `gzip`
  write the other outputs.
- `text`, `names`, `dict`, `sort`, `tally`, `graph`, `bytes` and `values` are what the rest
  stands on.

`app/` is the command line: arguments, files, unpacking, JSON.

`tests/` runs the library on images that are assembled in the tests themselves.

## What is proved

Every public function states what it gives for every input; nothing in the library panics.
The public `law_` functions state what holds of the library as a whole: that a lock's
solution is the least one, that an alias is never a guess and names the lock at the end of
its chain, that a lock is held on entry where every caller holds it, that a distance is a
shortest call path and its witness such a path, that the order graph is exactly the nested
acquisitions, that a stored index reads back and a cut one is refused, that a dump decodes
to what it was made of.

What the `csv`, `flate2` and `zip` crates do is taken on trust, in small functions that say
what they take: `csv_io::read_records` and `write_records`, `gzip::compress` and
`decompress`, and `dex/zipped`. So are five functions of the standard library on strings.
