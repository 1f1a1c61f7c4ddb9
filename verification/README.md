# Cairn

Cairn is a content-addressed, versioned file store. This crate holds its logic as a
library that is verified with Verus: every executable function states what it returns or
changes, and the properties that span several functions are proved as public proof
functions, whose names begin with `law_`.

## The library

- `device`: the block-device interface, a scripted simulated disk that loses, tears and
  reorders writes, a media model with positions and delays on top of it, the decisions of
  a device on a file, and the commit graph as a log of checksummed records.
- `engine`: the object store on a device: chunks and manifests in an append-only log, and
  a root that is committed through two alternating slots.
- `record_log`: a simpler log of objects and roots.
- `ec`: erasure coding with six data and four parity shards over the field of 256
  elements.
- `catalog`: the commit graph in memory, the catalog of principals, collections, files
  and versions with the protocol by which a version is published, the file store on top of
  both, and the decisions of the durable catalog's transactions.
- `model`: the models of the object store and of the catalog.
- `hashing`, `bytes`, `table`, `first`: what the others share.

What a device does is described by what it holds (`contents`), by what a power loss would
leave (`durable`), by whether it carries out every request (`reliable`) and by whether it
does what it acknowledges, though it may fail or crash (`steady`). Contracts over a device
say what happens on any device, what must happen on a reliable one, and what a crash of a
steady one leaves.

Outside code is called in two places: BLAKE3 digests (`hashing`) and the composition of
names (`catalog::names`). Each of these calls stands behind a small function that names the
outside function and says what is relied on.

## Around the library

`app` holds what verification does not reach: the device on a file, the catalog in an
SQLite database, the file store shared between threads, and the serialised forms of
scripts, traces and catalog values. It reads and writes; the library decides.

`tests` runs the library on concrete values.
