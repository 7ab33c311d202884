# Arkel

Arkel stores objects on a pool of storage nodes. A client encrypts an object, cuts
it into shards, adds parity shards, and spreads them over nodes; a group of index
nodes keeps, by consensus, who owns which bucket and where the shards of each object
lie.

`src/` is the library, written in Rust with Verus contracts:

- `client`: encryption of shards, manifests and their signatures
- `dataplane`: erasure coding, upload and download of whole objects, placement
- `gateway`: the variant of the pipeline that encrypts shard by shard
- `index`: the replicated index: `model` says what a command does, `state` and
  `machine` do it, `laws` states what holds of it; `auth` is about signed requests,
  `remote` about talking to an index, `replies` about the bodies that come back, `log`
  about the rows of the log
- `api`, `audit`, `repair`, `storage`, `node`, `identity`, `config`, `cli`: what the
  services decide between their inputs and outputs
- `docs`: the command reference, grouped by role
- `text`, `bytes`, `order`, `table`, `codec`, `keys`, `json`: what the others build on

What the library takes from other crates (hashes, ciphers, signatures, the erasure
code, random numbers, the reading of URLs and JSON) stands behind small functions whose contracts are believed;
each says in its comment what it claims.

`app/` is the program around the library: command line, network, files, databases.
`tests/` runs the library on concrete values.
