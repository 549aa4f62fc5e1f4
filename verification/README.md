# its_memory

Neutral wire mirrors and the ITS activity directory: pins of pool wires,
channel coins and GDIR coins, with their registries.

The library (`src/`) is written in Verus. Every function there carries a
contract that Verus proves, apart from the few marked
`#[verifier::external_body]`, which call `hex`, `base64` or std and state what
those calls return.

- `wire`: the text formats (ITS-MEMORY-PIN/1, ITS-COIN/1, ITS-CHANNEL-COIN/2
  and /3, ITS-GDIR-RECEIPT/1, ITS-GDIR-COIN/1, ITS-MEMORY-SHARD/1) with their
  round-trip lemmas.
- `directory`, `order`: registry listing, ranking and search (stable sorts).
- `coin`, `gdir`, `witness`: minting and validating coins, quorum witnesses.
- `host`, `vault`, `store`, `mirror`, `fetch`: the host ledger, room keys,
  pins, publication markers and fetch selection.
- `pipe`, `ingest`, `pin`, `epoch_map`, `room_timelock`, `blind`: what the
  helper programs print and the decisions of the pool loops (pins, coin
  ingest with registry merge, blind shards).
- `text`, `codec`, `digest`, `error`: shared text, encoding and hashing.

`app/` holds the `its-memory` and `its-coin` command lines: files, helper
programs (`its-routing`, `its_asymmetric`, `sss_chain`), the clock and the
loops that feed the library's decisions. `tests/` exercises the library.

A channel coin's `chain_root` is link 0 of the SSS chain that `sss_chain
generate` builds from the room's root material over the payload length
rounded to whole 16-byte links; the payload bytes themselves are not handed
to the chain generator. The pins are bound to the coin by `frame_count`,
`memory_bytes` and the re-mint that `validate` performs.
