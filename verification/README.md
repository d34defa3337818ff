# kiryuu

An in-memory BitTorrent tracker. The library under `src/` is verified with
Verus; `app/` is the HTTP server around it.

- `store/`: the swarm store. Torrents by infohash (a `DashMap`), a per-stripe
  index of their keys, announces, seeding, lookups, the stale-torrent sweep,
  the cached gauges, and the work counters (`stats.rs`). `peers.rs` holds a
  torrent's peers (inline up to eight, then a hash map); `laws.rs` states
  what holds across the store's operations.
- `query.rs`: the announce query and the bencoded reply.
- `handlers.rs`: the decisions of the HTTP endpoints.
- `byte_functions/`: URL-decoding of infohashes, compact peers, redis keys.
- `blacklist.rs`: blacklist files of hex infohashes.
- `req_log.rs`: request-log rows.
