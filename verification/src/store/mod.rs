pub mod clock;
pub mod laws;
pub mod peers;
pub mod stats;
pub mod tables;

use std::time::{Duration, Instant};

use vstd::prelude::*;

use crate::keyset::{
    key_set_contains, key_set_insert, key_set_keys, key_set_len, key_set_remove, new_hasher, new_key_set,
    KeySet,
};
use crate::query;
use clock::{duration_as_secs, instant_elapsed, instant_now};
use peers::{
    live_peers, peer_key, peers_ok, pool_count, spec_is_stale, spec_peer_key, PeerMeta, Torrent,
    TorrentView, PEER_KEY_LIMIT,
};
pub use peers::{INLINE_PEER_CAP, TORRENT_TTL_SECS};
pub use stats::{SweepStats, TrackerStats, HISTOGRAM_BUCKET_UPPER_BOUNDS_NANOS};
use tables::{
    new_table, table_get_peer, table_insert, table_len, table_view_raw_counts,
    table_keys, table_remove, table_remove_if_stale, table_view_stale, torrent_table, TorrentTable,
};

verus! {

pub type InfoHash = [u8; 20];

pub type PeerId = [u8; 6];

/// Seconds for which an announced peer stays live.
pub const PEER_TTL_SECS: u32 = 60 * 31;

/// Seconds between two stripe sweeps.
pub const SWEEP_INTERVAL_SECS: u64 = 10;

/// Seconds between two recomputations of the peer and torrent gauges.
/// Must be at least the Prometheus scrape interval, so the map is walked
/// less often than it is scraped.
pub const PEER_TOTALS_REFRESH_SECS: u64 = 60;

/// Round-robin stripes: each sweep scans one stripe (the infohash's first
/// eight bytes, read little-endian, modulo the stripe count). Full coverage
/// every `SWEEP_STRIPES * SWEEP_INTERVAL_SECS` seconds.
pub const SWEEP_STRIPES: usize = 256;

/// At most this many peers of each pool in an announce reply.
pub const PEER_SAMPLE_LIMIT: usize = 50;

#[derive(Clone, Copy, Debug, PartialEq, Eq, Structural)]
pub enum PeerPool {
    Seeder,
    Leecher,
}

#[derive(Clone, Copy, Debug, PartialEq, Eq, Structural)]
pub enum AnnounceEvent {
    Unknown,
    Stopped,
    Completed,
}

pub struct AnnounceInput {
    pub info_hash: InfoHash,
    pub peer: PeerId,
    pub is_seeding: bool,
    pub event: AnnounceEvent,
}

/// The sweep stripe of an infohash. The first eight bytes read
/// little-endian modulo 256 is the first byte.
pub open spec fn spec_stripe_of(info_hash: InfoHash) -> int {
    info_hash[0] as int
}

/// The number of keys of the first `n` stripe sets.
pub open spec fn index_total(index: Seq<Set<InfoHash>>, n: int) -> nat
    decreases n,
{
    if n <= 0 {
        0
    } else {
        index_total(index, n - 1) + index[n - 1].len()
    }
}

/// The seeders (or leechers) of all torrents, expired or not.
pub open spec fn total_pool(torrents: Map<InfoHash, TorrentView>, seeders: bool) -> nat {
    pool_total_of(torrents, torrents.dom(), seeders)
}

/// The in-memory swarm store: torrents by infohash, and a per-stripe index
/// of their keys that the stale-torrent sweep walks.
pub struct TrackerStore {
    torrents: TorrentTable,
    /// Keys known to belong to each GC stripe. Maintained on create/delete so
    /// a sweep walks one stripe instead of the whole table.
    stripe_keys: Vec<KeySet>,
    epoch: Instant,
    /// Next stripe index for fair stale-torrent GC.
    sweep_stripe: usize,
    /// Cached by `refresh_peer_totals`; cheap to read for metrics.
    cached_torrent_count: usize,
    cached_seeder_count: usize,
    cached_leecher_count: usize,
    cached_stripe_index_len: usize,
    pub stats: TrackerStats,
}

impl TrackerStore {
    /// The torrents, by infohash.
    pub closed spec fn torrents(&self) -> Map<InfoHash, TorrentView> {
        torrent_table(self.torrents)
    }

    /// The stripe index: the keys recorded for each stripe.
    pub closed spec fn index(&self) -> Seq<Set<InfoHash>> {
        self.stripe_keys@.map_values(|s: KeySet| s@)
    }

    /// The work counters.
    pub closed spec fn stats_view(&self) -> TrackerStats {
        self.stats
    }

    /// The counter that picks the next stripe to sweep.
    pub closed spec fn next_stripe(&self) -> usize {
        self.sweep_stripe
    }

    /// The instant the store's clock counts seconds from.
    pub closed spec fn clock_base(&self) -> Instant {
        self.epoch
    }

    /// The cached torrent, seeder, leecher and index-size gauges.
    pub closed spec fn cached(&self) -> (usize, usize, usize, usize) {
        (
            self.cached_torrent_count,
            self.cached_seeder_count,
            self.cached_leecher_count,
            self.cached_stripe_index_len,
        )
    }

    /// The infohash is recorded in its stripe.
    pub open spec fn is_indexed(&self, info_hash: InfoHash) -> bool {
        self.index()[spec_stripe_of(info_hash)].contains(info_hash)
    }

    /// Well-formed: one key set per stripe, each finite and holding only keys
    /// of its stripe; finitely many torrents, each with well-formed peers.
    pub open spec fn wf(&self) -> bool {
        &&& self.index().len() == SWEEP_STRIPES
        &&& forall|i: int| 0 <= i < SWEEP_STRIPES ==> #[trigger] self.index()[i].finite()
        &&& forall|i: int, h: InfoHash|
            0 <= i < SWEEP_STRIPES && #[trigger] self.index()[i].contains(h) ==> spec_stripe_of(h) == i
        &&& self.torrents().dom().finite()
        &&& forall|h: InfoHash| #[trigger] self.torrents().contains_key(h) ==> peers_ok(self.torrents()[h].peers)
    }

    /// An empty store.
    pub fn new() -> (store: TrackerStore)
        ensures
            store.wf(),
            store.torrents().dom() == Set::<InfoHash>::empty(),
            forall|i: int| 0 <= i < SWEEP_STRIPES ==> #[trigger] store.index()[i] == Set::<InfoHash>::empty(),
            store.next_stripe() == 0,
            store.cached() == (0usize, 0usize, 0usize, 0usize),
            store.stats_view().is_zeroed(),
    {
        let torrents = new_table(new_hasher());
        let mut stripe_keys: Vec<KeySet> = Vec::new();
        let mut i: usize = 0;
        while i < SWEEP_STRIPES
            invariant
                i <= SWEEP_STRIPES,
                stripe_keys@.len() == i,
                forall|j: int| 0 <= j < i ==> #[trigger] stripe_keys@[j]@ == Set::<InfoHash>::empty(),
            decreases SWEEP_STRIPES - i,
        {
            stripe_keys.push(new_key_set(new_hasher()));
            i += 1;
        }
        let store = TrackerStore {
            torrents,
            stripe_keys,
            epoch: instant_now(),
            sweep_stripe: 0,
            cached_torrent_count: 0,
            cached_seeder_count: 0,
            cached_leecher_count: 0,
            cached_stripe_index_len: 0,
            stats: TrackerStats::new(),
        };
        proof {
            assert(store.torrents().dom() =~= Set::<InfoHash>::empty());
            assert forall|i: int| 0 <= i < SWEEP_STRIPES implies #[trigger] store.index()[i] == Set::<InfoHash>::empty() by {
                assert(store.index()[i] == stripe_keys@[i]@);
            }
        }
        store
    }

    /// Seconds since the store was created, as the clock reads them: the
    /// whole seconds of the time elapsed since `clock_base`.
    pub fn now_secs(&self) -> (now: u32)
        ensures
            exists|elapsed: Duration| now == #[trigger] clock_reading(elapsed),
    {
        let elapsed = instant_elapsed(&self.epoch);
        let secs = duration_as_secs(&elapsed);
        proof {
            assert(secs as u32 == clock_reading(elapsed));
        }
        secs as u32
    }

    /// The work counters.
    pub fn stats(&self) -> (stats: &TrackerStats)
        ensures
            *stats == self.stats_view(),
    {
        &self.stats
    }

    /// The sweep stripe of an infohash.
    pub fn stripe_of(info_hash: &InfoHash) -> (stripe: usize)
        ensures
            stripe == spec_stripe_of(*info_hash),
            stripe < SWEEP_STRIPES,
    {
        let (b0, b1, b2, b3, b4, b5, b6, b7) = (
            info_hash[0],
            info_hash[1],
            info_hash[2],
            info_hash[3],
            info_hash[4],
            info_hash[5],
            info_hash[6],
            info_hash[7],
        );
        let value: u64 = (b0 as u64) | ((b1 as u64) << 8) | ((b2 as u64) << 16) | ((b3 as u64)
            << 24) | ((b4 as u64) << 32) | ((b5 as u64) << 40) | ((b6 as u64) << 48) | ((b7 as u64)
            << 56);
        assert(((value as usize) % 256) == (value % 256) as usize) by (bit_vector);
        assert(((b0 as u64) | ((b1 as u64) << 8u64) | ((b2 as u64) << 16u64) | ((b3 as u64) << 24u64)
            | ((b4 as u64) << 32u64) | ((b5 as u64) << 40u64) | ((b6 as u64) << 48u64) | ((b7 as u64)
            << 56u64)) % 256 == b0 as u64) by (bit_vector);
        (value as usize) % SWEEP_STRIPES
    }
}

/// The store clock's reading once `elapsed` has passed since its base: the
/// whole seconds, cut to 32 bits.
pub open spec fn clock_reading(elapsed: Duration) -> u32 {
    (clock::duration_nanos(elapsed) / 1_000_000_000) as u32
}

/// The reading an announce or a seeding uses: the clock's, or the latest
/// that leaves room for a peer's time to live.
pub open spec fn announce_clock(elapsed: Duration) -> u32 {
    if clock_reading(elapsed) <= u32::MAX - PEER_TTL_SECS {
        clock_reading(elapsed)
    } else {
        (u32::MAX - PEER_TTL_SECS) as u32
    }
}

/// What the count changes of an announce are, as reported in its reply:
/// a stopped peer leaves its pool; a seeding peer joins the seeders unless
/// it is one already (and leaves the leechers on `Completed`); any other
/// peer joins the leechers unless it is one already.
pub open spec fn spec_count_mods(
    event: AnnounceEvent,
    is_seeding: bool,
    is_seeder: bool,
    is_leecher: bool,
) -> (int, int) {
    if event == AnnounceEvent::Stopped {
        if is_seeder {
            (-1, 0)
        } else if is_leecher {
            (0, -1)
        } else {
            (0, 0)
        }
    } else if is_seeding {
        (
            if !is_seeder { 1 } else { 0 },
            if event == AnnounceEvent::Completed && is_leecher { -1 } else { 0 },
        )
    } else if !is_leecher {
        (0, 1)
    } else {
        (0, 0)
    }
}

/// The torrent an announce (or seeding) at `now` starts from: the stored one
/// unless it is missing or stale, in which case a fresh one.
pub open spec fn start_torrent(before: Map<InfoHash, TorrentView>, info_hash: InfoHash, now: u32) -> TorrentView {
    if before.contains_key(info_hash) && !spec_is_stale(before[info_hash].last_activity, now) {
        before[info_hash]
    } else {
        TorrentView { peers: Map::empty(), last_activity: now }
    }
}

/// The store's torrents after `ensure_torrent`.
pub open spec fn ensured(before: Map<InfoHash, TorrentView>, info_hash: InfoHash, now: u32) -> Map<InfoHash, TorrentView> {
    before.insert(info_hash, start_torrent(before, info_hash, now))
}

impl TrackerStore {
    /// Neither the sweep counter, the cached gauges nor the work counters differ.
    pub open spec fn same_counters(&self, other: &TrackerStore) -> bool {
        &&& self.next_stripe() == other.next_stripe()
        &&& self.cached() == other.cached()
        &&& self.stats_view() == other.stats_view()
    }

    /// Record the infohash in its stripe.
    pub fn index_insert(&mut self, info_hash: InfoHash)
        requires
            old(self).wf(),
        ensures
            final(self).clock_base() == old(self).clock_base(),
            final(self).wf(),
            final(self).torrents() == old(self).torrents(),
            final(self).index() == old(self).index().update(
                spec_stripe_of(info_hash),
                old(self).index()[spec_stripe_of(info_hash)].insert(info_hash),
            ),
            final(self).same_counters(&*old(self)),
    {
        let stripe = Self::stripe_of(&info_hash);
        key_set_insert(&mut self.stripe_keys[stripe], info_hash);
        proof {
            assert(self.index() =~= old(self).index().update(
                spec_stripe_of(info_hash),
                old(self).index()[spec_stripe_of(info_hash)].insert(info_hash),
            ));
        }
    }

    /// Drop the infohash from its stripe.
    pub fn index_remove(&mut self, info_hash: &InfoHash)
        requires
            old(self).wf(),
        ensures
            final(self).clock_base() == old(self).clock_base(),
            final(self).wf(),
            final(self).torrents() == old(self).torrents(),
            final(self).index() == old(self).index().update(
                spec_stripe_of(*info_hash),
                old(self).index()[spec_stripe_of(*info_hash)].remove(*info_hash),
            ),
            final(self).same_counters(&*old(self)),
    {
        let stripe = Self::stripe_of(info_hash);
        key_set_remove(&mut self.stripe_keys[stripe], info_hash);
        proof {
            assert(self.index() =~= old(self).index().update(
                spec_stripe_of(*info_hash),
                old(self).index()[spec_stripe_of(*info_hash)].remove(*info_hash),
            ));
        }
    }

    /// Drop a torrent only if it is stale, then unindex it; whether it did.
    /// A torrent that is not stale keeps both its peers and its index entry,
    /// so it stays visible to later sweeps.
    pub fn remove_torrent_if_stale(&mut self, info_hash: &InfoHash, now: u32) -> (removed: bool)
        requires
            old(self).wf(),
        ensures
            final(self).clock_base() == old(self).clock_base(),
            final(self).wf(),
            removed == (old(self).torrents().contains_key(*info_hash) && spec_is_stale(
                old(self).torrents()[*info_hash].last_activity,
                now,
            )),
            removed ==> final(self).torrents() == old(self).torrents().remove(*info_hash)
                && final(self).index() == old(self).index().update(
                spec_stripe_of(*info_hash),
                old(self).index()[spec_stripe_of(*info_hash)].remove(*info_hash),
            ),
            !removed ==> final(self).torrents() == old(self).torrents() && final(self).index()
                == old(self).index(),
            final(self).same_counters(&*old(self)),
    {
        if table_remove_if_stale(&mut self.torrents, info_hash, now).is_some() {
            self.index_remove(info_hash);
            return true;
        }
        false
    }

    /// Make sure a live torrent is stored under the infohash: a stale one is
    /// replaced by a fresh one, a missing one is created and indexed.
    fn ensure_torrent(&mut self, info_hash: InfoHash, now: u32)
        requires
            old(self).wf(),
        ensures
            final(self).clock_base() == old(self).clock_base(),
            final(self).wf(),
            final(self).torrents() == ensured(old(self).torrents(), info_hash, now),
            old(self).torrents().contains_key(info_hash) ==> final(self).index() == old(self).index(),
            !old(self).torrents().contains_key(info_hash) ==> final(self).index() == old(self).index().update(
                spec_stripe_of(info_hash),
                old(self).index()[spec_stripe_of(info_hash)].insert(info_hash),
            ),
            final(self).same_counters(&*old(self)),
    {
        match table_view_stale(&self.torrents, &info_hash, now) {
            Some(stale) => {
                if stale {
                    table_insert(&mut self.torrents, info_hash, Torrent::new(now));
                } else {
                    proof {
                        assert(ensured(old(self).torrents(), info_hash, now) =~= old(self).torrents());
                    }
                }
            },
            None => {
                table_insert(&mut self.torrents, info_hash, Torrent::new(now));
                self.index_insert(info_hash);
            },
        }
    }
}

/// Whether the peer already in the swarm is a seeder, and whether it is a
/// leecher (neither when it is not there).
pub open spec fn existing_pools(peers: Map<u64, PeerMeta>, key: u64) -> (bool, bool) {
    if peers.contains_key(key) {
        (peers[key].spec_is_seeder(), !peers[key].spec_is_seeder())
    } else {
        (false, false)
    }
}

/// The count changes an announce reports, given the live peers before it.
pub open spec fn announce_mods(live: Map<u64, PeerMeta>, input: AnnounceInput) -> (int, int) {
    let (is_seeder, is_leecher) = existing_pools(live, spec_peer_key(input.peer));
    spec_count_mods(input.event, input.is_seeding, is_seeder, is_leecher)
}

/// The torrent an announce at `now` leaves behind, starting from `start`:
/// expired peers are gone, the torrent is active at `now`, and the peer is
/// removed on `Stopped` or else stored in its pool for `PEER_TTL_SECS`.
pub open spec fn announced_torrent(start: TorrentView, input: AnnounceInput, now: u32) -> TorrentView {
    let live = live_peers(start.peers, now);
    let key = spec_peer_key(input.peer);
    TorrentView {
        peers: if input.event == AnnounceEvent::Stopped {
            live.remove(key)
        } else {
            live.insert(key, PeerMeta::spec_new(input.is_seeding, (now + PEER_TTL_SECS) as u32))
        },
        last_activity: now,
    }
}

/// `sample` lists, each once, `min(limit, pool size)` live peers of the pool.
pub open spec fn is_peer_sample(
    sample: Seq<PeerId>,
    peers: Map<u64, PeerMeta>,
    now: u32,
    seeders: bool,
    limit: usize,
) -> bool {
    &&& sample.len() == vstd::math::min(limit as int, pool_count(live_peers(peers, now), seeders) as int)
    &&& forall|j: int| 0 <= j < sample.len() ==> {
        let k = #[trigger] spec_peer_key(sample[j]);
        &&& live_peers(peers, now).contains_key(k)
        &&& live_peers(peers, now)[k].spec_is_seeder() == seeders
    }
    &&& forall|a: int, b: int| 0 <= a < b < sample.len() ==> sample[a] != sample[b]
}

/// The compact peers as byte strings.
pub open spec fn peer_bytes(peers: Seq<PeerId>) -> Seq<Seq<u8>> {
    peers.map_values(|p: PeerId| p@)
}

/// An announce reply for a torrent whose live peers are `live`: their counts
/// changed by the announce's count changes, and samples of each pool.
pub open spec fn is_announce_reply(reply: Seq<u8>, live: Map<u64, PeerMeta>, input: AnnounceInput, now: u32) -> bool {
    exists|seeders: Seq<PeerId>, leechers: Seq<PeerId>|
        #[trigger] is_peer_sample(seeders, live, now, true, PEER_SAMPLE_LIMIT) && #[trigger] is_peer_sample(leechers, live, now, false, PEER_SAMPLE_LIMIT)
            && reply == query::announce_body(
            pool_count(live, true) + announce_mods(live, input).0,
            pool_count(live, false) + announce_mods(live, input).1,
            peer_bytes(seeders),
            peer_bytes(leechers),
        )
}

/// What an announce at `now` does to the store, but for its work counters:
/// the torrent is replaced by `announced_torrent` of where it starts
/// (`start_torrent`); a new infohash is indexed in its stripe; the reply is
/// an announce reply for the live peers it started from.
pub open spec fn announce_effect(
    before: TrackerStore,
    after: TrackerStore,
    input: AnnounceInput,
    now: u32,
    reply: Seq<u8>,
) -> bool {
    let start = start_torrent(before.torrents(), input.info_hash, now);
    &&& after.torrents() == before.torrents().insert(
        input.info_hash,
        announced_torrent(start, input, now),
    )
    &&& before.torrents().contains_key(input.info_hash) ==> after.index() == before.index()
    &&& !before.torrents().contains_key(input.info_hash) ==> after.index() == before.index().update(
        spec_stripe_of(input.info_hash),
        before.index()[spec_stripe_of(input.info_hash)].insert(input.info_hash),
    )
    &&& is_announce_reply(reply, live_peers(start.peers, now), input, now)
    &&& after.next_stripe() == before.next_stripe()
    &&& after.cached() == before.cached()
}

/// The work counters after the announce's own bookkeeping: one more
/// no-change announce when it changed neither count.
pub open spec fn announce_stats(before: TrackerStore, input: AnnounceInput, now: u32) -> TrackerStats {
    let live = live_peers(start_torrent(before.torrents(), input.info_hash, now).peers, now);
    if announce_mods(live, input) == (0int, 0int) {
        TrackerStats {
            nochange_count: stats::wrap_u64(before.stats_view().nochange_count, 1),
            ..before.stats_view()
        }
    } else {
        before.stats_view()
    }
}

/// What `handle_announce` does: the announce's effect at some clock reading
/// `now` that leaves room for the peer's time to live, and its work counters
/// with the announce counted, its duration being some `nanos`.
pub open spec fn announce_recorded(before: TrackerStore, after: TrackerStore, input: AnnounceInput, reply: Seq<u8>) -> bool {
    exists|now: u32|
        now + PEER_TTL_SECS <= u32::MAX && #[trigger] announce_effect(before, after, input, now, reply)
            && exists|nanos: u128|
            after.stats_view() == (TrackerStats {
                histogram_buckets: after.stats_view().histogram_buckets,
                ..#[trigger] announce_stats(before, input, now).after_announce(nanos)
            }) && after.stats_view().histogram_buckets@ == stats::histogram_after(
                announce_stats(before, input, now).histogram_buckets,
                nanos,
            )
}

/// Each compact peer as a byte vector.
fn peers_as_bytes(peers: &Vec<PeerId>) -> (out: Vec<Vec<u8>>)
    ensures
        out@.map_values(|v: Vec<u8>| v@) == peer_bytes(peers@),
{
    let mut out: Vec<Vec<u8>> = Vec::new();
    let mut i: usize = 0;
    while i < peers.len()
        invariant
            i <= peers@.len(),
            out@.len() == i,
            forall|j: int| 0 <= j < i ==> #[trigger] out@[j]@ == peers@[j]@,
        decreases peers.len() - i,
    {
        let mut bytes: Vec<u8> = Vec::new();
        let mut b: usize = 0;
        while b < 6
            invariant
                i < peers@.len(),
                b <= 6,
                bytes@ == peers@[i as int]@.take(b as int),
            decreases 6 - b,
        {
            bytes.push(peers[i][b]);
            b += 1;
            assert(bytes@ =~= peers@[i as int]@.take(b as int));
        }
        assert(peers@[i as int]@.take(6) =~= peers@[i as int]@);
        out.push(bytes);
        i += 1;
    }
    assert(out@.map_values(|v: Vec<u8>| v@) =~= peer_bytes(peers@));
    out
}

impl TrackerStore {
    /// The count changes an announce reports (see `spec_count_mods`).
    pub fn count_mods(
        event: AnnounceEvent,
        is_seeding: bool,
        is_seeder: bool,
        is_leecher: bool,
    ) -> (mods: (i64, i64))
        ensures
            (mods.0 as int, mods.1 as int) == spec_count_mods(event, is_seeding, is_seeder, is_leecher),
    {
        let mut seed_count_mod: i64 = 0;
        let mut leech_count_mod: i64 = 0;

        if event == AnnounceEvent::Stopped {
            if is_seeder {
                seed_count_mod -= 1;
            } else if is_leecher {
                leech_count_mod -= 1;
            }
        } else if is_seeding {
            if !is_seeder {
                seed_count_mod += 1;
            }
            if event == AnnounceEvent::Completed && is_leecher {
                leech_count_mod -= 1;
            }
        } else if !is_leecher {
            leech_count_mod += 1;
        }

        (seed_count_mod, leech_count_mod)
    }

    /// Apply the announce to the torrent: a stopped peer leaves (if it was
    /// there), any other is stored in its pool until `expires_at`.
    fn apply_announce(
        torrent: &mut Torrent,
        input: &AnnounceInput,
        expires_at: u32,
        is_seeder: bool,
        is_leecher: bool,
    )
        requires
            (is_seeder || is_leecher) == old(torrent)@.peers.contains_key(spec_peer_key(input.peer)),
        ensures
            final(torrent)@ == (TorrentView {
                peers: if input.event == AnnounceEvent::Stopped {
                    old(torrent)@.peers.remove(spec_peer_key(input.peer))
                } else {
                    old(torrent)@.peers.insert(spec_peer_key(input.peer), PeerMeta::spec_new(input.is_seeding, expires_at))
                },
                ..old(torrent)@
            }),
            peers_ok(final(torrent)@.peers),
    {
        let key = peer_key(&input.peer);
        if input.event == AnnounceEvent::Stopped {
            if is_seeder || is_leecher {
                torrent.remove_peer(key);
            } else {
                torrent.peer(key);
                assert(old(torrent)@.peers.remove(key) =~= old(torrent)@.peers);
            }
            return;
        }
        // Completed: replace leecher entry with seeder (one insert).
        torrent.insert_peer(key, PeerMeta::new(input.is_seeding, expires_at));
    }

    /// Handle an announce at `now` (seconds since the store's epoch) and
    /// return the bencoded reply.
    pub fn handle_announce_at(&mut self, input: AnnounceInput, now: u32) -> (reply: Vec<u8>)
        requires
            old(self).wf(),
            now + PEER_TTL_SECS <= u32::MAX,
        ensures
            final(self).clock_base() == old(self).clock_base(),
            final(self).wf(),
            announce_effect(*old(self), *final(self), input, now, reply@),
            final(self).stats_view() == announce_stats(*old(self), input, now),
    {
        let peer_ttl = PEER_TTL_SECS;
        let ghost start = start_torrent(old(self).torrents(), input.info_hash, now);
        let ghost live = live_peers(start.peers, now);

        self.ensure_torrent(input.info_hash, now);
        let ghost ensured_self = *self;

        let mut torrent = match table_remove(&mut self.torrents, &input.info_hash) {
            Some((_, torrent)) => torrent,
            None => {
                proof {
                    assert(false);
                }
                return Vec::new();
            },
        };
        torrent.touch(now);
        torrent.purge_expired(now);

        let key = peer_key(&input.peer);
        let existing = torrent.peer(key);
        let is_seeder = match existing {
            Some(meta) => meta.is_seeder(),
            None => false,
        };
        let is_leecher = match existing {
            Some(meta) => !meta.is_seeder(),
            None => false,
        };

        let (seed_count_mod, leech_count_mod) = Self::count_mods(
            input.event,
            input.is_seeding,
            is_seeder,
            is_leecher,
        );

        let (seeders_len, leechers_len) = torrent.counts(now);
        let seeders = torrent.sample(now, true, PEER_SAMPLE_LIMIT);
        let leechers = torrent.sample(now, false, PEER_SAMPLE_LIMIT);
        proof {
            assert(live_peers(live, now) =~= live);
            assert(torrent@.peers == live);
            lemma_pool_count_bounded_live(live, true);
            lemma_pool_count_bounded_live(live, false);
        }
        let seeder_bytes = peers_as_bytes(&seeders);
        let leecher_bytes = peers_as_bytes(&leechers);
        proof {
            assert(seeder_bytes@.len() == seeder_bytes@.map_values(|c: Vec<u8>| c@).len());
            assert(leecher_bytes@.len() == leecher_bytes@.map_values(|c: Vec<u8>| c@).len());
            assert(seeder_bytes@.len() <= PEER_SAMPLE_LIMIT);
            assert(leecher_bytes@.len() <= PEER_SAMPLE_LIMIT);
        }
        let final_res = query::announce_reply(
            seeders_len as i64 + seed_count_mod,
            leechers_len as i64 + leech_count_mod,
            seeder_bytes.as_slice(),
            leecher_bytes.as_slice(),
        );
        proof {
            assert(is_peer_sample(seeders@, live, now, true, PEER_SAMPLE_LIMIT));
            assert(is_peer_sample(leechers@, live, now, false, PEER_SAMPLE_LIMIT));
            assert(seeder_bytes@.map_values(|c: Vec<u8>| c@) == peer_bytes(seeders@));
            assert(leecher_bytes@.map_values(|c: Vec<u8>| c@) == peer_bytes(leechers@));
        }

        Self::apply_announce(&mut torrent, &input, now + peer_ttl, is_seeder, is_leecher);
        table_insert(&mut self.torrents, input.info_hash, torrent);

        if seed_count_mod == 0 && leech_count_mod == 0 {
            self.stats.record_nochange();
        }
        proof {
            assert(torrent@ == announced_torrent(start, input, now));
            assert(self.torrents() =~= old(self).torrents().insert(input.info_hash, announced_torrent(start, input, now)));
            assert(self.index() == ensured_self.index());
        }
        final_res
    }

    /// Handle an announce that arrived at `started`, at the store's current
    /// time, and count it in the work counters; return the bencoded reply.
    /// (A clock reading later than `u32::MAX - PEER_TTL_SECS` seconds counts
    /// as that reading.)
    pub fn handle_announce(&mut self, input: AnnounceInput, started: Instant) -> (reply: Vec<u8>)
        requires
            old(self).wf(),
        ensures
            final(self).clock_base() == old(self).clock_base(),
            final(self).wf(),
            announce_recorded(*old(self), *final(self), input, reply@),
            exists|elapsed: Duration|
                #[trigger] announce_effect(*old(self), *final(self), input, announce_clock(elapsed), reply@),
    {
        let clock = self.now_secs();
        let ghost since_base = choose|elapsed: Duration| clock == clock_reading(elapsed);
        let now = if clock <= u32::MAX - PEER_TTL_SECS {
            clock
        } else {
            u32::MAX - PEER_TTL_SECS
        };
        let ghost input_copy = input;
        let reply = self.handle_announce_at(input, now);
        let elapsed = instant_elapsed(&started);
        self.stats.record_announce(elapsed);
        proof {
            let nanos = clock::duration_nanos(elapsed);
            assert(announce_effect(*old(self), *self, input_copy, now, reply@));
            assert(now == announce_clock(since_base));
            assert(self.stats_view() == (TrackerStats {
                histogram_buckets: self.stats_view().histogram_buckets,
                ..announce_stats(*old(self), input_copy, now).after_announce(nanos)
            }));
        }
        reply
    }
}

/// Live peers come from a torrent with at most `PEER_KEY_LIMIT` peers.
proof fn lemma_pool_count_bounded_live(live: Map<u64, PeerMeta>, seeders: bool)
    requires
        peers_ok(live),
    ensures
        pool_count(live, seeders) <= PEER_KEY_LIMIT,
{
    peers::lemma_pool_count_bounded(live, seeders);
}

/// Whether the store holds the peer, live at `now`, in the pool, for a
/// torrent that is not stale at `now`.
pub open spec fn spec_peer_exists(
    torrents: Map<InfoHash, TorrentView>,
    info_hash: InfoHash,
    pool: PeerPool,
    peer: PeerId,
    now: u32,
) -> bool {
    let key = spec_peer_key(peer);
    &&& torrents.contains_key(info_hash)
    &&& !spec_is_stale(torrents[info_hash].last_activity, now)
    &&& torrents[info_hash].peers.contains_key(key)
    &&& torrents[info_hash].peers[key].spec_is_live(now)
    &&& torrents[info_hash].peers[key].spec_is_seeder() == (pool == PeerPool::Seeder)
}

/// What looking a torrent up at `now` does to the store: a stale torrent is
/// dropped and unindexed; otherwise nothing changes.
pub open spec fn lookup_effect(before: TrackerStore, after: TrackerStore, info_hash: InfoHash, now: u32) -> bool {
    let torrents = before.torrents();
    if torrents.contains_key(info_hash) && spec_is_stale(torrents[info_hash].last_activity, now) {
        &&& after.torrents() == torrents.remove(info_hash)
        &&& after.index() == before.index().update(
            spec_stripe_of(info_hash),
            before.index()[spec_stripe_of(info_hash)].remove(info_hash),
        )
    } else {
        &&& after.torrents() == torrents
        &&& after.index() == before.index()
    }
}

/// The peers after seeding `peers` into them, each with `meta`.
pub open spec fn seeded_peers(start: Map<u64, PeerMeta>, peers: Seq<PeerId>, meta: PeerMeta) -> Map<u64, PeerMeta> {
    Map::new(
        |k: u64| start.contains_key(k) || exists|j: int| 0 <= j < peers.len() && spec_peer_key(peers[j]) == k,
        |k: u64| if exists|j: int| 0 <= j < peers.len() && spec_peer_key(peers[j]) == k {
            meta
        } else {
            start[k]
        },
    )
}

impl TrackerStore {
    /// Whether the peer is live in the pool of the torrent at `now`. A stale
    /// torrent met on the way is dropped (and unindexed).
    pub fn peer_exists_at(&mut self, info_hash: InfoHash, pool: PeerPool, peer: PeerId, now: u32) -> (exists: bool)
        requires
            old(self).wf(),
        ensures
            final(self).clock_base() == old(self).clock_base(),
            final(self).wf(),
            exists == spec_peer_exists(old(self).torrents(), info_hash, pool, peer, now),
            lookup_effect(*old(self), *final(self), info_hash, now),
            final(self).same_counters(&*old(self)),
    {
        let stale = match table_view_stale(&self.torrents, &info_hash, now) {
            Some(stale) => stale,
            None => {
                return false;
            },
        };
        if stale {
            self.remove_torrent_if_stale(&info_hash, now);
            return false;
        }
        let key = peer_key(&peer);
        let meta = match table_get_peer(&self.torrents, &info_hash, key) {
            Some(Some(meta)) => meta,
            _ => {
                return false;
            },
        };
        if !meta.is_live(now) {
            return false;
        }
        match pool {
            PeerPool::Seeder => meta.is_seeder(),
            PeerPool::Leecher => !meta.is_seeder(),
        }
    }

    /// `peer_exists_at` the store's current time.
    pub fn peer_exists(&mut self, info_hash: InfoHash, pool: PeerPool, peer: PeerId) -> (exists: bool)
        requires
            old(self).wf(),
        ensures
            final(self).clock_base() == old(self).clock_base(),
            final(self).wf(),
            final(self).same_counters(&*old(self)),
            exists|now: u32|
                #[trigger] lookup_effect(*old(self), *final(self), info_hash, now)
                && exists == spec_peer_exists(old(self).torrents(), info_hash, pool, peer, now),
            exists|elapsed: Duration|
                #[trigger] lookup_effect(*old(self), *final(self), info_hash, clock_reading(elapsed))
                && exists == spec_peer_exists(old(self).torrents(), info_hash, pool, peer, clock_reading(elapsed)),
    {
        let now = self.now_secs();
        let ghost elapsed = choose|elapsed: Duration| now == clock_reading(elapsed);
        let found = self.peer_exists_at(info_hash, pool, peer, now);
        proof {
            assert(lookup_effect(*old(self), *self, info_hash, clock_reading(elapsed)));
        }
        found
    }
}

/// The torrent after seeding `peers` into the pool at `now`: it starts as an
/// announce does, is active at `now`, and each peer is stored in the pool for
/// `PEER_TTL_SECS`.
pub open spec fn seeded_torrent(
    torrents: Map<InfoHash, TorrentView>,
    info_hash: InfoHash,
    pool: PeerPool,
    peers: Seq<PeerId>,
    now: u32,
) -> TorrentView {
    TorrentView {
        peers: seeded_peers(
            start_torrent(torrents, info_hash, now).peers,
            peers,
            PeerMeta::spec_new(pool == PeerPool::Seeder, (now + PEER_TTL_SECS) as u32),
        ),
        last_activity: now,
    }
}

/// What seeding `peers` into the pool of a torrent at `now` does to the
/// store, but for its counters: the torrent becomes `seeded_torrent`, and a
/// new infohash is indexed in its stripe.
pub open spec fn seed_effect(
    before: TrackerStore,
    after: TrackerStore,
    info_hash: InfoHash,
    pool: PeerPool,
    peers: Seq<PeerId>,
    now: u32,
) -> bool {
    &&& after.torrents() == before.torrents().insert(
        info_hash,
        seeded_torrent(before.torrents(), info_hash, pool, peers, now),
    )
    &&& before.torrents().contains_key(info_hash) ==> after.index() == before.index()
    &&& !before.torrents().contains_key(info_hash) ==> after.index() == before.index().update(
        spec_stripe_of(info_hash),
        before.index()[spec_stripe_of(info_hash)].insert(info_hash),
    )
}

/// `seeded_peers` of a sequence one longer: the last peer is stored too.
proof fn lemma_seeded_peers_push(start: Map<u64, PeerMeta>, peers: Seq<PeerId>, i: int, meta: PeerMeta)
    requires
        0 <= i < peers.len(),
    ensures
        seeded_peers(start, peers.take(i + 1), meta) == seeded_peers(start, peers.take(i), meta).insert(
            spec_peer_key(peers[i]),
            meta,
        ),
{
    let next = peers.take(i + 1);
    let prev = peers.take(i);
    let key = spec_peer_key(peers[i]);
    assert forall|k: u64| #[trigger] seeded_peers(start, next, meta).contains_key(k) <==> seeded_peers(
        start,
        prev,
        meta,
    ).insert(key, meta).contains_key(k) by {
        if exists|j: int| 0 <= j < prev.len() && spec_peer_key(prev[j]) == k {
            let j = choose|j: int| 0 <= j < prev.len() && spec_peer_key(prev[j]) == k;
            assert(next[j] == prev[j]);
        }
        if k == key {
            assert(spec_peer_key(next[i]) == k);
        }
        if exists|j: int| 0 <= j < next.len() && spec_peer_key(next[j]) == k {
            let j = choose|j: int| 0 <= j < next.len() && spec_peer_key(next[j]) == k;
            if j < i {
                assert(prev[j] == next[j]);
            }
        }
    }
    assert forall|k: u64| #[trigger] seeded_peers(start, next, meta).contains_key(k) implies seeded_peers(
        start,
        next,
        meta,
    )[k] == seeded_peers(start, prev, meta).insert(key, meta)[k] by {
        if exists|j: int| 0 <= j < prev.len() && spec_peer_key(prev[j]) == k {
            let j = choose|j: int| 0 <= j < prev.len() && spec_peer_key(prev[j]) == k;
            assert(next[j] == prev[j]);
        }
        if k == key {
            assert(spec_peer_key(next[i]) == k);
        }
        if exists|j: int| 0 <= j < next.len() && spec_peer_key(next[j]) == k {
            let j = choose|j: int| 0 <= j < next.len() && spec_peer_key(next[j]) == k;
            if j < i {
                assert(prev[j] == next[j]);
            }
        }
    }
    assert(seeded_peers(start, next, meta) =~= seeded_peers(start, prev, meta).insert(key, meta));
}

impl TrackerStore {
    /// Store the peers in the pool of the torrent at `now`, each live for
    /// `PEER_TTL_SECS`, creating (or refreshing) the torrent as an announce
    /// does. Expired peers already there are left for later announces to drop.
    pub fn seed_peers_at(&mut self, info_hash: InfoHash, pool: PeerPool, peers: &[PeerId], now: u32)
        requires
            old(self).wf(),
            now + PEER_TTL_SECS <= u32::MAX,
        ensures
            final(self).clock_base() == old(self).clock_base(),
            final(self).wf(),
            seed_effect(*old(self), *final(self), info_hash, pool, peers@, now),
            final(self).same_counters(&*old(self)),
    {
        let expires_at = now + PEER_TTL_SECS;
        let is_seeder = match pool {
            PeerPool::Seeder => true,
            PeerPool::Leecher => false,
        };
        let ghost start = start_torrent(old(self).torrents(), info_hash, now);

        self.ensure_torrent(info_hash, now);
        let ghost ensured_self = *self;

        let mut torrent = match table_remove(&mut self.torrents, &info_hash) {
            Some((_, torrent)) => torrent,
            None => {
                proof {
                    assert(false);
                }
                return;
            },
        };
        torrent.touch(now);
        let meta = PeerMeta::new(is_seeder, expires_at);
        proof {
            assert(seeded_peers(start.peers, peers@.take(0), meta) =~= start.peers);
        }
        let mut i: usize = 0;
        while i < peers.len()
            invariant
                i <= peers@.len(),
                torrent@ == (TorrentView {
                    peers: seeded_peers(start.peers, peers@.take(i as int), meta),
                    last_activity: now,
                }),
                peers_ok(torrent@.peers),
            decreases peers.len() - i,
        {
            let key = peer_key(&peers[i]);
            torrent.insert_peer(key, meta);
            proof {
                lemma_seeded_peers_push(start.peers, peers@, i as int, meta);
            }
            i += 1;
        }
        proof {
            assert(peers@.take(peers@.len() as int) =~= peers@);
        }
        let ghost seeded = torrent@;
        table_insert(&mut self.torrents, info_hash, torrent);
        proof {
            assert(self.torrents() =~= old(self).torrents().insert(info_hash, seeded));
            assert(self.index() == ensured_self.index());
        }
    }

    /// `seed_peers_at` the store's current time (a reading later than
    /// `u32::MAX - PEER_TTL_SECS` seconds counts as that reading).
    pub fn seed_peers(&mut self, info_hash: InfoHash, pool: PeerPool, peers: &[PeerId])
        requires
            old(self).wf(),
        ensures
            final(self).clock_base() == old(self).clock_base(),
            final(self).wf(),
            final(self).same_counters(&*old(self)),
            exists|now: u32|
                now + PEER_TTL_SECS <= u32::MAX && #[trigger] seed_effect(*old(self), *final(self), info_hash, pool, peers@, now),
            exists|elapsed: Duration|
                #[trigger] seed_effect(*old(self), *final(self), info_hash, pool, peers@, announce_clock(elapsed)),
    {
        let clock = self.now_secs();
        let ghost elapsed = choose|elapsed: Duration| clock == clock_reading(elapsed);
        let now = if clock <= u32::MAX - PEER_TTL_SECS {
            clock
        } else {
            u32::MAX - PEER_TTL_SECS
        };
        self.seed_peers_at(info_hash, pool, peers, now);
        proof {
            assert(now == announce_clock(elapsed));
            assert(seed_effect(*old(self), *self, info_hash, pool, peers@, announce_clock(elapsed)));
        }
    }
}

/// `x`, or `usize::MAX` when it does not fit.
pub open spec fn saturated(x: int) -> usize {
    if x > usize::MAX {
        usize::MAX
    } else {
        x as usize
    }
}

/// The keys seen after one more step of a walk over distinct keys.
proof fn lemma_walk_step(keys: Seq<InfoHash>, j: int)
    requires
        keys.no_duplicates(),
        0 <= j < keys.len(),
    ensures
        keys.take(j + 1).to_set() == keys.take(j).to_set().insert(keys[j]),
        !keys.take(j).to_set().contains(keys[j]),
        keys.take(j).to_set().finite(),
{
    assert(keys.take(j + 1) =~= keys.take(j).push(keys[j]));
    keys.take(j).lemma_push_to_set_commute(keys[j]);
    if keys.take(j).to_set().contains(keys[j]) {
        let i = choose|i: int| 0 <= i < j && keys.take(j)[i] == keys[j];
        assert(keys[i] == keys[j]);
    }
    vstd::seq_lib::seq_to_set_is_finite(keys.take(j));
}

/// Whether the index records the infohash in its stripe.
pub open spec fn indexed_in(index: Seq<Set<InfoHash>>, info_hash: InfoHash) -> bool {
    index[spec_stripe_of(info_hash)].contains(info_hash)
}

/// The index with each of `keys` recorded in its stripe as well.
pub open spec fn index_with(index: Seq<Set<InfoHash>>, keys: Set<InfoHash>) -> Seq<Set<InfoHash>> {
    Seq::new(index.len(), |i: int| index[i] + keys.filter(|h: InfoHash| spec_stripe_of(h) == i))
}

/// The torrents that the index does not record.
pub open spec fn unindexed(torrents: Map<InfoHash, TorrentView>, index: Seq<Set<InfoHash>>) -> Set<InfoHash> {
    torrents.dom().filter(|h: InfoHash| !indexed_in(index, h))
}

/// What the seeders (or leechers) of a torrent add to a running total.
pub open spec fn pool_adder(torrents: Map<InfoHash, TorrentView>, seeders: bool) -> spec_fn(nat, InfoHash) -> nat {
    |acc: nat, h: InfoHash| acc + pool_count(torrents[h].peers, seeders)
}

/// The seeders (or leechers) of the torrents under `keys`, expired or not.
pub open spec fn pool_total_of(torrents: Map<InfoHash, TorrentView>, keys: Set<InfoHash>, seeders: bool) -> nat {
    keys.fold(0nat, pool_adder(torrents, seeders))
}

/// One more torrent's pool adds its count to the total.
proof fn lemma_pool_total_insert(torrents: Map<InfoHash, TorrentView>, keys: Set<InfoHash>, h: InfoHash, seeders: bool)
    requires
        keys.finite(),
        !keys.contains(h),
    ensures
        pool_total_of(torrents, keys.insert(h), seeders) == pool_total_of(torrents, keys, seeders) + pool_count(
            torrents[h].peers,
            seeders,
        ),
{
    let f = pool_adder(torrents, seeders);
    assert(vstd::set::fold::is_fun_commutative(f));
    vstd::set::fold::lemma_fold_insert(keys, 0nat, f, h);
}

impl TrackerStore {
    /// The number of torrents.
    pub fn torrent_count(&self) -> (count: usize)
        ensures
            count == self.torrents().len(),
    {
        table_len(&self.torrents)
    }

    /// The torrent, seeder and leecher gauges as `refresh_peer_totals` last
    /// cached them.
    pub fn peer_totals(&self) -> (totals: (usize, usize, usize))
        ensures
            totals == (self.cached().0, self.cached().1, self.cached().2),
    {
        (self.cached_torrent_count, self.cached_seeder_count, self.cached_leecher_count)
    }

    /// The stripe-index size as `refresh_peer_totals` last cached it; set
    /// beside `torrent_count` it shows index drift.
    pub fn stripe_index_size(&self) -> (size: usize)
        ensures
            size == self.cached().3,
    {
        self.cached_stripe_index_len
    }

    /// The number of keys over all stripes (saturating at `usize::MAX`).
    pub fn stripe_index_len(&self) -> (total: usize)
        requires
            self.wf(),
        ensures
            total == saturated(index_total(self.index(), SWEEP_STRIPES as int) as int),
    {
        let mut total: usize = 0;
        let mut i: usize = 0;
        while i < SWEEP_STRIPES
            invariant
                i <= SWEEP_STRIPES,
                self.wf(),
                total == saturated(index_total(self.index(), i as int) as int),
            decreases SWEEP_STRIPES - i,
        {
            let n = key_set_len(&self.stripe_keys[i]);
            proof {
                assert(n == self.index()[i as int].len());
            }
            total = total.saturating_add(n);
            i += 1;
        }
        total
    }

    /// Whether the infohash is recorded in its stripe.
    pub fn stripe_contains(&self, info_hash: &InfoHash) -> (found: bool)
        requires
            self.wf(),
        ensures
            found == self.is_indexed(*info_hash),
    {
        let stripe = Self::stripe_of(info_hash);
        key_set_contains(&self.stripe_keys[stripe], info_hash)
    }

    /// The number of keys that stripe `stripe` records.
    pub fn stripe_len(&self, stripe: usize) -> (count: usize)
        requires
            self.wf(),
            stripe < SWEEP_STRIPES,
        ensures
            count == self.index()[stripe as int].len(),
    {
        key_set_len(&self.stripe_keys[stripe])
    }

    /// Record every torrent in its stripe; how many were missing. A torrent
    /// that no stripe records is never swept, so this heals it.
    pub fn repair_stripe_index(&mut self) -> (repaired: usize)
        requires
            old(self).wf(),
        ensures
            final(self).clock_base() == old(self).clock_base(),
            final(self).wf(),
            final(self).torrents() == old(self).torrents(),
            final(self).index() == index_with(old(self).index(), old(self).torrents().dom()),
            repaired == unindexed(old(self).torrents(), old(self).index()).len(),
            forall|h: InfoHash| #[trigger] final(self).torrents().contains_key(h) ==> final(self).is_indexed(h),
            final(self).same_counters(&*old(self)),
    {
        let keys = table_keys(&self.torrents);
        let ghost old_index = old(self).index();
        let ghost t = old(self).torrents();
        let mut repaired: usize = 0;
        let mut j: usize = 0;
        proof {
            assert(keys@.take(0).to_set() =~= Set::<InfoHash>::empty());
            assert forall|i: int| 0 <= i < SWEEP_STRIPES implies #[trigger] index_with(old_index, Set::<InfoHash>::empty())[i] =~= old_index[i] by {
                assert(Set::<InfoHash>::empty().filter(|h: InfoHash| spec_stripe_of(h) == i) =~= Set::<InfoHash>::empty());
            }
            assert(self.index() =~= index_with(old_index, Set::<InfoHash>::empty()));
            assert(Set::<InfoHash>::empty().filter(|h: InfoHash| !indexed_in(old_index, h)) =~= Set::<InfoHash>::empty());
        }
        while j < keys.len()
            invariant
                j <= keys@.len(),
                keys@.no_duplicates(),
                keys@.to_set() == t.dom(),
                old_index == old(self).index(),
                t == old(self).torrents(),
                old(self).wf(),
                self.wf(),
                self.torrents() == t,
                self.index() == index_with(old_index, keys@.take(j as int).to_set()),
                repaired == keys@.take(j as int).to_set().filter(|h: InfoHash| !indexed_in(old_index, h)).len(),
                repaired <= j,
                self.same_counters(&*old(self)),
                self.clock_base() == old(self).clock_base(),
            decreases keys.len() - j,
        {
            let key = keys[j];
            let ghost done = keys@.take(j as int).to_set();
            proof {
                lemma_walk_step(keys@, j as int);
                done.lemma_len_filter(|h: InfoHash| !indexed_in(old_index, h));
            }
            let stripe = Self::stripe_of(&key);
            let ghost before = self.index();
            let added = key_set_insert(&mut self.stripe_keys[stripe], key);
            proof {
                let next = done.insert(key);
                assert(before[stripe as int] == old_index[stripe as int] + done.filter(|h: InfoHash| spec_stripe_of(h) == stripe));
                assert(added == !indexed_in(old_index, key));
                assert(self.index() =~= index_with(old_index, next)) by {
                    assert forall|i: int| 0 <= i < SWEEP_STRIPES implies #[trigger] self.index()[i] =~= index_with(old_index, next)[i] by {
                        if i == stripe as int {
                            assert(self.index()[i] == before[i].insert(key));
                        } else {
                            assert(self.index()[i] == before[i]);
                        }
                    }
                }
                let p = |h: InfoHash| !indexed_in(old_index, h);
                if added {
                    assert(next.filter(p) =~= done.filter(p).insert(key));
                } else {
                    assert(next.filter(p) =~= done.filter(p));
                }
                assert forall|i: int, h: InfoHash|
                    0 <= i < SWEEP_STRIPES && #[trigger] self.index()[i].contains(h) implies spec_stripe_of(h) == i by {
                    assert(self.index()[i] == index_with(old_index, next)[i]);
                    if !old_index[i].contains(h) {
                        assert(next.filter(|h: InfoHash| spec_stripe_of(h) == i).contains(h));
                    }
                }
                assert forall|i: int| 0 <= i < SWEEP_STRIPES implies #[trigger] self.index()[i].finite() by {
                    assert(self.index()[i] == index_with(old_index, next)[i]);
                    next.lemma_len_filter(|h: InfoHash| spec_stripe_of(h) == i);
                }
            }
            if added {
                repaired += 1;
            }
            j += 1;
        }
        proof {
            assert(keys@.take(keys@.len() as int) =~= keys@);
            assert forall|h: InfoHash| #[trigger] self.torrents().contains_key(h) implies self.is_indexed(h) by {
                assert(t.dom().filter(|k: InfoHash| spec_stripe_of(k) == spec_stripe_of(h)).contains(h));
            }
        }
        repaired
    }

    /// Recompute the cached gauges from the whole table: the torrent count,
    /// all seeders and leechers (expired or not) and the stripe-index size.
    /// When the index size differs from the torrent count, unindexed torrents
    /// are first put back into the index, and counted in the work counters.
    pub fn refresh_peer_totals(&mut self)
        requires
            old(self).wf(),
        ensures
            final(self).clock_base() == old(self).clock_base(),
            final(self).wf(),
            final(self).torrents() == old(self).torrents(),
            final(self).index() == (if refresh_repairs(*old(self)) {
                index_with(old(self).index(), old(self).torrents().dom())
            } else {
                old(self).index()
            }),
            refresh_repairs(*old(self)) ==> forall|h: InfoHash| #[trigger] final(self).torrents().contains_key(h)
                ==> final(self).is_indexed(h),
            final(self).cached() == (
                old(self).torrents().len() as usize,
                saturated(total_pool(old(self).torrents(), true) as int),
                saturated(total_pool(old(self).torrents(), false) as int),
                saturated(index_total(final(self).index(), SWEEP_STRIPES as int) as int),
            ),
            final(self).next_stripe() == old(self).next_stripe(),
            exists|nanos: u128| final(self).stats_view() == #[trigger] refreshed_stats(*old(self), nanos),
    {
        let started = instant_now();
        let keys = table_keys(&self.torrents);
        let ghost t = old(self).torrents();
        let ghost ks = keys@;
        let mut seeders: usize = 0;
        let mut leechers: usize = 0;
        let mut j: usize = 0;
        proof {
            assert(ks.take(0).to_set() =~= Set::<InfoHash>::empty());
            vstd::set::fold::lemma_fold_empty(0nat, pool_adder(t, true));
            vstd::set::fold::lemma_fold_empty(0nat, pool_adder(t, false));
        }
        while j < keys.len()
            invariant
                j <= ks.len(),
                ks == keys@,
                ks.no_duplicates(),
                ks.to_set() == t.dom(),
                t == torrent_table(self.torrents),
                seeders == saturated(pool_total_of(t, ks.take(j as int).to_set(), true) as int),
                leechers == saturated(pool_total_of(t, ks.take(j as int).to_set(), false) as int),
            decreases keys.len() - j,
        {
            let key = keys[j];
            proof {
                lemma_walk_step(ks, j as int);
                assert(ks.to_set().contains(key));
                lemma_pool_total_insert(t, ks.take(j as int).to_set(), key, true);
                lemma_pool_total_insert(t, ks.take(j as int).to_set(), key, false);
            }
            let (s, l) = match table_view_raw_counts(&self.torrents, &key) {
                Some(counts) => counts,
                None => {
                    proof {
                        assert(false);
                    }
                    (0, 0)
                },
            };
            seeders = seeders.saturating_add(s);
            leechers = leechers.saturating_add(l);
            j += 1;
        }
        proof {
            assert(ks.take(ks.len() as int) =~= ks);
        }
        let torrent_count = table_len(&self.torrents);
        let mut index_len = self.stripe_index_len();
        if index_len != torrent_count {
            let repaired = self.repair_stripe_index();
            if repaired > 0 {
                self.stats.record_index_repair(repaired);
                index_len = self.stripe_index_len();
            } else {
                proof {
                    assert(self.index() =~= old(self).index()) by {
                        assert forall|i: int| 0 <= i < SWEEP_STRIPES implies #[trigger] self.index()[i] =~= old(self).index()[i] by {
                            assert forall|h: InfoHash| #[trigger] self.index()[i].contains(h) implies old(self).index()[i].contains(h) by {
                                if !old(self).index()[i].contains(h) {
                                    assert(t.dom().filter(|k: InfoHash| spec_stripe_of(k) == i).contains(h));
                                    assert(unindexed(t, old(self).index()).contains(h));
                                    unindexed(t, old(self).index()).lemma_len0_is_empty();
                                }
                            }
                        }
                    }
                    assert(index_with(old(self).index(), t.dom()) == self.index());
                }
            }
        }
        self.cached_torrent_count = torrent_count;
        self.cached_seeder_count = seeders;
        self.cached_leecher_count = leechers;
        self.cached_stripe_index_len = index_len;
        let elapsed = instant_elapsed(&started);
        self.stats.record_totals_refresh(elapsed);
        proof {
            assert(self.stats_view() == refreshed_stats(*old(self), clock::duration_nanos(elapsed)));
        }
    }
}

/// Whether `refresh_peer_totals` repairs the index: its size differs from
/// the torrent count.
pub open spec fn refresh_repairs(store: TrackerStore) -> bool {
    saturated(index_total(store.index(), SWEEP_STRIPES as int) as int) != store.torrents().len()
}

/// The work counters after a peer-totals refresh that took `nanos`
/// nanoseconds: its duration, and the torrents it put back into the index.
pub open spec fn refreshed_stats(before: TrackerStore, nanos: u128) -> TrackerStats {
    TrackerStats {
        stripe_index_repaired: if refresh_repairs(before) {
            stats::wrap_u64(
                before.stats_view().stripe_index_repaired,
                unindexed(before.torrents(), before.index()).len() as u64,
            )
        } else {
            before.stats_view().stripe_index_repaired
        },
        totals_refresh_last_us: stats::clamp_u64(nanos / 1000),
        ..before.stats_view()
    }
}

/// The keys of `keys` whose torrent is stored and stale at `now`.
pub open spec fn stale_keys_in(torrents: Map<InfoHash, TorrentView>, keys: Set<InfoHash>, now: u32) -> Set<InfoHash> {
    keys.filter(|h: InfoHash| torrents.contains_key(h) && spec_is_stale(torrents[h].last_activity, now))
}

/// The keys of `keys` without a stored torrent.
pub open spec fn orphan_keys_in(torrents: Map<InfoHash, TorrentView>, keys: Set<InfoHash>) -> Set<InfoHash> {
    keys.filter(|h: InfoHash| !torrents.contains_key(h))
}

/// The keys of `keys` whose torrent is stored and not stale at `now`.
pub open spec fn kept_keys_in(torrents: Map<InfoHash, TorrentView>, keys: Set<InfoHash>, now: u32) -> Set<InfoHash> {
    keys.filter(|h: InfoHash| torrents.contains_key(h) && !spec_is_stale(torrents[h].last_activity, now))
}

/// The stripe the next sweep of the store scans.
pub open spec fn sweep_target(store: TrackerStore) -> int {
    store.next_stripe() as int % SWEEP_STRIPES as int
}

/// What one stripe sweep at `now` does to the store, but for its work
/// counters: the stale torrents the stripe records are dropped, the stripe
/// keeps only the keys of torrents that stay, the sweep counter moves on,
/// and `removed` is the number of torrents dropped.
pub open spec fn sweep_effect(before: TrackerStore, after: TrackerStore, now: u32, removed: usize) -> bool {
    let st = sweep_target(before);
    let keys = before.index()[st];
    let stale = stale_keys_in(before.torrents(), keys, now);
    &&& after.torrents() == before.torrents().remove_keys(stale)
    &&& after.index() == before.index().update(st, kept_keys_in(before.torrents(), keys, now))
    &&& removed == stale.len()
    &&& after.next_stripe() == vstd::wrapping::usize_specs::wrapping_add(before.next_stripe(), 1)
    &&& after.cached() == before.cached()
}

/// The work counters after a stripe sweep at `now` that took `nanos`
/// nanoseconds.
pub open spec fn swept_stats(before: TrackerStore, now: u32, nanos: u128) -> TrackerStats {
    let keys = before.index()[sweep_target(before)];
    before.stats_view().after_sweep(
        nanos,
        keys.len() as usize,
        stale_keys_in(before.torrents(), keys, now).len() as usize,
        orphan_keys_in(before.torrents(), keys).len() as usize,
    )
}

/// Appending a key not yet listed keeps the keys distinct.
proof fn lemma_push_fresh(keys: Seq<InfoHash>, key: InfoHash)
    requires
        keys.no_duplicates(),
        !keys.to_set().contains(key),
    ensures
        keys.push(key).no_duplicates(),
        keys.push(key).to_set() == keys.to_set().insert(key),
{
    keys.lemma_push_to_set_commute(key);
    assert forall|a: int, b: int| 0 <= a < b < keys.push(key).len() implies keys.push(key)[a] != keys.push(key)[b] by {
        if b == keys.len() {
            assert(keys.contains(keys[a]));
        }
    }
}

impl TrackerStore {
    /// Split the keys into those of stale torrents and those without a
    /// torrent, as the table stands.
    fn classify_keys(&self, keys: &Vec<InfoHash>, now: u32) -> (split: (Vec<InfoHash>, Vec<InfoHash>))
        requires
            keys@.no_duplicates(),
        ensures
            split.0@.no_duplicates(),
            split.0@.to_set() == stale_keys_in(self.torrents(), keys@.to_set(), now),
            split.1@.no_duplicates(),
            split.1@.to_set() == orphan_keys_in(self.torrents(), keys@.to_set()),
    {
        let ghost t = self.torrents();
        let mut stale: Vec<InfoHash> = Vec::new();
        let mut orphans: Vec<InfoHash> = Vec::new();
        let mut j: usize = 0;
        proof {
            assert(keys@.take(0).to_set() =~= Set::<InfoHash>::empty());
            assert(stale@.to_set() =~= Set::<InfoHash>::empty());
            assert(stale_keys_in(t, Set::<InfoHash>::empty(), now) =~= Set::<InfoHash>::empty());
            assert(orphan_keys_in(t, Set::<InfoHash>::empty()) =~= Set::<InfoHash>::empty());
        }
        while j < keys.len()
            invariant
                j <= keys@.len(),
                keys@.no_duplicates(),
                t == self.torrents(),
                stale@.no_duplicates(),
                orphans@.no_duplicates(),
                stale@.to_set() == stale_keys_in(t, keys@.take(j as int).to_set(), now),
                orphans@.to_set() == orphan_keys_in(t, keys@.take(j as int).to_set()),
            decreases keys.len() - j,
        {
            let key = keys[j];
            let ghost done = keys@.take(j as int).to_set();
            proof {
                lemma_walk_step(keys@, j as int);
            }
            match table_view_stale(&self.torrents, &key, now) {
                None => {
                    proof {
                        lemma_push_fresh(orphans@, key);
                    }
                    orphans.push(key);
                },
                Some(is_stale) => {
                    if is_stale {
                        proof {
                            lemma_push_fresh(stale@, key);
                        }
                        stale.push(key);
                    }
                },
            }
            proof {
                assert(stale@.to_set() =~= stale_keys_in(t, done.insert(key), now));
                assert(orphans@.to_set() =~= orphan_keys_in(t, done.insert(key)));
            }
            j += 1;
        }
        proof {
            assert(keys@.take(keys@.len() as int) =~= keys@);
        }
        (stale, orphans)
    }

    /// Sweep the next stripe at `now`: drop the stale torrents it records
    /// and the keys it records without a torrent; return how many torrents
    /// were dropped. Successive calls rotate over all stripes.
    pub fn sweep_stale_torrents_at(&mut self, now: u32) -> (removed: usize)
        requires
            old(self).wf(),
        ensures
            final(self).clock_base() == old(self).clock_base(),
            final(self).wf(),
            sweep_effect(*old(self), *final(self), now, removed),
            exists|nanos: u128| final(self).stats_view() == #[trigger] swept_stats(*old(self), now, nanos),
    {
        let started = instant_now();
        let stripe = self.sweep_stripe % SWEEP_STRIPES;
        self.sweep_stripe = self.sweep_stripe.wrapping_add(1);
        let ghost mid = *self;
        let ghost t = old(self).torrents();
        let ghost idx = old(self).index();
        let ghost keys_set = idx[stripe as int];

        let keys = key_set_keys(&self.stripe_keys[stripe]);
        let visited = keys.len();
        let (stale_keys, orphan_keys) = self.classify_keys(&keys, now);
        let ghost stale_set = stale_keys@.to_set();
        let ghost orphan_set = orphan_keys@.to_set();

        let orphans = orphan_keys.len();
        let mut m: usize = 0;
        proof {
            assert(orphan_keys@.take(0).to_set() =~= Set::<InfoHash>::empty());
            assert(keys_set.difference(Set::<InfoHash>::empty()) =~= keys_set);
            assert(idx.update(stripe as int, keys_set) =~= idx);
        }
        while m < orphan_keys.len()
            invariant
                m <= orphan_keys@.len(),
                orphan_keys@.no_duplicates(),
                orphan_set == orphan_keys@.to_set(),
                orphan_set == orphan_keys_in(t, keys_set),
                stripe < SWEEP_STRIPES,
                keys_set == idx[stripe as int],
                old(self).wf(),
                idx == old(self).index(),
                self.wf(),
                self.torrents() == t,
                self.index() == idx.update(stripe as int, keys_set.difference(orphan_keys@.take(m as int).to_set())),
                self.same_counters(&mid),
                self.clock_base() == old(self).clock_base(),
            decreases orphan_keys.len() - m,
        {
            let key = orphan_keys[m];
            proof {
                lemma_walk_step(orphan_keys@, m as int);
                assert(orphan_keys@.to_set().contains(key));
                assert(spec_stripe_of(key) == stripe);
            }
            self.index_remove(&key);
            proof {
                assert(keys_set.difference(orphan_keys@.take(m + 1).to_set()) =~= keys_set.difference(
                    orphan_keys@.take(m as int).to_set(),
                ).remove(key));
            }
            m += 1;
        }
        proof {
            assert(orphan_keys@.take(orphan_keys@.len() as int) =~= orphan_keys@);
            assert(t.remove_keys(Set::<InfoHash>::empty()) =~= t);
            assert(stale_keys@.take(0).to_set() =~= Set::<InfoHash>::empty());
            assert(keys_set.difference(orphan_set).difference(Set::<InfoHash>::empty()) =~= keys_set.difference(orphan_set));
        }
        let mut removed: usize = 0;
        let mut n: usize = 0;
        while n < stale_keys.len()
            invariant
                n <= stale_keys@.len(),
                stale_keys@.no_duplicates(),
                stale_set == stale_keys@.to_set(),
                stale_set == stale_keys_in(t, keys_set, now),
                stripe < SWEEP_STRIPES,
                keys_set == idx[stripe as int],
                old(self).wf(),
                idx == old(self).index(),
                t == old(self).torrents(),
                self.wf(),
                self.torrents() == t.remove_keys(stale_keys@.take(n as int).to_set()),
                self.index() == idx.update(
                    stripe as int,
                    keys_set.difference(orphan_set).difference(stale_keys@.take(n as int).to_set()),
                ),
                removed == n,
                self.same_counters(&mid),
                self.clock_base() == old(self).clock_base(),
            decreases stale_keys.len() - n,
        {
            let key = stale_keys[n];
            let ghost done = stale_keys@.take(n as int).to_set();
            proof {
                lemma_walk_step(stale_keys@, n as int);
                assert(stale_keys@.to_set().contains(key));
                assert(spec_stripe_of(key) == stripe);
                assert(self.torrents().contains_key(key));
                assert(self.torrents()[key] == t[key]);
            }
            let dropped = self.remove_torrent_if_stale(&key, now);
            proof {
                assert(dropped);
                assert(self.torrents() =~= t.remove_keys(done.insert(key)));
                assert(keys_set.difference(orphan_set).difference(done.insert(key)) =~= keys_set.difference(
                    orphan_set,
                ).difference(done).remove(key));
            }
            if dropped {
                removed += 1;
            }
            n += 1;
        }
        proof {
            assert(stale_keys@.take(stale_keys@.len() as int) =~= stale_keys@);
            assert(keys_set.difference(orphan_set).difference(stale_set) =~= kept_keys_in(t, keys_set, now));
            stale_keys@.unique_seq_to_set();
            keys@.unique_seq_to_set();
            orphan_keys@.unique_seq_to_set();
        }
        let elapsed = instant_elapsed(&started);
        self.stats.record_sweep(elapsed, visited, removed, orphans);
        proof {
            assert(self.stats_view() == swept_stats(*old(self), now, clock::duration_nanos(elapsed)));
        }
        removed
    }
}

/// Whether stripe `i` comes among the first `k` stripes of a rotation that
/// starts at stripe `first`.
pub open spec fn in_rotation(first: int, k: int, i: int) -> bool {
    (i - first) % (SWEEP_STRIPES as int) < k
}

/// The torrents that the index records and that are stale at `now`, in the
/// stripes for which `in_stripes` holds.
pub open spec fn stale_indexed(
    torrents: Map<InfoHash, TorrentView>,
    index: Seq<Set<InfoHash>>,
    now: u32,
    in_stripes: spec_fn(int) -> bool,
) -> Set<InfoHash> {
    Set::new(
        |h: InfoHash|
            in_stripes(spec_stripe_of(h)) && indexed_in(index, h) && torrents.contains_key(h) && spec_is_stale(
                torrents[h].last_activity,
                now,
            ),
    )
}

/// The torrents that the index records and that are stale at `now`.
pub open spec fn stale_in_index(torrents: Map<InfoHash, TorrentView>, index: Seq<Set<InfoHash>>, now: u32) -> Set<InfoHash> {
    stale_indexed(torrents, index, now, |i: int| true)
}

/// What sweeping every stripe once at `now` does to the torrents and the
/// index: the stale torrents the index records are dropped (`removed` of
/// them), and each stripe keeps only the keys of torrents that stay.
pub open spec fn full_sweep_effect(before: TrackerStore, after: TrackerStore, now: u32, removed: usize) -> bool {
    &&& after.torrents() == before.torrents().remove_keys(stale_in_index(before.torrents(), before.index(), now))
    &&& forall|i: int|
        0 <= i < SWEEP_STRIPES ==> #[trigger] after.index()[i] == kept_keys_in(before.torrents(), before.index()[i], now)
    &&& removed == stale_in_index(before.torrents(), before.index(), now).len()
}

/// The sweep counters aside, two sets of work counters agree.
pub open spec fn same_but_sweeps(a: TrackerStats, b: TrackerStats) -> bool {
    &&& a.announce_count == b.announce_count
    &&& a.nochange_count == b.nochange_count
    &&& a.cache_hit_count == b.cache_hit_count
    &&& a.req_duration_sum_ms == b.req_duration_sum_ms
    &&& a.req_duration_sum_us == b.req_duration_sum_us
    &&& a.histogram_buckets == b.histogram_buckets
    &&& a.histogram_sum_us == b.histogram_sum_us
    &&& a.histogram_count == b.histogram_count
    &&& a.stripe_index_repaired == b.stripe_index_repaired
    &&& a.totals_refresh_last_us == b.totals_refresh_last_us
}

/// One more stripe of a rotation: the stripe `(first + k) % 256` joins,
/// and its stale torrents join the ones already swept.
proof fn lemma_rotation_grow(
    t: Map<InfoHash, TorrentView>,
    idx: Seq<Set<InfoHash>>,
    now: u32,
    first: int,
    k: int,
)
    requires
        0 <= first < SWEEP_STRIPES,
        0 <= k < SWEEP_STRIPES,
        idx.len() == SWEEP_STRIPES,
        forall|i: int, h: InfoHash|
            0 <= i < SWEEP_STRIPES && #[trigger] idx[i].contains(h) ==> spec_stripe_of(h) == i,
        t.dom().finite(),
    ensures
        forall|i: int|
            0 <= i < SWEEP_STRIPES ==> #[trigger] in_rotation(first, k + 1, i) == (in_rotation(first, k, i) || i
                == (first + k) % SWEEP_STRIPES as int),
        !in_rotation(first, k, (first + k) % SWEEP_STRIPES as int),
        stale_indexed(t, idx, now, |i: int| in_rotation(first, k + 1, i)) == stale_indexed(
            t,
            idx,
            now,
            |i: int| in_rotation(first, k, i),
        ) + stale_keys_in(t, idx[(first + k) % SWEEP_STRIPES as int], now),
        stale_indexed(t, idx, now, |i: int| in_rotation(first, k + 1, i)).len() == stale_indexed(
            t,
            idx,
            now,
            |i: int| in_rotation(first, k, i),
        ).len() + stale_keys_in(t, idx[(first + k) % SWEEP_STRIPES as int], now).len(),
        stale_indexed(t, idx, now, |i: int| in_rotation(first, k + 1, i)).subset_of(t.dom()),
{
    let st = (first + k) % 256;
    assert forall|i: int|
        0 <= i < SWEEP_STRIPES implies #[trigger] in_rotation(first, k + 1, i) == (in_rotation(first, k, i) || i
            == st) by {
        if i >= first {
            assert((i - first) % 256 == i - first);
        } else {
            assert((i - first) % 256 == i - first + 256);
        }
        if first + k < 256 {
            assert(st == first + k);
        } else {
            assert(st == first + k - 256);
        }
    }
    if first + k < 256 {
        assert(st == first + k);
        assert((st - first) % 256 == k);
    } else {
        assert(st == first + k - 256);
        assert((st - first) % 256 == k);
    }
    let done = stale_indexed(t, idx, now, |i: int| in_rotation(first, k, i));
    let next = stale_indexed(t, idx, now, |i: int| in_rotation(first, k + 1, i));
    let step = stale_keys_in(t, idx[st], now);
    assert(next =~= done + step) by {
        assert forall|h: InfoHash| #[trigger] step.contains(h) implies spec_stripe_of(h) == st by {}
    }
    assert(done.disjoint(step)) by {
        assert forall|h: InfoHash| #[trigger] step.contains(h) implies spec_stripe_of(h) == st by {}
    }
    vstd::set_lib::lemma_set_subset_finite(t.dom(), done);
    vstd::set_lib::lemma_set_subset_finite(t.dom(), step);
    vstd::set_lib::lemma_set_disjoint_lens(done, step);
}

/// The sum of `f` over the first `k` stripes of a rotation that starts at
/// stripe `first`.
pub open spec fn rotation_sum(f: spec_fn(int) -> nat, first: int, k: int) -> nat
    decreases k,
{
    if k <= 0 {
        0
    } else {
        rotation_sum(f, first, k - 1) + f((first + k - 1) % SWEEP_STRIPES as int)
    }
}

/// A counter at `base` after `added` more, wrapping around at 2^64.
pub open spec fn wrapped(base: u64, added: int) -> int {
    (base as int + added) % 0x1_0000_0000_0000_0000
}

/// What each sweep of stripe `i` adds to the visited counter: the keys the
/// stripe records.
pub open spec fn stripe_visits(index: Seq<Set<InfoHash>>) -> spec_fn(int) -> nat {
    |i: int| ((index[i].len() as usize) as u64) as nat
}

/// What each sweep of stripe `i` adds to the orphan counter: the keys the
/// stripe records without a torrent.
pub open spec fn stripe_orphans(torrents: Map<InfoHash, TorrentView>, index: Seq<Set<InfoHash>>) -> spec_fn(int) -> nat {
    |i: int| ((orphan_keys_in(torrents, index[i]).len() as usize) as u64) as nat
}

/// The sweep counters after every stripe was swept once, starting at
/// `first`, dropping `removed` torrents: one more sweep per stripe, and the
/// visited keys, dropped torrents and dropped orphan keys added up.
pub open spec fn rotation_counters(
    before: TrackerStats,
    after: TrackerStats,
    torrents: Map<InfoHash, TorrentView>,
    index: Seq<Set<InfoHash>>,
    first: int,
    removed: usize,
) -> bool {
    &&& after.sweep_count as int == wrapped(before.sweep_count, SWEEP_STRIPES as int)
    &&& after.sweep_visited as int == wrapped(
        before.sweep_visited,
        rotation_sum(stripe_visits(index), first, SWEEP_STRIPES as int) as int,
    )
    &&& after.sweep_removed as int == wrapped(before.sweep_removed, removed as int)
    &&& after.sweep_orphans_removed as int == wrapped(
        before.sweep_orphans_removed,
        rotation_sum(stripe_orphans(torrents, index), first, SWEEP_STRIPES as int) as int,
    )
}

/// Adding to a wrapped counter adds to what it wraps.
proof fn lemma_wrapped_step(acc: u64, base: u64, total: int, add: u64)
    requires
        total >= 0,
        acc as int == wrapped(base, total),
    ensures
        stats::wrap_u64(acc, add) as int == wrapped(base, total + add),
{
    let m: int = 0x1_0000_0000_0000_0000;
    vstd::arithmetic::div_mod::lemma_add_mod_noop(base as int + total, add as int, m);
    vstd::arithmetic::div_mod::lemma_small_mod(add as nat, m as nat);
    vstd::arithmetic::div_mod::lemma_mod_bound(base as int + total, m);
    if acc as int + add as int >= m {
        vstd::arithmetic::div_mod::lemma_mod_sub_multiples_vanish(acc as int + add as int, m);
        vstd::arithmetic::div_mod::lemma_small_mod((acc as int + add as int - m) as nat, m as nat);
    } else {
        vstd::arithmetic::div_mod::lemma_small_mod((acc as int + add as int) as nat, m as nat);
    }
}

/// One more stripe sweep of a rotation adds its share to each counter.
proof fn lemma_sweep_counters_step(
    before: TrackerStore,
    after: TrackerStore,
    t: Map<InfoHash, TorrentView>,
    idx: Seq<Set<InfoHash>>,
    now: u32,
    first: int,
    k: int,
    removed: usize,
    swept: usize,
)
    requires
        0 <= k,
        sweep_target(before) == (first + k) % SWEEP_STRIPES as int,
        before.index()[sweep_target(before)] == idx[sweep_target(before)],
        orphan_keys_in(before.torrents(), idx[sweep_target(before)]) == orphan_keys_in(t, idx[sweep_target(before)]),
        sweep_effect(before, after, now, swept),
        exists|nanos: u128| after.stats_view() == #[trigger] swept_stats(before, now, nanos),
    ensures
        forall|b: u64| before.stats_view().sweep_count as int == wrapped(b, k) ==> after.stats_view().sweep_count as int == wrapped(b, k + 1),
        forall|b: u64| before.stats_view().sweep_visited as int == wrapped(b, rotation_sum(stripe_visits(idx), first, k) as int)
            ==> after.stats_view().sweep_visited as int == wrapped(b, rotation_sum(stripe_visits(idx), first, k + 1) as int),
        forall|b: u64| before.stats_view().sweep_removed as int == wrapped(b, removed as int)
            ==> after.stats_view().sweep_removed as int == wrapped(b, removed + swept),
        forall|b: u64| before.stats_view().sweep_orphans_removed as int == wrapped(b, rotation_sum(stripe_orphans(t, idx), first, k) as int)
            ==> after.stats_view().sweep_orphans_removed as int == wrapped(b, rotation_sum(stripe_orphans(t, idx), first, k + 1) as int),
{
    let st = sweep_target(before);
    let nanos = choose|nanos: u128| after.stats_view() == #[trigger] swept_stats(before, now, nanos);
    let s0 = before.stats_view();
    let s1 = after.stats_view();
    assert(s1.sweep_count == stats::wrap_u64(s0.sweep_count, 1));
    assert(s1.sweep_visited == stats::wrap_u64(s0.sweep_visited, (idx[st].len() as usize) as u64));
    assert(s1.sweep_removed == stats::wrap_u64(s0.sweep_removed, swept as u64));
    assert(s1.sweep_orphans_removed == stats::wrap_u64(
        s0.sweep_orphans_removed,
        (orphan_keys_in(t, idx[st]).len() as usize) as u64,
    ));
    assert forall|b: u64| s0.sweep_count as int == wrapped(b, k) implies s1.sweep_count as int == wrapped(b, k + 1) by {
        lemma_wrapped_step(s0.sweep_count, b, k, 1);
    }
    assert forall|b: u64| s0.sweep_visited as int == wrapped(b, rotation_sum(stripe_visits(idx), first, k) as int)
        implies s1.sweep_visited as int == wrapped(b, rotation_sum(stripe_visits(idx), first, k + 1) as int) by {
        lemma_wrapped_step(s0.sweep_visited, b, rotation_sum(stripe_visits(idx), first, k) as int, (idx[st].len() as usize) as u64);
    }
    assert forall|b: u64| s0.sweep_removed as int == wrapped(b, removed as int)
        implies s1.sweep_removed as int == wrapped(b, removed + swept) by {
        lemma_wrapped_step(s0.sweep_removed, b, removed as int, swept as u64);
    }
    assert forall|b: u64| s0.sweep_orphans_removed as int == wrapped(b, rotation_sum(stripe_orphans(t, idx), first, k) as int)
        implies s1.sweep_orphans_removed as int == wrapped(b, rotation_sum(stripe_orphans(t, idx), first, k + 1) as int) by {
        lemma_wrapped_step(
            s0.sweep_orphans_removed,
            b,
            rotation_sum(stripe_orphans(t, idx), first, k) as int,
            (orphan_keys_in(t, idx[st]).len() as usize) as u64,
        );
    }
}

/// Where a rotation of sweeps over the store `orig` stands after `k` stripes
/// with `removed` torrents dropped: the stale torrents of the swept stripes
/// are gone and those stripes keep only the keys of torrents that stay.
#[verifier::opaque]
pub open spec fn rotation_swept(orig: TrackerStore, cur: TrackerStore, now: u32, k: int, removed: usize) -> bool {
    let t = orig.torrents();
    let idx = orig.index();
    let first = sweep_target(orig);
    &&& sweep_target(cur) == (first + k) % SWEEP_STRIPES as int
    &&& cur.torrents() == t.remove_keys(stale_indexed(t, idx, now, |i: int| in_rotation(first, k, i)))
    &&& forall|i: int|
        0 <= i < SWEEP_STRIPES ==> #[trigger] cur.index()[i] == if in_rotation(first, k, i) {
            kept_keys_in(t, idx[i], now)
        } else {
            idx[i]
        }
    &&& removed == stale_indexed(t, idx, now, |i: int| in_rotation(first, k, i)).len()
    &&& cur.cached() == orig.cached()
}

/// The counters of a rotation over the store `orig` after `k` stripes with
/// `removed` torrents dropped: each sweep's work added up, nothing else changed.
#[verifier::opaque]
pub open spec fn rotation_counted(orig: TrackerStore, cur: TrackerStore, k: int, removed: usize) -> bool {
    let t = orig.torrents();
    let idx = orig.index();
    let first = sweep_target(orig);
    &&& same_but_sweeps(cur.stats_view(), orig.stats_view())
    &&& cur.stats_view().sweep_count as int == wrapped(orig.stats_view().sweep_count, k)
    &&& cur.stats_view().sweep_visited as int == wrapped(
        orig.stats_view().sweep_visited,
        rotation_sum(stripe_visits(idx), first, k) as int,
    )
    &&& cur.stats_view().sweep_removed as int == wrapped(orig.stats_view().sweep_removed, removed as int)
    &&& cur.stats_view().sweep_orphans_removed as int == wrapped(
        orig.stats_view().sweep_orphans_removed,
        rotation_sum(stripe_orphans(t, idx), first, k) as int,
    )
}

/// Where a rotation of sweeps over the store `orig` stands after `k` stripes
/// with `removed` torrents dropped.
pub open spec fn rotation_state(orig: TrackerStore, cur: TrackerStore, now: u32, k: int, removed: usize) -> bool {
    rotation_swept(orig, cur, now, k, removed) && rotation_counted(orig, cur, k, removed)
}

/// A rotation starts with nothing swept.
proof fn lemma_rotation_start(orig: TrackerStore, now: u32)
    requires
        orig.wf(),
    ensures
        rotation_state(orig, orig, now, 0, 0),
{
    reveal(rotation_swept);
    reveal(rotation_counted);
    let t = orig.torrents();
    let idx = orig.index();
    let first = sweep_target(orig);
    assert(t.remove_keys(stale_indexed(t, idx, now, |i: int| in_rotation(first, 0, i))) =~= t);
    assert(stale_indexed(t, idx, now, |i: int| in_rotation(first, 0, i)) =~= Set::<InfoHash>::empty());
    assert forall|i: int| 0 <= i < SWEEP_STRIPES implies !in_rotation(first, 0, i) by {}
    vstd::arithmetic::div_mod::lemma_small_mod(orig.stats_view().sweep_count as nat, 0x1_0000_0000_0000_0000nat);
    vstd::arithmetic::div_mod::lemma_small_mod(orig.stats_view().sweep_visited as nat, 0x1_0000_0000_0000_0000nat);
    vstd::arithmetic::div_mod::lemma_small_mod(orig.stats_view().sweep_removed as nat, 0x1_0000_0000_0000_0000nat);
    vstd::arithmetic::div_mod::lemma_small_mod(
        orig.stats_view().sweep_orphans_removed as nat,
        0x1_0000_0000_0000_0000nat,
    );
}

/// The stripe the next sweep of a rotation scans has not been swept yet.
proof fn lemma_rotation_before_step(orig: TrackerStore, cur: TrackerStore, now: u32, k: int, removed: usize)
    requires
        orig.wf(),
        cur.wf(),
        0 <= k < SWEEP_STRIPES,
        rotation_state(orig, cur, now, k, removed),
    ensures
        cur.index()[sweep_target(cur)] == orig.index()[sweep_target(cur)],
        stale_keys_in(cur.torrents(), orig.index()[sweep_target(cur)], now) == stale_keys_in(
            orig.torrents(),
            orig.index()[sweep_target(cur)],
            now,
        ),
        kept_keys_in(cur.torrents(), orig.index()[sweep_target(cur)], now) == kept_keys_in(
            orig.torrents(),
            orig.index()[sweep_target(cur)],
            now,
        ),
        orphan_keys_in(cur.torrents(), orig.index()[sweep_target(cur)]) == orphan_keys_in(
            orig.torrents(),
            orig.index()[sweep_target(cur)],
        ),
{
    reveal(rotation_swept);
    let t = orig.torrents();
    let idx = orig.index();
    let first = sweep_target(orig);
    let st = sweep_target(cur);
    lemma_rotation_grow(t, idx, now, first, k);
    assert(!in_rotation(first, k, st));
    assert(cur.index()[st] == idx[st]);
    assert(stale_keys_in(cur.torrents(), idx[st], now) =~= stale_keys_in(t, idx[st], now));
    assert(kept_keys_in(cur.torrents(), idx[st], now) =~= kept_keys_in(t, idx[st], now));
    assert(orphan_keys_in(cur.torrents(), idx[st]) =~= orphan_keys_in(t, idx[st]));
}

/// One more stripe sweep moves a rotation's torrents and index on by a stripe.
proof fn lemma_rotation_advance_swept(
    orig: TrackerStore,
    before: TrackerStore,
    after: TrackerStore,
    now: u32,
    k: int,
    removed: usize,
    swept: usize,
)
    requires
        orig.wf(),
        orig.torrents().len() <= usize::MAX,
        before.wf(),
        0 <= k < SWEEP_STRIPES,
        rotation_swept(orig, before, now, k, removed),
        before.index()[sweep_target(before)] == orig.index()[sweep_target(before)],
        stale_keys_in(before.torrents(), orig.index()[sweep_target(before)], now) == stale_keys_in(
            orig.torrents(),
            orig.index()[sweep_target(before)],
            now,
        ),
        kept_keys_in(before.torrents(), orig.index()[sweep_target(before)], now) == kept_keys_in(
            orig.torrents(),
            orig.index()[sweep_target(before)],
            now,
        ),
        sweep_effect(before, after, now, swept),
    ensures
        removed + swept <= orig.torrents().len(),
        rotation_swept(orig, after, now, k + 1, (removed + swept) as usize),
{
    reveal(rotation_swept);
    let t = orig.torrents();
    let idx = orig.index();
    let first = sweep_target(orig);
    lemma_rotation_grow(t, idx, now, first, k);
    let next = stale_indexed(t, idx, now, |i: int| in_rotation(first, k + 1, i));
    vstd::set_lib::lemma_len_subset(next, t.dom());
    assert(after.torrents() =~= t.remove_keys(next));
    assert forall|i: int| 0 <= i < SWEEP_STRIPES implies #[trigger] after.index()[i] == if in_rotation(first, k + 1, i) {
        kept_keys_in(t, idx[i], now)
    } else {
        idx[i]
    } by {}
    assert(sweep_target(after) == (first + k + 1) % SWEEP_STRIPES as int) by {
        let n = before.next_stripe();
        if n == usize::MAX {
            assert(usize::MAX == 0xffff_ffff || usize::MAX == 0xffff_ffff_ffff_ffff);
        }
    }
}

/// One more stripe sweep adds its work to a rotation's counters.
proof fn lemma_rotation_advance_counted(
    orig: TrackerStore,
    before: TrackerStore,
    after: TrackerStore,
    now: u32,
    k: int,
    removed: usize,
    swept: usize,
)
    requires
        0 <= k < SWEEP_STRIPES,
        removed + swept <= usize::MAX,
        rotation_counted(orig, before, k, removed),
        rotation_swept(orig, before, now, k, removed),
        before.index()[sweep_target(before)] == orig.index()[sweep_target(before)],
        orphan_keys_in(before.torrents(), orig.index()[sweep_target(before)]) == orphan_keys_in(
            orig.torrents(),
            orig.index()[sweep_target(before)],
        ),
        sweep_effect(before, after, now, swept),
        exists|nanos: u128| after.stats_view() == #[trigger] swept_stats(before, now, nanos),
    ensures
        rotation_counted(orig, after, k + 1, (removed + swept) as usize),
{
    reveal(rotation_counted);
    let t = orig.torrents();
    let idx = orig.index();
    let first = sweep_target(orig);
    assert(sweep_target(before) == (first + k) % SWEEP_STRIPES as int) by {
        reveal(rotation_swept);
    }
    lemma_sweep_counters_step(before, after, t, idx, now, first, k, removed, swept);
}

/// After all stripes, a rotation has swept the whole index.
proof fn lemma_rotation_end(orig: TrackerStore, cur: TrackerStore, now: u32, removed: usize)
    requires
        rotation_state(orig, cur, now, SWEEP_STRIPES as int, removed),
    ensures
        full_sweep_effect(orig, cur, now, removed),
        cur.cached() == orig.cached(),
        same_but_sweeps(cur.stats_view(), orig.stats_view()),
        rotation_counters(orig.stats_view(), cur.stats_view(), orig.torrents(), orig.index(), sweep_target(orig), removed),
        cur.next_stripe() as int % SWEEP_STRIPES as int == sweep_target(orig),
{
    reveal(rotation_swept);
    reveal(rotation_counted);
    let t = orig.torrents();
    let idx = orig.index();
    let first = sweep_target(orig);
    assert(stale_indexed(t, idx, now, |i: int| in_rotation(first, 256, i)) =~= stale_in_index(t, idx, now));
    assert forall|i: int| 0 <= i < SWEEP_STRIPES implies #[trigger] in_rotation(first, 256, i) by {}
    assert((first + 256) % 256 == first);
}

impl TrackerStore {
    /// Sweep the next stripe at the store's current time; how many torrents
    /// were dropped.
    pub fn sweep_stale_torrents(&mut self) -> (removed: usize)
        requires
            old(self).wf(),
        ensures
            final(self).clock_base() == old(self).clock_base(),
            final(self).wf(),
            exists|now: u32|
                #[trigger] sweep_effect(*old(self), *final(self), now, removed)
                && exists|nanos: u128| final(self).stats_view() == #[trigger] swept_stats(*old(self), now, nanos),
            exists|elapsed: Duration| #[trigger] sweep_effect(*old(self), *final(self), clock_reading(elapsed), removed),
    {
        let now = self.now_secs();
        let ghost elapsed = choose|elapsed: Duration| now == clock_reading(elapsed);
        let removed = self.sweep_stale_torrents_at(now);
        proof {
            assert(sweep_effect(*old(self), *self, clock_reading(elapsed), removed));
        }
        removed
    }

    /// Sweep every stripe once at `now`, starting from the next one: all
    /// stale torrents that the index records are dropped, and each stripe
    /// keeps only the keys of the torrents that stay. Returns how many
    /// torrents were dropped.
    pub fn sweep_all_stripes_at(&mut self, now: u32) -> (removed: usize)
        requires
            old(self).wf(),
        ensures
            final(self).clock_base() == old(self).clock_base(),
            final(self).wf(),
            full_sweep_effect(*old(self), *final(self), now, removed),
            final(self).next_stripe() as int % SWEEP_STRIPES as int == sweep_target(*old(self)),
            final(self).cached() == old(self).cached(),
            same_but_sweeps(final(self).stats_view(), old(self).stats_view()),
            rotation_counters(
                old(self).stats_view(),
                final(self).stats_view(),
                old(self).torrents(),
                old(self).index(),
                sweep_target(*old(self)),
                removed,
            ),
    {
        let ghost t = old(self).torrents();
        let ghost idx = old(self).index();
        let ghost first = sweep_target(*old(self));
        let count = table_len(&self.torrents);
        let mut removed: usize = 0;
        let mut k: usize = 0;
        proof {
            lemma_rotation_start(*old(self), now);
        }
        while k < SWEEP_STRIPES
            invariant
                k <= SWEEP_STRIPES,
                old(self).wf(),
                t == old(self).torrents(),
                idx == old(self).index(),
                first == sweep_target(*old(self)),
                count == t.len(),
                self.wf(),
                rotation_state(*old(self), *self, now, k as int, removed),
                self.clock_base() == old(self).clock_base(),
            decreases SWEEP_STRIPES - k,
        {
            let ghost before = *self;
            proof {
                lemma_rotation_before_step(*old(self), before, now, k as int, removed);
            }
            let swept = self.sweep_stale_torrents_at(now);
            proof {
                lemma_rotation_advance_swept(*old(self), before, *self, now, k as int, removed, swept);
                lemma_rotation_advance_counted(*old(self), before, *self, now, k as int, removed, swept);
            }
            removed = removed + swept;
            k += 1;
        }
        proof {
            lemma_rotation_end(*old(self), *self, now, removed);
        }
        removed
    }

    /// `sweep_all_stripes_at` the store's current time.
    pub fn sweep_all_stripes(&mut self) -> (removed: usize)
        requires
            old(self).wf(),
        ensures
            final(self).clock_base() == old(self).clock_base(),
            final(self).wf(),
            exists|now: u32| #[trigger] full_sweep_effect(*old(self), *final(self), now, removed),
            exists|elapsed: Duration| #[trigger] full_sweep_effect(*old(self), *final(self), clock_reading(elapsed), removed),
            final(self).next_stripe() as int % SWEEP_STRIPES as int == sweep_target(*old(self)),
            final(self).cached() == old(self).cached(),
            same_but_sweeps(final(self).stats_view(), old(self).stats_view()),
            rotation_counters(
                old(self).stats_view(),
                final(self).stats_view(),
                old(self).torrents(),
                old(self).index(),
                sweep_target(*old(self)),
                removed,
            ),
    {
        let now = self.now_secs();
        let ghost elapsed = choose|elapsed: Duration| now == clock_reading(elapsed);
        let removed = self.sweep_all_stripes_at(now);
        proof {
            assert(full_sweep_effect(*old(self), *self, clock_reading(elapsed), removed));
        }
        removed
    }
}

impl Default for TrackerStore {
    fn default() -> (store: TrackerStore)
        ensures
            store.wf(),
            store.torrents().dom() == Set::<InfoHash>::empty(),
            forall|i: int| 0 <= i < SWEEP_STRIPES ==> #[trigger] store.index()[i] == Set::<InfoHash>::empty(),
            store.next_stripe() == 0,
            store.cached() == (0usize, 0usize, 0usize, 0usize),
            store.stats_view().is_zeroed(),
    {
        TrackerStore::new()
    }
}

} // verus!
