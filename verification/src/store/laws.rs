use std::time::Duration;

use vstd::prelude::*;

use super::peers::{
    lemma_pool_count_insert, lemma_pool_count_remove, live_peers, peers_ok, pool_count, spec_is_stale,
    spec_peer_key, PeerMeta, TorrentView, TORRENT_TTL_SECS,
};
use super::clock::duration_nanos;
use super::{
    clock_reading, announce_effect, announce_mods, existing_pools, full_sweep_effect, kept_keys_in, seed_effect,
    spec_peer_exists, spec_stripe_of, stale_in_index, start_torrent, sweep_effect, sweep_target,
    AnnounceEvent, AnnounceInput, InfoHash, PeerId, PeerPool, TrackerStore, PEER_TTL_SECS,
    SWEEP_STRIPES,
};

verus! {

/// The pool an announce puts its peer in.
pub open spec fn announced_pool(input: AnnounceInput) -> PeerPool {
    if input.is_seeding {
        PeerPool::Seeder
    } else {
        PeerPool::Leecher
    }
}

/// The other pool.
pub open spec fn other_pool(pool: PeerPool) -> PeerPool {
    match pool {
        PeerPool::Seeder => PeerPool::Leecher,
        PeerPool::Leecher => PeerPool::Seeder,
    }
}

/// Every stored torrent is recorded in its stripe, so some sweep visits it.
pub open spec fn fully_indexed(store: TrackerStore) -> bool {
    forall|h: InfoHash| #[trigger] store.torrents().contains_key(h) ==> store.is_indexed(h)
}

/// A peer already in the swarm announces the other pool without the event
/// that accounts for the move (`Completed` for a leecher that now seeds): the
/// reply's counts then do not follow the move.
pub open spec fn silent_switch(live: Map<u64, PeerMeta>, input: AnnounceInput) -> bool {
    let (is_seeder, is_leecher) = existing_pools(live, spec_peer_key(input.peer));
    &&& input.event != AnnounceEvent::Stopped
    &&& (is_leecher && input.is_seeding && input.event != AnnounceEvent::Completed) || (is_seeder
        && !input.is_seeding)
}

/// The live peers are a subset of finitely many peers.
proof fn lemma_live_finite(peers: Map<u64, PeerMeta>, now: u32)
    requires
        peers.dom().finite(),
    ensures
        live_peers(peers, now).dom().finite(),
{
    vstd::set_lib::lemma_set_subset_finite(peers.dom(), live_peers(peers, now).dom());
}

/// An announce that is not `Stopped` leaves its peer in the pool it
/// announced, findable until its entry expires `PEER_TTL_SECS` later (while
/// that time fits in the 31 bits the expiry keeps), and not in the other
/// pool: in particular `Completed` moves a leecher to the seeders.
pub proof fn law_announce_registers_peer(
    before: TrackerStore,
    after: TrackerStore,
    input: AnnounceInput,
    now: u32,
    reply: Seq<u8>,
    later: u32,
)
    requires
        announce_effect(before, after, input, now, reply),
        input.event != AnnounceEvent::Stopped,
        now + PEER_TTL_SECS < 0x8000_0000,
        now <= later < now + PEER_TTL_SECS,
    ensures
        spec_peer_exists(after.torrents(), input.info_hash, announced_pool(input), input.peer, later),
        !spec_peer_exists(after.torrents(), input.info_hash, other_pool(announced_pool(input)), input.peer, later),
{
    PeerMeta::lemma_spec_new_fields(input.is_seeding, (now + PEER_TTL_SECS) as u32);
}

/// After a `Stopped` announce the peer is in neither pool of the torrent,
/// at any time.
pub proof fn law_stopped_removes_peer(
    before: TrackerStore,
    after: TrackerStore,
    input: AnnounceInput,
    now: u32,
    reply: Seq<u8>,
    pool: PeerPool,
    later: u32,
)
    requires
        announce_effect(before, after, input, now, reply),
        input.event == AnnounceEvent::Stopped,
    ensures
        !spec_peer_exists(after.torrents(), input.info_hash, pool, input.peer, later),
{
}

/// Seeded peers are findable in their pool until their entries expire
/// `PEER_TTL_SECS` later (while that time fits in the 31 bits the expiry
/// keeps).
pub proof fn law_seeded_peers_exist(
    before: TrackerStore,
    after: TrackerStore,
    info_hash: InfoHash,
    pool: PeerPool,
    peers: Seq<PeerId>,
    now: u32,
    j: int,
    later: u32,
)
    requires
        seed_effect(before, after, info_hash, pool, peers, now),
        0 <= j < peers.len(),
        now + PEER_TTL_SECS < 0x8000_0000,
        now <= later < now + PEER_TTL_SECS,
    ensures
        spec_peer_exists(after.torrents(), info_hash, pool, peers[j], later),
{
    PeerMeta::lemma_spec_new_fields(pool == PeerPool::Seeder, (now + PEER_TTL_SECS) as u32);
    let k = spec_peer_key(peers[j]);
    assert(exists|i: int| 0 <= i < peers.len() && #[trigger] spec_peer_key(peers[i]) == k);
}

/// The counts an announce reply gives are the sizes of the torrent's live
/// pools once the announce is applied, unless the peer silently switched
/// pools (`silent_switch`).
pub proof fn law_reply_counts_follow_announce(
    before: TrackerStore,
    after: TrackerStore,
    input: AnnounceInput,
    now: u32,
    reply: Seq<u8>,
)
    requires
        before.wf(),
        announce_effect(before, after, input, now, reply),
        !silent_switch(live_peers(start_torrent(before.torrents(), input.info_hash, now).peers, now), input),
    ensures
        ({
            let live = live_peers(start_torrent(before.torrents(), input.info_hash, now).peers, now);
            &&& pool_count(live, true) + announce_mods(live, input).0 == pool_count(
                after.torrents()[input.info_hash].peers,
                true,
            )
            &&& pool_count(live, false) + announce_mods(live, input).1 == pool_count(
                after.torrents()[input.info_hash].peers,
                false,
            )
        }),
{
    let start = start_torrent(before.torrents(), input.info_hash, now);
    let live = live_peers(start.peers, now);
    let key = spec_peer_key(input.peer);
    let meta = PeerMeta::spec_new(input.is_seeding, (now + PEER_TTL_SECS) as u32);
    PeerMeta::lemma_spec_new_fields(input.is_seeding, (now + PEER_TTL_SECS) as u32);
    if before.torrents().contains_key(input.info_hash) {
        assert(peers_ok(before.torrents()[input.info_hash].peers));
    } else {
        assert(start.peers.dom() =~= Set::<u64>::empty());
    }
    lemma_live_finite(start.peers, now);
    lemma_pool_count_remove(live, key, true);
    lemma_pool_count_remove(live, key, false);
    if input.event != AnnounceEvent::Stopped {
        assert(live.insert(key, meta) =~= live.remove(key).insert(key, meta));
        lemma_pool_count_insert(live.remove(key), key, meta, true);
        lemma_pool_count_insert(live.remove(key), key, meta, false);
    }
}

/// An announce keeps every stored torrent recorded in its stripe.
pub proof fn law_announce_keeps_torrents_indexed(
    before: TrackerStore,
    after: TrackerStore,
    input: AnnounceInput,
    now: u32,
    reply: Seq<u8>,
)
    requires
        before.wf(),
        fully_indexed(before),
        announce_effect(before, after, input, now, reply),
    ensures
        fully_indexed(after),
{
    assert forall|h: InfoHash| #[trigger] after.torrents().contains_key(h) implies after.is_indexed(h) by {
        if h != input.info_hash {
            assert(before.torrents().contains_key(h));
        }
        if !before.torrents().contains_key(input.info_hash) && spec_stripe_of(h) == spec_stripe_of(input.info_hash) {
            assert(before.torrents().contains_key(h) ==> before.is_indexed(h));
        }
    }
}

/// Seeding keeps every stored torrent recorded in its stripe.
pub proof fn law_seed_keeps_torrents_indexed(
    before: TrackerStore,
    after: TrackerStore,
    info_hash: InfoHash,
    pool: PeerPool,
    peers: Seq<PeerId>,
    now: u32,
)
    requires
        before.wf(),
        fully_indexed(before),
        seed_effect(before, after, info_hash, pool, peers, now),
    ensures
        fully_indexed(after),
{
    assert forall|h: InfoHash| #[trigger] after.torrents().contains_key(h) implies after.is_indexed(h) by {
        if h != info_hash {
            assert(before.torrents().contains_key(h));
        }
        if !before.torrents().contains_key(info_hash) && spec_stripe_of(h) == spec_stripe_of(info_hash) {
            assert(before.torrents().contains_key(h) ==> before.is_indexed(h));
        }
    }
}

/// A stripe sweep keeps every torrent that stays recorded in its stripe.
pub proof fn law_sweep_keeps_torrents_indexed(before: TrackerStore, after: TrackerStore, now: u32, removed: usize)
    requires
        before.wf(),
        fully_indexed(before),
        sweep_effect(before, after, now, removed),
    ensures
        fully_indexed(after),
{
    let st = sweep_target(before);
    assert forall|h: InfoHash| #[trigger] after.torrents().contains_key(h) implies after.is_indexed(h) by {
        assert(before.torrents().contains_key(h));
        assert(before.is_indexed(h));
        if spec_stripe_of(h) == st {
            assert(kept_keys_in(before.torrents(), before.index()[st], now).contains(h));
        }
    }
}

/// After every stripe was swept once, each key the index records belongs to
/// a stored torrent that is not stale: orphan keys are gone.
pub proof fn law_full_sweep_leaves_no_orphans(before: TrackerStore, after: TrackerStore, now: u32, removed: usize)
    requires
        before.wf(),
        full_sweep_effect(before, after, now, removed),
    ensures
        forall|i: int, h: InfoHash|
            0 <= i < SWEEP_STRIPES && #[trigger] after.index()[i].contains(h) ==> after.torrents().contains_key(h)
                && !spec_is_stale(after.torrents()[h].last_activity, now),
{
    assert forall|i: int, h: InfoHash|
        0 <= i < SWEEP_STRIPES && #[trigger] after.index()[i].contains(h) implies after.torrents().contains_key(h)
            && !spec_is_stale(after.torrents()[h].last_activity, now) by {
        assert(kept_keys_in(before.torrents(), before.index()[i], now).contains(h));
        assert(!stale_in_index(before.torrents(), before.index(), now).contains(h));
    }
}

/// A full sweep keeps every torrent that is not stale, unchanged.
pub proof fn law_full_sweep_keeps_live_torrents(
    before: TrackerStore,
    after: TrackerStore,
    now: u32,
    removed: usize,
    h: InfoHash,
)
    requires
        full_sweep_effect(before, after, now, removed),
        before.torrents().contains_key(h),
        !spec_is_stale(before.torrents()[h].last_activity, now),
    ensures
        after.torrents().contains_key(h),
        after.torrents()[h] == before.torrents()[h],
{
    assert(!stale_in_index(before.torrents(), before.index(), now).contains(h));
}

/// On a store where every torrent is recorded in its stripe, a full sweep
/// drops exactly the torrents that are stale.
pub proof fn law_full_sweep_drops_all_stale(before: TrackerStore, after: TrackerStore, now: u32, removed: usize)
    requires
        fully_indexed(before),
        full_sweep_effect(before, after, now, removed),
    ensures
        forall|h: InfoHash|
            #[trigger] after.torrents().contains_key(h) == (before.torrents().contains_key(h) && !spec_is_stale(
                before.torrents()[h].last_activity,
                now,
            )),
{
    assert forall|h: InfoHash|
        #[trigger] after.torrents().contains_key(h) == (before.torrents().contains_key(h) && !spec_is_stale(
            before.torrents()[h].last_activity,
            now,
        )) by {
        if before.torrents().contains_key(h) {
            assert(before.is_indexed(h));
        }
    }
}

/// After an announce at `now`, every peer the torrent keeps besides the
/// announcing one has an expiry (the low 31 bits of its metadata) later
/// than `now`: an entry that had expired is gone, whatever its pool.
pub proof fn law_announce_drops_expired(
    before: TrackerStore,
    after: TrackerStore,
    input: AnnounceInput,
    now: u32,
    reply: Seq<u8>,
    k: u64,
)
    requires
        announce_effect(before, after, input, now, reply),
        k != spec_peer_key(input.peer),
        after.torrents()[input.info_hash].peers.contains_key(k),
    ensures
        (after.torrents()[input.info_hash].peers[k].0 & 0x7fff_ffffu32) > now,
{
}

/// The seeder (or leecher) count an announce at `now` reports is taken over
/// the stored peers whose expiry is later than `now`: expired entries are
/// not counted, whatever their pool.
pub proof fn law_reply_counts_only_unexpired(peers: Map<u64, PeerMeta>, now: u32, seeders: bool)
    ensures
        pool_count(live_peers(peers, now), seeders) == peers.dom().filter(
            |k: u64| (peers[k].0 & 0x7fff_ffffu32) > now && peers[k].spec_is_seeder() == seeders,
        ).len(),
{
    let live = live_peers(peers, now);
    assert(live.dom().filter(|k: u64| live[k].spec_is_seeder() == seeders) =~= peers.dom().filter(
        |k: u64| (peers[k].0 & 0x7fff_ffffu32) > now && peers[k].spec_is_seeder() == seeders,
    ));
}

/// A peer is found in a pool at `now` exactly when its torrent is stored and
/// not stale, and its entry is stored, has an expiry (the low 31 bits) later
/// than `now`, and has the pool's seeder bit (bit 31): an expired entry is
/// never found, even in a torrent that is still active.
pub proof fn law_peer_exists_needs_unexpired(
    torrents: Map<InfoHash, TorrentView>,
    info_hash: InfoHash,
    pool: PeerPool,
    peer: PeerId,
    now: u32,
)
    ensures
        spec_peer_exists(torrents, info_hash, pool, peer, now) <==> ({
            let peers = torrents[info_hash].peers;
            let k = spec_peer_key(peer);
            &&& torrents.contains_key(info_hash)
            &&& !spec_is_stale(torrents[info_hash].last_activity, now)
            &&& peers.contains_key(k)
            &&& (peers[k].0 & 0x7fff_ffffu32) > now
            &&& ((peers[k].0 & 0x8000_0000u32) != 0) == (pool == PeerPool::Seeder)
        }),
{
}

/// The store clock counts seconds: once at least `TORRENT_TTL_SECS + 1`
/// seconds (31 minutes and one second) more have elapsed since its base,
/// within the 2^32 seconds the reading holds, a torrent last active at the
/// earlier reading is stale, and a peer stored then for `PEER_TTL_SECS` has
/// expired.
pub proof fn law_clock_counts_seconds(earlier: Duration, later: Duration)
    requires
        duration_nanos(later) >= duration_nanos(earlier) + (TORRENT_TTL_SECS + 1) * 1_000_000_000,
        duration_nanos(later) < 0x1_0000_0000 * 1_000_000_000,
    ensures
        clock_reading(earlier) + TORRENT_TTL_SECS < clock_reading(later),
        spec_is_stale(clock_reading(earlier), clock_reading(later)),
        clock_reading(earlier) + PEER_TTL_SECS < clock_reading(later),
{
    let n0 = duration_nanos(earlier) as int;
    let n1 = duration_nanos(later) as int;
    assert(n1 / 1_000_000_000 >= n0 / 1_000_000_000 + 1861) by (nonlinear_arith)
        requires
            n0 >= 0,
            n1 >= n0 + 1861 * 1_000_000_000,
    ;
    assert(n1 / 1_000_000_000 < 0x1_0000_0000) by (nonlinear_arith)
        requires
            0 <= n1 < 0x1_0000_0000 * 1_000_000_000,
    ;
}

} // verus!
