use std::time::Instant;

use kiryuu::store::{
    AnnounceEvent, AnnounceInput, PeerPool, TrackerStore, INLINE_PEER_CAP, SWEEP_STRIPES, TORRENT_TTL_SECS,
};

fn announce(store: &mut TrackerStore, input: AnnounceInput) -> Vec<u8> {
    store.handle_announce(input, Instant::now())
}

fn seeding(info_hash: [u8; 20], peer: [u8; 6]) -> AnnounceInput {
    AnnounceInput {
        info_hash,
        peer,
        is_seeding: true,
        event: AnnounceEvent::Unknown,
    }
}

#[test]
fn seeder_announce_registers_peer() {
    let mut store = TrackerStore::new();
    let hash = [0x41u8; 20];
    let peer = [127, 0, 0, 1, 17, 0x5c];

    announce(&mut store, seeding(hash, peer));

    assert!(store.peer_exists(hash, PeerPool::Seeder, peer));
}

#[test]
fn stopped_removes_peer() {
    let mut store = TrackerStore::new();
    let hash = [0x42u8; 20];
    let peer = [127, 0, 0, 1, 17, 0x5c];

    announce(&mut store, seeding(hash, peer));
    announce(
        &mut store,
        AnnounceInput {
            info_hash: hash,
            peer,
            is_seeding: true,
            event: AnnounceEvent::Stopped,
        },
    );

    assert!(!store.peer_exists(hash, PeerPool::Seeder, peer));
}

#[test]
fn completed_moves_leecher_to_seeder() {
    let mut store = TrackerStore::new();
    let hash = [0x43u8; 20];
    let peer = [127, 0, 0, 1, 17, 0x5c];

    announce(
        &mut store,
        AnnounceInput {
            info_hash: hash,
            peer,
            is_seeding: false,
            event: AnnounceEvent::Unknown,
        },
    );
    announce(
        &mut store,
        AnnounceInput {
            info_hash: hash,
            peer,
            is_seeding: true,
            event: AnnounceEvent::Completed,
        },
    );

    assert!(store.peer_exists(hash, PeerPool::Seeder, peer));
    assert!(!store.peer_exists(hash, PeerPool::Leecher, peer));
}

#[test]
fn seeded_peers_appear_in_announce() {
    let mut store = TrackerStore::new();
    let hash = [0x44u8; 20];
    let peer = [10, 0, 0, 1, 0x11, 0x5c];
    let caller = [127, 0, 0, 1, 17, 0x5c];

    store.seed_peers(hash, PeerPool::Seeder, &[peer]);
    let body = announce(
        &mut store,
        AnnounceInput {
            info_hash: hash,
            peer: caller,
            is_seeding: false,
            event: AnnounceEvent::Unknown,
        },
    );

    assert!(body.windows(6).any(|w| w == peer));
}

#[test]
fn sweep_removes_stale_torrents() {
    let mut store = TrackerStore::new();
    let hash = [0x55u8; 20];
    let peer = [127, 0, 0, 1, 17, 0x5c];

    announce(&mut store, seeding(hash, peer));
    assert_eq!(store.torrent_count(), 1);

    let after_ttl = store.now_secs() + TORRENT_TTL_SECS + 1;
    // One stripe may miss this hash: rotate all stripes.
    assert_eq!(store.sweep_all_stripes_at(after_ttl), 1);
    assert_eq!(store.torrent_count(), 0);
}

#[test]
fn sweep_keeps_active_torrents() {
    let mut store = TrackerStore::new();
    let hash = [0x56u8; 20];
    let peer = [127, 0, 0, 1, 17, 0x5c];

    announce(&mut store, seeding(hash, peer));

    let now = store.now_secs();
    assert_eq!(store.sweep_all_stripes_at(now), 0);
    assert_eq!(store.torrent_count(), 1);
}

#[test]
fn sweep_stripes_cover_all_stale_torrents() {
    let mut store = TrackerStore::new();
    let peer = [127, 0, 0, 1, 17, 0x5c];

    // Spread torrents across many stripes via distinct infohashes.
    for i in 0u16..512 {
        let mut hash = [0u8; 20];
        hash[0] = (i & 0xff) as u8;
        hash[1] = (i >> 8) as u8;
        hash[2] = 0x59;
        announce(&mut store, seeding(hash, peer));
    }
    assert_eq!(store.torrent_count(), 512);
    assert_eq!(store.stripe_index_len(), 512);

    let after_ttl = store.now_secs() + TORRENT_TTL_SECS + 1;
    let removed = store.sweep_all_stripes_at(after_ttl);
    assert_eq!(removed, 512);
    assert_eq!(store.torrent_count(), 0);
    assert_eq!(store.stripe_index_len(), 0);
}

#[test]
fn stripe_index_tracks_new_torrent() {
    let mut store = TrackerStore::new();
    let hash = [0x5au8; 20];
    let peer = [127, 0, 0, 1, 17, 0x5c];
    let stripe = TrackerStore::stripe_of(&hash);

    assert_eq!(store.stripe_len(stripe), 0);

    announce(&mut store, seeding(hash, peer));

    assert!(store.stripe_contains(&hash));
    assert_eq!(store.stripe_index_len(), 1);

    // A second announce must not duplicate the index entry.
    announce(&mut store, seeding(hash, peer));
    assert_eq!(store.stripe_index_len(), 1);
}

#[test]
fn sweep_heals_orphan_stripe_index_entries() {
    let mut store = TrackerStore::new();
    let hash = [0x5bu8; 20];

    // Simulate index lag: key in the stripe index but not in the torrents.
    store.index_insert(hash);
    assert!(store.stripe_contains(&hash));
    assert_eq!(store.torrent_count(), 0);

    // Rotate until we hit this stripe (and the rest).
    let now = store.now_secs();
    let removed = store.sweep_all_stripes_at(now);
    assert_eq!(removed, 0);
    assert!(!store.stripe_contains(&hash));
    assert_eq!(store.stripe_index_len(), 0);
}

#[test]
fn remove_declines_when_torrent_no_longer_stale() {
    let mut store = TrackerStore::new();
    let hash = [0x5cu8; 20];
    let peer = [127, 0, 0, 1, 17, 0x5c];

    announce(&mut store, seeding(hash, peer));

    // A sweep that decided `hash` was stale, then raced an announce that
    // refreshed it: the delete must be declined and the index kept.
    let now = store.now_secs();
    assert!(!store.remove_torrent_if_stale(&hash, now));
    assert_eq!(store.torrent_count(), 1);
    assert_eq!(store.stripe_index_len(), 1);
    assert!(store.peer_exists(hash, PeerPool::Seeder, peer));
}

#[test]
fn refresh_reindexes_unindexed_torrents() {
    let mut store = TrackerStore::new();
    let hash = [0x5du8; 20];
    let peer = [127, 0, 0, 1, 17, 0x5c];

    announce(&mut store, seeding(hash, peer));

    // A create racing a sweep delete: the torrent lives on in the table but
    // its stripe entry was dropped, so no sweep would ever visit it.
    store.index_remove(&hash);
    assert_eq!(store.stripe_index_len(), 0);

    let after_ttl = store.now_secs() + TORRENT_TTL_SECS + 1;
    assert_eq!(store.sweep_all_stripes_at(after_ttl), 0);
    assert_eq!(store.torrent_count(), 1, "unindexed torrent leaks");

    store.refresh_peer_totals();
    assert_eq!(store.stripe_index_len(), 1);
    assert_eq!(store.stats.sweep_snapshot().index_repaired, 1);
    assert_eq!(store.stripe_index_size(), 1);

    // Healed, so the next rotation collects it.
    assert_eq!(store.sweep_all_stripes_at(after_ttl), 1);
    assert_eq!(store.torrent_count(), 0);
}

#[test]
fn sweep_records_visited_and_removed() {
    let mut store = TrackerStore::new();
    let hash = [0x5eu8; 20];
    let peer = [127, 0, 0, 1, 17, 0x5c];

    announce(&mut store, seeding(hash, peer));

    let after_ttl = store.now_secs() + TORRENT_TTL_SECS + 1;
    store.sweep_all_stripes_at(after_ttl);

    let sweep = store.stats.sweep_snapshot();
    assert_eq!(sweep.count, SWEEP_STRIPES as u64);
    // One key indexed, so exactly one stripe visits exactly one key.
    assert_eq!(sweep.visited, 1);
    assert_eq!(sweep.removed, 1);
    assert_eq!(sweep.orphans_removed, 0);
}

#[test]
fn sweep_records_healed_orphans() {
    let mut store = TrackerStore::new();
    let hash = [0x5fu8; 20];

    store.index_insert(hash);
    let now = store.now_secs();
    store.sweep_all_stripes_at(now);

    let sweep = store.stats.sweep_snapshot();
    assert_eq!(sweep.visited, 1);
    assert_eq!(sweep.removed, 0);
    assert_eq!(sweep.orphans_removed, 1);
}

#[test]
fn peer_totals_counts_seeders_and_leechers() {
    let mut store = TrackerStore::new();
    let hash = [0x57u8; 20];
    let seeder = [10, 0, 0, 1, 0x11, 0x5c];
    let leecher = [10, 0, 0, 2, 0x11, 0x5c];

    store.seed_peers(hash, PeerPool::Seeder, &[seeder]);
    store.seed_peers(hash, PeerPool::Leecher, &[leecher]);
    store.refresh_peer_totals();

    let (torrents, seeders, leechers) = store.peer_totals();
    assert_eq!(torrents, 1);
    assert_eq!(seeders, 1);
    assert_eq!(leechers, 1);
    assert_eq!(seeders + leechers, 2);
}

#[test]
fn inline_promotes_to_map_above_cap() {
    let mut store = TrackerStore::new();
    let hash = [0x58u8; 20];
    let peers: Vec<[u8; 6]> = (0..INLINE_PEER_CAP + 2)
        .map(|i| [10, 0, 0, i as u8, 0x11, 0x5c])
        .collect();

    store.seed_peers(hash, PeerPool::Seeder, &peers);
    store.refresh_peer_totals();
    let (torrents, seeders, leechers) = store.peer_totals();
    assert_eq!(torrents, 1);
    assert_eq!(seeders, INLINE_PEER_CAP + 2);
    assert_eq!(leechers, 0);
}

// The reply's counts follow the announce: a leecher joins, then completes.
#[test]
fn reply_counts_follow_completed_announce() {
    let mut store = TrackerStore::new();
    let hash = [0x60u8; 20];
    let peer = [127, 0, 0, 1, 17, 0x5c];

    let first = announce(
        &mut store,
        AnnounceInput {
            info_hash: hash,
            peer,
            is_seeding: false,
            event: AnnounceEvent::Unknown,
        },
    );
    assert_eq!(
        first,
        b"d8:completei0e10:incompletei1e8:intervali1800e12:min intervali1800e5:peers0:e".to_vec()
    );

    let second = announce(
        &mut store,
        AnnounceInput {
            info_hash: hash,
            peer,
            is_seeding: true,
            event: AnnounceEvent::Completed,
        },
    );
    let mut expected =
        b"d8:completei1e10:incompletei0e8:intervali1800e12:min intervali1800e5:peers6:".to_vec();
    expected.extend_from_slice(&peer);
    expected.push(b'e');
    assert_eq!(second, expected);
}

// A stopped announce of an unknown peer changes no count and stores nothing.
#[test]
fn stopped_unknown_peer_changes_nothing() {
    let mut store = TrackerStore::new();
    let hash = [0x61u8; 20];
    let peer = [127, 0, 0, 1, 17, 0x5c];

    let reply = announce(
        &mut store,
        AnnounceInput {
            info_hash: hash,
            peer,
            is_seeding: false,
            event: AnnounceEvent::Stopped,
        },
    );
    assert_eq!(
        reply,
        b"d8:completei0e10:incompletei0e8:intervali1800e12:min intervali1800e5:peers0:e".to_vec()
    );
    assert!(!store.peer_exists(hash, PeerPool::Leecher, peer));
    assert_eq!(store.stats.snapshot().0, 1);
}

// An announce is counted, and the reply samples at most 50 peers per pool.
#[test]
fn announce_samples_at_most_fifty_peers() {
    let mut store = TrackerStore::new();
    let hash = [0x62u8; 20];
    let peers: Vec<[u8; 6]> = (0..60u8).map(|i| [10, 0, 1, i, 0x11, 0x5c]).collect();
    store.seed_peers(hash, PeerPool::Seeder, &peers);

    let reply = announce(
        &mut store,
        AnnounceInput {
            info_hash: hash,
            peer: [127, 0, 0, 1, 17, 0x5c],
            is_seeding: false,
            event: AnnounceEvent::Unknown,
        },
    );
    let head = b"d8:completei60e10:incompletei1e8:intervali1800e12:min intervali1800e5:peers300:";
    assert_eq!(&reply[..head.len()], &head[..]);
    assert_eq!(reply.len(), head.len() + 300 + 1);
    assert_eq!(store.stats.snapshot().2, 1);
}

// Looking up a stale torrent drops it.
#[test]
fn peer_exists_drops_stale_torrent() {
    let mut store = TrackerStore::new();
    let hash = [0x63u8; 20];
    let peer = [127, 0, 0, 1, 17, 0x5c];
    announce(&mut store, seeding(hash, peer));

    let after_ttl = store.now_secs() + TORRENT_TTL_SECS + 1;
    assert!(!store.peer_exists_at(hash, PeerPool::Seeder, peer, after_ttl));
    assert_eq!(store.torrent_count(), 0);
    assert!(!store.stripe_contains(&hash));
}

// One stripe sweep scans the stripes in turn.
#[test]
fn sweep_stale_torrents_rotates_stripes() {
    let mut store = TrackerStore::new();
    let mut hash = [0u8; 20];
    hash[0] = 1;
    let peer = [127, 0, 0, 1, 17, 0x5c];
    announce(&mut store, seeding(hash, peer));

    let after_ttl = store.now_secs() + TORRENT_TTL_SECS + 1;
    // The first sweep scans stripe 0, the second stripe 1.
    assert_eq!(store.sweep_stale_torrents_at(after_ttl), 0);
    assert_eq!(store.torrent_count(), 1);
    assert_eq!(store.sweep_stale_torrents_at(after_ttl), 1);
    assert_eq!(store.torrent_count(), 0);
}

// The stripe of an infohash is its first byte.
#[test]
fn stripe_of_is_first_byte() {
    let mut hash = [0xffu8; 20];
    hash[0] = 0x2a;
    assert_eq!(TrackerStore::stripe_of(&hash), 0x2a);
}

// A refresh with a consistent index repairs nothing.
#[test]
fn refresh_without_drift_repairs_nothing() {
    let mut store = TrackerStore::new();
    announce(&mut store, seeding([0x64u8; 20], [127, 0, 0, 1, 17, 0x5c]));
    store.refresh_peer_totals();
    assert_eq!(store.stats.sweep_snapshot().index_repaired, 0);
    assert_eq!(store.peer_totals(), (1, 1, 0));
    assert_eq!(store.stripe_index_size(), 1);
}

#[test]
fn stats_getter_reads_the_counters() {
    let mut store = TrackerStore::new();
    announce(&mut store, seeding([0x65u8; 20], [127, 0, 0, 1, 17, 0x5c]));
    assert_eq!(store.stats().announce_count, 1);
    assert_eq!(store.stats().snapshot(), store.stats.snapshot());
}

// A torrent with few peers keeps them in the order they came, and the reply
// lists them in that order.
#[test]
fn inline_peers_are_sampled_in_stored_order() {
    let mut store = TrackerStore::new();
    let hash = [0x66u8; 20];
    let peers = [[10, 0, 0, 3, 0, 1], [10, 0, 0, 1, 0, 1], [10, 0, 0, 2, 0, 1]];
    store.seed_peers(hash, PeerPool::Seeder, &peers);
    let reply = announce(
        &mut store,
        AnnounceInput {
            info_hash: hash,
            peer: [127, 0, 0, 1, 17, 0x5c],
            is_seeding: false,
            event: AnnounceEvent::Unknown,
        },
    );
    let mut expected =
        b"d8:completei3e10:incompletei1e8:intervali1800e12:min intervali1800e5:peers18:".to_vec();
    for p in peers {
        expected.extend_from_slice(&p);
    }
    expected.push(b'e');
    assert_eq!(reply, expected);
}
