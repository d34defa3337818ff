use ahash::RandomState;
use dashmap::DashMap;
use vstd::prelude::*;

use super::peers::{pool_count, spec_is_stale, PeerMeta, Torrent, TorrentView};

verus! {

#[verifier::external_type_specification]
#[verifier::external_body]
#[verifier::reject_recursive_types(K)]
#[verifier::reject_recursive_types(V)]
#[verifier::reject_recursive_types(S)]
pub struct ExDashMap<K, V, S>(DashMap<K, V, S>);

/// The torrents by infohash.
pub type TorrentTable = DashMap<[u8; 20], Torrent, RandomState>;

/// The name of what a torrent table holds: each infohash's torrent.
pub uninterp spec fn torrent_table(table: TorrentTable) -> Map<
    [u8; 20],
    TorrentView,
>;

/// `DashMap::with_hasher`: an empty table.
#[verifier::external_body]
pub(crate) fn new_table(hasher: RandomState) -> (created: TorrentTable)
    ensures
        torrent_table(created).dom() == Set::<[u8; 20]>::empty(),
{
    DashMap::with_hasher(hasher)
}

/// `DashMap::len`: the number of torrents in the table.
#[verifier::external_body]
pub(crate) fn table_len(table: &TorrentTable) -> (count: usize)
    ensures
        count == torrent_table(*table).len(),
{
    table.len()
}

/// `DashMap::insert`: the torrent is stored under the infohash, replacing
/// and handing back what was there.
#[verifier::external_body]
pub(crate) fn table_insert(
    table: &mut TorrentTable,
    info_hash: [u8; 20],
    torrent: Torrent,
) -> (previous: Option<Torrent>)
    ensures
        torrent_table(*final(table)) == torrent_table(*old(table)).insert(info_hash, torrent@),
        match previous {
            Some(t) => torrent_table(*old(table)).contains_key(info_hash) && t@ == torrent_table(
                *old(table),
            )[info_hash],
            None => !torrent_table(*old(table)).contains_key(info_hash),
        },
{
    table.insert(info_hash, torrent)
}

/// `DashMap::remove`: the infohash's torrent leaves the table and is handed
/// back, if there was one.
#[verifier::external_body]
pub(crate) fn table_remove(table: &mut TorrentTable, info_hash: &[u8; 20]) -> (removed: Option<([u8; 20], Torrent)>)
    ensures
        torrent_table(*final(table)) == torrent_table(*old(table)).remove(*info_hash),
        match removed {
            Some((k, t)) => k == *info_hash && torrent_table(*old(table)).contains_key(*info_hash)
                && t@ == torrent_table(*old(table))[*info_hash],
            None => !torrent_table(*old(table)).contains_key(*info_hash),
        },
{
    table.remove(info_hash)
}

/// `DashMap::remove_if` with `Torrent::is_stale(now)` as the condition: the
/// torrent leaves the table (and is handed back) exactly when it is there
/// and stale at `now`.
#[verifier::external_body]
pub(crate) fn table_remove_if_stale(
    table: &mut TorrentTable,
    info_hash: &[u8; 20],
    now: u32,
) -> (removed: Option<([u8; 20], Torrent)>)
    ensures
        ({
            let before = torrent_table(*old(table));
            if before.contains_key(*info_hash) && spec_is_stale(before[*info_hash].last_activity, now) {
                &&& torrent_table(*final(table)) == before.remove(*info_hash)
                &&& removed matches Some((k, t)) && k == *info_hash && t@ == before[*info_hash]
            } else {
                &&& torrent_table(*final(table)) == before
                &&& removed is None
            }
        }),
{
    table.remove_if(info_hash, |_, torrent| torrent.is_stale(now))
}

/// `DashMap::view`: `f` applied to the infohash's torrent, if there is one.
#[verifier::external_body]
pub(crate) fn table_view<R, F: FnOnce(&Torrent) -> R>(table: &TorrentTable, info_hash: &[u8; 20], f: F) -> (result: Option<R>)
    requires
        forall|t: &Torrent| #[trigger] f.requires((t,)),
    ensures
        match result {
            Some(r) => torrent_table(*table).contains_key(*info_hash) && exists|t: &Torrent|
                t@ == torrent_table(*table)[*info_hash] && #[trigger] f.ensures((t,), r),
            None => !torrent_table(*table).contains_key(*info_hash),
        },
{
    table.view(info_hash, |_, torrent| f(torrent))
}

/// Whether the infohash's torrent is stale at `now`, if there is one.
pub(crate) fn table_view_stale(table: &TorrentTable, info_hash: &[u8; 20], now: u32) -> (stale: Option<bool>)
    ensures
        stale == (if torrent_table(*table).contains_key(*info_hash) {
            Some(spec_is_stale(torrent_table(*table)[*info_hash].last_activity, now))
        } else {
            None::<bool>
        }),
{
    table_view(
        table,
        info_hash,
        (|torrent: &Torrent| -> (stale: bool)
            ensures
                stale == spec_is_stale(torrent@.last_activity, now),
            { torrent.is_stale(now) }),
    )
}

/// The metadata of a peer of the infohash's torrent; the outer `None` when
/// there is no such torrent.
pub(crate) fn table_get_peer(table: &TorrentTable, info_hash: &[u8; 20], key: u64) -> (meta: Option<Option<PeerMeta>>)
    ensures
        meta == (if torrent_table(*table).contains_key(*info_hash) {
            let peers = torrent_table(*table)[*info_hash].peers;
            Some(if peers.contains_key(key) { Some(peers[key]) } else { None::<PeerMeta> })
        } else {
            None::<Option<PeerMeta>>
        }),
{
    table_view(
        table,
        info_hash,
        (|torrent: &Torrent| -> (meta: Option<PeerMeta>)
            ensures
                meta == (if torrent@.peers.contains_key(key) {
                    Some(torrent@.peers[key])
                } else {
                    None::<PeerMeta>
                }),
            { torrent.peer(key) }),
    )
}

/// The seeder and leecher counts of the infohash's torrent, expired peers
/// included, if there is one.
pub(crate) fn table_view_raw_counts(table: &TorrentTable, info_hash: &[u8; 20]) -> (counts: Option<(usize, usize)>)
    ensures
        match counts {
            Some((seeders, leechers)) => torrent_table(*table).contains_key(*info_hash)
                && seeders == pool_count(torrent_table(*table)[*info_hash].peers, true)
                && leechers == pool_count(torrent_table(*table)[*info_hash].peers, false),
            None => !torrent_table(*table).contains_key(*info_hash),
        },
{
    table_view(
        table,
        info_hash,
        (|torrent: &Torrent| -> (counts: (usize, usize))
            ensures
                counts.0 == pool_count(torrent@.peers, true),
                counts.1 == pool_count(torrent@.peers, false),
            { torrent.raw_counts() }),
    )
}

/// `DashMap::iter`, keys collected: each infohash of the table, once.
#[verifier::external_body]
pub(crate) fn table_keys(table: &TorrentTable) -> (keys: Vec<[u8; 20]>)
    ensures
        keys@.no_duplicates(),
        keys@.to_set() == torrent_table(*table).dom(),
{
    table.iter().map(|entry| *entry.key()).collect()
}

} // verus!
