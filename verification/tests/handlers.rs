use std::time::Instant;

use kiryuu::blacklist::{parse_blacklist, Blacklist};
use kiryuu::handlers::{announce, peers_from_body, pool_from_request, port_from_request, AnnounceOutcome, PeerAddr};
use kiryuu::query::{AReq, QueryError};
use kiryuu::store::{PeerPool, TrackerStore};

fn request(info_hash: &str, left: &str) -> AReq {
    AReq {
        port: 3333,
        info_hash: info_hash.to_string(),
        left: left.to_string(),
        event: None,
    }
}

#[test]
fn announce_refuses_missing_and_v6_addresses() {
    let mut store = TrackerStore::new();
    let blacklist = Blacklist::new();
    let outcome = announce(&mut store, &blacklist, PeerAddr::Missing, Ok(request("A", "0")), Instant::now());
    assert!(matches!(outcome, AnnounceOutcome::MissingIp));
    let outcome = announce(&mut store, &blacklist, PeerAddr::V6, Ok(request("A", "0")), Instant::now());
    assert!(matches!(outcome, AnnounceOutcome::Ipv6));
    assert_eq!(store.torrent_count(), 0);
}

#[test]
fn announce_passes_on_query_errors() {
    let mut store = TrackerStore::new();
    let blacklist = Blacklist::new();
    let outcome = announce(&mut store, &blacklist, PeerAddr::V4([1, 2, 3, 4]), Err(QueryError::ParseFailure), Instant::now());
    assert!(matches!(outcome, AnnounceOutcome::ParseFailure));
    let outcome = announce(&mut store, &blacklist, PeerAddr::V4([1, 2, 3, 4]), Err(QueryError::InvalidInfohash), Instant::now());
    assert!(matches!(outcome, AnnounceOutcome::InvalidInfohash));
    assert_eq!(store.torrent_count(), 0);
}

#[test]
fn announce_refuses_blacklisted_infohash() {
    let mut store = TrackerStore::new();
    let blacklist = parse_blacklist(&vec!["4100000000000000000000000000000000000000".to_string()]);
    let outcome = announce(&mut store, &blacklist, PeerAddr::V4([1, 2, 3, 4]), Ok(request("%41", "0")), Instant::now());
    assert!(matches!(outcome, AnnounceOutcome::Blacklisted));
    assert_eq!(store.torrent_count(), 0);
}

#[test]
fn announce_stores_the_peer() {
    let mut store = TrackerStore::new();
    let blacklist = Blacklist::new();
    let outcome = announce(&mut store, &blacklist, PeerAddr::V4([1, 2, 3, 4]), Ok(request("%41", "0")), Instant::now());
    match outcome {
        AnnounceOutcome::Reply(body) => assert_eq!(
            body,
            b"d8:completei1e10:incompletei0e8:intervali1800e12:min intervali1800e5:peers0:e".to_vec()
        ),
        _ => panic!("expected a reply"),
    }
    let mut hash = [0u8; 20];
    hash[0] = 0x41;
    assert!(store.peer_exists(hash, PeerPool::Seeder, [1, 2, 3, 4, 13, 5]));
}

#[test]
fn test_query_pool_and_port() {
    assert_eq!(pool_from_request("s"), Some(PeerPool::Seeder));
    assert_eq!(pool_from_request("l"), Some(PeerPool::Leecher));
    assert_eq!(pool_from_request("x"), None);
    assert_eq!(pool_from_request(""), None);
    assert_eq!(port_from_request(None), 4444);
    assert_eq!(port_from_request(Some(80)), 80);
}

#[test]
fn seed_body_splits_into_peers() {
    let body: Vec<u8> = (1u8..=12).collect();
    assert_eq!(peers_from_body(&body), Some(vec![[1, 2, 3, 4, 5, 6], [7, 8, 9, 10, 11, 12]]));
    assert_eq!(peers_from_body(&[]), Some(vec![]));
    assert_eq!(peers_from_body(&body[..7]), None);
}
