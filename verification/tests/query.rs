use kiryuu::query::{announce_reply, is_zero_amount, peer_info_from_request, AReq, Event};

#[test]
fn announce_reply_layout() {
    let seeders = vec![vec![1u8, 2, 3, 4, 5, 6]];
    let leechers = vec![vec![7u8, 8, 9, 10, 11, 12], vec![13u8, 14, 15, 16, 17, 18]];
    let reply = announce_reply(1, 2, &seeders, &leechers);
    let mut expected =
        b"d8:completei1e10:incompletei2e8:intervali1800e12:min intervali1800e5:peers18:".to_vec();
    expected.extend(1u8..=18);
    expected.push(b'e');
    assert_eq!(reply, expected);
}

// The peer-length field counts six bytes a peer, whatever the vectors hold;
// negative counts are written with their sign.
#[test]
fn announce_reply_counts_peers_and_signs() {
    let seeders = vec![vec![1u8, 2, 3, 4]];
    let reply = announce_reply(-1, 0, &seeders, &[]);
    let mut expected =
        b"d8:completei-1e10:incompletei0e8:intervali1800e12:min intervali1800e5:peers6:".to_vec();
    expected.extend([1u8, 2, 3, 4]);
    expected.push(b'e');
    assert_eq!(reply, expected);
}

#[test]
fn peer_info_of_seeder() {
    let req = AReq {
        port: 3333,
        info_hash: "%41B".to_string(),
        left: "0".to_string(),
        event: Some("completed".to_string()),
    };
    let info = peer_info_from_request(&[127, 0, 0, 1], &req);
    assert_eq!(info.ip_port, [127, 0, 0, 1, 13, 5]);
    let mut hash = [0u8; 20];
    hash[0] = 0x41;
    hash[1] = 0x42;
    assert_eq!(info.info_hash.0, hash);
    assert!(info.is_seeding);
    assert!(matches!(info.event, Event::Completed));
}

#[test]
fn peer_info_of_leecher() {
    let req = AReq {
        port: 1,
        info_hash: "A".to_string(),
        left: "100".to_string(),
        event: Some("started".to_string()),
    };
    let info = peer_info_from_request(&[10, 0, 0, 2], &req);
    assert_eq!(info.ip_port, [10, 0, 0, 2, 0, 1]);
    assert!(!info.is_seeding);
    assert!(matches!(info.event, Event::Unknown));

    let stopped = AReq { event: Some("stopped".to_string()), ..req };
    assert!(matches!(peer_info_from_request(&[10, 0, 0, 2], &stopped).event, Event::Stopped));
    let none = AReq { event: None, ..stopped };
    assert!(matches!(peer_info_from_request(&[10, 0, 0, 2], &none).event, Event::Unknown));
}

// Any decimal zero left means seeding.
#[test]
fn zero_amount_left_is_seeding() {
    assert!(is_zero_amount("0"));
    assert!(is_zero_amount("00"));
    assert!(is_zero_amount("000000"));
    assert!(!is_zero_amount(""));
    assert!(!is_zero_amount("10"));
    assert!(!is_zero_amount("01"));
    assert!(!is_zero_amount("0 "));
    let req = AReq {
        port: 6881,
        info_hash: "A".to_string(),
        left: "00".to_string(),
        event: None,
    };
    assert!(peer_info_from_request(&[10, 0, 0, 3], &req).is_seeding);
}
