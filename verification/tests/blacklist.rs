use kiryuu::blacklist::{blacklist_entry, parse_blacklist, Blacklist};

#[test]
fn blacklist_entry_reads_hex_lines() {
    let line = "00112233445566778899aabbccddeeffAABBCCDD";
    let expected: [u8; 20] = [
        0x00, 0x11, 0x22, 0x33, 0x44, 0x55, 0x66, 0x77, 0x88, 0x99, 0xaa, 0xbb, 0xcc, 0xdd, 0xee, 0xff,
        0xaa, 0xbb, 0xcc, 0xdd,
    ];
    assert_eq!(blacklist_entry(line), Some(expected));
    // The line is taken as already trimmed.
    assert_eq!(blacklist_entry("  00112233445566778899aabbccddeeffAABBCCDD\t"), None);
    assert_eq!(blacklist_entry(""), None);
    assert_eq!(blacklist_entry("# 00112233445566778899aabbccddeeffAABBCCDD"), None);
    assert_eq!(blacklist_entry("00112233445566778899aabbccddeeffAABBCCD"), None);
    assert_eq!(blacklist_entry("00112233445566778899aabbccddeeffAABBCCDG"), None);
}

#[test]
fn parse_blacklist_keeps_valid_lines() {
    let lines = vec![
        "# comment".to_string(),
        "".to_string(),
        "0000000000000000000000000000000000000001".to_string(),
        "not hex".to_string(),
        "  ffffffffffffffffffffffffffffffffffffffff\t".to_string(),
    ];
    let blacklist = parse_blacklist(&lines);
    let mut one = [0u8; 20];
    one[19] = 1;
    assert!(blacklist.contains(&one));
    assert!(blacklist.contains(&[0xff; 20]));
    assert!(!blacklist.contains(&[0u8; 20]));
    assert!(!Blacklist::new().contains(&one));
}

// Lines are trimmed of Unicode white space, not only ASCII spaces.
#[test]
fn parse_blacklist_trims_unicode_white_space() {
    let lines = vec![
        "\u{3000}1111111111111111111111111111111111111111\u{00a0}".to_string(),
        "\u{200b}2222222222222222222222222222222222222222".to_string(),
    ];
    let blacklist = parse_blacklist(&lines);
    assert!(blacklist.contains(&[0x11; 20]));
    // U+200B is not White_Space, so that line is not 40 hex digits.
    assert!(!blacklist.contains(&[0x22; 20]));
}

// An infohash written in hex, either case, reads back.
#[test]
fn hex_infohash_round_trip() {
    let hash: [u8; 20] = [
        0x00, 0x01, 0x7f, 0x80, 0xab, 0xcd, 0xef, 0xff, 0x10, 0x32, 0x54, 0x76, 0x98, 0xba, 0xdc, 0xfe,
        0x0f, 0xf0, 0x55, 0xaa,
    ];
    let lower: String = hash.iter().map(|b| format!("{:02x}", b)).collect();
    let upper: String = hash.iter().map(|b| format!("{:02X}", b)).collect();
    assert_eq!(blacklist_entry(&lower), Some(hash));
    assert_eq!(blacklist_entry(&upper), Some(hash));
}
