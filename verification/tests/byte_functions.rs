use kiryuu::byte_functions::types::RawVal;
use kiryuu::byte_functions::{
    ascii_to_nibble, ip_str_port_u16_to_bytes, is_url_decodable, make_redis_keys, nibble_to_ascii,
    overwrite_keys, url_encoded_to_raw_u8,
};

#[test]
fn mod_is_legit_v2() {
    // All the extra bytes will be 0x00
    assert_eq!(*b"\x41\x00\x00\x00\x00\x00\x00\x00\x00\x00\x00\x00\x00\x00\x00\x00\x00\x00\x00\x00", url_encoded_to_raw_u8("A"));
    assert_eq!(*b"\x25\x00\x00\x00\x00\x00\x00\x00\x00\x00\x00\x00\x00\x00\x00\x00\x00\x00\x00\x00", url_encoded_to_raw_u8("%25"));
    assert_eq!(*b"\x43\x20\x00\x00\x00\x00\x00\x00\x00\x00\x00\x00\x00\x00\x00\x00\x00\x00\x00\x00", url_encoded_to_raw_u8("C%20"));
    assert_eq!(*b"\xFF\x43\x00\x00\x00\x00\x00\x00\x00\x00\x00\x00\x00\x00\x00\x00\x00\x00\x00\x00", url_encoded_to_raw_u8("%FFC"));
    assert_eq!(*b"\x41\x42\x00\x00\x00\x00\x00\x00\x00\x00\x00\x00\x00\x00\x00\x00\x00\x00\x00\x00", url_encoded_to_raw_u8("%41B"));
    assert_eq!(*b"\x42\x41\x00\x00\x00\x00\x00\x00\x00\x00\x00\x00\x00\x00\x00\x00\x00\x00\x00\x00", url_encoded_to_raw_u8("B%41"));
    assert_eq!(*b"\x42\x41\x00\x00\x00\x00\x00\x00\x00\x00\x00\x00\x00\x00\x00\x00\x00\x00\x00\x00", url_encoded_to_raw_u8("BA"));
    assert_eq!(*b"\x41\x42\x00\x00\x00\x00\x00\x00\x00\x00\x00\x00\x00\x00\x00\x00\x00\x00\x00\x00", url_encoded_to_raw_u8("%41%42"));
}

#[test]
fn mod_can_parse_ip_port() {
    assert_eq!(vec![127, 0, 0, 1, 13, 5], ip_str_port_u16_to_bytes(&[127, 0, 0, 1], 3333));
    assert_eq!(vec![1, 1, 1, 1, 255, 255], ip_str_port_u16_to_bytes(&[1, 1, 1, 1], 65535)); // Shilling Cloudflare
    assert_eq!(vec![192, 168, 1, 1, 105, 137], ip_str_port_u16_to_bytes(&[192, 168, 1, 1], 27017));
}

#[test]
fn test_ascii_to_nibble() {
    assert_eq!(ascii_to_nibble(b'A'), 0x0A);
    assert_eq!(ascii_to_nibble(b'F'), 0x0F);
    assert_eq!(ascii_to_nibble(b'0'), 0x00);
    assert_eq!(ascii_to_nibble(b'9'), 0x09);
}

#[test]
fn is_legit_v4() {}

#[test]
fn tests_can_parse_ip_port() {
    assert_eq!(vec![127, 0, 0, 1, 13, 5], ip_str_port_u16_to_bytes(&[127, 0, 0, 1], 3333));
    assert_eq!(vec![1, 1, 1, 1, 255, 255], ip_str_port_u16_to_bytes(&[1, 1, 1, 1], 65535)); // Shilling Cloudflare
    assert_eq!(vec![192, 168, 1, 1, 105, 137], ip_str_port_u16_to_bytes(&[192, 168, 1, 1], 27017));
}

#[test]
fn can_parse_ip_port_u8() {
    assert_eq!([127, 0, 0, 1, 13, 5], ip_str_port_u16_to_bytes(&[127, 0, 0, 1], 3333));
    assert_eq!([1, 1, 1, 1, 255, 255], ip_str_port_u16_to_bytes(&[1, 1, 1, 1], 65535)); // Shilling Cloudflare
    assert_eq!([192, 168, 1, 1, 105, 137], ip_str_port_u16_to_bytes(&[192, 168, 1, 1], 27017));
}

#[allow(non_snake_case)]
#[test]
fn compareUrlToHex() {
    let expected: [u8; 20] = [
        0xDD, 0x00, 0xD2, 0x1C, b'u', b'D', b'A', 0xAA, b'L', 0xB6, b'J', 0x1E, 0xA7, b'z', 0x2C, b'v',
        b'F', b'A', b'R', 0xC3,
    ];
    for _ in 0..100000 {
        assert_eq!(url_encoded_to_raw_u8("%DD%00%D2%1CuDA%AAL%B6J%1E%A7z%2CvFAR%C3"), expected);
    }
}

// Lower-case hex digits decode as upper-case ones do.
#[test]
fn ascii_to_nibble_lower_case() {
    assert_eq!(ascii_to_nibble(b'a'), 0x0A);
    assert_eq!(ascii_to_nibble(b'f'), 0x0F);
}

// Nibbles encode as lower-case hex digits, and decode back.
#[test]
fn nibble_to_ascii_round_trip() {
    assert_eq!(nibble_to_ascii(0x0), b'0');
    assert_eq!(nibble_to_ascii(0x9), b'9');
    assert_eq!(nibble_to_ascii(0xA), b'a');
    assert_eq!(nibble_to_ascii(0xF), b'f');
    for n in 0u8..16 {
        assert_eq!(ascii_to_nibble(nibble_to_ascii(n)), n);
    }
}

// Malformed escapes and overlong infohashes are not decodable.
#[test]
fn url_decodable_edges() {
    assert!(is_url_decodable("%41%42"));
    assert!(is_url_decodable(""));
    assert!(is_url_decodable("AAAAAAAAAAAAAAAAAAAA"));
    assert!(!is_url_decodable("AAAAAAAAAAAAAAAAAAAAA"));
    assert!(!is_url_decodable("%A"));
    assert!(!is_url_decodable("%"));
    assert!(!is_url_decodable("%!0"));
    // A letter past `f` is not refused: it decodes to a nibble past 15.
    assert!(is_url_decodable("%G0"));
}

#[test]
fn make_redis_keys_suffixes() {
    let hash = RawVal([0x11u8; 20]);
    let (seeders, leechers, cache) = make_redis_keys(&hash);
    let mut expected = [0x11u8; 22];
    expected[20] = b':';
    expected[21] = b's';
    assert_eq!(seeders.0, expected);
    expected[21] = b'l';
    assert_eq!(leechers.0, expected);
    expected[21] = b'c';
    assert_eq!(cache.0, expected);
    assert_eq!(cache.get(21), b'c');
}

#[test]
fn overwrite_keys_copies_forty_bytes() {
    let infohash = [b'x'; 40];
    let mut key: [u8; 48] = *b"AAAAAAAAAAAAAAAAAAAAAAAAAAAAAAAAAAAAAAAA_seeders";
    overwrite_keys(&infohash, &mut key);
    assert_eq!(&key[..40], &infohash[..]);
    assert_eq!(&key[40..], b"_seeders");
}

#[test]
fn compare() {
    for _ in 0..1000000 {
        assert_eq!(ip_str_port_u16_to_bytes(&[127, 0, 0, 1], 3333), [127, 0, 0, 1, 13, 5]);
    }
}

// Twenty bytes written as `%XY` escapes, either case, decode back.
#[test]
fn percent_encoding_round_trip() {
    let bytes: [u8; 20] = [
        0x00, 0x01, 0x25, 0x41, 0x7f, 0x80, 0xab, 0xcd, 0xef, 0xff, 0x10, 0x32, 0x54, 0x76, 0x98, 0xba,
        0xdc, 0xfe, 0x0f, 0xf0,
    ];
    let lower: String = bytes.iter().map(|b| format!("%{:02x}", b)).collect();
    let upper: String = bytes.iter().map(|b| format!("%{:02X}", b)).collect();
    assert!(is_url_decodable(&lower));
    assert!(is_url_decodable(&upper));
    assert_eq!(url_encoded_to_raw_u8(&lower), bytes);
    assert_eq!(url_encoded_to_raw_u8(&upper), bytes);
}
