use vstd::prelude::*;
use vstd::string::StringSliceAdditionalSpecFns;

pub mod types;

use types::RawVal;

verus! {

/// Whether the byte is a hexadecimal digit: `0`-`9`, `a`-`f` or `A`-`F`.
pub open spec fn is_hex_digit(c: u8) -> bool {
    (0x30 <= c <= 0x39) || (0x41 <= c <= 0x46) || (0x61 <= c <= 0x66)
}

/// The numeric value of a hexadecimal digit.
pub open spec fn hex_digit_value(c: u8) -> u8 {
    if c <= 0x39 {
        (c - 0x30) as u8
    } else if c <= 0x46 {
        (c - 0x41 + 10) as u8
    } else {
        (c - 0x61 + 10) as u8
    }
}

/// What `ascii_to_nibble` computes: the byte is lower-cased by setting bit 5,
/// then letters above `` ` `` count from `a` = 10 and everything else from `0` = 0.
pub open spec fn spec_ascii_to_nibble(ascii: u8) -> u8 {
    let lower = ascii | 0x20u8;
    if lower > 0x60 {
        (lower - 0x57) as u8
    } else {
        (lower - 0x30) as u8
    }
}

/// The bytes on which `ascii_to_nibble` does not underflow.
pub open spec fn nibble_defined(ascii: u8) -> bool {
    (ascii | 0x20u8) > 0x60 || (ascii | 0x20u8) >= 0x30
}

/// Convert the ASCII hex digit to its value.
pub fn ascii_to_nibble(ascii: u8) -> (nibble: u8)
    requires
        nibble_defined(ascii),
    ensures
        nibble == spec_ascii_to_nibble(ascii),
        is_hex_digit(ascii) ==> nibble == hex_digit_value(ascii),
{
    let lower = ascii | 0b0010_0000;
    proof {
        assert(is_hex_digit(ascii) ==> (
            (0x30 <= ascii <= 0x39 ==> (ascii | 0x20u8) == ascii)
            && (0x41 <= ascii <= 0x46 ==> (ascii | 0x20u8) == ascii + 0x20)
            && (0x61 <= ascii <= 0x66 ==> (ascii | 0x20u8) == ascii)
        )) by (bit_vector);
    }
    if lower > 0x60 {
        lower - 0x57
    } else {
        lower - 0x30
    }
}

/// The three redis keys of an infohash: `<hash>:s` (seeders), `<hash>:l`
/// (leechers) and `<hash>:c` (cached reply).
pub open spec fn redis_key(infohash: Seq<u8>, suffix: u8) -> Seq<u8> {
    infohash.push(0x3a).push(suffix)
}

/// The redis key of an infohash with the given suffix.
fn redis_key_with_suffix(infohash: &[u8; 20], suffix: u8) -> (key: [u8; 22])
    ensures
        key@ == redis_key(infohash@, suffix),
{
    let mut key: [u8; 22] = [0x41u8; 22];
    let mut i: usize = 0;
    while i < 20
        invariant
            i <= 20,
            forall|j: int| 0 <= j < i ==> key@[j] == infohash@[j],
        decreases 20 - i,
    {
        key[i] = infohash[i];
        i += 1;
    }
    key[20] = 0x3a;
    key[21] = suffix;
    assert(key@ =~= redis_key(infohash@, suffix));
    key
}

/// Build the seeder, leecher and cache keys of an infohash.
pub fn make_redis_keys(infohash: &RawVal<20>) -> (keys: (RawVal<22>, RawVal<22>, RawVal<22>))
    ensures
        keys.0.0@ == redis_key(infohash.0@, 0x73),
        keys.1.0@ == redis_key(infohash.0@, 0x6c),
        keys.2.0@ == redis_key(infohash.0@, 0x63),
{
    let seeder_key = redis_key_with_suffix(&infohash.0, 0x73);
    let leecher_key = redis_key_with_suffix(&infohash.0, 0x6c);
    let cache_key = redis_key_with_suffix(&infohash.0, 0x63);
    (RawVal(seeder_key), RawVal(leecher_key), RawVal(cache_key))
}

/// The byte that a `%XY` escape stands for: the high nibble of `X` and the
/// low nibble of `Y`, each as `ascii_to_nibble` reads it.
pub open spec fn percent_byte(high: u8, low: u8) -> u8 {
    ((spec_ascii_to_nibble(high) << 4u8) | spec_ascii_to_nibble(low)) as u8
}

/// The bytes that a URL-encoded infohash stands for: `%XY` is one escaped
/// byte, any other byte stands for itself.
pub open spec fn url_decode(s: Seq<u8>) -> Seq<u8>
    decreases s.len(),
{
    if s.len() == 0 {
        Seq::empty()
    } else if s[0] == 0x25 {
        if s.len() >= 3 {
            seq![percent_byte(s[1], s[2])] + url_decode(s.skip(3))
        } else {
            Seq::empty()
        }
    } else {
        seq![s[0]] + url_decode(s.skip(1))
    }
}

/// Every `%` is followed by two bytes that `ascii_to_nibble` can read.
pub open spec fn url_escapes_complete(s: Seq<u8>) -> bool
    decreases s.len(),
{
    if s.len() == 0 {
        true
    } else if s[0] == 0x25 {
        s.len() >= 3 && nibble_defined(s[1]) && nibble_defined(s[2])
            && url_escapes_complete(s.skip(3))
    } else {
        url_escapes_complete(s.skip(1))
    }
}

/// A URL-encoded infohash that decodes without running past its escapes or
/// past 20 bytes.
pub open spec fn url_decodable(s: Seq<u8>) -> bool {
    url_escapes_complete(s) && url_decode(s).len() <= 20
}

/// `n` zero bytes.
pub open spec fn zeros(n: int) -> Seq<u8> {
    Seq::new(n as nat, |i: int| 0u8)
}

/// Skipping `a` then `b` elements skips `a + b`.
proof fn lemma_skip_skip(s: Seq<u8>, a: int, b: int)
    requires
        0 <= a,
        0 <= b,
        a + b <= s.len(),
    ensures
        s.skip(a).skip(b) =~= s.skip(a + b),
{
}

/// Whether `urlenc` decodes into at most 20 bytes with every escape complete.
pub fn is_url_decodable(urlenc: &str) -> (ok: bool)
    ensures
        ok == url_decodable(urlenc.spec_bytes()),
{
    let raw = urlenc.as_bytes();
    let max = raw.len();
    let mut pos: usize = 0;
    let mut decoded: usize = 0;
    let ghost s = raw@;
    assert(s.skip(0) =~= s);
    while pos < max
        invariant
            s == raw@,
            s == urlenc.spec_bytes(),
            max == s.len(),
            pos <= max,
            decoded <= 20,
            url_escapes_complete(s) == url_escapes_complete(s.skip(pos as int)),
            url_decode(s).len() == decoded + url_decode(s.skip(pos as int)).len(),
        decreases max - pos,
    {
        let ghost rest = s.skip(pos as int);
        assert(rest[0] == s[pos as int]);
        if raw[pos] == 0x25 {
            if max - pos <= 2 {
                return false;
            }
            assert(rest[1] == s[pos + 1] && rest[2] == s[pos + 2]);
            if !(((raw[pos + 1] | 0x20) > 0x60 || (raw[pos + 1] | 0x20) >= 0x30)
                && ((raw[pos + 2] | 0x20) > 0x60 || (raw[pos + 2] | 0x20) >= 0x30)) {
                return false;
            }
            proof { lemma_skip_skip(s, pos as int, 3); }
            pos += 3;
        } else {
            proof { lemma_skip_skip(s, pos as int, 1); }
            pos += 1;
        }
        if decoded == 20 {
            return false;
        }
        decoded += 1;
    }
    assert(s.skip(max as int) =~= Seq::<u8>::empty());
    true
}

/// Decode a URL-encoded infohash into its 20 raw bytes, padding with zero
/// bytes when it decodes into fewer.
pub fn url_encoded_to_raw_u8(urlenc: &str) -> (raw_infohash: [u8; 20])
    requires
        url_decodable(urlenc.spec_bytes()),
    ensures
        raw_infohash@ == url_decode(urlenc.spec_bytes()) + zeros(
            20 - url_decode(urlenc.spec_bytes()).len(),
        ),
{
    let mut raw_infohash: [u8; 20] = [0x00; 20];
    let mut pos_urlenc: usize = 0;
    let mut pos_raw_infohash: usize = 0;
    let raw_urlenc = urlenc.as_bytes();
    let max = raw_urlenc.len();
    let ghost s = raw_urlenc@;
    assert(s.skip(0) =~= s);
    while pos_urlenc < max
        invariant
            s == raw_urlenc@,
            max == s.len(),
            pos_urlenc <= max,
            pos_raw_infohash <= 20,
            url_escapes_complete(s.skip(pos_urlenc as int)),
            url_decode(s).len() <= 20,
            url_decode(s) == raw_infohash@.take(pos_raw_infohash as int) + url_decode(
                s.skip(pos_urlenc as int),
            ),
            forall|j: int| pos_raw_infohash <= j < 20 ==> raw_infohash@[j] == 0u8,
        decreases max - pos_urlenc,
    {
        let ghost rest = s.skip(pos_urlenc as int);
        let ghost before = raw_infohash@;
        if raw_urlenc[pos_urlenc] == 0x25 {
            let high = ascii_to_nibble(raw_urlenc[pos_urlenc + 1]);
            let low = ascii_to_nibble(raw_urlenc[pos_urlenc + 2]);
            raw_infohash[pos_raw_infohash] = (high << 4) | low;
            proof {
                lemma_skip_skip(s, pos_urlenc as int, 3);
                assert(raw_infohash@.take(pos_raw_infohash + 1) =~= before.take(
                    pos_raw_infohash as int,
                ) + seq![percent_byte(rest[1], rest[2])]);
            }
            pos_raw_infohash += 1;
            pos_urlenc += 3;
        } else {
            raw_infohash[pos_raw_infohash] = raw_urlenc[pos_urlenc];
            proof {
                lemma_skip_skip(s, pos_urlenc as int, 1);
                assert(raw_infohash@.take(pos_raw_infohash + 1) =~= before.take(
                    pos_raw_infohash as int,
                ) + seq![rest[0]]);
            }
            pos_raw_infohash += 1;
            pos_urlenc += 1;
        }
    }
    assert(s.skip(max as int) =~= Seq::<u8>::empty());
    assert(raw_infohash@ =~= url_decode(s) + zeros(20 - url_decode(s).len()));
    raw_infohash
}

/// The ASCII lowercase hex digit of a nibble below 16 (`0`-`9`, `a`-`f`).
pub open spec fn spec_nibble_to_ascii(nibble: u8) -> u8 {
    if nibble < 0xA {
        (nibble + 0x30) as u8
    } else {
        (nibble + 0x57) as u8
    }
}

/// Convert a nibble to its lowercase ASCII hex digit.
pub fn nibble_to_ascii(nibble: u8) -> (ascii: u8)
    requires
        nibble <= 0xA8,
    ensures
        ascii == spec_nibble_to_ascii(nibble),
        nibble < 16 ==> is_hex_digit(ascii) && hex_digit_value(ascii) == nibble,
{
    if nibble < 0xA {
        nibble + 0x30
    } else {
        nibble + 0x57
    }
}

/// Reading back the digit that `nibble_to_ascii` writes gives the nibble again.
pub proof fn lemma_nibble_ascii_roundtrip(nibble: u8)
    requires
        nibble < 16,
    ensures
        nibble_defined(spec_nibble_to_ascii(nibble)),
        spec_ascii_to_nibble(spec_nibble_to_ascii(nibble)) == nibble,
{
    let a = spec_nibble_to_ascii(nibble);
    assert(nibble < 16 ==> ({
        let a = if nibble < 0xA { (nibble + 0x30) as u8 } else { (nibble + 0x57) as u8 };
        &&& ((a | 0x20u8) > 0x60 || (a | 0x20u8) >= 0x30)
        &&& (if (a | 0x20u8) > 0x60 { ((a | 0x20u8) - 0x57) as u8 } else { ((a | 0x20u8) - 0x30) as u8 }) == nibble
    })) by (bit_vector);
}

/// A hex digit read by `ascii_to_nibble` and written back by
/// `nibble_to_ascii` comes out as the same digit in lowercase.
pub proof fn lemma_ascii_nibble_roundtrip(ascii: u8)
    requires
        is_hex_digit(ascii),
    ensures
        nibble_defined(ascii),
        spec_nibble_to_ascii(spec_ascii_to_nibble(ascii)) == (ascii | 0x20u8),
{
    assert((0x30 <= ascii <= 0x39 || 0x41 <= ascii <= 0x46 || 0x61 <= ascii <= 0x66) ==> ({
        let lower = ascii | 0x20u8;
        let n = if lower > 0x60 { (lower - 0x57) as u8 } else { (lower - 0x30) as u8 };
        &&& ((ascii | 0x20u8) > 0x60 || (ascii | 0x20u8) >= 0x30)
        &&& (if n < 0xA { (n + 0x30) as u8 } else { (n + 0x57) as u8 }) == lower
    })) by (bit_vector);
}

/// The hex digit of a nibble below 16, in upper or lower case.
pub open spec fn hex_digit(nibble: u8, upper: bool) -> u8 {
    if nibble < 10 {
        (nibble + 0x30) as u8
    } else if upper {
        (nibble + 0x37) as u8
    } else {
        (nibble + 0x57) as u8
    }
}

/// A hex digit of either case is a hex digit, of the nibble's value, and
/// `ascii_to_nibble` reads it back.
pub proof fn lemma_hex_digit(nibble: u8, upper: bool)
    requires
        nibble < 16,
    ensures
        is_hex_digit(hex_digit(nibble, upper)),
        hex_digit_value(hex_digit(nibble, upper)) == nibble,
        nibble_defined(hex_digit(nibble, upper)),
        spec_ascii_to_nibble(hex_digit(nibble, upper)) == nibble,
{
    let d = hex_digit(nibble, upper);
    assert(nibble < 16 ==> ({
        let d = if nibble < 10 {
            (nibble + 0x30) as u8
        } else if upper {
            (nibble + 0x37) as u8
        } else {
            (nibble + 0x57) as u8
        };
        let lower = d | 0x20u8;
        &&& (lower > 0x60 || lower >= 0x30)
        &&& (if lower > 0x60 { (lower - 0x57) as u8 } else { (lower - 0x30) as u8 }) == nibble
    })) by (bit_vector);
}

/// The high and low nibbles of a byte put back together give the byte.
pub proof fn lemma_nibbles(b: u8)
    ensures
        b >> 4u8 < 16,
        b & 0xfu8 < 16,
        (((b >> 4u8) << 4u8) | (b & 0xfu8)) as u8 == b,
        (b >> 4u8) * 16 + (b & 0xfu8) == b,
{
    assert(b >> 4u8 < 16 && b & 0xfu8 < 16 && ((b >> 4u8) << 4u8) | (b & 0xfu8) == b) by (bit_vector);
    assert((b >> 4u8) * 16 + (b & 0xfu8) == b) by (bit_vector);
}

/// Each byte written as a `%XY` escape of its two hex digits.
pub open spec fn percent_encode(bytes: Seq<u8>, upper: bool) -> Seq<u8>
    decreases bytes.len(),
{
    if bytes.len() == 0 {
        Seq::empty()
    } else {
        seq![0x25u8, hex_digit(bytes[0] >> 4u8, upper), hex_digit(bytes[0] & 0xfu8, upper)]
            + percent_encode(bytes.drop_first(), upper)
    }
}

/// Bytes written as `%XY` escapes, in either case, decode back to the same
/// bytes; at most 20 of them are a decodable infohash.
pub proof fn law_percent_encoding_decodes(bytes: Seq<u8>, upper: bool)
    ensures
        url_escapes_complete(percent_encode(bytes, upper)),
        url_decode(percent_encode(bytes, upper)) == bytes,
        bytes.len() <= 20 ==> url_decodable(percent_encode(bytes, upper)),
    decreases bytes.len(),
{
    if bytes.len() > 0 {
        let b = bytes[0];
        let s = percent_encode(bytes, upper);
        let rest = percent_encode(bytes.drop_first(), upper);
        law_percent_encoding_decodes(bytes.drop_first(), upper);
        lemma_nibbles(b);
        lemma_hex_digit(b >> 4u8, upper);
        lemma_hex_digit(b & 0xfu8, upper);
        assert(s.skip(3) =~= rest);
        assert(s[0] == 0x25u8);
        assert(percent_byte(s[1], s[2]) == b);
        assert(url_decode(s) == seq![percent_byte(s[1], s[2])] + url_decode(s.skip(3)));
        assert(url_decode(s) =~= bytes);
    }
}

/// `ascii_to_nibble` reads a hex digit of either case as its value.
pub proof fn lemma_hex_digit_nibble(c: u8)
    requires
        is_hex_digit(c),
    ensures
        nibble_defined(c),
        spec_ascii_to_nibble(c) == hex_digit_value(c),
        hex_digit_value(c) < 16,
{
    assert((0x30 <= c <= 0x39 || 0x41 <= c <= 0x46 || 0x61 <= c <= 0x66) ==> ({
        let lower = c | 0x20u8;
        let v = if c <= 0x39 {
            (c - 0x30) as u8
        } else if c <= 0x46 {
            (c - 0x41 + 10) as u8
        } else {
            (c - 0x61 + 10) as u8
        };
        &&& (lower > 0x60 || lower >= 0x30)
        &&& (if lower > 0x60 { (lower - 0x57) as u8 } else { (lower - 0x30) as u8 }) == v
        &&& v < 16
    })) by (bit_vector);
}

/// A `%XY` escape with hex digits `X` and `Y`, in either case, stands for
/// the byte `16 * X + Y`.
pub proof fn law_percent_escape_value(x: u8, y: u8)
    requires
        is_hex_digit(x),
        is_hex_digit(y),
    ensures
        nibble_defined(x),
        nibble_defined(y),
        percent_byte(x, y) == 16 * hex_digit_value(x) + hex_digit_value(y),
{
    lemma_hex_digit_nibble(x);
    lemma_hex_digit_nibble(y);
    let a = hex_digit_value(x);
    let b = hex_digit_value(y);
    assert(a < 16 && b < 16 ==> ((a << 4u8) | b) as u8 == 16 * a + b) by (bit_vector);
}

/// Every `%` is followed by two hex digits.
pub open spec fn hex_escapes(s: Seq<u8>) -> bool
    decreases s.len(),
{
    if s.len() == 0 {
        true
    } else if s[0] == 0x25 {
        s.len() >= 3 && is_hex_digit(s[1]) && is_hex_digit(s[2]) && hex_escapes(s.skip(3))
    } else {
        hex_escapes(s.skip(1))
    }
}

/// Percent-decoding in hex arithmetic: `%XY` is the byte `16 * X + Y` of its
/// hex digits, any other byte stands for itself.
pub open spec fn percent_decode(s: Seq<u8>) -> Seq<u8>
    decreases s.len(),
{
    if s.len() == 0 {
        Seq::empty()
    } else if s[0] == 0x25 && s.len() >= 3 {
        seq![(16 * hex_digit_value(s[1]) + hex_digit_value(s[2])) as u8] + percent_decode(s.skip(3))
    } else if s[0] == 0x25 {
        Seq::empty()
    } else {
        seq![s[0]] + percent_decode(s.skip(1))
    }
}

/// Where every `%` is followed by two hex digits, the escapes are complete
/// and decoding is percent-decoding in hex arithmetic; with at most 20
/// decoded bytes the text is a decodable infohash, which
/// `url_encoded_to_raw_u8` turns into those bytes padded with zeros.
pub proof fn law_url_decode_is_percent_decode(s: Seq<u8>)
    requires
        hex_escapes(s),
    ensures
        url_escapes_complete(s),
        url_decode(s) == percent_decode(s),
        percent_decode(s).len() <= 20 ==> url_decodable(s),
    decreases s.len(),
{
    if s.len() > 0 {
        if s[0] == 0x25 {
            law_url_decode_is_percent_decode(s.skip(3));
            law_percent_escape_value(s[1], s[2]);
        } else {
            law_url_decode_is_percent_decode(s.skip(1));
        }
    }
}

/// The 6-byte compact peer form: the IPv4 octets, then the port in
/// big-endian order.
pub open spec fn compact_peer(ip_octets: Seq<u8>, port: u16) -> Seq<u8> {
    ip_octets.push((port >> 8u16) as u8).push((port & 0xffu16) as u8)
}

/// Convert the IPv4 address (as its four octets) and port to the 6-byte
/// compact peer form.
pub fn ip_str_port_u16_to_bytes(ip_octets: &[u8; 4], port: u16) -> (result: [u8; 6])
    ensures
        result@ == compact_peer(ip_octets@, port),
        result[4] as int * 256 + result[5] as int == port as int,
{
    let mut result: [u8; 6] = [0; 6];
    let mut i: usize = 0;
    while i < 4
        invariant
            i <= 4,
            forall|j: int| 0 <= j < i ==> result@[j] == ip_octets@[j],
        decreases 4 - i,
    {
        result[i] = ip_octets[i];
        i += 1;
    }
    result[4] = (port >> 8) as u8;
    result[5] = (port & 0xff) as u8;
    assert(((port >> 8u16) as u8) as int * 256 + ((port & 0xffu16) as u8) as int == port as int)
        by (bit_vector);
    assert(result@ =~= compact_peer(ip_octets@, port));
    result
}

/// Copy the first 40 bytes of `infohash` (a hex-encoded infohash) over the
/// start of `key`.
pub fn overwrite_keys(infohash: &[u8], key: &mut [u8])
    requires
        infohash@.len() >= 40,
        old(key)@.len() >= 40,
    ensures
        final(key)@ == infohash@.take(40) + old(key)@.skip(40),
{
    let mut i: usize = 0;
    while i < 40
        invariant
            i <= 40,
            infohash@.len() >= 40,
            old(key)@.len() >= 40,
            key@.len() == old(key)@.len(),
            forall|j: int| 0 <= j < i ==> key@[j] == infohash@[j],
            forall|j: int| 40 <= j < key@.len() ==> key@[j] == old(key)@[j],
        decreases 40 - i,
    {
        key[i] = infohash[i];
        i += 1;
    }
    assert(key@ =~= infohash@.take(40) + old(key)@.skip(40));
}

} // verus!
