use vstd::prelude::*;
use vstd::string::StringSliceAdditionalSpecFns;

use crate::byte_functions::{hex_digit, hex_digit_value, is_hex_digit, lemma_hex_digit, lemma_nibbles};
use crate::keyset::{key_set_contains, key_set_insert, new_hasher, new_key_set, KeySet};

verus! {

/// The infohashes that the tracker refuses to serve.
pub struct Blacklist {
    hashes: KeySet,
}

impl View for Blacklist {
    type V = Set<[u8; 20]>;

    closed spec fn view(&self) -> Set<[u8; 20]> {
        self.hashes@
    }
}

/// Whether the character has the Unicode property `White_Space`.
pub open spec fn is_white_space(c: char) -> bool {
    let u = c as u32;
    ||| 0x09 <= u <= 0x0d
    ||| u == 0x20
    ||| u == 0x85
    ||| u == 0xa0
    ||| u == 0x1680
    ||| 0x2000 <= u <= 0x200a
    ||| u == 0x2028
    ||| u == 0x2029
    ||| u == 0x202f
    ||| u == 0x205f
    ||| u == 0x3000
}

/// The string without its leading `White_Space` characters.
pub open spec fn trim_start(s: Seq<char>) -> Seq<char>
    decreases s.len(),
{
    if s.len() > 0 && is_white_space(s[0]) {
        trim_start(s.drop_first())
    } else {
        s
    }
}

/// The string without its trailing `White_Space` characters.
pub open spec fn trim_end(s: Seq<char>) -> Seq<char>
    decreases s.len(),
{
    if s.len() > 0 && is_white_space(s.last()) {
        trim_end(s.drop_last())
    } else {
        s
    }
}

/// The string without its leading and trailing `White_Space` characters.
pub open spec fn str_trim(s: Seq<char>) -> Seq<char> {
    trim_end(trim_start(s))
}

/// `str::trim`: the string without leading and trailing whitespace, as the
/// Unicode property `White_Space` defines it.
#[verifier::external_body]
fn trim(s: &str) -> (trimmed: &str)
    ensures
        trimmed@ == str_trim(s@),
{
    s.trim()
}

impl Blacklist {
    /// An empty blacklist.
    pub fn new() -> (blacklist: Blacklist)
        ensures
            blacklist@ == Set::<[u8; 20]>::empty(),
    {
        Blacklist { hashes: new_key_set(new_hasher()) }
    }

    /// Whether the infohash is blacklisted.
    pub fn contains(&self, hash: &[u8; 20]) -> (found: bool)
        ensures
            found == self@.contains(*hash),
    {
        key_set_contains(&self.hashes, hash)
    }
}

/// The value of a hex digit, if the byte is one.
fn ascii_to_nibble(ascii: u8) -> (nibble: Option<u8>)
    ensures
        nibble == (if is_hex_digit(ascii) { Some(hex_digit_value(ascii)) } else { None::<u8> }),
{
    if 0x30 <= ascii && ascii <= 0x39 {
        Some(ascii - 0x30)
    } else if 0x61 <= ascii && ascii <= 0x66 {
        Some(ascii - 0x61 + 10)
    } else if 0x41 <= ascii && ascii <= 0x46 {
        Some(ascii - 0x41 + 10)
    } else {
        None
    }
}

/// 40 hex digits, two per byte.
pub open spec fn is_hex_infohash(hex: Seq<u8>) -> bool {
    hex.len() == 40 && forall|i: int| 0 <= i < 40 ==> #[trigger] is_hex_digit(hex[i])
}

/// The 20 bytes that 40 hex digits spell, high nibble first.
pub open spec fn hex_infohash(hex: Seq<u8>) -> Seq<u8> {
    Seq::new(
        20,
        |i: int| (hex_digit_value(hex[2 * i]) * 16 + hex_digit_value(hex[2 * i + 1])) as u8,
    )
}

/// Decode a hex-encoded infohash; `None` unless it is exactly 40 hex digits.
fn hex_to_bytes(hex: &str) -> (bytes: Option<[u8; 20]>)
    ensures
        bytes is Some <==> is_hex_infohash(hex.spec_bytes()),
        bytes matches Some(b) ==> b@ == hex_infohash(hex.spec_bytes()),
{
    let hex_bytes = hex.as_bytes();
    if hex_bytes.len() != 40 {
        return None;
    }
    let ghost h = hex_bytes@;
    let mut bytes = [0u8; 20];
    let mut i: usize = 0;
    while i < 20
        invariant
            h == hex_bytes@,
            h == hex.spec_bytes(),
            h.len() == 40,
            i <= 20,
            forall|j: int| 0 <= j < 2 * i ==> #[trigger] is_hex_digit(h[j]),
            forall|j: int| 0 <= j < i ==> bytes@[j] == hex_infohash(h)[j],
        decreases 20 - i,
    {
        let high = match ascii_to_nibble(hex_bytes[i * 2]) {
            Some(n) => n,
            None => {
                return None;
            },
        };
        let low = match ascii_to_nibble(hex_bytes[i * 2 + 1]) {
            Some(n) => n,
            None => {
                return None;
            },
        };
        proof {
            assert(high < 16 && low < 16);
            assert((high << 4u8) | low == high * 16 + low) by (bit_vector)
                requires
                    high < 16,
                    low < 16,
            ;
        }
        bytes[i] = (high << 4) | low;
        i += 1;
    }
    assert(bytes@ =~= hex_infohash(h));
    Some(bytes)
}

/// What a (trimmed) line of a blacklist file contributes: nothing for a
/// blank line or a `#` comment, otherwise the infohash its 40 hex digits spell.
pub open spec fn blacklist_line_entry(line: Seq<u8>) -> Option<Seq<u8>> {
    if line.len() == 0 || line[0] == 0x23 || !is_hex_infohash(line) {
        None
    } else {
        Some(hex_infohash(line))
    }
}

/// The entry of one already trimmed blacklist line, as `blacklist_line_entry`.
pub fn blacklist_entry(line: &str) -> (entry: Option<[u8; 20]>)
    ensures
        match blacklist_line_entry(line.spec_bytes()) {
            Some(hash) => entry matches Some(b) && b@ == hash,
            None => entry is None,
        },
{
    let bytes = line.as_bytes();
    if bytes.len() == 0 || bytes[0] == 0x23 {
        return None;
    }
    hex_to_bytes(line)
}

/// Each byte written as its two hex digits, high nibble first, in upper or
/// lower case.
pub open spec fn hex_encode(bytes: Seq<u8>, upper: bool) -> Seq<u8> {
    Seq::new(
        2 * bytes.len(),
        |j: int|
            if j % 2 == 0 {
                hex_digit(bytes[j / 2] >> 4u8, upper)
            } else {
                hex_digit(bytes[j / 2] & 0xfu8, upper)
            },
    )
}

/// An infohash written in hex, in either case, is a blacklist line that
/// lists that infohash.
pub proof fn law_hex_infohash_round_trip(hash: [u8; 20], upper: bool)
    ensures
        is_hex_infohash(hex_encode(hash@, upper)),
        hex_infohash(hex_encode(hash@, upper)) == hash@,
        blacklist_line_entry(hex_encode(hash@, upper)) == Some(hash@),
{
    let e = hex_encode(hash@, upper);
    assert forall|i: int| 0 <= i < 40 implies #[trigger] is_hex_digit(e[i]) by {
        let b = hash@[i / 2];
        lemma_nibbles(b);
        lemma_hex_digit(b >> 4u8, upper);
        lemma_hex_digit(b & 0xfu8, upper);
    }
    assert forall|i: int| 0 <= i < 20 implies #[trigger] hex_infohash(e)[i] == hash@[i] by {
        let b = hash@[i];
        lemma_nibbles(b);
        lemma_hex_digit(b >> 4u8, upper);
        lemma_hex_digit(b & 0xfu8, upper);
        assert((2 * i) / 2 == i);
        assert((2 * i + 1) / 2 == i);
        assert((2 * i) % 2 == 0);
        assert((2 * i + 1) % 2 == 1);
    }
    assert(hex_infohash(e) =~= hash@);
    lemma_nibbles(hash@[0]);
    lemma_hex_digit(hash@[0] >> 4u8, upper);
}

/// The infohashes listed by the lines of a blacklist file.
pub open spec fn listed_hashes(lines: Seq<Seq<char>>) -> Set<[u8; 20]> {
    Set::new(
        |hash: [u8; 20]|
            exists|i: int|
                0 <= i < lines.len() && #[trigger] blacklist_line_entry(
                    vstd::utf8::encode_utf8(str_trim(lines[i])),
                ) == Some(hash@),
    )
}

/// Build the blacklist from the lines of a blacklist file: each line is
/// trimmed; blank lines, `#` comments and lines that are not 40 hex digits
/// are skipped.
pub fn parse_blacklist(lines: &Vec<String>) -> (blacklist: Blacklist)
    ensures
        blacklist@ == listed_hashes(lines@.map_values(|l: String| l@)),
{
    let ghost ls = lines@.map_values(|l: String| l@);
    let mut hashes = new_key_set(new_hasher());
    let mut k: usize = 0;
    while k < lines.len()
        invariant
            ls == lines@.map_values(|l: String| l@),
            k <= lines.len(),
            forall|hash: [u8; 20]|
                #[trigger] hashes@.contains(hash) <==> exists|i: int|
                    0 <= i < k && #[trigger] blacklist_line_entry(vstd::utf8::encode_utf8(str_trim(ls[i])))
                        == Some(hash@),
        decreases lines.len() - k,
    {
        let line = trim(lines[k].as_str());
        let entry = blacklist_entry(line);
        proof {
            assert(line.spec_bytes() == vstd::utf8::encode_utf8(str_trim(ls[k as int])));
        }
        match entry {
            Some(hash) => {
                key_set_insert(&mut hashes, hash);
                assert forall|h: [u8; 20]| #[trigger] hashes@.contains(h) <==> exists|i: int|
                    0 <= i < k + 1 && #[trigger] blacklist_line_entry(vstd::utf8::encode_utf8(str_trim(ls[i])))
                        == Some(h@) by {
                    if h == hash {
                        assert(blacklist_line_entry(vstd::utf8::encode_utf8(str_trim(ls[k as int]))) == Some(h@));
                    }
                    if exists|i: int|
                        0 <= i < k + 1 && #[trigger] blacklist_line_entry(vstd::utf8::encode_utf8(str_trim(ls[i])))
                            == Some(h@) {
                        let i = choose|i: int|
                            0 <= i < k + 1 && #[trigger] blacklist_line_entry(
                                vstd::utf8::encode_utf8(str_trim(ls[i])),
                            ) == Some(h@);
                        if i == k {
                            assert(h@ == hash@);
                            assert(h =~= hash);
                        }
                    }
                }
            },
            None => {
                assert forall|h: [u8; 20]| #[trigger] hashes@.contains(h) <==> exists|i: int|
                    0 <= i < k + 1 && #[trigger] blacklist_line_entry(vstd::utf8::encode_utf8(str_trim(ls[i])))
                        == Some(h@) by {
                    if exists|i: int|
                        0 <= i < k + 1 && #[trigger] blacklist_line_entry(vstd::utf8::encode_utf8(str_trim(ls[i])))
                            == Some(h@) {
                        let i = choose|i: int|
                            0 <= i < k + 1 && #[trigger] blacklist_line_entry(
                                vstd::utf8::encode_utf8(str_trim(ls[i])),
                            ) == Some(h@);
                        assert(i != k);
                    }
                }
            },
        }
        k += 1;
    }
    let blacklist = Blacklist { hashes };
    assert(blacklist@ =~= listed_hashes(ls));
    blacklist
}

} // verus!
