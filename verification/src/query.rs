use vstd::prelude::*;
use vstd::string::StringSliceAdditionalSpecFns;

use crate::byte_functions::{self, compact_peer, url_decodable, url_decode, zeros};
use crate::byte_functions::types::RawVal;

verus! {

/// The announce query, as its parameters arrive.
pub struct AReq {
    pub port: u16,
    pub info_hash: String,
    /// The amount of bytes the client has left to download.
    /// For a public tracker the magnitude is insignificant: what matters is
    /// whether it is zero (a seeder) or not (a leecher).
    pub left: String,
    pub event: Option<String>,
}

/// The announce event that the tracker acts on.
pub enum Event {
    Unknown,
    Stopped,
    Completed,
}

/// What the tracker keeps of an announce.
pub struct PeerInfo {
    pub ip_port: [u8; 6],
    pub info_hash: RawVal<20>,
    pub is_seeding: bool,
    pub event: Event,
}

/// Why an announce query is refused.
pub enum QueryError {
    ParseFailure,
    InvalidInfohash,
}

/// Byte-wise equality of two slices.
fn bytes_equal(a: &[u8], b: &[u8]) -> (eq: bool)
    ensures
        eq == (a@ == b@),
{
    if a.len() != b.len() {
        return false;
    }
    let mut i: usize = 0;
    while i < a.len()
        invariant
            a@.len() == b@.len(),
            i <= a@.len(),
            forall|j: int| 0 <= j < i ==> a@[j] == b@[j],
        decreases a.len() - i,
    {
        if a[i] != b[i] {
            return false;
        }
        i += 1;
    }
    assert(a@ =~= b@);
    true
}

/// Whether two strings hold the same characters.
pub fn str_equal(a: &str, b: &str) -> (eq: bool)
    ensures
        eq == (a@ == b@),
{
    proof {
        vstd::utf8::encode_utf8_decode_utf8(a@);
        vstd::utf8::encode_utf8_decode_utf8(b@);
    }
    bytes_equal(a.as_bytes(), b.as_bytes())
}

/// A peer with nothing `left` to download is seeding: the amount is a
/// decimal zero, one or more `0` digits.
pub open spec fn spec_is_seeding(left: Seq<char>) -> bool {
    left.len() > 0 && forall|i: int| 0 <= i < left.len() ==> left[i] == '0'
}

/// Whether the amount left is zero (see `spec_is_seeding`).
pub fn is_zero_amount(left: &str) -> (zero: bool)
    ensures
        zero == spec_is_seeding(left@),
{
    let ghost chars = left@;
    proof {
        vstd::string::axiom_spec_iter(left);
    }
    let mut seen = false;
    let mut all_zero = true;
    for c in it: left.chars()
        invariant
            chars == left@,
            it.seq() == chars,
            seen == (it.index() > 0),
            all_zero == (forall|j: int| 0 <= j < it.index() ==> chars[j] == '0'),
    {
        if c != '0' {
            all_zero = false;
        }
        seen = true;
    }
    seen && all_zero
}

/// The event named by the `event` parameter; anything else is `Unknown`.
pub open spec fn spec_event(event: Option<Seq<char>>) -> Event {
    match event {
        Some(e) => if e == "stopped"@ {
            Event::Stopped
        } else if e == "completed"@ {
            Event::Completed
        } else {
            Event::Unknown
        },
        None => Event::Unknown,
    }
}

/// The announce of a peer at `ip_octets` that sent the query `parsed`: its
/// compact address, its raw infohash, whether it seeds, and its event.
pub fn peer_info_from_request(ip_octets: &[u8; 4], parsed: &AReq) -> (info: PeerInfo)
    requires
        url_decodable(vstd::utf8::encode_utf8(parsed.info_hash@)),
    ensures
        info.ip_port@ == compact_peer(ip_octets@, parsed.port),
        info.info_hash.0@ == url_decode(vstd::utf8::encode_utf8(parsed.info_hash@)) + zeros(
            20 - url_decode(vstd::utf8::encode_utf8(parsed.info_hash@)).len(),
        ),
        info.is_seeding == spec_is_seeding(parsed.left@),
        info.event == spec_event(
            match parsed.event {
                Some(e) => Some(e@),
                None => None,
            },
        ),
{
    let raw_infohash = byte_functions::url_encoded_to_raw_u8(parsed.info_hash.as_str());
    let is_seeding = is_zero_amount(parsed.left.as_str());
    let announce_event = match &parsed.event {
        Some(event) => {
            if str_equal(event.as_str(), "stopped") {
                Event::Stopped
            } else if str_equal(event.as_str(), "completed") {
                Event::Completed
            } else {
                Event::Unknown
            }
        },
        None => Event::Unknown,
    };
    PeerInfo {
        ip_port: byte_functions::ip_str_port_u16_to_bytes(ip_octets, parsed.port),
        info_hash: RawVal(raw_infohash),
        is_seeding,
        event: announce_event,
    }
}

/// The decimal digits of `n`.
pub open spec fn decimal(n: nat) -> Seq<u8>
    decreases n,
{
    if n < 10 {
        seq![(0x30 + n) as u8]
    } else {
        decimal(n / 10).push((0x30 + n % 10) as u8)
    }
}

/// `n` in decimal, with a leading `-` when negative.
pub open spec fn signed_decimal(n: int) -> Seq<u8> {
    if n < 0 {
        seq![0x2du8] + decimal((-n) as nat)
    } else {
        decimal(n as nat)
    }
}

/// An ASCII decimal digit.
pub open spec fn is_digit(b: u8) -> bool {
    0x30 <= b <= 0x39
}

/// The number that a run of decimal digits denotes, most significant first.
pub open spec fn digits_value(s: Seq<u8>) -> int
    decreases s.len(),
{
    if s.len() == 0 {
        0
    } else {
        10 * digits_value(s.drop_last()) + (s.last() - 0x30)
    }
}

/// `decimal(n)` is the standard decimal text of `n`: one or more digits,
/// with no leading zero unless `n` is zero, whose value is `n`.
pub proof fn law_decimal_denotes(n: nat)
    ensures
        decimal(n).len() >= 1,
        forall|i: int| 0 <= i < decimal(n).len() ==> is_digit(#[trigger] decimal(n)[i]),
        digits_value(decimal(n)) == n,
        decimal(n)[0] == 0x30 ==> n == 0 && decimal(n).len() == 1,
    decreases n,
{
    if n >= 10 {
        law_decimal_denotes(n / 10);
        let d = decimal(n / 10);
        let s = decimal(n);
        assert(s == d.push((0x30 + n % 10) as u8));
        assert(s.drop_last() =~= d);
        assert forall|i: int| 0 <= i < s.len() implies is_digit(#[trigger] s[i]) by {
            if i < d.len() {
                assert(s[i] == d[i]);
            }
        }
        assert(s[0] == d[0]);
        assert(s.last() == (0x30 + n % 10) as u8);
        assert(digits_value(s) == 10 * digits_value(d) + (s.last() - 0x30));
    } else {
        assert(decimal(n).drop_last() =~= Seq::<u8>::empty());
        assert(digits_value(decimal(n)) == 10 * digits_value(Seq::<u8>::empty()) + (decimal(n).last() - 0x30));
    }
}

/// `signed_decimal(n)` is the standard decimal text of `n`: a leading `-`
/// exactly when `n` is negative, then the digits of its magnitude, with no
/// leading zero unless `n` is zero.
pub proof fn law_signed_decimal_denotes(n: int)
    ensures
        signed_decimal(n).len() >= 1,
        (signed_decimal(n)[0] == 0x2d) == (n < 0),
        ({
            let digits = if n < 0 {
                signed_decimal(n).drop_first()
            } else {
                signed_decimal(n)
            };
            &&& digits.len() >= 1
            &&& forall|i: int| 0 <= i < digits.len() ==> is_digit(#[trigger] digits[i])
            &&& digits_value(digits) == (if n < 0 {
                -n
            } else {
                n
            })
            &&& digits[0] == 0x30 ==> n == 0 && digits.len() == 1
        }),
{
    if n < 0 {
        law_decimal_denotes((-n) as nat);
        assert(signed_decimal(n).drop_first() =~= decimal((-n) as nat));
    } else {
        law_decimal_denotes(n as nat);
    }
}

/// Distinct numbers have distinct decimal texts.
pub proof fn law_signed_decimal_injective(a: int, b: int)
    requires
        signed_decimal(a) == signed_decimal(b),
    ensures
        a == b,
{
    law_signed_decimal_denotes(a);
    law_signed_decimal_denotes(b);
}

/// Append the decimal digits of `n`.
fn push_decimal(out: &mut Vec<u8>, n: u64)
    ensures
        final(out)@ == old(out)@ + decimal(n as nat),
    decreases n,
{
    if n >= 10 {
        push_decimal(out, n / 10);
    }
    out.push(0x30 + (n % 10) as u8);
    proof {
        if n >= 10 {
            assert(decimal(n as nat) == decimal((n / 10) as nat).push((0x30 + n % 10) as u8));
        }
    }
}

/// Append `n` in decimal, with a leading `-` when negative.
fn push_signed_decimal(out: &mut Vec<u8>, n: i64)
    ensures
        final(out)@ == old(out)@ + signed_decimal(n as int),
{
    if n < 0 {
        out.push(0x2d);
        let magnitude: u64 = (0i128 - n as i128) as u64;
        push_decimal(out, magnitude);
    } else {
        push_decimal(out, n as u64);
    }
}

/// Append the bytes.
fn push_bytes(out: &mut Vec<u8>, bytes: &[u8])
    ensures
        final(out)@ == old(out)@ + bytes@,
{
    let mut i: usize = 0;
    while i < bytes.len()
        invariant
            i <= bytes@.len(),
            out@ == old(out)@ + bytes@.take(i as int),
        decreases bytes.len() - i,
    {
        out.push(bytes[i]);
        i += 1;
        assert(out@ =~= old(out)@ + bytes@.take(i as int));
    }
    assert(bytes@.take(bytes@.len() as int) =~= bytes@);
}

/// Append the chunks, one after another.
fn push_all(out: &mut Vec<u8>, chunks: &[Vec<u8>])
    ensures
        final(out)@ == old(out)@ + chunks@.map_values(|c: Vec<u8>| c@).flatten(),
{
    let ghost cs = chunks@.map_values(|c: Vec<u8>| c@);
    let mut i: usize = 0;
    while i < chunks.len()
        invariant
            cs == chunks@.map_values(|c: Vec<u8>| c@),
            i <= chunks@.len(),
            out@ == old(out)@ + cs.take(i as int).flatten(),
        decreases chunks.len() - i,
    {
        push_bytes(out, chunks[i].as_slice());
        proof {
            assert(cs.take(i + 1) =~= cs.take(i as int).push(cs[i as int]));
            cs.take(i as int).lemma_flatten_push(cs[i as int]);
        }
        i += 1;
    }
    assert(cs.take(chunks@.len() as int) =~= cs);
}

/// The text `s` as UTF-8 bytes.
pub open spec fn text(s: &str) -> Seq<u8> {
    s.spec_bytes()
}

/// The bencoded announce reply: the swarm's seeder (`complete`) and leecher
/// (`incomplete`) counts, the 1800 s announce interval and minimum interval,
/// then the compact peers, seeders first.
pub open spec fn announce_body(
    seeders_count: int,
    leechers_count: int,
    seeders: Seq<Seq<u8>>,
    leechers: Seq<Seq<u8>>,
) -> Seq<u8> {
    text("d8:completei") + signed_decimal(seeders_count) + text("e10:incompletei")
        + signed_decimal(leechers_count) + text("e8:intervali1800e12:min intervali1800e5:peers")
        + decimal((6 * (seeders.len() + leechers.len())) as nat) + text(":") + seeders.flatten()
        + leechers.flatten() + text("e")
}

/// The reply states both counts in full: after `d8:completei` stands the
/// decimal text of the seeder count and an `e`, then `10:incompletei`, the
/// decimal text of the leecher count and an `e`.
pub proof fn law_reply_states_counts(
    seeders_count: int,
    leechers_count: int,
    seeders: Seq<Seq<u8>>,
    leechers: Seq<Seq<u8>>,
)
    ensures
        ({
            let body = announce_body(seeders_count, leechers_count, seeders, leechers);
            let sc = signed_decimal(seeders_count);
            let lc = signed_decimal(leechers_count);
            let n = sc.len() as int;
            let m = lc.len() as int;
            &&& body.subrange(0, 12) == text("d8:completei")
            &&& body.subrange(12, 12 + n) == sc
            &&& body.subrange(12 + n, 27 + n) == text("e10:incompletei")
            &&& body.subrange(27 + n, 27 + n + m) == lc
            &&& body[27 + n + m] == 0x65
        }),
{
    reveal_strlit("d8:completei");
    reveal_strlit("e10:incompletei");
    reveal_strlit("e8:intervali1800e12:min intervali1800e5:peers");
    vstd::string::is_ascii_spec_bytes("d8:completei");
    vstd::string::is_ascii_spec_bytes("e10:incompletei");
    vstd::string::is_ascii_spec_bytes("e8:intervali1800e12:min intervali1800e5:peers");
    let body = announce_body(seeders_count, leechers_count, seeders, leechers);
    let sc = signed_decimal(seeders_count);
    let lc = signed_decimal(leechers_count);
    let n = sc.len() as int;
    let m = lc.len() as int;
    let a = text("d8:completei");
    let b = text("e10:incompletei");
    let c = text("e8:intervali1800e12:min intervali1800e5:peers");
    assert(a.len() == 12 && b.len() == 15 && c[0] == 0x65);
    let head = a + sc + b + lc + c;
    let rest = decimal((6 * (seeders.len() + leechers.len())) as nat) + text(":") + seeders.flatten()
        + leechers.flatten() + text("e");
    assert(body =~= head + rest);
    assert(body.subrange(0, 12) =~= a);
    assert(body.subrange(12, 12 + n) =~= sc);
    assert(body.subrange(12 + n, 27 + n) =~= b);
    assert(body.subrange(27 + n, 27 + n + m) =~= lc);
    assert(body[27 + n + m] == c[0]);
}

/// Encode the announce reply.
pub fn announce_reply(
    seeders_count: i64,
    leechers_count: i64,
    seeders: &[Vec<u8>],
    leechers: &[Vec<u8>],
) -> (body: Vec<u8>)
    requires
        6 * (seeders@.len() + leechers@.len()) <= usize::MAX,
    ensures
        body@ == announce_body(
            seeders_count as int,
            leechers_count as int,
            seeders@.map_values(|c: Vec<u8>| c@),
            leechers@.map_values(|c: Vec<u8>| c@),
        ),
{
    // This is the number of peers in the response, not total peer count
    let peers_length = seeders.len() + leechers.len();
    let mut body: Vec<u8> = Vec::new();
    push_bytes(&mut body, "d8:completei".as_bytes());
    push_signed_decimal(&mut body, seeders_count);
    push_bytes(&mut body, "e10:incompletei".as_bytes());
    push_signed_decimal(&mut body, leechers_count);
    push_bytes(&mut body, "e8:intervali1800e12:min intervali1800e5:peers".as_bytes());
    push_decimal(&mut body, (peers_length * 6) as u64);
    push_bytes(&mut body, ":".as_bytes());
    push_all(&mut body, seeders);
    push_all(&mut body, leechers);
    push_bytes(&mut body, "e".as_bytes());
    proof {
        let ss = seeders@.map_values(|c: Vec<u8>| c@);
        let ls = leechers@.map_values(|c: Vec<u8>| c@);
        assert(body@ =~= announce_body(seeders_count as int, leechers_count as int, ss, ls));
    }
    body
}

} // verus!
