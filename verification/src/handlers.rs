use std::time::Instant;

use vstd::prelude::*;

use crate::blacklist::Blacklist;
use crate::byte_functions::{compact_peer, url_decodable, url_decode, zeros};
use crate::query::{self, spec_event, spec_is_seeding, AReq, Event, QueryError};
use crate::store::laws::law_stopped_removes_peer;
use crate::store::{
    announce_effect, announce_recorded, announce_stats, spec_peer_exists, AnnounceEvent, AnnounceInput, PeerId,
    PeerPool, TrackerStats, TrackerStore, PEER_TTL_SECS,
};

verus! {

/// Where an announce came from, as the connection tells it.
pub enum PeerAddr {
    Missing,
    V4([u8; 4]),
    V6,
}

/// How the tracker answers an announce.
pub enum AnnounceOutcome {
    /// No peer address: 400, "Missing IP".
    MissingIp,
    /// An IPv6 peer: 400, "IPv6 not supported".
    Ipv6,
    /// The query did not parse: 400.
    ParseFailure,
    /// The infohash was refused: 400.
    InvalidInfohash,
    /// The infohash is blacklisted: 451.
    Blacklisted,
    /// The bencoded announce reply: 200.
    Reply(Vec<u8>),
}

/// The store's event for a query's event.
pub open spec fn spec_store_event(event: Event) -> AnnounceEvent {
    match event {
        Event::Stopped => AnnounceEvent::Stopped,
        Event::Completed => AnnounceEvent::Completed,
        Event::Unknown => AnnounceEvent::Unknown,
    }
}

/// The infohash a query names: its url-decoded bytes, padded with zeros to 20.
pub open spec fn query_info_hash(req: AReq) -> Seq<u8> {
    let raw = url_decode(vstd::utf8::encode_utf8(req.info_hash@));
    raw + zeros(20 - raw.len())
}

/// The query's infohash can be decoded.
pub open spec fn query_decodable(req: AReq) -> bool {
    url_decodable(vstd::utf8::encode_utf8(req.info_hash@))
}

/// `input` is the announce that the query `req` of a peer at `ip` makes.
pub open spec fn is_announce_input(ip: [u8; 4], req: AReq, input: AnnounceInput) -> bool {
    &&& input.info_hash@ == query_info_hash(req)
    &&& input.peer@ == compact_peer(ip@, req.port)
    &&& input.is_seeding == spec_is_seeding(req.left@)
    &&& input.event == spec_store_event(
        spec_event(
            match req.event {
                Some(e) => Some(e@),
                None => None,
            },
        ),
    )
}

/// A query's event reaches the store under the same name: `stopped` makes a
/// `Stopped` announce, `completed` a `Completed` one, and any other value, or
/// none, an `Unknown` one.
pub proof fn law_query_event_reaches_store(ip: [u8; 4], req: AReq, input: AnnounceInput)
    requires
        is_announce_input(ip, req, input),
    ensures
        (input.event == AnnounceEvent::Stopped) == (req.event is Some && req.event->Some_0@ == "stopped"@),
        (input.event == AnnounceEvent::Completed) == (req.event is Some && req.event->Some_0@
            == "completed"@),
        (input.event == AnnounceEvent::Unknown) == (req.event is None || (req.event->Some_0@
            != "stopped"@ && req.event->Some_0@ != "completed"@)),
{
    reveal_strlit("stopped");
    reveal_strlit("completed");
    assert("stopped"@ != "completed"@) by {
        assert("stopped"@[0] != "completed"@[0]);
    }
}

/// After an announce whose query says `stopped` has been recorded, the
/// announcing peer is in neither pool of the torrent, at any time.
pub proof fn law_stopped_query_removes_peer(
    ip: [u8; 4],
    req: AReq,
    input: AnnounceInput,
    before: TrackerStore,
    after: TrackerStore,
    reply: Seq<u8>,
    pool: PeerPool,
    later: u32,
)
    requires
        is_announce_input(ip, req, input),
        req.event is Some && req.event->Some_0@ == "stopped"@,
        announce_recorded(before, after, input, reply),
    ensures
        !spec_peer_exists(after.torrents(), input.info_hash, pool, input.peer, later),
{
    law_query_event_reaches_store(ip, req, input);
    let now = choose|now: u32|
        now + PEER_TTL_SECS <= u32::MAX && #[trigger] announce_effect(before, after, input, now, reply)
            && exists|nanos: u128|
            after.stats_view() == (TrackerStats {
                histogram_buckets: after.stats_view().histogram_buckets,
                ..#[trigger] announce_stats(before, input, now).after_announce(nanos)
            }) && after.stats_view().histogram_buckets@ == crate::store::stats::histogram_after(
                announce_stats(before, input, now).histogram_buckets,
                nanos,
            );
    law_stopped_removes_peer(before, after, input, now, reply, pool, later);
}

/// Answer an announce: a peer must come over IPv4 with a query that parsed;
/// a blacklisted infohash is refused; otherwise the store handles the
/// announce and its reply is returned. Only that last case changes the store.
pub fn announce(
    store: &mut TrackerStore,
    blacklist: &Blacklist,
    addr: PeerAddr,
    query: Result<AReq, QueryError>,
    started: Instant,
) -> (outcome: AnnounceOutcome)
    requires
        old(store).wf(),
        addr is V4 && query is Ok ==> query_decodable(query->Ok_0),
    ensures
        final(store).wf(),
        match addr {
            PeerAddr::Missing => outcome is MissingIp && *final(store) == *old(store),
            PeerAddr::V6 => outcome is Ipv6 && *final(store) == *old(store),
            PeerAddr::V4(ip) => match query {
                Err(QueryError::ParseFailure) => outcome is ParseFailure && *final(store) == *old(store),
                Err(QueryError::InvalidInfohash) => outcome is InvalidInfohash && *final(store) == *old(store),
                Ok(req) => exists|input: AnnounceInput|
                    #[trigger] is_announce_input(ip, req, input) && if blacklist@.contains(input.info_hash) {
                        outcome is Blacklisted && *final(store) == *old(store)
                    } else {
                        outcome matches AnnounceOutcome::Reply(body) && announce_recorded(
                            *old(store),
                            *final(store),
                            input,
                            body@,
                        )
                    },
            },
        },
{
    let ip = match addr {
        PeerAddr::Missing => {
            return AnnounceOutcome::MissingIp;
        },
        PeerAddr::V6 => {
            return AnnounceOutcome::Ipv6;
        },
        PeerAddr::V4(ip) => ip,
    };
    let req = match query {
        Ok(req) => req,
        Err(QueryError::ParseFailure) => {
            return AnnounceOutcome::ParseFailure;
        },
        Err(QueryError::InvalidInfohash) => {
            return AnnounceOutcome::InvalidInfohash;
        },
    };
    let ghost req_copy = req;
    let parsed = query::peer_info_from_request(&ip, &req);
    let event = match parsed.event {
        Event::Stopped => AnnounceEvent::Stopped,
        Event::Completed => AnnounceEvent::Completed,
        Event::Unknown => AnnounceEvent::Unknown,
    };
    let input = AnnounceInput {
        info_hash: parsed.info_hash.0,
        peer: parsed.ip_port,
        is_seeding: parsed.is_seeding,
        event,
    };
    let ghost input_copy = input;
    proof {
        assert(is_announce_input(ip, req_copy, input_copy));
    }
    if blacklist.contains(&input.info_hash) {
        return AnnounceOutcome::Blacklisted;
    }
    let body = store.handle_announce(input, started);
    AnnounceOutcome::Reply(body)
}

/// The pool a test query names: `s` for seeders, `l` for leechers.
pub fn pool_from_request(pool: &str) -> (parsed: Option<PeerPool>)
    ensures
        parsed == (if pool@ == "s"@ {
            Some(PeerPool::Seeder)
        } else if pool@ == "l"@ {
            Some(PeerPool::Leecher)
        } else {
            None::<PeerPool>
        }),
{
    if query::str_equal(pool, "s") {
        Some(PeerPool::Seeder)
    } else if query::str_equal(pool, "l") {
        Some(PeerPool::Leecher)
    } else {
        None
    }
}

/// The port a test query names, 4444 when it names none.
pub fn port_from_request(port: Option<u16>) -> (parsed: u16)
    ensures
        parsed == (match port {
            Some(p) => p,
            None => 4444u16,
        }),
{
    match port {
        Some(p) => p,
        None => 4444,
    }
}

/// A test-seed body as compact peers: six bytes each, in order; `None` when
/// its length is not a multiple of six.
pub fn peers_from_body(body: &[u8]) -> (peers: Option<Vec<PeerId>>)
    ensures
        match peers {
            Some(list) => body@.len() % 6 == 0 && list@.len() == body@.len() / 6 && forall|i: int|
                0 <= i < list@.len() ==> #[trigger] list@[i]@ == body@.subrange(6 * i, 6 * i + 6),
            None => body@.len() % 6 != 0,
        },
{
    if body.len() % 6 != 0 {
        return None;
    }
    let count = body.len() / 6;
    let mut peers: Vec<PeerId> = Vec::new();
    let mut i: usize = 0;
    while i < count
        invariant
            count == body@.len() / 6,
            body@.len() % 6 == 0,
            body@.len() <= usize::MAX,
            i <= count,
            peers@.len() == i,
            forall|j: int| 0 <= j < i ==> #[trigger] peers@[j]@ == body@.subrange(6 * j, 6 * j + 6),
        decreases count - i,
    {
        assert(6 * i + 6 <= body@.len()) by (nonlinear_arith)
            requires
                i < count,
                count == body@.len() / 6,
        ;
        let at = 6 * i;
        let peer: PeerId = [body[at], body[at + 1], body[at + 2], body[at + 3], body[at + 4], body[at + 5]];
        proof {
            assert(peer@ =~= body@.subrange(6 * i, 6 * i + 6));
        }
        peers.push(peer);
        i += 1;
    }
    Some(peers)
}

} // verus!
