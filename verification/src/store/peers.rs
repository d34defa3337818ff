use std::collections::HashMap;
use vstd::prelude::*;

verus! {

/// Promote from inline peers to a hash map beyond this size.
pub const INLINE_PEER_CAP: usize = 8;

/// Peer keys are the 48-bit big-endian reading of the compact peer form.
pub const PEER_KEY_LIMIT: u64 = 0x1_0000_0000_0000;

/// The big-endian value of six bytes.
pub open spec fn pack6(b0: u8, b1: u8, b2: u8, b3: u8, b4: u8, b5: u8) -> u64 {
    ((b0 as u64) << 40u64) | ((b1 as u64) << 32u64) | ((b2 as u64) << 24u64) | ((b3 as u64)
        << 16u64) | ((b4 as u64) << 8u64) | (b5 as u64)
}

/// The key under which a peer (its 6-byte compact form) is stored.
pub open spec fn spec_peer_key(peer: [u8; 6]) -> u64 {
    pack6(peer[0], peer[1], peer[2], peer[3], peer[4], peer[5])
}

/// The key of a peer.
pub fn peer_key(peer: &[u8; 6]) -> (key: u64)
    ensures
        key == spec_peer_key(*peer),
        key < PEER_KEY_LIMIT,
{
    let (b0, b1, b2, b3, b4, b5) = (peer[0], peer[1], peer[2], peer[3], peer[4], peer[5]);
    assert(pack6(b0, b1, b2, b3, b4, b5) < 0x1_0000_0000_0000u64) by (bit_vector);
    ((b0 as u64) << 40) | ((b1 as u64) << 32) | ((b2 as u64) << 24) | ((b3 as u64) << 16) | ((
    b4 as u64) << 8) | (b5 as u64)
}

/// The peer stored under a key.
pub fn peer_from_key(key: u64) -> (peer: [u8; 6])
    requires
        key < PEER_KEY_LIMIT,
    ensures
        spec_peer_key(peer) == key,
{
    let peer = [
        (key >> 40) as u8,
        (key >> 32) as u8,
        (key >> 24) as u8,
        (key >> 16) as u8,
        (key >> 8) as u8,
        key as u8,
    ];
    assert(key < 0x1_0000_0000_0000u64 ==> pack6(
        (key >> 40u64) as u8,
        (key >> 32u64) as u8,
        (key >> 24u64) as u8,
        (key >> 16u64) as u8,
        (key >> 8u64) as u8,
        key as u8,
    ) == key) by (bit_vector);
    peer
}

/// Two peers with the same key are the same peer.
pub proof fn lemma_peer_key_injective(a: [u8; 6], b: [u8; 6])
    requires
        spec_peer_key(a) == spec_peer_key(b),
    ensures
        a == b,
{
    let (a0, a1, a2, a3, a4, a5) = (a[0], a[1], a[2], a[3], a[4], a[5]);
    let (b0, b1, b2, b3, b4, b5) = (b[0], b[1], b[2], b[3], b[4], b[5]);
    assert(pack6(a0, a1, a2, a3, a4, a5) == pack6(b0, b1, b2, b3, b4, b5) ==> (a0 == b0 && a1 == b1
        && a2 == b2 && a3 == b3 && a4 == b4 && a5 == b5)) by (bit_vector);
    assert(a@ =~= b@);
}

/// Packed peer metadata: bit 31 = seeder, bits 0..30 = expiry seconds since
/// the store's epoch.
#[derive(Clone, Copy)]
pub struct PeerMeta(pub u32);

impl PeerMeta {
    pub open spec fn spec_is_seeder(self) -> bool {
        self.0 & 0x8000_0000u32 != 0
    }

    pub open spec fn spec_expires_at(self) -> u32 {
        self.0 & 0x7fff_ffffu32
    }

    pub open spec fn spec_is_live(self, now: u32) -> bool {
        self.spec_expires_at() > now
    }

    /// The packed form of the seeder flag and the expiry's low 31 bits.
    pub open spec fn spec_new(is_seeder: bool, expires_at: u32) -> PeerMeta {
        PeerMeta((if is_seeder { 0x8000_0000u32 } else { 0u32 }) | (expires_at & 0x7fff_ffffu32))
    }

    /// An entry is live exactly while its stored expiry, the low 31 bits,
    /// is later than `now`, whatever its pool: an entry past its expiry is
    /// never live, a seeder's no more than a leecher's.
    pub proof fn law_live_until_expiry(self, now: u32)
        ensures
            self.spec_is_live(now) <==> (self.0 & 0x7fff_ffffu32) > now,
            (self.0 & 0x7fff_ffffu32) <= now ==> !self.spec_is_live(now),
            !PeerMeta((self.0 | 0x8000_0000u32)).spec_is_live(now) <==> (self.0 & 0x7fff_ffffu32) <= now,
    {
        let b = self.0;
        assert((b | 0x8000_0000u32) & 0x7fff_ffffu32 == b & 0x7fff_ffffu32) by (bit_vector);
    }

    /// The packed form gives back the seeder flag and the expiry's low 31
    /// bits.
    pub proof fn lemma_spec_new_fields(is_seeder: bool, expires_at: u32)
        ensures
            PeerMeta::spec_new(is_seeder, expires_at).spec_is_seeder() == is_seeder,
            PeerMeta::spec_new(is_seeder, expires_at).spec_expires_at() == expires_at & 0x7fff_ffffu32,
            expires_at < 0x8000_0000u32 ==> PeerMeta::spec_new(is_seeder, expires_at).spec_expires_at()
                == expires_at,
    {
        assert((0x8000_0000u32 | (expires_at & 0x7fff_ffffu32)) & 0x8000_0000u32 != 0) by (bit_vector);
        assert((0u32 | (expires_at & 0x7fff_ffffu32)) & 0x8000_0000u32 == 0) by (bit_vector);
        assert((0x8000_0000u32 | (expires_at & 0x7fff_ffffu32)) & 0x7fff_ffffu32 == expires_at
            & 0x7fff_ffffu32) by (bit_vector);
        assert((0u32 | (expires_at & 0x7fff_ffffu32)) & 0x7fff_ffffu32 == expires_at & 0x7fff_ffffu32)
            by (bit_vector);
        assert(expires_at < 0x8000_0000u32 ==> expires_at & 0x7fff_ffffu32 == expires_at) by (bit_vector);
    }

    /// Pack the seeder flag and the expiry (its low 31 bits).
    pub fn new(is_seeder: bool, expires_at: u32) -> (meta: PeerMeta)
        ensures
            meta == PeerMeta::spec_new(is_seeder, expires_at),
            meta.spec_is_seeder() == is_seeder,
            meta.spec_expires_at() == expires_at & 0x7fff_ffffu32,
    {
        let low = expires_at & 0x7fff_ffff;
        let packed = if is_seeder {
            (1u32 << 31) | low
        } else {
            low
        };
        assert((1u32 << 31u32) == 0x8000_0000u32) by (bit_vector);
        assert(0u32 | (expires_at & 0x7fff_ffffu32) == expires_at & 0x7fff_ffffu32) by (bit_vector);
        assert(((1u32 << 31u32) | (expires_at & 0x7fff_ffffu32)) & 0x8000_0000u32 != 0)
            by (bit_vector);
        assert((expires_at & 0x7fff_ffffu32) & 0x8000_0000u32 == 0) by (bit_vector);
        assert(((1u32 << 31u32) | (expires_at & 0x7fff_ffffu32)) & 0x7fff_ffffu32 == expires_at
            & 0x7fff_ffffu32) by (bit_vector);
        assert((expires_at & 0x7fff_ffffu32) & 0x7fff_ffffu32 == expires_at & 0x7fff_ffffu32)
            by (bit_vector);
        PeerMeta(packed)
    }

    pub fn is_seeder(self) -> (seeder: bool)
        ensures
            seeder == self.spec_is_seeder(),
    {
        let bits = self.0;
        assert(bits & (1u32 << 31u32) == bits & 0x8000_0000u32) by (bit_vector);
        bits & (1 << 31) != 0
    }

    pub fn expires_at(self) -> (expires_at: u32)
        ensures
            expires_at == self.spec_expires_at(),
    {
        self.0 & 0x7fff_ffff
    }

    pub fn is_live(self, now: u32) -> (live: bool)
        ensures
            live == self.spec_is_live(now),
    {
        self.expires_at() > now
    }
}

/// No key occurs twice.
pub open spec fn keys_distinct(s: Seq<(u64, PeerMeta)>) -> bool {
    forall|i: int, j: int| 0 <= i < j < s.len() ==> s[i].0 != s[j].0
}

/// Every key is a peer key.
pub open spec fn keys_bounded(s: Seq<(u64, PeerMeta)>) -> bool {
    forall|i: int| 0 <= i < s.len() ==> s[i].0 < PEER_KEY_LIMIT
}

/// The map that a list of entries describes.
pub open spec fn entries_view(s: Seq<(u64, PeerMeta)>) -> Map<u64, PeerMeta> {
    Map::new(
        |k: u64| exists|i: int| 0 <= i < s.len() && s[i].0 == k,
        |k: u64| s[choose|i: int| 0 <= i < s.len() && s[i].0 == k].1,
    )
}

/// `s` lists the entries of `m`, each once.
pub open spec fn lists(s: Seq<(u64, PeerMeta)>, m: Map<u64, PeerMeta>) -> bool {
    keys_distinct(s) && entries_view(s) == m
}

/// The entry at `i` is in the map the list describes.
pub proof fn lemma_entries_view_at(s: Seq<(u64, PeerMeta)>, i: int)
    requires
        keys_distinct(s),
        0 <= i < s.len(),
    ensures
        entries_view(s).contains_key(s[i].0),
        entries_view(s)[s[i].0] == s[i].1,
{
    let k = s[i].0;
    assert(0 <= i < s.len() && s[i].0 == k);
    assert(entries_view(s).contains_key(k));
    let j = choose|j: int| 0 <= j < s.len() && s[j].0 == k;
    assert(i == j);
}

/// The map a list describes has the list's keys, finitely many: as many as
/// entries when the keys are distinct.
pub proof fn lemma_entries_view_finite(s: Seq<(u64, PeerMeta)>)
    ensures
        entries_view(s).dom() == s.map_values(|p: (u64, PeerMeta)| p.0).to_set(),
        entries_view(s).dom().finite(),
        keys_distinct(s) ==> entries_view(s).dom().len() == s.len(),
{
    let ks = s.map_values(|p: (u64, PeerMeta)| p.0);
    assert forall|k: u64| #[trigger] entries_view(s).dom().contains(k) <==> ks.to_set().contains(k) by {
        if entries_view(s).dom().contains(k) {
            let i = choose|i: int| 0 <= i < s.len() && s[i].0 == k;
            assert(ks[i] == k);
        }
        if ks.to_set().contains(k) {
            let i = choose|i: int| 0 <= i < ks.len() && ks[i] == k;
            assert(s[i].0 == k);
        }
    }
    assert(entries_view(s).dom() =~= ks.to_set());
    if keys_distinct(s) {
        assert(ks.no_duplicates());
        ks.unique_seq_to_set();
    }
}

/// Appending an entry with a new key adds it to the map.
pub proof fn lemma_entries_view_push(s: Seq<(u64, PeerMeta)>, key: u64, meta: PeerMeta)
    requires
        keys_distinct(s),
        !entries_view(s).contains_key(key),
    ensures
        keys_distinct(s.push((key, meta))),
        entries_view(s.push((key, meta))) == entries_view(s).insert(key, meta),
{
    let t = s.push((key, meta));
    assert forall|i: int| 0 <= i < s.len() implies s[i].0 != key by {
        if s[i].0 == key {
            assert(entries_view(s).contains_key(key));
        }
    }
    assert(keys_distinct(t));
    assert forall|k: u64| #[trigger] entries_view(t).contains_key(k) implies entries_view(s).insert(
        key,
        meta,
    ).contains_key(k) && entries_view(t)[k] == entries_view(s).insert(key, meta)[k] by {
        let i = choose|i: int| 0 <= i < t.len() && t[i].0 == k;
        lemma_entries_view_at(t, i);
        if i < s.len() {
            assert(t[i] == s[i]);
            lemma_entries_view_at(s, i);
        }
    }
    assert forall|k: u64| #[trigger] entries_view(s).insert(key, meta).contains_key(k) implies entries_view(t).contains_key(k) by {
        if k == key {
            assert(t[s.len() as int].0 == k);
        } else {
            let i = choose|i: int| 0 <= i < s.len() && s[i].0 == k;
            assert(t[i].0 == k);
        }
    }
    assert(entries_view(t) =~= entries_view(s).insert(key, meta));
}

/// Replacing the metadata of the entry at `i` replaces it in the map.
pub proof fn lemma_entries_view_update(s: Seq<(u64, PeerMeta)>, i: int, meta: PeerMeta)
    requires
        keys_distinct(s),
        0 <= i < s.len(),
    ensures
        keys_distinct(s.update(i, (s[i].0, meta))),
        entries_view(s.update(i, (s[i].0, meta))) == entries_view(s).insert(s[i].0, meta),
{
    let t = s.update(i, (s[i].0, meta));
    let key = s[i].0;
    assert(keys_distinct(t));
    lemma_entries_view_at(s, i);
    assert forall|k: u64| #[trigger] entries_view(t).contains_key(k) implies entries_view(s).insert(
        key,
        meta,
    ).contains_key(k) && entries_view(t)[k] == entries_view(s).insert(key, meta)[k] by {
        let j = choose|j: int| 0 <= j < t.len() && t[j].0 == k;
        lemma_entries_view_at(t, j);
        if j != i {
            lemma_entries_view_at(s, j);
        }
    }
    assert forall|k: u64| #[trigger] entries_view(s).insert(key, meta).contains_key(k) implies entries_view(t).contains_key(k) by {
        if k != key {
            let j = choose|j: int| 0 <= j < s.len() && s[j].0 == k;
            assert(t[j].0 == k);
        } else {
            assert(t[i].0 == k);
        }
    }
    assert(entries_view(t) =~= entries_view(s).insert(key, meta));
}

/// Removing the entry at `i` by moving the last entry into its place.
pub proof fn lemma_entries_view_swap_remove(s: Seq<(u64, PeerMeta)>, i: int)
    requires
        keys_distinct(s),
        0 <= i < s.len(),
    ensures
        keys_distinct(s.update(i, s.last()).drop_last()),
        entries_view(s.update(i, s.last()).drop_last()) == entries_view(s).remove(s[i].0),
{
    let n = s.len() - 1;
    let t = s.update(i, s.last()).drop_last();
    let key = s[i].0;
    assert forall|a: int, b: int| 0 <= a < b < t.len() implies t[a].0 != t[b].0 by {
        if a == i {
            assert(t[a] == s[n]);
        } else if b == i {
            assert(t[b] == s[n]);
        } else {
            assert(t[a] == s[a] && t[b] == s[b]);
        }
    }
    assert forall|k: u64| #[trigger] entries_view(t).contains_key(k) implies entries_view(s).remove(key).contains_key(k)
        && entries_view(t)[k] == entries_view(s).remove(key)[k] by {
        let j = choose|j: int| 0 <= j < t.len() && t[j].0 == k;
        lemma_entries_view_at(t, j);
        if j == i {
            lemma_entries_view_at(s, n);
        } else {
            lemma_entries_view_at(s, j);
        }
    }
    assert forall|k: u64| #[trigger] entries_view(s).remove(key).contains_key(k) implies entries_view(t).contains_key(k) by {
        let j = choose|j: int| 0 <= j < s.len() && s[j].0 == k;
        if j == n {
            if i < n {
                assert(t[i].0 == k);
            }
        } else {
            assert(j != i);
            assert(t[j].0 == k);
        }
    }
    assert(entries_view(t) =~= entries_view(s).remove(key));
}

/// Dense storage for the common case (a few peers); a hash map beyond
/// `INLINE_PEER_CAP` peers.
enum Peers {
    Empty,
    /// The first `len` entries are the peers (1..=INLINE_PEER_CAP).
    Inline { entries: [(u64, PeerMeta); 8], len: u8 },
    Hashed(HashMap<u64, PeerMeta>),
}

impl View for Peers {
    type V = Map<u64, PeerMeta>;

    closed spec fn view(&self) -> Map<u64, PeerMeta> {
        match self {
            Peers::Empty => Map::empty(),
            Peers::Inline { entries, len } => entries_view(entries@.take(*len as int)),
            Peers::Hashed(m) => m@,
        }
    }
}

impl Peers {
    #[verifier::type_invariant]
    spec fn wf(self) -> bool {
        match self {
            Peers::Empty => true,
            Peers::Inline { entries, len } => {
                &&& 1 <= len <= 8
                &&& keys_distinct(entries@.take(len as int))
                &&& keys_bounded(entries@.take(len as int))
            },
            Peers::Hashed(m) => {
                &&& m@.len() >= 1
                &&& m@.dom().finite()
                &&& forall|k: u64| #[trigger] m@.contains_key(k) ==> k < PEER_KEY_LIMIT
            },
        }
    }

    /// The entries in their stored order, where the storage keeps one
    /// (empty or inline storage).
    spec fn stored(&self) -> Seq<(u64, PeerMeta)> {
        match self {
            Peers::Inline { entries, len } => entries@.take(*len as int),
            _ => Seq::empty(),
        }
    }

    /// Every peer, once, with its metadata; in stored order unless the
    /// storage is a hash map.
    fn entries(&self) -> (out: Vec<(u64, PeerMeta)>)
        ensures
            lists(out@, self@),
            keys_bounded(out@),
            !(*self is Hashed) ==> out@ == self.stored(),
    {
        proof {
            use_type_invariant(self);
        }
        match self {
            Peers::Empty => {
                let out: Vec<(u64, PeerMeta)> = Vec::new();
                assert(entries_view(out@) =~= Map::<u64, PeerMeta>::empty());
                out
            },
            Peers::Inline { entries, len } => {
                let n = *len as usize;
                let ghost s = entries@.take(n as int);
                let mut out: Vec<(u64, PeerMeta)> = Vec::new();
                let mut i: usize = 0;
                while i < n
                    invariant
                        n <= 8,
                        s == entries@.take(n as int),
                        i <= n,
                        out@ == s.take(i as int),
                    decreases n - i,
                {
                    out.push(entries[i]);
                    i += 1;
                    assert(out@ =~= s.take(i as int));
                }
                assert(out@ =~= s);
                out
            },
            Peers::Hashed(m) => collect_hashed(m),
        }
    }

    /// The metadata of the peer stored under `key`, if any.
    fn get(&self, key: u64) -> (meta: Option<PeerMeta>)
        ensures
            meta == (if self@.contains_key(key) {
                Some(self@[key])
            } else {
                None::<PeerMeta>
            }),
    {
        proof {
            use_type_invariant(self);
        }
        match self {
            Peers::Empty => None,
            Peers::Inline { entries, len } => {
                let n = *len as usize;
                let ghost s = entries@.take(n as int);
                match find_inline(entries, n, key) {
                    Some(i) => {
                        proof {
                            lemma_entries_view_at(s, i as int);
                        }
                        Some(entries[i].1)
                    },
                    None => None,
                }
            },
            Peers::Hashed(m) => match m.get(&key) {
                Some(meta) => Some(*meta),
                None => None,
            },
        }
    }

    /// The number of peers.
    fn len(&self) -> (n: usize)
        ensures
            n == self@.len(),
    {
        proof {
            use_type_invariant(self);
        }
        match self {
            Peers::Empty => 0,
            Peers::Inline { entries, len } => {
                proof {
                    lemma_entries_view_finite(entries@.take(*len as int));
                }
                *len as usize
            },
            Peers::Hashed(m) => m.len(),
        }
    }
}

impl Peers {
    /// Store `meta` under `key`, replacing what was there.
    fn insert(&mut self, key: u64, meta: PeerMeta)
        requires
            key < PEER_KEY_LIMIT,
        ensures
            final(self)@ == old(self)@.insert(key, meta),
            final(self)@.len() == old(self)@.len() + if old(self)@.contains_key(key) {
                0int
            } else {
                1int
            },
            ((*final(self)) is Hashed) <==> ((*old(self)) is Hashed || final(self)@.len() > INLINE_PEER_CAP),
    {
        self.check_ok();
        proof {
            use_type_invariant(&*self);
        }
        let mut cur = Peers::Empty;
        std::mem::swap(&mut cur, self);
        proof {
            use_type_invariant(&cur);
        }
        match cur {
            Peers::Empty => {
                let mut entries = [(0u64, PeerMeta(0)); 8];
                entries[0] = (key, meta);
                proof {
                    lemma_entries_view_push(Seq::empty(), key, meta);
                    assert(entries@.take(1) =~= Seq::<(u64, PeerMeta)>::empty().push((key, meta)));
                    assert(Map::<u64, PeerMeta>::empty().insert(key, meta) =~= entries_view(Seq::<(u64, PeerMeta)>::empty()).insert(key, meta));
                }
                *self = Peers::Inline { entries, len: 1 };
            },
            Peers::Inline { entries, len } => {
                let n = len as usize;
                let ghost s = entries@.take(n as int);
                let mut entries = entries;
                match find_inline(&entries, n, key) {
                    Some(i) => {
                        entries[i] = (key, meta);
                        proof {
                            lemma_entries_view_update(s, i as int, meta);
                            assert(entries@.take(n as int) =~= s.update(i as int, (s[i as int].0, meta)));
                        }
                        *self = Peers::Inline { entries, len };
                    },
                    None => {
                        if n < INLINE_PEER_CAP {
                            entries[n] = (key, meta);
                            proof {
                                lemma_entries_view_push(s, key, meta);
                                assert(entries@.take(n + 1) =~= s.push((key, meta)));
                            }
                            *self = Peers::Inline { entries, len: len + 1 };
                        } else {
                            let mut map = HashMap::with_capacity(INLINE_PEER_CAP * 2);
                            let mut j: usize = 0;
                            while j < n
                                invariant
                                    n == 8,
                                    s == entries@.take(n as int),
                                    keys_distinct(s),
                                    keys_bounded(s),
                                    j <= n,
                                    map@ == entries_view(s.take(j as int)),
                                decreases n - j,
                            {
                                proof {
                                    assert(s.take(j + 1) =~= s.take(j as int).push(s[j as int]));
                                    assert(keys_distinct(s.take(j as int)));
                                    if entries_view(s.take(j as int)).contains_key(s[j as int].0) {
                                        let t = s.take(j as int);
                                        let q = choose|q: int| 0 <= q < t.len() && t[q].0 == s[j as int].0;
                                        assert(s[q].0 == s[j as int].0);
                                    }
                                    lemma_entries_view_push(s.take(j as int), s[j as int].0, s[j as int].1);
                                }
                                map.insert(entries[j].0, entries[j].1);
                                j += 1;
                            }
                            map.insert(key, meta);
                            proof {
                                assert(s.take(n as int) =~= s);
                                lemma_entries_view_finite(s);
                                assert forall|k: u64| #[trigger] map@.contains_key(k) implies k < PEER_KEY_LIMIT by {
                                    if k != key {
                                        let q = choose|q: int| 0 <= q < s.len() && s[q].0 == k;
                                    }
                                }
                                assert(map@.contains_key(key));
                                assert(map@.dom().len() >= 1) by {
                                    assert(map@.dom().contains(key));
                                }
                            }
                            *self = Peers::Hashed(map);
                        }
                    },
                }
            },
            Peers::Hashed(mut map) => {
                map.insert(key, meta);
                proof {
                    assert(map@.dom().contains(key));
                }
                *self = Peers::Hashed(map);
            },
        }
        self.check_ok();
    }

    /// Drop the peer stored under `key`; whether it was there.
    fn remove(&mut self, key: u64) -> (removed: bool)
        ensures
            final(self)@ == old(self)@.remove(key),
            removed == old(self)@.contains_key(key),
            final(self)@.len() == old(self)@.len() - if removed {
                1int
            } else {
                0int
            },
            ((*final(self)) is Empty) <==> final(self)@.len() == 0,
    {
        self.check_ok();
        proof {
            use_type_invariant(&*self);
        }
        let mut cur = Peers::Empty;
        std::mem::swap(&mut cur, self);
        proof {
            use_type_invariant(&cur);
        }
        let removed = match cur {
            Peers::Empty => {
                assert(Map::<u64, PeerMeta>::empty().remove(key) =~= Map::<u64, PeerMeta>::empty());
                false
            },
            Peers::Inline { entries, len } => {
                let n = len as usize;
                let ghost s = entries@.take(n as int);
                let mut entries = entries;
                match find_inline(&entries, n, key) {
                    Some(idx) => {
                        proof {
                            lemma_entries_view_at(s, idx as int);
                            lemma_entries_view_swap_remove(s, idx as int);
                        }
                        entries[idx] = entries[n - 1];
                        proof {
                            assert(entries@.take(n - 1) =~= s.update(idx as int, s.last()).drop_last());
                        }
                        if n - 1 == 0 {
                            proof {
                                lemma_entries_view_finite(entries@.take(n - 1));
                                assert(old(self)@.remove(key).dom() =~= Set::<u64>::empty());
                                assert(old(self)@.remove(key) =~= Map::<u64, PeerMeta>::empty());
                            }
                            *self = Peers::Empty;
                        } else {
                            *self = Peers::Inline { entries, len: len - 1 };
                        }
                        true
                    },
                    None => {
                        assert(old(self)@.remove(key) =~= old(self)@);
                        *self = Peers::Inline { entries, len };
                        false
                    },
                }
            },
            Peers::Hashed(mut map) => {
                let removed = map.remove(&key).is_some();
                if map.is_empty() {
                    assert(map@ =~= Map::<u64, PeerMeta>::empty());
                    *self = Peers::Empty;
                } else {
                    *self = Peers::Hashed(map);
                }
                removed
            },
        };
        self.check_ok();
        removed
    }
}

/// The peers whose entry has not expired at `now`.
pub open spec fn live_peers(m: Map<u64, PeerMeta>, now: u32) -> Map<u64, PeerMeta> {
    Map::new(|k: u64| m.contains_key(k) && m[k].spec_is_live(now), |k: u64| m[k])
}

/// The live peers are exactly the stored ones whose expiry, the low 31 bits
/// of their metadata, is later than `now`, each with its metadata.
pub proof fn law_live_peers_unexpired(m: Map<u64, PeerMeta>, now: u32, k: u64)
    ensures
        live_peers(m, now).contains_key(k) <==> (m.contains_key(k) && (m[k].0 & 0x7fff_ffffu32) > now),
        live_peers(m, now).contains_key(k) ==> live_peers(m, now)[k] == m[k],
{
}

/// The number of peers in the pool: seeders if `seeders`, else leechers.
pub open spec fn pool_count(m: Map<u64, PeerMeta>, seeders: bool) -> nat {
    m.dom().filter(|k: u64| m[k].spec_is_seeder() == seeders).len()
}

/// Whether the entry is live at `now`.
pub open spec fn live_entry(now: u32) -> spec_fn((u64, PeerMeta)) -> bool {
    |e: (u64, PeerMeta)| e.1.spec_is_live(now)
}

/// Whether the entry is in the pool: seeders if `seeders`, else leechers.
pub open spec fn pool_entry(seeders: bool) -> spec_fn((u64, PeerMeta)) -> bool {
    |e: (u64, PeerMeta)| e.1.spec_is_seeder() == seeders
}

/// The keys of the entries.
pub open spec fn entry_keys(entries: Seq<(u64, PeerMeta)>) -> Seq<u64> {
    entries.map_values(|e: (u64, PeerMeta)| e.0)
}

/// The keys of the first `limit` live entries of the pool, in stored order.
pub open spec fn ordered_sample(stored: Seq<(u64, PeerMeta)>, now: u32, seeders: bool, limit: usize) -> Seq<u64> {
    let keys = entry_keys(stored.filter(live_entry(now)).filter(pool_entry(seeders)));
    keys.take(vstd::math::min(limit as int, keys.len() as int))
}

/// Filtering a sequence one entry longer filters that entry too.
proof fn lemma_filter_push(s: Seq<(u64, PeerMeta)>, e: (u64, PeerMeta), p: spec_fn((u64, PeerMeta)) -> bool)
    ensures
        s.push(e).filter(p) == (if p(e) {
            s.filter(p).push(e)
        } else {
            s.filter(p)
        }),
{
    reveal(Seq::filter);
    assert(s.push(e).drop_last() =~= s);
}

/// A prefix one entry longer adds that entry.
pub proof fn lemma_entries_view_prefix(s: Seq<(u64, PeerMeta)>, i: int)
    requires
        keys_distinct(s),
        0 <= i < s.len(),
    ensures
        keys_distinct(s.take(i)),
        !entries_view(s.take(i)).contains_key(s[i].0),
        entries_view(s.take(i + 1)) == entries_view(s.take(i)).insert(s[i].0, s[i].1),
{
    let t = s.take(i);
    assert(keys_distinct(t));
    if entries_view(t).contains_key(s[i].0) {
        let q = choose|q: int| 0 <= q < t.len() && t[q].0 == s[i].0;
        assert(s[q].0 == s[i].0);
    }
    assert(s.take(i + 1) =~= t.push(s[i]));
    lemma_entries_view_push(t, s[i].0, s[i].1);
}

impl Peers {
    /// Drop every peer whose entry expired at `now`.
    fn purge_expired(&mut self, now: u32)
        ensures
            final(self)@ == live_peers(old(self)@, now),
            ((*final(self)) is Empty) <==> final(self)@.len() == 0,
    {
        proof {
            use_type_invariant(&*self);
        }
        let mut cur = Peers::Empty;
        std::mem::swap(&mut cur, self);
        proof {
            use_type_invariant(&cur);
        }
        match cur {
            Peers::Empty => {
                assert(live_peers(Map::<u64, PeerMeta>::empty(), now) =~= Map::<u64, PeerMeta>::empty());
            },
            Peers::Inline { entries, len } => {
                let n = len as usize;
                let ghost s = entries@.take(n as int);
                let mut entries = entries;
                let mut write: usize = 0;
                let mut read: usize = 0;
                while read < n
                    invariant
                        n <= 8,
                        keys_distinct(s),
                        keys_bounded(s),
                        s.len() == n,
                        write <= read <= n,
                        forall|j: int| read <= j < n ==> entries@[j] == s[j],
                        keys_distinct(entries@.take(write as int)),
                        keys_bounded(entries@.take(write as int)),
                        entries_view(entries@.take(write as int)) == live_peers(entries_view(s.take(read as int)), now),
                    decreases n - read,
                {
                    let ghost before = entries@;
                    proof {
                        lemma_entries_view_prefix(s, read as int);
                    }
                    if entries[read].1.is_live(now) {
                        proof {
                            let t = before.take(write as int);
                            if entries_view(t).contains_key(s[read as int].0) {
                                assert(entries_view(s.take(read as int)).contains_key(s[read as int].0));
                            }
                            lemma_entries_view_push(t, s[read as int].0, s[read as int].1);
                        }
                        entries[write] = entries[read];
                        proof {
                            assert(entries@.take(write + 1) =~= before.take(write as int).push(s[read as int]));
                            assert(live_peers(entries_view(s.take(read + 1)), now) =~= live_peers(entries_view(s.take(read as int)), now).insert(s[read as int].0, s[read as int].1));
                        }
                        write += 1;
                    } else {
                        proof {
                            assert(live_peers(entries_view(s.take(read + 1)), now) =~= live_peers(entries_view(s.take(read as int)), now));
                        }
                    }
                    read += 1;
                }
                proof {
                    assert(s.take(n as int) =~= s);
                }
                if write == 0 {
                    proof {
                        assert(entries@.take(0) =~= Seq::<(u64, PeerMeta)>::empty());
                        assert(entries_view(Seq::<(u64, PeerMeta)>::empty()) =~= Map::<u64, PeerMeta>::empty());
                    }
                    *self = Peers::Empty;
                } else {
                    *self = Peers::Inline { entries, len: write as u8 };
                }
            },
            Peers::Hashed(mut map) => {
                let ghost orig = map@;
                let list = collect_hashed(&map);
                let mut i: usize = 0;
                while i < list.len()
                    invariant
                        lists(list@, orig),
                        i <= list@.len(),
                        map@ == Map::new(
                            |k: u64| orig.contains_key(k) && (orig[k].spec_is_live(now) || !entries_view(list@.take(i as int)).contains_key(k)),
                            |k: u64| orig[k],
                        ),
                    decreases list.len() - i,
                {
                    proof {
                        lemma_entries_view_prefix(list@, i as int);
                        lemma_entries_view_at(list@, i as int);
                    }
                    if !list[i].1.is_live(now) {
                        map.remove(&list[i].0);
                    }
                    i += 1;
                    proof {
                        let cur_map = Map::new(
                            |k: u64| orig.contains_key(k) && (orig[k].spec_is_live(now) || !entries_view(list@.take(i as int)).contains_key(k)),
                            |k: u64| orig[k],
                        );
                        assert(map@ =~= cur_map);
                    }
                }
                proof {
                    assert(list@.take(list@.len() as int) =~= list@);
                    assert(map@ =~= live_peers(orig, now));
                }
                if map.is_empty() {
                    assert(map@ =~= Map::<u64, PeerMeta>::empty());
                    *self = Peers::Empty;
                } else {
                    *self = Peers::Hashed(map);
                }
            },
        }
        self.check_ok();
    }
}

/// Every peer is a seeder or a leecher: the two pools make up all peers.
pub proof fn lemma_pool_counts_partition(m: Map<u64, PeerMeta>)
    requires
        m.dom().finite(),
    ensures
        pool_count(m, true) + pool_count(m, false) == m.dom().len(),
{
    let s = m.dom().filter(|k: u64| m[k].spec_is_seeder() == true);
    let l = m.dom().filter(|k: u64| m[k].spec_is_seeder() == false);
    m.dom().lemma_len_filter(|k: u64| m[k].spec_is_seeder() == true);
    m.dom().lemma_len_filter(|k: u64| m[k].spec_is_seeder() == false);
    vstd::set_lib::lemma_set_disjoint_lens(s, l);
    assert(s + l =~= m.dom());
}

/// Purging at `now` leaves only peers live at `now`: a second purge at the
/// same time changes nothing, so the counts of all peers after a purge are
/// the counts of the live ones.
pub proof fn law_purge_leaves_only_live(m: Map<u64, PeerMeta>, now: u32)
    ensures
        live_peers(live_peers(m, now), now) == live_peers(m, now),
        pool_count(live_peers(m, now), true) == pool_count(live_peers(live_peers(m, now), now), true),
        pool_count(live_peers(m, now), false) == pool_count(live_peers(live_peers(m, now), now), false),
{
    assert(live_peers(live_peers(m, now), now) =~= live_peers(m, now));
}

/// Adding a new peer adds one to its pool's count.
pub proof fn lemma_pool_count_insert(m: Map<u64, PeerMeta>, key: u64, meta: PeerMeta, seeders: bool)
    requires
        m.dom().finite(),
        !m.contains_key(key),
    ensures
        pool_count(m.insert(key, meta), seeders) == pool_count(m, seeders) + (if meta.spec_is_seeder()
            == seeders {
            1int
        } else {
            0int
        }),
{
    let m2 = m.insert(key, meta);
    let f1 = m.dom().filter(|k: u64| m[k].spec_is_seeder() == seeders);
    let f2 = m2.dom().filter(|k: u64| m2[k].spec_is_seeder() == seeders);
    if meta.spec_is_seeder() == seeders {
        assert(f2 =~= f1.insert(key));
    } else {
        assert(f2 =~= f1);
    }
}

/// Dropping a peer takes one from its pool's count.
pub proof fn lemma_pool_count_remove(m: Map<u64, PeerMeta>, key: u64, seeders: bool)
    requires
        m.dom().finite(),
    ensures
        pool_count(m.remove(key), seeders) == pool_count(m, seeders) - (if m.contains_key(key)
            && m[key].spec_is_seeder() == seeders {
            1int
        } else {
            0int
        }),
{
    let m2 = m.remove(key);
    let f1 = m.dom().filter(|k: u64| m[k].spec_is_seeder() == seeders);
    let f2 = m2.dom().filter(|k: u64| m2[k].spec_is_seeder() == seeders);
    assert(f2 =~= f1.remove(key));
    m.dom().lemma_len_filter(|k: u64| m[k].spec_is_seeder() == seeders);
}

/// The seeder and leecher counts of the peers a list holds.
fn count_pools(list: &Vec<(u64, PeerMeta)>) -> (counts: (usize, usize))
    requires
        keys_distinct(list@),
    ensures
        counts.0 == pool_count(entries_view(list@), true),
        counts.1 == pool_count(entries_view(list@), false),
{
    let mut seeders: usize = 0;
    let mut leechers: usize = 0;
    let mut i: usize = 0;
    proof {
        assert(entries_view(list@.take(0)) =~= Map::<u64, PeerMeta>::empty());
        assert(Map::<u64, PeerMeta>::empty().dom().filter(|k: u64| Map::<u64, PeerMeta>::empty()[k].spec_is_seeder() == true) =~= Set::<u64>::empty());
        assert(Map::<u64, PeerMeta>::empty().dom().filter(|k: u64| Map::<u64, PeerMeta>::empty()[k].spec_is_seeder() == false) =~= Set::<u64>::empty());
    }
    while i < list.len()
        invariant
            keys_distinct(list@),
            i <= list@.len(),
            seeders + leechers == i,
            seeders == pool_count(entries_view(list@.take(i as int)), true),
            leechers == pool_count(entries_view(list@.take(i as int)), false),
        decreases list.len() - i,
    {
        proof {
            lemma_entries_view_prefix(list@, i as int);
            lemma_entries_view_finite(list@.take(i as int));
            lemma_pool_count_insert(entries_view(list@.take(i as int)), list@[i as int].0, list@[i as int].1, true);
            lemma_pool_count_insert(entries_view(list@.take(i as int)), list@[i as int].0, list@[i as int].1, false);
        }
        if list[i].1.is_seeder() {
            seeders += 1;
        } else {
            leechers += 1;
        }
        i += 1;
    }
    proof {
        assert(list@.take(list@.len() as int) =~= list@);
    }
    (seeders, leechers)
}

impl Peers {
    /// Every live peer, once, with its metadata.
    fn for_each_live(&self, now: u32) -> (live: Vec<(u64, PeerMeta)>)
        ensures
            lists(live@, live_peers(self@, now)),
            keys_bounded(live@),
            !(*self is Hashed) ==> live@ == self.stored().filter(live_entry(now)),
            !(*self is Hashed) ==> lists(self.stored(), self@),
    {
        let list = self.entries();
        let mut live: Vec<(u64, PeerMeta)> = Vec::new();
        let mut i: usize = 0;
        proof {
            assert(entries_view(list@.take(0)) =~= Map::<u64, PeerMeta>::empty());
            assert(live_peers(Map::<u64, PeerMeta>::empty(), now) =~= Map::<u64, PeerMeta>::empty());
            assert(entries_view(live@) =~= Map::<u64, PeerMeta>::empty());
            reveal(Seq::filter);
            assert(list@.take(0).filter(live_entry(now)) =~= Seq::<(u64, PeerMeta)>::empty());
        }
        while i < list.len()
            invariant
                lists(list@, self@),
                keys_bounded(list@),
                i <= list@.len(),
                keys_distinct(live@),
                keys_bounded(live@),
                entries_view(live@) == live_peers(entries_view(list@.take(i as int)), now),
                live@ == list@.take(i as int).filter(live_entry(now)),
            decreases list.len() - i,
        {
            proof {
                lemma_entries_view_prefix(list@, i as int);
                assert(list@.take(i + 1) =~= list@.take(i as int).push(list@[i as int]));
                lemma_filter_push(list@.take(i as int), list@[i as int], live_entry(now));
            }
            if list[i].1.is_live(now) {
                proof {
                    if entries_view(live@).contains_key(list@[i as int].0) {
                        assert(entries_view(list@.take(i as int)).contains_key(list@[i as int].0));
                    }
                    lemma_entries_view_push(live@, list@[i as int].0, list@[i as int].1);
                    assert(live_peers(entries_view(list@.take(i + 1)), now) =~= live_peers(entries_view(list@.take(i as int)), now).insert(list@[i as int].0, list@[i as int].1));
                }
                live.push(list[i]);
            } else {
                proof {
                    assert(live_peers(entries_view(list@.take(i + 1)), now) =~= live_peers(entries_view(list@.take(i as int)), now));
                }
            }
            i += 1;
        }
        proof {
            assert(list@.take(list@.len() as int) =~= list@);
        }
        live
    }

    /// The live seeders and live leechers at `now`.
    fn counts(&self, now: u32) -> (counts: (usize, usize))
        ensures
            counts.0 == pool_count(live_peers(self@, now), true),
            counts.1 == pool_count(live_peers(self@, now), false),
    {
        let live = self.for_each_live(now);
        count_pools(&live)
    }

    /// The seeders and leechers, expired or not.
    fn raw_counts(&self) -> (counts: (usize, usize))
        ensures
            counts.0 == pool_count(self@, true),
            counts.1 == pool_count(self@, false),
            counts.0 + counts.1 == self@.len(),
    {
        self.check_ok();
        proof {
            lemma_pool_counts_partition(self@);
        }
        let list = self.entries();
        count_pools(&list)
    }

    /// Up to `limit` distinct live peers of the wanted pool.
    fn sample(&self, now: u32, want_seeders: bool, limit: usize) -> (out: Vec<[u8; 6]>)
        ensures
            out@.len() == vstd::math::min(limit as int, pool_count(live_peers(self@, now), want_seeders) as int),
            forall|j: int| 0 <= j < out@.len() ==> {
                let k = #[trigger] spec_peer_key(out@[j]);
                &&& live_peers(self@, now).contains_key(k)
                &&& live_peers(self@, now)[k].spec_is_seeder() == want_seeders
            },
            forall|a: int, b: int| 0 <= a < b < out@.len() ==> out@[a] != out@[b],
            !(*self is Hashed) ==> out@.map_values(|p: [u8; 6]| spec_peer_key(p)) == ordered_sample(
                self.stored(),
                now,
                want_seeders,
                limit,
            ),
            !(*self is Hashed) ==> lists(self.stored(), self@),
    {
        let live = self.for_each_live(now);
        let ghost m = entries_view(live@);
        let ghost pe = pool_entry(want_seeders);
        let ghost pred = |k: u64| m[k].spec_is_seeder() == want_seeders;
        let mut out: Vec<[u8; 6]> = Vec::new();
        let ghost mut taken: Set<u64> = Set::empty();
        let mut i: usize = 0;
        while i < live.len()
            invariant
                lists(live@, live_peers(self@, now)),
                keys_bounded(live@),
                m == entries_view(live@),
                pred == (|k: u64| m[k].spec_is_seeder() == want_seeders),
                i <= live@.len(),
                taken.finite(),
                out@.len() == taken.len(),
                out@.len() <= limit,
                forall|j: int| 0 <= j < out@.len() ==> taken.contains(#[trigger] spec_peer_key(out@[j])),
                forall|k: u64| #[trigger] taken.contains(k) ==> m.contains_key(k) && pred(k) && entries_view(live@.take(i as int)).contains_key(k),
                forall|a: int, b: int| 0 <= a < b < out@.len() ==> spec_peer_key(out@[a]) != spec_peer_key(out@[b]),
                out@.len() < limit ==> taken == entries_view(live@.take(i as int)).dom().filter(pred),
                pe == pool_entry(want_seeders),
                out@.map_values(|p: [u8; 6]| spec_peer_key(p)) == entry_keys(live@.take(i as int).filter(pe)).take(
                    vstd::math::min(limit as int, live@.take(i as int).filter(pe).len() as int),
                ),
            decreases live.len() - i,
        {
            let ghost before = out@;
            proof {
                lemma_entries_view_prefix(live@, i as int);
                lemma_entries_view_at(live@, i as int);
                assert(live@.take(i + 1) =~= live@.take(i as int).push(live@[i as int]));
                lemma_filter_push(live@.take(i as int), live@[i as int], pe);
            }
            let ghost key = live@[i as int].0;
            if out.len() < limit {
                if live[i].1.is_seeder() == want_seeders {
                    let peer = peer_from_key(live[i].0);
                    proof {
                        assert(!taken.contains(key));
                        taken = taken.insert(key);
                    }
                    out.push(peer);
                    proof {
                        assert(spec_peer_key(out@[out@.len() - 1]) == key);
                    }
                }
            }
            i += 1;
            proof {
                if out@.len() < limit {
                    assert(taken =~= entries_view(live@.take(i as int)).dom().filter(pred));
                }
                let f0 = live@.take(i - 1).filter(pe);
                let f1 = live@.take(i as int).filter(pe);
                let k0 = entry_keys(f0);
                let k1 = entry_keys(f1);
                if pe(live@[i - 1]) {
                    assert(k1 =~= k0.push(live@[i - 1].0));
                    if before.len() < limit {
                        assert(out@.map_values(|p: [u8; 6]| spec_peer_key(p)) =~= before.map_values(
                            |p: [u8; 6]| spec_peer_key(p),
                        ).push(live@[i - 1].0));
                        assert(k1.take(vstd::math::min(limit as int, f1.len() as int)) =~= k1);
                        assert(k0.take(vstd::math::min(limit as int, f0.len() as int)) =~= k0);
                    } else {
                        assert(k1.take(vstd::math::min(limit as int, f1.len() as int)) =~= k0.take(
                            vstd::math::min(limit as int, f0.len() as int),
                        ));
                    }
                }
            }
        }
        proof {
            assert(live@.take(live@.len() as int) =~= live@);
            let all = m.dom().filter(pred);
            lemma_entries_view_finite(live@);
            assert(taken.subset_of(all));
            vstd::set_lib::lemma_len_subset(taken, all);
            assert(pool_count(live_peers(self@, now), want_seeders) == all.len());
            assert forall|a: int, b: int| 0 <= a < b < out@.len() implies out@[a] != out@[b] by {
                assert(spec_peer_key(out@[a]) != spec_peer_key(out@[b]));
            }
        }
        out
    }
}

/// Seconds after its last announce at which a torrent is stale.
pub const TORRENT_TTL_SECS: u32 = 60 * 31;

/// Whether a torrent last active at `last_activity` is stale at `now`: more
/// than `TORRENT_TTL_SECS` have passed (none if the clock reads earlier).
pub open spec fn spec_is_stale(last_activity: u32, now: u32) -> bool {
    (if now >= last_activity {
        now - last_activity
    } else {
        0
    }) > TORRENT_TTL_SECS
}

/// A swarm: its peers and when it was last announced to.
pub struct Torrent {
    peers: Peers,
    last_activity: u32,
}

/// What a torrent holds: its peers by key, and its last activity.
pub struct TorrentView {
    pub peers: Map<u64, PeerMeta>,
    pub last_activity: u32,
}

/// The torrent holds finitely many peers, each under a peer key.
pub open spec fn peers_ok(peers: Map<u64, PeerMeta>) -> bool {
    &&& peers.dom().finite()
    &&& forall|k: u64| #[trigger] peers.contains_key(k) ==> k < PEER_KEY_LIMIT
}

impl Peers {
    /// The peers are finitely many, each under a peer key; the storage is
    /// empty exactly when there are no peers, and inline storage holds at
    /// most `INLINE_PEER_CAP` of them.
    fn check_ok(&self)
        ensures
            peers_ok(self@),
            (self is Empty) <==> self@.len() == 0,
            self is Inline ==> 1 <= self@.len() <= INLINE_PEER_CAP,
            self is Hashed ==> self@.len() >= 1,
    {
        proof {
            use_type_invariant(self);
        }
        match self {
            Peers::Empty => {},
            Peers::Inline { entries, len } => {
                let ghost s = entries@.take(*len as int);
                proof {
                    lemma_entries_view_finite(s);
                    assert(s.len() == *len as int);
                    assert forall|k: u64| #[trigger] self@.contains_key(k) implies k < PEER_KEY_LIMIT by {
                        let i = choose|i: int| 0 <= i < s.len() && s[i].0 == k;
                    }
                }
            },
            Peers::Hashed(m) => {},
        }
    }
}

impl View for Torrent {
    type V = TorrentView;

    closed spec fn view(&self) -> TorrentView {
        TorrentView { peers: self.peers@, last_activity: self.last_activity }
    }
}

impl Torrent {
    /// The order in which the torrent keeps its peers, while it keeps them
    /// inline (up to `INLINE_PEER_CAP` peers, in the order they came);
    /// `None` once they are in a hash map, whose order is unspecified.
    pub closed spec fn stored_order(&self) -> Option<Seq<(u64, PeerMeta)>> {
        if self.peers is Hashed {
            None
        } else {
            Some(self.peers.stored())
        }
    }
}

impl Torrent {
    /// A torrent without peers, active at `now`.
    pub fn new(now: u32) -> (torrent: Torrent)
        ensures
            torrent@ == (TorrentView { peers: Map::empty(), last_activity: now }),
            peers_ok(torrent@.peers),
    {
        Torrent { peers: Peers::Empty, last_activity: now }
    }

    /// Mark the torrent active at `now`.
    pub fn touch(&mut self, now: u32)
        ensures
            final(self)@ == (TorrentView { last_activity: now, ..old(self)@ }),
    {
        self.last_activity = now;
    }

    /// Whether the torrent is stale at `now`.
    pub fn is_stale(&self, now: u32) -> (stale: bool)
        ensures
            stale == spec_is_stale(self@.last_activity, now),
    {
        now.saturating_sub(self.last_activity) > TORRENT_TTL_SECS
    }

    /// Drop the peers whose entry expired at `now`.
    pub fn purge_expired(&mut self, now: u32)
        ensures
            final(self)@ == (TorrentView { peers: live_peers(old(self)@.peers, now), ..old(self)@ }),
            peers_ok(old(self)@.peers),
            peers_ok(final(self)@.peers),
    {
        self.peers.check_ok();
        self.peers.purge_expired(now);
        self.peers.check_ok();
    }

    /// The metadata of the peer stored under `key`, if any.
    pub fn peer(&self, key: u64) -> (meta: Option<PeerMeta>)
        ensures
            meta == (if self@.peers.contains_key(key) {
                Some(self@.peers[key])
            } else {
                None::<PeerMeta>
            }),
            peers_ok(self@.peers),
    {
        self.peers.check_ok();
        self.peers.get(key)
    }

    /// Store `meta` under `key`.
    pub fn insert_peer(&mut self, key: u64, meta: PeerMeta)
        requires
            key < PEER_KEY_LIMIT,
        ensures
            final(self)@ == (TorrentView { peers: old(self)@.peers.insert(key, meta), ..old(self)@ }),
            peers_ok(final(self)@.peers),
    {
        self.peers.insert(key, meta);
        self.peers.check_ok();
    }

    /// Drop the peer stored under `key`; whether it was there.
    pub fn remove_peer(&mut self, key: u64) -> (removed: bool)
        ensures
            final(self)@ == (TorrentView { peers: old(self)@.peers.remove(key), ..old(self)@ }),
            removed == old(self)@.peers.contains_key(key),
            peers_ok(final(self)@.peers),
    {
        let removed = self.peers.remove(key);
        self.peers.check_ok();
        removed
    }

    /// The number of peers, expired or not.
    pub fn peer_count(&self) -> (n: usize)
        ensures
            n == self@.peers.len(),
    {
        self.peers.len()
    }

    /// The live seeders and live leechers at `now`.
    pub fn counts(&self, now: u32) -> (counts: (usize, usize))
        ensures
            counts.0 == pool_count(live_peers(self@.peers, now), true),
            counts.1 == pool_count(live_peers(self@.peers, now), false),
            peers_ok(self@.peers),
    {
        self.peers.check_ok();
        self.peers.counts(now)
    }

    /// The seeders and leechers, expired or not.
    pub fn raw_counts(&self) -> (counts: (usize, usize))
        ensures
            counts.0 == pool_count(self@.peers, true),
            counts.1 == pool_count(self@.peers, false),
            counts.0 + counts.1 == self@.peers.len(),
            peers_ok(self@.peers),
    {
        self.peers.check_ok();
        self.peers.raw_counts()
    }

    /// Up to `limit` distinct live peers of the wanted pool.
    pub fn sample(&self, now: u32, want_seeders: bool, limit: usize) -> (out: Vec<[u8; 6]>)
        ensures
            out@.len() == vstd::math::min(limit as int, pool_count(live_peers(self@.peers, now), want_seeders) as int),
            forall|j: int| 0 <= j < out@.len() ==> {
                let k = #[trigger] spec_peer_key(out@[j]);
                &&& live_peers(self@.peers, now).contains_key(k)
                &&& live_peers(self@.peers, now)[k].spec_is_seeder() == want_seeders
            },
            forall|a: int, b: int| 0 <= a < b < out@.len() ==> out@[a] != out@[b],
            self.stored_order() matches Some(stored) ==> lists(stored, self@.peers) && out@.map_values(
                |p: [u8; 6]| spec_peer_key(p),
            ) == ordered_sample(stored, now, want_seeders, limit),
    {
        self.peers.sample(now, want_seeders, limit)
    }
}

/// A torrent holds at most `PEER_KEY_LIMIT` peers, and each pool at most
/// as many as the torrent.
pub proof fn lemma_pool_count_bounded(peers: Map<u64, PeerMeta>, seeders: bool)
    requires
        peers_ok(peers),
    ensures
        pool_count(peers, seeders) <= peers.dom().len(),
        peers.dom().len() <= PEER_KEY_LIMIT,
{
    let dom = peers.dom();
    vstd::set_lib::lemma_len_subset(dom.filter(|k: u64| peers[k].spec_is_seeder() == seeders), dom);
    let f = |k: u64| k as int;
    let ints = dom.map(f);
    assert(vstd::relations::injective_on(f, dom));
    vstd::set_lib::lemma_map_size(dom, ints, f);
    vstd::set_lib::lemma_int_range(0, PEER_KEY_LIMIT as int);
    assert forall|x: int| #[trigger] ints.contains(x) implies vstd::set_lib::set_int_range(0, PEER_KEY_LIMIT as int).contains(x) by {
        let k = choose|k: u64| dom.contains(k) && f(k) == x;
    }
    vstd::set_lib::lemma_len_subset(ints, vstd::set_lib::set_int_range(0, PEER_KEY_LIMIT as int));
}

/// The index of `key` among the first `n` inline entries.
fn find_inline(entries: &[(u64, PeerMeta); 8], n: usize, key: u64) -> (found: Option<usize>)
    requires
        n <= 8,
        keys_distinct(entries@.take(n as int)),
    ensures
        match found {
            Some(i) => i < n && entries@[i as int].0 == key,
            None => !entries_view(entries@.take(n as int)).contains_key(key),
        },
{
    let ghost s = entries@.take(n as int);
    let mut i: usize = 0;
    while i < n
        invariant
            n <= 8,
            s == entries@.take(n as int),
            i <= n,
            forall|j: int| 0 <= j < i ==> entries@[j].0 != key,
        decreases n - i,
    {
        if entries[i].0 == key {
            return Some(i);
        }
        i += 1;
    }
    proof {
        if entries_view(s).contains_key(key) {
            let j = choose|j: int| 0 <= j < s.len() && s[j].0 == key;
            assert(entries@[j].0 == key);
        }
    }
    None
}

/// Every entry of a hash map of peers, once.
fn collect_hashed(m: &HashMap<u64, PeerMeta>) -> (out: Vec<(u64, PeerMeta)>)
    requires
        forall|k: u64| #[trigger] m@.contains_key(k) ==> k < PEER_KEY_LIMIT,
    ensures
        lists(out@, m@),
        keys_bounded(out@),
{
    let mut out: Vec<(u64, PeerMeta)> = Vec::new();
    let ghost v = vstd::std_specs::iter::IteratorSpec::remaining(
        &vstd::std_specs::hash::spec_hash_map_iter(m),
    );
    for (k, meta) in it: m.iter()
        invariant
            v == vstd::std_specs::iter::IteratorSpec::remaining(
                &vstd::std_specs::hash::spec_hash_map_iter(m),
            ),
            it.seq() == v,
            out@.len() == it.index(),
            forall|j: int| 0 <= j < out@.len() ==> out@[j] == (*v[j].0, *v[j].1),
    {
        out.push((*k, *meta));
    }
    proof {
        let s = out@;
        assert(s.len() == v.len());
        assert forall|i: int| 0 <= i < s.len() implies m@.contains_key(#[trigger] s[i].0) && m@[s[i].0]
            == s[i].1 by {
            assert(m@.contains_key(*v[i].0));
        }
        assert forall|i: int, j: int| 0 <= i < j < s.len() implies s[i].0 != s[j].0 by {
            assert(v[i] != v[j]);
            assert(m@.contains_key(*v[i].0) && m@.contains_key(*v[j].0));
        }
        assert forall|k: u64| #[trigger] entries_view(s).contains_key(k) <==> m@.contains_key(k) by {
            if m@.contains_key(k) {
                assert(v.contains((&k, &m@[k])));
                let i = choose|i: int| 0 <= i < v.len() && v[i] == (&k, &m@[k]);
                assert(s[i].0 == k);
            }
        }
        assert forall|k: u64| #[trigger] entries_view(s).contains_key(k) implies entries_view(s)[k]
            == m@[k] by {
            let i = choose|i: int| 0 <= i < s.len() && s[i].0 == k;
            lemma_entries_view_at(s, i);
        }
        assert(entries_view(s) =~= m@);
    }
    out
}

} // verus!
