//! Messages inside Bluetooth advertisements: everyone in range hears every packet, and a header
//! says who it is from and who it is for.

use std::collections::hash_map::DefaultHasher;
use std::hash::Hasher;

use vstd::bytes::{u32_to_le_bytes, u64_to_le_bytes};
#[allow(unused_imports)]
use vstd::bytes::{spec_u32_to_le_bytes, spec_u64_to_le_bytes};
use vstd::prelude::*;
#[allow(unused_imports)]
use vstd::std_specs::hash::DefaultHasherAdditionalSpecFns;

use crate::dedup::DeduplicationCache;
#[allow(unused_imports)]
use crate::dedup::{
    after_check, fresh_part, law_duplicate_within_window, measured_from, SeenKey,
};
use crate::error::{transport_error, PathweaveError};
#[allow(unused_imports)]
use crate::frame::{id_of, lemma_id_of, lemma_id_of_bytes};
use crate::hex::{hex_to_short_id, short_id, short_id_to_hex};
#[allow(unused_imports)]
use crate::hex::{hex_of, is_short_id, law_short_id_round_trip, reads_as, short_id_of};
use crate::identity::PeerId;
#[allow(unused_imports)]
use crate::identity::lemma_peer_id_view;
use crate::transport::{PeerAddress, PeerAnnouncement, TransportCost, TransportKind};
#[allow(unused_imports)]
use crate::transport::{AddressModel, AnnouncementModel};
use crate::wire::{array8, copy_range, push_all, same_bytes};

verus! {

/// The length of the header: the destination's short identifier, then the source's.
pub const HEADER_LEN: usize = 16;

/// The longest payload of a packet.
pub const MAX_PAYLOAD_LEN: usize = 150;

/// How long a packet that was heard is not heard again, in nanoseconds: two seconds.
pub const PACKET_WINDOW: u128 = 2_000_000_000;

/// The company identifier that is reserved for testing.
pub const MANUFACTURER_COMPANY_ID: u16 = 0xFFFF;

/// What tells a packet from what other users of the same company identifier send.
pub const ADV_BEARER_MAGIC: u8 = 0xC0;

/// A packet: header, then payload.
pub open spec fn packet(dest: Seq<u8>, source: Seq<u8>, payload: Seq<u8>) -> Seq<u8> {
    dest + source + payload
}

/// The header of a packet.
pub fn encode_header(dest: [u8; 8], source: [u8; 8]) -> (header: [u8; 16])
    ensures
        header@ == dest@ + source@,
{
    let mut header: [u8; 16] = [0u8;16];
    let mut i: usize = 0;
    while i < 8
        invariant
            i <= 8,
            forall|k: int| 0 <= k < i ==> header@[k] == dest@[k],
            forall|k: int| 0 <= k < i ==> header@[8 + k] == source@[k],
        decreases 8 - i,
    {
        header[i] = dest[i];
        header[8 + i] = source[i];
        i = i + 1;
    }
    assert forall|k: int| 0 <= k < 16 implies header@[k] == (dest@ + source@)[k] by {
        if k >= 8 {
            assert(header@[8 + (k - 8)] == source@[k - 8]);
        }
    }
    assert(header@ =~= dest@ + source@);
    header
}

/// The destination, the source and the payload of a packet; nothing if it is too short.
pub fn decode_header(bytes: &[u8]) -> (r: Option<([u8; 8], [u8; 8], &[u8])>)
    ensures
        r is Some <==> bytes@.len() >= HEADER_LEN,
        r matches Some(t) ==> {
            &&& t.0@ == bytes@.subrange(0, 8)
            &&& t.1@ == bytes@.subrange(8, 16)
            &&& t.2@ == bytes@.skip(16)
        },
{
    if bytes.len() < HEADER_LEN {
        return None;
    }
    let payload = vstd::slice::slice_subrange(bytes, HEADER_LEN, bytes.len());
    assert(payload@ =~= bytes@.skip(16));
    Some((array8(bytes, 0), array8(bytes, 8), payload))
}

/// Puts a packet together.
pub fn encode_packet(dest: [u8; 8], source: [u8; 8], payload: &[u8]) -> (out: Vec<u8>)
    ensures
        out@ == packet(dest@, source@, payload@),
{
    let header = encode_header(dest, source);
    let mut out: Vec<u8> = Vec::new();
    push_all(&mut out, &header);
    push_all(&mut out, payload);
    assert(out@ =~= packet(dest@, source@, payload@));
    out
}

/// The manufacturer data that carries a packet.
pub open spec fn manufacturer_data(p: Seq<u8>) -> Seq<u8> {
    seq![ADV_BEARER_MAGIC] + p
}

/// Wraps a packet into manufacturer data.
pub fn wrap_packet(p: &[u8]) -> (data: Vec<u8>)
    ensures
        data@ == manufacturer_data(p@),
{
    let mut data: Vec<u8> = Vec::new();
    data.push(ADV_BEARER_MAGIC);
    push_all(&mut data, p);
    assert(data@ =~= manufacturer_data(p@));
    data
}

/// The packet that manufacturer data carries, if it carries one.
pub fn unwrap_packet(data: &[u8]) -> (p: Option<Vec<u8>>)
    ensures
        p is Some <==> data@.len() > 0 && data@[0] == ADV_BEARER_MAGIC,
        p matches Some(v) ==> data@ == manufacturer_data(v@),
{
    if data.len() == 0 || data[0] != ADV_BEARER_MAGIC {
        return None;
    }
    let p = copy_range(data, 1, data.len());
    assert(data@ =~= manufacturer_data(p@));
    Some(p)
}

/// The bytes that stand for a length before what has that length: the length as a machine word,
/// the least significant byte first.
pub open spec fn length_prefix(n: nat) -> Seq<u8> {
    if usize::BITS == 64 {
        spec_u64_to_le_bytes(n as u64)
    } else {
        spec_u32_to_le_bytes(n as u32)
    }
}

/// The number that stands for a payload among the packets heard: the hash of its length and its
/// bytes.
pub open spec fn payload_hash(payload: Seq<u8>) -> u64 {
    DefaultHasher::spec_finish(seq![length_prefix(payload.len()), payload])
}

/// The number that stands for a payload among the packets heard.
pub fn hash_payload(payload: &[u8]) -> (h: u64)
    ensures
        h == payload_hash(payload@),
{
    let n: usize = payload.len();
    let prefix = if usize::BITS == 64 {
        u64_to_le_bytes(n as u64)
    } else {
        u32_to_le_bytes(n as u32)
    };
    let mut hasher = DefaultHasher::new();
    hasher.write(prefix.as_slice());
    hasher.write(payload);
    assert(hasher@ =~= seq![length_prefix(payload@.len()), payload@]);
    hasher.finish()
}

/// What a packet's header stands for among the packets heard: the short identifiers of its sender
/// and of whom it is for, and nothing after them.
pub open spec fn medium_id(dest: Seq<u8>, source: Seq<u8>) -> PeerId {
    id_of(source + dest + Seq::new(16, |i: int| 0u8))
}

fn medium_peer(dest: &[u8; 8], source: &[u8; 8]) -> (p: PeerId)
    ensures
        p == medium_id(dest@, source@),
{
    let mut bytes: [u8; 32] = [0u8;32];
    let mut i: usize = 0;
    while i < 8
        invariant
            i <= 8,
            forall|k: int| 0 <= k < i ==> bytes@[k] == source@[k],
            forall|k: int| 8 <= k < 8 + i ==> bytes@[k] == dest@[k - 8],
            forall|k: int| 16 <= k < 32 ==> bytes@[k] == 0,
        decreases 8 - i,
    {
        bytes[i] = source[i];
        bytes[8 + i] = dest[i];
        i = i + 1;
    }
    let p = PeerId::from_bytes(bytes);
    proof {
        assert(bytes@ =~= source@ + dest@ + Seq::new(16, |i: int| 0u8));
        lemma_id_of(p);
    }
    p
}

/// What a packet is recognised by: whom it is for, who sent it, and what its payload hashes to.
pub open spec fn packet_key(dest: Seq<u8>, source: Seq<u8>, payload: Seq<u8>) -> SeenKey {
    (Some(medium_id(dest, source)), payload_hash(payload))
}

/// The announcement of a sender that was heard.
pub open spec fn heard(source: [u8; 8]) -> AnnouncementModel {
    AnnouncementModel {
        address: AddressModel::BleAdvertising(hex_of(source@)),
        short_id: Some(source),
    }
}

/// What was heard for the own node: who sent it, the payload, and whether this is the first from
/// that sender, so that a connection is to be opened.
pub struct Heard {
    pub source: [u8; 8],
    pub payload: Vec<u8>,
    pub opens: bool,
}

/// What comes of a packet.
pub struct Observed {
    /// The sender, who is in range.
    pub announcement: Option<PeerAnnouncement>,
    /// What to hand to the connection with the sender.
    pub delivery: Option<Heard>,
}

/// The state of the medium as a started transport sees it.
#[verifier::ext_equal]
pub struct MediumModel {
    pub local: Seq<u8>,
    pub recent: Map<SeenKey, u128>,
    pub connections: Set<Seq<u8>>,
    /// The clock reading from which the transport counts time.
    pub origin: std::time::Instant,
}

impl MediumModel {
    /// Whether a packet is heard at all: it has a header, it is not the node's own, and the same
    /// payload was not heard from the same sender for the same destination within the window.
    pub open spec fn hears(self, p: Seq<u8>, now: u128) -> bool {
        &&& p.len() >= HEADER_LEN
        &&& p.subrange(8, 16) != self.local
        &&& !fresh_part(self.recent, now, PACKET_WINDOW).dom().contains(
            packet_key(p.subrange(0, 8), p.subrange(8, 16), p.skip(16)),
        )
    }

    /// Whether a packet is for the node.
    pub open spec fn addressed(self, p: Seq<u8>) -> bool {
        p.subrange(0, 8) == self.local
    }

    /// After a packet was observed.
    pub open spec fn after(self, p: Seq<u8>, now: u128) -> MediumModel {
        if p.len() < HEADER_LEN || p.subrange(8, 16) == self.local {
            self
        } else {
            MediumModel {
                recent: after_check(
                    self.recent,
                    packet_key(p.subrange(0, 8), p.subrange(8, 16), p.skip(16)),
                    now,
                    PACKET_WINDOW,
                ),
                connections: if self.hears(p, now) && self.addressed(p) {
                    self.connections.insert(p.subrange(8, 16))
                } else {
                    self.connections
                },
                ..self
            }
        }
    }

    /// Whether `o` is what comes of a packet.
    pub open spec fn observes(self, p: Seq<u8>, now: u128, o: Observed) -> bool {
        if self.hears(p, now) {
            &&& o.announcement matches Some(a) && (exists|s: [u8; 8]|
                s@ == p.subrange(8, 16) && a@ == #[trigger] heard(s))
            &&& o.delivery is Some <==> self.addressed(p)
            &&& o.delivery matches Some(d) ==> {
                &&& d.source@ == p.subrange(8, 16)
                &&& d.payload@ == p.skip(16)
                &&& d.opens == !self.connections.contains(p.subrange(8, 16))
            }
        } else {
            o.announcement is None && o.delivery is None
        }
    }
}

/// The medium as a started transport sees it.
struct Medium {
    local: [u8; 8],
    recent: DeduplicationCache,
    connections: Vec<[u8; 8]>,
}

spec fn id_views(s: Seq<[u8; 8]>) -> Seq<Seq<u8>> {
    s.map_values(|id: [u8; 8]| id@)
}

impl Medium {
    spec fn model(&self) -> MediumModel {
        MediumModel {
            local: self.local@,
            recent: self.recent.direct(),
            connections: id_views(self.connections@).to_set(),
            origin: self.recent.origin(),
        }
    }

    fn is_connected(&self, source: &[u8; 8]) -> (r: bool)
        ensures
            r == self.model().connections.contains(source@),
    {
        let ghost views = id_views(self.connections@);
        let mut i: usize = 0;
        while i < self.connections.len()
            invariant
                i <= self.connections@.len(),
                views == id_views(self.connections@),
                forall|k: int| 0 <= k < i ==> #[trigger] views[k] != source@,
            decreases self.connections@.len() - i,
        {
            let id = self.connections[i];
            if same_bytes(&id, source) {
                assert(views[i as int] == source@);
                assert(views.contains(source@));
                return true;
            }
            assert(views[i as int] != source@);
            i = i + 1;
        }
        proof {
            if views.contains(source@) {
                let k = choose|k: int| 0 <= k < views.len() && views[k] == source@;
                assert(views[k] != source@);
            }
        }
        false
    }

    fn add_connection(&mut self, source: [u8; 8])
        ensures
            final(self).model() == (MediumModel {
                connections: old(self).model().connections.insert(source@),
                ..old(self).model()
            }),
            final(self).recent.window() == old(self).recent.window(),
    {
        let ghost before = id_views(self.connections@);
        if self.is_connected(&source) {
            assert(self.model().connections =~= self.model().connections.insert(source@));
            return;
        }
        self.connections.push(source);
        proof {
            let after = id_views(self.connections@);
            assert(after =~= before.push(source@));
            assert forall|x: Seq<u8>| after.to_set().contains(x) <==> before.to_set().insert(
                source@,
            ).contains(x) by {
                if before.contains(x) {
                    let k = choose|k: int| 0 <= k < before.len() && before[k] == x;
                    assert(after[k] == x);
                }
                if x == source@ {
                    assert(after[before.len() as int] == x);
                }
                if after.contains(x) && x != source@ {
                    let k = choose|k: int| 0 <= k < after.len() && after[k] == x;
                    assert(before[k] == x);
                }
            }
            assert(after.to_set() =~= before.to_set().insert(source@));
        }
    }

    fn observe(&mut self, p: &[u8], now: u128) -> (o: Observed)
        requires
            old(self).recent.window() == PACKET_WINDOW,
        ensures
            final(self).model() == old(self).model().after(p@, now),
            old(self).model().observes(p@, now, o),
            final(self).recent.window() == PACKET_WINDOW,
    {
        let ghost m = self.model();
        let (dest, source, payload) = match decode_header(p) {
            Some(t) => t,
            None => {
                return Observed { announcement: None, delivery: None };
            },
        };
        if same_bytes(&source, &self.local) {
            return Observed { announcement: None, delivery: None };
        }
        let peer = medium_peer(&dest, &source);
        let h: u64 = hash_payload(payload);
        if self.recent.check_and_insert_at(&peer, h, now) {
            return Observed { announcement: None, delivery: None };
        }
        let address = PeerAddress::BleAdvertising(short_id_to_hex(source));
        let announcement = PeerAnnouncement { address, short_id: Some(source) };
        assert(announcement@ == heard(source));
        if !same_bytes(&dest, &self.local) {
            return Observed { announcement: Some(announcement), delivery: None };
        }
        let opens = !self.is_connected(&source);
        self.add_connection(source);
        let payload = copy_range(payload, 0, payload.len());
        assert(payload@ =~= p@.skip(16));
        assert(self.model() =~= m.after(p@, now));
        Observed { announcement: Some(announcement), delivery: Some(Heard { source, payload, opens }) }
    }
}

/// The transport that sends messages inside advertisements.
pub struct BleAdvertisingTransport {
    medium: Option<Medium>,
}

impl View for BleAdvertisingTransport {
    type V = Option<MediumModel>;

    closed spec fn view(&self) -> Option<MediumModel> {
        match self.medium {
            Some(m) => Some(m.model()),
            None => None,
        }
    }
}

impl BleAdvertisingTransport {
    /// The transport's invariant.
    pub closed spec fn well_formed(&self) -> bool {
        self.medium matches Some(m) ==> m.recent.window() == PACKET_WINDOW
    }

    /// A transport that was not started.
    pub fn new() -> (t: Self)
        ensures
            t.well_formed(),
            t@ is None,
    {
        BleAdvertisingTransport { medium: None }
    }

    /// Starts the transport for the node `peer_id`.
    pub fn start(&mut self, peer_id: &PeerId)
        ensures
            final(self).well_formed(),
            final(self)@ matches Some(m) && {
                &&& m.local == short_id_of(*peer_id)
                &&& m.recent == Map::<SeenKey, u128>::empty()
                &&& m.connections == Set::<Seq<u8>>::empty()
            },
    {
        let medium = Medium {
            local: short_id(peer_id),
            recent: DeduplicationCache::with_ttl(PACKET_WINDOW),
            connections: Vec::new(),
        };
        assert(medium.model().connections =~= Set::<Seq<u8>>::empty());
        self.medium = Some(medium);
    }

    /// Stops the transport.
    pub fn stop(&mut self)
        ensures
            final(self).well_formed(),
            final(self)@ is None,
    {
        self.medium = None;
    }

    /// Nanoseconds since the transport was started; zero if it was not.
    pub fn now(&self) -> (now: u128)
        ensures
            match self@ {
                Some(m) => measured_from(m.origin, now),
                None => now == 0,
            },
    {
        match &self.medium {
            Some(m) => m.recent.now(),
            None => 0,
        }
    }

    /// A packet was observed at time `now`.
    pub fn observe(&mut self, p: &[u8], now: u128) -> (o: Observed)
        requires
            old(self).well_formed(),
        ensures
            final(self).well_formed(),
            match old(self)@ {
                Some(m) => final(self)@ == Some(m.after(p@, now)) && m.observes(p@, now, o),
                None => final(self)@ is None && o.announcement is None && o.delivery is None,
            },
    {
        let mut medium: Option<Medium> = None;
        std::mem::swap(&mut medium, &mut self.medium);
        match medium {
            Some(m) => {
                let mut m = m;
                let o = m.observe(p, now);
                self.medium = Some(m);
                o
            },
            None => Observed { announcement: None, delivery: None },
        }
    }

    /// Opens a connection to a peer. Returns the short identifiers of the node and of the peer.
    pub fn connect(&mut self, peer: &PeerAnnouncement) -> (r: Result<
        ([u8; 8], [u8; 8]),
        PathweaveError,
    >)
        requires
            old(self).well_formed(),
        ensures
            final(self).well_formed(),
            match peer@.address {
                AddressModel::BleAdvertising(text) => if !is_short_id(text) {
                    r matches Err(PathweaveError::Transport(e)) && e@
                        == "malformed BLE advertising short_id"@
                } else {
                    match old(self)@ {
                        None => r matches Err(PathweaveError::Transport(e)) && e@
                            == "transport not started"@,
                        Some(m) => r matches Ok(pair) && pair.0@ == m.local && reads_as(
                            text,
                            pair.1@,
                        ),
                    }
                },
                _ => r matches Err(PathweaveError::Transport(e)) && e@
                    == "expected BLE advertising address"@,
            },
            r is Err ==> final(self)@ == old(self)@,
            r matches Ok(pair) ==> final(self)@ == Some(
                MediumModel {
                    connections: (old(self)@->0).connections.insert(pair.1@),
                    ..old(self)@->0
                },
            ),
    {
        let text = match &peer.address {
            PeerAddress::BleAdvertising(text) => text,
            _ => {
                return Err(transport_error("expected BLE advertising address"));
            },
        };
        let id = match hex_to_short_id(text.as_str()) {
            Some(id) => id,
            None => {
                return Err(transport_error("malformed BLE advertising short_id"));
            },
        };
        let mut medium: Option<Medium> = None;
        std::mem::swap(&mut medium, &mut self.medium);
        match medium {
            Some(m) => {
                let mut m = m;
                let local = m.local;
                m.add_connection(id);
                self.medium = Some(m);
                Ok((local, id))
            },
            None => Err(transport_error("transport not started")),
        }
    }

    /// The longest payload of a packet.
    pub fn mtu_hint(&self) -> (n: usize)
        ensures
            n == MAX_PAYLOAD_LEN,
            n == 150,
    {
        MAX_PAYLOAD_LEN
    }

    /// What using the transport costs.
    pub fn cost(&self) -> (c: TransportCost)
        ensures
            c == TransportCost::Free,
    {
        TransportCost::Free
    }

    /// The kind of the transport.
    pub fn kind(&self) -> (k: TransportKind)
        ensures
            k == TransportKind::BleAdvertising,
    {
        TransportKind::BleAdvertising
    }

    /// The addresses under which the node can be reached.
    pub fn local_addresses(&self) -> (addrs: Vec<PeerAddress>)
        ensures
            match self@ {
                Some(m) => addrs@.len() == 1 && addrs@[0]@ == AddressModel::BleAdvertising(
                    hex_of(m.local),
                ),
                None => addrs@.len() == 0,
            },
    {
        let mut addrs: Vec<PeerAddress> = Vec::new();
        match &self.medium {
            Some(m) => {
                addrs.push(PeerAddress::BleAdvertising(short_id_to_hex(m.local)));
            },
            None => {},
        }
        addrs
    }
}

/// A header is read as it was written, whatever follows it.
pub proof fn law_packet_round_trip(dest: Seq<u8>, source: Seq<u8>, payload: Seq<u8>)
    requires
        dest.len() == 8,
        source.len() == 8,
    ensures
        ({
            let p = packet(dest, source, payload);
            &&& p.len() >= HEADER_LEN
            &&& p.subrange(0, 8) == dest
            &&& p.subrange(8, 16) == source
            &&& p.skip(16) == payload
        }),
{
    let p = packet(dest, source, payload);
    assert(p.subrange(0, 8) =~= dest);
    assert(p.subrange(8, 16) =~= source);
    assert(p.skip(16) =~= payload);
}

/// A packet reaches the node it is for, with its sender and payload, unless the same was just
/// heard; a node that it is not for gets nothing of it.
pub proof fn law_packet_reaches_addressee(
    m: MediumModel,
    dest: Seq<u8>,
    source: Seq<u8>,
    payload: Seq<u8>,
    now: u128,
    o: Observed,
)
    requires
        dest.len() == 8,
        source.len() == 8,
        source != m.local,
        !fresh_part(m.recent, now, PACKET_WINDOW).dom().contains(
            packet_key(dest, source, payload),
        ),
        m.observes(packet(dest, source, payload), now, o),
    ensures
        o.announcement is Some,
        o.delivery is Some <==> dest == m.local,
        o.delivery matches Some(d) ==> d.source@ == source && d.payload@ == payload,
{
    law_packet_round_trip(dest, source, payload);
}

/// What a node sends itself is not heard.
pub proof fn law_own_packet_ignored(
    m: MediumModel,
    dest: Seq<u8>,
    payload: Seq<u8>,
    now: u128,
    o: Observed,
)
    requires
        dest.len() == 8,
        m.local.len() == 8,
        m.observes(packet(dest, m.local, payload), now, o),
    ensures
        o.announcement is None,
        o.delivery is None,
        m.after(packet(dest, m.local, payload), now) == m,
{
    law_packet_round_trip(dest, m.local, payload);
}

/// Packets for different nodes are told apart, whatever else they have in common.
proof fn lemma_destinations_told_apart(
    dest: Seq<u8>,
    other: Seq<u8>,
    source: Seq<u8>,
    other_source: Seq<u8>,
)
    requires
        dest.len() == 8,
        other.len() == 8,
        source.len() == 8,
        other_source.len() == 8,
        dest != other,
    ensures
        medium_id(dest, source) != medium_id(other, other_source),
{
    let a = source + dest + Seq::new(16, |i: int| 0u8);
    let b = other_source + other + Seq::new(16, |i: int| 0u8);
    lemma_id_of_bytes(a);
    lemma_id_of_bytes(b);
    if a == b {
        assert(a.subrange(8, 16) =~= dest);
        assert(b.subrange(8, 16) =~= other);
    }
}

/// A packet for the node is not missed because of packets for others: hearing one of those does
/// not change whether it is heard, even with the same sender and payload.
pub proof fn law_packets_for_others_do_not_hide(
    m: MediumModel,
    other: Seq<u8>,
    other_source: Seq<u8>,
    other_payload: Seq<u8>,
    source: Seq<u8>,
    payload: Seq<u8>,
    t1: u128,
    t2: u128,
)
    requires
        other.len() == 8,
        other_source.len() == 8,
        source.len() == 8,
        m.local.len() == 8,
        other != m.local,
        t1 <= t2,
    ensures
        m.after(packet(other, other_source, other_payload), t1).hears(
            packet(m.local, source, payload),
            t2,
        ) == m.hears(packet(m.local, source, payload), t2),
{
    law_packet_round_trip(other, other_source, other_payload);
    law_packet_round_trip(m.local, source, payload);
    lemma_destinations_told_apart(m.local, other, source, other_source);
}

/// A packet that is repeated within the window is heard once.
pub proof fn law_repeated_packet_heard_once(
    m: MediumModel,
    p: Seq<u8>,
    t1: u128,
    t2: u128,
    o: Observed,
)
    requires
        m.hears(p, t1),
        t1 <= t2,
        t2 - t1 < PACKET_WINDOW,
        m.after(p, t1).observes(p, t2, o),
    ensures
        o.announcement is None,
        o.delivery is None,
{
    law_duplicate_within_window(
        m.recent,
        packet_key(p.subrange(0, 8), p.subrange(8, 16), p.skip(16)),
        t1,
        t2,
        PACKET_WINDOW,
    );
}

/// Two packets are taken for the same exactly if they are for the same node, from the same sender,
/// and their payloads have the same hash.
pub proof fn law_packets_told_apart(
    dest: Seq<u8>,
    source: Seq<u8>,
    payload: Seq<u8>,
    dest2: Seq<u8>,
    source2: Seq<u8>,
    payload2: Seq<u8>,
)
    requires
        dest.len() == 8,
        source.len() == 8,
        dest2.len() == 8,
        source2.len() == 8,
    ensures
        packet_key(dest, source, payload) == packet_key(dest2, source2, payload2) <==> dest == dest2
            && source == source2 && payload_hash(payload) == payload_hash(payload2),
        payload_hash(payload) == DefaultHasher::spec_finish(
            seq![length_prefix(payload.len()), payload],
        ),
{
    let a = source + dest + Seq::new(16, |i: int| 0u8);
    let b = source2 + dest2 + Seq::new(16, |i: int| 0u8);
    lemma_id_of_bytes(a);
    lemma_id_of_bytes(b);
    if a == b {
        assert(a.subrange(0, 8) =~= source);
        assert(b.subrange(0, 8) =~= source2);
        assert(a.subrange(8, 16) =~= dest);
        assert(b.subrange(8, 16) =~= dest2);
    }
}

/// What comes of a packet, in bytes: eight of destination, eight of source, payload. Unless it is
/// too short, the node's own, or on record less than two seconds ago, its sender is announced under
/// its short identifier, and if it is for the node, its payload is handed over whole, to a new
/// connection exactly if there is none with the sender. Else nothing comes of it.
pub proof fn law_packet_observed_exactly(m: MediumModel, p: Seq<u8>, now: u128, o: Observed)
    requires
        m.observes(p, now, o),
    ensures
        ({
            let k = packet_key(p.subrange(0, 8), p.subrange(8, 16), p.skip(16));
            let repeated = m.recent.dom().contains(k) && (now < m.recent[k] || now - m.recent[k]
                < 2_000_000_000);
            let heard = p.len() >= 16 && p.subrange(8, 16) != m.local && !repeated;
            &&& heard ==> (o.announcement matches Some(a) && a.address@ == AddressModel::BleAdvertising(
                hex_of(p.subrange(8, 16)),
            ) && (a.short_id matches Some(id) && id@ == p.subrange(8, 16)))
            &&& heard && p.subrange(0, 8) == m.local ==> (o.delivery matches Some(d) && d.source@
                == p.subrange(8, 16) && d.payload@ == p.skip(16) && d.opens
                == !m.connections.contains(p.subrange(8, 16)))
            &&& !heard ==> o.announcement is None
            &&& !heard || p.subrange(0, 8) != m.local ==> o.delivery is None
        }),
{
}

/// What a packet changes: one that is long enough and not the node's own is put on record, and one
/// that is handed over leaves a connection with its sender; nothing else changes.
pub proof fn law_packet_recorded_exactly(m: MediumModel, p: Seq<u8>, now: u128)
    ensures
        ({
            let k = packet_key(p.subrange(0, 8), p.subrange(8, 16), p.skip(16));
            let repeated = m.recent.dom().contains(k) && (now < m.recent[k] || now - m.recent[k]
                < 2_000_000_000);
            let ignored = p.len() < 16 || p.subrange(8, 16) == m.local;
            let n = m.after(p, now);
            &&& ignored ==> n == m
            &&& !ignored ==> n.recent == after_check(m.recent, k, now, 2_000_000_000)
            &&& !ignored && !repeated && p.subrange(0, 8) == m.local ==> n.connections
                == m.connections.insert(p.subrange(8, 16))
            &&& repeated || p.subrange(0, 8) != m.local ==> n.connections == m.connections
            &&& n.local == m.local
            &&& n.origin == m.origin
        }),
{
}

/// Packets are marked by the byte 0xC0 before them, and nothing else is taken for a packet.
pub proof fn law_packet_marked(p: Seq<u8>)
    ensures
        manufacturer_data(p).len() == p.len() + 1,
        manufacturer_data(p)[0] == 0xC0,
        manufacturer_data(p).skip(1) == p,
        ADV_BEARER_MAGIC == 0xC0,
{
    assert(manufacturer_data(p).skip(1) =~= p);
}

} // verus!
