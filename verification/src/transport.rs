//! What the library knows of transports and of the addresses they dial.

use vstd::prelude::*;

use crate::identity::PeerId;
use crate::wire::same_bytes;

verus! {

/// An Internet address and port.
#[derive(Clone, Copy, Eq, Hash, Debug)]
pub enum SocketAddr {
    V4 { ip: [u8; 4], port: u16 },
    V6 { ip6: [u8; 16], port: u16, flowinfo: u32, scope_id: u32 },
}

impl PartialEq for SocketAddr {
    fn eq(&self, other: &Self) -> (same: bool) {
        match (self, other) {
            (SocketAddr::V4 { ip: a, port: p }, SocketAddr::V4 { ip: b, port: q }) => {
                proof {
                    if a@ == b@ {
                        assert forall|i: int| 0 <= i < 4 implies a[i] == b[i] by {
                            assert(a@[i] == b@[i]);
                        }
                        assert(*a =~= *b);
                    }
                }
                *p == *q && same_bytes(a, b)
            },
            (
                SocketAddr::V6 { ip6: a, port: p, flowinfo: f, scope_id: s },
                SocketAddr::V6 { ip6: b, port: q, flowinfo: g, scope_id: t },
            ) => {
                proof {
                    if a@ == b@ {
                        assert forall|i: int| 0 <= i < 16 implies a[i] == b[i] by {
                            assert(a@[i] == b@[i]);
                        }
                        assert(*a =~= *b);
                    }
                }
                *p == *q && *f == *g && *s == *t && same_bytes(a, b)
            },
            _ => false,
        }
    }
}

impl vstd::std_specs::cmp::PartialEqSpecImpl for SocketAddr {
    open spec fn obeys_eq_spec() -> bool {
        true
    }

    open spec fn eq_spec(&self, other: &Self) -> bool {
        *self == *other
    }
}

/// Where a peer can be dialled.
#[derive(Debug)]
pub enum PeerAddress {
    Quic(SocketAddr),
    Ble(String),
    WifiDirect(String),
    /// The hexadecimal short identifier of the peer. A broadcast medium has no device
    /// identifier; the short identifier is all that a packet header carries.
    BleAdvertising(String),
}

/// The value of a peer address.
pub enum AddressModel {
    Quic(SocketAddr),
    Ble(Seq<char>),
    WifiDirect(Seq<char>),
    BleAdvertising(Seq<char>),
}

impl View for PeerAddress {
    type V = AddressModel;

    open spec fn view(&self) -> AddressModel {
        match self {
            PeerAddress::Quic(a) => AddressModel::Quic(*a),
            PeerAddress::Ble(s) => AddressModel::Ble(s@),
            PeerAddress::WifiDirect(s) => AddressModel::WifiDirect(s@),
            PeerAddress::BleAdvertising(s) => AddressModel::BleAdvertising(s@),
        }
    }
}

impl Eq for PeerAddress {

}

impl PartialEq for PeerAddress {
    fn eq(&self, other: &Self) -> (same: bool) {
        match (self, other) {
            (PeerAddress::Quic(a), PeerAddress::Quic(b)) => *a == *b,
            (PeerAddress::Ble(a), PeerAddress::Ble(b)) => *a == *b,
            (PeerAddress::WifiDirect(a), PeerAddress::WifiDirect(b)) => *a == *b,
            (PeerAddress::BleAdvertising(a), PeerAddress::BleAdvertising(b)) => *a == *b,
            _ => false,
        }
    }
}

impl vstd::std_specs::cmp::PartialEqSpecImpl for PeerAddress {
    open spec fn obeys_eq_spec() -> bool {
        true
    }

    open spec fn eq_spec(&self, other: &Self) -> bool {
        self@ == other@
    }
}

impl Clone for PeerAddress {
    fn clone(&self) -> (copy: Self)
        ensures
            copy@ == self@,
    {
        match self {
            PeerAddress::Quic(a) => PeerAddress::Quic(*a),
            PeerAddress::Ble(s) => PeerAddress::Ble(s.clone()),
            PeerAddress::WifiDirect(s) => PeerAddress::WifiDirect(s.clone()),
            PeerAddress::BleAdvertising(s) => PeerAddress::BleAdvertising(s.clone()),
        }
    }
}

impl AddressModel {
    /// The kind of transport that dials the address.
    pub open spec fn kind(self) -> TransportKind {
        match self {
            AddressModel::Quic(_) => TransportKind::Quic,
            AddressModel::Ble(_) => TransportKind::Ble,
            AddressModel::WifiDirect(_) => TransportKind::WifiDirect,
            AddressModel::BleAdvertising(_) => TransportKind::BleAdvertising,
        }
    }
}

impl PeerAddress {
    /// The kind of transport that dials the address.
    pub fn kind(&self) -> (kind: TransportKind)
        ensures
            kind == self@.kind(),
    {
        match self {
            PeerAddress::Quic(_) => TransportKind::Quic,
            PeerAddress::Ble(_) => TransportKind::Ble,
            PeerAddress::WifiDirect(_) => TransportKind::WifiDirect,
            PeerAddress::BleAdvertising(_) => TransportKind::BleAdvertising,
        }
    }

    /// Whether the two addresses are the same.
    pub fn same(&self, other: &PeerAddress) -> (same: bool)
        ensures
            same == (self@ == other@),
    {
        *self == *other
    }
}

/// An address at which a peer was seen, with the first eight bytes of its identifier where the
/// medium reveals them.
#[derive(Debug)]
pub struct PeerAnnouncement {
    pub address: PeerAddress,
    pub short_id: Option<[u8; 8]>,
}

/// The value of an announcement.
pub struct AnnouncementModel {
    pub address: AddressModel,
    pub short_id: Option<[u8; 8]>,
}

impl View for PeerAnnouncement {
    type V = AnnouncementModel;

    open spec fn view(&self) -> AnnouncementModel {
        AnnouncementModel { address: self.address@, short_id: self.short_id }
    }
}

impl Clone for PeerAnnouncement {
    fn clone(&self) -> (copy: Self)
        ensures
            copy@ == self@,
    {
        PeerAnnouncement { address: self.address.clone(), short_id: self.short_id }
    }
}

/// The values of a list of announcements.
pub open spec fn announcement_models(s: Seq<PeerAnnouncement>) -> Seq<AnnouncementModel> {
    s.map_values(|a: PeerAnnouncement| a@)
}

/// A copy of a list of announcements.
pub fn copy_announcements(s: &Vec<PeerAnnouncement>) -> (out: Vec<PeerAnnouncement>)
    ensures
        announcement_models(out@) == announcement_models(s@),
{
    let mut out: Vec<PeerAnnouncement> = Vec::new();
    let mut i: usize = 0;
    while i < s.len()
        invariant
            i <= s@.len(),
            out@.len() == i,
            forall|k: int| 0 <= k < i ==> (#[trigger] out@[k])@ == s@[k]@,
        decreases s@.len() - i,
    {
        out.push(s[i].clone());
        i = i + 1;
    }
    assert(announcement_models(out@) =~= announcement_models(s@));
    out
}

/// What using a transport costs.
#[derive(Clone, Copy, PartialEq, Eq, Structural, Debug)]
pub enum TransportCost {
    Free,
    Metered,
    Unknown,
}

/// The media the library can use.
#[derive(Clone, Copy, PartialEq, Eq, Structural, Debug)]
pub enum TransportKind {
    Quic,
    Ble,
    WifiDirect,
    BleAdvertising,
}

/// What the library reports about transports, peers, keys and stored payloads.
#[derive(Clone, Copy, Debug)]
pub enum TransportEvent {
    TransportChanged { from: Option<TransportKind>, to: TransportKind },
    PeerConnected(PeerId),
    PeerDisconnected(PeerId),
    /// A send was confirmed; `transport` is the one that carried it.
    MessageDelivered { peer_id: PeerId, transport: TransportKind },
    /// A stored payload expired, or found its queue full.
    StoreFailed { peer_id: PeerId },
    /// A key was learned that was not in the registry before, by a handshake or by gossip.
    KeyLearned { peer_id: PeerId, public_key: [u8; 32] },
}

/// Receives the payloads that are addressed to this node.
pub trait MessageHandler: Send + Sync {
    fn on_message(&self, peer_id: PeerId, payload: Vec<u8>);
}

/// How a node is set up.
pub struct NodeConfig {
    pub listen_port: Option<u16>,
    /// How long a stored payload is kept, in nanoseconds. The default is 24 hours.
    pub store_ttl: Option<u128>,
    /// How many payloads are stored for one destination. The default is any number.
    pub max_queue_depth: Option<usize>,
    /// How many keys the registry holds. The default is any number.
    pub max_key_registry_size: Option<usize>,
}

impl Default for NodeConfig {
    fn default() -> (config: Self)
        ensures
            config.listen_port is None,
            config.store_ttl is None,
            config.max_queue_depth is None,
            config.max_key_registry_size is None,
    {
        NodeConfig {
            listen_port: None,
            store_ttl: None,
            max_queue_depth: None,
            max_key_registry_size: None,
        }
    }
}

/// The value of a list of announcements has one for each of them, in order, with its address and
/// its short identifier.
pub proof fn law_announcement_values(s: Seq<PeerAnnouncement>, i: int)
    requires
        0 <= i < s.len(),
    ensures
        announcement_models(s).len() == s.len(),
        announcement_models(s)[i].address == s[i].address@,
        announcement_models(s)[i].short_id == s[i].short_id,
{
}

/// The value of an address is what it holds, and the transport that dials it is that of its kind.
pub proof fn law_address_values(a: SocketAddr, d: String)
    ensures
        PeerAddress::Quic(a)@ == AddressModel::Quic(a),
        PeerAddress::Ble(d)@ == AddressModel::Ble(d@),
        PeerAddress::WifiDirect(d)@ == AddressModel::WifiDirect(d@),
        PeerAddress::BleAdvertising(d)@ == AddressModel::BleAdvertising(d@),
        AddressModel::Quic(a).kind() == TransportKind::Quic,
        AddressModel::Ble(d@).kind() == TransportKind::Ble,
        AddressModel::WifiDirect(d@).kind() == TransportKind::WifiDirect,
        AddressModel::BleAdvertising(d@).kind() == TransportKind::BleAdvertising,
{
}

} // verus!
