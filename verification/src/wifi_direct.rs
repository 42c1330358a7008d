//! The Wi-Fi Direct transport: who becomes the group owner, and what is read from what the system
//! reports of peers and groups.

use vstd::prelude::*;
#[allow(unused_imports)]
use vstd::string::*;

use crate::error::{transport_error, PathweaveError};
use crate::hex::{hex_to_short_id, short_id, short_id_to_hex};
#[allow(unused_imports)]
use crate::hex::{hex_of, is_short_id, law_short_id_round_trip, reads_as, short_id_of};
use crate::identity::PeerId;
use crate::text::{chars_of, starts_with};
use crate::transport::{PeerAddress, PeerAnnouncement, TransportCost, TransportKind};
#[allow(unused_imports)]
use crate::transport::{AddressModel, AnnouncementModel};
use crate::wire::same_bytes;

verus! {

/// The service that every node offers.
pub const P2P_SERVICE_NAME: &'static str = "pathweave-p2p";

/// What stands before the short identifier in the name that a node shows.
pub const P2P_NAME_PREFIX: &'static str = "pathweave-p2p:";

/// The length of that prefix.
pub const P2P_PREFIX_LEN: usize = 14;

/// The port on which both sides meet.
pub const WIFI_DIRECT_PORT: u16 = 47808;

/// The longest frame that is sent in one packet.
pub const WIFI_DIRECT_MTU: usize = 1400;

/// The name under which a node with this short identifier is found.
pub open spec fn device_name(id: Seq<u8>) -> Seq<char> {
    P2P_NAME_PREFIX@ + hex_of(id)
}

/// Whether a name carries a short identifier.
pub open spec fn names_node(name: Seq<char>) -> bool {
    P2P_NAME_PREFIX@.is_prefix_of(name) && is_short_id(name.skip(P2P_NAME_PREFIX@.len() as int))
}

/// The name under which the node `peer_id` is found.
pub fn own_device_name(peer_id: &PeerId) -> (name: String)
    ensures
        name@ == device_name(short_id_of(*peer_id)),
{
    String::from_str(P2P_NAME_PREFIX).concat(short_id_to_hex(short_id(peer_id)).as_str())
}

/// The short identifier that a name carries, if it carries one.
pub fn parse_short_id_from_service_name(name: &str) -> (id: Option<[u8; 8]>)
    ensures
        id is Some <==> names_node(name@),
        id matches Some(v) ==> reads_as(name@.skip(P2P_NAME_PREFIX@.len() as int), v@),
{
    proof {
        reveal_strlit("pathweave-p2p:");
    }
    let chars = chars_of(name);
    if !starts_with(&chars, P2P_NAME_PREFIX) {
        return None;
    }
    let n: usize = chars.len();
    let hex = name.substring_char(P2P_PREFIX_LEN, n);
    assert(hex@ =~= name@.skip(P2P_NAME_PREFIX@.len() as int));
    hex_to_short_id(hex)
}

/// The name under which a node is found tells its short identifier.
pub proof fn law_device_name_round_trip(id: Seq<u8>, read: Seq<u8>)
    requires
        id.len() == 8,
    ensures
        names_node(device_name(id)),
        reads_as(device_name(id).skip(P2P_NAME_PREFIX@.len() as int), read) <==> read == id,
{
    let p = P2P_NAME_PREFIX@;
    let name = device_name(id);
    assert(p =~= name.subrange(0, p.len() as int));
    assert(name.skip(p.len() as int) =~= hex_of(id));
    law_short_id_round_trip(id, read);
}

/// What comes after the last slash of a path; all of it, if there is none.
pub open spec fn last_component(path: Seq<char>) -> Seq<char>
    decreases path.len(),
{
    if path.len() == 0 || path.last() == '/' {
        Seq::empty()
    } else {
        last_component(path.drop_last()).push(path.last())
    }
}

fn last_component_of(path: &String) -> (r: String)
    ensures
        r@ == last_component(path@),
{
    let s = path.as_str();
    let chars = chars_of(s);
    let n: usize = chars.len();
    let mut start: usize = n;
    assert(s@.take(n as int) =~= s@);
    assert(s@.subrange(n as int, n as int) =~= Seq::<char>::empty());
    assert(last_component(s@) =~= last_component(s@.take(n as int)) + s@.subrange(
        n as int,
        n as int,
    ));
    while start > 0 && chars[start - 1] != '/'
        invariant
            start <= n,
            chars@ == s@,
            n == s@.len(),
            last_component(s@) == last_component(s@.take(start as int)) + s@.subrange(
                start as int,
                n as int,
            ),
        decreases start,
    {
        proof {
            let t = s@.take(start as int);
            assert(t.drop_last() =~= s@.take(start - 1));
            assert(last_component(t) + s@.subrange(start as int, n as int) =~= last_component(
                s@.take(start - 1),
            ) + s@.subrange(start - 1, n as int));
        }
        start = start - 1;
    }
    proof {
        let t = s@.take(start as int);
        assert(last_component(t) =~= Seq::<char>::empty());
        assert(last_component(s@) =~= s@.subrange(start as int, n as int));
    }
    String::from_str(s.substring_char(start, n))
}

/// The peer that the system has found at an object path, with the name that it shows. A path
/// without a last component names nobody.
pub fn found_peer(path: &String, name: Option<String>) -> (a: Option<PeerAnnouncement>)
    ensures
        a is Some <==> last_component(path@).len() > 0,
        a matches Some(ann) ==> {
            &&& ann.address@ == AddressModel::WifiDirect(last_component(path@))
            &&& ann.short_id is Some <==> name is Some && names_node((name->0)@)
            &&& ann.short_id matches Some(id) ==> reads_as(
                (name->0)@.skip(P2P_NAME_PREFIX@.len() as int),
                id@,
            )
        },
{
    let mac = last_component_of(path);
    if mac.as_str().is_empty() {
        return None;
    }
    let id = match &name {
        Some(n) => parse_short_id_from_service_name(n.as_str()),
        None => None,
    };
    Some(PeerAnnouncement { address: PeerAddress::WifiDirect(mac), short_id: id })
}

/// The peer that a device is, with the name that it shows. The node's own device is none.
pub fn enumerated_peer(device: String, name: Option<String>, local: Option<[u8; 8]>) -> (a: Option<
    PeerAnnouncement,
>)
    ensures
        ({
            let shown = name is Some && names_node((name->0)@);
            let own = shown && local is Some && reads_as(
                (name->0)@.skip(P2P_NAME_PREFIX@.len() as int),
                (local->0)@,
            );
            &&& a is Some <==> !own
            &&& a matches Some(ann) ==> {
                &&& ann.address@ == AddressModel::WifiDirect(device@)
                &&& ann.short_id is Some <==> shown
                &&& ann.short_id matches Some(id) ==> reads_as(
                    (name->0)@.skip(P2P_NAME_PREFIX@.len() as int),
                    id@,
                )
            }
        }),
{
    let id = match &name {
        Some(n) => parse_short_id_from_service_name(n.as_str()),
        None => None,
    };
    match (&local, &id) {
        (Some(mine), Some(theirs)) => {
            proof {
                let text = (name->0)@.skip(P2P_NAME_PREFIX@.len() as int);
                if reads_as(text, mine@) {
                    lemma_reading_unique(text, mine@, theirs@);
                }
            }
            if same_bytes(mine, theirs) {
                return None;
            }
        },
        _ => {},
    }
    Some(PeerAnnouncement { address: PeerAddress::WifiDirect(device), short_id: id })
}

proof fn lemma_reading_unique(text: Seq<char>, a: Seq<u8>, b: Seq<u8>)
    requires
        reads_as(text, a),
        reads_as(text, b),
    ensures
        a == b,
{
    assert forall|i: int| 0 <= i < 8 implies a[i] == b[i] by {
        assert(crate::hex::pair_value(text[2 * i], text[2 * i + 1]) == Some(a[i] as int));
        assert(crate::hex::pair_value(text[2 * i], text[2 * i + 1]) == Some(b[i] as int));
    }
    assert(a =~= b);
}

/// Whether `a` comes after `b` in the dictionary.
pub open spec fn lex_greater(a: Seq<u8>, b: Seq<u8>) -> bool
    decreases a.len(),
{
    if a.len() == 0 {
        false
    } else if b.len() == 0 {
        true
    } else if a[0] != b[0] {
        a[0] > b[0]
    } else {
        lex_greater(a.skip(1), b.skip(1))
    }
}

/// Whether the node becomes the group owner: it does if its short identifier is the greater one.
/// Without the peer's it does not.
pub open spec fn owns_group(local: Seq<u8>, peer: Option<[u8; 8]>) -> bool {
    match peer {
        Some(id) => lex_greater(local, id@),
        None => false,
    }
}

/// Whether the node becomes the group owner.
pub fn is_group_owner(local: &[u8; 8], peer: Option<[u8; 8]>) -> (r: bool)
    ensures
        r == owns_group(local@, peer),
{
    let id = match peer {
        Some(id) => id,
        None => {
            return false;
        },
    };
    let mut i: usize = 0;
    assert(local@.skip(0) =~= local@);
    assert(id@.skip(0) =~= id@);
    while i < 8
        invariant
            i <= 8,
            lex_greater(local@, id@) == lex_greater(local@.skip(i as int), id@.skip(i as int)),
            peer == Some(id),
        decreases 8 - i,
    {
        assert(local@.skip(i as int)[0] == local@[i as int]);
        assert(id@.skip(i as int)[0] == id@[i as int]);
        if local[i] != id[i] {
            return local[i] > id[i];
        }
        proof {
            assert(local@.skip(i as int).skip(1) =~= local@.skip(i + 1));
            assert(id@.skip(i as int).skip(1) =~= id@.skip(i + 1));
        }
        i = i + 1;
    }
    false
}

/// Of two nodes that know each other's short identifiers, exactly one becomes the group owner.
pub proof fn law_one_group_owner(a: Seq<u8>, b: Seq<u8>)
    requires
        a != b,
    ensures
        lex_greater(a, b) <==> !lex_greater(b, a),
    decreases a.len(),
{
    if a.len() == 0 {
        if b.len() == 0 {
            assert(a =~= b);
        }
    } else if b.len() > 0 && a[0] == b[0] {
        if a.skip(1) == b.skip(1) {
            assert(a =~= seq![a[0]] + a.skip(1));
            assert(b =~= seq![b[0]] + b.skip(1));
        }
        law_one_group_owner(a.skip(1), b.skip(1));
    }
}

/// How much a node insists on becoming the group owner.
pub fn go_intent(group_owner: bool) -> (n: u32)
    ensures
        n == if group_owner {
            15u32
        } else {
            0u32
        },
{
    if group_owner {
        15
    } else {
        0
    }
}

/// The property of a group that holds the address to dial.
pub open spec fn ip_key(group_owner: bool) -> Seq<char> {
    if group_owner {
        "ip_addr"@
    } else {
        "ip_addr_go"@
    }
}

/// The property of a group that holds the address to dial.
pub fn go_ip_key(group_owner: bool) -> (key: &'static str)
    ensures
        key@ == ip_key(group_owner),
{
    if group_owner {
        "ip_addr"
    } else {
        "ip_addr_go"
    }
}

/// The address to dial, from the property that holds it, if that is there.
pub fn extract_go_ip(value: Option<String>, group_owner: bool) -> (r: Result<String, PathweaveError>)
    ensures
        match value {
            Some(ip) => r == Ok::<String, PathweaveError>(ip),
            None => r matches Err(PathweaveError::Transport(e)) && e@ == "WiFi Direct: '"@ + ip_key(
                group_owner,
            ) + "' missing from GroupStarted properties"@,
        },
{
    match value {
        Some(ip) => Ok(ip),
        None => {
            let text = String::from_str("WiFi Direct: '").concat(go_ip_key(group_owner)).concat(
                "' missing from GroupStarted properties",
            );
            Err(PathweaveError::Transport(text))
        },
    }
}

/// Whether to wait for a client: only the owner of a group does.
pub fn waits_for_client(role: &Option<String>) -> (r: bool)
    ensures
        r <==> role is Some && (role->0)@ == "GO"@,
{
    match role {
        Some(text) => {
            let go = String::from_str("GO");
            *text == go
        },
        None => false,
    }
}

/// The device to dial where only the client of a group dials: the owner is dialled instead.
pub fn client_dials(device: String, group_owner: bool) -> (r: Result<String, PathweaveError>)
    ensures
        !group_owner ==> r == Ok::<String, PathweaveError>(device),
        group_owner ==> (r matches Err(PathweaveError::Transport(e)) && e@
            == "WiFi Direct: this node is GO — the remote side will initiate; the router should call accept() to receive the inbound connection"@),
{
    if group_owner {
        return Err(
            transport_error(
                "WiFi Direct: this node is GO — the remote side will initiate; the router should call accept() to receive the inbound connection",
            ),
        );
    }
    Ok(device)
}

/// The Wi-Fi Direct transport.
pub struct WifiDirectTransport {
    local_short_id: Option<[u8; 8]>,
}

impl WifiDirectTransport {
    /// The short identifier of the node that the transport was started for.
    pub closed spec fn local(&self) -> Option<[u8; 8]> {
        self.local_short_id
    }

    /// A transport that was not started.
    pub fn new() -> (t: Self)
        ensures
            t.local() is None,
    {
        WifiDirectTransport { local_short_id: None }
    }

    /// Starts the transport for the node `peer_id`.
    pub fn start(&mut self, peer_id: &PeerId)
        ensures
            final(self).local() matches Some(id) && id@ == short_id_of(*peer_id),
    {
        self.local_short_id = Some(short_id(peer_id));
    }

    /// Stops the transport.
    pub fn stop(&mut self)
        ensures
            final(self).local() is None,
    {
        self.local_short_id = None;
    }

    /// The short identifier of the node, if the transport was started.
    pub fn local_short_id(&self) -> (id: Option<[u8; 8]>)
        ensures
            id == self.local(),
    {
        self.local_short_id
    }

    /// How to reach a peer: its device, and whether the node is to be the group owner.
    pub fn connect(&self, peer: &PeerAnnouncement) -> (r: Result<(String, bool), PathweaveError>)
        ensures
            match peer@.address {
                AddressModel::WifiDirect(device) => match self.local() {
                    Some(id) => r matches Ok(pair) && pair.0@ == device && pair.1 == owns_group(
                        id@,
                        peer.short_id,
                    ),
                    None => r matches Err(PathweaveError::Transport(e)) && e@
                        == "WiFi Direct transport not started"@,
                },
                _ => r matches Err(PathweaveError::Transport(e)) && e@
                    == "WiFi Direct connect: wrong address type"@,
            },
    {
        let device = match &peer.address {
            PeerAddress::WifiDirect(device) => device.clone(),
            _ => {
                return Err(transport_error("WiFi Direct connect: wrong address type"));
            },
        };
        match &self.local_short_id {
            Some(id) => Ok((device, is_group_owner(id, peer.short_id))),
            None => Err(transport_error("WiFi Direct transport not started")),
        }
    }

    /// The error with which waiting for a peer ends when none can come.
    pub fn accept_error(&self) -> (e: PathweaveError)
        ensures
            e matches PathweaveError::Transport(m) && m@ == if self.local() is Some {
                "WiFi Direct: accept channel closed"@
            } else {
                "WiFi Direct transport not started"@
            },
    {
        if self.local_short_id.is_some() {
            transport_error("WiFi Direct: accept channel closed")
        } else {
            transport_error("WiFi Direct transport not started")
        }
    }

    /// The longest frame that is sent in one packet.
    pub fn mtu_hint(&self) -> (n: usize)
        ensures
            n == WIFI_DIRECT_MTU,
    {
        WIFI_DIRECT_MTU
    }

    /// What using the transport costs.
    pub fn cost(&self) -> (c: TransportCost)
        ensures
            c == TransportCost::Free,
    {
        TransportCost::Free
    }

    /// The kind of the transport.
    pub fn kind(&self) -> (k: TransportKind)
        ensures
            k == TransportKind::WifiDirect,
    {
        TransportKind::WifiDirect
    }

    /// The addresses under which the node can be reached. Peers find it by its name instead.
    pub fn local_addresses(&self) -> (addrs: Vec<PeerAddress>)
        ensures
            addrs@.len() == 0,
    {
        Vec::new()
    }
}

/// One short identifier is greater than another exactly if at the first byte in which they differ
/// it has the greater one.
pub proof fn law_greater_at_first_difference(a: Seq<u8>, b: Seq<u8>, i: int)
    requires
        a.len() == b.len(),
        0 <= i < a.len(),
        forall|k: int| 0 <= k < i ==> a[k] == b[k],
        a[i] != b[i],
    ensures
        lex_greater(a, b) <==> a[i] > b[i],
    decreases i,
{
    if i > 0 {
        assert(a[0] == b[0]);
        assert forall|k: int| 0 <= k < i - 1 implies a.skip(1)[k] == b.skip(1)[k] by {
            assert(a[k + 1] == b[k + 1]);
        }
        law_greater_at_first_difference(a.skip(1), b.skip(1), i - 1);
    }
}

/// A node does not own a group with a peer whose short identifier it does not know, nor with
/// itself.
pub proof fn law_no_group_without_peer(local: Seq<u8>, peer: [u8; 8])
    ensures
        !owns_group(local, None),
        !owns_group(peer@, Some(peer)),
        owns_group(local, Some(peer)) <==> lex_greater(local, peer@),
{
    lemma_not_greater_than_itself(peer@);
}

proof fn lemma_not_greater_than_itself(a: Seq<u8>)
    ensures
        !lex_greater(a, a),
    decreases a.len(),
{
    if a.len() > 0 {
        lemma_not_greater_than_itself(a.skip(1));
    }
}

/// The last component of a path is what follows its last slash; a path without a slash is its own
/// last component.
pub proof fn law_last_component_exact(before: Seq<char>, name: Seq<char>)
    requires
        !name.contains('/'),
    ensures
        last_component(before + seq!['/'] + name) == name,
        last_component(name) == name,
    decreases name.len(),
{
    let s = before + seq!['/'] + name;
    if name.len() == 0 {
        assert(s.last() == '/');
        assert(last_component(s) =~= name);
        assert(last_component(name) =~= name);
    } else {
        let n = name.drop_last();
        assert(name[name.len() - 1] != '/') by {
            assert(name.contains(name[name.len() - 1]));
        }
        assert(!n.contains('/')) by {
            if n.contains('/') {
                let i = choose|i: int| 0 <= i < n.len() && n[i] == '/';
                assert(name[i] == '/');
            }
        }
        law_last_component_exact(before, n);
        assert(s.drop_last() =~= before + seq!['/'] + n);
        assert(s.last() == name.last());
        assert(n.push(name.last()) =~= name);
    }
}

/// A name carries a short identifier exactly if it is "pathweave-p2p:" and a short identifier in
/// digits after it.
pub proof fn law_node_name_exact(text: Seq<char>, name: Seq<char>)
    ensures
        names_node("pathweave-p2p:"@ + text) <==> is_short_id(text),
        names_node(name) ==> "pathweave-p2p:"@.is_prefix_of(name),
        ("pathweave-p2p:"@ + text).skip(P2P_NAME_PREFIX@.len() as int) == text,
{
    let p = "pathweave-p2p:"@;
    let s = p + text;
    assert(P2P_NAME_PREFIX@ == p);
    assert(s.subrange(0, p.len() as int) =~= p);
    assert(s.skip(p.len() as int) =~= text);
}

/// The name under which a node is found is "pathweave-p2p:" and its short identifier in digits; the
/// property that holds the address to dial is the own one for the owner of a group and the owner's
/// for its client.
pub proof fn law_names_exact(id: Seq<u8>)
    ensures
        device_name(id) == "pathweave-p2p:"@ + hex_of(id),
        ip_key(true) == "ip_addr"@,
        ip_key(false) == "ip_addr_go"@,
{
}

} // verus!
