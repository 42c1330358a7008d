//! The QUIC transport: framing on a byte stream, peers found by multicast DNS, and what the
//! network it runs over costs.

use vstd::prelude::*;
#[allow(unused_imports)]
use vstd::string::*;

use crate::error::{transport_error, PathweaveError};
#[allow(unused_imports)]
use crate::hex::hex_of;
use crate::hex::to_hex;
use crate::router::entropy;
use crate::text::{chars_of, same_chars, split_fields, split_lines, starts_with};
#[allow(unused_imports)]
use crate::text::{
    char_views, fields_of, law_fields_end_at_whitespace, law_lines_end_at_line_ends, lines_of,
    whitespace,
};
use crate::transport::{PeerAddress, PeerAnnouncement, SocketAddr, TransportCost, TransportKind};
#[allow(unused_imports)]
use crate::transport::{announcement_models, AddressModel, AnnouncementModel};
#[allow(unused_imports)]
use crate::peers::address_models;
use crate::wire::{copy_range, push_all, u32_from_be, u32_to_be};
#[allow(unused_imports)]
use crate::wire::{be_u32, from_be_u32, law_be_u32_round_trip};

verus! {

/// The service under which nodes announce themselves.
pub const SERVICE_TYPE: &'static str = "_pathweave._udp.local.";

/// The longest frame that is sent in one packet.
pub const QUIC_MTU: usize = 1200;

/// What stands before a frame on a byte stream: its length.
pub open spec fn frame_header(len: nat) -> Seq<u8> {
    be_u32(len as u32)
}

/// A frame on a byte stream.
pub open spec fn stream_frame(bytes: Seq<u8>) -> Seq<u8> {
    frame_header(bytes.len()) + bytes
}

/// Builds a frame for a byte stream.
pub fn encode_frame(bytes: &[u8]) -> (out: Vec<u8>)
    ensures
        out@ == stream_frame(bytes@),
{
    let mut out = u32_to_be(bytes.len() as u32);
    push_all(&mut out, bytes);
    out
}

/// How many bytes follow a header.
pub fn frame_len(header: &[u8; 4]) -> (n: usize)
    ensures
        n == from_be_u32(header@),
{
    u32_from_be(header) as usize
}

/// The first frame of a byte stream, if it has arrived whole.
pub open spec fn first_frame(stream: Seq<u8>) -> Option<Seq<u8>> {
    if stream.len() < 4 || stream.len() < 4 + from_be_u32(stream) {
        None
    } else {
        Some(stream.subrange(4, 4 + from_be_u32(stream)))
    }
}

/// The first frame of a byte stream, if it has arrived whole.
pub fn decode_frame(stream: &[u8]) -> (frame: Option<Vec<u8>>)
    ensures
        frame is Some <==> first_frame(stream@) is Some,
        frame matches Some(f) ==> first_frame(stream@) == Some(f@),
{
    if stream.len() < 4 {
        return None;
    }
    let n: usize = u32_from_be(stream) as usize;
    if stream.len() - 4 < n {
        return None;
    }
    Some(copy_range(stream, 4, 4 + n))
}

/// Reading a byte stream gives back the frame that was written first, whatever follows it.
pub proof fn law_frame_round_trip(bytes: Seq<u8>, rest: Seq<u8>)
    requires
        bytes.len() <= u32::MAX,
    ensures
        first_frame(stream_frame(bytes) + rest) == Some(bytes),
        (stream_frame(bytes) + rest).skip(4 + bytes.len() as int) == rest,
{
    let s = stream_frame(bytes) + rest;
    law_be_u32_round_trip(bytes.len() as u32, bytes + rest);
    assert(s =~= be_u32(bytes.len() as u32) + (bytes + rest));
    assert(s.subrange(4, 4 + bytes.len() as int) =~= bytes);
    assert(s.skip(4 + bytes.len() as int) =~= rest);
}

/// Whether a name starts with one of the prefixes of interfaces without a data cap.
pub open spec fn is_free_interface(name: Seq<char>) -> bool {
    ||| "wlan"@.is_prefix_of(name)
    ||| "wlp"@.is_prefix_of(name)
    ||| "wlx"@.is_prefix_of(name)
    ||| "eth"@.is_prefix_of(name)
    ||| "enp"@.is_prefix_of(name)
    ||| "eno"@.is_prefix_of(name)
    ||| "ens"@.is_prefix_of(name)
    ||| "enx"@.is_prefix_of(name)
}

/// Whether a name starts with one of the prefixes of mobile data interfaces.
pub open spec fn is_metered_interface(name: Seq<char>) -> bool {
    ||| "wwan"@.is_prefix_of(name)
    ||| "rmnet"@.is_prefix_of(name)
    ||| "ppp"@.is_prefix_of(name)
}

/// What using an interface costs, by its name.
pub open spec fn interface_cost(name: Option<Seq<char>>) -> TransportCost {
    match name {
        None => TransportCost::Unknown,
        Some(n) => if is_free_interface(n) {
            TransportCost::Free
        } else if is_metered_interface(n) {
            TransportCost::Metered
        } else {
            TransportCost::Unknown
        },
    }
}

/// Whether a line of the routing table is a default route.
pub open spec fn is_default_route(line: Seq<char>) -> bool {
    fields_of(line).len() >= 2 && fields_of(line)[1] == "00000000"@
}

/// The interface of the first default route among the lines.
pub open spec fn default_interface(lines: Seq<Seq<char>>) -> Option<Seq<char>>
    decreases lines.len(),
{
    if lines.len() == 0 {
        None
    } else if is_default_route(lines[0]) {
        Some(fields_of(lines[0])[0])
    } else {
        default_interface(lines.skip(1))
    }
}

/// The interface of the first default route in a routing table, whose first line is a heading.
pub open spec fn table_interface(content: Seq<char>) -> Option<Seq<char>> {
    if lines_of(content).len() == 0 {
        None
    } else {
        default_interface(lines_of(content).skip(1))
    }
}

/// The interface of the default route, from the text of the routing table.
fn find_default_interface(content: &str) -> (name: Option<Vec<char>>)
    ensures
        name is Some <==> table_interface(content@) is Some,
        name matches Some(n) ==> table_interface(content@) == Some(n@),
{
    let lines = split_lines(&chars_of(content));
    let zeros = chars_of("00000000");
    let ghost all = lines_of(content@);
    if lines.len() == 0 {
        assert(char_views(lines@).len() == 0);
        return None;
    }
    let mut i: usize = 1;
    while i < lines.len()
        invariant
            1 <= i <= lines@.len(),
            all == lines_of(content@),
            char_views(lines@) == all,
            zeros@ == "00000000"@,
            table_interface(content@) == default_interface(all.skip(i as int)),
        decreases lines@.len() - i,
    {
        let ghost line = lines@[i as int]@;
        proof {
            assert(all[i as int] == line);
            assert(all.skip(i as int)[0] == line);
            assert(all.skip(i as int).skip(1) =~= all.skip(i + 1));
        }
        let mut fields = split_fields(&lines[i]);
        assert(char_views(fields@).len() == fields@.len());
        if fields.len() >= 2 {
            assert(char_views(fields@)[1] == fields@[1]@);
            if same_chars(&fields[1], &zeros) {
                assert(char_views(fields@)[0] == fields@[0]@);
                return Some(fields.remove(0));
            }
        }
        i = i + 1;
    }
    assert(all.skip(i as int) =~= Seq::<Seq<char>>::empty());
    None
}

/// What the network costs, from the text of the routing table, if it could be read.
pub fn detect_network_cost(routes: Option<&str>) -> (cost: TransportCost)
    ensures
        cost == match routes {
            Some(content) => interface_cost(table_interface(content@)),
            None => TransportCost::Unknown,
        },
{
    let name = match routes {
        Some(content) => find_default_interface(content),
        None => None,
    };
    match name {
        None => TransportCost::Unknown,
        Some(n) => {
            if starts_with(&n, "wlan") || starts_with(&n, "wlp") || starts_with(&n, "wlx")
                || starts_with(&n, "eth") || starts_with(&n, "enp") || starts_with(&n, "eno")
                || starts_with(&n, "ens") || starts_with(&n, "enx") {
                TransportCost::Free
            } else if starts_with(&n, "wwan") || starts_with(&n, "rmnet") || starts_with(&n, "ppp") {
                TransportCost::Metered
            } else {
                TransportCost::Unknown
            }
        },
    }
}

/// What kind of network an interface belongs to, where the system tells.
#[derive(Clone, Copy, PartialEq, Eq, Structural, Debug)]
pub enum InterfaceKind {
    Wifi,
    Ethernet,
    Mobile,
    Other,
}

/// What the network costs, from the kinds of the interfaces that are in use: one that is free is
/// enough.
pub fn interfaces_cost(active: &Vec<InterfaceKind>) -> (cost: TransportCost)
    ensures
        cost == if active@.contains(InterfaceKind::Wifi) || active@.contains(
            InterfaceKind::Ethernet,
        ) {
            TransportCost::Free
        } else if active@.contains(InterfaceKind::Mobile) {
            TransportCost::Metered
        } else {
            TransportCost::Unknown
        },
{
    let mut free: bool = false;
    let mut metered: bool = false;
    let mut i: usize = 0;
    while i < active.len()
        invariant
            i <= active@.len(),
            free ==> active@.contains(InterfaceKind::Wifi) || active@.contains(
                InterfaceKind::Ethernet,
            ),
            metered ==> active@.contains(InterfaceKind::Mobile),
            !free ==> forall|k: int|
                0 <= k < i ==> active@[k] != InterfaceKind::Wifi && active@[k]
                    != InterfaceKind::Ethernet,
            !metered ==> forall|k: int| 0 <= k < i ==> active@[k] != InterfaceKind::Mobile,
        decreases active@.len() - i,
    {
        let kind = active[i];
        assert(active@.contains(kind));
        match kind {
            InterfaceKind::Wifi | InterfaceKind::Ethernet => {
                free = true;
            },
            InterfaceKind::Mobile => {
                metered = true;
            },
            InterfaceKind::Other => {},
        }
        i = i + 1;
    }
    if free {
        TransportCost::Free
    } else if metered {
        TransportCost::Metered
    } else {
        TransportCost::Unknown
    }
}

/// What a system says of the plan behind its connection.
#[derive(Clone, Copy, PartialEq, Eq, Structural, Debug)]
pub enum ConnectionPlan {
    Unrestricted,
    Fixed,
    Variable,
    /// A plan of another kind.
    Other,
    Unknown,
}

/// What the network costs, from the plan behind the connection, if the system tells.
pub fn plan_cost(plan: Option<ConnectionPlan>) -> (cost: TransportCost)
    ensures
        cost == match plan {
            Some(ConnectionPlan::Unrestricted) => TransportCost::Free,
            Some(ConnectionPlan::Fixed) => TransportCost::Metered,
            Some(ConnectionPlan::Variable) => TransportCost::Metered,
            Some(ConnectionPlan::Other) => TransportCost::Metered,
            _ => TransportCost::Unknown,
        },
{
    match plan {
        Some(ConnectionPlan::Unrestricted) => TransportCost::Free,
        Some(ConnectionPlan::Fixed) => TransportCost::Metered,
        Some(ConnectionPlan::Variable) => TransportCost::Metered,
        Some(ConnectionPlan::Other) => TransportCost::Metered,
        _ => TransportCost::Unknown,
    }
}

/// The cost that a number stands for.
pub open spec fn cost_of(code: u8) -> TransportCost {
    if code == 0 {
        TransportCost::Free
    } else if code == 1 {
        TransportCost::Metered
    } else {
        TransportCost::Unknown
    }
}

/// The number that stands for a cost.
pub fn cost_code(cost: TransportCost) -> (code: u8)
    ensures
        cost_of(code) == cost,
        code <= 2,
{
    match cost {
        TransportCost::Free => 0,
        TransportCost::Metered => 1,
        TransportCost::Unknown => 2,
    }
}

/// The cost that a number stands for.
pub fn cost_from_code(code: u8) -> (cost: TransportCost)
    ensures
        cost == cost_of(code),
{
    match code {
        0 => TransportCost::Free,
        1 => TransportCost::Metered,
        _ => TransportCost::Unknown,
    }
}

/// The instance name made of eight random bytes.
pub fn instance_name_from(bytes: [u8; 8]) -> (name: String)
    ensures
        name@ == hex_of(bytes@),
{
    to_hex(&bytes)
}

/// A service instance and the addresses that it was resolved to.
struct Resolved {
    fullname: String,
    addrs: Vec<SocketAddr>,
}

spec fn resolved_at(s: Seq<Resolved>, name: Seq<char>) -> Option<Seq<SocketAddr>>
    decreases s.len(),
{
    if s.len() == 0 {
        None
    } else if s.last().fullname@ == name {
        Some(s.last().addrs@)
    } else {
        resolved_at(s.drop_last(), name)
    }
}

spec fn resolved_map(s: Seq<Resolved>) -> Map<Seq<char>, Seq<SocketAddr>> {
    Map::new(
        |n: Seq<char>| resolved_at(s, n) is Some,
        |n: Seq<char>| resolved_at(s, n)->0,
    )
}

proof fn lemma_resolved_push(s: Seq<Resolved>, r: Resolved, name: Seq<char>)
    ensures
        resolved_at(s.push(r), name) == if r.fullname@ == name {
            Some(r.addrs@)
        } else {
            resolved_at(s, name)
        },
{
    assert(s.push(r).drop_last() =~= s);
}

proof fn lemma_resolved_absent(s: Seq<Resolved>, name: Seq<char>)
    requires
        forall|i: int| 0 <= i < s.len() ==> (#[trigger] s[i]).fullname@ != name,
    ensures
        resolved_at(s, name) is None,
    decreases s.len(),
{
    if s.len() > 0 {
        assert(s[s.len() - 1].fullname@ != name);
        assert forall|i: int| 0 <= i < s.drop_last().len() implies (
        #[trigger] s.drop_last()[i]).fullname@ != name by {
            assert(s.drop_last()[i] == s[i]);
        }
        lemma_resolved_absent(s.drop_last(), name);
    }
}

/// The announcements of addresses that a service was resolved to.
pub open spec fn quic_announcements(addrs: Seq<SocketAddr>) -> Seq<AnnouncementModel> {
    addrs.map_values(
        |a: SocketAddr| AnnouncementModel { address: AddressModel::Quic(a), short_id: None },
    )
}

/// Addresses as peers' addresses.
pub open spec fn quic_addresses(addrs: Seq<SocketAddr>) -> Seq<AddressModel> {
    addrs.map_values(|a: SocketAddr| AddressModel::Quic(a))
}

/// The addresses at which a service with this port is reached.
pub open spec fn service_addresses(ips: Seq<[u8; 4]>, port: u16) -> Seq<SocketAddr> {
    ips.map_values(|ip: [u8; 4]| SocketAddr::V4 { ip, port })
}

/// Turns what multicast DNS reports into peers that appear and peers that depart. A departure is
/// reported by name alone, so the addresses of each name are remembered.
pub struct MdnsBridge {
    resolved: Vec<Resolved>,
}

impl View for MdnsBridge {
    type V = Map<Seq<char>, Seq<SocketAddr>>;

    closed spec fn view(&self) -> Map<Seq<char>, Seq<SocketAddr>> {
        resolved_map(self.resolved@)
    }
}

impl MdnsBridge {
    /// Nothing was resolved yet.
    pub fn new() -> (b: Self)
        ensures
            b@ == Map::<Seq<char>, Seq<SocketAddr>>::empty(),
    {
        let b = MdnsBridge { resolved: Vec::new() };
        assert(b@ =~= Map::<Seq<char>, Seq<SocketAddr>>::empty());
        b
    }

    /// Forgets a name. Returns its addresses, if it was known.
    fn take(&mut self, fullname: &String) -> (r: Option<Vec<SocketAddr>>)
        ensures
            r is Some <==> old(self)@.dom().contains(fullname@),
            r matches Some(addrs) ==> addrs@ == old(self)@[fullname@],
            final(self)@ == old(self)@.remove(fullname@),
    {
        let mut all: Vec<Resolved> = Vec::new();
        std::mem::swap(&mut all, &mut self.resolved);
        let ghost s = all@;
        let ghost name = fullname@;
        let mut kept: Vec<Resolved> = Vec::new();
        let mut found: Option<Vec<SocketAddr>> = None;
        // Later entries count, and they come first here.
        while all.len() > 0
            invariant
                name == fullname@,
                all@.len() <= s.len(),
                all@ == s.take(all@.len() as int),
                found is None ==> resolved_at(s, name) == resolved_at(all@, name),
                found matches Some(addrs) ==> resolved_at(s, name) == Some(addrs@),
                forall|k: int| 0 <= k < kept@.len() ==> (#[trigger] kept@[k]).fullname@ != name,
                forall|n: Seq<char>|
                    n != name ==> #[trigger] resolved_at(s, n) == resolved_at(
                        all@ + kept@.reverse(),
                        n,
                    ),
            decreases all@.len(),
        {
            let ghost before = all@;
            let ghost kept_before = kept@;
            match all.pop() {
                Some(r) => {
                    assert(all@ =~= before.drop_last());
                    assert(all@ =~= s.take(all@.len() as int));
                    let ghost last = r;
                    if r.fullname == *fullname {
                        proof {
                            assert forall|n: Seq<char>| n != name implies #[trigger] resolved_at(
                                s,
                                n,
                            ) == resolved_at(all@ + kept_before.reverse(), n) by {
                                lemma_resolved_middle(all@, last, kept_before.reverse(), n);
                                assert(before + kept_before.reverse() =~= all@.push(last)
                                    + kept_before.reverse());
                            }
                        }
                        if found.is_none() {
                            found = Some(r.addrs);
                        }
                    } else {
                        kept.push(r);
                        proof {
                            assert(all@ + kept@.reverse() =~= before + kept_before.reverse());
                        }
                    }
                },
                None => {},
            }
        }
        let ghost middle = kept@.reverse();
        let mut back: Vec<Resolved> = Vec::new();
        let ghost total = kept@.len();
        while kept.len() > 0
            invariant
                kept@.len() + back@.len() == total,
                total == middle.len(),
                middle == back@ + kept@.reverse(),
            decreases kept@.len(),
        {
            let ghost kb = kept@;
            let ghost bb = back@;
            match kept.pop() {
                Some(r) => {
                    back.push(r);
                    assert(back@ + kept@.reverse() =~= bb + kb.reverse());
                },
                None => {},
            }
        }
        proof {
            assert(back@ =~= middle);
            assert forall|k: int| 0 <= k < back@.len() implies (#[trigger] back@[k]).fullname@
                != name by {}
            lemma_resolved_absent(back@, name);
            assert(s.take(0) + middle =~= middle);
        }
        self.resolved = back;
        proof {
            assert(self@ =~= old(self)@.remove(name));
        }
        found
    }

    /// A service was resolved. Returns the peers that it announces.
    pub fn resolved(&mut self, fullname: String, ips: &Vec<[u8; 4]>, port: u16) -> (anns: Vec<
        PeerAnnouncement,
    >)
        ensures
            announcement_models(anns@) == quic_announcements(service_addresses(ips@, port)),
            final(self)@ == old(self)@.insert(fullname@, service_addresses(ips@, port)),
    {
        let ghost m = self@;
        let ghost name = fullname@;
        self.take(&fullname);
        let mut anns: Vec<PeerAnnouncement> = Vec::new();
        let mut addrs: Vec<SocketAddr> = Vec::new();
        let mut i: usize = 0;
        while i < ips.len()
            invariant
                i <= ips@.len(),
                addrs@.len() == i,
                anns@.len() == i,
                forall|k: int|
                    0 <= k < i ==> #[trigger] addrs@[k] == (SocketAddr::V4 { ip: ips@[k], port }),
                forall|k: int|
                    0 <= k < i ==> (#[trigger] anns@[k])@ == (AnnouncementModel {
                        address: AddressModel::Quic(SocketAddr::V4 { ip: ips@[k], port }),
                        short_id: None,
                    }),
            decreases ips@.len() - i,
        {
            let addr = SocketAddr::V4 { ip: ips[i], port };
            addrs.push(addr);
            anns.push(PeerAnnouncement { address: PeerAddress::Quic(addr), short_id: None });
            i = i + 1;
        }
        assert(addrs@ =~= service_addresses(ips@, port));
        assert(announcement_models(anns@) =~= quic_announcements(service_addresses(ips@, port)));
        let ghost before = self.resolved@;
        assert(resolved_map(before) == m.remove(name));
        let r = Resolved { fullname, addrs };
        let ghost rr = r;
        self.resolved.push(r);
        proof {
            assert forall|n: Seq<char>| #[trigger] resolved_at(self.resolved@, n) == if n == name {
                Some(service_addresses(ips@, port))
            } else {
                resolved_at(before, n)
            } by {
                lemma_resolved_push(before, rr, n);
            }
            assert forall|n: Seq<char>| self@.dom().contains(n) <==> m.insert(
                name,
                service_addresses(ips@, port),
            ).dom().contains(n) by {
                assert(resolved_map(before).dom().contains(n) <==> m.remove(name).dom().contains(n));
            }
            assert forall|n: Seq<char>| #[trigger] self@.dom().contains(n) implies self@[n]
                == m.insert(name, service_addresses(ips@, port))[n] by {
                if n != name {
                    assert(resolved_map(before)[n] == m.remove(name)[n]);
                }
            }
            assert(self@ =~= m.insert(name, service_addresses(ips@, port)));
        }
        anns
    }

    /// A service has gone. Returns the addresses at which peers have departed.
    pub fn removed(&mut self, fullname: &String) -> (addrs: Vec<PeerAddress>)
        ensures
            address_models(addrs@) == (if old(self)@.dom().contains(fullname@) {
                quic_addresses(old(self)@[fullname@])
            } else {
                Seq::empty()
            }),
            final(self)@ == old(self)@.remove(fullname@),
    {
        let mut out: Vec<PeerAddress> = Vec::new();
        match self.take(fullname) {
            Some(addrs) => {
                let mut i: usize = 0;
                while i < addrs.len()
                    invariant
                        i <= addrs@.len(),
                        out@.len() == i,
                        forall|k: int|
                            0 <= k < i ==> (#[trigger] out@[k])@ == AddressModel::Quic(addrs@[k]),
                    decreases addrs@.len() - i,
                {
                    out.push(PeerAddress::Quic(addrs[i]));
                    i = i + 1;
                }
                assert(address_models(out@) =~= quic_addresses(addrs@));
            },
            None => {
                assert(address_models(out@) =~= Seq::<AddressModel>::empty());
            },
        }
        out
    }
}

/// An entry in the middle does not matter to other names.
proof fn lemma_resolved_middle(a: Seq<Resolved>, r: Resolved, b: Seq<Resolved>, name: Seq<char>)
    requires
        r.fullname@ != name,
    ensures
        resolved_at(a.push(r) + b, name) == resolved_at(a + b, name),
    decreases b.len(),
{
    if b.len() == 0 {
        assert(a.push(r) + b =~= a.push(r));
        assert(a + b =~= a);
        lemma_resolved_push(a, r, name);
    } else {
        assert((a.push(r) + b).drop_last() =~= a.push(r) + b.drop_last());
        assert((a + b).drop_last() =~= a + b.drop_last());
        lemma_resolved_middle(a, r, b.drop_last(), name);
    }
}

/// When a service goes, exactly the addresses that it had announced last depart.
pub proof fn law_departure_matches_announcement(
    m: Map<Seq<char>, Seq<SocketAddr>>,
    name: Seq<char>,
    addrs: Seq<SocketAddr>,
)
    ensures
        m.insert(name, addrs).dom().contains(name),
        quic_addresses(m.insert(name, addrs)[name]) == quic_announcements(addrs).map_values(
            |a: AnnouncementModel| a.address,
        ),
        m.insert(name, addrs).remove(name) == m.remove(name),
{
    assert(quic_addresses(addrs) =~= quic_announcements(addrs).map_values(
        |a: AnnouncementModel| a.address,
    ));
    assert(m.insert(name, addrs).remove(name) =~= m.remove(name));
}

/// The QUIC transport.
pub struct QuicTransport {
    listen_addr: SocketAddr,
    instance_name: String,
    cost: u8,
    started_addr: Option<SocketAddr>,
}

impl QuicTransport {
    /// Where the transport listens once it is started.
    pub closed spec fn listen(&self) -> SocketAddr {
        self.listen_addr
    }

    /// The name under which the transport announces itself.
    pub closed spec fn instance(&self) -> Seq<char> {
        self.instance_name@
    }

    /// What using the transport costs, as far as is known.
    pub closed spec fn current_cost(&self) -> TransportCost {
        cost_of(self.cost)
    }

    /// Where the transport listens, if it was started.
    pub closed spec fn started_at(&self) -> Option<SocketAddr> {
        self.started_addr
    }

    /// A transport that was not started, with a random instance name.
    pub fn new(listen_addr: SocketAddr) -> (t: Self)
        ensures
            t.listen() == listen_addr,
            t.started_at() is None,
            t.current_cost() == TransportCost::Unknown,
            exists|bytes: Seq<u8>| bytes.len() == 8 && t.instance() == #[trigger] hex_of(bytes),
    {
        let bytes = entropy();
        let instance_name = instance_name_from(bytes);
        assert(bytes@.len() == 8);
        QuicTransport {
            listen_addr,
            instance_name,
            cost: cost_code(TransportCost::Unknown),
            started_addr: None,
        }
    }

    /// Where to listen.
    pub fn listen_addr(&self) -> (a: SocketAddr)
        ensures
            a == self.listen(),
    {
        self.listen_addr
    }

    /// The name under which the transport announces itself.
    pub fn instance_name(&self) -> (name: String)
        ensures
            name@ == self.instance(),
    {
        self.instance_name.clone()
    }

    /// The host name under which the transport announces itself.
    pub fn host_name(&self) -> (name: String)
        ensures
            name@ == self.instance() + ".local."@,
    {
        self.instance_name.clone().concat(".local.")
    }

    /// The transport was started: it listens at `addr`, and using it costs `cost`.
    pub fn start(&mut self, addr: SocketAddr, cost: TransportCost)
        ensures
            final(self).listen() == old(self).listen(),
            final(self).instance() == old(self).instance(),
            final(self).started_at() == Some(addr),
            final(self).current_cost() == cost,
    {
        self.started_addr = Some(addr);
        self.cost = cost_code(cost);
    }

    /// The transport was stopped.
    pub fn stop(&mut self)
        ensures
            final(self).listen() == old(self).listen(),
            final(self).instance() == old(self).instance(),
            final(self).started_at() is None,
            final(self).current_cost() == old(self).current_cost(),
    {
        self.started_addr = None;
    }

    /// Where the transport listens, if it was started.
    pub fn local_addr(&self) -> (a: Option<SocketAddr>)
        ensures
            a == self.started_at(),
    {
        self.started_addr
    }

    /// Where to dial a peer.
    pub fn connect(&self, peer: &PeerAnnouncement) -> (r: Result<SocketAddr, PathweaveError>)
        ensures
            match peer@.address {
                AddressModel::Quic(a) => r == Ok::<SocketAddr, PathweaveError>(a),
                _ => r matches Err(PathweaveError::Transport(e)) && e@ == "expected QUIC address"@,
            },
    {
        match &peer.address {
            PeerAddress::Quic(a) => Ok(*a),
            _ => Err(transport_error("expected QUIC address")),
        }
    }

    /// Whether peers can be waited for.
    pub fn accept(&self) -> (r: Result<SocketAddr, PathweaveError>)
        ensures
            match self.started_at() {
                Some(a) => r == Ok::<SocketAddr, PathweaveError>(a),
                None => r matches Err(PathweaveError::Transport(e)) && e@
                    == "transport not started"@,
            },
    {
        match self.started_addr {
            Some(a) => Ok(a),
            None => Err(transport_error("transport not started")),
        }
    }

    /// The longest frame that is sent in one packet.
    pub fn mtu_hint(&self) -> (n: usize)
        ensures
            n == QUIC_MTU,
    {
        QUIC_MTU
    }

    /// What using the transport costs, as far as is known.
    pub fn cost(&self) -> (c: TransportCost)
        ensures
            c == self.current_cost(),
    {
        cost_from_code(self.cost)
    }

    /// The kind of the transport.
    pub fn kind(&self) -> (k: TransportKind)
        ensures
            k == TransportKind::Quic,
    {
        TransportKind::Quic
    }

    /// The addresses under which the node can be reached.
    pub fn local_addresses(&self) -> (addrs: Vec<PeerAddress>)
        ensures
            match self.started_at() {
                Some(a) => addrs@.len() == 1 && addrs@[0]@ == AddressModel::Quic(a),
                None => addrs@.len() == 0,
            },
    {
        let mut addrs: Vec<PeerAddress> = Vec::new();
        match self.started_addr {
            Some(a) => {
                addrs.push(PeerAddress::Quic(a));
            },
            None => {},
        }
        addrs
    }
}

/// Whether a line of the routing table says a default route of `name`: the name, whitespace, eight
/// zeros, and then nothing or whitespace and anything else.
pub open spec fn says_default_route(
    line: Seq<char>,
    name: Seq<char>,
    gap: Seq<char>,
    rest: Seq<char>,
) -> bool {
    &&& line == name + gap + seq!['0', '0', '0', '0', '0', '0', '0', '0'] + rest
    &&& name.len() > 0
    &&& forall|i: int| 0 <= i < name.len() ==> !whitespace(#[trigger] name[i])
    &&& gap.len() > 0
    &&& forall|i: int| 0 <= i < gap.len() ==> whitespace(#[trigger] gap[i])
    &&& rest.len() == 0 || whitespace(rest[0])
}

proof fn lemma_default_route_fields(
    line: Seq<char>,
    name: Seq<char>,
    gap: Seq<char>,
    rest: Seq<char>,
)
    requires
        says_default_route(line, name, gap, rest),
    ensures
        is_default_route(line),
        fields_of(line)[0] == name,
{
    reveal_strlit("00000000");
    let zeros = seq!['0', '0', '0', '0', '0', '0', '0', '0'];
    assert("00000000"@ =~= zeros);
    let tail = gap + zeros + rest;
    let none = Seq::<char>::empty();
    assert(line =~= none + name + tail);
    assert(tail[0] == gap[0]);
    law_fields_end_at_whitespace(none, name, tail);
    law_fields_end_at_whitespace(gap, zeros, rest);
    assert(fields_of(line) == seq![name] + (seq![zeros] + fields_of(rest)));
}

/// The interface of a routing table is that of the first line, after the heading, that says a
/// default route, whatever else the line says and whatever lines follow.
pub proof fn law_default_route_found(
    heading: Seq<char>,
    line: Seq<char>,
    name: Seq<char>,
    gap: Seq<char>,
    rest: Seq<char>,
    more: Seq<char>,
)
    requires
        !heading.contains('\n'),
        !line.contains('\n'),
        says_default_route(line, name, gap, rest),
    ensures
        table_interface(heading + seq!['\n'] + line) == Some(name),
        table_interface(heading + seq!['\n'] + (line + seq!['\n'] + more)) == Some(name),
{
    lemma_default_route_fields(line, name, gap, rest);
    law_lines_end_at_line_ends(heading, line);
    law_lines_end_at_line_ends(line, more);
    law_lines_end_at_line_ends(heading, line + seq!['\n'] + more);
    let one = seq![heading] + seq![line];
    assert(one.skip(1) =~= seq![line]);
    let two = seq![heading] + (seq![line] + lines_of(more));
    assert(two.skip(1) =~= seq![line] + lines_of(more));
    assert(lines_of(heading + seq!['\n'] + line) == one);
    assert(lines_of(heading + seq!['\n'] + (line + seq!['\n'] + more)) == two);
}

/// A line of the routing table as Linux writes it: the name, a tab, eight zeros, a tab, and any
/// further text. It is a default route of that interface.
pub proof fn law_linux_default_route_found(heading: Seq<char>, name: Seq<char>, rest: Seq<char>)
    requires
        !heading.contains('\n'),
        !rest.contains('\n'),
        name.len() > 0,
        forall|i: int| 0 <= i < name.len() ==> !whitespace(#[trigger] name[i]),
    ensures
        table_interface(heading + "\n"@ + name + "\t00000000\t"@ + rest) == Some(name),
{
    reveal_strlit("\n");
    reveal_strlit("\t00000000\t");
    let gap = seq!['\t'];
    let zeros = seq!['0', '0', '0', '0', '0', '0', '0', '0'];
    let line = name + gap + zeros + (seq!['\t'] + rest);
    assert("\n"@ =~= seq!['\n']);
    assert("\t00000000\t"@ =~= gap + zeros + seq!['\t']);
    assert(whitespace('\t'));
    assert(heading + "\n"@ + name + "\t00000000\t"@ + rest =~= heading + seq!['\n'] + line);
    assert(!line.contains('\n')) by {
        if line.contains('\n') {
            let i = choose|i: int| 0 <= i < line.len() && line[i] == '\n';
            let n = name.len() as int;
            if i < n {
                assert(!whitespace(name[i]));
                assert(whitespace('\n'));
            } else if i >= n + 10 {
                assert(rest[i - n - 10] == '\n');
            } else {
                assert(line[i] == '\t' || line[i] == '0');
            }
        }
    }
    law_default_route_found(heading, line, name, gap, seq!['\t'] + rest, Seq::empty());
}

/// A line that has no second field, or one that is not eight zeros, is passed over; the heading
/// alone names no interface, and neither does no text.
pub proof fn law_other_routes_passed_over(heading: Seq<char>, line: Seq<char>, more: Seq<char>)
    requires
        !heading.contains('\n'),
        !line.contains('\n'),
        fields_of(line).len() < 2 || fields_of(line)[1] != seq!['0', '0', '0', '0', '0', '0', '0', '0'],
    ensures
        table_interface(heading + seq!['\n'] + (line + seq!['\n'] + more)) == table_interface(
            heading + seq!['\n'] + more,
        ),
        line.len() > 0 ==> table_interface(heading + seq!['\n'] + line) is None,
        table_interface(heading) is None,
        table_interface(heading + seq!['\n']) is None,
{
    reveal_strlit("00000000");
    assert("00000000"@ =~= seq!['0', '0', '0', '0', '0', '0', '0', '0']);
    let none = Seq::<char>::empty();
    law_lines_end_at_line_ends(heading, line + seq!['\n'] + more);
    law_lines_end_at_line_ends(line, more);
    law_lines_end_at_line_ends(heading, more);
    law_lines_end_at_line_ends(heading, line);
    law_lines_end_at_line_ends(heading, none);
    assert(heading + seq!['\n'] + none =~= heading + seq!['\n']);
    let all = seq![heading] + (seq![line] + lines_of(more));
    assert(all.skip(1) =~= seq![line] + lines_of(more));
    assert(all.skip(1).skip(1) =~= lines_of(more));
    assert((seq![heading] + lines_of(more)).skip(1) =~= lines_of(more));
    assert((seq![heading] + seq![line]).skip(1) =~= seq![line]);
    assert(seq![line].skip(1) =~= Seq::<Seq<char>>::empty());
    assert((seq![heading] + lines_of(none)).skip(1) =~= Seq::<Seq<char>>::empty());
    assert(seq![heading].skip(1) =~= Seq::<Seq<char>>::empty());
    if heading.len() == 0 {
        assert(heading =~= none);
    }
}

/// What an interface costs, by how its name starts: nothing for the names of Wi-Fi and Ethernet
/// interfaces, metered for those of mobile data, whatever follows.
pub proof fn law_interface_cost_by_prefix(tail: Seq<char>)
    ensures
        interface_cost(Some("wlan"@ + tail)) is Free,
        interface_cost(Some("wlp"@ + tail)) is Free,
        interface_cost(Some("wlx"@ + tail)) is Free,
        interface_cost(Some("eth"@ + tail)) is Free,
        interface_cost(Some("enp"@ + tail)) is Free,
        interface_cost(Some("eno"@ + tail)) is Free,
        interface_cost(Some("ens"@ + tail)) is Free,
        interface_cost(Some("enx"@ + tail)) is Free,
        interface_cost(Some("wwan"@ + tail)) is Metered,
        interface_cost(Some("rmnet"@ + tail)) is Metered,
        interface_cost(Some("ppp"@ + tail)) is Metered,
        interface_cost(None) is Unknown,
{
    reveal_strlit("wlan");
    reveal_strlit("wlp");
    reveal_strlit("wlx");
    reveal_strlit("eth");
    reveal_strlit("enp");
    reveal_strlit("eno");
    reveal_strlit("ens");
    reveal_strlit("enx");
    reveal_strlit("wwan");
    reveal_strlit("rmnet");
    reveal_strlit("ppp");
    lemma_prefix("wlan"@, tail);
    lemma_prefix("wlp"@, tail);
    lemma_prefix("wlx"@, tail);
    lemma_prefix("eth"@, tail);
    lemma_prefix("enp"@, tail);
    lemma_prefix("eno"@, tail);
    lemma_prefix("ens"@, tail);
    lemma_prefix("enx"@, tail);
    lemma_prefix("wwan"@, tail);
    lemma_prefix("rmnet"@, tail);
    lemma_prefix("ppp"@, tail);
    lemma_metered_is_not_free("wwan"@ + tail);
    lemma_metered_is_not_free("rmnet"@ + tail);
    lemma_metered_is_not_free("ppp"@ + tail);
}

proof fn lemma_prefix(p: Seq<char>, tail: Seq<char>)
    ensures
        p.is_prefix_of(p + tail),
{
    assert((p + tail).subrange(0, p.len() as int) =~= p);
}

/// No name starts like a mobile data interface and like one without a data cap.
proof fn lemma_metered_is_not_free(n: Seq<char>)
    requires
        is_metered_interface(n),
    ensures
        !is_free_interface(n),
{
    reveal_strlit("wlan");
    reveal_strlit("wlp");
    reveal_strlit("wlx");
    reveal_strlit("eth");
    reveal_strlit("enp");
    reveal_strlit("eno");
    reveal_strlit("ens");
    reveal_strlit("enx");
    reveal_strlit("wwan");
    reveal_strlit("rmnet");
    reveal_strlit("ppp");
    lemma_prefix_start("wlan"@, n);
    lemma_prefix_start("wlp"@, n);
    lemma_prefix_start("wlx"@, n);
    lemma_prefix_start("eth"@, n);
    lemma_prefix_start("enp"@, n);
    lemma_prefix_start("eno"@, n);
    lemma_prefix_start("ens"@, n);
    lemma_prefix_start("enx"@, n);
    lemma_prefix_start("wwan"@, n);
    lemma_prefix_start("rmnet"@, n);
    lemma_prefix_start("ppp"@, n);
}

proof fn lemma_prefix_start(p: Seq<char>, n: Seq<char>)
    requires
        p.len() >= 2,
    ensures
        p.is_prefix_of(n) ==> n[0] == p[0] && n[1] == p[1],
{
    if p.is_prefix_of(n) {
        assert(n.subrange(0, p.len() as int)[0] == n[0]);
        assert(n.subrange(0, p.len() as int)[1] == n[1]);
    }
}

/// An interface whose name starts in none of these ways has an unknown cost.
pub proof fn law_other_interface_cost_unknown(n: Seq<char>)
    requires
        !"wlan"@.is_prefix_of(n) && !"wlp"@.is_prefix_of(n) && !"wlx"@.is_prefix_of(n),
        !"eth"@.is_prefix_of(n) && !"enp"@.is_prefix_of(n) && !"eno"@.is_prefix_of(n),
        !"ens"@.is_prefix_of(n) && !"enx"@.is_prefix_of(n),
        !"wwan"@.is_prefix_of(n) && !"rmnet"@.is_prefix_of(n) && !"ppp"@.is_prefix_of(n),
    ensures
        interface_cost(Some(n)) is Unknown,
{
}

/// What the network costs on a machine whose routing table has a default route, by the name of the
/// interface: whatever the heading and the rest of the line say.
pub proof fn law_network_cost_by_default_route(
    heading: Seq<char>,
    tail: Seq<char>,
    rest: Seq<char>,
)
    requires
        !heading.contains('\n'),
        !rest.contains('\n'),
        forall|i: int| 0 <= i < tail.len() ==> !whitespace(#[trigger] tail[i]),
    ensures
        interface_cost(
            table_interface(heading + "\n"@ + ("wlan"@ + tail) + "\t00000000\t"@ + rest),
        ) is Free,
        interface_cost(
            table_interface(heading + "\n"@ + ("eth"@ + tail) + "\t00000000\t"@ + rest),
        ) is Free,
        interface_cost(
            table_interface(heading + "\n"@ + ("enp"@ + tail) + "\t00000000\t"@ + rest),
        ) is Free,
        interface_cost(
            table_interface(heading + "\n"@ + ("wwan"@ + tail) + "\t00000000\t"@ + rest),
        ) is Metered,
        interface_cost(
            table_interface(heading + "\n"@ + ("rmnet"@ + tail) + "\t00000000\t"@ + rest),
        ) is Metered,
{
    reveal_strlit("wlan");
    reveal_strlit("eth");
    reveal_strlit("enp");
    reveal_strlit("wwan");
    reveal_strlit("rmnet");
    law_interface_cost_by_prefix(tail);
    lemma_named("wlan"@, tail);
    lemma_named("eth"@, tail);
    lemma_named("enp"@, tail);
    lemma_named("wwan"@, tail);
    lemma_named("rmnet"@, tail);
    law_linux_default_route_found(heading, "wlan"@ + tail, rest);
    law_linux_default_route_found(heading, "eth"@ + tail, rest);
    law_linux_default_route_found(heading, "enp"@ + tail, rest);
    law_linux_default_route_found(heading, "wwan"@ + tail, rest);
    law_linux_default_route_found(heading, "rmnet"@ + tail, rest);
}

proof fn lemma_named(p: Seq<char>, tail: Seq<char>)
    requires
        p.len() > 0,
        forall|i: int| 0 <= i < p.len() ==> 'a' <= #[trigger] p[i] <= 'z',
        forall|i: int| 0 <= i < tail.len() ==> !whitespace(#[trigger] tail[i]),
    ensures
        forall|i: int| 0 <= i < (p + tail).len() ==> !whitespace(#[trigger] (p + tail)[i]),
{
    assert forall|i: int| 0 <= i < (p + tail).len() implies !whitespace(
        #[trigger] (p + tail)[i],
    ) by {
        if i < p.len() {
            assert('a' <= p[i] <= 'z');
        } else {
            assert(!whitespace(tail[i - p.len()]));
        }
    }
}

/// The bytes of a frame on a byte stream: its length in four bytes, the most significant first, and
/// the frame. A stream that has not that much yet gives no frame.
pub proof fn law_frame_needs_all_its_bytes(bytes: Seq<u8>, n: int)
    requires
        bytes.len() <= u32::MAX,
        0 <= n < 4 + bytes.len(),
    ensures
        stream_frame(bytes) == be_u32(bytes.len() as u32) + bytes,
        first_frame(stream_frame(bytes).take(n)) is None,
{
    let s = stream_frame(bytes).take(n);
    if n >= 4 {
        law_be_u32_round_trip(bytes.len() as u32, bytes.take(n - 4));
        assert(s =~= be_u32(bytes.len() as u32) + bytes.take(n - 4));
    }
}

/// Whether a byte stream has a whole frame, and which: what follows the first four bytes, as many
/// bytes as they say.
pub proof fn law_first_frame_exact(stream: Seq<u8>)
    ensures
        stream.len() < 4 ==> first_frame(stream) is None,
        stream.len() >= 4 && stream.len() - 4 < from_be_u32(stream) ==> first_frame(stream) is None,
        stream.len() >= 4 && stream.len() - 4 >= from_be_u32(stream) ==> first_frame(stream) == Some(
            stream.subrange(4, 4 + from_be_u32(stream)),
        ),
{
}

/// A service that was resolved is announced at each of its addresses, in order, at its port, and
/// that is where peers depart when it goes.
pub proof fn law_service_addresses_exact(ips: Seq<[u8; 4]>, port: u16, i: int)
    requires
        0 <= i < ips.len(),
    ensures
        ({
            let addrs = service_addresses(ips, port);
            let at = SocketAddr::V4 { ip: ips[i], port };
            &&& addrs.len() == ips.len()
            &&& addrs[i] == at
            &&& quic_announcements(addrs).len() == ips.len()
            &&& quic_announcements(addrs)[i] == (AnnouncementModel {
                address: AddressModel::Quic(at),
                short_id: None,
            })
            &&& quic_addresses(addrs).len() == ips.len()
            &&& quic_addresses(addrs)[i] == AddressModel::Quic(at)
        }),
{
}

/// The numbers that stand for costs.
pub proof fn law_cost_numbers(code: u8)
    ensures
        cost_of(0) is Free,
        cost_of(1) is Metered,
        code > 1 ==> cost_of(code) is Unknown,
{
}

} // verus!
