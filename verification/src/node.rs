//! A node: what it knows, and what it decides when it sends, receives, meets peers and stores
//! payloads for those it cannot reach.

use vstd::prelude::*;

use crate::addresses::{decode_addr_exchange, encode_addr_exchange, is_addr_exchange};
#[allow(unused_imports)]
use crate::addresses::{exchange, is_control, read_exchange};
use crate::dedup::{DeduplicationCache, DEDUP_TTL};
#[allow(unused_imports)]
use crate::dedup::{measured_from, SeenKey};
use crate::dispatch::{dispatch_payload, Dispatch};
#[allow(unused_imports)]
use crate::dispatch::{
    dispatch_state, dispatched, dropped, keys_certified, law_forged_key_never_stored,
    law_direct_message_handled, law_key_announcement_handled, law_routed_message_handled,
    DispatchState, Outcome,
};
use crate::error::PathweaveError;
use crate::frame::{
    encode_direct, encode_envelope, encode_key_announcement, encode_relay, FLAG_ROUTED,
    FLAG_SEALED, MAX_TTL,
};
#[allow(unused_imports)]
use crate::frame::{
    certified, direct_body, envelope, key_body, key_of, law_bytes_read_exactly, lemma_key_of,
    read_message, relay_body,
};
#[allow(unused_imports)]
use crate::identity::blake3_digest;
use crate::identity::{NodeIdentity, PeerId};
use crate::peers::{new_peer_table, KnownAddresses, Neighbor, PeerTable};
#[allow(unused_imports)]
use crate::peers::{
    address_models, after_addresses, after_announcement, announcements_of, has_address,
    law_addresses_keep_unique, law_announcement_keeps_addresses_unique, law_listed_peers_exact,
    lists_peers_except, peers_valid, PeersModel,
};
use crate::registry::{new_key_registry_with_bound, KeyRegistryState};
#[allow(unused_imports)]
use crate::registry::{
    law_direct_keeps_validity, law_gossip_keeps_validity, law_remove_keeps_validity, RegistryModel,
};
use crate::router::{new_message_id, ConnectRun, Router};
#[allow(unused_imports)]
use crate::router::{candidate_list, TransportStatus, MESSAGE_ID_BIT};
use crate::session::{seal, Session};
#[allow(unused_imports)]
use crate::session::{sealed_for, seals_as, NOISE_MSG_MAX, SEAL_OVERHEAD};
use crate::store::{keep_failed, split_expired, PendingStore, Stored, STORE_TTL_DEFAULT};
#[allow(unused_imports)]
use crate::store::{
    after_put_back, failed_part, law_live_exactly_within_ttl, lists_destinations, live_part,
    queue_full, queue_of, stored_models, StoreModel, StoredModel,
};
use crate::transport::{
    NodeConfig, PeerAddress, PeerAnnouncement, TransportCost, TransportEvent, TransportKind,
};
#[allow(unused_imports)]
use crate::transport::{announcement_models, AddressModel, AnnouncementModel};
#[allow(unused_imports)]
use crate::wire::from_be_u64;

verus! {

/// The value of a node.
#[verifier::ext_equal]
pub struct NodeModel {
    pub local: PeerId,
    pub private: Seq<u8>,
    pub public: Seq<u8>,
    pub transports: Seq<TransportStatus>,
    pub peers: PeersModel,
    pub known: Set<AddressModel>,
    pub state: DispatchState,
    pub store_ttl: u128,
    pub max_queue_depth: Option<usize>,
    pub pending_direct: StoreModel,
    pub pending_routed: StoreModel,
    /// The clock reading from which the node counts time.
    pub origin: std::time::Instant,
}

impl NodeModel {
    /// Every known key was made sure of, and every peer has each of its addresses once.
    pub open spec fn valid(self) -> bool {
        &&& self.state.keys.valid()
        &&& keys_certified(self.state.keys)
        &&& peers_valid(self.peers)
    }

    /// Whether there is anyone to hand a message to.
    pub open spec fn has_neighbor(self) -> bool {
        exists|p: PeerId| #[trigger] self.peers.dom().contains(p) && p != self.local
    }

    /// After a peer has announced an address: it is known, and the peer can be dialled there.
    pub open spec fn after_peer(self, p: PeerId, a: AnnouncementModel) -> NodeModel {
        NodeModel {
            known: self.known.insert(a.address),
            peers: after_announcement(self.peers, p, a),
            ..self
        }
    }
}

/// A body to send under an identifier, and the peers to send it to.
pub struct Outgoing {
    pub msg_id: u64,
    pub body: Vec<u8>,
    pub to: Vec<Neighbor>,
}

impl Outgoing {
    /// The body goes to one peer, at the given addresses.
    pub open spec fn goes_to(self, p: PeerId, anns: Seq<AnnouncementModel>) -> bool {
        &&& self.to@.len() == 1
        &&& self.to@[0].0 == p
        &&& announcement_models(self.to@[0].1@) == anns
    }

    /// The body goes to every peer of `m` but the node itself.
    pub open spec fn floods(self, m: NodeModel) -> bool {
        lists_peers_except(self.to@, m.peers, m.local, m.local)
    }
}

/// A payload that is to be delivered now or later: what to try at once, if there is anyone to
/// try, and what to store if that fails.
pub struct StoreForward {
    pub attempt: Option<Outgoing>,
    pub entry: Stored,
}

/// Payloads that were taken out of a queue to be delivered.
pub struct Drain {
    pub peer_id: PeerId,
    /// How many of them have expired. For each of these, a failure is reported.
    pub expired: usize,
    /// The ones to deliver.
    pub entries: Vec<Stored>,
    /// To whom; nobody if there is no way at present.
    pub to: Vec<Neighbor>,
}

/// Whether `d` is what a drain takes out of the queue `q`.
pub open spec fn drains(d: Drain, p: PeerId, q: Seq<StoredModel>, now: u128, ttl: u128) -> bool {
    &&& d.peer_id == p
    &&& stored_models(d.entries@) == live_part(q, now, ttl)
    &&& d.expired + d.entries@.len() == q.len()
}

/// The destinations of a list of drains.
pub open spec fn drain_peers(s: Seq<Drain>) -> Seq<PeerId> {
    s.map_values(|d: Drain| d.peer_id)
}

/// Where a session that a peer has opened stands.
pub enum Incoming {
    /// Nothing has arrived yet.
    AwaitFirst,
    /// What arrives now are messages.
    AwaitMessage,
}

/// What to do with a message.
pub struct Handled {
    /// A payload for the application, and the peer that it comes from.
    pub deliver: Option<(PeerId, Vec<u8>)>,
    /// What to pass on, and to whom.
    pub relay: Option<Outgoing>,
    /// What to report: a key that was not known before. Its cause is gossip.
    pub event: Option<TransportEvent>,
    /// What to answer.
    pub ack: Vec<u8>,
}

impl Handled {
    /// Whether this is what comes of the bytes `payload` that `sender` has sent to the node `m`:
    /// what is delivered and passed on is as `out` says, what is passed on goes under its own
    /// identifier to all peers but the sender and the node itself, a key is reported exactly if
    /// it was learned, and the answer is empty.
    pub open spec fn handles(self, out: Outcome, m: NodeModel, sender: PeerId, payload: Seq<u8>) -> bool {
        &&& self.ack@ == Seq::<u8>::empty()
        &&& self.deliver is Some <==> out.deliver is Some
        &&& self.deliver matches Some(pair) ==> out.deliver == Some((pair.0, pair.1@))
        &&& self.relay is Some <==> out.relay is Some
        &&& self.relay matches Some(o) ==> {
            &&& out.relay == Some(o.body@)
            &&& read_message(payload) matches Some(pair) && o.msg_id == pair.0
            &&& lists_peers_except(o.to@, m.peers, sender, m.local)
        }
        &&& self.event == (match out.learned {
            Some((peer_id, public_key)) => Some(
                TransportEvent::KeyLearned { peer_id, public_key },
            ),
            None => None,
        })
    }
}

/// What to do with what has arrived on a session.
pub enum Received {
    /// Answer with the own addresses.
    Reply(Vec<u8>),
    /// Act on a message.
    Message(Handled),
}

/// What an event calls for.
pub enum EventReaction {
    Nothing,
    /// Deliver what waits for this peer, and what waits for any neighbor.
    Drain(PeerId),
    /// Tell all neighbors a key.
    AnnounceKey { peer_id: PeerId, public_key: [u8; 32] },
}

/// What an event was caused by.
#[derive(Clone, Copy)]
pub enum Cause {
    /// What the node has met with itself: a transport, a handshake, a delivery.
    Own,
    /// What a message has told about others.
    Gossip,
}

/// What an event calls for: a peer that has appeared may be a way for what waits, and a key that
/// a handshake has shown is told to all neighbors. A key that was learned by gossip is not
/// announced anew, for the announcement that it came with is passed on.
pub fn reaction_to(event: &TransportEvent, cause: Cause) -> (r: EventReaction)
    ensures
        match *event {
            TransportEvent::PeerConnected(p) => r == EventReaction::Drain(p),
            TransportEvent::KeyLearned { peer_id, public_key } => r == (match cause {
                Cause::Own => EventReaction::AnnounceKey { peer_id, public_key },
                Cause::Gossip => EventReaction::Nothing,
            }),
            _ => r is Nothing,
        },
{
    match event {
        TransportEvent::PeerConnected(p) => EventReaction::Drain(*p),
        TransportEvent::KeyLearned { peer_id, public_key } => match cause {
            Cause::Own => EventReaction::AnnounceKey {
                peer_id: *peer_id,
                public_key: *public_key,
            },
            Cause::Gossip => EventReaction::Nothing,
        },
        _ => EventReaction::Nothing,
    }
}

/// What sending to several neighbors comes to: one that has accepted is enough.
pub fn flood_result(results: &Vec<bool>) -> (r: Result<(), PathweaveError>)
    ensures
        r is Ok <==> results@.contains(true),
        r matches Err(e) ==> e is DeliveryFailed,
{
    let mut i: usize = 0;
    while i < results.len()
        invariant
            i <= results@.len(),
            forall|k: int| 0 <= k < i ==> !results@[k],
        decreases results@.len() - i,
    {
        if results[i] {
            assert(results@[i as int] == true);
            return Ok(());
        }
        i = i + 1;
    }
    Err(PathweaveError::DeliveryFailed)
}

/// The reports of stored payloads for `peer_id` that have expired.
pub fn expiry_events(peer_id: PeerId, expired: usize) -> (events: Vec<TransportEvent>)
    ensures
        events@.len() == expired,
        forall|i: int|
            0 <= i < expired ==> #[trigger] events@[i] == (TransportEvent::StoreFailed { peer_id }),
{
    let mut events: Vec<TransportEvent> = Vec::new();
    let mut i: usize = 0;
    while i < expired
        invariant
            i <= expired,
            events@.len() == i,
            forall|k: int|
                0 <= k < i ==> #[trigger] events@[k] == (TransportEvent::StoreFailed { peer_id }),
        decreases expired - i,
    {
        events.push(TransportEvent::StoreFailed { peer_id });
        i = i + 1;
    }
    events
}

impl Drain {
    /// The identifier and the body with which to try to deliver a payload to its destination
    /// itself. The identifier is the one the payload was stored with.
    pub fn direct_attempt(&self, i: usize) -> (r: (u64, Vec<u8>))
        requires
            i < self.entries@.len(),
        ensures
            r.0 == self.entries@[i as int].msg_id,
            r.1@ == direct_body(self.entries@[i as int].payload@),
    {
        (self.entries[i].msg_id, encode_direct(&self.entries[i].payload))
    }

    /// The identifier and the body with which to try to deliver a payload by way of the
    /// neighbors. The identifier is the one the payload was stored with.
    pub fn routed_attempt(&self, i: usize) -> (r: (u64, Vec<u8>))
        requires
            i < self.entries@.len(),
        ensures
            r.0 == self.entries@[i as int].msg_id,
            r.1@ == relay_body(
                FLAG_ROUTED,
                self.peer_id,
                MAX_TTL,
                self.entries@[i as int].payload@,
            ),
    {
        let body = encode_relay(FLAG_ROUTED, &self.peer_id, MAX_TTL, &self.entries[i].payload);
        (self.entries[i].msg_id, body)
    }
}

/// A node of the mesh.
pub struct PathweaveNode {
    router: Router,
    identity: NodeIdentity,
    peers: PeerTable,
    known_addrs: KnownAddresses,
    dedup: DeduplicationCache,
    key_registry: KeyRegistryState,
    store_ttl: u128,
    max_queue_depth: Option<usize>,
    pending_direct: PendingStore,
    pending_routed: PendingStore,
}

impl View for PathweaveNode {
    type V = NodeModel;

    closed spec fn view(&self) -> NodeModel {
        NodeModel {
            local: self.identity.id(),
            private: self.identity.private(),
            public: self.identity.public(),
            transports: self.router@,
            peers: self.peers@,
            known: self.known_addrs@,
            state: dispatch_state(
                self.key_registry@,
                self.dedup.direct(),
                self.dedup.routed(),
                self.dedup.window(),
            ),
            store_ttl: self.store_ttl,
            max_queue_depth: self.max_queue_depth,
            pending_direct: self.pending_direct@,
            pending_routed: self.pending_routed@,
            origin: self.dedup.origin(),
        }
    }
}

impl PathweaveNode {
    /// The node's invariant.
    pub open spec fn well_formed(&self) -> bool {
        self@.valid()
    }

    /// A node that knows nobody yet.
    pub fn new(config: NodeConfig, identity: NodeIdentity) -> (node: Self)
        ensures
            node.well_formed(),
            node@.local == identity.id(),
            node@.private == identity.private(),
            node@.public == identity.public(),
            node@.transports == Seq::<TransportStatus>::empty(),
            node@.peers == Map::<PeerId, Seq<AnnouncementModel>>::empty(),
            node@.known == Set::<AddressModel>::empty(),
            node@.state.keys.keys == Map::<PeerId, [u8; 32]>::empty(),
            node@.state.keys.gossip == Seq::<PeerId>::empty(),
            node@.state.keys.max_size == config.max_key_registry_size,
            node@.state.direct == Map::<SeenKey, u128>::empty(),
            node@.state.routed == Map::<SeenKey, u128>::empty(),
            node@.state.window == DEDUP_TTL,
            node@.state.window == 60_000_000_000,
            config.store_ttl is None ==> node@.store_ttl == 86_400_000_000_000,
            node@.store_ttl == (match config.store_ttl {
                Some(ttl) => ttl,
                None => STORE_TTL_DEFAULT,
            }),
            node@.max_queue_depth == config.max_queue_depth,
            node@.pending_direct == Map::<PeerId, Seq<StoredModel>>::empty(),
            node@.pending_routed == Map::<PeerId, Seq<StoredModel>>::empty(),
    {
        let store_ttl: u128 = match config.store_ttl {
            Some(ttl) => ttl,
            None => STORE_TTL_DEFAULT,
        };
        PathweaveNode {
            router: Router::new(),
            identity,
            peers: new_peer_table(),
            known_addrs: KnownAddresses::new(),
            dedup: DeduplicationCache::new(),
            key_registry: new_key_registry_with_bound(config.max_key_registry_size),
            store_ttl,
            max_queue_depth: config.max_queue_depth,
            pending_direct: PendingStore::new(),
            pending_routed: PendingStore::new(),
        }
    }

    /// The node's own identifier.
    pub fn peer_id(&self) -> (id: &PeerId)
        ensures
            *id == self@.local,
    {
        self.identity.peer_id()
    }

    /// The node's identity.
    pub fn identity(&self) -> (identity: &NodeIdentity)
        ensures
            identity.id() == self@.local,
            identity.private() == self@.private,
            identity.public() == self@.public,
    {
        &self.identity
    }

    /// The node's transports.
    pub fn router(&self) -> (router: &Router)
        ensures
            router@ == self@.transports,
    {
        &self.router
    }

    /// Nanoseconds since the node was made.
    pub fn now(&self) -> (now: u128)
        ensures
            measured_from(self@.origin, now),
    {
        self.dedup.now()
    }

    /// Adds a transport. It is not available until it has started. Returns its position.
    pub fn register_transport(&mut self, kind: TransportKind, cost: TransportCost) -> (at: usize)
        requires
            old(self).well_formed(),
        ensures
            final(self).well_formed(),
            at == old(self)@.transports.len(),
            final(self)@ == (NodeModel {
                transports: old(self)@.transports.push(
                    TransportStatus { kind, cost, available: false },
                ),
                ..old(self)@
            }),
    {
        self.router.register_transport(kind, cost)
    }

    /// Records that a transport has started or stopped, and what using it costs.
    pub fn set_transport_status(&mut self, at: usize, available: bool, cost: TransportCost)
        requires
            old(self).well_formed(),
            at < old(self)@.transports.len(),
        ensures
            final(self).well_formed(),
            final(self)@ == (NodeModel {
                transports: old(self)@.transports.update(
                    at as int,
                    TransportStatus {
                        kind: old(self)@.transports[at as int].kind,
                        cost,
                        available,
                    },
                ),
                ..old(self)@
            }),
    {
        self.router.set_status(at, available, cost);
    }

    /// Begins to look for a peer at an address. Once it has answered, `add_peer` records it.
    pub fn connect(&self, announcement: &PeerAnnouncement) -> (run: ConnectRun)
        ensures
            run@.next == 0,
            candidate_list(self@.transports, seq![announcement@], run@.candidates),
    {
        let mut anns: Vec<PeerAnnouncement> = Vec::new();
        anns.push(announcement.clone());
        assert(announcement_models(anns@) =~= seq![announcement@]);
        self.router.connect(&anns)
    }

    /// Records that a peer can be dialled at an address.
    pub fn add_peer(&mut self, peer_id: PeerId, announcement: PeerAnnouncement)
        requires
            old(self).well_formed(),
        ensures
            final(self).well_formed(),
            final(self)@ == old(self)@.after_peer(peer_id, announcement@),
    {
        proof {
            law_announcement_keeps_addresses_unique(self@.peers, peer_id, announcement@);
        }
        self.known_addrs.insert(announcement.address.clone());
        self.peers.add(peer_id, announcement);
    }

    /// What to send to deliver `payload` to a peer.
    pub fn send(&self, peer_id: PeerId, payload: &[u8]) -> (r: Result<Outgoing, PathweaveError>)
        ensures
            r is Ok <==> self@.peers.dom().contains(peer_id),
            r matches Ok(out) ==> {
                &&& out.goes_to(peer_id, self@.peers[peer_id])
                &&& out.body@ == direct_body(payload@)
                &&& out.msg_id >= MESSAGE_ID_BIT
            },
            r matches Err(e) ==> e is NoTransportAvailable,
    {
        match self.peers.get(&peer_id) {
            None => Err(PathweaveError::NoTransportAvailable),
            Some(anns) => {
                let mut to: Vec<Neighbor> = Vec::new();
                to.push((peer_id, anns));
                Ok(Outgoing { msg_id: new_message_id(), body: encode_direct(payload), to })
            },
        }
    }

    /// What to send to hand `body` to every neighbor.
    fn flood(&self, msg_id: u64, body: Vec<u8>) -> (r: Result<Outgoing, PathweaveError>)
        ensures
            r is Ok <==> self@.has_neighbor(),
            r matches Ok(out) ==> {
                &&& out.floods(self@)
                &&& out.body@ == body@
                &&& out.msg_id == msg_id
            },
            r matches Err(e) ==> e is NoTransportAvailable,
    {
        let local = self.identity.peer_id();
        let to = self.peers.neighbors(local, local);
        if to.len() == 0 {
            proof {
                if self@.has_neighbor() {
                    let p = choose|p: PeerId| #[trigger]
                        self@.peers.dom().contains(p) && p != self@.local;
                    assert(exists|i: int| 0 <= i < to@.len() && (#[trigger] to@[i]).0 == p);
                }
            }
            return Err(PathweaveError::NoTransportAvailable);
        }
        assert(self@.peers.dom().contains(to@[0].0));
        Ok(Outgoing { msg_id, body, to })
    }

    /// What to send to have `payload` relayed to its destination: every neighbor gets it.
    pub fn send_routed(&self, dest_peer_id: PeerId, payload: &[u8]) -> (r: Result<
        Outgoing,
        PathweaveError,
    >)
        ensures
            r is Ok <==> self@.has_neighbor(),
            r matches Ok(out) ==> {
                &&& out.floods(self@)
                &&& out.body@ == relay_body(FLAG_ROUTED, dest_peer_id, MAX_TTL, payload@)
                &&& out.msg_id >= MESSAGE_ID_BIT
            },
            r matches Err(e) ==> e is NoTransportAvailable,
    {
        let body = encode_relay(FLAG_ROUTED, &dest_peer_id, MAX_TTL, payload);
        self.flood(new_message_id(), body)
    }

    /// What to send to have a payload relayed that was sealed for its destination.
    pub fn send_sealed(&self, dest_peer_id: PeerId, sealed: &[u8]) -> (r: Result<
        Outgoing,
        PathweaveError,
    >)
        ensures
            r is Ok <==> self@.has_neighbor(),
            r matches Ok(out) ==> {
                &&& out.floods(self@)
                &&& out.body@ == relay_body(
                    FLAG_SEALED,
                    dest_peer_id,
                    MAX_TTL,
                    envelope(self@.local, sealed@),
                )
                &&& out.msg_id >= MESSAGE_ID_BIT
            },
            r matches Err(e) ==> e is NoTransportAvailable,
    {
        let content = encode_envelope(self.identity.peer_id(), sealed);
        let body = encode_relay(FLAG_SEALED, &dest_peer_id, MAX_TTL, &content);
        self.flood(new_message_id(), body)
    }

    /// What to send to have `payload` relayed to its destination so that only the destination
    /// can read it. It is never sent unsealed: without the destination's key there is nothing to
    /// send. Sealing draws on the system's entropy, whose failure is the one case in which a
    /// payload that is short enough is not sealed.
    pub fn send_routed_sealed(&self, dest_peer_id: PeerId, payload: &[u8]) -> (r: Result<
        Outgoing,
        PathweaveError,
    >)
        ensures
            !self@.state.keys.keys.dom().contains(dest_peer_id) ==> r == Err::<
                Outgoing,
                PathweaveError,
            >(PathweaveError::KeyUnknown(dest_peer_id)),
            r matches Ok(out) ==> {
                &&& out.floods(self@)
                &&& out.msg_id >= MESSAGE_ID_BIT
                &&& exists|sealed: Seq<u8>|
                    {
                        &&& out.body@ == relay_body(
                            FLAG_SEALED,
                            dest_peer_id,
                            MAX_TTL,
                            #[trigger] envelope(self@.local, sealed),
                        )
                        &&& sealed_for(
                            sealed,
                            self@.public,
                            self@.state.keys.keys[dest_peer_id]@,
                            payload@,
                        )
                        &&& seals_as(
                            self@.private,
                            self@.state.keys.keys[dest_peer_id]@,
                            payload@,
                            Ok(sealed),
                        )
                    }
            },
            r is Ok ==> self@.has_neighbor(),
            r is Ok ==> payload@.len() + SEAL_OVERHEAD <= NOISE_MSG_MAX,
            self@.state.keys.keys.dom().contains(dest_peer_id) && payload@.len() + SEAL_OVERHEAD
                > NOISE_MSG_MAX ==> r matches Err(PathweaveError::Session(_)),
            r matches Err(e) ==> {
                ||| e is KeyUnknown && !self@.state.keys.keys.dom().contains(dest_peer_id)
                ||| e is NoTransportAvailable && !self@.has_neighbor()
                ||| e matches PathweaveError::Session(text) && seals_as(
                    self@.private,
                    self@.state.keys.keys[dest_peer_id]@,
                    payload@,
                    Err(text@),
                )
            },
    {
        let key = match self.key_registry.get(&dest_peer_id) {
            Some(key) => key,
            None => {
                return Err(PathweaveError::KeyUnknown(dest_peer_id));
            },
        };
        let sealed = match seal(&self.identity, &key, payload) {
            Ok(sealed) => sealed,
            Err(e) => {
                return Err(e);
            },
        };
        assert(sealed_for(
            sealed@,
            self@.public,
            self@.state.keys.keys[dest_peer_id]@,
            payload@,
        ));
        self.send_sealed(dest_peer_id, &sealed)
    }

    /// What to do with `payload` so that a peer gets it now or later. Every attempt to deliver
    /// it uses the same identifier.
    pub fn store_forward(&self, peer_id: PeerId, payload: Vec<u8>, now: u128) -> (r: StoreForward)
        ensures
            r.entry.payload@ == payload@,
            r.entry.queued_at == now,
            r.entry.msg_id >= MESSAGE_ID_BIT,
            r.attempt is Some <==> announcements_of(self@.peers, peer_id).len() > 0,
            r.attempt matches Some(out) ==> {
                &&& out.goes_to(peer_id, self@.peers[peer_id])
                &&& out.body@ == direct_body(payload@)
                &&& out.msg_id == r.entry.msg_id
            },
    {
        let msg_id: u64 = new_message_id();
        let attempt = match self.peers.get(&peer_id) {
            Some(anns) => {
                assert(announcement_models(anns@).len() == anns@.len());
                if anns.len() > 0 {
                    let mut to: Vec<Neighbor> = Vec::new();
                    to.push((peer_id, anns));
                    Some(Outgoing { msg_id, body: encode_direct(&payload), to })
                } else {
                    None
                }
            },
            None => None,
        };
        StoreForward { attempt, entry: Stored { msg_id, payload, queued_at: now } }
    }

    /// What to do with `payload` so that it is relayed to its destination now or later. Every
    /// attempt to have it relayed uses the same identifier.
    pub fn store_forward_routed(&self, dest_peer_id: PeerId, payload: Vec<u8>, now: u128) -> (r:
        StoreForward)
        ensures
            r.entry.payload@ == payload@,
            r.entry.queued_at == now,
            r.entry.msg_id >= MESSAGE_ID_BIT,
            r.attempt is Some <==> self@.has_neighbor(),
            r.attempt matches Some(out) ==> {
                &&& out.floods(self@)
                &&& out.body@ == relay_body(FLAG_ROUTED, dest_peer_id, MAX_TTL, payload@)
                &&& out.msg_id == r.entry.msg_id
            },
    {
        let msg_id: u64 = new_message_id();
        let body = encode_relay(FLAG_ROUTED, &dest_peer_id, MAX_TTL, &payload);
        let attempt = match self.flood(msg_id, body) {
            Ok(out) => Some(out),
            Err(_) => None,
        };
        StoreForward { attempt, entry: Stored { msg_id, payload, queued_at: now } }
    }

    /// Stores a payload for a peer that could not be reached. A full queue refuses it, which is
    /// reported.
    pub fn keep_direct(&mut self, peer_id: PeerId, entry: Stored) -> (event: Option<TransportEvent>)
        requires
            old(self).well_formed(),
        ensures
            final(self).well_formed(),
            ({
                let q = queue_of(old(self)@.pending_direct, peer_id);
                if queue_full(q, old(self)@.max_queue_depth) {
                    &&& event == Some(TransportEvent::StoreFailed { peer_id })
                    &&& final(self)@ == old(self)@
                } else {
                    &&& event is None
                    &&& final(self)@ == (NodeModel {
                        pending_direct: old(self)@.pending_direct.insert(peer_id, q.push(entry@)),
                        ..old(self)@
                    })
                }
            }),
    {
        if self.pending_direct.store(peer_id, entry, self.max_queue_depth) {
            None
        } else {
            Some(TransportEvent::StoreFailed { peer_id })
        }
    }

    /// Stores a payload that no neighbor would relay. A full queue refuses it, which is reported.
    pub fn keep_routed(&mut self, dest_peer_id: PeerId, entry: Stored) -> (event: Option<
        TransportEvent,
    >)
        requires
            old(self).well_formed(),
        ensures
            final(self).well_formed(),
            ({
                let q = queue_of(old(self)@.pending_routed, dest_peer_id);
                if queue_full(q, old(self)@.max_queue_depth) {
                    &&& event == Some(TransportEvent::StoreFailed { peer_id: dest_peer_id })
                    &&& final(self)@ == old(self)@
                } else {
                    &&& event is None
                    &&& final(self)@ == (NodeModel {
                        pending_routed: old(self)@.pending_routed.insert(
                            dest_peer_id,
                            q.push(entry@),
                        ),
                        ..old(self)@
                    })
                }
            }),
    {
        if self.pending_routed.store(dest_peer_id, entry, self.max_queue_depth) {
            None
        } else {
            Some(TransportEvent::StoreFailed { peer_id: dest_peer_id })
        }
    }

    /// Takes out what waits for a peer, to be delivered to it. Nothing if nothing waits.
    pub fn drain_direct_for_peer(&mut self, peer_id: &PeerId, now: u128) -> (d: Option<Drain>)
        requires
            old(self).well_formed(),
        ensures
            final(self).well_formed(),
            d is Some <==> old(self)@.pending_direct.dom().contains(*peer_id),
            d matches Some(drain) ==> {
                &&& drains(
                    drain,
                    *peer_id,
                    old(self)@.pending_direct[*peer_id],
                    now,
                    old(self)@.store_ttl,
                )
                &&& announcements_of(old(self)@.peers, *peer_id).len() == 0 ==> drain.to@.len() == 0
                &&& announcements_of(old(self)@.peers, *peer_id).len() > 0 ==> {
                    &&& drain.to@.len() == 1
                    &&& drain.to@[0].0 == *peer_id
                    &&& announcement_models(drain.to@[0].1@) == old(self)@.peers[*peer_id]
                }
            },
            final(self)@ == (NodeModel {
                pending_direct: old(self)@.pending_direct.remove(*peer_id),
                ..old(self)@
            }),
    {
        let entries = match self.pending_direct.take(peer_id) {
            Some(entries) => entries,
            None => {
                return None;
            },
        };
        assert(stored_models(entries@).len() == entries@.len());
        let (expired, live) = split_expired(entries, now, self.store_ttl);
        let mut to: Vec<Neighbor> = Vec::new();
        match self.peers.get(peer_id) {
            Some(anns) => {
                assert(announcement_models(anns@).len() == anns@.len());
                if anns.len() > 0 {
                    to.push((*peer_id, anns));
                }
            },
            None => {},
        }
        Some(Drain { peer_id: *peer_id, expired, entries: live, to })
    }

    /// Puts back what of a direct drain was not delivered, before what was stored since.
    pub fn finish_direct_drain(&mut self, drain: Drain, results: &Vec<bool>)
        requires
            old(self).well_formed(),
        ensures
            final(self).well_formed(),
            final(self)@ == (NodeModel {
                pending_direct: after_put_back(
                    old(self)@.pending_direct,
                    drain.peer_id,
                    failed_part(stored_models(drain.entries@), results@),
                ),
                ..old(self)@
            }),
    {
        self.pending_direct.put_back(drain.peer_id, keep_failed(drain.entries, results));
    }

    /// Takes out all that waits to be relayed, whoever it is for, to be handed to the neighbors.
    pub fn drain_routed_all(&mut self, now: u128) -> (taken: Vec<Drain>)
        requires
            old(self).well_formed(),
        ensures
            final(self).well_formed(),
            lists_destinations(drain_peers(taken@), old(self)@.pending_routed),
            forall|i: int|
                0 <= i < taken@.len() ==> drains(
                    #[trigger] taken@[i],
                    taken@[i].peer_id,
                    old(self)@.pending_routed[taken@[i].peer_id],
                    now,
                    old(self)@.store_ttl,
                ) && lists_peers_except(
                    taken@[i].to@,
                    old(self)@.peers,
                    old(self)@.local,
                    old(self)@.local,
                ),
            final(self)@ == (NodeModel {
                pending_routed: Map::<PeerId, Seq<StoredModel>>::empty(),
                ..old(self)@
            }),
    {
        let ghost m = self@.pending_routed;
        let ghost whole = self@;
        let ids = self.pending_routed.destinations();
        let mut out: Vec<Drain> = Vec::new();
        let mut i: usize = 0;
        while i < ids.len()
            invariant
                i <= ids@.len(),
                lists_destinations(ids@, m),
                whole.pending_routed == m,
                self@ == (NodeModel { pending_routed: self@.pending_routed, ..whole }),
                self@.valid(),
                forall|p: PeerId| #[trigger]
                    self@.pending_routed.dom().contains(p) <==> m.dom().contains(p)
                        && !ids@.take(i as int).contains(p),
                forall|p: PeerId| #[trigger]
                    self@.pending_routed.dom().contains(p) ==> self@.pending_routed[p] == m[p],
                out@.len() == i,
                drain_peers(out@) == ids@.take(i as int),
                forall|k: int|
                    0 <= k < i ==> drains(
                        #[trigger] out@[k],
                        out@[k].peer_id,
                        m[out@[k].peer_id],
                        now,
                        whole.store_ttl,
                    ) && lists_peers_except(out@[k].to@, whole.peers, whole.local, whole.local),
            decreases ids@.len() - i,
        {
            let dest = ids[i];
            let ghost seen = ids@.take(i as int);
            proof {
                assert(ids@.contains(dest));
                assert(!seen.contains(dest)) by {
                    if seen.contains(dest) {
                        let k = choose|k: int| 0 <= k < seen.len() && seen[k] == dest;
                        assert(ids@[k] == dest);
                    }
                }
                assert(self@.pending_routed.dom().contains(dest));
                assert(ids@.take(i + 1) =~= seen.push(dest));
                assert forall|p: PeerId| seen.push(dest).contains(p) <==> seen.contains(p) || p
                    == dest by {
                    if seen.contains(p) {
                        let k = choose|k: int| 0 <= k < seen.len() && seen[k] == p;
                        assert(seen.push(dest)[k] == p);
                    }
                    if p == dest {
                        assert(seen.push(dest)[seen.len() as int] == p);
                    }
                    if seen.push(dest).contains(p) && p != dest {
                        let k = choose|k: int|
                            0 <= k < seen.push(dest).len() && seen.push(dest)[k] == p;
                        assert(seen[k] == p);
                    }
                }
            }
            let ghost before = out@;
            let drain = self.drain_routed_for(&dest, now);
            match drain {
                Some(d) => {
                    out.push(d);
                    assert(drain_peers(out@) =~= drain_peers(before).push(dest));
                },
                None => {},
            }
            i = i + 1;
        }
        proof {
            assert(ids@.take(i as int) =~= ids@);
            assert forall|p: PeerId| !self@.pending_routed.dom().contains(p) by {
                if self@.pending_routed.dom().contains(p) {
                    assert(ids@.contains(p));
                }
            }
            assert(self@.pending_routed =~= Map::<PeerId, Seq<StoredModel>>::empty());
        }
        out
    }

    /// Takes out what waits to be relayed to one destination.
    fn drain_routed_for(&mut self, dest_peer_id: &PeerId, now: u128) -> (d: Option<Drain>)
        requires
            old(self).well_formed(),
        ensures
            final(self).well_formed(),
            d is Some <==> old(self)@.pending_routed.dom().contains(*dest_peer_id),
            d matches Some(drain) ==> {
                &&& drains(
                    drain,
                    *dest_peer_id,
                    old(self)@.pending_routed[*dest_peer_id],
                    now,
                    old(self)@.store_ttl,
                )
                &&& lists_peers_except(
                    drain.to@,
                    old(self)@.peers,
                    old(self)@.local,
                    old(self)@.local,
                )
            },
            final(self)@ == (NodeModel {
                pending_routed: old(self)@.pending_routed.remove(*dest_peer_id),
                ..old(self)@
            }),
    {
        let entries = match self.pending_routed.take(dest_peer_id) {
            Some(entries) => entries,
            None => {
                return None;
            },
        };
        assert(stored_models(entries@).len() == entries@.len());
        let (expired, live) = split_expired(entries, now, self.store_ttl);
        let local = self.identity.peer_id();
        let to = self.peers.neighbors(local, local);
        Some(Drain { peer_id: *dest_peer_id, expired, entries: live, to })
    }

    /// Puts back what of a routed drain no neighbor has accepted, before what was stored since.
    pub fn finish_routed_drain(&mut self, drain: Drain, results: &Vec<bool>)
        requires
            old(self).well_formed(),
        ensures
            final(self).well_formed(),
            final(self)@ == (NodeModel {
                pending_routed: after_put_back(
                    old(self)@.pending_routed,
                    drain.peer_id,
                    failed_part(stored_models(drain.entries@), results@),
                ),
                ..old(self)@
            }),
    {
        self.pending_routed.put_back(drain.peer_id, keep_failed(drain.entries, results));
    }

    /// The key to expect of a peer that is dialled, if it is known.
    pub fn lookup_key(&self, peer_id: &PeerId) -> (key: Option<[u8; 32]>)
        ensures
            key is Some <==> self@.state.keys.keys.dom().contains(*peer_id),
            key matches Some(k) ==> k == self@.state.keys.keys[*peer_id],
    {
        self.key_registry.get(peer_id)
    }

    /// A handshake with a peer has failed. If its key was expected, the key may be stale: it is
    /// forgotten, and the handshake is tried once more without. Returns whether it is.
    pub fn handshake_failed(&mut self, peer_id: &PeerId, key_expected: bool) -> (retry: bool)
        requires
            old(self).well_formed(),
        ensures
            final(self).well_formed(),
            retry == key_expected,
            final(self)@ == if key_expected {
                NodeModel {
                    state: DispatchState {
                        keys: old(self)@.state.keys.after_remove(*peer_id),
                        ..old(self)@.state
                    },
                    ..old(self)@
                }
            } else {
                old(self)@
            },
    {
        if key_expected {
            self.key_registry.remove(peer_id);
            true
        } else {
            false
        }
    }

    /// A session with a peer stands, whoever opened it. Its key is recorded; if the peer had none
    /// before, that is reported.
    pub fn session_established(&mut self, session: &Session) -> (event: Option<TransportEvent>)
        requires
            old(self).well_formed(),
            session.well_formed(),
        ensures
            final(self).well_formed(),
            ({
                let m = old(self)@;
                let peer_id = session.remote_id();
                let public_key = key_of(session.remote_key());
                &&& final(self)@ == (NodeModel {
                    state: DispatchState {
                        keys: m.state.keys.after_direct(peer_id, public_key),
                        ..m.state
                    },
                    ..m
                })
                &&& event == (if m.state.keys.keys.dom().contains(peer_id) {
                    None
                } else {
                    Some(TransportEvent::KeyLearned { peer_id, public_key })
                })
            }),
    {
        let peer_id = *session.peer_id();
        let public_key = *session.remote_static_key();
        proof {
            lemma_key_of(public_key);
        }
        let is_new = self.key_registry.insert_direct(peer_id, public_key);
        if is_new {
            Some(TransportEvent::KeyLearned { peer_id, public_key })
        } else {
            None
        }
    }

    /// What to send to tell all neighbors a key that was learned in a handshake.
    pub fn flood_key_announcement(&self, peer_id: &PeerId, public_key: &[u8; 32]) -> (r: Result<
        Outgoing,
        PathweaveError,
    >)
        ensures
            r is Ok <==> self@.has_neighbor(),
            r matches Ok(out) ==> {
                &&& out.floods(self@)
                &&& out.body@ == key_body(*peer_id, public_key@, MAX_TTL)
                &&& out.msg_id >= MESSAGE_ID_BIT
            },
            r matches Err(e) ==> e is NoTransportAvailable,
    {
        let body = encode_key_announcement(peer_id, public_key, MAX_TTL);
        self.flood(new_message_id(), body)
    }

    /// The frame that tells a peer the own addresses, as they are now.
    pub fn own_addresses(&self, local_addrs: &Vec<PeerAddress>) -> (frame: Vec<u8>)
        ensures
            frame@ == exchange(address_models(local_addrs@)),
    {
        encode_addr_exchange(local_addrs)
    }

    /// A peer has told its addresses. A frame that does not read as such changes nothing.
    pub fn learn_addresses(&mut self, peer_id: &PeerId, frame: &[u8])
        requires
            old(self).well_formed(),
        ensures
            final(self).well_formed(),
            final(self)@ == (NodeModel {
                peers: match read_exchange(frame@) {
                    Some(addrs) => after_addresses(old(self)@.peers, *peer_id, addrs),
                    None => old(self)@.peers,
                },
                ..old(self)@
            }),
    {
        match decode_addr_exchange(frame) {
            Some(addrs) => {
                proof {
                    law_addresses_keep_unique(self@.peers, *peer_id, address_models(addrs@));
                }
                self.peers.upsert_peer_addresses(peer_id, addrs);
            },
            None => {},
        }
    }

    /// Handles the bytes `payload` that `sender_peer_id` has sent, at time `now`.
    pub fn dispatch(&mut self, sender_peer_id: &PeerId, payload: &[u8], now: u128) -> (h: Handled)
        requires
            old(self).well_formed(),
        ensures
            final(self).well_formed(),
            ({
                let m = old(self)@;
                let (state, out) = dispatched(
                    m.local,
                    m.private,
                    m.state,
                    *sender_peer_id,
                    payload@,
                    now,
                );
                &&& final(self)@ == (NodeModel { state, ..m })
                &&& h.handles(out, m, *sender_peer_id, payload@)
            }),
    {
        let ghost m = self@;
        proof {
            law_forged_key_never_stored(
                m.local,
                m.private,
                m.state,
                *sender_peer_id,
                payload@,
                now,
            );
        }
        let d = dispatch_payload(
            &self.identity,
            &mut self.key_registry,
            &mut self.dedup,
            sender_peer_id,
            payload,
            now,
        );
        let relay = match d.relay {
            Some((msg_id, body)) => {
                let to = self.peers.neighbors(sender_peer_id, self.identity.peer_id());
                Some(Outgoing { msg_id, body, to })
            },
            None => None,
        };
        let event = match d.learned {
            Some((peer_id, public_key)) => Some(TransportEvent::KeyLearned { peer_id, public_key }),
            None => None,
        };
        Handled { deliver: d.deliver, relay, event, ack: Vec::new() }
    }

    /// Handles what has arrived on a session that `sender_peer_id` has opened. An address
    /// exchange may come first; `local_addrs` are the addresses to answer it with. All else are
    /// messages.
    pub fn receive(
        &mut self,
        stage: Incoming,
        sender_peer_id: &PeerId,
        bytes: &[u8],
        local_addrs: &Vec<PeerAddress>,
        now: u128,
    ) -> (r: (Incoming, Received))
        requires
            old(self).well_formed(),
        ensures
            final(self).well_formed(),
            r.0 is AwaitMessage,
            ({
                let m = old(self)@;
                if stage is AwaitFirst && is_control(bytes@) {
                    &&& final(self)@ == (NodeModel {
                        peers: match read_exchange(bytes@) {
                            Some(addrs) => after_addresses(m.peers, *sender_peer_id, addrs),
                            None => m.peers,
                        },
                        ..m
                    })
                    &&& r.1 matches Received::Reply(frame) && frame@ == exchange(
                        address_models(local_addrs@),
                    )
                } else {
                    let (state, out) = dispatched(
                        m.local,
                        m.private,
                        m.state,
                        *sender_peer_id,
                        bytes@,
                        now,
                    );
                    &&& final(self)@ == (NodeModel { state, ..m })
                    &&& r.1 matches Received::Message(h) && h.handles(
                        out,
                        m,
                        *sender_peer_id,
                        bytes@,
                    )
                }
            }),
    {
        let first = match stage {
            Incoming::AwaitFirst => true,
            Incoming::AwaitMessage => false,
        };
        if first && is_addr_exchange(bytes) {
            self.learn_addresses(sender_peer_id, bytes);
            (Incoming::AwaitMessage, Received::Reply(self.own_addresses(local_addrs)))
        } else {
            let h = self.dispatch(sender_peer_id, bytes, now);
            (Incoming::AwaitMessage, Received::Message(h))
        }
    }

    /// A transport has seen an address. Returns whether it is to be dialled: an address that was
    /// dialled before, or is being dialled, is not.
    pub fn discovered(&mut self, address: &PeerAddress) -> (dial: bool)
        requires
            old(self).well_formed(),
        ensures
            final(self).well_formed(),
            dial == !old(self)@.known.contains(address@),
            final(self)@ == (NodeModel { known: old(self)@.known.insert(address@), ..old(self)@ }),
    {
        self.known_addrs.insert(address.clone())
    }

    /// A peer has answered at an address that was discovered. It is recorded and reported, unless
    /// it is the node itself.
    pub fn discovery_answered(&mut self, peer_id: PeerId, announcement: PeerAnnouncement) -> (event:
        Option<TransportEvent>)
        requires
            old(self).well_formed(),
        ensures
            final(self).well_formed(),
            peer_id == old(self)@.local ==> event is None && final(self)@ == old(self)@,
            peer_id != old(self)@.local ==> {
                &&& event == Some(TransportEvent::PeerConnected(peer_id))
                &&& final(self)@ == (NodeModel {
                    peers: after_announcement(old(self)@.peers, peer_id, announcement@),
                    ..old(self)@
                })
            },
    {
        if peer_id.same(self.identity.peer_id()) {
            return None;
        }
        proof {
            law_announcement_keeps_addresses_unique(self@.peers, peer_id, announcement@);
        }
        self.peers.add(peer_id, announcement);
        Some(TransportEvent::PeerConnected(peer_id))
    }

    /// Nobody has answered at an address that was discovered. It is dialled again when it is seen
    /// again.
    pub fn discovery_failed(&mut self, address: &PeerAddress)
        requires
            old(self).well_formed(),
        ensures
            final(self).well_formed(),
            final(self)@ == (NodeModel { known: old(self)@.known.remove(address@), ..old(self)@ }),
    {
        self.known_addrs.remove(address);
    }

    /// An address is no longer announced. It is dialled again when it is seen again; the peers
    /// that were seen there are reported. They stay known, for they may be reached elsewhere.
    pub fn departed(&mut self, address: &PeerAddress) -> (events: Vec<TransportEvent>)
        requires
            old(self).well_formed(),
        ensures
            final(self).well_formed(),
            final(self)@ == (NodeModel { known: old(self)@.known.remove(address@), ..old(self)@ }),
            forall|e: TransportEvent| #[trigger]
                events@.contains(e) <==> (e matches TransportEvent::PeerDisconnected(p)
                    && has_address(announcements_of(old(self)@.peers, p), address@)),
            events@.no_duplicates(),
    {
        self.known_addrs.remove(address);
        let ids = self.peers.peers_at(address);
        let mut events: Vec<TransportEvent> = Vec::new();
        let mut i: usize = 0;
        while i < ids.len()
            invariant
                i <= ids@.len(),
                events@.len() == i,
                forall|k: int|
                    0 <= k < i ==> #[trigger] events@[k] == TransportEvent::PeerDisconnected(
                        ids@[k],
                    ),
            decreases ids@.len() - i,
        {
            events.push(TransportEvent::PeerDisconnected(ids[i]));
            i = i + 1;
        }
        proof {
            assert forall|e: TransportEvent| #[trigger] events@.contains(e) <==> (
            e matches TransportEvent::PeerDisconnected(p) && ids@.contains(p)) by {
                if events@.contains(e) {
                    let k = choose|k: int| 0 <= k < events@.len() && events@[k] == e;
                    assert(ids@.contains(ids@[k]));
                }
                if let TransportEvent::PeerDisconnected(p) = e {
                    if ids@.contains(p) {
                        let k = choose|k: int| 0 <= k < ids@.len() && ids@[k] == p;
                        assert(events@[k] == e);
                    }
                }
            }
        }
        events
    }

    /// How many payloads wait to be delivered to a peer.
    pub fn waiting_direct(&self, peer_id: &PeerId) -> (n: usize)
        ensures
            n == queue_of(self@.pending_direct, *peer_id).len(),
    {
        self.pending_direct.depth(peer_id)
    }

    /// How many payloads wait to be relayed to a peer.
    pub fn waiting_routed(&self, dest_peer_id: &PeerId) -> (n: usize)
        ensures
            n == queue_of(self@.pending_routed, *dest_peer_id).len(),
    {
        self.pending_routed.depth(dest_peer_id)
    }
}


/// A message is never passed on to the peer that it came from nor back to the node itself, and
/// every other peer gets it.
pub proof fn law_source_suppressed(
    h: Handled,
    out: Outcome,
    m: NodeModel,
    sender: PeerId,
    payload: Seq<u8>,
)
    requires
        h.handles(out, m, sender, payload),
        h.relay is Some,
    ensures
        forall|i: int|
            0 <= i < h.relay->0.to@.len() ==> (#[trigger] h.relay->0.to@[i]).0 != sender
                && h.relay->0.to@[i].0 != m.local,
        forall|p: PeerId| #[trigger]
            m.peers.dom().contains(p) && p != sender && p != m.local ==> exists|i: int|
                0 <= i < h.relay->0.to@.len() && (#[trigger] h.relay->0.to@[i]).0 == p,
{
}

/// A drain that delivers nothing, with nothing stored meanwhile, leaves what has not expired as
/// it was; what is stored meanwhile comes after it.
pub proof fn law_failed_drain_restores_queue(
    m: StoreModel,
    p: PeerId,
    now: u128,
    ttl: u128,
    newer: Seq<StoredModel>,
)
    requires
        m.dom().contains(p),
    ensures
        ({
            let live = live_part(m[p], now, ttl);
            let kept = failed_part(live, Seq::<bool>::empty());
            let meanwhile = if newer.len() == 0 {
                m.remove(p)
            } else {
                m.remove(p).insert(p, newer)
            };
            &&& kept == live
            &&& queue_of(after_put_back(meanwhile, p, kept), p) == live + newer
        }),
{
    let live = live_part(m[p], now, ttl);
    lemma_nothing_delivered(live);
    assert(live + newer =~= if live.len() == 0 {
        newer
    } else {
        live + newer
    });
    assert(newer.len() == 0 ==> newer =~= Seq::<StoredModel>::empty());
}

proof fn lemma_nothing_delivered(q: Seq<StoredModel>)
    ensures
        failed_part(q, Seq::<bool>::empty()) == q,
    decreases q.len(),
{
    if q.len() > 0 {
        lemma_nothing_delivered(q.drop_last());
        assert(q.drop_last().push(q.last()) =~= q);
    } else {
        assert(q =~= Seq::<StoredModel>::empty());
    }
}

/// There is someone to hand a message to exactly if some other peer than the node itself is known.
pub proof fn law_neighbor_exact(m: NodeModel, p: PeerId)
    ensures
        m.peers.dom().contains(p) && p != m.local ==> m.has_neighbor(),
        (forall|q: PeerId| #[trigger] m.peers.dom().contains(q) ==> q == m.local)
            ==> !m.has_neighbor(),
{
}

/// What is flooded goes to every known peer but the node itself, once, with all its addresses, and
/// to nobody else.
pub proof fn law_flood_reaches_every_neighbor(out: Outgoing, m: NodeModel, p: PeerId)
    requires
        out.floods(m),
    ensures
        (exists|i: int| 0 <= i < out.to@.len() && (#[trigger] out.to@[i]).0 == p)
            <==> m.peers.dom().contains(p) && p != m.local,
        forall|i: int|
            0 <= i < out.to@.len() && (#[trigger] out.to@[i]).0 == p ==> announcement_models(
                out.to@[i].1@,
            ) == m.peers[p],
        forall|i: int, j: int|
            0 <= i < out.to@.len() && 0 <= j < out.to@.len() && (#[trigger] out.to@[i]).0 == p && (
            #[trigger] out.to@[j]).0 == p ==> i == j,
{
    law_listed_peers_exact(out.to@, m.peers, m.local, m.local, p);
}

/// What goes to one peer goes to that peer alone, at the given addresses.
pub proof fn law_goes_to_one_peer(out: Outgoing, p: PeerId, anns: Seq<AnnouncementModel>)
    requires
        out.goes_to(p, anns),
    ensures
        out.to@.len() == 1,
        out.to@[0].0 == p,
        announcement_models(out.to@[0].1@) == anns,
{
}

/// A drain takes out of a queue, to deliver them in order, exactly the payloads that were stored at
/// most `ttl` before `now`, and counts all others as expired.
pub proof fn law_drain_exact(d: Drain, p: PeerId, q: Seq<StoredModel>, now: u128, ttl: u128)
    requires
        drains(d, p, q, now, ttl),
    ensures
        d.peer_id == p,
        stored_models(d.entries@) == q.filter(|e: StoredModel| now <= e.queued_at + ttl),
        d.expired == q.len() - q.filter(|e: StoredModel| now <= e.queued_at + ttl).len(),
        (forall|i: int| 0 <= i < q.len() ==> now <= (#[trigger] q[i]).queued_at + ttl) ==> d.expired
            == 0 && stored_models(d.entries@) == q,
{
    law_live_exactly_within_ttl(q, now, ttl);
    assert(stored_models(d.entries@).len() == d.entries@.len());
}

/// A node hands a direct message to the application, in its sender's name, at every time, unless it
/// has the same sender's message with the same identifier on record less than the window ago. It
/// passes nothing on and answers with nothing.
pub proof fn law_node_delivers_direct_message(
    h: Handled,
    m: NodeModel,
    sender: PeerId,
    bytes: Seq<u8>,
    now: u128,
)
    requires
        bytes.len() >= 9,
        bytes[8] == 0,
        h.handles(
            dispatched(m.local, m.private, m.state, sender, bytes, now).1,
            m,
            sender,
            bytes,
        ),
    ensures
        ({
            let k: SeenKey = (Some(sender), from_be_u64(bytes));
            let direct = m.state.direct;
            let seen = direct.dom().contains(k) && (now < direct[k] || now - direct[k]
                < m.state.window);
            &&& !seen ==> (h.deliver matches Some(pair) && pair.0 == sender && pair.1@
                == bytes.skip(9))
            &&& seen ==> h.deliver is None
            &&& h.relay is None
            &&& h.event is None
            &&& h.ack@.len() == 0
        }),
{
    law_direct_message_handled(m.local, m.private, m.state, sender, bytes, now);
}

/// A node passes a routed message that is for someone else, has a hop left and is not on record
/// less than the window ago, on to every known peer but the sender and itself, under the message's
/// own identifier, with one hop less.
pub proof fn law_node_relays_routed_message(
    h: Handled,
    m: NodeModel,
    sender: PeerId,
    bytes: Seq<u8>,
    now: u128,
    p: PeerId,
)
    requires
        bytes.len() >= 42,
        bytes[8] == 1,
        bytes[41] > 0,
        bytes.subrange(9, 41) != m.local@,
        !(m.state.routed.dom().contains((None, from_be_u64(bytes))) && (now
            < m.state.routed[(None, from_be_u64(bytes))] || now - m.state.routed[(
            None,
            from_be_u64(bytes),
        )] < m.state.window)),
        h.handles(
            dispatched(m.local, m.private, m.state, sender, bytes, now).1,
            m,
            sender,
            bytes,
        ),
    ensures
        h.deliver is None,
        h.relay is Some,
        h.relay->0.msg_id == from_be_u64(bytes),
        h.relay->0.body@ == bytes.subrange(8, 41) + seq![
            (if bytes[41] < 7 { bytes[41] - 1 } else { 6 }) as u8,
        ] + bytes.skip(42),
        (exists|i: int| 0 <= i < h.relay->0.to@.len() && (#[trigger] h.relay->0.to@[i]).0 == p)
            <==> m.peers.dom().contains(p) && p != sender && p != m.local,
{
    law_routed_message_handled(m.local, m.private, m.state, sender, bytes, now);
    law_bytes_read_exactly(bytes);
    law_listed_peers_exact(h.relay->0.to@, m.peers, sender, m.local, p);
}

/// A node passes a genuine key announcement that has a hop left and is not on record less than the
/// window ago on to every known peer but the sender and itself, under its own identifier, with one
/// hop less; and it reports the key exactly if it was new and found room.
pub proof fn law_node_relays_key_announcement(
    h: Handled,
    m: NodeModel,
    sender: PeerId,
    bytes: Seq<u8>,
    now: u128,
    peer: PeerId,
    key: [u8; 32],
    p: PeerId,
)
    requires
        bytes.len() >= 74,
        bytes[8] == 2,
        bytes.subrange(9, 41) == peer@,
        bytes.subrange(41, 73) == key@,
        blake3_digest(key@) == peer@,
        !(m.state.routed.dom().contains((None, from_be_u64(bytes))) && (now
            < m.state.routed[(None, from_be_u64(bytes))] || now - m.state.routed[(
            None,
            from_be_u64(bytes),
        )] < m.state.window)),
        h.handles(
            dispatched(m.local, m.private, m.state, sender, bytes, now).1,
            m,
            sender,
            bytes,
        ),
    ensures
        h.deliver is None,
        bytes[73] > 0 ==> {
            &&& h.relay is Some
            &&& h.relay->0.msg_id == from_be_u64(bytes)
            &&& h.relay->0.body@ == bytes.subrange(8, 73) + seq![
                (if bytes[73] < 7 { bytes[73] - 1 } else { 6 }) as u8,
            ]
            &&& (exists|i: int|
                0 <= i < h.relay->0.to@.len() && (#[trigger] h.relay->0.to@[i]).0 == p)
                <==> m.peers.dom().contains(p) && p != sender && p != m.local
        },
        bytes[73] == 0 ==> h.relay is None,
        ({
            let keys = m.state.keys;
            let room = keys.gossip.len() > 0 || keys.max_size is None || keys.keys.dom().len()
                < keys.max_size->0;
            h.event == if !keys.keys.dom().contains(peer) && room {
                Some(TransportEvent::KeyLearned { peer_id: peer, public_key: key })
            } else {
                None
            }
        }),
{
    law_key_announcement_handled(m.local, m.private, m.state, sender, bytes, now, peer, key);
    law_bytes_read_exactly(bytes);
    if bytes[73] > 0 {
        law_listed_peers_exact(h.relay->0.to@, m.peers, sender, m.local, p);
    }
}

/// After a peer has announced an address, that address is known, and what is known of all else
/// stays.
pub proof fn law_after_peer_exact(m: NodeModel, p: PeerId, a: AnnouncementModel)
    ensures
        m.after_peer(p, a).known == m.known.insert(a.address),
        m.after_peer(p, a).peers == after_announcement(m.peers, p, a),
        m.after_peer(p, a).state == m.state,
        m.after_peer(p, a).transports == m.transports,
        m.after_peer(p, a).pending_direct == m.pending_direct,
        m.after_peer(p, a).pending_routed == m.pending_routed,
        m.after_peer(p, a).local == m.local,
        m.after_peer(p, a).private == m.private,
        m.after_peer(p, a).public == m.public,
{
}

/// In every state that a node can be in, each key is the one that its peer's identifier was made
/// from, no peer has an address twice, and those listed as learned by gossip are known, each listed
/// once.
pub proof fn law_valid_node(m: NodeModel, p: PeerId, i: int, j: int)
    requires
        m.valid(),
    ensures
        m.state.keys.keys.dom().contains(p) ==> blake3_digest(m.state.keys.keys[p]@) == p@,
        m.peers.dom().contains(p) && 0 <= i < j < m.peers[p].len() ==> m.peers[p][i].address
            != m.peers[p][j].address,
        0 <= i < m.state.keys.gossip.len() ==> m.state.keys.keys.dom().contains(
            m.state.keys.gossip[i],
        ),
        0 <= i < j < m.state.keys.gossip.len() ==> m.state.keys.gossip[i]
            != m.state.keys.gossip[j],
{
}

/// What is done with a message is what comes of it: the payload is delivered and the body passed on
/// as they are, under the message's own identifier, to every known peer but the sender and the node
/// itself; a key that was learned is reported; and the answer is empty.
pub proof fn law_handled_exact(
    h: Handled,
    out: Outcome,
    m: NodeModel,
    sender: PeerId,
    bytes: Seq<u8>,
    p: PeerId,
)
    requires
        h.handles(out, m, sender, bytes),
    ensures
        h.ack@.len() == 0,
        out.deliver is None <==> h.deliver is None,
        out.deliver is Some ==> (h.deliver->0).0 == (out.deliver->0).0 && (h.deliver->0).1@
            == (out.deliver->0).1,
        out.relay is None <==> h.relay is None,
        out.relay is Some ==> {
            &&& h.relay->0.body@ == out.relay->0
            &&& bytes.len() >= 9
            &&& h.relay->0.msg_id == from_be_u64(bytes)
            &&& (exists|i: int|
                0 <= i < h.relay->0.to@.len() && (#[trigger] h.relay->0.to@[i]).0 == p)
                <==> m.peers.dom().contains(p) && p != sender && p != m.local
        },
        out.learned is None <==> h.event is None,
        out.learned is Some ==> h.event == Some(
            TransportEvent::KeyLearned {
                peer_id: (out.learned->0).0,
                public_key: (out.learned->0).1,
            },
        ),
{
    law_bytes_read_exactly(bytes);
    if out.relay is Some {
        law_listed_peers_exact(h.relay->0.to@, m.peers, sender, m.local, p);
    }
}

/// The destinations of a list of drains are those of the drains, in order.
pub proof fn law_drain_destinations(s: Seq<Drain>, i: int)
    requires
        0 <= i < s.len(),
    ensures
        drain_peers(s).len() == s.len(),
        drain_peers(s)[i] == s[i].peer_id,
{
}

} // verus!
