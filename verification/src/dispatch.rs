//! What a node does with a message that arrives on a session: deliver it, pass it on, learn from
//! it, or drop it.

use vstd::prelude::*;

use crate::dedup::DeduplicationCache;
#[allow(unused_imports)]
use crate::dedup::{after_check, fresh_part, law_duplicate_within_window, SeenKey};
use crate::error::PathweaveError;
use crate::frame::{
    decode_message, encode_envelope, encode_key_announcement, encode_relay,
    validate_key_announcement, Frame, FLAG_ROUTED, FLAG_SEALED, MAX_TTL,
};
#[allow(unused_imports)]
use crate::frame::{
    certified, direct_body, envelope, id_of, key_body, law_direct_round_trip,
    law_key_round_trip, law_routed_round_trip, law_sealed_round_trip, lemma_id_of,
    lemma_id_of_bytes, lemma_key_of, message, read_message, relay_body, FrameModel,
};
#[allow(unused_imports)]
use crate::identity::{blake3_digest, lemma_peer_id_view};
#[allow(unused_imports)]
use crate::wire::from_be_u64;
use crate::identity::{NodeIdentity, PeerId};
use crate::registry::KeyRegistryState;
#[allow(unused_imports)]
use crate::registry::RegistryModel;
use crate::session::unseal;
#[allow(unused_imports)]
use crate::session::{law_unseal_gives_back_what_was_sealed, noise_k_opened, sealed_for};

verus! {

/// What handling a message depends on and changes: the known keys, and which messages were seen
/// when.
#[verifier::ext_equal]
pub struct DispatchState {
    pub keys: RegistryModel,
    pub direct: Map<SeenKey, u128>,
    pub routed: Map<SeenKey, u128>,
    pub window: u128,
}

impl DispatchState {
    /// Whether a message that `sender` sent directly was seen within the window.
    pub open spec fn seen_direct(self, sender: PeerId, id: u64, now: u128) -> bool {
        fresh_part(self.direct, now, self.window).dom().contains((Some(sender), id))
    }

    /// Whether a routed message was seen within the window, whoever passed it on.
    pub open spec fn seen_routed(self, id: u64, now: u128) -> bool {
        fresh_part(self.routed, now, self.window).dom().contains((None, id))
    }

    /// After a directly sent message was looked up.
    pub open spec fn after_direct(self, sender: PeerId, id: u64, now: u128) -> DispatchState {
        DispatchState {
            direct: after_check(self.direct, (Some(sender), id), now, self.window),
            ..self
        }
    }

    /// After a routed message was looked up.
    pub open spec fn after_routed(self, id: u64, now: u128) -> DispatchState {
        DispatchState { routed: after_check(self.routed, (None, id), now, self.window), ..self }
    }

    /// After gossip about a key was accepted.
    pub open spec fn after_gossip(self, peer: PeerId, key: [u8; 32]) -> DispatchState {
        DispatchState { keys: self.keys.after_gossip(peer, key), ..self }
    }
}

/// What comes of a message: a payload for the application with the peer that it comes from, the
/// body to pass on under the same identifier, and a peer whose key was not known before, with the
/// key.
#[verifier::ext_equal]
pub struct Outcome {
    pub deliver: Option<(PeerId, Seq<u8>)>,
    pub relay: Option<Seq<u8>>,
    pub learned: Option<(PeerId, [u8; 32])>,
}

/// Nothing comes of the message.
pub open spec fn dropped() -> Outcome {
    Outcome { deliver: None, relay: None, learned: None }
}

/// The application gets a payload.
pub open spec fn delivered(from: PeerId, payload: Seq<u8>) -> Outcome {
    Outcome { deliver: Some((from, payload)), relay: None, learned: None }
}

/// The message is passed on.
pub open spec fn relayed(body: Seq<u8>) -> Outcome {
    Outcome { deliver: None, relay: Some(body), learned: None }
}

/// The hops that a message may still make, whatever it says itself.
pub open spec fn hops(ttl: u8) -> u8 {
    if ttl < MAX_TTL {
        ttl
    } else {
        MAX_TTL
    }
}

/// What a payload that `sender` sealed opens as; nothing if the sender's key is not known or the
/// payload does not open with it.
pub open spec fn opened(
    private: Seq<u8>,
    keys: RegistryModel,
    sender: PeerId,
    sealed: Seq<u8>,
) -> Option<Seq<u8>> {
    if !keys.keys.dom().contains(sender) {
        None
    } else {
        match noise_k_opened(private, keys.keys[sender]@, sealed) {
            Ok(payload) => Some(payload),
            Err(_) => None,
        }
    }
}

/// What comes of a relayed message that has reached its destination.
pub open spec fn arrived(
    st: DispatchState,
    id: u64,
    content: Option<(PeerId, Seq<u8>)>,
    now: u128,
) -> (DispatchState, Outcome) {
    let out = if st.seen_routed(id, now) {
        dropped()
    } else {
        Outcome { deliver: content, relay: None, learned: None }
    };
    (st.after_routed(id, now), out)
}

/// What comes of a relayed message that is for someone else.
pub open spec fn passed_on(
    st: DispatchState,
    id: u64,
    flag: u8,
    dest: PeerId,
    ttl: u8,
    content: Seq<u8>,
    now: u128,
) -> (DispatchState, Outcome) {
    if hops(ttl) == 0 {
        (st, dropped())
    } else if st.seen_routed(id, now) {
        (st.after_routed(id, now), dropped())
    } else {
        (
            st.after_routed(id, now),
            relayed(relay_body(flag, dest, (hops(ttl) - 1) as u8, content)),
        )
    }
}

/// What comes of a key announcement. It is news if the key is taken in and there was none before.
pub open spec fn announced(
    st: DispatchState,
    id: u64,
    peer: PeerId,
    key: [u8; 32],
    ttl: u8,
    now: u128,
) -> (DispatchState, Outcome) {
    if !certified(peer, key@) {
        (st, dropped())
    } else if st.seen_routed(id, now) {
        (st.after_routed(id, now), dropped())
    } else {
        let after = st.after_routed(id, now).after_gossip(peer, key);
        (
            after,
            Outcome {
                deliver: None,
                relay: if hops(ttl) > 0 {
                    Some(key_body(peer, key@, (hops(ttl) - 1) as u8))
                } else {
                    None
                },
                learned: if !st.keys.keys.dom().contains(peer) && after.keys.keys.dom().contains(
                    peer,
                ) {
                    Some((peer, key))
                } else {
                    None
                },
            },
        )
    }
}

/// What comes of a message that says `frame`, at the node `local` with this private key.
pub open spec fn dispatched_frame(
    local: PeerId,
    private: Seq<u8>,
    st: DispatchState,
    sender: PeerId,
    id: u64,
    frame: FrameModel,
    now: u128,
) -> (DispatchState, Outcome) {
    match frame {
        FrameModel::Direct(data) => (
            st.after_direct(sender, id, now),
            if st.seen_direct(sender, id, now) {
                dropped()
            } else {
                delivered(sender, data)
            },
        ),
        FrameModel::Routed { dest, ttl, payload } => if dest == local {
            arrived(st, id, Some((sender, payload)), now)
        } else {
            passed_on(st, id, FLAG_ROUTED, dest, ttl, payload, now)
        },
        FrameModel::Key { peer, key, ttl } => announced(st, id, peer, key, ttl, now),
        FrameModel::Sealed { dest, ttl, sender: from, sealed } => if dest == local {
            arrived(
                st,
                id,
                match opened(private, st.keys, from, sealed) {
                    Some(payload) => Some((from, payload)),
                    None => None,
                },
                now,
            )
        } else {
            passed_on(st, id, FLAG_SEALED, dest, ttl, envelope(from, sealed), now)
        },
        FrameModel::Truncated => (st, dropped()),
        FrameModel::Unknown => (st, dropped()),
    }
}

/// What comes of the bytes `m` that `sender` has sent.
pub open spec fn dispatched(
    local: PeerId,
    private: Seq<u8>,
    st: DispatchState,
    sender: PeerId,
    m: Seq<u8>,
    now: u128,
) -> (DispatchState, Outcome) {
    match read_message(m) {
        Some((id, frame)) => dispatched_frame(local, private, st, sender, id, frame, now),
        None => (st, dropped()),
    }
}

/// What comes of a message.
pub struct Dispatch {
    /// A payload for the application, and the peer that it comes from.
    pub deliver: Option<(PeerId, Vec<u8>)>,
    /// An identifier and a body to pass on.
    pub relay: Option<(u64, Vec<u8>)>,
    /// A peer whose key was not known before, and the key.
    pub learned: Option<(PeerId, [u8; 32])>,
}

impl Dispatch {
    fn none() -> (d: Self)
        ensures
            d@ == dropped(),
    {
        Dispatch { deliver: None, relay: None, learned: None }
    }
}

impl View for Dispatch {
    type V = Outcome;

    open spec fn view(&self) -> Outcome {
        Outcome {
            deliver: match self.deliver {
                Some(pair) => Some((pair.0, pair.1@)),
                None => None,
            },
            relay: match self.relay {
                Some(pair) => Some(pair.1@),
                None => None,
            },
            learned: self.learned,
        }
    }
}

/// The state in which a message finds the registry and the cache.
pub open spec fn dispatch_state(
    keys: RegistryModel,
    direct: Map<SeenKey, u128>,
    routed: Map<SeenKey, u128>,
    window: u128,
) -> DispatchState {
    DispatchState { keys, direct, routed, window }
}

/// What a sealed payload is delivered as, once it was opened or found not to open.
pub fn sealed_delivery(sender: PeerId, opened: Result<Vec<u8>, PathweaveError>) -> (deliver: Option<
    (PeerId, Vec<u8>),
>)
    ensures
        opened matches Ok(payload) ==> deliver == Some((sender, payload)),
        opened is Err ==> deliver is None,
{
    match opened {
        Ok(payload) => Some((sender, payload)),
        Err(_) => None,
    }
}

/// Opens a payload that `sender` has sealed for this node, if the sender's key is known.
fn open_sealed(
    identity: &NodeIdentity,
    registry: &KeyRegistryState,
    sender: PeerId,
    sealed: &[u8],
) -> (deliver: Option<(PeerId, Vec<u8>)>)
    ensures
        match opened(identity.private(), registry@, sender, sealed@) {
            Some(payload) => deliver matches Some(pair) && pair.0 == sender && pair.1@ == payload,
            None => deliver is None,
        },
{
    match registry.get(&sender) {
        Some(key) => sealed_delivery(sender, unseal(identity, &sender, &key, sealed)),
        None => None,
    }
}

fn hops_left(ttl: u8) -> (r: u8)
    ensures
        r == hops(ttl),
{
    if ttl < MAX_TTL {
        ttl
    } else {
        MAX_TTL
    }
}

/// Passes a message on to its destination.
fn pass_on(
    dedup: &mut DeduplicationCache,
    id: u64,
    flag: u8,
    dest: &PeerId,
    ttl: u8,
    content: &[u8],
    now: u128,
    keys: Ghost<RegistryModel>,
) -> (d: Dispatch)
    ensures
        ({
            let st = dispatch_state(
                keys@,
                old(dedup).direct(),
                old(dedup).routed(),
                old(dedup).window(),
            );
            let after = dispatch_state(
                keys@,
                final(dedup).direct(),
                final(dedup).routed(),
                final(dedup).window(),
            );
            (after, d@) == passed_on(st, id, flag, *dest, ttl, content@, now)
        }),
        d.relay matches Some(pair) ==> pair.0 == id,
        final(dedup).origin() == old(dedup).origin(),
{
    let left: u8 = hops_left(ttl);
    if left == 0 {
        return Dispatch::none();
    }
    if dedup.check_and_insert_routed_at(id, now) {
        return Dispatch::none();
    }
    let body = encode_relay(flag, dest, left - 1, content);
    Dispatch { deliver: None, relay: Some((id, body)), learned: None }
}

/// Handles the bytes `payload` that `sender_peer_id` has sent, at time `now` of the cache's
/// clock. The sender gets an empty acknowledgement in any case.
pub fn dispatch_payload(
    identity: &NodeIdentity,
    registry: &mut KeyRegistryState,
    dedup: &mut DeduplicationCache,
    sender_peer_id: &PeerId,
    payload: &[u8],
    now: u128,
) -> (d: Dispatch)
    requires
        old(registry).well_formed(),
    ensures
        final(registry).well_formed(),
        ({
            let st = dispatch_state(
                old(registry)@,
                old(dedup).direct(),
                old(dedup).routed(),
                old(dedup).window(),
            );
            let after = dispatch_state(
                final(registry)@,
                final(dedup).direct(),
                final(dedup).routed(),
                final(dedup).window(),
            );
            (after, d@) == dispatched(
                identity.id(),
                identity.private(),
                st,
                *sender_peer_id,
                payload@,
                now,
            )
        }),
        d.relay matches Some(pair) ==> read_message(payload@) matches Some(m) && pair.0 == m.0,
        final(dedup).origin() == old(dedup).origin(),
{
    match decode_message(payload) {
        None => Dispatch::none(),
        Some((id, frame)) => match frame {
            Frame::Direct(data) => {
                if dedup.check_and_insert_at(sender_peer_id, id, now) {
                    Dispatch::none()
                } else {
                    Dispatch { deliver: Some((*sender_peer_id, data)), relay: None, learned: None }
                }
            },
            Frame::Routed { dest, ttl, payload: content } => {
                if dest.same(identity.peer_id()) {
                    if dedup.check_and_insert_routed_at(id, now) {
                        Dispatch::none()
                    } else {
                        Dispatch {
                            deliver: Some((*sender_peer_id, content)),
                            relay: None,
                            learned: None,
                        }
                    }
                } else {
                    pass_on(dedup, id, FLAG_ROUTED, &dest, ttl, &content, now, Ghost(registry@))
                }
            },
            Frame::Key { peer, key, ttl } => {
                if !validate_key_announcement(&peer, &key) {
                    Dispatch::none()
                } else if dedup.check_and_insert_routed_at(id, now) {
                    Dispatch::none()
                } else {
                    let known = registry.get(&peer).is_some();
                    registry.insert_gossip(peer, key);
                    let learned = if !known && registry.get(&peer).is_some() {
                        Some((peer, key))
                    } else {
                        None
                    };
                    let left: u8 = hops_left(ttl);
                    let relay = if left > 0 {
                        Some((id, encode_key_announcement(&peer, &key, left - 1)))
                    } else {
                        None
                    };
                    Dispatch { deliver: None, relay, learned }
                }
            },
            Frame::Sealed { dest, ttl, sender, sealed } => {
                if dest.same(identity.peer_id()) {
                    if dedup.check_and_insert_routed_at(id, now) {
                        Dispatch::none()
                    } else {
                        Dispatch {
                            deliver: open_sealed(identity, registry, sender, &sealed),
                            relay: None,
                            learned: None,
                        }
                    }
                } else {
                    let content = encode_envelope(&sender, &sealed);
                    pass_on(dedup, id, FLAG_SEALED, &dest, ttl, &content, now, Ghost(registry@))
                }
            },
            Frame::Truncated => Dispatch::none(),
            Frame::Unknown => Dispatch::none(),
        },
    }
}

/// Whether a message is recognised by its identifier alone.
pub open spec fn is_routed(frame: FrameModel) -> bool {
    frame is Routed || frame is Key || frame is Sealed
}

/// The destination of a relayed message.
pub open spec fn frame_dest(frame: FrameModel) -> Option<PeerId> {
    match frame {
        FrameModel::Routed { dest, ttl, payload } => Some(dest),
        FrameModel::Sealed { dest, ttl, sender, sealed } => Some(dest),
        _ => None,
    }
}

/// The hops that a message says it may still make.
pub open spec fn frame_ttl(frame: FrameModel) -> u8 {
    match frame {
        FrameModel::Routed { dest, ttl, payload } => ttl,
        FrameModel::Key { peer, key, ttl } => ttl,
        FrameModel::Sealed { dest, ttl, sender, sealed } => ttl,
        _ => 0,
    }
}

/// The same message with other hops left.
pub open spec fn with_ttl(frame: FrameModel, left: u8) -> FrameModel {
    match frame {
        FrameModel::Routed { dest, ttl, payload } => FrameModel::Routed { dest, ttl: left, payload },
        FrameModel::Key { peer, key, ttl } => FrameModel::Key { peer, key, ttl: left },
        FrameModel::Sealed { dest, ttl, sender, sealed } => FrameModel::Sealed {
            dest,
            ttl: left,
            sender,
            sealed,
        },
        other => other,
    }
}

/// The body of a message that is relayed.
pub open spec fn routed_body(frame: FrameModel) -> Seq<u8> {
    match frame {
        FrameModel::Routed { dest, ttl, payload } => relay_body(FLAG_ROUTED, dest, ttl, payload),
        FrameModel::Key { peer, key, ttl } => key_body(peer, key@, ttl),
        FrameModel::Sealed { dest, ttl, sender, sealed } => relay_body(
            FLAG_SEALED,
            dest,
            ttl,
            envelope(sender, sealed),
        ),
        _ => Seq::empty(),
    }
}

/// A message that is relayed reads as what its body was made of.
pub proof fn law_routed_body_round_trip(id: u64, frame: FrameModel)
    requires
        is_routed(frame),
    ensures
        read_message(message(id, routed_body(frame))) == Some((id, frame)),
{
    match frame {
        FrameModel::Routed { dest, ttl, payload } => {
            law_routed_round_trip(id, dest, ttl, payload);
        },
        FrameModel::Key { peer, key, ttl } => {
            law_key_round_trip(id, peer, key, ttl);
        },
        FrameModel::Sealed { dest, ttl, sender, sealed } => {
            law_sealed_round_trip(id, dest, ttl, sender, sealed);
        },
        _ => {},
    }
}

/// A message that is addressed to the node itself is not passed on, and unless it was seen
/// before, its payload is delivered.
pub proof fn law_destination_check(
    local: PeerId,
    private: Seq<u8>,
    st: DispatchState,
    sender: PeerId,
    id: u64,
    frame: FrameModel,
    now: u128,
)
    requires
        frame_dest(frame) == Some(local),
    ensures
        ({
            let out = dispatched_frame(local, private, st, sender, id, frame, now).1;
            &&& out.relay is None
            &&& frame matches FrameModel::Routed { dest, ttl, payload } ==> (
                !st.seen_routed(id, now) ==> out.deliver == Some((sender, payload)))
        }),
{
}

/// What is passed on is the same message with one hop less than it had left, and it had at least
/// one. A message that says it has none left is neither passed on nor remembered, unless it has
/// arrived.
pub proof fn law_ttl_enforced(
    local: PeerId,
    private: Seq<u8>,
    st: DispatchState,
    sender: PeerId,
    id: u64,
    frame: FrameModel,
    now: u128,
)
    ensures
        ({
            let (after, out) = dispatched_frame(local, private, st, sender, id, frame, now);
            &&& out.relay matches Some(body) ==> {
                &&& hops(frame_ttl(frame)) > 0
                &&& read_message(message(id, body)) == Some(
                    (id, with_ttl(frame, (hops(frame_ttl(frame)) - 1) as u8)),
                )
            }
            &&& frame_ttl(frame) == 0 ==> out.relay is None
            &&& frame_dest(frame) is Some && frame_dest(frame) != Some(local) && frame_ttl(frame)
                == 0 ==> after == st
        }),
{
    if dispatched_frame(local, private, st, sender, id, frame, now).1.relay is Some {
        law_routed_body_round_trip(id, with_ttl(frame, (hops(frame_ttl(frame)) - 1) as u8));
    }
}

/// A message is passed on at most as often as the bound on hops says, because each time it has
/// fewer hops left than before.
pub proof fn law_hops_decrease(
    local: PeerId,
    private: Seq<u8>,
    st: DispatchState,
    sender: PeerId,
    m: Seq<u8>,
    now: u128,
)
    ensures
        ({
            let out = dispatched(local, private, st, sender, m, now).1;
            out.relay matches Some(body) ==> {
                let before = read_message(m)->0;
                let after = read_message(message(before.0, body))->0;
                &&& read_message(m) is Some
                &&& read_message(message(before.0, body)) is Some
                &&& frame_ttl(after.1) < hops(frame_ttl(before.1))
                &&& frame_ttl(after.1) < MAX_TTL
            }
        }),
{
    if read_message(m) is Some {
        let (id, frame) = read_message(m)->0;
        law_ttl_enforced(local, private, st, sender, id, frame, now);
    }
}

/// Whether a message is looked up among those seen: it has arrived, or may be passed on, or
/// announces a key that its peer's identifier was made from.
pub open spec fn looked_up(local: PeerId, frame: FrameModel) -> bool {
    match frame {
        FrameModel::Routed { dest, ttl, payload } => dest == local || ttl > 0,
        FrameModel::Sealed { dest, ttl, sender, sealed } => dest == local || ttl > 0,
        FrameModel::Key { peer, key, ttl } => certified(peer, key@),
        _ => false,
    }
}

/// Within the window nothing comes of a second routed message with the same identifier, whoever
/// passes it on and whatever it says.
pub proof fn law_routed_duplicate_dropped(
    local: PeerId,
    private: Seq<u8>,
    st: DispatchState,
    first_sender: PeerId,
    second_sender: PeerId,
    id: u64,
    first: FrameModel,
    second: FrameModel,
    t1: u128,
    t2: u128,
)
    requires
        looked_up(local, first),
        is_routed(second),
        !st.seen_routed(id, t1),
        t1 <= t2,
        t2 - t1 < st.window,
    ensures
        ({
            let after = dispatched_frame(local, private, st, first_sender, id, first, t1).0;
            dispatched_frame(local, private, after, second_sender, id, second, t2).1 == dropped()
        }),
{
    law_duplicate_within_window(st.routed, (None, id), t1, t2, st.window);
}

/// Within the window nothing comes of a second direct message with the same identifier from the
/// same peer.
pub proof fn law_direct_duplicate_dropped(
    local: PeerId,
    private: Seq<u8>,
    st: DispatchState,
    sender: PeerId,
    id: u64,
    first: Seq<u8>,
    second: Seq<u8>,
    t1: u128,
    t2: u128,
)
    requires
        !st.seen_direct(sender, id, t1),
        t1 <= t2,
        t2 - t1 < st.window,
    ensures
        ({
            let one = dispatched_frame(
                local,
                private,
                st,
                sender,
                id,
                FrameModel::Direct(first),
                t1,
            );
            let two = dispatched_frame(
                local,
                private,
                one.0,
                sender,
                id,
                FrameModel::Direct(second),
                t2,
            );
            one.1 == delivered(sender, first) && two.1 == dropped()
        }),
{
    law_duplicate_within_window(st.direct, (Some(sender), id), t1, t2, st.window);
}

/// The payload of a relayed message is delivered at its destination and nowhere else.
pub proof fn law_no_cross_delivery(
    local: PeerId,
    private: Seq<u8>,
    st: DispatchState,
    sender: PeerId,
    id: u64,
    frame: FrameModel,
    now: u128,
)
    ensures
        dispatched_frame(local, private, st, sender, id, frame, now).1.deliver is Some ==> frame
            is Direct || frame_dest(frame) == Some(local),
{
}

/// Every key that is known is the one that its peer's identifier was made from.
pub open spec fn keys_certified(keys: RegistryModel) -> bool {
    forall|p: PeerId| #[trigger] keys.keys.dom().contains(p) ==> certified(p, keys.keys[p]@)
}

/// No message makes a node store a key that its peer's identifier was not made from.
pub proof fn law_forged_key_never_stored(
    local: PeerId,
    private: Seq<u8>,
    st: DispatchState,
    sender: PeerId,
    m: Seq<u8>,
    now: u128,
)
    requires
        keys_certified(st.keys),
    ensures
        keys_certified(dispatched(local, private, st, sender, m, now).0.keys),
{
}

/// A message is said to teach a key exactly if it put a key into the registry for a peer that had
/// none, and the key it is said to teach is that one.
pub proof fn law_learned_exactly_what_is_new(
    local: PeerId,
    private: Seq<u8>,
    st: DispatchState,
    sender: PeerId,
    m: Seq<u8>,
    now: u128,
    peer: PeerId,
    key: [u8; 32],
)
    ensures
        ({
            let (after, out) = dispatched(local, private, st, sender, m, now);
            out.learned == Some((peer, key)) <==> {
                &&& !st.keys.keys.dom().contains(peer)
                &&& after.keys.keys.dom().contains(peer)
                &&& after.keys.keys[peer] == key
            }
        }),
{
}

/// No message changes the key of a peer that keeps one.
pub proof fn law_message_never_overwrites_key(
    local: PeerId,
    private: Seq<u8>,
    st: DispatchState,
    sender: PeerId,
    m: Seq<u8>,
    now: u128,
    peer: PeerId,
)
    requires
        st.keys.keys.dom().contains(peer),
    ensures
        ({
            let after = dispatched(local, private, st, sender, m, now).0;
            after.keys.keys.dom().contains(peer) ==> after.keys.keys[peer] == st.keys.keys[peer]
        }),
{
}

/// A forged announcement changes nothing and is not passed on.
pub proof fn law_forged_announcement_rejected(
    local: PeerId,
    private: Seq<u8>,
    st: DispatchState,
    sender: PeerId,
    id: u64,
    peer: PeerId,
    key: [u8; 32],
    ttl: u8,
    now: u128,
)
    requires
        !certified(peer, key@),
    ensures
        dispatched(local, private, st, sender, message(id, key_body(peer, key@, ttl)), now) == (
            st,
            dropped(),
        ),
{
    law_key_round_trip(id, peer, key, ttl);
}

/// A node on the way of a message: who it is, what it has seen, who hands it the message, and
/// when.
pub struct Hop {
    pub local: PeerId,
    pub private: Seq<u8>,
    pub state: DispatchState,
    pub from: PeerId,
    pub at: u128,
}

/// What is left of the message `m` with identifier `id` after each node on the path has passed
/// it on; nothing if one of them did not.
pub open spec fn carried(path: Seq<Hop>, id: u64, m: Seq<u8>) -> Option<Seq<u8>>
    decreases path.len(),
{
    if path.len() == 0 {
        Some(m)
    } else {
        let h = path[0];
        match dispatched(h.local, h.private, h.state, h.from, m, h.at).1.relay {
            Some(body) => carried(path.skip(1), id, message(id, body)),
            None => None,
        }
    }
}

/// Whether the nodes on a path are not the destination and have not seen the message before.
pub open spec fn path_open(path: Seq<Hop>, id: u64, dest: PeerId) -> bool {
    forall|i: int|
        0 <= i < path.len() ==> (#[trigger] path[i]).local != dest && !path[i].state.seen_routed(
            id,
            path[i].at,
        )
}

/// Nodes that have not seen a message carry it on unchanged, but for its hops, over as many of
/// them as it has hops left, and no further.
pub proof fn law_message_crosses_relays(path: Seq<Hop>, id: u64, frame: FrameModel)
    requires
        frame_dest(frame) is Some,
        path_open(path, id, frame_dest(frame)->0),
    ensures
        0 < path.len() <= hops(frame_ttl(frame)) ==> carried(
            path,
            id,
            message(id, routed_body(frame)),
        ) == Some(
            message(
                id,
                routed_body(with_ttl(frame, (hops(frame_ttl(frame)) - path.len()) as u8)),
            ),
        ),
        path.len() > hops(frame_ttl(frame)) ==> carried(path, id, message(id, routed_body(frame)))
            is None,
    decreases path.len(),
{
    let m = message(id, routed_body(frame));
    let left = hops(frame_ttl(frame));
    law_routed_body_round_trip(id, frame);
    if path.len() > 0 {
        let h = path[0];
        let rest = path.skip(1);
        let out = dispatched(h.local, h.private, h.state, h.from, m, h.at).1;
        assert forall|i: int| 0 <= i < rest.len() implies (#[trigger] rest[i]).local
            != frame_dest(frame)->0 && !rest[i].state.seen_routed(id, rest[i].at) by {
            assert(rest[i] == path[i + 1]);
        }
        if left > 0 {
            let next = with_ttl(frame, (left - 1) as u8);
            assert(out.relay == Some(routed_body(next)));
            law_message_crosses_relays(rest, id, next);
            assert(carried(path, id, m) == carried(rest, id, message(id, routed_body(next))));
            if rest.len() > 0 && rest.len() <= left - 1 {
                assert(with_ttl(next, (left - 1 - rest.len()) as u8) == with_ttl(
                    frame,
                    (left - path.len()) as u8,
                ));
            }
        } else {
            assert(out.relay is None);
        }
    }
}

/// A payload that was sealed for a node is delivered there as it was sealed, in the name of the
/// one who sealed it and not of the one who passed it on, if the node knows the sender's key and
/// has not seen the message before.
pub proof fn law_sealed_payload_delivered(
    receiver: NodeIdentity,
    st: DispatchState,
    from: PeerId,
    id: u64,
    ttl: u8,
    sender: PeerId,
    sealed: Seq<u8>,
    payload: Seq<u8>,
    now: u128,
)
    requires
        receiver.well_formed(),
        st.keys.keys.dom().contains(sender),
        sealed_for(sealed, st.keys.keys[sender]@, receiver.public(), payload),
        !st.seen_routed(id, now),
    ensures
        dispatched(
            receiver.id(),
            receiver.private(),
            st,
            from,
            message(id, relay_body(FLAG_SEALED, receiver.id(), ttl, envelope(sender, sealed))),
            now,
        ).1 == delivered(sender, payload),
{
    law_sealed_round_trip(id, receiver.id(), ttl, sender, sealed);
    law_unseal_gives_back_what_was_sealed(receiver, st.keys.keys[sender]@, sealed, payload);
}

/// A sealed payload that leaves its sender with all hops crosses as many relays as that allows
/// and is delivered at its destination as it was sealed.
pub proof fn law_sealed_payload_crosses_mesh(
    path: Seq<Hop>,
    receiver: NodeIdentity,
    st: DispatchState,
    from: PeerId,
    id: u64,
    sender: PeerId,
    sealed: Seq<u8>,
    payload: Seq<u8>,
    now: u128,
)
    requires
        receiver.well_formed(),
        st.keys.keys.dom().contains(sender),
        sealed_for(sealed, st.keys.keys[sender]@, receiver.public(), payload),
        !st.seen_routed(id, now),
        path_open(path, id, receiver.id()),
        path.len() <= MAX_TTL,
    ensures
        ({
            let m = message(
                id,
                relay_body(FLAG_SEALED, receiver.id(), MAX_TTL, envelope(sender, sealed)),
            );
            carried(path, id, m) matches Some(last) && dispatched(
                receiver.id(),
                receiver.private(),
                st,
                from,
                last,
                now,
            ).1 == delivered(sender, payload)
        }),
{
    let dest = receiver.id();
    let frame = FrameModel::Sealed { dest, ttl: MAX_TTL, sender, sealed };
    law_message_crosses_relays(path, id, frame);
    let left = (MAX_TTL - path.len()) as u8;
    law_sealed_payload_delivered(receiver, st, from, id, left, sender, sealed, payload, now);
    law_sealed_payload_delivered(receiver, st, from, id, MAX_TTL, sender, sealed, payload, now);
}

/// A payload that leaves its sender with all hops crosses as many relays as that allows and is
/// delivered at its destination unchanged.
pub proof fn law_routed_payload_crosses_mesh(
    path: Seq<Hop>,
    receiver: NodeIdentity,
    st: DispatchState,
    from: PeerId,
    id: u64,
    payload: Seq<u8>,
    now: u128,
)
    requires
        !st.seen_routed(id, now),
        path_open(path, id, receiver.id()),
        path.len() <= MAX_TTL,
    ensures
        ({
            let m = message(id, relay_body(FLAG_ROUTED, receiver.id(), MAX_TTL, payload));
            carried(path, id, m) matches Some(last) && dispatched(
                receiver.id(),
                receiver.private(),
                st,
                from,
                last,
                now,
            ).1 == delivered(from, payload)
        }),
{
    let dest = receiver.id();
    let frame = FrameModel::Routed { dest, ttl: MAX_TTL, payload };
    law_message_crosses_relays(path, id, frame);
    let left = (MAX_TTL - path.len()) as u8;
    law_routed_round_trip(id, dest, left, payload);
    law_routed_round_trip(id, dest, MAX_TTL, payload);
}

/// A message for the receiver itself is delivered to it as it was sent.
pub proof fn law_direct_payload_delivered(
    local: PeerId,
    private: Seq<u8>,
    st: DispatchState,
    sender: PeerId,
    id: u64,
    payload: Seq<u8>,
    now: u128,
)
    requires
        !st.seen_direct(sender, id, now),
    ensures
        dispatched(local, private, st, sender, message(id, direct_body(payload)), now).1
            == delivered(sender, payload),
{
    law_direct_round_trip(id, payload);
}

/// A message counts as seen exactly if there is a record of it, under its sender and identifier
/// for a direct one and under its identifier for a routed one, that is less than the window old.
pub proof fn law_seen_exactly_if_recorded_within_window(
    st: DispatchState,
    sender: PeerId,
    id: u64,
    now: u128,
)
    ensures
        st.seen_direct(sender, id, now) <==> st.direct.dom().contains((Some(sender), id)) && (now
            < st.direct[(Some(sender), id)] || now - st.direct[(Some(sender), id)] < st.window),
        st.seen_routed(id, now) <==> st.routed.dom().contains((None, id)) && (now
            < st.routed[(None, id)] || now - st.routed[(None, id)] < st.window),
{
}

/// A direct message, in bytes: identifier, a zero byte, payload. Its payload is delivered in the
/// name of the one who sent it, at every time, unless the same sender's message with the same
/// identifier is on record less than the window ago. It is passed on to nobody and teaches no key,
/// and all that it changes is the record of direct messages.
pub proof fn law_direct_message_handled(
    local: PeerId,
    private: Seq<u8>,
    st: DispatchState,
    sender: PeerId,
    m: Seq<u8>,
    now: u128,
)
    requires
        m.len() >= 9,
        m[8] == 0,
    ensures
        ({
            let k: SeenKey = (Some(sender), from_be_u64(m));
            let seen = st.direct.dom().contains(k) && (now < st.direct[k] || now - st.direct[k]
                < st.window);
            let (after, out) = dispatched(local, private, st, sender, m, now);
            &&& seen ==> out.deliver is None
            &&& !seen ==> out.deliver == Some((sender, m.skip(9)))
            &&& out.relay is None
            &&& out.learned is None
            &&& after.keys == st.keys
            &&& after.routed == st.routed
            &&& after.window == st.window
            &&& after.direct == after_check(st.direct, k, now, st.window)
        }),
{
    assert(m.skip(8).skip(1) =~= m.skip(9));
}

/// From a state in which no direct message is on record, every direct message is delivered,
/// whenever it arrives.
pub proof fn law_first_direct_message_delivered(
    local: PeerId,
    private: Seq<u8>,
    st: DispatchState,
    sender: PeerId,
    m: Seq<u8>,
    now: u128,
)
    requires
        st.direct == Map::<SeenKey, u128>::empty(),
        m.len() >= 9,
        m[8] == 0,
    ensures
        dispatched(local, private, st, sender, m, now).1.deliver == Some((sender, m.skip(9))),
{
    law_direct_message_handled(local, private, st, sender, m, now);
}

/// The hops that a message may still make are those that it says, and at most seven.
proof fn lemma_one_hop_less(ttl: u8)
    ensures
        hops(ttl) == if ttl < 7 {
            ttl
        } else {
            7u8
        },
{
}

/// The peer made of 32 bytes is the one with these bytes.
proof fn lemma_same_peer(bytes: Seq<u8>, p: PeerId)
    requires
        bytes.len() == 32,
    ensures
        id_of(bytes) == p <==> bytes == p@,
{
    lemma_id_of_bytes(bytes);
    lemma_peer_id_view(id_of(bytes), p);
}

/// A routed message, in bytes: identifier, a one, 32 bytes of destination, hops left, payload. At
/// its destination the payload is delivered, unless a message with the same identifier is on
/// record less than the window ago. Anywhere else it is passed on under the same conditions if it
/// has a hop left, with one hop less, of at most seven, and otherwise unchanged; a message without
/// hops leaves no trace.
pub proof fn law_routed_message_handled(
    local: PeerId,
    private: Seq<u8>,
    st: DispatchState,
    sender: PeerId,
    m: Seq<u8>,
    now: u128,
)
    requires
        m.len() >= 42,
        m[8] == 1,
    ensures
        ({
            let k: SeenKey = (None, from_be_u64(m));
            let seen = st.routed.dom().contains(k) && (now < st.routed[k] || now - st.routed[k]
                < st.window);
            let here = m.subrange(9, 41) == local@;
            let (after, out) = dispatched(local, private, st, sender, m, now);
            &&& here && !seen ==> out.deliver == Some((sender, m.skip(42)))
            &&& !here || seen ==> out.deliver is None
            &&& !here && !seen && m[41] > 0 ==> out.relay == Some(
                m.subrange(8, 41) + seq![(if m[41] < 7 { m[41] - 1 } else { 6 }) as u8] + m.skip(
                    42,
                ),
            )
            &&& here || seen || m[41] == 0 ==> out.relay is None
            &&& out.learned is None
            &&& after.keys == st.keys
            &&& after.direct == st.direct
            &&& after.window == st.window
            &&& here || m[41] > 0 ==> after.routed == after_check(st.routed, k, now, st.window)
            &&& !here && m[41] == 0 ==> after == st
        }),
{
    let b = m.skip(8);
    lemma_one_hop_less(m[41]);
    assert(b.subrange(1, 33) =~= m.subrange(9, 41));
    assert(b[33] == m[41]);
    assert(b.skip(34) =~= m.skip(42));
    lemma_same_peer(m.subrange(9, 41), local);
    let dest = id_of(m.subrange(9, 41));
    lemma_id_of_bytes(m.subrange(9, 41));
    let (after, out) = dispatched(local, private, st, sender, m, now);
    if out.relay is Some {
        assert(out.relay->0 =~= m.subrange(8, 41) + seq![
            (if m[41] < 7 { m[41] - 1 } else { 6 }) as u8,
        ] + m.skip(42));
    }
}

/// A sealed message, in bytes: identifier, a three, 32 bytes of destination, hops left, 32 bytes
/// of the one who sealed it, what is sealed. At its destination it is delivered in the name of the
/// one who sealed it, if that one's key is known and opens it; elsewhere it is passed on as any
/// routed message is, unopened.
pub proof fn law_sealed_message_handled(
    local: PeerId,
    private: Seq<u8>,
    st: DispatchState,
    sender: PeerId,
    m: Seq<u8>,
    now: u128,
    from: PeerId,
)
    requires
        m.len() >= 74,
        m[8] == 3,
        m.subrange(42, 74) == from@,
    ensures
        ({
            let k: SeenKey = (None, from_be_u64(m));
            let seen = st.routed.dom().contains(k) && (now < st.routed[k] || now - st.routed[k]
                < st.window);
            let here = m.subrange(9, 41) == local@;
            let known = st.keys.keys.dom().contains(from);
            let plain = noise_k_opened(private, st.keys.keys[from]@, m.skip(74));
            let (after, out) = dispatched(local, private, st, sender, m, now);
            &&& here && !seen && known && plain is Ok ==> out.deliver == Some((from, plain->Ok_0))
            &&& !here || seen || !known || plain is Err ==> out.deliver is None
            &&& !here && !seen && m[41] > 0 ==> out.relay == Some(
                m.subrange(8, 41) + seq![(if m[41] < 7 { m[41] - 1 } else { 6 }) as u8] + m.skip(
                    42,
                ),
            )
            &&& here || seen || m[41] == 0 ==> out.relay is None
            &&& out.learned is None
            &&& after.keys == st.keys
            &&& after.direct == st.direct
            &&& after.window == st.window
            &&& here || m[41] > 0 ==> after.routed == after_check(st.routed, k, now, st.window)
            &&& !here && m[41] == 0 ==> after == st
        }),
{
    let b = m.skip(8);
    lemma_one_hop_less(m[41]);
    assert(b.subrange(1, 33) =~= m.subrange(9, 41));
    assert(b.subrange(34, 66) =~= m.subrange(42, 74));
    assert(b[33] == m[41]);
    assert(b.skip(66) =~= m.skip(74));
    lemma_same_peer(m.subrange(9, 41), local);
    lemma_same_peer(m.subrange(42, 74), from);
    lemma_id_of_bytes(m.subrange(9, 41));
    let (after, out) = dispatched(local, private, st, sender, m, now);
    if out.relay is Some {
        assert(out.relay->0 =~= m.subrange(8, 41) + seq![
            (if m[41] < 7 { m[41] - 1 } else { 6 }) as u8,
        ] + m.skip(42));
    }
}

/// A key announcement, in bytes: identifier, a two, 32 bytes of peer, 32 bytes of key, hops left.
/// If the peer is the digest of the key and no message with the same identifier is on record less
/// than the window ago, it is passed on if it has a hop left, with one hop less, of at most seven;
/// and the peer is known afterwards, with this key if it was not known before, as long as the
/// registry has room or a key learned by gossip to give up. Otherwise no key changes.
pub proof fn law_key_announcement_handled(
    local: PeerId,
    private: Seq<u8>,
    st: DispatchState,
    sender: PeerId,
    m: Seq<u8>,
    now: u128,
    peer: PeerId,
    key: [u8; 32],
)
    requires
        m.len() >= 74,
        m[8] == 2,
        m.subrange(9, 41) == peer@,
        m.subrange(41, 73) == key@,
    ensures
        ({
            let k: SeenKey = (None, from_be_u64(m));
            let seen = st.routed.dom().contains(k) && (now < st.routed[k] || now - st.routed[k]
                < st.window);
            let genuine = blake3_digest(m.subrange(41, 73)) == m.subrange(9, 41);
            let was_known = st.keys.keys.dom().contains(peer);
            let room = st.keys.gossip.len() > 0 || st.keys.max_size is None
                || st.keys.keys.dom().len() < st.keys.max_size->0;
            let (after, out) = dispatched(local, private, st, sender, m, now);
            &&& out.deliver is None
            &&& genuine && !seen && m[73] > 0 ==> out.relay == Some(
                m.subrange(8, 73) + seq![(if m[73] < 7 { m[73] - 1 } else { 6 }) as u8],
            )
            &&& !genuine || seen || m[73] == 0 ==> out.relay is None
            &&& genuine && !seen && !was_known && room ==> {
                &&& after.keys.keys.dom().contains(peer)
                &&& after.keys.keys[peer] == key
                &&& out.learned == Some((peer, key))
            }
            &&& !genuine || seen || was_known || !room ==> after.keys == st.keys && out.learned
                is None
            &&& after.direct == st.direct
            &&& after.window == st.window
            &&& genuine ==> after.routed == after_check(st.routed, k, now, st.window)
            &&& !genuine ==> after == st
        }),
{
    let b = m.skip(8);
    lemma_one_hop_less(m[73]);
    assert(b.subrange(1, 33) =~= m.subrange(9, 41));
    assert(b.subrange(33, 65) =~= m.subrange(41, 73));
    assert(b[65] == m[73]);
    lemma_same_peer(m.subrange(9, 41), peer);
    lemma_key_of(key);
    let (after, out) = dispatched(local, private, st, sender, m, now);
    if out.relay is Some {
        lemma_peer_id_view(peer, peer);
        assert(out.relay->0 =~= m.subrange(8, 73) + seq![
            (if m[73] < 7 { m[73] - 1 } else { 6 }) as u8,
        ]);
    }
}

/// Nothing comes of a message that is too short for what its flag promises, or has a flag with no
/// meaning.
pub proof fn law_senseless_message_ignored(
    local: PeerId,
    private: Seq<u8>,
    st: DispatchState,
    sender: PeerId,
    m: Seq<u8>,
    now: u128,
)
    requires
        m.len() < 9 || m[8] > 3 || m[8] == 1 && m.len() < 42 || (m[8] == 2 || m[8] == 3) && m.len()
            < 74,
    ensures
        ({
            let (after, out) = dispatched(local, private, st, sender, m, now);
            &&& after == st
            &&& out.deliver is None
            &&& out.relay is None
            &&& out.learned is None
        }),
{
}

/// Whether none of the nodes on a path has a record of a routed message less than the window old.
pub open spec fn path_fresh(path: Seq<Hop>, id: u64) -> bool {
    forall|i: int|
        0 <= i < path.len() ==> !((#[trigger] path[i]).state.routed.dom().contains((None, id)) && (
        path[i].at < path[i].state.routed[(None, id)] || path[i].at
            - path[i].state.routed[(None, id)] < path[i].state.window))
}

/// A genuine key announcement crosses as many nodes that have not seen it as it has hops left, of
/// at most seven, with one hop less after each, and no further.
pub proof fn law_key_announcement_crosses_relays(
    path: Seq<Hop>,
    id: u64,
    peer: PeerId,
    key: [u8; 32],
    ttl: u8,
)
    requires
        blake3_digest(key@) == peer@,
        path_fresh(path, id),
    ensures
        ({
            let left: int = if ttl < 7 { ttl as int } else { 7 };
            &&& 0 < path.len() <= left ==> carried(path, id, message(id, key_body(peer, key@, ttl)))
                == Some(message(id, key_body(peer, key@, (left - path.len()) as u8)))
            &&& path.len() > left ==> carried(path, id, message(id, key_body(peer, key@, ttl)))
                is None
        }),
    decreases path.len(),
{
    let m = message(id, key_body(peer, key@, ttl));
    let left: int = if ttl < 7 { ttl as int } else { 7 };
    law_key_round_trip(id, peer, key, ttl);
    if path.len() > 0 {
        let h = path[0];
        let rest = path.skip(1);
        law_seen_exactly_if_recorded_within_window(h.state, h.from, id, h.at);
        let out = dispatched(h.local, h.private, h.state, h.from, m, h.at).1;
        assert forall|i: int| 0 <= i < rest.len() implies !((
        #[trigger] rest[i]).state.routed.dom().contains((None, id)) && (rest[i].at
            < rest[i].state.routed[(None, id)] || rest[i].at - rest[i].state.routed[(None, id)]
            < rest[i].state.window)) by {
            assert(rest[i] == path[i + 1]);
        }
        if left > 0 {
            assert(out.relay == Some(key_body(peer, key@, (left - 1) as u8)));
            law_key_announcement_crosses_relays(rest, id, peer, key, (left - 1) as u8);
            assert(carried(path, id, m) == carried(
                rest,
                id,
                message(id, key_body(peer, key@, (left - 1) as u8)),
            ));
        } else {
            assert(out.relay is None);
        }
    }
}

/// Every node that a genuine announcement of a key reaches knows a key of the peer afterwards, and
/// this one if it knew none, as long as its registry has room or a key learned by gossip to give
/// up, whatever hops are left.
pub proof fn law_key_announcement_teaches(
    h: Hop,
    id: u64,
    peer: PeerId,
    key: [u8; 32],
    ttl: u8,
)
    requires
        blake3_digest(key@) == peer@,
        path_fresh(seq![h], id),
        h.state.keys.gossip.len() > 0 || h.state.keys.max_size is None
            || h.state.keys.keys.dom().len() < h.state.keys.max_size->0,
    ensures
        ({
            let keys = dispatched(
                h.local,
                h.private,
                h.state,
                h.from,
                message(id, key_body(peer, key@, ttl)),
                h.at,
            ).0.keys.keys;
            &&& keys.dom().contains(peer)
            &&& keys[peer] == if h.state.keys.keys.dom().contains(peer) {
                h.state.keys.keys[peer]
            } else {
                key
            }
        }),
{
    law_key_round_trip(id, peer, key, ttl);
    assert(seq![h][0] == h);
    law_seen_exactly_if_recorded_within_window(h.state, h.from, id, h.at);
}

/// The value of what comes of a message is what it holds.
pub proof fn law_dispatch_values(d: Dispatch, keys: RegistryModel, window: u128)
    ensures
        d.deliver is None <==> d@.deliver is None,
        d.deliver is Some ==> d@.deliver == Some(((d.deliver->0).0, (d.deliver->0).1@)),
        d.relay is None <==> d@.relay is None,
        d.relay is Some ==> d@.relay == Some((d.relay->0).1@),
        d@.learned == d.learned,
        forall|a: Map<SeenKey, u128>, b: Map<SeenKey, u128>| #[trigger]
            dispatch_state(keys, a, b, window).keys == keys && dispatch_state(keys, a, b, window).direct
                == a && dispatch_state(keys, a, b, window).routed == b && dispatch_state(
                keys,
                a,
                b,
                window,
            ).window == window,
{
}

/// Every key of a registry whose keys are certified is the one that its peer's identifier was made
/// from.
pub proof fn law_certified_keys_exact(keys: RegistryModel, p: PeerId)
    requires
        keys_certified(keys),
        keys.keys.dom().contains(p),
    ensures
        blake3_digest(keys.keys[p]@) == p@,
{
}

} // verus!
