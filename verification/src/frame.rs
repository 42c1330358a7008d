//! What nodes say to each other once a session stands.

use vstd::prelude::*;

use crate::identity::{peer_id_from_public_key, PeerId};
#[allow(unused_imports)]
use crate::identity::{blake3_digest, lemma_peer_id_of_bytes, lemma_peer_id_view};
use crate::wire::{array32, copy_range, push_all, u64_from_be, u64_to_be};
#[allow(unused_imports)]
use crate::wire::{be_u64, from_be_u64, law_be_u64_round_trip};

verus! {

/// How many hops a routed frame makes at most.
pub const MAX_TTL: u8 = 7;

/// Marks a payload for the receiver itself.
pub const FLAG_DIRECT: u8 = 0x00;

/// Marks a payload that is relayed to its destination.
pub const FLAG_ROUTED: u8 = 0x01;

/// Marks an announcement of a peer's key.
pub const FLAG_KEY: u8 = 0x02;

/// Marks a payload that is relayed and that only its destination can read.
pub const FLAG_SEALED: u8 = 0x03;

/// The peer whose identifier is `bytes`.
pub open spec fn id_of(bytes: Seq<u8>) -> PeerId {
    choose|p: PeerId| p@ == bytes
}

/// The key made of `bytes`.
pub open spec fn key_of(bytes: Seq<u8>) -> [u8; 32] {
    choose|k: [u8; 32]| k@ == bytes
}

/// A peer is the peer with its identifier.
pub proof fn lemma_id_of(p: PeerId)
    ensures
        id_of(p@) == p,
{
    lemma_peer_id_view(id_of(p@), p);
}

/// The identifier made of 32 bytes has exactly these bytes.
pub proof fn lemma_id_of_bytes(b: Seq<u8>)
    requires
        b.len() == 32,
    ensures
        id_of(b)@ == b,
{
    lemma_peer_id_of_bytes(b);
}

/// A key is the key made of its bytes.
pub proof fn lemma_key_of(k: [u8; 32])
    ensures
        key_of(k@) == k,
{
    let c = key_of(k@);
    assert(c@ == k@);
    assert forall|i: int| 0 <= i < 32 implies c[i] == k[i] by {
        assert(c@[i] == k@[i]);
    }
    assert(c =~= k);
}

/// The body of a frame for the receiver itself.
pub open spec fn direct_body(payload: Seq<u8>) -> Seq<u8> {
    seq![FLAG_DIRECT] + payload
}

/// The body of a frame that is relayed: flag, destination, remaining hops, content.
pub open spec fn relay_body(flag: u8, dest: PeerId, ttl: u8, content: Seq<u8>) -> Seq<u8> {
    seq![flag] + dest@ + seq![ttl] + content
}

/// The body of a frame that announces a key: the peer, its key, remaining hops.
pub open spec fn key_body(peer: PeerId, key: Seq<u8>, ttl: u8) -> Seq<u8> {
    seq![FLAG_KEY] + peer@ + key + seq![ttl]
}

/// The content of a sealed frame: who sealed it, and the sealed payload.
pub open spec fn envelope(sender: PeerId, sealed: Seq<u8>) -> Seq<u8> {
    sender@ + sealed
}

/// A message: its identifier, then its body.
pub open spec fn message(id: u64, body: Seq<u8>) -> Seq<u8> {
    be_u64(id) + body
}

/// What a message says.
pub enum FrameModel {
    Direct(Seq<u8>),
    Routed { dest: PeerId, ttl: u8, payload: Seq<u8> },
    Key { peer: PeerId, key: [u8; 32], ttl: u8 },
    Sealed { dest: PeerId, ttl: u8, sender: PeerId, sealed: Seq<u8> },
    /// Too short for what its flag promises.
    Truncated,
    /// A flag with no meaning.
    Unknown,
}

/// What a message says.
pub enum Frame {
    Direct(Vec<u8>),
    Routed { dest: PeerId, ttl: u8, payload: Vec<u8> },
    Key { peer: PeerId, key: [u8; 32], ttl: u8 },
    Sealed { dest: PeerId, ttl: u8, sender: PeerId, sealed: Vec<u8> },
    /// Too short for what its flag promises.
    Truncated,
    /// A flag with no meaning.
    Unknown,
}

impl View for Frame {
    type V = FrameModel;

    open spec fn view(&self) -> FrameModel {
        match self {
            Frame::Direct(data) => FrameModel::Direct(data@),
            Frame::Routed { dest, ttl, payload } => FrameModel::Routed {
                dest: *dest,
                ttl: *ttl,
                payload: payload@,
            },
            Frame::Key { peer, key, ttl } => FrameModel::Key { peer: *peer, key: *key, ttl: *ttl },
            Frame::Sealed { dest, ttl, sender, sealed } => FrameModel::Sealed {
                dest: *dest,
                ttl: *ttl,
                sender: *sender,
                sealed: sealed@,
            },
            Frame::Truncated => FrameModel::Truncated,
            Frame::Unknown => FrameModel::Unknown,
        }
    }
}

/// What the body of a message says.
pub open spec fn read_body(b: Seq<u8>) -> FrameModel
    recommends
        b.len() >= 1,
{
    if b[0] == FLAG_DIRECT {
        FrameModel::Direct(b.skip(1))
    } else if b[0] == FLAG_ROUTED {
        if b.len() < 34 {
            FrameModel::Truncated
        } else {
            FrameModel::Routed {
                dest: id_of(b.subrange(1, 33)),
                ttl: b[33],
                payload: b.skip(34),
            }
        }
    } else if b[0] == FLAG_KEY {
        if b.len() < 66 {
            FrameModel::Truncated
        } else {
            FrameModel::Key {
                peer: id_of(b.subrange(1, 33)),
                key: key_of(b.subrange(33, 65)),
                ttl: b[65],
            }
        }
    } else if b[0] == FLAG_SEALED {
        if b.len() < 66 {
            FrameModel::Truncated
        } else {
            FrameModel::Sealed {
                dest: id_of(b.subrange(1, 33)),
                ttl: b[33],
                sender: id_of(b.subrange(34, 66)),
                sealed: b.skip(66),
            }
        }
    } else {
        FrameModel::Unknown
    }
}

/// The identifier of a message and what it says; nothing if it is too short to have both.
pub open spec fn read_message(m: Seq<u8>) -> Option<(u64, FrameModel)> {
    if m.len() < 9 {
        None
    } else {
        Some((from_be_u64(m), read_body(m.skip(8))))
    }
}

/// Builds the body of a frame for the receiver itself.
pub fn encode_direct(payload: &[u8]) -> (body: Vec<u8>)
    ensures
        body@ == direct_body(payload@),
{
    let mut body: Vec<u8> = Vec::new();
    body.push(FLAG_DIRECT);
    push_all(&mut body, payload);
    assert(body@ =~= direct_body(payload@));
    body
}

/// Builds the body of a frame that is relayed.
pub fn encode_relay(flag: u8, dest: &PeerId, ttl: u8, content: &[u8]) -> (body: Vec<u8>)
    ensures
        body@ == relay_body(flag, *dest, ttl, content@),
{
    let mut body: Vec<u8> = Vec::new();
    body.push(flag);
    push_all(&mut body, dest.as_bytes());
    body.push(ttl);
    push_all(&mut body, content);
    assert(body@ =~= relay_body(flag, *dest, ttl, content@));
    body
}

/// Builds the content of a sealed frame.
pub fn encode_envelope(sender: &PeerId, sealed: &[u8]) -> (content: Vec<u8>)
    ensures
        content@ == envelope(*sender, sealed@),
{
    let mut content: Vec<u8> = Vec::new();
    push_all(&mut content, sender.as_bytes());
    push_all(&mut content, sealed);
    assert(content@ =~= envelope(*sender, sealed@));
    content
}

/// Builds the body of a frame that announces a key.
pub fn encode_key_announcement(peer_id: &PeerId, public_key: &[u8; 32], ttl: u8) -> (body: Vec<u8>)
    ensures
        body@ == key_body(*peer_id, public_key@, ttl),
{
    let mut body: Vec<u8> = Vec::new();
    body.push(FLAG_KEY);
    push_all(&mut body, peer_id.as_bytes());
    push_all(&mut body, public_key);
    body.push(ttl);
    assert(body@ =~= key_body(*peer_id, public_key@, ttl));
    body
}

/// What a key announcement says, without its flag.
pub open spec fn read_announcement(b: Seq<u8>) -> Option<(PeerId, [u8; 32], u8)> {
    if b.len() < 65 {
        None
    } else {
        Some((id_of(b.subrange(0, 32)), key_of(b.subrange(32, 64)), b[64]))
    }
}

/// Reads a key announcement, without its flag.
pub fn decode_key_announcement(bytes: &[u8]) -> (r: Option<(PeerId, [u8; 32], u8)>)
    ensures
        r == read_announcement(bytes@),
{
    if bytes.len() < 65 {
        return None;
    }
    let peer = PeerId::from_bytes(array32(bytes, 0));
    let key = array32(bytes, 32);
    proof {
        lemma_id_of(peer);
        lemma_key_of(key);
    }
    Some((peer, key, bytes[64]))
}

/// Whether a claimed key is the one that the peer's identifier was made from.
pub open spec fn certified(peer: PeerId, key: Seq<u8>) -> bool {
    peer@ == blake3_digest(key)
}

/// Whether the claimed key is the one that the peer's identifier was made from.
pub fn validate_key_announcement(peer_id: &PeerId, public_key: &[u8; 32]) -> (r: bool)
    ensures
        r == certified(*peer_id, public_key@),
{
    let expected = peer_id_from_public_key(public_key);
    proof {
        lemma_peer_id_view(expected, *peer_id);
    }
    expected.same(peer_id)
}

/// Puts a message together.
pub fn encode_message(id: u64, body: &[u8]) -> (m: Vec<u8>)
    ensures
        m@ == message(id, body@),
{
    let mut m = u64_to_be(id);
    push_all(&mut m, body);
    m
}

/// Reads a message.
pub fn decode_message(m: &[u8]) -> (r: Option<(u64, Frame)>)
    ensures
        r is Some <==> read_message(m@) is Some,
        r matches Some(pair) ==> read_message(m@) == Some((pair.0, pair.1@)),
{
    let n: usize = m.len();
    if n < 9 {
        return None;
    }
    let id: u64 = u64_from_be(m);
    let ghost b = m@.skip(8);
    let flag: u8 = m[8];
    assert(b[0] == flag);
    let frame = if flag == FLAG_DIRECT {
        let data = copy_range(m, 9, n);
        assert(data@ =~= b.skip(1));
        Frame::Direct(data)
    } else if flag == FLAG_ROUTED {
        if n < 42 {
            Frame::Truncated
        } else {
            let dest = PeerId::from_bytes(array32(m, 9));
            let payload = copy_range(m, 42, n);
            proof {
                lemma_id_of(dest);
                assert(m@.subrange(9, 41) =~= b.subrange(1, 33));
                assert(payload@ =~= b.skip(34));
            }
            Frame::Routed { dest, ttl: m[41], payload }
        }
    } else if flag == FLAG_KEY {
        let rest = vstd::slice::slice_subrange(m, 9, n);
        assert(rest@ =~= b.skip(1));
        match decode_key_announcement(rest) {
            Some((peer, key, ttl)) => {
                proof {
                    assert(rest@.subrange(0, 32) =~= b.subrange(1, 33));
                    assert(rest@.subrange(32, 64) =~= b.subrange(33, 65));
                }
                Frame::Key { peer, key, ttl }
            },
            None => Frame::Truncated,
        }
    } else if flag == FLAG_SEALED {
        if n < 74 {
            Frame::Truncated
        } else {
            let dest = PeerId::from_bytes(array32(m, 9));
            let sender = PeerId::from_bytes(array32(m, 42));
            let sealed = copy_range(m, 74, n);
            proof {
                lemma_id_of(dest);
                lemma_id_of(sender);
                assert(m@.subrange(9, 41) =~= b.subrange(1, 33));
                assert(m@.subrange(42, 74) =~= b.subrange(34, 66));
                assert(sealed@ =~= b.skip(66));
            }
            Frame::Sealed { dest, ttl: m[41], sender, sealed }
        }
    } else {
        Frame::Unknown
    };
    Some((id, frame))
}

/// Reading a message gives back the identifier and the body that it was made of.
proof fn lemma_message_parts(id: u64, body: Seq<u8>)
    requires
        body.len() >= 1,
    ensures
        read_message(message(id, body)) == Some((id, read_body(body))),
{
    law_be_u64_round_trip(id, body);
    assert(message(id, body).skip(8) =~= body);
}

/// A message for the receiver itself reads as its payload.
pub proof fn law_direct_round_trip(id: u64, payload: Seq<u8>)
    ensures
        read_message(message(id, direct_body(payload))) == Some((id, FrameModel::Direct(payload))),
{
    lemma_message_parts(id, direct_body(payload));
    assert(direct_body(payload).skip(1) =~= payload);
}

/// A routed message reads as its destination, its remaining hops and its payload.
pub proof fn law_routed_round_trip(id: u64, dest: PeerId, ttl: u8, payload: Seq<u8>)
    ensures
        read_message(message(id, relay_body(FLAG_ROUTED, dest, ttl, payload))) == Some(
            (id, FrameModel::Routed { dest, ttl, payload }),
        ),
{
    let b = relay_body(FLAG_ROUTED, dest, ttl, payload);
    lemma_peer_id_view(dest, dest);
    lemma_message_parts(id, b);
    lemma_id_of(dest);
    assert(b.subrange(1, 33) =~= dest@);
    assert(b.skip(34) =~= payload);
}

/// A sealed message reads as its destination, its remaining hops, its sender and what is sealed.
pub proof fn law_sealed_round_trip(id: u64, dest: PeerId, ttl: u8, sender: PeerId, sealed: Seq<u8>)
    ensures
        read_message(message(id, relay_body(FLAG_SEALED, dest, ttl, envelope(sender, sealed))))
            == Some((id, FrameModel::Sealed { dest, ttl, sender, sealed })),
{
    let b = relay_body(FLAG_SEALED, dest, ttl, envelope(sender, sealed));
    lemma_peer_id_view(dest, sender);
    lemma_peer_id_view(sender, dest);
    lemma_message_parts(id, b);
    lemma_id_of(dest);
    lemma_id_of(sender);
    assert(b.subrange(1, 33) =~= dest@);
    assert(b.subrange(34, 66) =~= sender@);
    assert(b.skip(66) =~= sealed);
}

/// A key announcement reads as the peer, its key and the remaining hops.
pub proof fn law_key_round_trip(id: u64, peer: PeerId, key: [u8; 32], ttl: u8)
    ensures
        read_message(message(id, key_body(peer, key@, ttl))) == Some(
            (id, FrameModel::Key { peer, key, ttl }),
        ),
        read_announcement(key_body(peer, key@, ttl).skip(1)) == Some((peer, key, ttl)),
{
    let b = key_body(peer, key@, ttl);
    lemma_peer_id_view(peer, peer);
    lemma_message_parts(id, b);
    lemma_id_of(peer);
    lemma_key_of(key);
    assert(b.subrange(1, 33) =~= peer@);
    assert(b.subrange(33, 65) =~= key@);
    assert(b.skip(1).subrange(0, 32) =~= peer@);
    assert(b.skip(1).subrange(32, 64) =~= key@);
}

/// The bytes of what nodes say to each other. A message is its identifier in eight bytes, the most
/// significant first, and its body. A body is a zero and a payload; or a flag, 32 bytes of
/// destination, the hops left, and the content; or a two, 32 bytes of peer, 32 of key, and the hops
/// left.
pub proof fn law_bytes_of_messages(
    id: u64,
    body: Seq<u8>,
    flag: u8,
    peer: PeerId,
    from: PeerId,
    key: Seq<u8>,
    ttl: u8,
    content: Seq<u8>,
)
    ensures
        message(id, body) == be_u64(id) + body,
        direct_body(content) == seq![0u8] + content,
        relay_body(flag, peer, ttl, content) == seq![flag] + peer@ + seq![ttl] + content,
        key_body(peer, key, ttl) == seq![2u8] + peer@ + key + seq![ttl],
        envelope(from, content) == from@ + content,
        FLAG_ROUTED == 1,
        FLAG_SEALED == 3,
        MAX_TTL == 7,
{
}

/// What the bytes of a message say, by the flag that follows its identifier.
pub proof fn law_bytes_read_exactly(m: Seq<u8>)
    ensures
        m.len() < 9 ==> read_message(m) is None,
        m.len() >= 9 ==> (read_message(m) matches Some(pair) && {
            &&& pair.0 == from_be_u64(m)
            &&& m[8] == 0 ==> pair.1 == FrameModel::Direct(m.skip(9))
            &&& m[8] == 1 && m.len() < 42 ==> pair.1 is Truncated
            &&& m[8] == 1 && m.len() >= 42 ==> (pair.1 matches FrameModel::Routed {
                dest,
                ttl,
                payload,
            } && dest@ == m.subrange(9, 41) && ttl == m[41] && payload == m.skip(42))
            &&& (m[8] == 2 || m[8] == 3) && m.len() < 74 ==> pair.1 is Truncated
            &&& m[8] == 3 && m.len() >= 74 ==> (pair.1 matches FrameModel::Sealed {
                dest,
                ttl,
                sender,
                sealed,
            } && dest@ == m.subrange(9, 41) && ttl == m[41] && sender@ == m.subrange(42, 74)
                && sealed == m.skip(74))
            &&& m[8] == 2 && m.len() >= 74 ==> (pair.1 matches FrameModel::Key { peer, key, ttl }
                && peer@ == m.subrange(9, 41) && key == key_of(m.subrange(41, 73)) && ttl == m[73])
            &&& m[8] > 3 ==> pair.1 is Unknown
        }),
{
    if m.len() >= 9 {
        let b = m.skip(8);
        assert(b.skip(1) =~= m.skip(9));
        if m.len() >= 42 {
            assert(b.subrange(1, 33) =~= m.subrange(9, 41));
            assert(b.skip(34) =~= m.skip(42));
            lemma_id_of_bytes(m.subrange(9, 41));
        }
        if m.len() >= 74 {
            assert(b.subrange(33, 65) =~= m.subrange(41, 73));
            assert(b.subrange(34, 66) =~= m.subrange(42, 74));
            assert(b.skip(66) =~= m.skip(74));
            lemma_id_of_bytes(m.subrange(42, 74));
        }
    }
}

/// A key belongs to a peer exactly if the peer's identifier is the digest of the key.
pub proof fn law_certified_exact(peer: PeerId, key: Seq<u8>)
    ensures
        certified(peer, key) <==> peer@ == blake3_digest(key),
{
}

/// The value of what a message says is what it holds.
pub proof fn law_frame_values(dest: PeerId, ttl: u8, key: [u8; 32], from: PeerId, data: Vec<u8>)
    ensures
        Frame::Direct(data)@ == FrameModel::Direct(data@),
        (Frame::Routed { dest, ttl, payload: data })@ == (FrameModel::Routed {
            dest,
            ttl,
            payload: data@,
        }),
        (Frame::Key { peer: dest, key, ttl })@ == (FrameModel::Key { peer: dest, key, ttl }),
        (Frame::Sealed { dest, ttl, sender: from, sealed: data })@ == (FrameModel::Sealed {
            dest,
            ttl,
            sender: from,
            sealed: data@,
        }),
        Frame::Truncated@ is Truncated,
        Frame::Unknown@ is Unknown,
{
}

/// The identifier made of bytes has these bytes, and so has the key.
pub proof fn law_made_of_bytes(p: PeerId, k: [u8; 32], b: Seq<u8>)
    requires
        b.len() == 32,
    ensures
        id_of(p@) == p,
        key_of(k@) == k,
        id_of(b)@ == b,
        read_announcement(b) is None,
{
    lemma_id_of(p);
    lemma_key_of(k);
    lemma_id_of_bytes(b);
}

} // verus!
