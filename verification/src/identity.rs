//! Node identities and the peer identifiers derived from them.

use vstd::prelude::*;

use crate::base58::base58_encode;
#[allow(unused_imports)]
use crate::base58::{
    base58_text, law_base58_injective, law_base58_length, lemma_32_bytes_fit_44_digits,
};
use crate::error::PathweaveError;
use crate::wire::{array32, copy_all, same_bytes};

verus! {

/// Handshake in which both sides reveal their static keys.
pub const NOISE_PARAMS: &'static str = "Noise_XX_25519_ChaChaPoly_BLAKE2s";

/// Handshake in which the initiator already knows the responder's static key.
pub const NOISE_XK_PARAMS: &'static str = "Noise_XK_25519_ChaChaPoly_BLAKE2s";

/// One-way message between two parties that already know each other's static keys.
pub const NOISE_K_PARAMS: &'static str = "Noise_K_25519_ChaChaPoly_BLAKE2s";

/// The BLAKE3 digest of `data`, as `blake3::hash` computes it.
pub uninterp spec fn blake3_digest(data: Seq<u8>) -> Seq<u8>;

/// The X25519 public key of the private key `secret`, as `x25519_dalek` derives it.
pub uninterp spec fn x25519_public(secret: Seq<u8>) -> Seq<u8>;

/// Calls `blake3::hash`. Claimed: the digest is 32 bytes long and is a function of the data.
#[verifier::external_body]
fn blake3_hash(data: &[u8]) -> (digest: [u8; 32])
    ensures
        digest@ == blake3_digest(data@),
{
    *blake3::hash(data).as_bytes()
}

/// Calls `x25519_dalek::PublicKey::from(&StaticSecret)`. Claimed: the public key is 32 bytes
/// long and is a function of the private key.
#[verifier::external_body]
fn x25519_public_key(secret: [u8; 32]) -> (public: [u8; 32])
    ensures
        public@ == x25519_public(secret@),
{
    *x25519_dalek::PublicKey::from(&x25519_dalek::StaticSecret::from(secret)).as_bytes()
}

/// Calls `snow::Builder::generate_keypair`, private key first. Claimed: whatever the system's
/// entropy source hands out, both keys are 32 bytes long and the public key is the X25519 public
/// key of the private one. Which private key comes out is left to chance. Panics when
/// the entropy source fails.
#[verifier::external_body]
fn noise_keypair(params: &str) -> (pair: (Vec<u8>, Vec<u8>))
    requires
        params@ == NOISE_PARAMS@,
    ensures
        pair.0@.len() == 32,
        pair.1@.len() == 32,
        pair.1@ == x25519_public(pair.0@),
{
    let params: snow::params::NoiseParams = params.parse().expect("noise parameters are valid");
    let keypair = snow::Builder::new(params)
        .generate_keypair()
        .expect("keypair generation failed: system entropy unavailable");
    (keypair.private, keypair.public)
}

/// Names a peer: the BLAKE3 digest of its static public key.
#[derive(Clone, Copy, Eq, Hash, Debug)]
pub struct PeerId([u8; 32]);

impl View for PeerId {
    type V = Seq<u8>;

    closed spec fn view(&self) -> Seq<u8> {
        self.0@
    }
}

impl PartialEq for PeerId {
    fn eq(&self, other: &Self) -> (same: bool) {
        proof {
            lemma_peer_id_view(*self, *other);
        }
        same_bytes(&self.0, &other.0)
    }
}

impl vstd::std_specs::cmp::PartialEqSpecImpl for PeerId {
    open spec fn obeys_eq_spec() -> bool {
        true
    }

    open spec fn eq_spec(&self, other: &Self) -> bool {
        *self == *other
    }
}

/// A peer identifier is its 32 bytes and nothing else.
pub broadcast proof fn lemma_peer_id_view(a: PeerId, b: PeerId)
    ensures
        #![trigger a@, b@]
        a@.len() == 32,
        a@ == b@ ==> a == b,
{
    if a@ == b@ {
        assert forall|i: int| 0 <= i < 32 implies a.0[i] == b.0[i] by {
            assert(a.0@[i] == b.0@[i]);
        }
        assert(a.0 =~= b.0);
    }
}

/// Every 32 bytes are an identifier.
pub proof fn lemma_peer_id_of_bytes(b: Seq<u8>)
    requires
        b.len() == 32,
    ensures
        exists|p: PeerId| #[trigger] p@ == b,
{
    let bytes: [u8; 32] = [
        b[0], b[1], b[2], b[3], b[4], b[5], b[6], b[7],
        b[8], b[9], b[10], b[11], b[12], b[13], b[14], b[15],
        b[16], b[17], b[18], b[19], b[20], b[21], b[22], b[23],
        b[24], b[25], b[26], b[27], b[28], b[29], b[30], b[31],
    ];
    assert(bytes@ =~= b);
    assert(PeerId(bytes)@ == b);
}

impl PeerId {
    /// The Base58 form in which a peer identifier is shown to people.
    pub open spec fn base58(self) -> Seq<char> {
        base58_text(self@)
    }

    /// The identifier made of exactly these bytes.
    pub fn from_bytes(bytes: [u8; 32]) -> (id: Self)
        ensures
            id@ == bytes@,
    {
        PeerId(bytes)
    }

    /// The bytes of the identifier.
    pub fn as_bytes(&self) -> (bytes: &[u8; 32])
        ensures
            bytes@ == self@,
    {
        &self.0
    }

    /// The identifier in Base58, which takes 32 to 44 characters.
    pub fn to_base58(&self) -> (text: String)
        ensures
            text@ == self.base58(),
            32 <= text@.len() <= 44,
    {
        proof {
            lemma_32_bytes_fit_44_digits();
            law_base58_length(self@, 44);
        }
        base58_encode(&self.0)
    }

    /// Whether the two identifiers name the same peer.
    pub fn same(&self, other: &PeerId) -> (same: bool)
        ensures
            same == (*self == *other),
    {
        proof {
            lemma_peer_id_view(*self, *other);
        }
        same_bytes(&self.0, &other.0)
    }
}

/// The Base58 form names one peer: different identifiers are shown differently.
pub proof fn law_base58_names_one_peer(a: PeerId, b: PeerId)
    ensures
        a.base58() == b.base58() <==> a == b,
{
    if a.base58() == b.base58() {
        law_base58_injective(a@, b@);
        lemma_peer_id_view(a, b);
    }
}

/// The identifier of the peer that holds `public_key`.
pub fn peer_id_from_public_key(public_key: &[u8]) -> (id: PeerId)
    ensures
        id@ == blake3_digest(public_key@),
{
    PeerId(blake3_hash(public_key))
}

/// A node's static key pair, with the peer identifier that others know it by.
pub struct NodeIdentity {
    private_key: Vec<u8>,
    public_key: Vec<u8>,
    peer_id: PeerId,
}

impl NodeIdentity {
    /// The private key.
    pub closed spec fn private(&self) -> Seq<u8> {
        self.private_key@
    }

    /// The public key.
    pub closed spec fn public(&self) -> Seq<u8> {
        self.public_key@
    }

    /// The identifier under which the node is known.
    pub closed spec fn id(&self) -> PeerId {
        self.peer_id
    }

    /// Both keys are 32 bytes long, the public key belongs to the private one, and the identifier
    /// is the digest of the public key.
    #[verifier::type_invariant]
    pub open spec fn well_formed(self) -> bool {
        &&& self.private().len() == 32
        &&& self.public().len() == 32
        &&& self.public() == x25519_public(self.private())
        &&& self.id()@ == blake3_digest(self.public())
    }

    /// Generates a fresh static key pair. Panics if the system entropy source is unavailable.
    pub fn generate() -> (identity: Self)
        ensures
            identity.private().len() == 32,
            identity.public().len() == 32,
            identity.public() == x25519_public(identity.private()),
            identity.id()@ == blake3_digest(identity.public()),
    {
        let pair = noise_keypair(NOISE_PARAMS);
        let peer_id = peer_id_from_public_key(pair.1.as_slice());
        NodeIdentity { private_key: pair.0, public_key: pair.1, peer_id }
    }

    /// Restores an identity from a previously persisted private key, which has to be exactly
    /// 32 bytes long.
    pub fn from_bytes(private_key: &[u8]) -> (r: Result<Self, PathweaveError>)
        ensures
            private_key@.len() == 32 <==> r is Ok,
            r matches Ok(identity) ==> {
                &&& identity.private() == private_key@
                &&& identity.public().len() == 32
                &&& identity.public() == x25519_public(private_key@)
                &&& identity.id()@ == blake3_digest(x25519_public(private_key@))
            },
            r matches Err(e) ==> e is InvalidKey,
    {
        if private_key.len() != 32 {
            return Err(PathweaveError::InvalidKey);
        }
        let secret = array32(private_key, 0);
        assert(secret@ =~= private_key@);
        let public = x25519_public_key(secret);
        let peer_id = peer_id_from_public_key(&public);
        Ok(NodeIdentity { private_key: copy_all(private_key), public_key: copy_all(&public), peer_id })
    }

    /// The identifier under which the node is known: the digest of its public key.
    pub fn peer_id(&self) -> (id: &PeerId)
        ensures
            *id == self.id(),
            id@ == blake3_digest(self.public()),
    {
        proof {
            use_type_invariant(self);
        }
        &self.peer_id
    }

    /// The public key, which belongs to the private one.
    pub fn public_key(&self) -> (key: &[u8])
        ensures
            key@ == self.public(),
            key@.len() == 32,
            key@ == x25519_public(self.private()),
    {
        proof {
            use_type_invariant(self);
        }
        self.public_key.as_slice()
    }

    /// The private key, for the caller to persist.
    pub fn private_key_bytes(&self) -> (key: &[u8])
        ensures
            key@ == self.private(),
            key@.len() == 32,
    {
        proof {
            use_type_invariant(self);
        }
        self.private_key.as_slice()
    }
}

impl Clone for NodeIdentity {
    fn clone(&self) -> (copy: Self)
        ensures
            copy.private() == self.private(),
            copy.public() == self.public(),
            copy.id() == self.id(),
    {
        proof {
            use_type_invariant(self);
        }
        NodeIdentity {
            private_key: copy_all(self.private_key.as_slice()),
            public_key: copy_all(self.public_key.as_slice()),
            peer_id: self.peer_id,
        }
    }
}

/// A private key determines the identity: two identities with the same private key have the
/// same public key and the same identifier.
pub proof fn law_private_key_determines_identity(a: NodeIdentity, b: NodeIdentity)
    requires
        a.well_formed(),
        b.well_formed(),
        a.private() == b.private(),
    ensures
        a.public() == b.public(),
        a.id() == b.id(),
{
    lemma_peer_id_view(a.id(), b.id());
}

} // verus!
