//! The encrypted channel: Noise handshakes, transport messages, and one-way sealed messages.

use vstd::prelude::*;
#[allow(unused_imports)]
use vstd::string::*;

use crate::error::{session_error, PathweaveError};
#[allow(unused_imports)]
use crate::hex::hex_of;
use crate::hex::to_hex;
use crate::identity::{
    peer_id_from_public_key, NodeIdentity, PeerId, NOISE_K_PARAMS, NOISE_PARAMS, NOISE_XK_PARAMS,
};
#[allow(unused_imports)]
use crate::identity::{blake3_digest, x25519_public};
use crate::wire::array32;

verus! {

/// The longest message the Noise protocol allows.
pub const NOISE_MSG_MAX: usize = 65535;

/// What the authentication tag adds to a message.
pub const NOISE_TAG_LEN: usize = 16;

/// Announces a handshake in which both sides reveal their keys.
pub const PROTO_XX: u8 = 0x00;

/// Announces a handshake in which the initiator knows the responder's key.
pub const PROTO_XK: u8 = 0x01;

#[verifier::external_type_specification]
#[verifier::external_body]
pub struct ExHandshakeState(snow::HandshakeState);

#[verifier::external_type_specification]
#[verifier::external_body]
pub struct ExTransportState(snow::TransportState);

/// The handshake state that `snow` builds for the side that speaks first, or its complaint.
pub uninterp spec fn noise_initiator(
    params: Seq<char>,
    private: Seq<u8>,
    remote: Option<[u8; 32]>,
) -> Result<snow::HandshakeState, Seq<char>>;

/// The handshake state that `snow` builds for the side that listens first, or its complaint.
pub uninterp spec fn noise_responder(params: Seq<char>, private: Seq<u8>) -> Result<
    snow::HandshakeState,
    Seq<char>,
>;

/// What a handshake state becomes by writing a message, and the message or the complaint, when
/// the system's entropy source yields `entropy`; nothing, if the source fails.
pub uninterp spec fn noise_written(state: snow::HandshakeState, entropy: Seq<u8>) -> (
    snow::HandshakeState,
    Result<Seq<u8>, Seq<char>>,
);

/// What a handshake state becomes by reading a message, and the complaint if it cannot.
pub uninterp spec fn noise_handshake_read(state: snow::HandshakeState, message: Seq<u8>) -> (
    snow::HandshakeState,
    Option<Seq<char>>,
);

/// The other side's static key, once a handshake state knows it.
pub uninterp spec fn noise_remote_static(state: snow::HandshakeState) -> Option<Seq<u8>>;

/// The transport state that a handshake ends in, or the complaint that it has not ended.
pub uninterp spec fn noise_transport(state: snow::HandshakeState) -> Result<
    snow::TransportState,
    Seq<char>,
>;

/// The message that a transport state makes of a plaintext or its complaint, and what the state
/// becomes.
pub uninterp spec fn noise_encrypted(state: snow::TransportState, plaintext: Seq<u8>) -> (
    snow::TransportState,
    Result<Seq<u8>, Seq<char>>,
);

/// The plaintext that a transport state reads from a message or its complaint, and what the
/// state becomes.
pub uninterp spec fn noise_decrypted(state: snow::TransportState, ciphertext: Seq<u8>) -> (
    snow::TransportState,
    Result<Seq<u8>, Seq<char>>,
);

/// The one-way message that the holder of `private` makes of a payload for the holder of the
/// public key `dest`, or the complaint, when the system's entropy source yields `entropy`; nothing,
/// if the source fails.
pub uninterp spec fn noise_k_sealed(
    private: Seq<u8>,
    dest: Seq<u8>,
    payload: Seq<u8>,
    entropy: Seq<u8>,
) -> Result<Seq<u8>, Seq<char>>;

/// What the holder of `private` reads from a one-way message that is said to come from the
/// holder of the public key `sender`, or the complaint about it.
pub uninterp spec fn noise_k_opened(private: Seq<u8>, sender: Seq<u8>, sealed: Seq<u8>) -> Result<
    Seq<u8>,
    Seq<char>,
>;

/// The value of a result that carries text as its error.
pub open spec fn text_error<T>(r: Result<T, String>) -> Result<T, Seq<char>> {
    match r {
        Ok(v) => Ok(v),
        Err(e) => Err(e@),
    }
}

/// The value of a result of bytes that carries text as its error.
pub open spec fn bytes_or_text(r: Result<Vec<u8>, String>) -> Result<Seq<u8>, Seq<char>> {
    match r {
        Ok(v) => Ok(v@),
        Err(e) => Err(e@),
    }
}

/// Whether the state `to` reads nothing but what the state `from` would write: any message that it
/// accepts is the one that `from` makes of the plaintext that is read.
pub open spec fn reads_only_from(to: snow::TransportState, from: snow::TransportState) -> bool {
    forall|c: Seq<u8>|
        (#[trigger] noise_decrypted(to, c)).1 matches Ok(p) ==> noise_encrypted(from, p).1
            == written_as(c)
}

/// Whether, for the next `n` messages in either direction, each of two transport states reads
/// what the other one writes, and nothing but what the other one would write.
pub open spec fn paired_for(n: nat, a: snow::TransportState, b: snow::TransportState) -> bool
    decreases n,
{
    n == 0 || {
        &&& forall|p: Seq<u8>|
            (#[trigger] noise_encrypted(a, p)).1 matches Ok(c) ==> {
                &&& noise_decrypted(b, c).1 == opens_as(p)
                &&& paired_for((n - 1) as nat, noise_encrypted(a, p).0, noise_decrypted(b, c).0)
            }
        &&& forall|p: Seq<u8>|
            (#[trigger] noise_encrypted(b, p)).1 matches Ok(c) ==> {
                &&& noise_decrypted(a, c).1 == opens_as(p)
                &&& paired_for((n - 1) as nat, noise_decrypted(a, c).0, noise_encrypted(b, p).0)
            }
        &&& reads_only_from(b, a)
        &&& reads_only_from(a, b)
    }
}

/// Whether each of two transport states reads whatever the other one writes, and nothing else, as
/// long as messages arrive in order.
pub open spec fn paired(a: snow::TransportState, b: snow::TransportState) -> bool {
    forall|n: nat| #[trigger] paired_for(n, a, b)
}

/// Whether two handshake states that take turns in writing, `w` first, end after `n` messages in
/// two transport states that belong together, each side knowing the other's key.
pub open spec fn completes(
    n: nat,
    w: snow::HandshakeState,
    r: snow::HandshakeState,
    w_key: Seq<u8>,
    r_key: Seq<u8>,
) -> bool
    decreases n,
{
    if n == 0 {
        &&& noise_remote_static(w) == Some(r_key)
        &&& noise_remote_static(r) == Some(w_key)
        &&& noise_transport(w) matches Ok(a) && noise_transport(r) matches Ok(b) && paired(a, b)
    } else {
        forall|e: Seq<u8>|
            (#[trigger] noise_written(w, e)).1 matches Ok(m) ==> {
                &&& noise_handshake_read(r, m).1 is None
                &&& completes(
                    (n - 1) as nat,
                    noise_handshake_read(r, m).0,
                    noise_written(w, e).0,
                    r_key,
                    w_key,
                )
            }
    }
}

/// Whether the other side's key is `key`, now and over the next `n` steps of a handshake, whatever
/// is written or read, accepted or refused.
pub open spec fn names_for(n: nat, state: snow::HandshakeState, key: Seq<u8>) -> bool
    decreases n,
{
    &&& noise_remote_static(state) == Some(key)
    &&& n > 0 ==> {
        &&& forall|e: Seq<u8>|
            names_for((n - 1) as nat, (#[trigger] noise_written(state, e)).0, key)
        &&& forall|m: Seq<u8>|
            names_for((n - 1) as nat, (#[trigger] noise_handshake_read(state, m)).0, key)
    }
}

/// Whether the other side's key is `key`, however a handshake goes on.
pub open spec fn names_key(state: snow::HandshakeState, key: Seq<u8>) -> bool {
    forall|n: nat| #[trigger] names_for(n, state, key)
}

/// Whether an initiator's handshake with the responder that holds the private key `responder`
/// completes in three messages.
pub open spec fn meets(
    state: snow::HandshakeState,
    params: Seq<char>,
    private: Seq<u8>,
    responder: Seq<u8>,
) -> bool {
    noise_responder(params, responder) matches Ok(r) && completes(
        3,
        state,
        r,
        x25519_public(private),
        x25519_public(responder),
    )
}

/// Whether the holder of the private key `responder` is the one that is expected.
pub open spec fn expected(remote: Option<[u8; 32]>, responder: Seq<u8>) -> bool {
    responder.len() == 32 && (remote matches Some(key) ==> key@ == x25519_public(responder))
}

/// Calls `snow::Builder::build_initiator`. Claimed: the state is a function of the arguments, and
/// there is one when the responder's key is given exactly if the pattern needs it. Its handshake
/// with the responder of the same pattern completes in three messages, if that responder is the
/// one that is expected: both sides then know each other's key, each reads what the other writes,
/// and each accepts a message only if it is what the other would make of the plaintext that is
/// read, for the cipher checks the tag that it would write itself. A responder's key that is given
/// is the other side's key however the handshake goes on, for the pattern has no message in which
/// the responder tells it.
#[verifier::external_body]
fn build_initiator(params: &str, private: &[u8], remote: Option<[u8; 32]>) -> (r: Result<
    snow::HandshakeState,
    String,
>)
    requires
        remote is None ==> params@ == NOISE_PARAMS@,
        remote is Some ==> params@ == NOISE_XK_PARAMS@,
        private@.len() == 32,
    ensures
        text_error(r) == noise_initiator(params@, private@, remote),
        r is Ok,
        r matches Ok(state) ==> forall|d: Seq<u8>|
            #[trigger] expected(remote, d) ==> meets(state, params@, private@, d),
        r matches Ok(state) ==> (remote matches Some(key) ==> names_key(state, key@)),
{
    let params = params.parse().map_err(|e: snow::Error| e.to_string())?;
    let builder = snow::Builder::new(params).local_private_key(private).map_err(|e| e.to_string())?;
    let state = match &remote {
        Some(key) => builder.remote_public_key(key).and_then(|b| b.build_initiator()),
        None => builder.build_initiator(),
    };
    state.map_err(|e| e.to_string())
}

/// Calls `snow::Builder::build_responder`. Claimed: there is a state, and it is a function of the
/// arguments.
#[verifier::external_body]
fn build_responder(params: &str, private: &[u8]) -> (r: Result<snow::HandshakeState, String>)
    requires
        params@ == NOISE_PARAMS@ || params@ == NOISE_XK_PARAMS@,
        private@.len() == 32,
    ensures
        text_error(r) == noise_responder(params@, private@),
        r is Ok,
{
    let params = params.parse().map_err(|e: snow::Error| e.to_string())?;
    let builder = snow::Builder::new(params).local_private_key(private).map_err(|e| e.to_string())?;
    builder.build_responder().map_err(|e| e.to_string())
}

/// What writing a message comes to.
pub open spec fn wrote(
    r: Result<Vec<u8>, String>,
    after: snow::HandshakeState,
    outcome: (snow::HandshakeState, Result<Seq<u8>, Seq<char>>),
) -> bool {
    bytes_or_text(r) == outcome.1 && after == outcome.0
}

/// Calls `snow::HandshakeState::write_message` with an empty payload. Claimed: the message, or
/// the complaint, and the state after it are functions of the state before and of what the
/// system's entropy source yields; writing does not change what is known of the other side's key,
/// and a message is at most `limit` bytes long.
#[verifier::external_body]
fn handshake_write(state: &mut snow::HandshakeState, limit: usize) -> (r: Result<Vec<u8>, String>)
    requires
        limit == NOISE_MSG_MAX,
    ensures
        exists|e: Seq<u8>| wrote(r, *final(state), #[trigger] noise_written(*old(state), e)),
        noise_remote_static(*final(state)) == noise_remote_static(*old(state)),
        r matches Ok(message) ==> message@.len() <= limit,
{
    let mut message = vec![0u8; limit];
    let n = state.write_message(&[], &mut message).map_err(|e| e.to_string())?;
    message.truncate(n);
    Ok(message)
}

/// Calls `snow::HandshakeState::read_message` with a buffer of `limit` bytes for the payload,
/// which is dropped. Claimed: whether the message is accepted, and the state after it, is a
/// function of the state before and the message.
#[verifier::external_body]
fn handshake_read(state: &mut snow::HandshakeState, message: &[u8], limit: usize) -> (r: Result<
    (),
    String,
>)
    requires
        limit >= NOISE_MSG_MAX,
    ensures
        *final(state) == noise_handshake_read(*old(state), message@).0,
        r matches Ok(_) ==> noise_handshake_read(*old(state), message@).1 is None,
        r matches Err(e) ==> noise_handshake_read(*old(state), message@).1 == Some(e@),
{
    let mut payload = vec![0u8; limit];
    state.read_message(message, &mut payload).map(|_| ()).map_err(|e| e.to_string())
}

/// Calls `snow::HandshakeState::get_remote_static`. Claimed: the key is a function of the state.
#[verifier::external_body]
fn remote_static(state: &snow::HandshakeState) -> (key: Option<Vec<u8>>)
    ensures
        key is Some <==> noise_remote_static(*state) is Some,
        key matches Some(k) ==> noise_remote_static(*state) == Some(k@) && k@.len() == 32,
{
    state.get_remote_static().map(|k| k.to_vec())
}

/// Calls `snow::HandshakeState::into_transport_mode`. Claimed: the transport state, or the
/// complaint that the handshake has not ended, is a function of the handshake state.
#[verifier::external_body]
fn into_transport(state: snow::HandshakeState) -> (r: Result<snow::TransportState, String>)
    ensures
        text_error(r) == noise_transport(state),
{
    state.into_transport_mode().map_err(|e| e.to_string())
}

/// Calls `snow::TransportState::write_message` with a buffer of `limit` bytes. Claimed: the
/// message, or the complaint, and the state after it are functions of the state before and the
/// plaintext; a message is the tag longer than the plaintext, and a plaintext whose message
/// would exceed the protocol's limit is refused.
#[verifier::external_body]
fn encrypt(state: &mut snow::TransportState, plaintext: &[u8], limit: usize) -> (r: Result<
    Vec<u8>,
    String,
>)
    requires
        limit == NOISE_MSG_MAX,
    ensures
        *final(state) == noise_encrypted(*old(state), plaintext@).0,
        bytes_or_text(r) == noise_encrypted(*old(state), plaintext@).1,
        r matches Ok(message) ==> message@.len() == plaintext@.len() + NOISE_TAG_LEN,
        plaintext@.len() + NOISE_TAG_LEN > NOISE_MSG_MAX ==> r is Err,
{
    let mut message = vec![0u8; limit];
    let n = state.write_message(plaintext, &mut message).map_err(|e| e.to_string())?;
    message.truncate(n);
    Ok(message)
}

/// Calls `snow::TransportState::read_message`. Claimed: the plaintext, or the complaint, and the
/// state after it are functions of the state before and the message; a plaintext is the tag
/// shorter than its message, and a message longer than the protocol's limit is refused.
#[verifier::external_body]
fn decrypt(state: &mut snow::TransportState, ciphertext: &[u8]) -> (r: Result<Vec<u8>, String>)
    ensures
        *final(state) == noise_decrypted(*old(state), ciphertext@).0,
        bytes_or_text(r) == noise_decrypted(*old(state), ciphertext@).1,
        r matches Ok(plaintext) ==> plaintext@.len() + NOISE_TAG_LEN == ciphertext@.len(),
        ciphertext@.len() > NOISE_MSG_MAX ==> r is Err,
{
    let mut plaintext = vec![0u8; ciphertext.len()];
    let n = state.read_message(ciphertext, &mut plaintext).map_err(|e| e.to_string())?;
    plaintext.truncate(n);
    Ok(plaintext)
}

/// The pattern and the announcement of a handshake with a responder whose key is `remote`.
pub open spec fn initiator_params(remote: Option<[u8; 32]>) -> (Seq<char>, u8) {
    match remote {
        Some(_) => (NOISE_XK_PARAMS@, PROTO_XK),
        None => (NOISE_PARAMS@, PROTO_XX),
    }
}

/// A handshake under way.
pub struct Handshake {
    state: snow::HandshakeState,
}

/// What a handshake that ends in `state` establishes: the other side's key and the transport
/// state, or the reason why there is no session.
pub open spec fn established(state: snow::HandshakeState) -> Result<
    (Seq<u8>, snow::TransportState),
    Seq<char>,
> {
    match noise_remote_static(state) {
        None => Err("remote static key unavailable after handshake"@),
        Some(key) => match noise_transport(state) {
            Err(text) => Err(text),
            Ok(transport) => Ok((key, transport)),
        },
    }
}

/// `r` is the session that `outcome` describes, or the error that it describes.
pub open spec fn session_as(
    r: Result<Session, PathweaveError>,
    outcome: Result<(Seq<u8>, snow::TransportState), Seq<char>>,
) -> bool {
    match outcome {
        Ok(pair) => r matches Ok(session) && session.remote_key() == pair.0
            && session.remote_id()@ == blake3_digest(pair.0) && session.transport() == pair.1,
        Err(text) => r matches Err(PathweaveError::Session(m)) && m@ == text,
    }
}

/// A handshake that names a key still does after one more step.
proof fn lemma_steps_keep_key(state: snow::HandshakeState)
    ensures
        forall|key: Seq<u8>, e: Seq<u8>|
            names_key(state, key) ==> #[trigger] names_key(noise_written(state, e).0, key),
        forall|key: Seq<u8>, m: Seq<u8>|
            names_key(state, key) ==> #[trigger] names_key(noise_handshake_read(state, m).0, key),
{
    assert forall|key: Seq<u8>, e: Seq<u8>| names_key(state, key) implies #[trigger] names_key(
        noise_written(state, e).0,
        key,
    ) by {
        assert forall|n: nat| #[trigger] names_for(n, noise_written(state, e).0, key) by {
            assert(names_for(n + 1, state, key));
        }
    }
    assert forall|key: Seq<u8>, m: Seq<u8>| names_key(state, key) implies #[trigger] names_key(
        noise_handshake_read(state, m).0,
        key,
    ) by {
        assert forall|n: nat| #[trigger] names_for(n, noise_handshake_read(state, m).0, key) by {
            assert(names_for(n + 1, state, key));
        }
    }
}

impl Handshake {
    /// The state the handshake is in.
    pub closed spec fn state(&self) -> snow::HandshakeState {
        self.state
    }

    /// Writes the next message: the first or third for the initiator, the second for the
    /// responder.
    pub fn write(&mut self) -> (r: Result<Vec<u8>, PathweaveError>)
        ensures
            exists|entropy: Seq<u8>|
                {
                    let (after, outcome) = #[trigger] noise_written(old(self).state(), entropy);
                    &&& final(self).state() == after
                    &&& match outcome {
                        Ok(message) => r matches Ok(m) && m@ == message,
                        Err(text) => r matches Err(PathweaveError::Session(m)) && m@ == text,
                    }
                },
            noise_remote_static(final(self).state()) == noise_remote_static(old(self).state()),
            r matches Ok(message) ==> message@.len() <= NOISE_MSG_MAX,
            forall|key: Seq<u8>| #[trigger]
                names_key(old(self).state(), key) ==> names_key(final(self).state(), key),
    {
        proof {
            lemma_steps_keep_key(self.state);
        }
        match handshake_write(&mut self.state, NOISE_MSG_MAX) {
            Ok(message) => Ok(message),
            Err(text) => Err(PathweaveError::Session(text)),
        }
    }

    /// Reads the other side's next message.
    pub fn read(&mut self, message: &[u8]) -> (r: Result<(), PathweaveError>)
        ensures
            final(self).state() == noise_handshake_read(old(self).state(), message@).0,
            match noise_handshake_read(old(self).state(), message@).1 {
                None => r is Ok,
                Some(text) => r matches Err(PathweaveError::Session(m)) && m@ == text,
            },
            forall|key: Seq<u8>| #[trigger]
                names_key(old(self).state(), key) ==> names_key(final(self).state(), key),
    {
        proof {
            lemma_steps_keep_key(self.state);
        }
        match handshake_read(&mut self.state, message, NOISE_MSG_MAX) {
            Ok(_) => Ok(()),
            Err(text) => Err(PathweaveError::Session(text)),
        }
    }

    /// Ends the handshake. The session's peer is the one whose key the handshake has shown.
    pub fn finish(self) -> (r: Result<Session, PathweaveError>)
        ensures
            session_as(r, established(self.state())),
            r matches Ok(session) ==> forall|key: Seq<u8>| #[trigger]
                names_key(self.state(), key) ==> session.remote_key() == key,
    {
        proof {
            assert forall|key: Seq<u8>| #[trigger] names_key(
                self.state(),
                key,
            ) implies noise_remote_static(self.state()) == Some(key) by {
                assert(names_for(0, self.state(), key));
            }
        }
        let raw = match remote_static(&self.state) {
            Some(k) => k,
            None => {
                return Err(session_error("remote static key unavailable after handshake"));
            },
        };
        let remote_static_key = array32(raw.as_slice(), 0);
        assert(remote_static_key@ =~= raw@);
        let peer_id = peer_id_from_public_key(&remote_static_key);
        match into_transport(self.state) {
            Ok(state) => Ok(Session { peer_id, remote_static_key, state }),
            Err(text) => Err(PathweaveError::Session(text)),
        }
    }
}

/// The announcement byte that a first message carries.
pub open spec fn announced(prefix: Seq<u8>) -> Result<Seq<char>, Seq<char>> {
    if prefix.len() == 0 {
        Err("missing protocol prefix byte"@)
    } else if prefix[0] == PROTO_XX {
        Ok(NOISE_PARAMS@)
    } else if prefix[0] == PROTO_XK {
        Ok(NOISE_XK_PARAMS@)
    } else {
        Err("unknown protocol prefix: "@ + hex_byte(prefix[0]))
    }
}

/// A byte as `0x` and two hexadecimal digits.
pub open spec fn hex_byte(b: u8) -> Seq<char> {
    "0x"@ + hex_of(seq![b])
}

fn byte_text(b: u8) -> (text: String)
    ensures
        text@ == hex_byte(b),
{
    let digits = to_hex(&[b]);
    assert([b]@ =~= seq![b]);
    String::from_str("0x").concat(digits.as_str())
}

/// An authenticated, encrypted channel to a peer whose identity is known.
pub struct Session {
    peer_id: PeerId,
    remote_static_key: [u8; 32],
    state: snow::TransportState,
}

impl Session {
    /// The peer at the other end.
    pub closed spec fn remote_id(&self) -> PeerId {
        self.peer_id
    }

    /// The static key of the peer at the other end.
    pub closed spec fn remote_key(&self) -> Seq<u8> {
        self.remote_static_key@
    }

    /// The peer's identifier was made from the peer's key.
    pub open spec fn well_formed(&self) -> bool {
        self.remote_id()@ == blake3_digest(self.remote_key())
    }

    /// The state of the two ciphers.
    pub closed spec fn transport(&self) -> snow::TransportState {
        self.state
    }

    /// Starts a handshake as the initiator: with a peer whose key is known if `remote_key` is
    /// given, else with whoever answers. Returns the announcement to send before the first
    /// handshake message.
    pub fn initiate(identity: &NodeIdentity, remote_key: Option<[u8; 32]>) -> (r: Result<
        (Handshake, Vec<u8>),
        PathweaveError,
    >)
        ensures
            match noise_initiator(
                initiator_params(remote_key).0,
                identity.private(),
                remote_key,
            ) {
                Ok(state) => r matches Ok(pair) && pair.0.state() == state && pair.1@ == seq![
                    initiator_params(remote_key).1,
                ],
                Err(text) => r matches Err(PathweaveError::Session(m)) && m@ == text,
            },
            r is Ok,
            r matches Ok(pair) ==> forall|d: Seq<u8>|
                #[trigger] expected(remote_key, d) ==> meets(
                    pair.0.state(),
                    initiator_params(remote_key).0,
                    identity.private(),
                    d,
                ),
            r matches Ok(pair) ==> (remote_key matches Some(key) ==> names_key(
                pair.0.state(),
                key@,
            )),
    {
        proof {
            use_type_invariant(identity);
        }
        let params: &str = if remote_key.is_some() {
            NOISE_XK_PARAMS
        } else {
            NOISE_PARAMS
        };
        let prefix: u8 = if remote_key.is_some() {
            PROTO_XK
        } else {
            PROTO_XX
        };
        match build_initiator(params, identity.private_key_bytes(), remote_key) {
            Ok(state) => {
                let mut announcement: Vec<u8> = Vec::new();
                announcement.push(prefix);
                assert(announcement@ =~= seq![prefix]);
                Ok((Handshake { state }, announcement))
            },
            Err(text) => Err(PathweaveError::Session(text)),
        }
    }

    /// Starts a handshake as the responder to the initiator's announcement.
    pub fn respond(identity: &NodeIdentity, prefix: &[u8]) -> (r: Result<Handshake, PathweaveError>)
        ensures
            match announced(prefix@) {
                Err(text) => r matches Err(PathweaveError::Session(m)) && m@ == text,
                Ok(params) => match noise_responder(params, identity.private()) {
                    Ok(state) => r matches Ok(h) && h.state() == state,
                    Err(text) => r matches Err(PathweaveError::Session(m)) && m@ == text,
                },
            },
            r is Ok <==> announced(prefix@) is Ok,
    {
        proof {
            use_type_invariant(identity);
        }
        if prefix.len() == 0 {
            return Err(session_error("missing protocol prefix byte"));
        }
        let params: &str = if prefix[0] == PROTO_XX {
            NOISE_PARAMS
        } else if prefix[0] == PROTO_XK {
            NOISE_XK_PARAMS
        } else {
            let text = String::from_str("unknown protocol prefix: ").concat(
                byte_text(prefix[0]).as_str(),
            );
            return Err(PathweaveError::Session(text));
        };
        match build_responder(params, identity.private_key_bytes()) {
            Ok(state) => Ok(Handshake { state }),
            Err(text) => Err(PathweaveError::Session(text)),
        }
    }

    /// Encrypts `plaintext` for the peer.
    pub fn send(&mut self, plaintext: &[u8]) -> (r: Result<Vec<u8>, PathweaveError>)
        ensures
            final(self).transport() == noise_encrypted(old(self).transport(), plaintext@).0,
            match noise_encrypted(old(self).transport(), plaintext@).1 {
                Ok(message) => r matches Ok(m) && m@ == message,
                Err(text) => r matches Err(PathweaveError::Session(m)) && m@ == text,
            },
            r matches Ok(m) ==> m@.len() == plaintext@.len() + NOISE_TAG_LEN,
            plaintext@.len() + NOISE_TAG_LEN > NOISE_MSG_MAX ==> r is Err,
            final(self).remote_id() == old(self).remote_id(),
            final(self).remote_key() == old(self).remote_key(),
    {
        match encrypt(&mut self.state, plaintext, NOISE_MSG_MAX) {
            Ok(message) => Ok(message),
            Err(text) => Err(PathweaveError::Session(text)),
        }
    }

    /// Decrypts a message of the peer.
    pub fn recv(&mut self, ciphertext: &[u8]) -> (r: Result<Vec<u8>, PathweaveError>)
        ensures
            final(self).transport() == noise_decrypted(old(self).transport(), ciphertext@).0,
            match noise_decrypted(old(self).transport(), ciphertext@).1 {
                Ok(plaintext) => r matches Ok(p) && p@ == plaintext,
                Err(text) => r matches Err(PathweaveError::Session(m)) && m@ == text,
            },
            r matches Ok(p) ==> p@.len() + NOISE_TAG_LEN == ciphertext@.len(),
            ciphertext@.len() > NOISE_MSG_MAX ==> r is Err,
            final(self).remote_id() == old(self).remote_id(),
            final(self).remote_key() == old(self).remote_key(),
    {
        match decrypt(&mut self.state, ciphertext) {
            Ok(plaintext) => Ok(plaintext),
            Err(text) => Err(PathweaveError::Session(text)),
        }
    }

    /// The peer at the other end.
    pub fn peer_id(&self) -> (id: &PeerId)
        ensures
            *id == self.remote_id(),
    {
        &self.peer_id
    }

    /// The static key of the peer at the other end.
    pub fn remote_static_key(&self) -> (key: &[u8; 32])
        ensures
            key@ == self.remote_key(),
    {
        &self.remote_static_key
    }
}

/// What a sealed message adds to its payload: an ephemeral key and a tag.
pub const SEAL_OVERHEAD: usize = 48;

/// Calls `snow::HandshakeState::write_message` on a fresh initiator for a one-way pattern.
/// Claimed: the message, or the complaint, is a function of the arguments and of what the system's
/// entropy source yields; a sealed message is longer than its payload by the ephemeral key and the
/// tag; a payload whose message would exceed the protocol's limit is refused; and whoever holds a
/// private key that belongs to `dest` reads the payload back from the message, given the public
/// key that belongs to `private`. That there is a message is not claimed of any payload, for the
/// entropy source may fail.
#[verifier::external_body]
fn noise_k_seal(params: &str, private: &[u8], dest: &[u8; 32], payload: &[u8], limit: usize) -> (r:
    Result<Vec<u8>, String>)
    requires
        params@ == NOISE_K_PARAMS@,
        private@.len() == 32,
        limit == NOISE_MSG_MAX,
    ensures
        exists|e: Seq<u8>|
            bytes_or_text(r) == #[trigger] noise_k_sealed(private@, dest@, payload@, e),
        r matches Ok(sealed) ==> sealed@.len() == payload@.len() + SEAL_OVERHEAD,
        r matches Ok(sealed) ==> sealed@.len() <= NOISE_MSG_MAX,
        r matches Ok(sealed) ==> sealed_for(sealed@, x25519_public(private@), dest@, payload@),
{
    let params = params.parse().map_err(|e: snow::Error| e.to_string())?;
    let builder = snow::Builder::new(params).local_private_key(private).map_err(|e| e.to_string())?;
    let builder = builder.remote_public_key(dest).map_err(|e| e.to_string())?;
    let mut state = builder.build_initiator().map_err(|e| e.to_string())?;
    let mut sealed = vec![0u8; limit];
    let n = state.write_message(payload, &mut sealed).map_err(|e| e.to_string())?;
    sealed.truncate(n);
    Ok(sealed)
}

/// Calls `snow::HandshakeState::read_message` on a fresh responder for a one-way pattern.
/// Claimed: the payload, or the complaint, is a function of the arguments.
#[verifier::external_body]
fn noise_k_unseal(params: &str, private: &[u8], sender: &[u8; 32], sealed: &[u8]) -> (r: Result<
    Vec<u8>,
    String,
>)
    requires
        params@ == NOISE_K_PARAMS@,
        private@.len() == 32,
    ensures
        bytes_or_text(r) == noise_k_opened(private@, sender@, sealed@),
{
    let params = params.parse().map_err(|e: snow::Error| e.to_string())?;
    let builder = snow::Builder::new(params).local_private_key(private).map_err(|e| e.to_string())?;
    let builder = builder.remote_public_key(sender).map_err(|e| e.to_string())?;
    let mut state = builder.build_responder().map_err(|e| e.to_string())?;
    let mut payload = vec![0u8; sealed.len()];
    let n = state.read_message(sealed, &mut payload).map_err(|e| e.to_string())?;
    payload.truncate(n);
    Ok(payload)
}

/// A plaintext is written as `message`.
pub open spec fn written_as(message: Seq<u8>) -> Result<Seq<u8>, Seq<char>> {
    Ok(message)
}

/// A sealed message opens as `payload`.
pub open spec fn opens_as(payload: Seq<u8>) -> Result<Seq<u8>, Seq<char>> {
    Ok(payload)
}

/// Whether sealing a payload comes to `r` for some state of the system's entropy source.
pub open spec fn seals_as(
    private: Seq<u8>,
    dest: Seq<u8>,
    payload: Seq<u8>,
    r: Result<Seq<u8>, Seq<char>>,
) -> bool {
    exists|entropy: Seq<u8>| r == #[trigger] noise_k_sealed(private, dest, payload, entropy)
}

/// Seals `payload` so that only the holder of the private key of `dest_public_key` can read it.
pub fn seal(identity: &NodeIdentity, dest_public_key: &[u8; 32], payload: &[u8]) -> (r: Result<
    Vec<u8>,
    PathweaveError,
>)
    ensures
        r matches Ok(sealed) ==> {
            &&& sealed@.len() == payload@.len() + SEAL_OVERHEAD
            &&& sealed@.len() <= NOISE_MSG_MAX
            &&& sealed_for(sealed@, identity.public(), dest_public_key@, payload@)
            &&& seals_as(identity.private(), dest_public_key@, payload@, Ok(sealed@))
        },
        r matches Err(e) ==> e matches PathweaveError::Session(text) && seals_as(
            identity.private(),
            dest_public_key@,
            payload@,
            Err(text@),
        ),
        payload@.len() + SEAL_OVERHEAD > NOISE_MSG_MAX ==> r is Err,
{
    proof {
        use_type_invariant(identity);
    }
    match noise_k_seal(
        NOISE_K_PARAMS,
        identity.private_key_bytes(),
        dest_public_key,
        payload,
        NOISE_MSG_MAX,
    ) {
        Ok(sealed) => Ok(sealed),
        Err(text) => Err(PathweaveError::Session(text)),
    }
}

/// Opens a message that `sender_peer_id` sealed for this node. `sender_public_key` is the key
/// that was looked up for that peer; it alone decides whether the message opens.
pub fn unseal(
    identity: &NodeIdentity,
    sender_peer_id: &PeerId,
    sender_public_key: &[u8; 32],
    sealed: &[u8],
) -> (r: Result<Vec<u8>, PathweaveError>)
    ensures
        match noise_k_opened(identity.private(), sender_public_key@, sealed@) {
            Ok(payload) => r matches Ok(p) && p@ == payload,
            Err(text) => r matches Err(PathweaveError::Session(m)) && m@ == text,
        },
{
    proof {
        use_type_invariant(identity);
    }
    match noise_k_unseal(NOISE_K_PARAMS, identity.private_key_bytes(), sender_public_key, sealed) {
        Ok(payload) => Ok(payload),
        Err(text) => Err(PathweaveError::Session(text)),
    }
}

/// Whether `sealed` is what the holder of the public key `from` made of `payload` for the holder
/// of the public key `to`: every private key that belongs to `to` opens it as `payload`.
pub open spec fn sealed_for(sealed: Seq<u8>, from: Seq<u8>, to: Seq<u8>, payload: Seq<u8>) -> bool {
    forall|d: Seq<u8>|
        d.len() == 32 && #[trigger] x25519_public(d) == to ==> noise_k_opened(d, from, sealed)
            == opens_as(payload)
}

/// What was sealed for a node opens there as the payload that was sealed, given the key of the
/// one who sealed it.
pub proof fn law_unseal_gives_back_what_was_sealed(
    receiver: NodeIdentity,
    sender_public_key: Seq<u8>,
    sealed: Seq<u8>,
    payload: Seq<u8>,
)
    requires
        receiver.well_formed(),
        sealed_for(sealed, sender_public_key, receiver.public(), payload),
    ensures
        noise_k_opened(receiver.private(), sender_public_key, sealed) == opens_as(payload),
{
}

/// What one of two transport states that belong together writes, the other reads as it was, and
/// they still belong together.
pub proof fn law_session_round_trip(a: snow::TransportState, b: snow::TransportState, p: Seq<u8>)
    requires
        paired(a, b),
    ensures
        noise_encrypted(a, p).1 matches Ok(c) ==> {
            &&& noise_decrypted(b, c).1 == opens_as(p)
            &&& paired(noise_encrypted(a, p).0, noise_decrypted(b, c).0)
        },
        noise_encrypted(b, p).1 matches Ok(c) ==> {
            &&& noise_decrypted(a, c).1 == opens_as(p)
            &&& paired(noise_decrypted(a, c).0, noise_encrypted(b, p).0)
        },
{
    assert(paired_for(1, a, b));
    if noise_encrypted(a, p).1 is Ok {
        let c = noise_encrypted(a, p).1->Ok_0;
        assert forall|n: nat| #[trigger]
            paired_for(n, noise_encrypted(a, p).0, noise_decrypted(b, c).0) by {
            assert(paired_for(n + 1, a, b));
        }
    }
    if noise_encrypted(b, p).1 is Ok {
        let c = noise_encrypted(b, p).1->Ok_0;
        assert forall|n: nat| #[trigger]
            paired_for(n, noise_decrypted(a, c).0, noise_encrypted(b, p).0) by {
            assert(paired_for(n + 1, a, b));
        }
    }
}

/// A message that was tampered with is not read as what was sent: of all messages, only the one
/// that was written opens as its plaintext. One that the sender would not have written for any
/// plaintext is refused, and one that is accepted says what the sender would have written it for.
pub proof fn law_tampered_message_refused(
    a: snow::TransportState,
    b: snow::TransportState,
    p: Seq<u8>,
    received: Seq<u8>,
)
    requires
        paired(a, b),
        noise_encrypted(a, p).1 is Ok,
    ensures
        noise_decrypted(b, received).1 == opens_as(p) <==> noise_encrypted(a, p).1 == written_as(
            received,
        ),
        noise_decrypted(b, received).1 matches Ok(q) ==> noise_encrypted(a, q).1 == written_as(
            received,
        ),
        (forall|q: Seq<u8>| #[trigger] noise_encrypted(a, q).1 != written_as(received))
            ==> noise_decrypted(b, received).1 is Err,
{
    assert(paired_for(1, a, b));
    law_session_round_trip(a, b, p);
}

/// What a transport state makes of a list of plaintexts; nothing if it refuses one.
pub open spec fn all_encrypted(a: snow::TransportState, ps: Seq<Seq<u8>>) -> Option<Seq<Seq<u8>>>
    decreases ps.len(),
{
    if ps.len() == 0 {
        Some(Seq::empty())
    } else {
        match noise_encrypted(a, ps[0]).1 {
            Err(_) => None,
            Ok(c) => match all_encrypted(noise_encrypted(a, ps[0]).0, ps.skip(1)) {
                None => None,
                Some(rest) => Some(seq![c] + rest),
            },
        }
    }
}

/// What a transport state reads from a list of messages; nothing if it refuses one.
pub open spec fn all_decrypted(b: snow::TransportState, cs: Seq<Seq<u8>>) -> Option<Seq<Seq<u8>>>
    decreases cs.len(),
{
    if cs.len() == 0 {
        Some(Seq::empty())
    } else {
        match noise_decrypted(b, cs[0]).1 {
            Err(_) => None,
            Ok(p) => match all_decrypted(noise_decrypted(b, cs[0]).0, cs.skip(1)) {
                None => None,
                Some(rest) => Some(seq![p] + rest),
            },
        }
    }
}

/// Any number of messages that arrive in the order in which they were sent are read as they were.
pub proof fn law_messages_arrive_as_sent(
    a: snow::TransportState,
    b: snow::TransportState,
    ps: Seq<Seq<u8>>,
)
    requires
        paired(a, b),
    ensures
        all_encrypted(a, ps) matches Some(cs) ==> all_decrypted(b, cs) == Some(ps),
    decreases ps.len(),
{
    if ps.len() == 0 {
        assert(ps =~= Seq::<Seq<u8>>::empty());
    } else if all_encrypted(a, ps) is Some {
        let p = ps[0];
        law_session_round_trip(a, b, p);
        let c = noise_encrypted(a, p).1->Ok_0;
        let a2 = noise_encrypted(a, p).0;
        let b2 = noise_decrypted(b, c).0;
        law_messages_arrive_as_sent(a2, b2, ps.skip(1));
        let rest = all_encrypted(a2, ps.skip(1))->0;
        let cs = all_encrypted(a, ps)->0;
        assert(cs =~= seq![c] + rest);
        assert(cs.skip(1) =~= rest);
        assert(ps =~= seq![p] + ps.skip(1));
    }
}

/// A session that was opened with an expected key is a session with the holder of that key: however
/// the handshake goes on, what it establishes names the key and nobody else's.
pub proof fn law_expected_key_is_named(state: snow::HandshakeState, key: Seq<u8>)
    requires
        names_key(state, key),
    ensures
        established(state) matches Ok(pair) ==> pair.0 == key,
        forall|e: Seq<u8>| #[trigger] names_key(noise_written(state, e).0, key),
        forall|m: Seq<u8>| #[trigger] names_key(noise_handshake_read(state, m).0, key),
{
    assert(names_for(0, state, key));
    lemma_steps_keep_key(state);
}

/// A handshake whose three messages all get through ends, on both sides, in a session: each side
/// knows the other's key, and each reads what the other writes.
pub proof fn law_handshake_establishes_sessions(
    initiator: snow::HandshakeState,
    responder: snow::HandshakeState,
    initiator_key: Seq<u8>,
    responder_key: Seq<u8>,
    e1: Seq<u8>,
    e2: Seq<u8>,
    e3: Seq<u8>,
)
    requires
        completes(3, initiator, responder, initiator_key, responder_key),
        noise_written(initiator, e1).1 is Ok,
        ({
            let i1 = noise_written(initiator, e1);
            let r1 = noise_handshake_read(responder, i1.1->Ok_0);
            let r2 = noise_written(r1.0, e2);
            let i2 = noise_handshake_read(i1.0, r2.1->Ok_0);
            let i3 = noise_written(i2.0, e3);
            r2.1 is Ok && i3.1 is Ok
        }),
    ensures
        ({
            let i1 = noise_written(initiator, e1);
            let r1 = noise_handshake_read(responder, i1.1->Ok_0);
            let r2 = noise_written(r1.0, e2);
            let i2 = noise_handshake_read(i1.0, r2.1->Ok_0);
            let i3 = noise_written(i2.0, e3);
            let r3 = noise_handshake_read(r2.0, i3.1->Ok_0);
            &&& r1.1 is None
            &&& i2.1 is None
            &&& r3.1 is None
            &&& established(i3.0) matches Ok(mine) && established(r3.0) matches Ok(theirs) && {
                &&& mine.0 == responder_key
                &&& theirs.0 == initiator_key
                &&& paired(theirs.1, mine.1)
            }
        }),
{
    let i1 = noise_written(initiator, e1);
    let m1 = i1.1->Ok_0;
    let r1 = noise_handshake_read(responder, m1);
    let r2 = noise_written(r1.0, e2);
    let m2 = r2.1->Ok_0;
    let i2 = noise_handshake_read(i1.0, m2);
    let i3 = noise_written(i2.0, e3);
    let r3 = noise_handshake_read(r2.0, i3.1->Ok_0);
    assert(completes(2, r1.0, i1.0, responder_key, initiator_key));
    assert(completes(1, i2.0, r2.0, initiator_key, responder_key));
    assert(completes(0, r3.0, i3.0, responder_key, initiator_key));
}

/// What the first byte of a handshake announces: a zero the pattern in which both sides reveal
/// their keys, a one the pattern in which the responder's key is known. Any other byte, or none, is
/// refused.
pub proof fn law_first_byte_announces_pattern(prefix: Seq<u8>)
    ensures
        prefix.len() == 0 ==> announced(prefix) is Err,
        prefix.len() > 0 && prefix[0] == 0 ==> announced(prefix) == Ok::<Seq<char>, Seq<char>>(
            "Noise_XX_25519_ChaChaPoly_BLAKE2s"@,
        ),
        prefix.len() > 0 && prefix[0] == 1 ==> announced(prefix) == Ok::<Seq<char>, Seq<char>>(
            "Noise_XK_25519_ChaChaPoly_BLAKE2s"@,
        ),
        prefix.len() > 0 && prefix[0] > 1 ==> announced(prefix) is Err,
{
}

/// What an initiator announces is what its own pattern is, so a responder that reads the
/// announcement builds the matching side.
pub proof fn law_announcement_matches_pattern(remote: Option<[u8; 32]>, rest: Seq<u8>)
    ensures
        announced(seq![initiator_params(remote).1] + rest) == Ok::<Seq<char>, Seq<char>>(
            initiator_params(remote).0,
        ),
        remote is Some <==> initiator_params(remote).1 == 1,
        remote is None <==> initiator_params(remote).1 == 0,
{
    assert((seq![initiator_params(remote).1] + rest)[0] == initiator_params(remote).1);
}

/// A handshake establishes a session exactly if it has shown the other side's key and has ended,
/// with that key and the ciphers that it ended in.
pub proof fn law_established_exact(state: snow::HandshakeState)
    ensures
        established(state) is Ok <==> noise_remote_static(state) is Some && noise_transport(state)
            is Ok,
        established(state) matches Ok(pair) ==> Some(pair.0) == noise_remote_static(state) && Ok::<
            snow::TransportState,
            Seq<char>,
        >(pair.1) == noise_transport(state),
{
}

/// A sealed message is for the holder of a key exactly if every private key that belongs to it
/// opens it as the payload.
pub proof fn law_sealed_for_exact(
    sealed: Seq<u8>,
    from: Seq<u8>,
    to: Seq<u8>,
    payload: Seq<u8>,
    d: Seq<u8>,
)
    requires
        sealed_for(sealed, from, to, payload),
        d.len() == 32,
        x25519_public(d) == to,
    ensures
        noise_k_opened(d, from, sealed) == Ok::<Seq<u8>, Seq<char>>(payload),
{
}

/// What sealing comes to is what the outside cipher makes of exactly these keys and this payload.
pub proof fn law_seals_as_exact(
    private: Seq<u8>,
    dest: Seq<u8>,
    payload: Seq<u8>,
    r: Result<Seq<u8>, Seq<char>>,
)
    ensures
        seals_as(private, dest, payload, r) <==> exists|e: Seq<u8>|
            r == #[trigger] noise_k_sealed(private, dest, payload, e),
{
}

/// A session is what a handshake has established: the other side's key, the identifier made from
/// it, and the ciphers; and where nothing was established, the error says why.
pub proof fn law_session_exact(
    r: Result<Session, PathweaveError>,
    key: Seq<u8>,
    ciphers: snow::TransportState,
    text: Seq<char>,
)
    ensures
        session_as(r, Ok((key, ciphers))) ==> r is Ok && (r->Ok_0).remote_key() == key && (
        r->Ok_0).remote_id()@ == blake3_digest(key) && (r->Ok_0).transport() == ciphers,
        session_as(r, Err(text)) ==> (r matches Err(PathweaveError::Session(m)) && m@ == text),
{
}

/// The value of a result is what it holds, and a byte is shown as `0x` and two digits.
pub proof fn law_result_values(v: Vec<u8>, e: String, b: u8)
    ensures
        bytes_or_text(Ok(v)) == Ok::<Seq<u8>, Seq<char>>(v@),
        bytes_or_text(Err(e)) == Err::<Seq<u8>, Seq<char>>(e@),
        hex_byte(b) == "0x"@ + hex_of(seq![b]),
{
}

} // verus!
