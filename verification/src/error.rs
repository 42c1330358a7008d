//! The library's error type.

use vstd::prelude::*;
#[allow(unused_imports)]
use vstd::string::*;

use crate::identity::PeerId;

verus! {

/// Everything that can go wrong between handing the library a payload and its delivery.
#[derive(Debug)]
pub enum PathweaveError {
    /// No started transport can reach any known address of the peer.
    NoTransportAvailable,
    /// Every attempt was made and none was confirmed by the receiver.
    DeliveryFailed,
    /// A transport failed, in its own words.
    Transport(String),
    /// The encrypted channel failed, in its own words.
    Session(String),
    /// Bundle framing failed, in its own words.
    Bundle(String),
    /// Key material of the wrong shape.
    InvalidKey,
    /// Nothing to seal a message for this destination with.
    KeyUnknown(PeerId),
    /// An operating system error, in its own words.
    Io(String),
}

impl PathweaveError {
    /// The sentence that describes the error.
    pub open spec fn text(self) -> Seq<char> {
        match self {
            PathweaveError::NoTransportAvailable => "no transport available to reach peer"@,
            PathweaveError::DeliveryFailed =>
                "delivery failed: all retry attempts exhausted without confirmation"@,
            PathweaveError::Transport(m) => "transport error: "@ + m@,
            PathweaveError::Session(m) => "session error: "@ + m@,
            PathweaveError::Bundle(m) => "bundle error: "@ + m@,
            PathweaveError::InvalidKey => "invalid key material"@,
            PathweaveError::KeyUnknown(peer) => "no known key for destination "@ + peer.base58(),
            PathweaveError::Io(m) => m@,
        }
    }

    /// Describes the error in one sentence.
    pub fn message(&self) -> (m: String)
        ensures
            m@ == self.text(),
    {
        match self {
            PathweaveError::NoTransportAvailable => String::from_str(
                "no transport available to reach peer",
            ),
            PathweaveError::DeliveryFailed => String::from_str(
                "delivery failed: all retry attempts exhausted without confirmation",
            ),
            PathweaveError::Transport(m) => String::from_str("transport error: ").concat(
                m.as_str(),
            ),
            PathweaveError::Session(m) => String::from_str("session error: ").concat(m.as_str()),
            PathweaveError::Bundle(m) => String::from_str("bundle error: ").concat(m.as_str()),
            PathweaveError::InvalidKey => String::from_str("invalid key material"),
            PathweaveError::KeyUnknown(peer) => String::from_str(
                "no known key for destination ",
            ).concat(peer.to_base58().as_str()),
            PathweaveError::Io(m) => m.clone(),
        }
    }
}

/// An error of the `Transport` kind that carries `text`.
pub fn transport_error(text: &str) -> (e: PathweaveError)
    ensures
        e matches PathweaveError::Transport(m) && m@ == text@,
{
    PathweaveError::Transport(String::from_str(text))
}

/// An error of the `Session` kind that carries `text`.
pub fn session_error(text: &str) -> (e: PathweaveError)
    ensures
        e matches PathweaveError::Session(m) && m@ == text@,
{
    PathweaveError::Session(String::from_str(text))
}

/// An error of the `Bundle` kind that carries `text`.
pub fn bundle_error(text: &str) -> (e: PathweaveError)
    ensures
        e matches PathweaveError::Bundle(m) && m@ == text@,
{
    PathweaveError::Bundle(String::from_str(text))
}

/// The sentence that describes an error: a fixed one, or a fixed start and what the error carries.
pub proof fn law_error_text_exact(m: String, peer: PeerId)
    ensures
        PathweaveError::NoTransportAvailable.text() == "no transport available to reach peer"@,
        PathweaveError::DeliveryFailed.text()
            == "delivery failed: all retry attempts exhausted without confirmation"@,
        PathweaveError::Transport(m).text() == "transport error: "@ + m@,
        PathweaveError::Session(m).text() == "session error: "@ + m@,
        PathweaveError::Bundle(m).text() == "bundle error: "@ + m@,
        PathweaveError::InvalidKey.text() == "invalid key material"@,
        PathweaveError::KeyUnknown(peer).text() == "no known key for destination "@ + peer.base58(),
        PathweaveError::Io(m).text() == m@,
{
}

} // verus!
