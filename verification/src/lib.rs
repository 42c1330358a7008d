//! Verified core of a peer-to-peer mesh messaging library.
//!
//! Every decision the library takes is a function from plain values to plain values with a
//! contract; the asynchronous shell around it performs the input and output those decisions
//! call for.

use vstd::prelude::*;

pub mod addresses;
pub mod advertising;
pub mod arrivals;
pub mod base58;
pub mod ble;
pub mod bundle;
pub mod dedup;
pub mod dispatch;
pub mod error;
pub mod frame;
pub mod hex;
pub mod identity;
pub mod node;
pub mod peers;
pub mod quic;
pub mod reassembly;
pub mod registry;
pub mod router;
pub mod session;
pub mod store;
pub mod table;
pub mod text;
pub mod transit;
pub mod transport;
pub mod wifi_direct;
pub mod wire;

pub use crate::advertising::BleAdvertisingTransport;
pub use crate::ble::BleTransport;
pub use crate::bundle::BundleLayer;
pub use crate::error::PathweaveError;
pub use crate::identity::{NodeIdentity, PeerId};
pub use crate::node::PathweaveNode;
pub use crate::quic::QuicTransport;
pub use crate::registry::KeyRegistryState;
pub use crate::router::Router;
pub use crate::session::Session;
pub use crate::transport::{
    MessageHandler, NodeConfig, PeerAddress, PeerAnnouncement, TransportCost, TransportEvent,
    TransportKind,
};
pub use crate::wifi_direct::WifiDirectTransport;

verus! {

} // verus!
