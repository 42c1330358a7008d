//! The Bluetooth transport: how peers are recognised among the devices in range, how their
//! characteristics are found, and how one subscriber at a time is served.

use vstd::prelude::*;
#[allow(unused_imports)]
use vstd::string::*;

use crate::error::{transport_error, PathweaveError};
use crate::hex::short_id;
#[allow(unused_imports)]
use crate::hex::short_id_of;
use crate::identity::PeerId;
use crate::transport::{PeerAddress, PeerAnnouncement, TransportCost, TransportKind};
#[allow(unused_imports)]
use crate::transport::{AddressModel, AnnouncementModel};
use crate::wire::{array8, push_all};

verus! {

/// The service that every node offers.
pub const PATHWEAVE_SERVICE_UUID: u128 = 0x82dfc0bae2b54e65ad11c7238ca545c9;

/// The characteristic that the central writes to.
pub const WRITE_CHAR_UUID: u128 = 0x3439992c84534ca39688639ef5f6f5dc;

/// The characteristic that the peripheral notifies on.
pub const NOTIFY_CHAR_UUID: u128 = 0x6de633788bc34e8788920a9a80efff64;

/// What service data starts with.
pub const ADVERTISEMENT_VERSION: u8 = 0x01;

/// The longest frame.
pub const BLE_MTU: usize = 512;

/// The service data that a node advertises: the version, then its short identifier.
pub open spec fn service_data(id: Seq<u8>) -> Seq<u8> {
    seq![ADVERTISEMENT_VERSION] + id
}

/// Whether service data comes from a node.
pub open spec fn is_service_data(data: Seq<u8>) -> bool {
    data.len() >= 9 && data[0] == ADVERTISEMENT_VERSION
}

/// The service data that the node `peer_id` advertises.
pub fn encode_service_data(peer_id: &PeerId) -> (data: Vec<u8>)
    ensures
        data@ == service_data(short_id_of(*peer_id)),
{
    let id = short_id(peer_id);
    let mut data: Vec<u8> = Vec::new();
    data.push(ADVERTISEMENT_VERSION);
    push_all(&mut data, &id);
    assert(data@ =~= service_data(short_id_of(*peer_id)));
    data
}

/// The short identifier in service data; nothing if the data does not come from a node.
pub fn decode_service_data(data: &[u8]) -> (id: Option<[u8; 8]>)
    ensures
        id is Some <==> is_service_data(data@),
        id matches Some(v) ==> v@ == data@.subrange(1, 9),
{
    if data.len() < 9 || data[0] != ADVERTISEMENT_VERSION {
        return None;
    }
    Some(array8(data, 1))
}

/// What a scan reports of a device.
pub enum ScanEvent {
    /// The device sends service data; `data` is what it sends for the service, if anything.
    ServiceData { device: String, data: Option<Vec<u8>> },
    /// The device offers these services.
    Services { identifier: String, services: Vec<u128> },
    /// Anything else.
    Other,
}

/// Whether `services` has the service that every node offers.
fn offers_service(services: &Vec<u128>) -> (r: bool)
    ensures
        r == services@.contains(PATHWEAVE_SERVICE_UUID),
{
    let mut i: usize = 0;
    while i < services.len()
        invariant
            i <= services@.len(),
            forall|k: int| 0 <= k < i ==> services@[k] != PATHWEAVE_SERVICE_UUID,
        decreases services@.len() - i,
    {
        if services[i] == PATHWEAVE_SERVICE_UUID {
            assert(services@[i as int] == PATHWEAVE_SERVICE_UUID);
            return true;
        }
        i = i + 1;
    }
    false
}

/// The peer that a scan has found, if it has found one. A device that cannot send service data
/// offers the service only; its short identifier is then not known.
pub fn scanned_peer(event: ScanEvent) -> (a: Option<PeerAnnouncement>)
    ensures
        match event {
            ScanEvent::ServiceData { device, data } => {
                &&& a is Some <==> data is Some && is_service_data((data->0)@)
                &&& a matches Some(ann) ==> {
                    &&& ann.address@ == AddressModel::Ble(device@)
                    &&& ann.short_id matches Some(id) && id@ == (data->0)@.subrange(1, 9)
                }
            },
            ScanEvent::Services { identifier, services } => {
                &&& a is Some <==> services@.contains(PATHWEAVE_SERVICE_UUID)
                &&& a matches Some(ann) ==> {
                    &&& ann.address@ == AddressModel::Ble(identifier@)
                    &&& ann.short_id is None
                }
            },
            ScanEvent::Other => a is None,
        },
{
    match event {
        ScanEvent::ServiceData { device, data } => match data {
            Some(d) => match decode_service_data(&d) {
                Some(id) => Some(
                    PeerAnnouncement { address: PeerAddress::Ble(device), short_id: Some(id) },
                ),
                None => None,
            },
            None => None,
        },
        ScanEvent::Services { identifier, services } => {
            if offers_service(&services) {
                Some(PeerAnnouncement { address: PeerAddress::Ble(identifier), short_id: None })
            } else {
                None
            }
        },
        ScanEvent::Other => None,
    }
}

/// What a node advertises is recognised by those who scan, with its short identifier.
pub proof fn law_service_data_round_trip(id: Seq<u8>, rest: Seq<u8>)
    requires
        id.len() == 8,
    ensures
        is_service_data(service_data(id) + rest),
        (service_data(id) + rest).subrange(1, 9) == id,
{
    assert((service_data(id) + rest).subrange(1, 9) =~= id);
}

/// Where a characteristic with this identifier stands in a list, first one first.
fn find_uuid(uuids: &Vec<u128>, uuid: u128) -> (r: Option<usize>)
    ensures
        r is Some <==> uuids@.contains(uuid),
        r matches Some(i) ==> i < uuids@.len() && uuids@[i as int] == uuid && forall|k: int|
            0 <= k < i ==> uuids@[k] != uuid,
{
    let mut i: usize = 0;
    while i < uuids.len()
        invariant
            i <= uuids@.len(),
            forall|k: int| 0 <= k < i ==> uuids@[k] != uuid,
        decreases uuids@.len() - i,
    {
        if uuids[i] == uuid {
            assert(uuids@[i as int] == uuid);
            return Some(i);
        }
        i = i + 1;
    }
    None
}

/// Whether `i` is the first position of `uuid` in a list.
pub open spec fn first_of(uuids: Seq<u128>, uuid: u128, i: int) -> bool {
    &&& 0 <= i < uuids.len()
    &&& uuids[i] == uuid
    &&& forall|k: int| 0 <= k < i ==> uuids[k] != uuid
}

/// The positions of the two characteristics among those of a device.
pub fn find_characteristics(uuids: &Vec<u128>) -> (r: Result<(usize, usize), PathweaveError>)
    ensures
        match r {
            Ok(pair) => first_of(uuids@, WRITE_CHAR_UUID, pair.0 as int) && first_of(
                uuids@,
                NOTIFY_CHAR_UUID,
                pair.1 as int,
            ),
            Err(PathweaveError::Transport(e)) => if !uuids@.contains(WRITE_CHAR_UUID) {
                e@ == "write characteristic not found"@
            } else {
                !uuids@.contains(NOTIFY_CHAR_UUID) && e@ == "notify characteristic not found"@
            },
            _ => false,
        },
{
    match find_uuid(uuids, WRITE_CHAR_UUID) {
        None => Err(transport_error("write characteristic not found")),
        Some(w) => match find_uuid(uuids, NOTIFY_CHAR_UUID) {
            None => Err(transport_error("notify characteristic not found")),
            Some(n) => Ok((w, n)),
        },
    }
}

/// How to write to a characteristic.
#[derive(Clone, Copy, PartialEq, Eq, Structural, Debug)]
pub enum WriteType {
    WithResponse,
    WithoutResponse,
}

/// Writes go without response where the characteristic takes that, else with.
pub fn write_type(without_response: bool) -> (t: WriteType)
    ensures
        t == WriteType::WithoutResponse <==> without_response,
{
    if without_response {
        WriteType::WithoutResponse
    } else {
        WriteType::WithResponse
    }
}

/// A universally unique identifier in the parts in which Windows takes it.
#[derive(Clone, Copy, Debug)]
pub struct Guid {
    pub data1: u32,
    pub data2: u16,
    pub data3: u16,
    pub data4: u64,
}

/// The parts of an identifier.
pub fn uuid_to_guid(uuid: u128) -> (g: Guid)
    ensures
        g.data1 == (uuid >> 96) as u32,
        g.data2 == (uuid >> 80) as u16,
        g.data3 == (uuid >> 64) as u16,
        g.data4 == uuid as u64,
{
    Guid {
        data1: (uuid >> 96) as u32,
        data2: (uuid >> 80) as u16,
        data3: (uuid >> 64) as u16,
        data4: uuid as u64,
    }
}

/// The parts of an identifier make up the identifier.
pub proof fn law_guid_parts(uuid: u128)
    ensures
        uuid == (((uuid >> 96) as u32) as u128) << 96 | (((uuid >> 80) as u16) as u128) << 80 | (((
        uuid >> 64) as u16) as u128) << 64 | ((uuid as u64) as u128),
{
    assert(uuid == (((uuid >> 96) as u32) as u128) << 96 | (((uuid >> 80) as u16) as u128) << 80 | (
    ((uuid >> 64) as u16) as u128) << 64 | ((uuid as u64) as u128)) by (bit_vector);
}

/// What a subscription calls for.
#[derive(Clone, Copy, PartialEq, Eq, Structural, Debug)]
pub enum SubscribeAction {
    /// Open a connection with the subscriber.
    Open,
    /// Another subscriber is being served.
    Ignore,
}

/// What a write calls for.
#[derive(Clone, Copy, PartialEq, Eq, Structural, Debug)]
pub enum WriteAction {
    /// Hand it to the connection.
    Forward,
    /// There is no connection.
    Discard,
}

/// How a node serves subscribers, one at a time.
pub struct PeripheralLoop {
    writer: bool,
    active: bool,
}

/// Whether there is a subscriber to notify, and whether it has a connection.
pub struct PeripheralModel {
    pub writer: bool,
    pub active: bool,
}

impl View for PeripheralLoop {
    type V = PeripheralModel;

    closed spec fn view(&self) -> PeripheralModel {
        PeripheralModel { writer: self.writer, active: self.active }
    }
}

impl PeripheralLoop {
    /// Nobody has subscribed.
    pub fn new() -> (p: Self)
        ensures
            p@ == (PeripheralModel { writer: false, active: false }),
    {
        PeripheralLoop { writer: false, active: false }
    }

    /// Someone subscribes. `in_use` says whether the last connection is still in use. While it
    /// is, nobody else is served.
    pub fn subscribed(&mut self, in_use: bool) -> (a: SubscribeAction)
        ensures
            old(self)@.active && in_use ==> a == SubscribeAction::Ignore && final(self)@
                == old(self)@,
            !(old(self)@.active && in_use) ==> a == SubscribeAction::Open && final(self)@ == (
            PeripheralModel { writer: true, active: true }),
    {
        if self.active && in_use {
            SubscribeAction::Ignore
        } else {
            self.writer = true;
            self.active = true;
            SubscribeAction::Open
        }
    }

    /// The subscriber writes.
    pub fn written(&self) -> (a: WriteAction)
        ensures
            a == WriteAction::Forward <==> self@.active,
    {
        if self.active {
            WriteAction::Forward
        } else {
            WriteAction::Discard
        }
    }

    /// The connection does not take what was written, or it was given up.
    pub fn connection_closed(&mut self)
        ensures
            final(self)@ == (PeripheralModel { active: false, ..old(self)@ }),
    {
        self.active = false;
    }

    /// Whether there is a subscriber to notify of replies.
    pub fn takes_replies(&self) -> (r: bool)
        ensures
            r == self@.writer,
    {
        self.writer
    }

    /// The subscriber could not be notified.
    pub fn notify_failed(&mut self)
        ensures
            final(self)@ == (PeripheralModel { writer: false, active: false }),
    {
        self.writer = false;
        self.active = false;
    }
}

/// The Bluetooth transport.
pub struct BleTransport {
    started: bool,
}

impl BleTransport {
    /// Whether the transport was started.
    pub closed spec fn is_started(&self) -> bool {
        self.started
    }

    /// A transport that was not started.
    pub fn new() -> (t: Self)
        ensures
            !t.is_started(),
    {
        BleTransport { started: false }
    }

    /// Starts the transport on the first of `adapters` adapters.
    pub fn start(&mut self, adapters: usize) -> (r: Result<usize, PathweaveError>)
        ensures
            adapters > 0 ==> r == Ok::<usize, PathweaveError>(0) && final(self).is_started(),
            adapters == 0 ==> {
                &&& r matches Err(PathweaveError::Transport(e)) && e@
                    == "no Bluetooth adapter found"@
                &&& final(self).is_started() == old(self).is_started()
            },
    {
        if adapters == 0 {
            return Err(transport_error("no Bluetooth adapter found"));
        }
        self.started = true;
        Ok(0)
    }

    /// Stops the transport.
    pub fn stop(&mut self)
        ensures
            !final(self).is_started(),
    {
        self.started = false;
    }

    /// Where to dial a peer: its position among the devices in range.
    pub fn connect(&self, peer: &PeerAnnouncement, devices: &Vec<String>) -> (r: Result<
        usize,
        PathweaveError,
    >)
        ensures
            match peer@.address {
                AddressModel::Ble(id) => if !self.is_started() {
                    r matches Err(PathweaveError::Transport(e)) && e@ == "transport not started"@
                } else {
                    match r {
                        Ok(i) => i < devices@.len() && devices@[i as int]@ == id && forall|k: int|
                            0 <= k < i ==> (#[trigger] devices@[k])@ != id,
                        Err(PathweaveError::Transport(e)) => {
                            &&& forall|k: int|
                                0 <= k < devices@.len() ==> (#[trigger] devices@[k])@ != id
                            &&& e@ == "BLE peer "@ + id
                                + " not in scan cache; discover() must complete first"@
                        },
                        _ => false,
                    }
                },
                _ => r matches Err(PathweaveError::Transport(e)) && e@ == "expected BLE address"@,
            },
    {
        let id = match &peer.address {
            PeerAddress::Ble(id) => id,
            _ => {
                return Err(transport_error("expected BLE address"));
            },
        };
        if !self.started {
            return Err(transport_error("transport not started"));
        }
        let mut i: usize = 0;
        while i < devices.len()
            invariant
                i <= devices@.len(),
                self.started,
                peer@.address == AddressModel::Ble(id@),
                forall|k: int| 0 <= k < i ==> (#[trigger] devices@[k])@ != id@,
            decreases devices@.len() - i,
        {
            if devices[i] == *id {
                return Ok(i);
            }
            i = i + 1;
        }
        let text = String::from_str("BLE peer ").concat(id.as_str()).concat(
            " not in scan cache; discover() must complete first",
        );
        Err(PathweaveError::Transport(text))
    }

    /// The error with which waiting for a subscriber ends when none can come.
    pub fn accept_error(&self) -> (e: PathweaveError)
        ensures
            e matches PathweaveError::Transport(m) && m@ == if self.is_started() {
                "peripheral loop ended"@
            } else {
                "transport not started"@
            },
    {
        if self.started {
            transport_error("peripheral loop ended")
        } else {
            transport_error("transport not started")
        }
    }

    /// The longest frame.
    pub fn mtu_hint(&self) -> (n: usize)
        ensures
            n == BLE_MTU,
    {
        BLE_MTU
    }

    /// What using the transport costs.
    pub fn cost(&self) -> (c: TransportCost)
        ensures
            c == TransportCost::Free,
    {
        TransportCost::Free
    }

    /// The kind of the transport.
    pub fn kind(&self) -> (k: TransportKind)
        ensures
            k == TransportKind::Ble,
    {
        TransportKind::Ble
    }
}

/// Service data comes from a node exactly if it starts with a one and has at least eight bytes
/// after it.
pub proof fn law_service_data_exact(data: Seq<u8>, id: Seq<u8>)
    ensures
        is_service_data(data) <==> data.len() >= 9 && data[0] == 1,
        service_data(id).len() == id.len() + 1,
        service_data(id)[0] == 1,
        service_data(id).skip(1) == id,
{
    assert(service_data(id).skip(1) =~= id);
}

/// A position is the first of an identifier exactly if the identifier stands there and nowhere
/// before.
pub proof fn law_first_of_exact(uuids: Seq<u128>, uuid: u128, i: int, j: int)
    requires
        first_of(uuids, uuid, i),
    ensures
        0 <= i < uuids.len(),
        uuids[i] == uuid,
        0 <= j < uuids.len() && uuids[j] == uuid ==> i <= j,
{
}

/// By what nodes recognise each other over Bluetooth, and the longest frame.
pub proof fn law_identifiers()
    ensures
        PATHWEAVE_SERVICE_UUID == 0x82dfc0bae2b54e65ad11c7238ca545c9,
        WRITE_CHAR_UUID == 0x3439992c84534ca39688639ef5f6f5dc,
        NOTIFY_CHAR_UUID == 0x6de633788bc34e8788920a9a80efff64,
        BLE_MTU == 512,
{
}

} // verus!
