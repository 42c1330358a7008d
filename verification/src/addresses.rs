//! The address exchange: right after the handshake each side tells the other where else it can
//! be dialled.
//!
//! The frame starts with eight bytes that no message starts with, since the identifier of a
//! message has its high bit set. Then comes one entry per address: its type, the length of its
//! content, and the content.

use vstd::prelude::*;
#[allow(unused_imports)]
use vstd::string::*;
#[allow(unused_imports)]
use vstd::utf8::*;

use crate::peers::address_models;
use crate::transport::{AddressModel, PeerAddress, SocketAddr};
use crate::wire::{copy_range, push_all, u32_from_be, u32_to_be, u64_from_be, u64_to_be};
#[allow(unused_imports)]
use crate::wire::{be_u32, be_u64, from_be_u32, from_be_u64, law_be_u32_round_trip};
#[allow(unused_imports)]
use crate::wire::law_be_u64_round_trip;

verus! {

/// What an address exchange starts with, as a number.
pub const CONTROL_ADDRESSES: u64 = 1;

/// The type of a QUIC address.
pub const ADDR_QUIC: u8 = 0x01;

/// The type of a Bluetooth device.
pub const ADDR_BLE: u8 = 0x02;

/// The type of a Wi-Fi Direct device.
pub const ADDR_WIFI_DIRECT: u8 = 0x03;

/// The type of a short identifier on the Bluetooth advertising medium.
pub const ADDR_BLE_ADVERTISING: u8 = 0x04;

/// The most that the content of an entry can hold.
pub const MAX_CONTENT: usize = 255;

/// The big-endian bytes of a port.
pub open spec fn be_u16(x: u16) -> Seq<u8> {
    seq![(x >> 8) as u8, x as u8]
}

/// The port whose big-endian bytes are the first two of `s`.
pub open spec fn from_be_u16(s: Seq<u8>) -> u16 {
    ((s[0] as u16) << 8) | (s[1] as u16)
}

/// The four bytes of `s` as an array.
pub open spec fn ip4_of(s: Seq<u8>) -> [u8; 4] {
    choose|ip: [u8; 4]| ip@ == s
}

/// The sixteen bytes of `s` as an array.
pub open spec fn ip6_of(s: Seq<u8>) -> [u8; 16] {
    choose|ip: [u8; 16]| ip@ == s
}

/// The content of an entry for an Internet address.
pub open spec fn socket_content(a: SocketAddr) -> Seq<u8> {
    match a {
        SocketAddr::V4 { ip, port } => ip@ + be_u16(port),
        SocketAddr::V6 { ip6, port, flowinfo, scope_id } => ip6@ + be_u16(port) + be_u32(flowinfo)
            + be_u32(scope_id),
    }
}

/// The Internet address that the content of an entry is, if it is one.
pub open spec fn read_socket(c: Seq<u8>) -> Option<SocketAddr> {
    if c.len() == 6 {
        Some(SocketAddr::V4 { ip: ip4_of(c.subrange(0, 4)), port: from_be_u16(c.skip(4)) })
    } else if c.len() == 26 {
        Some(
            SocketAddr::V6 {
                ip6: ip6_of(c.subrange(0, 16)),
                port: from_be_u16(c.skip(16)),
                flowinfo: from_be_u32(c.skip(18)),
                scope_id: from_be_u32(c.skip(22)),
            },
        )
    } else {
        None
    }
}

/// The type of an address.
pub open spec fn addr_type(a: AddressModel) -> u8 {
    match a {
        AddressModel::Quic(_) => ADDR_QUIC,
        AddressModel::Ble(_) => ADDR_BLE,
        AddressModel::WifiDirect(_) => ADDR_WIFI_DIRECT,
        AddressModel::BleAdvertising(_) => ADDR_BLE_ADVERTISING,
    }
}

/// The content of the entry for an address.
pub open spec fn addr_content(a: AddressModel) -> Seq<u8> {
    match a {
        AddressModel::Quic(s) => socket_content(s),
        AddressModel::Ble(d) => encode_utf8(d),
        AddressModel::WifiDirect(d) => encode_utf8(d),
        AddressModel::BleAdvertising(d) => encode_utf8(d),
    }
}

/// Whether the content of the entry for an address has a length that one byte can tell.
pub open spec fn fits(a: AddressModel) -> bool {
    addr_content(a).len() <= MAX_CONTENT
}

/// The entry for an address. An address that does not fit has none.
pub open spec fn entry(a: AddressModel) -> Seq<u8> {
    if fits(a) {
        seq![addr_type(a), addr_content(a).len() as u8] + addr_content(a)
    } else {
        Seq::empty()
    }
}

/// The entries for a list of addresses.
pub open spec fn entries(s: Seq<AddressModel>) -> Seq<u8>
    decreases s.len(),
{
    if s.len() == 0 {
        Seq::empty()
    } else {
        entry(s[0]) + entries(s.skip(1))
    }
}

/// The frame that tells a list of addresses.
pub open spec fn exchange(s: Seq<AddressModel>) -> Seq<u8> {
    be_u64(CONTROL_ADDRESSES) + entries(s)
}

/// The addresses of a list that fit into entries, in order.
pub open spec fn fitting(s: Seq<AddressModel>) -> Seq<AddressModel>
    decreases s.len(),
{
    if s.len() == 0 {
        Seq::empty()
    } else if fits(s[0]) {
        seq![s[0]] + fitting(s.skip(1))
    } else {
        fitting(s.skip(1))
    }
}

/// What an entry says.
pub enum EntryModel {
    Address(AddressModel),
    /// The type is not known.
    Skipped,
    /// The content is not what the type promises.
    Malformed,
}

/// What an entry with this type and content says.
pub open spec fn read_entry(kind: u8, c: Seq<u8>) -> EntryModel {
    if kind == ADDR_QUIC {
        match read_socket(c) {
            Some(a) => EntryModel::Address(AddressModel::Quic(a)),
            None => EntryModel::Malformed,
        }
    } else if kind != ADDR_BLE && kind != ADDR_WIFI_DIRECT && kind != ADDR_BLE_ADVERTISING {
        EntryModel::Skipped
    } else if !valid_utf8(c) {
        EntryModel::Malformed
    } else if kind == ADDR_BLE {
        EntryModel::Address(AddressModel::Ble(decode_utf8(c)))
    } else if kind == ADDR_WIFI_DIRECT {
        EntryModel::Address(AddressModel::WifiDirect(decode_utf8(c)))
    } else {
        EntryModel::Address(AddressModel::BleAdvertising(decode_utf8(c)))
    }
}

/// `s` before what follows, if what follows can be read.
pub open spec fn prepended(s: Seq<AddressModel>, rest: Option<Seq<AddressModel>>) -> Option<
    Seq<AddressModel>,
> {
    match rest {
        Some(t) => Some(s + t),
        None => None,
    }
}

/// The addresses that the entries in `b` tell; nothing if one of them is cut off or malformed.
pub open spec fn read_entries(b: Seq<u8>) -> Option<Seq<AddressModel>>
    decreases b.len(),
{
    if b.len() == 0 {
        Some(Seq::empty())
    } else if b.len() < 2 || b.len() < 2 + b[1] {
        None
    } else {
        let rest = read_entries(b.skip(2 + b[1]));
        match read_entry(b[0], b.subrange(2, 2 + b[1])) {
            EntryModel::Address(a) => prepended(seq![a], rest),
            EntryModel::Skipped => rest,
            EntryModel::Malformed => None,
        }
    }
}

/// The addresses that a frame tells; nothing if it is no address exchange.
pub open spec fn read_exchange(frame: Seq<u8>) -> Option<Seq<AddressModel>> {
    if frame.len() < 8 || from_be_u64(frame) != CONTROL_ADDRESSES {
        None
    } else {
        read_entries(frame.skip(8))
    }
}

/// Whether what arrived first on a session is an address exchange and not a message.
pub open spec fn is_control(first: Seq<u8>) -> bool {
    first.len() >= 8 && first[0] == 0x00
}

/// Calls `String::from_utf8`. Claimed: it succeeds exactly on valid UTF-8, with the text that
/// the bytes encode.
#[verifier::external_body]
fn text_from_utf8(bytes: Vec<u8>) -> (r: Option<String>)
    ensures
        r is Some <==> valid_utf8(bytes@),
        r matches Some(s) ==> s@ == decode_utf8(bytes@),
{
    String::from_utf8(bytes).ok()
}

/// Whether what arrived first on a session is an address exchange and not a message.
pub fn is_addr_exchange(first: &[u8]) -> (r: bool)
    ensures
        r == is_control(first@),
{
    first.len() >= 8 && first[0] == 0x00
}

fn push_u16(dst: &mut Vec<u8>, x: u16)
    ensures
        final(dst)@ == old(dst)@ + be_u16(x),
{
    let ghost before = dst@;
    dst.push((x >> 8) as u8);
    dst.push(x as u8);
    assert(dst@ =~= before + be_u16(x));
}

fn socket_bytes(a: &SocketAddr) -> (out: Vec<u8>)
    ensures
        out@ == socket_content(*a),
        out@.len() <= 26,
{
    let mut out: Vec<u8> = Vec::new();
    match a {
        SocketAddr::V4 { ip, port } => {
            push_all(&mut out, ip);
            push_u16(&mut out, *port);
        },
        SocketAddr::V6 { ip6, port, flowinfo, scope_id } => {
            push_all(&mut out, ip6);
            push_u16(&mut out, *port);
            let f = u32_to_be(*flowinfo);
            push_all(&mut out, &f);
            let s = u32_to_be(*scope_id);
            push_all(&mut out, &s);
        },
    }
    assert(out@ =~= socket_content(*a));
    out
}

fn text_bytes(s: &String) -> (out: Vec<u8>)
    ensures
        out@ == encode_utf8(s@),
{
    let mut out: Vec<u8> = Vec::new();
    push_all(&mut out, s.as_str().as_bytes());
    assert(out@ =~= encode_utf8(s@));
    out
}

/// Builds the frame that tells a list of addresses. An address too long for an entry is left out.
pub fn encode_addr_exchange(addrs: &Vec<PeerAddress>) -> (frame: Vec<u8>)
    ensures
        frame@ == exchange(address_models(addrs@)),
{
    let ghost all = address_models(addrs@);
    let mut frame = u64_to_be(CONTROL_ADDRESSES);
    let mut i: usize = 0;
    proof {
        assert(all.skip(0) =~= all);
        assert(frame@ + entries(all) =~= exchange(all));
    }
    while i < addrs.len()
        invariant
            i <= addrs@.len(),
            all == address_models(addrs@),
            frame@ + entries(all.skip(i as int)) == exchange(all),
        decreases addrs@.len() - i,
    {
        let ghost so_far = frame@;
        let ghost a = all[i as int];
        let (kind, content) = match &addrs[i] {
            PeerAddress::Quic(s) => (ADDR_QUIC, socket_bytes(s)),
            PeerAddress::Ble(s) => (ADDR_BLE, text_bytes(s)),
            PeerAddress::WifiDirect(s) => (ADDR_WIFI_DIRECT, text_bytes(s)),
            PeerAddress::BleAdvertising(s) => (ADDR_BLE_ADVERTISING, text_bytes(s)),
        };
        assert(kind == addr_type(a) && content@ == addr_content(a));
        if content.len() <= MAX_CONTENT {
            frame.push(kind);
            frame.push(content.len() as u8);
            push_all(&mut frame, &content);
        }
        proof {
            assert(frame@ =~= so_far + entry(a));
            assert(all.skip(i as int)[0] == a);
            assert(all.skip(i as int).skip(1) =~= all.skip(i + 1));
            assert(frame@ + entries(all.skip(i + 1)) =~= so_far + entries(all.skip(i as int)));
        }
        i = i + 1;
    }
    assert(frame@ + entries(all.skip(i as int)) =~= frame@);
    frame
}

fn ip4_at(c: &[u8]) -> (ip: [u8; 4])
    requires
        c@.len() >= 4,
    ensures
        ip == ip4_of(c@.subrange(0, 4)),
{
    let ip = [c[0], c[1], c[2], c[3]];
    proof {
        assert(ip@ =~= c@.subrange(0, 4));
        lemma_ip4(ip);
    }
    ip
}

fn ip6_at(c: &[u8]) -> (ip: [u8; 16])
    requires
        c@.len() >= 16,
    ensures
        ip == ip6_of(c@.subrange(0, 16)),
{
    let ip = [
        c[0],
        c[1],
        c[2],
        c[3],
        c[4],
        c[5],
        c[6],
        c[7],
        c[8],
        c[9],
        c[10],
        c[11],
        c[12],
        c[13],
        c[14],
        c[15],
    ];
    proof {
        assert(ip@ =~= c@.subrange(0, 16));
        lemma_ip6(ip);
    }
    ip
}

proof fn lemma_ip4(ip: [u8; 4])
    ensures
        ip4_of(ip@) == ip,
{
    let c = ip4_of(ip@);
    assert(c@ == ip@);
    assert forall|i: int| 0 <= i < 4 implies c[i] == ip[i] by {
        assert(c@[i] == ip@[i]);
    }
    assert(c =~= ip);
}

proof fn lemma_ip6(ip: [u8; 16])
    ensures
        ip6_of(ip@) == ip,
{
    let c = ip6_of(ip@);
    assert(c@ == ip@);
    assert forall|i: int| 0 <= i < 16 implies c[i] == ip[i] by {
        assert(c@[i] == ip@[i]);
    }
    assert(c =~= ip);
}

fn decode_socket(c: &[u8]) -> (r: Option<SocketAddr>)
    ensures
        r == read_socket(c@),
{
    let n: usize = c.len();
    if n == 6 {
        let ip = ip4_at(c);
        let port: u16 = ((c[4] as u16) << 8) | (c[5] as u16);
        Some(SocketAddr::V4 { ip, port })
    } else if n == 26 {
        let ip6 = ip6_at(c);
        let port: u16 = ((c[16] as u16) << 8) | (c[17] as u16);
        let f = vstd::slice::slice_subrange(c, 18, 26);
        let s = vstd::slice::slice_subrange(c, 22, 26);
        assert(f@ =~= c@.skip(18));
        assert(s@ =~= c@.skip(22));
        Some(SocketAddr::V6 { ip6, port, flowinfo: u32_from_be(f), scope_id: u32_from_be(s) })
    } else {
        None
    }
}

/// What an entry says: an address, or that it is to be skipped. Nothing if it is malformed.
fn decode_entry(kind: u8, c: &[u8]) -> (r: Option<Option<PeerAddress>>)
    ensures
        match read_entry(kind, c@) {
            EntryModel::Address(a) => r matches Some(Some(x)) && x@ == a,
            EntryModel::Skipped => r matches Some(None),
            EntryModel::Malformed => r is None,
        },
{
    if kind == ADDR_QUIC {
        return match decode_socket(c) {
            Some(a) => Some(Some(PeerAddress::Quic(a))),
            None => None,
        };
    }
    if kind != ADDR_BLE && kind != ADDR_WIFI_DIRECT && kind != ADDR_BLE_ADVERTISING {
        return Some(None);
    }
    let bytes = copy_range(c, 0, c.len());
    assert(bytes@ =~= c@);
    match text_from_utf8(bytes) {
        Some(text) => {
            let a = if kind == ADDR_BLE {
                PeerAddress::Ble(text)
            } else if kind == ADDR_WIFI_DIRECT {
                PeerAddress::WifiDirect(text)
            } else {
                PeerAddress::BleAdvertising(text)
            };
            Some(Some(a))
        },
        None => None,
    }
}

/// Reads an address exchange.
pub fn decode_addr_exchange(frame: &[u8]) -> (r: Option<Vec<PeerAddress>>)
    ensures
        r is Some <==> read_exchange(frame@) is Some,
        r matches Some(addrs) ==> read_exchange(frame@) == Some(address_models(addrs@)),
{
    let n: usize = frame.len();
    if n < 8 {
        return None;
    }
    if u64_from_be(frame) != CONTROL_ADDRESSES {
        return None;
    }
    let ghost b = frame@.skip(8);
    let mut out: Vec<PeerAddress> = Vec::new();
    let mut pos: usize = 8;
    proof {
        assert(b.skip(0) =~= b);
        lemma_prepend_nothing(read_entries(b));
        assert(address_models(out@) =~= Seq::<AddressModel>::empty());
    }
    while pos < n
        invariant
            8 <= pos <= n,
            n == frame@.len(),
            b == frame@.skip(8),
            read_entries(b) == prepended(address_models(out@), read_entries(b.skip(pos - 8))),
        decreases n - pos,
    {
        let ghost t = b.skip(pos - 8);
        if n - pos < 2 {
            return None;
        }
        let kind: u8 = frame[pos];
        let len: usize = frame[pos + 1] as usize;
        assert(t[0] == kind && t[1] == len);
        if n - pos < 2 + len {
            return None;
        }
        let content = vstd::slice::slice_subrange(frame, pos + 2, pos + 2 + len);
        let ghost before = address_models(out@);
        proof {
            assert(content@ =~= t.subrange(2, 2 + t[1]));
            assert(t.skip(2 + t[1]) =~= b.skip(pos + 2 + len - 8));
        }
        match decode_entry(kind, content) {
            Some(Some(a)) => {
                let ghost m = a@;
                out.push(a);
                proof {
                    let rest = read_entries(b.skip(pos + 2 + len - 8));
                    assert(address_models(out@) =~= before.push(m));
                    if rest is Some {
                        assert(before + (seq![m] + rest->0) =~= before.push(m) + rest->0);
                    }
                }
            },
            Some(None) => {},
            None => {
                return None;
            },
        }
        pos = pos + 2 + len;
    }
    proof {
        assert(b.skip(pos - 8) =~= Seq::<u8>::empty());
        assert(address_models(out@) + Seq::<AddressModel>::empty() =~= address_models(out@));
    }
    Some(out)
}

proof fn lemma_prepend_nothing(rest: Option<Seq<AddressModel>>)
    ensures
        prepended(Seq::empty(), rest) == rest,
{
    if rest is Some {
        assert(Seq::<AddressModel>::empty() + rest->0 =~= rest->0);
    }
}

proof fn lemma_u16(x: u16, rest: Seq<u8>)
    ensures
        from_be_u16(be_u16(x) + rest) == x,
{
    let s = be_u16(x) + rest;
    assert(s[0] == (x >> 8) as u8 && s[1] == x as u8);
    assert(((((x >> 8) as u8) as u16) << 8) | ((x as u8) as u16) == x) by (bit_vector);
}

proof fn lemma_socket(a: SocketAddr)
    ensures
        read_socket(socket_content(a)) == Some(a),
        socket_content(a).len() <= 26,
{
    let c = socket_content(a);
    match a {
        SocketAddr::V4 { ip, port } => {
            assert(c.subrange(0, 4) =~= ip@);
            assert(c.skip(4) =~= be_u16(port) + Seq::<u8>::empty());
            lemma_ip4(ip);
            lemma_u16(port, Seq::empty());
        },
        SocketAddr::V6 { ip6, port, flowinfo, scope_id } => {
            let tail = be_u32(flowinfo) + be_u32(scope_id);
            assert(c.subrange(0, 16) =~= ip6@);
            assert(c.skip(16) =~= be_u16(port) + tail);
            assert(c.skip(18) =~= tail);
            assert(c.skip(22) =~= be_u32(scope_id) + Seq::<u8>::empty());
            lemma_ip6(ip6);
            lemma_u16(port, tail);
            law_be_u32_round_trip(flowinfo, be_u32(scope_id));
            law_be_u32_round_trip(scope_id, Seq::empty());
        },
    }
}

proof fn lemma_entry(a: AddressModel)
    ensures
        read_entry(addr_type(a), addr_content(a)) == EntryModel::Address(a),
{
    match a {
        AddressModel::Quic(s) => {
            lemma_socket(s);
        },
        AddressModel::Ble(d) => {
            encode_utf8_valid_utf8(d);
            encode_utf8_decode_utf8(d);
        },
        AddressModel::WifiDirect(d) => {
            encode_utf8_valid_utf8(d);
            encode_utf8_decode_utf8(d);
        },
        AddressModel::BleAdvertising(d) => {
            encode_utf8_valid_utf8(d);
            encode_utf8_decode_utf8(d);
        },
    }
}

proof fn lemma_entries(s: Seq<AddressModel>)
    ensures
        read_entries(entries(s)) == Some(fitting(s)),
    decreases s.len(),
{
    if s.len() > 0 {
        let a = s[0];
        let rest = entries(s.skip(1));
        lemma_entries(s.skip(1));
        let b = entries(s);
        if fits(a) {
            lemma_entry(a);
            let k = addr_content(a).len() as int;
            assert(b =~= seq![addr_type(a), k as u8] + addr_content(a) + rest);
            assert(b[0] == addr_type(a) && b[1] == k);
            assert(b.subrange(2, 2 + k) =~= addr_content(a));
            assert(b.skip(2 + k) =~= rest);
        } else {
            assert(b =~= rest);
        }
    }
}

/// Reading an address exchange gives back the addresses that it was made of, but for those too
/// long for an entry.
pub proof fn law_addr_exchange_round_trip(s: Seq<AddressModel>)
    ensures
        read_exchange(exchange(s)) == Some(fitting(s)),
        (forall|i: int| 0 <= i < s.len() ==> fits(#[trigger] s[i])) ==> fitting(s) == s,
{
    law_be_u64_round_trip(CONTROL_ADDRESSES, entries(s));
    assert(exchange(s).skip(8) =~= entries(s));
    lemma_entries(s);
    if forall|i: int| 0 <= i < s.len() ==> fits(#[trigger] s[i]) {
        lemma_all_fit(s);
    }
}

proof fn lemma_all_fit(s: Seq<AddressModel>)
    requires
        forall|i: int| 0 <= i < s.len() ==> fits(#[trigger] s[i]),
    ensures
        fitting(s) == s,
    decreases s.len(),
{
    if s.len() > 0 {
        assert forall|i: int| 0 <= i < s.skip(1).len() implies fits(#[trigger] s.skip(1)[i]) by {
            assert(s.skip(1)[i] == s[i + 1]);
        }
        lemma_all_fit(s.skip(1));
        assert(fitting(s) =~= s);
    }
}

/// An address exchange, even one without addresses, is recognised as one.
pub proof fn law_addr_exchange_is_control(s: Seq<AddressModel>)
    ensures
        is_control(exchange(s)),
{
    assert((1u64 >> 56) as u8 == 0u8) by (bit_vector);
    assert(exchange(s)[0] == (CONTROL_ADDRESSES >> 56) as u8);
}

/// Whether what arrived first is an address exchange: it starts with a zero byte and is at least
/// eight bytes long.
pub proof fn law_control_exact(first: Seq<u8>)
    ensures
        is_control(first) <==> first.len() >= 8 && first[0] == 0,
{
}

/// An address exchange starts with the number one in eight bytes; anything else tells no addresses.
pub proof fn law_exchange_starts_with_one(frame: Seq<u8>)
    ensures
        frame.len() < 8 ==> read_exchange(frame) is None,
        frame.len() >= 8 && from_be_u64(frame) != 1 ==> read_exchange(frame) is None,
        frame.len() >= 8 && from_be_u64(frame) == 1 ==> read_exchange(frame) == read_entries(
            frame.skip(8),
        ),
{
}

/// An entry of a type that is not known is skipped, whatever its content is.
pub proof fn law_unknown_entry_skipped(kind: u8, content: Seq<u8>, rest: Seq<u8>)
    requires
        kind == 0 || kind > 4,
        content.len() <= 255,
    ensures
        read_entries(seq![kind, content.len() as u8] + content + rest) == read_entries(rest),
{
    let b = seq![kind, content.len() as u8] + content + rest;
    assert(b[0] == kind && b[1] == content.len());
    assert(b.skip(2 + b[1]) =~= rest);
}

/// An entry that holds a device's text, for a Bluetooth device, a Wi-Fi Direct device or a short
/// identifier, tells that address, and what follows tells the others; bytes that are no text spoil
/// the whole frame.
pub proof fn law_text_entry_read(kind: u8, content: Seq<u8>, rest: Seq<u8>)
    requires
        2 <= kind <= 4,
        content.len() <= 255,
    ensures
        ({
            let b = seq![kind, content.len() as u8] + content + rest;
            let text = decode_utf8(content);
            let a = if kind == 2 {
                AddressModel::Ble(text)
            } else if kind == 3 {
                AddressModel::WifiDirect(text)
            } else {
                AddressModel::BleAdvertising(text)
            };
            &&& !valid_utf8(content) ==> read_entries(b) is None
            &&& valid_utf8(content) ==> (read_entries(rest) matches Some(others) ==> read_entries(b)
                == Some(seq![a] + others))
            &&& read_entries(rest) is None ==> read_entries(b) is None
        }),
{
    let b = seq![kind, content.len() as u8] + content + rest;
    assert(b[0] == kind && b[1] == content.len());
    assert(b.subrange(2, 2 + b[1]) =~= content);
    assert(b.skip(2 + b[1]) =~= rest);
}

/// An entry for an Internet address holds the four bytes of an IPv4 address and two of a port, or
/// the sixteen of an IPv6 address, two of a port, four of a flow and four of a scope, each most
/// significant byte first. Content of any other length spoils the whole frame.
pub proof fn law_socket_entry_read(content: Seq<u8>, rest: Seq<u8>)
    requires
        content.len() <= 255,
    ensures
        ({
            let b = seq![1u8, content.len() as u8] + content + rest;
            &&& content.len() != 6 && content.len() != 26 ==> read_entries(b) is None
            &&& content.len() == 6 ==> (read_socket(content) matches Some(SocketAddr::V4 { ip, port })
                && ip@ == content.subrange(0, 4) && port == 256 * content[4] + content[5])
            &&& content.len() == 6 || content.len() == 26 ==> (read_entries(rest) matches Some(others)
                ==> read_entries(b) == Some(
                seq![AddressModel::Quic(read_socket(content)->0)] + others,
            ))
            &&& read_entries(rest) is None ==> read_entries(b) is None
        }),
{
    let b = seq![1u8, content.len() as u8] + content + rest;
    assert(b[0] == 1 && b[1] == content.len());
    assert(b.subrange(2, 2 + b[1]) =~= content);
    assert(b.skip(2 + b[1]) =~= rest);
    if content.len() == 6 {
        let ip: [u8; 4] = [content[0], content[1], content[2], content[3]];
        assert(ip@ =~= content.subrange(0, 4));
        lemma_ip4(ip);
        let (hi, lo) = (content[4], content[5]);
        assert(((hi as u16) << 8) | (lo as u16) == 256 * hi + lo) by (bit_vector);
        assert(content.skip(4)[0] == hi && content.skip(4)[1] == lo);
    }
}

/// Entries that are cut off tell nothing: one byte alone, or less content than an entry says.
pub proof fn law_cut_entry_refused(b: Seq<u8>)
    ensures
        b.len() == 0 ==> read_entries(b) == Some(Seq::<AddressModel>::empty()),
        b.len() == 1 ==> read_entries(b) is None,
        b.len() >= 2 && b.len() < 2 + b[1] ==> read_entries(b) is None,
{
}

/// The bytes of an entry: the type of the address, the length of its content, the content. Every
/// address whose content is at most 255 bytes long has one.
pub proof fn law_entry_bytes(a: AddressModel)
    ensures
        ({
            let content = match a {
                AddressModel::Quic(s) => socket_content(s),
                AddressModel::Ble(d) => encode_utf8(d),
                AddressModel::WifiDirect(d) => encode_utf8(d),
                AddressModel::BleAdvertising(d) => encode_utf8(d),
            };
            let kind: u8 = match a {
                AddressModel::Quic(_) => 1,
                AddressModel::Ble(_) => 2,
                AddressModel::WifiDirect(_) => 3,
                AddressModel::BleAdvertising(_) => 4,
            };
            &&& fits(a) <==> content.len() <= 255
            &&& content.len() <= 255 ==> entry(a) == seq![kind, content.len() as u8] + content
            &&& content.len() > 255 ==> entry(a) == Seq::<u8>::empty()
        }),
{
}

/// The content of an entry for an Internet address, in bytes.
pub proof fn law_socket_content_bytes(ip: [u8; 4], ip6: [u8; 16], port: u16, flowinfo: u32, scope_id: u32)
    ensures
        socket_content(SocketAddr::V4 { ip, port }) == ip@ + seq![
            (port / 256) as u8,
            (port % 256) as u8,
        ],
        socket_content(SocketAddr::V6 { ip6, port, flowinfo, scope_id }) == ip6@ + seq![
            (port / 256) as u8,
            (port % 256) as u8,
        ] + be_u32(flowinfo) + be_u32(scope_id),
{
    assert((port >> 8) as u8 == (port / 256) as u8 && port as u8 == (port % 256) as u8) by (bit_vector);
    assert(be_u16(port) =~= seq![(port / 256) as u8, (port % 256) as u8]);
}

/// The frame that tells addresses is the number one in eight bytes and the entries of the addresses
/// one after the other.
pub proof fn law_exchange_bytes(a: Seq<AddressModel>, b: Seq<AddressModel>, x: AddressModel)
    ensures
        exchange(a) == be_u64(1) + entries(a),
        entries(a + b) == entries(a) + entries(b),
        entries(seq![x]) == entry(x),
        entries(Seq::<AddressModel>::empty()) == Seq::<u8>::empty(),
        fitting(a + b) == fitting(a) + fitting(b),
        fitting(seq![x]) == if fits(x) {
            seq![x]
        } else {
            Seq::empty()
        },
    decreases a.len(),
{
    let none = Seq::<AddressModel>::empty();
    assert(seq![x].skip(1) =~= none);
    reveal_with_fuel(entries, 2);
    reveal_with_fuel(fitting, 2);
    assert(entries(seq![x]) =~= entry(x));
    assert(fitting(seq![x]) =~= if fits(x) {
        seq![x]
    } else {
        Seq::empty()
    });
    if a.len() == 0 {
        assert(a + b =~= b);
        assert(entries(a) + entries(b) =~= entries(b));
        assert(fitting(a) + fitting(b) =~= fitting(b));
    } else {
        law_exchange_bytes(a.skip(1), b, x);
        assert((a + b).skip(1) =~= a.skip(1) + b);
        assert((a + b)[0] == a[0]);
        assert(entries(a + b) =~= entries(a) + entries(b));
        assert(fitting(a + b) =~= fitting(a) + fitting(b));
    }
}

} // verus!
