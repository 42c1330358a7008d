//! Framing of messages as Bundle Protocol bundles, with fragmentation to fit the transport.

use std::collections::HashMap;
use vstd::prelude::*;

use crate::error::{bundle_error, PathweaveError};
use crate::reassembly::{cut_payload, PendingBundle};
#[allow(unused_imports)]
use crate::reassembly::{
    collects, cut, fragment_views, has_all, in_order, is_cut, joined, law_complete_exactly_with_all_pieces,
    law_cut_is_cut, law_piece_joins_collection, Fragment, PendingModel,
};

verus! {

broadcast use vstd::std_specs::hash::group_hash_axioms;

/// The endpoint every bundle is addressed from and to: the link carries one conversation.
pub const PW_NODE: &'static str = "pathweave/local";

/// How long a bundle lives, in seconds.
pub const BUNDLE_LIFETIME: u64 = 3600;

/// Creation time of every bundle; bundles of one connection differ in their sequence number.
pub const DTN_TIME_EPOCH: u64 = 0;

/// Control flags of a bundle that is whole.
pub const BUNDLE_IS_WHOLE: u64 = 0;

/// Control flags of a bundle that is a fragment.
pub const BUNDLE_IS_FRAGMENT: u64 = 1;

/// What the library reads of a received bundle.
pub struct ParsedBundle {
    pub fragment: bool,
    pub seq: u64,
    pub offset: u64,
    pub total: u64,
    pub payload: Option<Vec<u8>>,
}

/// The value of a parsed bundle.
pub struct BundleFields {
    pub fragment: bool,
    pub seq: u64,
    pub offset: u64,
    pub total: u64,
    pub payload: Option<Seq<u8>>,
}

impl View for ParsedBundle {
    type V = BundleFields;

    open spec fn view(&self) -> BundleFields {
        BundleFields {
            fragment: self.fragment,
            seq: self.seq,
            offset: self.offset,
            total: self.total,
            payload: match self.payload {
                Some(p) => Some(p@),
                None => None,
            },
        }
    }
}

/// The CBOR bytes that `bp7` writes for a bundle from `node` to `node` without checksums, with
/// the given lifetime in seconds, creation time, sequence number, control flags, fragment offset
/// and total length, and with `payload` as its only block.
pub uninterp spec fn bundle_cbor(
    node: Seq<char>,
    lifetime: u64,
    time: u64,
    seq: u64,
    flags: u64,
    offset: u64,
    total: u64,
    payload: Seq<u8>,
) -> Seq<u8>;

/// What `bp7` reads from the bytes of a bundle, or its complaint about them.
pub uninterp spec fn bundle_parsed(raw: Seq<u8>) -> Result<BundleFields, Seq<char>>;

/// How many bytes a CBOR length takes.
pub open spec fn cbor_head_len(n: int) -> int {
    if n < 24 {
        1
    } else if n < 0x100 {
        2
    } else if n < 0x1_0000 {
        3
    } else if n < 0x1_0000_0000 {
        5
    } else {
        9
    }
}

/// How many bytes a payload of `n` bytes takes in a bundle, with its length.
pub open spec fn piece_len(n: int) -> int {
    n + cbor_head_len(n)
}

/// What is read back from a bundle that was written with these arguments. Offset and total
/// length are written for fragments only.
pub open spec fn written_fields(
    seq: u64,
    flags: u64,
    offset: u64,
    total: u64,
    payload: Seq<u8>,
) -> BundleFields {
    if flags % 2 == 1 {
        fragment_fields(seq, total, (offset, payload))
    } else {
        whole_fields(seq, payload)
    }
}

/// A frame is read as a bundle with these fields.
pub open spec fn reads_as(fields: BundleFields) -> Result<BundleFields, Seq<char>> {
    Ok(fields)
}

/// What is read from a frame that carries `payload` whole.
pub open spec fn whole_fields(seq: u64, payload: Seq<u8>) -> BundleFields {
    BundleFields { fragment: false, seq, offset: 0, total: 0, payload: Some(payload) }
}

/// Calls `bp7::bundle::Bundle::to_cbor` on a bundle built from the arguments. Claimed: the bytes
/// are a function of the arguments; `Bundle::try_from` reads the sequence number, the payload
/// and, of a fragment, the offset and the total length back from them; the lengths of two
/// fragments of one bundle differ by what their offsets and their payloads, with the lengths of
/// these, take and by nothing else; and a fragment is longer than a whole bundle with the same
/// payload.
/// Building cannot fail, because an endpoint with a name is never the null endpoint.
#[verifier::external_body]
fn encode_bundle(
    node: &str,
    lifetime: u64,
    time: u64,
    seq: u64,
    flags: u64,
    offset: u64,
    total: u64,
    payload: &[u8],
) -> (cbor: Vec<u8>)
    requires
        node@ == PW_NODE@,
        lifetime == BUNDLE_LIFETIME,
        time == DTN_TIME_EPOCH,
        flags == BUNDLE_IS_WHOLE || flags == BUNDLE_IS_FRAGMENT,
    ensures
        cbor@ == bundle_cbor(node@, lifetime, time, seq, flags, offset, total, payload@),
        bundle_parsed(cbor@) == reads_as(written_fields(seq, flags, offset, total, payload@)),
        flags == 1 ==> forall|o: u64, c: Seq<u8>|
            cbor@.len() + cbor_head_len(o as int) + piece_len(c.len() as int)
                == #[trigger] bundle_cbor(
                node@,
                lifetime,
                time,
                seq,
                flags,
                o,
                total,
                c,
            ).len() + cbor_head_len(offset as int) + piece_len(payload@.len() as int),
        flags == 1 ==> cbor@.len() > bundle_cbor(
            node@,
            lifetime,
            time,
            seq,
            0,
            0,
            0,
            payload@,
        ).len(),
{
    let eid = bp7::eid::EndpointID::with_dtn(node).expect("a named endpoint is valid");
    let primary = bp7::primary::PrimaryBlockBuilder::default()
        .bundle_control_flags(flags)
        .destination(eid.clone())
        .source(eid)
        .report_to(bp7::eid::EndpointID::none())
        .creation_timestamp(bp7::dtntime::CreationTimestamp::with_time_and_seq(time, seq))
        .lifetime(std::time::Duration::from_secs(lifetime))
        .fragmentation_offset(offset).total_data_length(total)
        .build().expect("the destination is a named endpoint");
    let block = bp7::canonical::new_payload_block(bp7::flags::BlockControlFlags::empty(), payload.to_vec());
    let mut bundle = bp7::bundle::Bundle::new(primary, vec![block]);
    bundle.set_crc(bp7::crc::CRC_NO);
    bundle.sort_canonicals();
    bundle.to_cbor()
}

/// Calls `bp7::bundle::Bundle::try_from`. Claimed: what is read from the bytes, or the complaint
/// about them, is a function of the bytes.
#[verifier::external_body]
fn decode_bundle(raw: &[u8]) -> (r: Result<ParsedBundle, String>)
    ensures
        parsed_view(r) == bundle_parsed(raw@),
{
    match bp7::bundle::Bundle::try_from(raw) {
        Ok(b) => Ok(ParsedBundle {
            fragment: b.primary.has_fragmentation(),
            seq: b.primary.creation_timestamp.seqno(),
            offset: b.primary.fragmentation_offset,
            total: b.primary.total_data_length,
            payload: b.payload().cloned(),
        }),
        Err(e) => Err(e.to_string()),
    }
}

/// The frame that carries `payload` whole.
pub open spec fn whole_frame(seq: u64, payload: Seq<u8>) -> Seq<u8> {
    bundle_cbor(PW_NODE@, BUNDLE_LIFETIME, DTN_TIME_EPOCH, seq, BUNDLE_IS_WHOLE, 0, 0, payload)
}

/// The frame that carries one piece of a payload of `total` bytes.
pub open spec fn fragment_frame(seq: u64, total: u64, f: Fragment) -> Seq<u8> {
    bundle_cbor(
        PW_NODE@,
        BUNDLE_LIFETIME,
        DTN_TIME_EPOCH,
        seq,
        BUNDLE_IS_FRAGMENT,
        f.0,
        total,
        f.1,
    )
}

/// How many bytes a fragment of a payload of `total` bytes is longer than its piece, at most: as
/// many as an empty one at the end of the payload, whose offset is the greatest there can be, with
/// a length as long as that of the whole payload.
pub open spec fn frame_overhead(seq: u64, total: u64) -> int {
    fragment_frame(seq, total, (total, Seq::empty())).len() + cbor_head_len(total as int) - 1
}

/// Whether `room` is the greatest number of bytes that, with their length, take no more than
/// `spare` bytes; zero, if there is none.
pub open spec fn is_room(room: int, spare: int) -> bool {
    &&& room >= 0
    &&& forall|n: int| n > 0 ==> (#[trigger] piece_len(n) <= spare <==> n <= room)
}

/// The greatest number of bytes that, with their length, take no more than `spare` bytes.
pub open spec fn greatest_room(spare: int) -> int {
    choose|room: int| is_room(room, spare)
}

/// How many payload bytes fit into each fragment, if a fragment of a payload of `total` bytes is
/// at most `overhead` bytes longer than its piece. These allow for a length as long as that of
/// the whole payload; a piece with a shorter length has that much more room.
pub open spec fn room_for(mtu: int, overhead: int, total: int) -> int {
    greatest_room(mtu - (overhead - cbor_head_len(total)))
}

/// How many payload bytes fit into each fragment of a payload of `total` bytes.
pub open spec fn fragment_room(seq: u64, total: u64, mtu: int) -> int {
    room_for(mtu, frame_overhead(seq, total), total as int)
}

/// Whether `payload` has to be cut to fit. An `mtu` of zero stands for no limit.
pub open spec fn must_cut(seq: u64, payload: Seq<u8>, mtu: int) -> bool {
    mtu != 0 && whole_frame(seq, payload).len() > mtu
}

/// The frames in which `payload` travels.
pub open spec fn frames_for(seq: u64, payload: Seq<u8>, mtu: int) -> Seq<Seq<u8>> {
    let total = payload.len() as u64;
    if must_cut(seq, payload, mtu) {
        cut(payload, fragment_room(seq, total, mtu)).map_values(
            |f: Fragment| fragment_frame(seq, total, f),
        )
    } else {
        seq![whole_frame(seq, payload)]
    }
}

/// What is read from a frame that carries the piece `f` of a payload of `total` bytes.
pub open spec fn fragment_fields(seq: u64, total: u64, f: Fragment) -> BundleFields {
    BundleFields { fragment: true, seq, offset: f.0, total, payload: Some(f.1) }
}

/// `frames` are bundles numbered `seq` that carry the pieces `c`, one each.
pub open spec fn carries_pieces(
    frames: Seq<Seq<u8>>,
    seq: u64,
    payload: Seq<u8>,
    c: Seq<Fragment>,
) -> bool {
    &&& payload.len() <= u64::MAX
    &&& is_cut(c, payload)
    &&& c.len() > 0
    &&& frames.len() == c.len()
    &&& forall|i: int|
        0 <= i < frames.len() ==> bundle_parsed(#[trigger] frames[i]) == reads_as(
            fragment_fields(seq, payload.len() as u64, c[i]),
        )
}

/// `frames` is one bundle numbered `seq` that carries `payload` whole.
pub open spec fn carries_whole(frames: Seq<Seq<u8>>, seq: u64, payload: Seq<u8>) -> bool {
    &&& frames.len() == 1
    &&& bundle_parsed(frames[0]) == reads_as(whole_fields(seq, payload))
}

/// `frames` are bundles numbered `seq` from which a receiver can put `payload` together.
pub open spec fn carries(frames: Seq<Seq<u8>>, seq: u64, payload: Seq<u8>) -> bool {
    ||| carries_whole(frames, seq, payload)
    ||| exists|c: Seq<Fragment>| carries_pieces(frames, seq, payload, c)
}

/// The views of a list of byte strings.
pub open spec fn byte_views(s: Seq<Vec<u8>>) -> Seq<Seq<u8>> {
    s.map_values(|v: Vec<u8>| v@)
}

/// The frame that carries `payload` whole.
fn encode_whole(seq: u64, payload: &[u8]) -> (frame: Vec<u8>)
    ensures
        frame@ == whole_frame(seq, payload@),
        carries_whole(seq![frame@], seq, payload@),
{
    encode_bundle(
        PW_NODE,
        BUNDLE_LIFETIME,
        DTN_TIME_EPOCH,
        seq,
        BUNDLE_IS_WHOLE,
        0,
        0,
        payload,
    )
}

/// The frame that carries one piece of a payload of `total` bytes.
fn encode_fragment(seq: u64, total: u64, offset: u64, piece: &[u8]) -> (frame: Vec<u8>)
    ensures
        frame@ == fragment_frame(seq, total, (offset, piece@)),
        bundle_parsed(frame@) == reads_as(fragment_fields(seq, total, (offset, piece@))),
        forall|o: u64, c: Seq<u8>|
            frame@.len() + cbor_head_len(o as int) + piece_len(c.len() as int)
                == (#[trigger] fragment_frame(seq, total, (o, c))).len() + cbor_head_len(
                offset as int,
            ) + piece_len(piece@.len() as int),
        frame@.len() > whole_frame(seq, piece@).len(),
{
    encode_bundle(
        PW_NODE,
        BUNDLE_LIFETIME,
        DTN_TIME_EPOCH,
        seq,
        BUNDLE_IS_FRAGMENT,
        offset,
        total,
        piece,
    )
}

/// How many bytes a CBOR length takes.
fn length_len(n: u64) -> (r: u128)
    ensures
        r == cbor_head_len(n as int),
{
    if n < 24 {
        1
    } else if n < 0x100 {
        2
    } else if n < 0x1_0000 {
        3
    } else if n < 0x1_0000_0000 {
        5
    } else {
        9
    }
}

/// How many bytes a fragment of a payload of `total_len` bytes is longer than its piece, at most:
/// no fragment of the payload takes more.
pub fn fragment_header_overhead(seq: u64, total_len: u64) -> (n: u128)
    ensures
        n == frame_overhead(seq, total_len),
        forall|o: u64, c: Seq<u8>|
            o + c.len() <= total_len ==> (#[trigger] fragment_frame(
                seq,
                total_len,
                (o, c),
            )).len() <= n + c.len(),
        n > whole_frame(seq, Seq::empty()).len(),
        n >= cbor_head_len(total_len as int),
{
    let nothing: [u8; 0] = [];
    let frame = encode_fragment(seq, total_len, total_len, &nothing);
    assert(nothing@ =~= Seq::<u8>::empty());
    frame.len() as u128 + length_len(total_len) - 1
}

/// There is one greatest number of bytes.
proof fn lemma_room_unique(a: int, b: int, spare: int)
    requires
        is_room(a, spare),
        is_room(b, spare),
    ensures
        a == b,
{
    if a < b {
        assert(piece_len(b) <= spare);
    }
    if b < a {
        assert(piece_len(a) <= spare);
    }
}

/// There is a greatest number of bytes that fit.
pub proof fn law_room_is_greatest(spare: int)
    ensures
        is_room(greatest_room(spare), spare),
{
    let room = if spare < 2 {
        0
    } else if spare < 25 {
        spare - 1
    } else if spare < 26 {
        23
    } else if spare < 0x102 {
        spare - 2
    } else if spare < 0x103 {
        0xff
    } else if spare < 0x1_0003 {
        spare - 3
    } else if spare < 0x1_0005 {
        0xffff
    } else if spare < 0x1_0000_0005 {
        spare - 5
    } else if spare < 0x1_0000_0009 {
        0xffff_ffff
    } else {
        spare - 9
    };
    assert(is_room(room, spare));
}

/// There is room for payload in a fragment exactly if an empty one is shorter than the limit.
pub proof fn law_room_beside_framing(seq: u64, total: u64, mtu: int)
    ensures
        fragment_room(seq, total, mtu) > 0 <==> mtu > fragment_frame(
            seq,
            total,
            (total, Seq::empty()),
        ).len(),
{
    let spare = mtu - (frame_overhead(seq, total) - cbor_head_len(total as int));
    law_room_is_greatest(spare);
    assert(piece_len(1) <= spare <==> 1 <= greatest_room(spare));
}

/// How many payload bytes fit into each fragment, if a fragment of a payload of `total_len` bytes
/// is at most `overhead` bytes longer than its piece.
pub fn payload_room(mtu: usize, overhead: u128, total_len: u64) -> (room: usize)
    requires
        overhead >= cbor_head_len(total_len as int),
    ensures
        room == room_for(mtu as int, overhead as int, total_len as int),
        is_room(room as int, mtu - (overhead - cbor_head_len(total_len as int))),
{
    let fixed: u128 = overhead - length_len(total_len);
    let limit: u128 = mtu as u128;
    let room: usize = if limit <= fixed {
        0
    } else {
        let spare: usize = (limit - fixed) as usize;
        if spare < 25 {
            spare - 1
        } else if spare < 26 {
            23
        } else if spare < 0x102 {
            spare - 2
        } else if spare < 0x103 {
            0xff
        } else if spare < 0x1_0003 {
            spare - 3
        } else if spare < 0x1_0005 {
            0xffff
        } else if (spare as u64) < 0x1_0000_0005 {
            spare - 5
        } else if (spare as u64) < 0x1_0000_0009 {
            0xffff_ffff
        } else {
            spare - 9
        }
    };
    proof {
        let spare = mtu - (overhead - cbor_head_len(total_len as int));
        assert(is_room(room as int, spare));
        lemma_room_unique(
            room as int,
            room_for(mtu as int, overhead as int, total_len as int),
            spare,
        );
    }
    room
}

/// The sequence number after `seq`; after the last one comes the first.
pub open spec fn next_number(seq: u64) -> u64 {
    if seq == u64::MAX {
        0
    } else {
        (seq + 1) as u64
    }
}

/// What receiving a frame gives.
pub enum Received {
    /// The rest of a fragmented payload is still to come.
    More,
    /// A payload is there.
    Payload(Seq<u8>),
    /// The frame is not a bundle, or one without payload.
    Failed(Seq<char>),
}

/// The fragmented payloads of which not everything has arrived, by sequence number.
pub type PendingMap = Map<u64, PendingModel>;

/// What is pending after one more fragment, and what receiving it gives.
pub open spec fn with_piece(
    pending: PendingMap,
    seq: u64,
    offset: u64,
    total: u64,
    chunk: Seq<u8>,
) -> (PendingMap, Received) {
    let before = if pending.dom().contains(seq) {
        pending[seq]
    } else {
        PendingModel::empty(total)
    };
    let after = before.with(offset, chunk);
    if after.complete() {
        (pending.remove(seq), Received::Payload(joined(after.fragments)))
    } else {
        (pending.insert(seq, after), Received::More)
    }
}

/// What is pending after a frame was read as `parsed`, and what receiving it gives.
pub open spec fn receive(pending: PendingMap, parsed: Result<BundleFields, Seq<char>>) -> (
    PendingMap,
    Received,
) {
    match parsed {
        Err(text) => (pending, Received::Failed(text)),
        Ok(b) => match b.payload {
            None => (
                pending,
                Received::Failed(
                    if b.fragment {
                        "fragment missing payload"@
                    } else {
                        "bundle missing payload"@
                    },
                ),
            ),
            Some(p) => if b.fragment {
                with_piece(pending, b.seq, b.offset, b.total, p)
            } else {
                (pending, Received::Payload(p))
            },
        },
    }
}

/// Splits messages into frames that fit the transport, and puts received frames together.
pub struct BundleLayer {
    seq: u64,
    pending: HashMap<u64, PendingBundle>,
}

impl BundleLayer {
    /// The sequence number of the next message.
    pub closed spec fn next_seq(&self) -> u64 {
        self.seq
    }

    /// What has arrived of messages that are not complete.
    pub closed spec fn pending(&self) -> PendingMap {
        self.pending@.map_values(|p: PendingBundle| p@)
    }

    /// A layer for a fresh connection.
    pub fn new() -> (layer: Self)
        ensures
            layer.next_seq() == 0,
            layer.pending() == Map::<u64, PendingModel>::empty(),
    {
        let layer = BundleLayer { seq: 0, pending: HashMap::new() };
        assert(layer.pending() =~= Map::<u64, PendingModel>::empty());
        layer
    }

    /// The frames in which `bytes` travels over a connection with the given limit on the size
    /// of a frame, in the order in which they are to be sent. Fails when the limit leaves no
    /// room for payload beside the framing.
    pub fn send_bytes(&mut self, bytes: &[u8], mtu: usize) -> (r: Result<
        Vec<Vec<u8>>,
        PathweaveError,
    >)
        ensures
            final(self).next_seq() == next_number(old(self).next_seq()),
            final(self).pending() == old(self).pending(),
            r is Err <==> must_cut(old(self).next_seq(), bytes@, mtu as int) && fragment_room(
                old(self).next_seq(),
                bytes@.len() as u64,
                mtu as int,
            ) == 0,
            r matches Err(e) ==> e matches PathweaveError::Bundle(m) && m@
                == "MTU too small for BPv7 bundle framing overhead"@,
            r matches Ok(frames) ==> {
                &&& byte_views(frames@) == frames_for(old(self).next_seq(), bytes@, mtu as int)
                &&& carries(byte_views(frames@), old(self).next_seq(), bytes@)
                &&& mtu != 0 ==> forall|i: int|
                    0 <= i < frames@.len() ==> (#[trigger] frames@[i])@.len() <= mtu
            },
    {
        let seq: u64 = self.seq;
        self.seq = self.seq.wrapping_add(1);
        let whole = encode_whole(seq, bytes);
        if mtu == 0 || whole.len() <= mtu {
            let mut frames: Vec<Vec<u8>> = Vec::new();
            frames.push(whole);
            assert(byte_views(frames@) =~= seq![whole_frame(seq, bytes@)]);
            return Ok(frames);
        }
        let total: u64 = bytes.len() as u64;
        let overhead: u128 = fragment_header_overhead(seq, total);
        let room: usize = payload_room(mtu, overhead, total);
        if room == 0 {
            return Err(bundle_error("MTU too small for BPv7 bundle framing overhead"));
        }
        proof {
            if bytes@.len() == 0 {
                assert(bytes@ =~= Seq::<u8>::empty());
                assert(piece_len(room as int) <= mtu - (overhead - 1));
            }
        }
        Ok(encode_pieces(seq, bytes, room, mtu))
    }

    /// Takes in a frame. Returns the payload that it completes, or nothing when more frames are
    /// needed.
    pub fn recv_bytes(&mut self, raw: &[u8]) -> (r: Result<Option<Vec<u8>>, PathweaveError>)
        ensures
            final(self).next_seq() == old(self).next_seq(),
            final(self).pending() == receive(old(self).pending(), bundle_parsed(raw@)).0,
            received_as(r, receive(old(self).pending(), bundle_parsed(raw@)).1),
    {
        self.take_bundle(decode_bundle(raw))
    }

    /// Takes in a frame that was read as `parsed`.
    pub fn take_bundle(&mut self, parsed: Result<ParsedBundle, String>) -> (r: Result<
        Option<Vec<u8>>,
        PathweaveError,
    >)
        ensures
            final(self).next_seq() == old(self).next_seq(),
            final(self).pending() == receive(old(self).pending(), parsed_view(parsed)).0,
            received_as(r, receive(old(self).pending(), parsed_view(parsed)).1),
    {
        let b = match parsed {
            Ok(b) => b,
            Err(text) => {
                return Err(PathweaveError::Bundle(text));
            },
        };
        let chunk = match b.payload {
            Some(p) => p,
            None => {
                if b.fragment {
                    return Err(bundle_error("fragment missing payload"));
                } else {
                    return Err(bundle_error("bundle missing payload"));
                }
            },
        };
        if !b.fragment {
            return Ok(Some(chunk));
        }
        let ghost before = self.pending();
        let ghost whole_map = self.pending@;
        let ghost piece = chunk@;
        let ghost start = if before.dom().contains(b.seq) {
            before[b.seq]
        } else {
            PendingModel::empty(b.total)
        };
        let taken = self.pending.remove(&b.seq);
        assert(self.pending() =~= before.remove(b.seq));
        let mut p = match taken {
            Some(p) => p,
            None => PendingBundle::new(b.total),
        };
        assert(p@ == start);
        p.insert(b.offset, chunk);
        assert(p@ == start.with(b.offset, piece));
        if p.is_complete() {
            Ok(Some(p.reassemble()))
        } else {
            let ghost q = p@;
            self.pending.insert(b.seq, p);
            assert(self.pending() =~= before.insert(b.seq, q));
            Ok(None)
        }
    }
}

/// The value of what a frame was read as.
pub open spec fn parsed_view(parsed: Result<ParsedBundle, String>) -> Result<
    BundleFields,
    Seq<char>,
> {
    match parsed {
        Ok(b) => Ok(b@),
        Err(text) => Err(text@),
    }
}

/// `r` says what `outcome` is.
pub open spec fn received_as(r: Result<Option<Vec<u8>>, PathweaveError>, outcome: Received) -> bool {
    match outcome {
        Received::More => r matches Ok(None),
        Received::Payload(p) => r matches Ok(Some(data)) && data@ == p,
        Received::Failed(text) => r matches Err(PathweaveError::Bundle(m)) && m@ == text,
    }
}

/// The frames of the pieces of `bytes`, `room` bytes each.
fn encode_pieces(seq: u64, bytes: &[u8], room: usize, mtu: usize) -> (frames: Vec<Vec<u8>>)
    requires
        room > 0,
        bytes@.len() > 0,
        room == fragment_room(seq, bytes@.len() as u64, mtu as int),
        is_room(
            room as int,
            mtu - (frame_overhead(seq, bytes@.len() as u64) - cbor_head_len(bytes@.len() as int)),
        ),
        must_cut(seq, bytes@, mtu as int),
    ensures
        byte_views(frames@) == frames_for(seq, bytes@, mtu as int),
        carries(byte_views(frames@), seq, bytes@),
        forall|i: int| 0 <= i < frames@.len() ==> (#[trigger] frames@[i])@.len() <= mtu,
{
    let total: u64 = bytes.len() as u64;
    let pieces = cut_payload(bytes, room);
    let ghost c = cut(bytes@, room as int);
    proof {
        law_cut_is_cut(bytes@, room as int);
        lemma_pieces_fit(bytes@, 0, room as int);
    }
    let mut frames: Vec<Vec<u8>> = Vec::new();
    let mut i: usize = 0;
    while i < pieces.len()
        invariant
            i <= pieces@.len(),
            total == bytes@.len(),
            c == fragment_views(pieces@),
            is_room(
                room as int,
                mtu - (frame_overhead(seq, total) - cbor_head_len(total as int)),
            ),
            room > 0,
            forall|k: int|
                0 <= k < c.len() ==> (#[trigger] c[k]).1.len() <= room && c[k].0 + c[k].1.len()
                    <= total,
            frames@.len() == i,
            forall|k: int|
                0 <= k < i ==> {
                    &&& (#[trigger] frames@[k])@ == fragment_frame(seq, total, c[k])
                    &&& bundle_parsed(frames@[k]@) == reads_as(fragment_fields(seq, total, c[k]))
                    &&& frames@[k]@.len() <= mtu
                },
        decreases pieces@.len() - i,
    {
        assert(c[i as int] == (pieces@[i as int].0, pieces@[i as int].1@));
        let frame = encode_fragment(seq, total, pieces[i].0, pieces[i].1.as_slice());
        proof {
            let n = c[i as int].1.len() as int;
            let spare = mtu - (frame_overhead(seq, total) - cbor_head_len(total as int));
            assert(piece_len(room as int) <= spare);
            assert(n > 0 ==> piece_len(n) <= spare);
            assert(fragment_frame(seq, total, (total, Seq::empty())).len() + piece_len(n)
                >= frame@.len() + piece_len(0));
        }
        frames.push(frame);
        i = i + 1;
    }
    proof {
        let views = byte_views(frames@);
        assert(views =~= frames_for(seq, bytes@, mtu as int));
        assert(c.len() > 0);
        assert(carries_pieces(views, seq, bytes@, c));
    }
    frames
}

/// Every piece is at most `room` bytes long and lies within the payload.
proof fn lemma_pieces_fit(payload: Seq<u8>, offset: int, room: int)
    requires
        room > 0,
        0 <= offset <= payload.len(),
        payload.len() <= u64::MAX,
    ensures
        forall|k: int|
            0 <= k < crate::reassembly::cut_from(payload, offset, room).len() ==> {
                &&& (#[trigger] crate::reassembly::cut_from(payload, offset, room)[k]).1.len()
                    <= room
                &&& crate::reassembly::cut_from(payload, offset, room)[k].0
                    + crate::reassembly::cut_from(payload, offset, room)[k].1.len()
                    <= payload.len()
            },
    decreases payload.len() - offset,
{
    if offset < payload.len() {
        let end = if offset + room < payload.len() {
            offset + room
        } else {
            payload.len() as int
        };
        lemma_pieces_fit(payload, end, room);
        let rest = crate::reassembly::cut_from(payload, end, room);
        let s = crate::reassembly::cut_from(payload, offset, room);
        assert forall|k: int| 0 <= k < s.len() implies (#[trigger] s[k]).1.len() <= room && s[k].0
            + s[k].1.len() <= payload.len() by {
            if k > 0 {
                assert(s[k] == rest[k - 1]);
            }
        }
    }
}

/// What receiving `frames` one after the other leaves pending, and what each of them gives.
pub open spec fn feed(pending: PendingMap, frames: Seq<Seq<u8>>) -> (PendingMap, Seq<Received>)
    decreases frames.len(),
{
    if frames.len() == 0 {
        (pending, Seq::empty())
    } else {
        let before = feed(pending, frames.drop_last());
        let step = receive(before.0, bundle_parsed(frames.last()));
        (step.0, before.1.push(step.1))
    }
}

/// The frames with the given numbers, in the order of the numbers.
pub open spec fn picked(frames: Seq<Seq<u8>>, arrivals: Seq<int>) -> Seq<Seq<u8>> {
    arrivals.map_values(|i: int| frames[i])
}

/// Every number below `n` occurs in `arrivals`.
pub open spec fn covers(arrivals: Seq<int>, n: int) -> bool {
    forall|i: int| 0 <= i < n ==> #[trigger] arrivals.contains(i)
}

/// Every number in `arrivals` is below `n`.
pub open spec fn numbers_below(arrivals: Seq<int>, n: int) -> bool {
    forall|k: int| 0 <= k < arrivals.len() ==> 0 <= #[trigger] arrivals[k] < n
}

/// What holds after some but not all pieces have arrived: nothing was given out yet, and exactly
/// the pieces that arrived are collected.
pub open spec fn collecting(
    pending: PendingMap,
    seq: u64,
    total: u64,
    c: Seq<Fragment>,
    arrivals: Seq<int>,
    state: (PendingMap, Seq<Received>),
) -> bool {
    &&& state.1 == Seq::new(arrivals.len(), |k: int| Received::More)
    &&& arrivals.len() == 0 ==> state.0 == pending
    &&& arrivals.len() > 0 ==> {
        &&& state.0 == pending.insert(seq, state.0[seq])
        &&& state.0[seq].total == total
        &&& collects(state.0[seq].fragments, c)
        &&& forall|i: int|
            0 <= i < c.len() ==> (state.0[seq].fragments.contains(#[trigger] c[i])
                <==> arrivals.contains(i))
    }
}

/// One more piece arrives.
pub proof fn lemma_one_piece(
    pending: PendingMap,
    seq: u64,
    payload: Seq<u8>,
    c: Seq<Fragment>,
    arrivals: Seq<int>,
    state: (PendingMap, Seq<Received>),
    k: int,
)
    requires
        is_cut(c, payload),
        payload.len() <= u64::MAX,
        !pending.dom().contains(seq),
        collecting(pending, seq, payload.len() as u64, c, arrivals, state),
        numbers_below(arrivals, c.len() as int),
        0 <= k < c.len(),
    ensures
        ({
            let step = with_piece(
                state.0,
                seq,
                c[k].0,
                payload.len() as u64,
                c[k].1,
            );
            let all = arrivals.push(k);
            if covers(all, c.len() as int) {
                step.1 == Received::Payload(payload) && step.0 == pending
            } else {
                collecting(
                    pending,
                    seq,
                    payload.len() as u64,
                    c,
                    all,
                    (step.0, state.1.push(step.1)),
                )
            }
        }),
{
    let total = payload.len() as u64;
    let all = arrivals.push(k);
    let before = if state.0.dom().contains(seq) {
        state.0[seq]
    } else {
        PendingModel::empty(total)
    };
    assert(state.0.dom().contains(seq) == (arrivals.len() > 0));
    let s = before.fragments;
    assert(collects(s, c));
    law_piece_joins_collection(s, c, k);
    let after = before.with(c[k].0, c[k].1);
    let w = after.fragments;
    assert forall|i: int| 0 <= i < c.len() implies (w.contains(#[trigger] c[i]) <==> all.contains(
        i,
    )) by {
        assert(s.contains(c[i]) <==> arrivals.contains(i)) by {
            if arrivals.len() == 0 {
                assert(!s.contains(c[i]));
                assert(!arrivals.contains(i));
            }
        }
        assert(c[i] == c[k] <==> i == k) by {
            if i < k {
                assert(c[i].0 < c[k].0);
            }
            if k < i {
                assert(c[k].0 < c[i].0);
            }
        }
        assert(all.contains(i) <==> arrivals.contains(i) || i == k) by {
            if arrivals.contains(i) {
                let j = choose|j: int| 0 <= j < arrivals.len() && arrivals[j] == i;
                assert(all[j] == i);
            }
            assert(all[arrivals.len() as int] == k);
            if all.contains(i) {
                let j = choose|j: int| 0 <= j < all.len() && all[j] == i;
                if j < arrivals.len() {
                    assert(arrivals[j] == i);
                }
            }
        }
    }
    assert(has_all(w, c) == covers(all, c.len() as int)) by {
        if has_all(w, c) {
            assert forall|i: int| 0 <= i < c.len() implies #[trigger] all.contains(i) by {
                assert(w.contains(c[i]));
            }
        }
        if covers(all, c.len() as int) {
            assert forall|i: int| 0 <= i < c.len() implies w.contains(#[trigger] c[i]) by {
                assert(all.contains(i));
            }
        }
    }
    law_complete_exactly_with_all_pieces(w, c, payload);
    assert(state.0.remove(seq) =~= pending);
    assert(state.0.insert(seq, after) =~= pending.insert(seq, after));
    if !has_all(w, c) {
        assert(state.1.push(Received::More) =~= Seq::new(all.len(), |j: int| Received::More));
    }
}

/// As long as a piece is missing, frames are collected and nothing is given out.
proof fn lemma_collecting(
    pending: PendingMap,
    frames: Seq<Seq<u8>>,
    seq: u64,
    payload: Seq<u8>,
    c: Seq<Fragment>,
    arrivals: Seq<int>,
)
    requires
        carries_pieces(frames, seq, payload, c),
        !pending.dom().contains(seq),
        numbers_below(arrivals, c.len() as int),
        !covers(arrivals, c.len() as int),
    ensures
        collecting(
            pending,
            seq,
            payload.len() as u64,
            c,
            arrivals,
            feed(pending, picked(frames, arrivals)),
        ),
    decreases arrivals.len(),
{
    if arrivals.len() > 0 {
        let early = arrivals.drop_last();
        lemma_without_last(arrivals, c.len() as int);
        lemma_collecting(pending, frames, seq, payload, c, early);
        assert(picked(frames, arrivals).drop_last() =~= picked(frames, early));
        let k = arrivals.last();
        assert(0 <= arrivals[arrivals.len() - 1] < c.len());
        assert(early.push(k) =~= arrivals);
        assert(bundle_parsed(frames[k]) == reads_as(
            fragment_fields(seq, payload.len() as u64, c[k]),
        ));
        lemma_one_piece(
            pending,
            seq,
            payload,
            c,
            early,
            feed(pending, picked(frames, early)),
            k,
        );
    } else {
        assert(picked(frames, arrivals) =~= Seq::<Seq<u8>>::empty());
        assert(feed(pending, picked(frames, arrivals)).1 =~= Seq::new(
            arrivals.len(),
            |j: int| Received::More,
        ));
    }
}

/// What holds of all numbers holds without the last of them.
proof fn lemma_without_last(arrivals: Seq<int>, n: int)
    requires
        arrivals.len() > 0,
        numbers_below(arrivals, n),
        !covers(arrivals, n),
    ensures
        numbers_below(arrivals.drop_last(), n),
        !covers(arrivals.drop_last(), n),
{
    let early = arrivals.drop_last();
    assert forall|k: int| 0 <= k < early.len() implies 0 <= #[trigger] early[k] < n by {
        assert(arrivals[k] == early[k]);
    }
    let i = choose|i: int| 0 <= i < n && !#[trigger] arrivals.contains(i);
    if early.contains(i) {
        let j = choose|j: int| 0 <= j < early.len() && early[j] == i;
        assert(arrivals[j] == i);
    }
}

/// Receiving gives back what was sent: however the frames of a message are ordered or repeated
/// on the way, the receiver gives out nothing until the last missing one arrives, and then
/// exactly the message; nothing of it stays behind.
pub proof fn law_receive_gives_back_what_was_sent(
    pending: PendingMap,
    frames: Seq<Seq<u8>>,
    seq: u64,
    payload: Seq<u8>,
    arrivals: Seq<int>,
)
    requires
        carries(frames, seq, payload),
        !pending.dom().contains(seq),
        arrivals.len() > 0,
        numbers_below(arrivals, frames.len() as int),
        covers(arrivals, frames.len() as int),
        !covers(arrivals.drop_last(), frames.len() as int),
    ensures
        feed(pending, picked(frames, arrivals)).0 == pending,
        feed(pending, picked(frames, arrivals)).1 == Seq::new(
            arrivals.len(),
            |k: int|
                if k + 1 < arrivals.len() {
                    Received::More
                } else {
                    Received::Payload(payload)
                },
        ),
{
    let early = arrivals.drop_last();
    let k = arrivals.last();
    let got = picked(frames, arrivals);
    assert(got.drop_last() =~= picked(frames, early));
    assert(0 <= arrivals[arrivals.len() - 1] < frames.len());
    assert(forall|j: int| 0 <= j < early.len() ==> early[j] == arrivals[j]);
    if carries_whole(frames, seq, payload) {
        assert(early.len() == 0) by {
            if early.len() > 0 {
                assert(0 <= arrivals[0] < 1);
                assert(early[0] == 0);
                assert forall|i: int| 0 <= i < frames.len() implies #[trigger] early.contains(
                    i,
                ) by {
                    assert(early[0] == i);
                }
            }
        }
        assert(picked(frames, early) =~= Seq::<Seq<u8>>::empty());
        assert(feed(pending, picked(frames, early)) == (pending, Seq::<Received>::empty()));
        assert(feed(pending, got).1 =~= Seq::new(
            arrivals.len(),
            |k: int|
                if k + 1 < arrivals.len() {
                    Received::More
                } else {
                    Received::Payload(payload)
                },
        ));
    } else {
        let c = choose|c: Seq<Fragment>| carries_pieces(frames, seq, payload, c);
        assert(numbers_below(early, c.len() as int)) by {
            assert forall|j: int| 0 <= j < early.len() implies 0 <= #[trigger] early[j]
                < c.len() by {
                assert(0 <= arrivals[j] < frames.len());
            }
        }
        lemma_collecting(pending, frames, seq, payload, c, early);
        assert(early.push(k) =~= arrivals);
        assert(bundle_parsed(frames[k]) == reads_as(
            fragment_fields(seq, payload.len() as u64, c[k]),
        ));
        lemma_one_piece(
            pending,
            seq,
            payload,
            c,
            early,
            feed(pending, picked(frames, early)),
            k,
        );
        assert(feed(pending, got).1 =~= Seq::new(
            arrivals.len(),
            |k: int|
                if k + 1 < arrivals.len() {
                    Received::More
                } else {
                    Received::Payload(payload)
                },
        ));
    }
}

/// A payload is cut exactly if there is a limit and the frame that carries it whole is longer;
/// otherwise it travels in that one frame.
pub proof fn law_cut_exactly_if_too_long(seq: u64, payload: Seq<u8>, mtu: int)
    ensures
        must_cut(seq, payload, mtu) <==> mtu != 0 && whole_frame(seq, payload).len() > mtu,
        mtu == 0 || whole_frame(seq, payload).len() <= mtu ==> frames_for(seq, payload, mtu) == seq![
            whole_frame(seq, payload),
        ],
{
}

/// A payload that is cut travels in one frame for each piece, each with as many bytes as fit: the
/// pieces are those of the cut, in order.
pub proof fn law_frame_for_each_piece(seq: u64, payload: Seq<u8>, mtu: int, i: int)
    requires
        mtu != 0,
        whole_frame(seq, payload).len() > mtu,
        0 <= i < frames_for(seq, payload, mtu).len(),
    ensures
        ({
            let c = cut(payload, fragment_room(seq, payload.len() as u64, mtu));
            &&& frames_for(seq, payload, mtu).len() == c.len()
            &&& frames_for(seq, payload, mtu)[i] == fragment_frame(
                seq,
                payload.len() as u64,
                c[i],
            )
        }),
{
}

/// How many bytes fit beside the framing: with `spare` bytes left for a piece and its length, the
/// greatest number whose length field still fits.
pub proof fn law_room_in_bytes(spare: int, n: int)
    requires
        n > 0,
    ensures
        n <= greatest_room(spare) <==> n + (if n < 24 {
            1int
        } else if n < 256 {
            2
        } else if n < 65536 {
            3
        } else if n < 4294967296 {
            5
        } else {
            9
        }) <= spare,
        greatest_room(spare) >= 0,
{
    law_room_is_greatest(spare);
    assert(piece_len(n) <= spare <==> n <= greatest_room(spare));
}

/// What receiving a frame gives. A frame that is no bundle, or has no payload, is reported and
/// changes nothing. A whole bundle gives its payload and changes nothing. A fragment joins those of
/// its number, whose total is the one that the first of them told; it gives the message, which is
/// then forgotten, exactly if the bytes of all of them are enough, and else nothing.
pub proof fn law_receive_exact(
    pending: PendingMap,
    b: BundleFields,
    complaint: Seq<char>,
    had: PendingModel,
)
    requires
        pending.dom().contains(b.seq) ==> had == pending[b.seq],
        !pending.dom().contains(b.seq) ==> had.total == b.total && had.fragments == Seq::<
            Fragment,
        >::empty(),
    ensures
        receive(pending, Err(complaint)) == (pending, Received::Failed(complaint)),
        b.payload is None ==> receive(pending, Ok(b)).0 == pending && receive(pending, Ok(b)).1
            is Failed,
        b.payload is Some && !b.fragment ==> receive(pending, Ok(b)) == (
            pending,
            Received::Payload(b.payload->0),
        ),
        b.payload is Some && b.fragment ==> {
            let now = crate::reassembly::with_fragment(had.fragments, b.offset, b.payload->0);
            let step = receive(pending, Ok(b));
            &&& joined(now).len() >= had.total ==> step == (
                pending.remove(b.seq),
                Received::Payload(joined(now)),
            )
            &&& joined(now).len() < had.total ==> step == (
                pending.insert(b.seq, PendingModel { total: had.total, fragments: now }),
                Received::More,
            )
        },
{
    if b.payload is Some && b.fragment {
        let p = b.payload->0;
        let start = if pending.dom().contains(b.seq) {
            pending[b.seq]
        } else {
            PendingModel::empty(b.total)
        };
        assert(start == had);
        crate::reassembly::law_complete_exact(had.with(b.offset, p), b.offset, p, b.total);
        crate::reassembly::law_complete_exact(had, b.offset, p, b.total);
    }
}

/// The numbers of messages go up by one, and after the last one comes zero.
pub proof fn law_next_number_exact(seq: u64)
    ensures
        seq < u64::MAX ==> next_number(seq) == seq + 1,
        next_number(u64::MAX) == 0,
{
}

/// Each piece of a payload that is cut has as many bytes as the limit leaves: with an empty
/// fragment of `e` bytes, a piece of `n` bytes fits exactly if `e` and the bytes of the piece and
/// what its length takes beyond one byte are within the limit.
pub proof fn law_pieces_use_the_limit(seq: u64, total: u64, mtu: int, n: int)
    requires
        n > 0,
    ensures
        ({
            let e = fragment_frame(seq, total, (total, Seq::empty())).len();
            let grown: int = if n < 24 {
                0
            } else if n < 256 {
                1
            } else if n < 65536 {
                2
            } else if n < 4294967296 {
                4
            } else {
                8
            };
            n <= fragment_room(seq, total, mtu) <==> e + n + grown <= mtu
        }),
{
    let spare = mtu - (frame_overhead(seq, total) - cbor_head_len(total as int));
    law_room_in_bytes(spare, n);
}

/// The value of a list of frames has one for each of them, in order, and what a frame was read as
/// is what it says.
pub proof fn law_frame_values(s: Seq<Vec<u8>>, i: int, b: ParsedBundle, text: String)
    requires
        0 <= i < s.len(),
    ensures
        byte_views(s).len() == s.len(),
        byte_views(s)[i] == s[i]@,
        parsed_view(Err(text)) == Err::<BundleFields, Seq<char>>(text@),
        parsed_view(Ok(b)) is Ok,
        b@.fragment == b.fragment,
        b@.seq == b.seq,
        b@.offset == b.offset,
        b@.total == b.total,
        b.payload is None <==> b@.payload is None,
        b.payload is Some ==> b@.payload == Some((b.payload->0)@),
{
}

/// What receiving a frame returns: nothing while more is to come, a message whole, or a complaint.
pub proof fn law_received_exact(r: Result<Option<Vec<u8>>, PathweaveError>, p: Seq<u8>, text: Seq<char>)
    ensures
        received_as(r, Received::More) ==> (r matches Ok(None)),
        received_as(r, Received::Payload(p)) ==> (r matches Ok(Some(data)) && data@ == p),
        received_as(r, Received::Failed(text)) ==> (r matches Err(PathweaveError::Bundle(m)) && m@
            == text),
{
}

} // verus!
