//! The headers of the reliability layer, all integers most significant
//! byte first:
//! * standard (5 bytes): protocol version CRC-16, packet type, delivery
//!   guarantee, ordering guarantee;
//! * acknowledgement (8 bytes): sequence number, acknowledged sequence
//!   number, acknowledgement bits;
//! * arranging (3 bytes): arranging index, stream id;
//! * fragment (4 bytes): sequence number, fragment id, fragment count.
use crate::error::{DecodingErrorKind, ErrorKind, HeaderKind, IoErrorKind};
use crate::packet::{DeliveryGuarantee, OrderingGuarantee, PacketType};
use crate::protocol_version::{version_crc16, ProtocolVersion};
use crate::wire::{
    read_u16_be, read_u32_be, u16_be_bytes, u16_from_be, u32_be_bytes, u32_from_be, write_u16_be,
    write_u32_be,
};
use vstd::prelude::*;

verus! {

pub const STANDARD_HEADER_SIZE: u8 = 5;

pub const ACKED_PACKET_HEADER: u8 = 8;

pub const ARRANGING_PACKET_HEADER: u8 = 3;

pub const FRAGMENT_HEADER_SIZE: u8 = 4;

/// The header that every datagram of the reliability layer starts with.
#[derive(Debug, Clone, Copy, PartialEq, Eq)]
pub struct StandardHeader {
    pub protocol_version: u16,
    pub packet_type: PacketType,
    pub delivery_guarantee: DeliveryGuarantee,
    pub ordering_guarantee: OrderingGuarantee,
}

impl StandardHeader {
    pub fn packet_type(&self) -> (r: PacketType)
        ensures
            r == self.packet_type,
    {
        self.packet_type
    }

    pub fn delivery_guarantee(&self) -> (r: DeliveryGuarantee)
        ensures
            r == self.delivery_guarantee,
    {
        self.delivery_guarantee
    }

    pub fn ordering_guarantee(&self) -> (r: OrderingGuarantee)
        ensures
            r == self.ordering_guarantee,
    {
        self.ordering_guarantee
    }

    pub fn is_fragment(&self) -> (r: bool)
        ensures
            r == (self.packet_type == PacketType::Fragment),
    {
        match self.packet_type {
            PacketType::Fragment => true,
            _ => false,
        }
    }
}

/// The acknowledgement information of a reliable datagram.
#[derive(Debug, Clone, Copy, PartialEq, Eq, Structural)]
pub struct AckedPacketHeader {
    pub seq: u16,
    pub ack_seq: u16,
    pub ack_field: u32,
}

impl AckedPacketHeader {
    pub fn sequence(&self) -> (r: u16)
        ensures
            r == self.seq,
    {
        self.seq
    }

    pub fn ack_seq(&self) -> (r: u16)
        ensures
            r == self.ack_seq,
    {
        self.ack_seq
    }

    pub fn ack_field(&self) -> (r: u32)
        ensures
            r == self.ack_field,
    {
        self.ack_field
    }
}

/// The position of a packet within an ordered or sequenced stream.
#[derive(Debug, Clone, Copy, PartialEq, Eq, Structural)]
pub struct ArrangingHeader {
    pub arranging_id: u16,
    pub stream_id: u8,
}

/// The position of a fragment within its packet.
#[derive(Debug, Clone, Copy, PartialEq, Eq, Structural)]
pub struct FragmentHeader {
    pub sequence: u16,
    pub id: u8,
    pub num_fragments: u8,
}

pub open spec fn packet_type_code(t: PacketType) -> u8 {
    match t {
        PacketType::Packet => 0,
        PacketType::Fragment => 1,
        PacketType::Heartbeat => 2,
    }
}

pub open spec fn delivery_code(d: DeliveryGuarantee) -> u8 {
    match d {
        DeliveryGuarantee::Unreliable => 0,
        DeliveryGuarantee::Reliable => 1,
    }
}

pub open spec fn ordering_code(o: OrderingGuarantee) -> u8 {
    match o {
        OrderingGuarantee::Unordered => 0,
        OrderingGuarantee::Sequenced(_) => 1,
        OrderingGuarantee::Ordered(_) => 2,
    }
}

/// The bytes of a standard header.
pub open spec fn standard_bytes(t: PacketType, d: DeliveryGuarantee, o: OrderingGuarantee) -> Seq<u8> {
    u16_be_bytes(version_crc16()) + seq![packet_type_code(t), delivery_code(d), ordering_code(o)]
}

/// The bytes of an acknowledgement header.
pub open spec fn acked_bytes(seq: u16, ack_seq: u16, ack_field: u32) -> Seq<u8> {
    u16_be_bytes(seq) + u16_be_bytes(ack_seq) + u32_be_bytes(ack_field)
}

/// The bytes of an arranging header.
pub open spec fn arranging_bytes(arranging_id: u16, stream_id: u8) -> Seq<u8> {
    u16_be_bytes(arranging_id) + seq![stream_id]
}

/// The bytes of a fragment header.
pub open spec fn fragment_bytes(sequence: u16, id: u8, num_fragments: u8) -> Seq<u8> {
    u16_be_bytes(sequence) + seq![id, num_fragments]
}

/// What a standard header at the start of `b` says.
pub open spec fn spec_read_standard(b: Seq<u8>) -> Result<StandardHeader, ErrorKind> {
    if b.len() < STANDARD_HEADER_SIZE {
        Err(ErrorKind::CouldNotReadHeader(HeaderKind::Standard))
    } else {
        let pt = b[2];
        let d = b[3];
        let o = b[4];
        if pt > 2 {
            Err(ErrorKind::DecodingError(DecodingErrorKind::PacketType))
        } else if d > 1 {
            Err(ErrorKind::DecodingError(DecodingErrorKind::DeliveryGuarantee))
        } else if o > 2 {
            Err(ErrorKind::DecodingError(DecodingErrorKind::OrderingGuarantee))
        } else {
            Ok(
                StandardHeader {
                    protocol_version: u16_from_be(b.subrange(0, 2)),
                    packet_type: if pt == 0 {
                        PacketType::Packet
                    } else if pt == 1 {
                        PacketType::Fragment
                    } else {
                        PacketType::Heartbeat
                    },
                    delivery_guarantee: if d == 0 {
                        DeliveryGuarantee::Unreliable
                    } else {
                        DeliveryGuarantee::Reliable
                    },
                    ordering_guarantee: if o == 0 {
                        OrderingGuarantee::Unordered
                    } else if o == 1 {
                        OrderingGuarantee::Sequenced(None)
                    } else {
                        OrderingGuarantee::Ordered(None)
                    },
                },
            )
        }
    }
}

/// The acknowledgement header at `pos`, where eight bytes are left.
pub open spec fn spec_acked_at(b: Seq<u8>, pos: int) -> Option<AckedPacketHeader> {
    if pos + 8 > b.len() {
        None
    } else {
        Some(
            AckedPacketHeader {
                seq: u16_from_be(b.subrange(pos, pos + 2)),
                ack_seq: u16_from_be(b.subrange(pos + 2, pos + 4)),
                ack_field: u32_from_be(b.subrange(pos + 4, pos + 8)),
            },
        )
    }
}

/// Reading the acknowledgement header at `pos`.
pub open spec fn spec_read_acked(b: Seq<u8>, pos: int) -> Result<AckedPacketHeader, ErrorKind> {
    match spec_acked_at(b, pos) {
        Some(h) => Ok(h),
        None => Err(ErrorKind::CouldNotReadHeader(HeaderKind::Acknowledgment)),
    }
}

/// Reading the arranging header at `pos`.
pub open spec fn spec_read_arranging(b: Seq<u8>, pos: int) -> Result<ArrangingHeader, ErrorKind> {
    if pos + 3 > b.len() {
        Err(ErrorKind::CouldNotReadHeader(HeaderKind::Arranging))
    } else {
        Ok(ArrangingHeader { arranging_id: u16_from_be(b.subrange(pos, pos + 2)), stream_id: b[pos + 2] })
    }
}

/// Reading the fragment header at `pos` and, for the first fragment, the
/// acknowledgement header after it.
pub open spec fn spec_read_fragment(b: Seq<u8>, pos: int) -> Result<
    (FragmentHeader, Option<AckedPacketHeader>),
    ErrorKind,
> {
    if pos + 4 > b.len() {
        Err(ErrorKind::CouldNotReadHeader(HeaderKind::Fragment))
    } else {
        let f = FragmentHeader {
            sequence: u16_from_be(b.subrange(pos, pos + 2)),
            id: b[pos + 2],
            num_fragments: b[pos + 3],
        };
        if f.id == 0 {
            match spec_acked_at(b, pos + 4) {
                Some(a) => Ok((f, Some(a))),
                None => Err(ErrorKind::IOError(IoErrorKind::UnexpectedEof)),
            }
        } else {
            Ok((f, None))
        }
    }
}

/// Reads the standard header at the start of `b`.
pub fn read_standard_header(b: &[u8]) -> (r: Result<StandardHeader, ErrorKind>)
    ensures
        r == spec_read_standard(b@),
{
    if b.len() < STANDARD_HEADER_SIZE as usize {
        return Err(ErrorKind::CouldNotReadHeader(HeaderKind::Standard));
    }
    let protocol_version = read_u16_be(b, 0);
    let pt = b[2];
    let d = b[3];
    let o = b[4];
    let packet_type = if pt == 0 {
        PacketType::Packet
    } else if pt == 1 {
        PacketType::Fragment
    } else if pt == 2 {
        PacketType::Heartbeat
    } else {
        return Err(ErrorKind::DecodingError(DecodingErrorKind::PacketType));
    };
    let delivery_guarantee = if d == 0 {
        DeliveryGuarantee::Unreliable
    } else if d == 1 {
        DeliveryGuarantee::Reliable
    } else {
        return Err(ErrorKind::DecodingError(DecodingErrorKind::DeliveryGuarantee));
    };
    let ordering_guarantee = if o == 0 {
        OrderingGuarantee::Unordered
    } else if o == 1 {
        OrderingGuarantee::Sequenced(None)
    } else if o == 2 {
        OrderingGuarantee::Ordered(None)
    } else {
        return Err(ErrorKind::DecodingError(DecodingErrorKind::OrderingGuarantee));
    };
    Ok(StandardHeader { protocol_version, packet_type, delivery_guarantee, ordering_guarantee })
}

fn acked_at(b: &[u8], pos: usize) -> (r: Option<AckedPacketHeader>)
    ensures
        r == spec_acked_at(b@, pos as int),
{
    if pos > b.len() || b.len() - pos < 8 {
        return None;
    }
    Some(
        AckedPacketHeader {
            seq: read_u16_be(b, pos),
            ack_seq: read_u16_be(b, pos + 2),
            ack_field: read_u32_be(b, pos + 4),
        },
    )
}

/// Reads the acknowledgement header at `pos`.
pub fn read_acknowledge_header(b: &[u8], pos: usize) -> (r: Result<AckedPacketHeader, ErrorKind>)
    ensures
        r == spec_read_acked(b@, pos as int),
{
    match acked_at(b, pos) {
        Some(h) => Ok(h),
        None => Err(ErrorKind::CouldNotReadHeader(HeaderKind::Acknowledgment)),
    }
}

/// Reads the arranging header at `pos`.
pub fn read_arranging_header(b: &[u8], pos: usize) -> (r: Result<ArrangingHeader, ErrorKind>)
    ensures
        r == spec_read_arranging(b@, pos as int),
{
    if pos > b.len() || b.len() - pos < 3 {
        return Err(ErrorKind::CouldNotReadHeader(HeaderKind::Arranging));
    }
    Ok(ArrangingHeader { arranging_id: read_u16_be(b, pos), stream_id: b[pos + 2] })
}

/// Reads the fragment header at `pos` and, for the first fragment, the
/// acknowledgement header after it.
pub fn read_fragment(b: &[u8], pos: usize) -> (r: Result<
    (FragmentHeader, Option<AckedPacketHeader>),
    ErrorKind,
>)
    requires
        pos + 4 <= usize::MAX,
    ensures
        r == spec_read_fragment(b@, pos as int),
{
    if pos > b.len() || b.len() - pos < 4 {
        return Err(ErrorKind::CouldNotReadHeader(HeaderKind::Fragment));
    }
    let f = FragmentHeader { sequence: read_u16_be(b, pos), id: b[pos + 2], num_fragments: b[pos + 3] };
    if f.id == 0 {
        match acked_at(b, pos + 4) {
            Some(a) => Ok((f, Some(a))),
            None => Err(ErrorKind::IOError(IoErrorKind::UnexpectedEof)),
        }
    } else {
        Ok((f, None))
    }
}

/// Appends the bytes of `src` to `out`.
pub fn append_bytes(out: &mut Vec<u8>, src: &[u8])
    ensures
        final(out)@ == old(out)@ + src@,
{
    let mut i: usize = 0;
    while i < src.len()
        invariant
            i <= src@.len(),
            out@ == old(out)@ + src@.take(i as int),
        decreases src@.len() - i,
    {
        out.push(src[i]);
        i = i + 1;
        assert(out@ =~= old(out)@ + src@.take(i as int));
    }
    assert(src@.take(src@.len() as int) =~= src@);
}

fn push_u16(out: &mut Vec<u8>, n: u16)
    ensures
        final(out)@ == old(out)@ + u16_be_bytes(n),
{
    let pos = out.len();
    out.push(0);
    out.push(0);
    write_u16_be(out.as_mut_slice(), pos, n);
    assert(out@ =~= old(out)@ + u16_be_bytes(n));
}

fn push_u32(out: &mut Vec<u8>, n: u32)
    ensures
        final(out)@ == old(out)@ + u32_be_bytes(n),
{
    let pos = out.len();
    out.push(0);
    out.push(0);
    out.push(0);
    out.push(0);
    write_u32_be(out.as_mut_slice(), pos, n);
    assert(out@ =~= old(out)@ + u32_be_bytes(n));
}

/// Appends a standard header.
pub fn write_standard_header(
    out: &mut Vec<u8>,
    t: PacketType,
    d: DeliveryGuarantee,
    o: OrderingGuarantee,
)
    ensures
        final(out)@ == old(out)@ + standard_bytes(t, d, o),
{
    push_u16(out, ProtocolVersion::get_crc16());
    out.push(
        match t {
            PacketType::Packet => 0,
            PacketType::Fragment => 1,
            PacketType::Heartbeat => 2,
        },
    );
    out.push(
        match d {
            DeliveryGuarantee::Unreliable => 0,
            DeliveryGuarantee::Reliable => 1,
        },
    );
    out.push(
        match o {
            OrderingGuarantee::Unordered => 0,
            OrderingGuarantee::Sequenced(_) => 1,
            OrderingGuarantee::Ordered(_) => 2,
        },
    );
    assert(out@ =~= old(out)@ + standard_bytes(t, d, o));
}

/// Appends an acknowledgement header.
pub fn write_acked_header(out: &mut Vec<u8>, seq: u16, ack_seq: u16, ack_field: u32)
    ensures
        final(out)@ == old(out)@ + acked_bytes(seq, ack_seq, ack_field),
{
    push_u16(out, seq);
    push_u16(out, ack_seq);
    push_u32(out, ack_field);
    assert(out@ =~= old(out)@ + acked_bytes(seq, ack_seq, ack_field));
}

/// Appends an arranging header.
pub fn write_arranging_header(out: &mut Vec<u8>, arranging_id: u16, stream_id: u8)
    ensures
        final(out)@ == old(out)@ + arranging_bytes(arranging_id, stream_id),
{
    push_u16(out, arranging_id);
    out.push(stream_id);
    assert(out@ =~= old(out)@ + arranging_bytes(arranging_id, stream_id));
}

/// Appends a fragment header.
pub fn write_fragment_header(out: &mut Vec<u8>, sequence: u16, id: u8, num_fragments: u8)
    ensures
        final(out)@ == old(out)@ + fragment_bytes(sequence, id, num_fragments),
{
    push_u16(out, sequence);
    out.push(id);
    out.push(num_fragments);
    assert(out@ =~= old(out)@ + fragment_bytes(sequence, id, num_fragments));
}

/// The ordering guarantee as a standard header carries it: without the
/// stream id.
pub open spec fn without_stream(o: OrderingGuarantee) -> OrderingGuarantee {
    match o {
        OrderingGuarantee::Unordered => OrderingGuarantee::Unordered,
        OrderingGuarantee::Sequenced(_) => OrderingGuarantee::Sequenced(None),
        OrderingGuarantee::Ordered(_) => OrderingGuarantee::Ordered(None),
    }
}

/// Reading back a standard header gives what was written, except the
/// stream id, which it does not carry.
pub proof fn lemma_standard_roundtrip(
    t: PacketType,
    d: DeliveryGuarantee,
    o: OrderingGuarantee,
    rest: Seq<u8>,
)
    ensures
        spec_read_standard(standard_bytes(t, d, o) + rest) == Ok::<_, ErrorKind>(
            StandardHeader {
                protocol_version: version_crc16(),
                packet_type: t,
                delivery_guarantee: d,
                ordering_guarantee: without_stream(o),
            },
        ),
{
    let b = standard_bytes(t, d, o) + rest;
    crate::wire::lemma_u16_be_roundtrip(version_crc16());
    assert(b.subrange(0, 2) =~= u16_be_bytes(version_crc16()));
}

/// Reading back an acknowledgement header written at `pre.len()` gives what
/// was written.
pub proof fn lemma_acked_roundtrip(pre: Seq<u8>, seq: u16, ack_seq: u16, ack_field: u32, rest: Seq<u8>)
    ensures
        spec_read_acked(pre + acked_bytes(seq, ack_seq, ack_field) + rest, pre.len() as int)
            == Ok::<_, ErrorKind>(AckedPacketHeader { seq, ack_seq, ack_field }),
{
    let b = pre + acked_bytes(seq, ack_seq, ack_field) + rest;
    let p = pre.len() as int;
    crate::wire::lemma_u16_be_roundtrip(seq);
    crate::wire::lemma_u16_be_roundtrip(ack_seq);
    crate::wire::lemma_u32_be_roundtrip(ack_field);
    assert(b.subrange(p, p + 2) =~= u16_be_bytes(seq));
    assert(b.subrange(p + 2, p + 4) =~= u16_be_bytes(ack_seq));
    assert(b.subrange(p + 4, p + 8) =~= u32_be_bytes(ack_field));
}

/// Reading back an arranging header written at `pre.len()` gives what was
/// written.
pub proof fn lemma_arranging_roundtrip(pre: Seq<u8>, arranging_id: u16, stream_id: u8, rest: Seq<u8>)
    ensures
        spec_read_arranging(pre + arranging_bytes(arranging_id, stream_id) + rest, pre.len() as int)
            == Ok::<_, ErrorKind>(ArrangingHeader { arranging_id, stream_id }),
{
    let b = pre + arranging_bytes(arranging_id, stream_id) + rest;
    let p = pre.len() as int;
    crate::wire::lemma_u16_be_roundtrip(arranging_id);
    assert(b.subrange(p, p + 2) =~= u16_be_bytes(arranging_id));
}

/// Reading back a fragment header written at `pre.len()`, with the
/// acknowledgement header after it on the first fragment, gives what was
/// written.
pub proof fn lemma_fragment_roundtrip(
    pre: Seq<u8>,
    sequence: u16,
    id: u8,
    num_fragments: u8,
    ack: (u16, u16, u32),
    rest: Seq<u8>,
)
    ensures
        spec_read_fragment(
            pre + fragment_bytes(sequence, id, num_fragments) + (if id == 0 {
                acked_bytes(ack.0, ack.1, ack.2)
            } else {
                Seq::empty()
            }) + rest,
            pre.len() as int,
        ) == Ok::<_, ErrorKind>(
            (
                FragmentHeader { sequence, id, num_fragments },
                if id == 0 {
                    Some(AckedPacketHeader { seq: ack.0, ack_seq: ack.1, ack_field: ack.2 })
                } else {
                    None
                },
            ),
        ),
{
    let ab = if id == 0 {
        acked_bytes(ack.0, ack.1, ack.2)
    } else {
        Seq::empty()
    };
    let b = pre + fragment_bytes(sequence, id, num_fragments) + ab + rest;
    let p = pre.len() as int;
    crate::wire::lemma_u16_be_roundtrip(sequence);
    assert(b.subrange(p, p + 2) =~= u16_be_bytes(sequence));
    if id == 0 {
        lemma_acked_roundtrip(pre + fragment_bytes(sequence, id, num_fragments), ack.0, ack.1, ack.2, rest);
        assert(b =~= pre + fragment_bytes(sequence, id, num_fragments) + acked_bytes(ack.0, ack.1, ack.2) + rest);
        assert(spec_acked_at(b, p + 4) == Some(spec_read_acked(b, p + 4).unwrap()));
    }
}

} // verus!
