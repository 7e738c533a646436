//! The header of every datagram of the connection protocol.
//!
//! Layout, all integers least significant byte first:
//! * `[0..2]`  CRC-16 of the protocol version,
//! * `[2..6]`  CRC-32 (Koopman) of bytes `[6..]`,
//! * `6`       packet type (with reliability and fragmentation bits for payloads),
//! * `[7..15]` connection identity,
//! * `[15..]`  packet data.
use crate::error::{DecodingErrorKind, ErrorKind, IoErrorKind};
use crate::packet::{DeliveryGuarantee, OrderingGuarantee, PacketInfo, PacketType};
use crate::protocol_version::{version_crc16, ProtocolVersion};
use crate::wire::{
    checksum_koopman, crc32_koopman, lemma_u16_le_roundtrip, lemma_u32_le_roundtrip,
    lemma_u64_le_roundtrip, read_u16_le, read_u32_le, read_u64_le, splice, u16_from_le,
    u16_le_bytes, u32_from_le, u32_le_bytes, u64_from_le, u64_le_bytes, write_u16_le, write_u32_le,
    write_u64_le,
};
use vstd::prelude::*;

verus! {

/// The low three bits of the type byte: the packet type.
pub const PACKET_TYPE_MASK: u8 = 0x07;

/// Bits three to six of the type byte: delivery and ordering of a payload.
pub const RELIABILITY_TYPE_MASK: u8 = 0x78;

/// The top bit of the type byte: whether a payload is a fragment.
pub const FRAGMENTATION_TYPE_MASK: u8 = 0x80;

/// Bytes before the packet data.
pub const HEADER_SIZE: usize = 15;

/// The zero bytes that pad a connection request or a challenge response to
/// a whole datagram of 1000 bytes.
pub const ZERO_PAYLOAD_SIZE: usize = 985;

/// What a header announces.
#[derive(Debug, PartialEq, Clone)]
pub enum PacketHeaderType<'a> {
    Disconnect,
    ConnectionRequest,
    Challenge(u64),
    ChallengeResponse,
    ConnectionAccepted,
    ConnectionDenied,
    Payload(PacketInfo<'a>),
}

/// A decoded header: the connection identity and what the packet announces.
#[derive(Debug)]
pub struct PacketHeader<'a> {
    pub identity: u64,
    pub packet: PacketHeaderType<'a>,
}

/// The mathematical content of a `PacketHeaderType`.
pub enum HeaderModel {
    Disconnect,
    ConnectionRequest,
    Challenge(u64),
    ChallengeResponse,
    ConnectionAccepted,
    ConnectionDenied,
    Payload(PacketType, Seq<u8>, DeliveryGuarantee, OrderingGuarantee),
}

impl<'a> PacketHeaderType<'a> {
    pub open spec fn model(self) -> HeaderModel {
        match self {
            PacketHeaderType::Disconnect => HeaderModel::Disconnect,
            PacketHeaderType::ConnectionRequest => HeaderModel::ConnectionRequest,
            PacketHeaderType::Challenge(s) => HeaderModel::Challenge(s),
            PacketHeaderType::ChallengeResponse => HeaderModel::ChallengeResponse,
            PacketHeaderType::ConnectionAccepted => HeaderModel::ConnectionAccepted,
            PacketHeaderType::ConnectionDenied => HeaderModel::ConnectionDenied,
            PacketHeaderType::Payload(info) => HeaderModel::Payload(
                info.packet_type,
                info.payload@,
                info.delivery,
                info.ordering,
            ),
        }
    }
}

/// `n` zero bytes.
pub open spec fn zeros(n: nat) -> Seq<u8> {
    Seq::new(n, |i: int| 0u8)
}

/// The three reliability bits of a payload, where the combination has one.
pub open spec fn reliability_code(d: DeliveryGuarantee, o: OrderingGuarantee) -> Option<u8> {
    match (d, o) {
        (DeliveryGuarantee::Unreliable, OrderingGuarantee::Unordered) => Some(0u8),
        (DeliveryGuarantee::Unreliable, OrderingGuarantee::Sequenced(_)) => Some(1u8),
        (DeliveryGuarantee::Reliable, OrderingGuarantee::Unordered) => Some(2u8),
        (DeliveryGuarantee::Reliable, OrderingGuarantee::Sequenced(_)) => Some(3u8),
        (DeliveryGuarantee::Reliable, OrderingGuarantee::Ordered(_)) => Some(4u8),
        (DeliveryGuarantee::Unreliable, OrderingGuarantee::Ordered(_)) => None,
    }
}

/// Whether a header can be written (an unreliable, ordered payload cannot).
pub open spec fn writable(h: HeaderModel) -> bool {
    match h {
        HeaderModel::Payload(_, _, d, o) => reliability_code(d, o) is Some,
        _ => true,
    }
}

/// What the type byte of a payload header says, or why it says nothing.
pub open spec fn spec_packet_info(type_byte: u8) -> Result<
    (PacketType, DeliveryGuarantee, OrderingGuarantee),
    ErrorKind,
> {
    let reliability_type = (type_byte & RELIABILITY_TYPE_MASK) >> 3u8;
    let fragmentation_type = (type_byte & FRAGMENTATION_TYPE_MASK) >> 7u8;
    let packet_type = if fragmentation_type == 0 {
        PacketType::Packet
    } else {
        PacketType::Fragment
    };
    if reliability_type == 0 {
        Ok((packet_type, DeliveryGuarantee::Unreliable, OrderingGuarantee::Unordered))
    } else if reliability_type == 1 {
        Ok((packet_type, DeliveryGuarantee::Unreliable, OrderingGuarantee::Sequenced(None)))
    } else if reliability_type == 2 {
        Ok((packet_type, DeliveryGuarantee::Reliable, OrderingGuarantee::Unordered))
    } else if reliability_type == 3 {
        Ok((packet_type, DeliveryGuarantee::Reliable, OrderingGuarantee::Sequenced(None)))
    } else if reliability_type == 4 {
        Ok((packet_type, DeliveryGuarantee::Reliable, OrderingGuarantee::Ordered(None)))
    } else {
        Err(ErrorKind::DecodingError(DecodingErrorKind::PacketType))
    }
}

/// The type byte that a writable header is written with.
pub open spec fn type_byte(h: HeaderModel) -> u8 {
    match h {
        HeaderModel::Disconnect => 0,
        HeaderModel::ConnectionRequest => 1,
        HeaderModel::Challenge(_) => 2,
        HeaderModel::ChallengeResponse => 3,
        HeaderModel::ConnectionAccepted => 5,
        HeaderModel::ConnectionDenied => 6,
        HeaderModel::Payload(pt, _, d, o) => {
            let fragment_byte: u8 = if pt == PacketType::Fragment {
                1
            } else {
                0
            };
            4u8 | (reliability_code(d, o).unwrap() << 3u8) | (fragment_byte << 7u8)
        },
    }
}

/// The packet data of a header, before it is cut to the room in the buffer.
pub open spec fn body_bytes(h: HeaderModel) -> Seq<u8> {
    match h {
        HeaderModel::ConnectionRequest => zeros(ZERO_PAYLOAD_SIZE as nat),
        HeaderModel::ChallengeResponse => zeros(ZERO_PAYLOAD_SIZE as nat),
        HeaderModel::Challenge(s) => u64_le_bytes(s),
        HeaderModel::Payload(_, p, _, _) => p,
        _ => Seq::empty(),
    }
}

/// Writing fails only where a challenge's salt does not fit into the buffer.
pub open spec fn write_fails(h: HeaderModel, buf_len: nat) -> bool {
    h is Challenge && buf_len < HEADER_SIZE + 8
}

/// The packet data written into a buffer of `buf_len` bytes: as much as fits.
pub open spec fn written_body(h: HeaderModel, buf_len: nat) -> Seq<u8> {
    let room = buf_len - HEADER_SIZE;
    let b = body_bytes(h);
    if b.len() <= room {
        b
    } else {
        b.take(room)
    }
}

/// The bytes from the type byte on.
pub open spec fn encoded_rest(identity: u64, h: HeaderModel, buf_len: nat) -> Seq<u8> {
    seq![type_byte(h)] + u64_le_bytes(identity) + written_body(h, buf_len)
}

/// The bytes of a header written into a buffer of `buf_len` bytes.
pub open spec fn spec_encode(identity: u64, h: HeaderModel, buf_len: nat) -> Seq<u8> {
    let rest = encoded_rest(identity, h, buf_len);
    u16_le_bytes(version_crc16()) + u32_le_bytes(crc32_koopman(rest)) + rest
}

/// What reading a header from `v` gives.
pub open spec fn spec_decode(v: Seq<u8>) -> Result<(u64, HeaderModel), ErrorKind> {
    let eof = ErrorKind::IOError(IoErrorKind::UnexpectedEof);
    if v.len() < 2 {
        Err(eof)
    } else if u16_from_le(v.subrange(0, 2)) != version_crc16() {
        Err(ErrorKind::ProtocolVersionMismatch)
    } else if v.len() < 6 {
        Err(eof)
    } else if u32_from_le(v.subrange(2, 6)) != crc32_koopman(v.subrange(6, v.len() as int)) {
        Err(ErrorKind::ProtocolVersionMismatch)
    } else if v.len() < HEADER_SIZE {
        Err(eof)
    } else {
        let t = v[6];
        let identity = u64_from_le(v.subrange(7, 15));
        let payload = v.subrange(15, v.len() as int);
        let kind = t & PACKET_TYPE_MASK;
        if kind == 0 {
            Ok((identity, HeaderModel::Disconnect))
        } else if kind == 1 {
            if payload == zeros(ZERO_PAYLOAD_SIZE as nat) {
                Ok((identity, HeaderModel::ConnectionRequest))
            } else {
                Err(ErrorKind::DecodingError(DecodingErrorKind::PacketType))
            }
        } else if kind == 2 {
            if v.len() < HEADER_SIZE + 8 {
                Err(eof)
            } else {
                Ok((identity, HeaderModel::Challenge(u64_from_le(v.subrange(15, 23)))))
            }
        } else if kind == 3 {
            if payload == zeros(ZERO_PAYLOAD_SIZE as nat) {
                Ok((identity, HeaderModel::ChallengeResponse))
            } else {
                Err(ErrorKind::DecodingError(DecodingErrorKind::PacketType))
            }
        } else if kind == 4 {
            match spec_packet_info(t) {
                Ok((pt, d, o)) => Ok((identity, HeaderModel::Payload(pt, payload, d, o))),
                Err(e) => Err(e),
            }
        } else if kind == 5 {
            Ok((identity, HeaderModel::ConnectionAccepted))
        } else if kind == 6 {
            Ok((identity, HeaderModel::ConnectionDenied))
        } else {
            Err(ErrorKind::DecodingError(DecodingErrorKind::PacketType))
        }
    }
}

/// Whether `payload` is exactly the zero padding of a request or response.
fn is_zero_padding(payload: &[u8]) -> (r: bool)
    ensures
        r == (payload@ == zeros(ZERO_PAYLOAD_SIZE as nat)),
{
    if payload.len() != ZERO_PAYLOAD_SIZE {
        return false;
    }
    let mut i: usize = 0;
    while i < payload.len()
        invariant
            payload@.len() == ZERO_PAYLOAD_SIZE,
            i <= payload@.len(),
            forall|j: int| 0 <= j < i ==> payload@[j] == 0u8,
        decreases payload@.len() - i,
    {
        if payload[i] != 0 {
            assert(payload@[i as int] != zeros(ZERO_PAYLOAD_SIZE as nat)[i as int]);
            return false;
        }
        i = i + 1;
    }
    assert(payload@ =~= zeros(ZERO_PAYLOAD_SIZE as nat));
    true
}

/// Copies the first `n` bytes of `src` into `buf` at `pos`.
fn copy_into(buf: &mut [u8], pos: usize, src: &[u8], n: usize)
    requires
        pos + n <= old(buf)@.len(),
        n <= src@.len(),
    ensures
        final(buf)@ == splice(old(buf)@, pos as int, src@.take(n as int)),
{
    let ghost start = buf@;
    let len = buf.len();
    let mut i: usize = 0;
    while i < n
        invariant
            pos + n <= start.len(),
            n <= src@.len(),
            i <= n,
            buf@.len() == start.len(),
            len == start.len(),
            buf@ == splice(start, pos as int, src@.take(i as int)),
        decreases n - i,
    {
        buf[pos + i] = src[i];
        i = i + 1;
        assert(buf@ =~= splice(start, pos as int, src@.take(i as int)));
    }
}

/// Writes `n` zero bytes into `buf` at `pos`.
fn fill_zeros(buf: &mut [u8], pos: usize, n: usize)
    requires
        pos + n <= old(buf)@.len(),
    ensures
        final(buf)@ == splice(old(buf)@, pos as int, zeros(n as nat)),
{
    let ghost start = buf@;
    let len = buf.len();
    let mut i: usize = 0;
    while i < n
        invariant
            pos + n <= start.len(),
            i <= n,
            buf@.len() == start.len(),
            len == start.len(),
            buf@ == splice(start, pos as int, zeros(i as nat)),
        decreases n - i,
    {
        buf[pos + i] = 0;
        i = i + 1;
        assert(buf@ =~= splice(start, pos as int, zeros(i as nat)));
    }
}

/// Reads the delivery, ordering and fragmentation bits of a payload's type
/// byte; the payload is passed through.
pub fn get_packet_info<'a>(type_byte: u8, payload: &'a [u8]) -> (r: Result<PacketInfo<'a>, ErrorKind>)
    ensures
        match r {
            Ok(info) => spec_packet_info(type_byte) == Ok::<_, ErrorKind>(
                (info.packet_type, info.delivery, info.ordering),
            ) && info.payload@ == payload@,
            Err(e) => spec_packet_info(type_byte) == Err::<
                (PacketType, DeliveryGuarantee, OrderingGuarantee),
                _,
            >(e),
        },
{
    let reliability_type = (type_byte & RELIABILITY_TYPE_MASK) >> 3u8;
    let fragmentation_type = (type_byte & FRAGMENTATION_TYPE_MASK) >> 7u8;
    let packet_type = if fragmentation_type == 0 {
        PacketType::Packet
    } else {
        PacketType::Fragment
    };
    let (delivery, ordering) = if reliability_type == 0 {
        (DeliveryGuarantee::Unreliable, OrderingGuarantee::Unordered)
    } else if reliability_type == 1 {
        (DeliveryGuarantee::Unreliable, OrderingGuarantee::Sequenced(None))
    } else if reliability_type == 2 {
        (DeliveryGuarantee::Reliable, OrderingGuarantee::Unordered)
    } else if reliability_type == 3 {
        (DeliveryGuarantee::Reliable, OrderingGuarantee::Sequenced(None))
    } else if reliability_type == 4 {
        (DeliveryGuarantee::Reliable, OrderingGuarantee::Ordered(None))
    } else {
        return Err(ErrorKind::DecodingError(DecodingErrorKind::PacketType));
    };
    Ok(PacketInfo { packet_type, payload, delivery, ordering })
}

impl<'a> PacketHeader<'a> {
    /// Reads a header; the payload of a `Payload` header borrows the bytes
    /// after the header.
    pub fn from_bytes(value: &'a [u8]) -> (r: Result<PacketHeader<'a>, ErrorKind>)
        ensures
            match r {
                Ok(h) => spec_decode(value@) == Ok::<_, ErrorKind>(
                    (h.identity, h.packet.model()),
                ),
                Err(e) => spec_decode(value@) == Err::<(u64, HeaderModel), _>(e),
            },
    {
        let eof = ErrorKind::IOError(IoErrorKind::UnexpectedEof);
        if value.len() < 2 {
            return Err(eof);
        }
        let protocol_version = read_u16_le(value, 0);
        if !ProtocolVersion::valid_version(protocol_version) {
            return Err(ErrorKind::ProtocolVersionMismatch);
        }
        if value.len() < 6 {
            return Err(eof);
        }
        let checksum = read_u32_le(value, 2);
        if checksum != checksum_koopman(&value[6..value.len()]) {
            return Err(ErrorKind::ProtocolVersionMismatch);
        }
        if value.len() < HEADER_SIZE {
            return Err(eof);
        }
        let packet_type_byte = value[6];
        let identity = read_u64_le(value, 7);
        let packet_type = packet_type_byte & PACKET_TYPE_MASK;
        let payload: &'a [u8] = &value[HEADER_SIZE..value.len()];
        let packet = if packet_type == 0 {
            PacketHeaderType::Disconnect
        } else if packet_type == 1 {
            if !is_zero_padding(payload) {
                return Err(ErrorKind::DecodingError(DecodingErrorKind::PacketType));
            }
            PacketHeaderType::ConnectionRequest
        } else if packet_type == 2 {
            if value.len() < HEADER_SIZE + 8 {
                return Err(eof);
            }
            PacketHeaderType::Challenge(read_u64_le(value, HEADER_SIZE))
        } else if packet_type == 3 {
            if !is_zero_padding(payload) {
                return Err(ErrorKind::DecodingError(DecodingErrorKind::PacketType));
            }
            PacketHeaderType::ChallengeResponse
        } else if packet_type == 4 {
            match get_packet_info(packet_type_byte, payload) {
                Ok(info) => PacketHeaderType::Payload(info),
                Err(e) => return Err(e),
            }
        } else if packet_type == 5 {
            PacketHeaderType::ConnectionAccepted
        } else if packet_type == 6 {
            PacketHeaderType::ConnectionDenied
        } else {
            return Err(ErrorKind::DecodingError(DecodingErrorKind::PacketType));
        };
        Ok(PacketHeader { identity, packet })
    }

    /// Writes the packet data at byte 15 of `buf`, as much of it as fits,
    /// and gives the type byte and the number of data bytes written.
    fn write_packet_data_and_get_packet_type(&self, buf: &mut [u8]) -> (r: Result<
        (u8, usize),
        ErrorKind,
    >)
        requires
            old(buf)@.len() >= HEADER_SIZE,
            writable(self.packet.model()),
        ensures
            write_fails(self.packet.model(), old(buf)@.len()) ==> {
                &&& r == Err::<(u8, usize), _>(ErrorKind::IOError(IoErrorKind::WriteZero))
                &&& final(buf)@ == splice(
                    old(buf)@,
                    HEADER_SIZE as int,
                    body_bytes(self.packet.model()).take(old(buf)@.len() - HEADER_SIZE),
                )
            },
            !write_fails(self.packet.model(), old(buf)@.len()) ==> {
                &&& r == Ok::<_, ErrorKind>(
                    (
                        type_byte(self.packet.model()),
                        written_body(self.packet.model(), old(buf)@.len()).len() as usize,
                    ),
                )
                &&& final(buf)@ == splice(
                    old(buf)@,
                    HEADER_SIZE as int,
                    written_body(self.packet.model(), old(buf)@.len()),
                )
            },
    {
        let room = buf.len() - HEADER_SIZE;
        match &self.packet {
            PacketHeaderType::Disconnect => {
                assert(buf@ =~= splice(buf@, HEADER_SIZE as int, Seq::<u8>::empty()));
                Ok((0, 0))
            },
            PacketHeaderType::ConnectionRequest => {
                let n = if room < ZERO_PAYLOAD_SIZE {
                    room
                } else {
                    ZERO_PAYLOAD_SIZE
                };
                fill_zeros(buf, HEADER_SIZE, n);
                assert(zeros(n as nat) =~= written_body(self.packet.model(), old(buf)@.len()));
                Ok((1, n))
            },
            PacketHeaderType::Challenge(server_salt) => {
                if room < 8 {
                    proof {
                        lemma_u64_le_roundtrip(*server_salt);
                    }
                    let mut bytes: Vec<u8> = vec![0u8; 8];
                    write_u64_le(bytes.as_mut_slice(), 0, *server_salt);
                    assert(bytes@ =~= u64_le_bytes(*server_salt));
                    copy_into(buf, HEADER_SIZE, bytes.as_slice(), room);
                    return Err(ErrorKind::IOError(IoErrorKind::WriteZero));
                }
                write_u64_le(buf, HEADER_SIZE, *server_salt);
                proof {
                    lemma_u64_le_roundtrip(*server_salt);
                }
                Ok((2, 8))
            },
            PacketHeaderType::ChallengeResponse => {
                let n = if room < ZERO_PAYLOAD_SIZE {
                    room
                } else {
                    ZERO_PAYLOAD_SIZE
                };
                fill_zeros(buf, HEADER_SIZE, n);
                assert(zeros(n as nat) =~= written_body(self.packet.model(), old(buf)@.len()));
                Ok((3, n))
            },
            PacketHeaderType::ConnectionAccepted => {
                assert(buf@ =~= splice(buf@, HEADER_SIZE as int, Seq::<u8>::empty()));
                Ok((5, 0))
            },
            PacketHeaderType::ConnectionDenied => {
                assert(buf@ =~= splice(buf@, HEADER_SIZE as int, Seq::<u8>::empty()));
                Ok((6, 0))
            },
            PacketHeaderType::Payload(packet_info) => {
                let n = if room < packet_info.payload.len() {
                    room
                } else {
                    packet_info.payload.len()
                };
                copy_into(buf, HEADER_SIZE, packet_info.payload, n);
                assert(packet_info.payload@.take(n as int) =~= written_body(
                    self.packet.model(),
                    old(buf)@.len(),
                ));
                let fragment_byte: u8 = match packet_info.packet_type {
                    PacketType::Fragment => 1,
                    _ => 0,
                };
                let reliability_byte: u8 = match (packet_info.delivery, packet_info.ordering) {
                    (DeliveryGuarantee::Unreliable, OrderingGuarantee::Unordered) => 0,
                    (DeliveryGuarantee::Unreliable, OrderingGuarantee::Sequenced(_)) => 1,
                    (DeliveryGuarantee::Reliable, OrderingGuarantee::Unordered) => 2,
                    (DeliveryGuarantee::Reliable, OrderingGuarantee::Sequenced(_)) => 3,
                    (DeliveryGuarantee::Reliable, OrderingGuarantee::Ordered(_)) => 4,
                    (DeliveryGuarantee::Unreliable, OrderingGuarantee::Ordered(_)) => {
                        assert(false);
                        0
                    },
                };
                Ok((4u8 | (reliability_byte << 3u8) | (fragment_byte << 7u8), n))
            },
        }
    }
}


impl<'a> PacketHeader<'a> {
    /// Writes the header and its packet data into `buf` and gives the number
    /// of bytes written. Packet data that does not fit is cut off, except a
    /// challenge's salt, which fails the write.
    pub fn into_bytes(self, buf: &mut [u8]) -> (r: Result<usize, ErrorKind>)
        requires
            old(buf)@.len() >= HEADER_SIZE,
            writable(self.packet.model()),
        ensures
            write_fails(self.packet.model(), old(buf)@.len()) ==> {
                &&& r == Err::<usize, _>(ErrorKind::IOError(IoErrorKind::WriteZero))
                &&& final(buf)@ == splice(
                    old(buf)@,
                    HEADER_SIZE as int,
                    body_bytes(self.packet.model()).take(old(buf)@.len() - HEADER_SIZE),
                )
            },
            !write_fails(self.packet.model(), old(buf)@.len()) ==> {
                let bytes = spec_encode(self.identity, self.packet.model(), old(buf)@.len());
                &&& r == Ok::<_, ErrorKind>(bytes.len() as usize)
                &&& final(buf)@ == splice(old(buf)@, 0, bytes)
            },
    {
        let ghost model = self.packet.model();
        let ghost start = buf@;
        let total = buf.len();
        let (packet_type, written_bytes) = match self.write_packet_data_and_get_packet_type(buf) {
            Ok(res) => res,
            Err(e) => return Err(e),
        };
        let ghost body = written_body(model, start.len());
        assert(buf@.subrange(15, 15 + body.len() as int) =~= body);
        assert(written_bytes <= start.len() - HEADER_SIZE);
        let packet_size = written_bytes + HEADER_SIZE;
        buf[6] = packet_type;
        write_u64_le(buf, 7, self.identity);
        let ghost rest = encoded_rest(self.identity, model, start.len());
        proof {
            lemma_u64_le_roundtrip(self.identity);
            assert(buf@.subrange(6, packet_size as int) =~= rest);
        }
        let checksum = checksum_koopman(&buf[6..packet_size]);
        write_u16_le(buf, 0, ProtocolVersion::get_crc16());
        write_u32_le(buf, 2, checksum);
        proof {
            lemma_u16_le_roundtrip(version_crc16());
            lemma_u32_le_roundtrip(checksum);
            assert(buf@ =~= splice(start, 0, spec_encode(self.identity, model, start.len())));
        }
        Ok(packet_size)
    }
}

/// Whether reading back a header gives exactly what was written: a
/// heartbeat is read back as a packet, and a stream id is not written.
pub open spec fn round_trips(h: HeaderModel) -> bool {
    match h {
        HeaderModel::Payload(pt, _, _, o) => pt != PacketType::Heartbeat && (o
            == OrderingGuarantee::Unordered || o == OrderingGuarantee::Sequenced(None) || o
            == OrderingGuarantee::Ordered(None)),
        _ => true,
    }
}

/// Whether all packet data of a header fits into a buffer of `buf_len` bytes.
pub open spec fn fits(h: HeaderModel, buf_len: nat) -> bool {
    HEADER_SIZE + body_bytes(h).len() <= buf_len
}

proof fn lemma_type_byte_bits(r: u8, f: u8)
    requires
        r <= 4,
        f <= 1,
    ensures
        (4u8 | (r << 3u8) | (f << 7u8)) & PACKET_TYPE_MASK == 4,
        ((4u8 | (r << 3u8) | (f << 7u8)) & RELIABILITY_TYPE_MASK) >> 3u8 == r,
        ((4u8 | (r << 3u8) | (f << 7u8)) & FRAGMENTATION_TYPE_MASK) >> 7u8 == f,
{
    assert((4u8 | (r << 3u8) | (f << 7u8)) & 0x07u8 == 4) by (bit_vector)
        requires
            r <= 4,
            f <= 1,
    ;
    assert(((4u8 | (r << 3u8) | (f << 7u8)) & 0x78u8) >> 3u8 == r) by (bit_vector)
        requires
            r <= 4,
            f <= 1,
    ;
    assert(((4u8 | (r << 3u8) | (f << 7u8)) & 0x80u8) >> 7u8 == f) by (bit_vector)
        requires
            r <= 4,
            f <= 1,
    ;
}

/// Reading back what was written: a header whose packet data fits into the
/// buffer is read back from the written bytes with the same identity and
/// the same content.
pub proof fn lemma_header_roundtrip(identity: u64, h: HeaderModel, buf_len: nat)
    requires
        writable(h),
        round_trips(h),
        fits(h, buf_len),
    ensures
        spec_decode(spec_encode(identity, h, buf_len)) == Ok::<_, ErrorKind>((identity, h)),
{
    let rest = encoded_rest(identity, h, buf_len);
    let e = spec_encode(identity, h, buf_len);
    lemma_u16_le_roundtrip(version_crc16());
    lemma_u32_le_roundtrip(crc32_koopman(rest));
    lemma_u64_le_roundtrip(identity);
    let body = body_bytes(h);
    assert(written_body(h, buf_len) == body);
    assert(e.subrange(0, 2) =~= u16_le_bytes(version_crc16()));
    assert(e.subrange(2, 6) =~= u32_le_bytes(crc32_koopman(rest)));
    assert(e.subrange(6, e.len() as int) =~= rest);
    assert(e[6] == type_byte(h));
    assert(e.subrange(7, 15) =~= u64_le_bytes(identity));
    assert(e.subrange(15, e.len() as int) =~= body);
    match h {
        HeaderModel::Challenge(s) => {
            assert(2u8 & 0x07u8 == 2u8) by (bit_vector);
            lemma_u64_le_roundtrip(s);
            assert(e.subrange(15, 23) =~= u64_le_bytes(s));
        },
        HeaderModel::Payload(pt, p, d, o) => {
            let f: u8 = if pt == PacketType::Fragment {
                1
            } else {
                0
            };
            lemma_type_byte_bits(reliability_code(d, o).unwrap(), f);
        },
        _ => {
            let t = type_byte(h);
            assert(t < 8u8 ==> t & 0x07u8 == t) by (bit_vector);
        },
    }
}

} // verus!
