//! The reliability layer of one connection: it frames outgoing packets with
//! the headers that their guarantees need, and turns incoming datagrams back
//! into packets, acknowledging, ordering, sequencing and reassembling them.
use crate::acknowledgment::{AcknowledgmentHandler, SentPacket};
use crate::arranging::{
    spec_order_deliver, within_half_window, OrderingSystem, SequencingModel, SequencingSystem,
    DEFAULT_ORDERING_STREAM, DEFAULT_SEQUENCING_STREAM,
};
use crate::config::Config;
use crate::error::{ErrorKind, PacketErrorKind};
use crate::fragmentation::{fragment_range, spec_fragments_needed, spec_handle_fragment, Fragmentation};
use crate::headers::{
    acked_bytes, append_bytes, arranging_bytes, fragment_bytes, read_acknowledge_header,
    read_arranging_header, read_fragment, read_standard_header, spec_read_acked,
    spec_read_arranging, spec_read_fragment, spec_read_standard, standard_bytes,
    write_acked_header, write_arranging_header, write_fragment_header, write_standard_header,
    AckedPacketHeader, StandardHeader,
};
use crate::packet::{DeliveryGuarantee, OrderingGuarantee, Packet, PacketInfo, PacketType};
use vstd::prelude::*;
use vstd::slice::slice_to_vec;

verus! {

/// The stream that a packet names, or the default stream.
pub open spec fn stream_or(id: Option<u8>, default: u8) -> u8 {
    match id {
        Some(x) => x,
        None => default,
    }
}

fn unwrap_stream(id: Option<u8>, default: u8) -> (r: u8)
    ensures
        r == stream_or(id, default),
{
    match id {
        Some(x) => x,
        None => default,
    }
}

/// The bytes of each datagram.
pub open spec fn datagrams(v: Seq<Vec<u8>>) -> Seq<Seq<u8>> {
    v.map_values(|x: Vec<u8>| x@)
}

/// An unfragmented datagram: standard header, acknowledgement header where
/// the packet is reliable, arranging header where it is ordered or
/// sequenced, then the payload.
pub open spec fn framed(
    pt: PacketType,
    d: DeliveryGuarantee,
    o: OrderingGuarantee,
    ack: Option<(u16, u16, u32)>,
    arranging: Option<(u16, u8)>,
    payload: Seq<u8>,
) -> Seq<u8> {
    standard_bytes(pt, d, o) + match ack {
        Some((s, a, f)) => acked_bytes(s, a, f),
        None => Seq::empty(),
    } + match arranging {
        Some((id, stream)) => arranging_bytes(id, stream),
        None => Seq::empty(),
    } + payload
}

/// Fragment `i` of `n`: standard header of a fragment, fragment header, the
/// acknowledgement header on the first fragment, then the fragment's bytes.
pub open spec fn framed_fragment(
    d: DeliveryGuarantee,
    o: OrderingGuarantee,
    local: u16,
    i: int,
    n: u8,
    ack: (u16, u16, u32),
    data: Seq<u8>,
) -> Seq<u8> {
    standard_bytes(PacketType::Fragment, d, o) + fragment_bytes(local, i as u8, n) + (if i == 0 {
        acked_bytes(ack.0, ack.1, ack.2)
    } else {
        Seq::empty()
    }) + data
}

/// The sequenced streams after the stream `bump`, where there is one,
/// handed out an index.
pub open spec fn seq_bumped(before: SequencingSystem, after: SequencingSystem, bump: Option<u8>) -> bool {
    forall|id: u8|
        #[trigger] after.stream(id) == if bump == Some(id) {
            SequencingModel { unique: before.stream(id).unique.wrapping_add(1), ..before.stream(id) }
        } else {
            before.stream(id)
        }
}

/// The ordered streams after the stream `bump`, where there is one, handed
/// out an index.
pub open spec fn ord_bumped(
    before: OrderingSystem<(Vec<u8>, PacketType)>,
    after: OrderingSystem<(Vec<u8>, PacketType)>,
    bump: Option<u8>,
) -> bool {
    forall|id: u8|
        #[trigger] after.stream(id) == if bump == Some(id) {
            crate::arranging::OrderingModel {
                unique: before.stream(id).unique.wrapping_add(1),
                ..before.stream(id)
            }
        } else {
            before.stream(id)
        }
}

/// The acknowledgement state after a reliable packet was recorded as sent.
pub open spec fn send_recorded(
    before: AcknowledgmentHandler,
    after: AcknowledgmentHandler,
    pt: PacketType,
    payload: Seq<u8>,
    o: OrderingGuarantee,
    item: Option<u16>,
) -> bool {
    &&& after.wf()
    &&& after.local_seq() == before.local_seq().wrapping_add(1)
    &&& after.remote_ack() == before.remote_ack()
    &&& after.received() == before.received()
    &&& after.sent().dom() == before.sent().dom().insert(before.local_seq())
    &&& after.sent()[before.local_seq()].packet_type == pt
    &&& after.sent()[before.local_seq()].payload@ == payload
    &&& after.sent()[before.local_seq()].ordering_guarantee == o
    &&& after.sent()[before.local_seq()].item_identifier == item
    &&& forall|k: u16|
        k != before.local_seq() && before.sent().contains_key(k) ==> #[trigger] after.sent()[k]
            == before.sent()[k]
}

/// The index and stream of the arranging header of an unfragmented packet,
/// where it has one: a given index is reused, else the stream hands out its
/// next one.
pub open spec fn arranging_of(
    sys: ReliabilitySystem,
    d: DeliveryGuarantee,
    o: OrderingGuarantee,
    last: Option<u16>,
) -> Option<(u16, u8)> {
    match o {
        OrderingGuarantee::Sequenced(s) => {
            let sid = stream_or(s, DEFAULT_SEQUENCING_STREAM);
            let fresh = sys.sequencing().stream(sid).unique;
            Some(
                (
                    match (d, last) {
                        (DeliveryGuarantee::Reliable, Some(x)) => x,
                        _ => fresh,
                    },
                    sid,
                ),
            )
        },
        OrderingGuarantee::Ordered(s) => {
            let sid = stream_or(s, DEFAULT_ORDERING_STREAM);
            if d == DeliveryGuarantee::Reliable {
                Some(
                    (
                        match last {
                            Some(x) => x,
                            None => sys.ordering().stream(sid).unique,
                        },
                        sid,
                    ),
                )
            } else {
                None
            }
        },
        OrderingGuarantee::Unordered => None,
    }
}

/// The sequenced stream that hands out an index for an unfragmented packet.
pub open spec fn seq_bump_of(d: DeliveryGuarantee, o: OrderingGuarantee, last: Option<u16>) -> Option<u8> {
    match o {
        OrderingGuarantee::Sequenced(s) => if d == DeliveryGuarantee::Unreliable || last is None {
            Some(stream_or(s, DEFAULT_SEQUENCING_STREAM))
        } else {
            None
        },
        _ => None,
    }
}

/// The ordered stream that hands out an index for an unfragmented packet.
pub open spec fn ord_bump_of(d: DeliveryGuarantee, o: OrderingGuarantee, last: Option<u16>) -> Option<u8> {
    match o {
        OrderingGuarantee::Ordered(s) => if d == DeliveryGuarantee::Reliable && last is None {
            Some(stream_or(s, DEFAULT_ORDERING_STREAM))
        } else {
            None
        },
        _ => None,
    }
}

/// What a delivered packet holds: payload, guarantees, packet type.
pub open spec fn incoming_view(v: Seq<(Packet, PacketType)>) -> Seq<
    (Seq<u8>, DeliveryGuarantee, OrderingGuarantee, PacketType),
> {
    v.map_values(
        |x: (Packet, PacketType)| (x.0.payload@, x.0.delivery, x.0.ordering, x.1),
    )
}

/// The acknowledgement state after an acknowledgement header was taken in.
pub open spec fn ack_received(
    before: AcknowledgmentHandler,
    after: AcknowledgmentHandler,
    a: AckedPacketHeader,
) -> bool {
    &&& after.wf()
    &&& after.local_seq() == before.local_seq()
    &&& after.remote_ack() == (if crate::sequence_buffer::seq_gt(a.ack_seq, before.remote_ack()) {
        a.ack_seq
    } else {
        before.remote_ack()
    })
    &&& (after.received().seq_num(), after.received().slots()) == crate::sequence_buffer::spec_insert(
        before.received().seq_num(),
        before.received().slots(),
        a.seq,
        (),
    )
    &&& after.sent() == before.sent().remove_keys(
        Set::new(|k: u16| crate::acknowledgment::acked(a.ack_seq, a.ack_field, k)),
    )
}

/// The sequenced streams after stream `sid` delivered index `id`.
pub open spec fn seq_moved(before: SequencingSystem, after: SequencingSystem, sid: u8, id: u16) -> bool {
    forall|x: u8|
        #[trigger] after.stream(x) == if x == sid {
            SequencingModel { top: id, ..before.stream(x) }
        } else {
            before.stream(x)
        }
}

/// Whether every sequenced stream is in the same state.
pub open spec fn seq_same(before: SequencingSystem, after: SequencingSystem) -> bool {
    forall|x: u8| #[trigger] after.stream(x) == before.stream(x)
}

/// What packets of ordered stream `sid` look like once delivered.
pub open spec fn ordered_view(items: Seq<(Vec<u8>, PacketType)>, d: DeliveryGuarantee, sid: u8) -> Seq<
    (Seq<u8>, DeliveryGuarantee, OrderingGuarantee, PacketType),
> {
    items.map_values(
        |x: (Vec<u8>, PacketType)| (x.0@, d, OrderingGuarantee::Ordered(Some(sid)), x.1),
    )
}

/// An ordered datagram of stream `sid` with index `id` arrived: the stream
/// moved as `spec_order_deliver` says for an item holding the payload and
/// the packet type, the other streams stayed, and `r` holds what was
/// delivered, in order.
pub open spec fn ordered_delivery(
    before: OrderingSystem<(Vec<u8>, PacketType)>,
    after: OrderingSystem<(Vec<u8>, PacketType)>,
    sid: u8,
    id: u16,
    payload: Seq<u8>,
    pt: PacketType,
    d: DeliveryGuarantee,
    r: Seq<(Packet, PacketType)>,
) -> bool {
    &&& forall|x: u8| x != sid ==> #[trigger] after.stream(x) == before.stream(x)
    &&& exists|item: (Vec<u8>, PacketType)|
        {
            &&& item.0@ == payload
            &&& item.1 == pt
            &&& #[trigger] spec_order_deliver(before.stream(sid), id, item).0 == after.stream(sid)
            &&& ordered_view(spec_order_deliver(before.stream(sid), id, item).1, d, sid)
                == incoming_view(r)
        }
}

/// One outgoing packet went through the reliability layer `before`, which
/// became `after` and gave `r`: unreliable packets are framed without an
/// acknowledgement header and refused above the receive buffer; reliable
/// ones are refused above 65535 bytes, recorded as sent, and split into
/// fragments where the payload is larger than a fragment.
pub open spec fn outgoing_step(
    before: ReliabilitySystem,
    after: ReliabilitySystem,
    pt: PacketType,
    d: DeliveryGuarantee,
    o: OrderingGuarantee,
    payload: Seq<u8>,
    last: Option<u16>,
    r: Result<Vec<Vec<u8>>, ErrorKind>,
) -> bool {
    let cfg = before.config();
    let arr = arranging_of(before, d, o, last);
    let plen = payload.len() as u16;
    let num = spec_fragments_needed(plen, cfg.fragment_size) as u8;
    if d == DeliveryGuarantee::Unreliable {
        if payload.len() <= cfg.receive_buffer_max_size {
            &&& r is Ok
            &&& datagrams(r.unwrap()@) == seq![framed(pt, d, o, None, arr, payload)]
            &&& after.acks() == before.acks()
            &&& after.ordering() == before.ordering()
            &&& seq_bumped(before.sequencing(), after.sequencing(), seq_bump_of(d, o, last))
        } else {
            &&& r == Err::<Vec<Vec<u8>>, _>(ErrorKind::PacketError(PacketErrorKind::ExceededMaxPacketSize))
            &&& after.acks() == before.acks()
            &&& after.ordering() == before.ordering()
            &&& after.sequencing() == before.sequencing()
        }
    } else if payload.len() > u16::MAX {
        &&& r == Err::<Vec<Vec<u8>>, _>(ErrorKind::PacketError(PacketErrorKind::ExceededMaxPacketSize))
        &&& after.acks() == before.acks()
        &&& after.ordering() == before.ordering()
        &&& after.sequencing() == before.sequencing()
    } else if plen <= cfg.fragment_size {
        &&& r is Ok
        &&& datagrams(r.unwrap()@) == seq![framed(pt, d, o, Some(before.next_ack()), arr, payload)]
        &&& send_recorded(before.acks(), after.acks(), pt, payload, o, match arr {
            Some((id, _)) => Some(id),
            None => None,
        })
        &&& ord_bumped(before.ordering(), after.ordering(), ord_bump_of(d, o, last))
        &&& seq_bumped(before.sequencing(), after.sequencing(), seq_bump_of(d, o, last))
    } else if pt != PacketType::Packet || num > cfg.max_fragments {
        &&& r == Err::<Vec<Vec<u8>>, _>(if pt != PacketType::Packet {
            ErrorKind::PacketError(PacketErrorKind::PacketCannotBeFragmented)
        } else {
            ErrorKind::FragmentError(crate::error::FragmentErrorKind::ExceededMaxFragments)
        })
        &&& after.acks() == before.acks()
        &&& after.ordering() == before.ordering()
        &&& after.sequencing() == before.sequencing()
    } else {
        &&& r is Ok
        &&& datagrams(r.unwrap()@).len() == num
        &&& forall|i: int|
            0 <= i < num ==> #[trigger] datagrams(r.unwrap()@)[i] == framed_fragment(
                d,
                o,
                before.acks().local_seq(),
                i,
                num,
                before.next_ack(),
                payload.subrange(
                    fragment_range(i, cfg.fragment_size, plen).0,
                    fragment_range(i, cfg.fragment_size, plen).1,
                ),
            )
        &&& send_recorded(before.acks(), after.acks(), pt, payload, o, None)
        &&& after.ordering() == before.ordering()
        &&& after.sequencing() == before.sequencing()
    }
}

/// One incoming datagram `b` went through the reliability layer `o`, which
/// became `f` and gave `r`: the headers are read, the acknowledgement header
/// taken in, and the packet arranged in its stream or reassembled from its
/// fragments.
pub open spec fn incoming_step(
    o: ReliabilitySystem,
    f: ReliabilitySystem,
    b: Seq<u8>,
    r: Result<Vec<(Packet, PacketType)>, ErrorKind>,
) -> bool {
    match spec_read_standard(b) {
        Err(e) => {
            &&& r == Err::<Vec<(Packet, PacketType)>, _>(e)
            &&& f.acks() == o.acks()
            &&& f.ordering() == o.ordering()
            &&& f.sequencing() == o.sequencing()
            &&& f.fragments() == o.fragments()
        },
        Ok(h) => if h.delivery_guarantee == DeliveryGuarantee::Unreliable {
            &&& f.acks() == o.acks()
            &&& f.ordering() == o.ordering()
            &&& f.fragments() == o.fragments()
            &&& if h.ordering_guarantee is Sequenced {
                match spec_read_arranging(b, 5) {
                    Err(e) => r == Err::<Vec<(Packet, PacketType)>, _>(e) && f.sequencing()
                        == o.sequencing(),
                    Ok(a) => if within_half_window(
                        o.sequencing().stream(a.stream_id).top,
                        a.arranging_id,
                    ) {
                        &&& r is Ok
                        &&& incoming_view(r.unwrap()@) == seq![
                            (
                                b.subrange(8, b.len() as int),
                                h.delivery_guarantee,
                                OrderingGuarantee::Sequenced(Some(a.stream_id)),
                                h.packet_type,
                            ),
                        ]
                        &&& seq_moved(o.sequencing(), f.sequencing(), a.stream_id, a.arranging_id)
                    } else {
                        &&& r is Ok
                        &&& r.unwrap()@.len() == 0
                        &&& seq_same(o.sequencing(), f.sequencing())
                    },
                }
            } else {
                &&& r is Ok
                &&& incoming_view(r.unwrap()@) == seq![
                    (
                        b.subrange(5, b.len() as int),
                        h.delivery_guarantee,
                        h.ordering_guarantee,
                        h.packet_type,
                    ),
                ]
                &&& f.sequencing() == o.sequencing()
            }
        } else if h.packet_type == PacketType::Fragment {
            &&& f.ordering() == o.ordering()
            &&& f.sequencing() == o.sequencing()
            &&& match spec_read_fragment(b, 5) {
                Err(_) => {
                    &&& r is Ok
                    &&& r.unwrap()@.len() == 0
                    &&& f.acks() == o.acks()
                    &&& f.fragments() == o.fragments()
                },
                Ok((fh, ah)) => {
                    let pos: int = if ah is Some {
                        17
                    } else {
                        9
                    };
                    let (n, slots, res) = spec_handle_fragment(
                        o.fragments().seq_num(),
                        o.fragments().slots(),
                        fh,
                        b.subrange(pos, b.len() as int),
                        ah,
                    );
                    &&& f.fragments().seq_num() == n
                    &&& f.fragments().slots() == slots
                    &&& match res {
                        Ok(Some((buf, a))) => {
                            &&& r is Ok
                            &&& incoming_view(r.unwrap()@) == seq![
                                (
                                    buf,
                                    h.delivery_guarantee,
                                    h.ordering_guarantee,
                                    PacketType::Packet,
                                ),
                            ]
                            &&& ack_received(o.acks(), f.acks(), a)
                        },
                        Ok(None) => r is Ok && r.unwrap()@.len() == 0 && f.acks() == o.acks(),
                        Err(e) => r == Err::<Vec<(Packet, PacketType)>, _>(e) && f.acks()
                            == o.acks(),
                    }
                },
            }
        } else {
            &&& f.fragments() == o.fragments()
            &&& match spec_read_acked(b, 5) {
                Err(e) => {
                    &&& r == Err::<Vec<(Packet, PacketType)>, _>(e)
                    &&& f.acks() == o.acks()
                    &&& f.ordering() == o.ordering()
                    &&& f.sequencing() == o.sequencing()
                },
                Ok(ack) => {
                    &&& ack_received(o.acks(), f.acks(), ack)
                    &&& if h.ordering_guarantee is Sequenced {
                        &&& f.ordering() == o.ordering()
                        &&& match spec_read_arranging(b, 13) {
                            Err(e) => r == Err::<Vec<(Packet, PacketType)>, _>(e)
                                && f.sequencing() == o.sequencing(),
                            Ok(a) => if within_half_window(
                                o.sequencing().stream(a.stream_id).top,
                                a.arranging_id,
                            ) {
                                &&& r is Ok
                                &&& incoming_view(r.unwrap()@) == seq![
                                    (
                                        b.subrange(16, b.len() as int),
                                        h.delivery_guarantee,
                                        OrderingGuarantee::Sequenced(Some(a.stream_id)),
                                        h.packet_type,
                                    ),
                                ]
                                &&& seq_moved(
                                    o.sequencing(),
                                    f.sequencing(),
                                    a.stream_id,
                                    a.arranging_id,
                                )
                            } else {
                                &&& r is Ok
                                &&& r.unwrap()@.len() == 0
                                &&& seq_same(o.sequencing(), f.sequencing())
                            },
                        }
                    } else if h.ordering_guarantee is Ordered {
                        &&& f.sequencing() == o.sequencing()
                        &&& match spec_read_arranging(b, 13) {
                            Err(e) => r == Err::<Vec<(Packet, PacketType)>, _>(e)
                                && f.ordering() == o.ordering(),
                            Ok(a) => {
                                &&& r is Ok
                                &&& ordered_delivery(
                                    o.ordering(),
                                    f.ordering(),
                                    a.stream_id,
                                    a.arranging_id,
                                    b.subrange(16, b.len() as int),
                                    h.packet_type,
                                    h.delivery_guarantee,
                                    r.unwrap()@,
                                )
                            },
                        }
                    } else {
                        &&& r is Ok
                        &&& incoming_view(r.unwrap()@) == seq![
                            (
                                b.subrange(13, b.len() as int),
                                h.delivery_guarantee,
                                h.ordering_guarantee,
                                h.packet_type,
                            ),
                        ]
                        &&& f.ordering() == o.ordering()
                        &&& f.sequencing() == o.sequencing()
                    }
                },
            }
        },
    }
}

/// The lost reliable packets `r` were taken out of the acknowledgement
/// table of `before`, which became `after`, in increasing order of sequence
/// number; nothing else changed.
pub open spec fn gather_step(before: ReliabilitySystem, after: ReliabilitySystem, r: Seq<SentPacket>) -> bool {
    &&& after.config() == before.config()
    &&& after.ordering() == before.ordering()
    &&& after.sequencing() == before.sequencing()
    &&& after.fragments() == before.fragments()
    &&& after.acks().local_seq() == before.acks().local_seq()
    &&& after.acks().remote_ack() == before.acks().remote_ack()
    &&& after.acks().received() == before.acks().received()
    &&& after.acks().sent() == before.acks().sent().remove_keys(
        Set::new(|k: u16| crate::acknowledgment::is_dropped(before.acks().remote_ack(), k)),
    )
    &&& exists|ks: Seq<u16>|
        {
            &&& #[trigger] crate::acknowledgment::dropped_in_order(
                ks,
                before.acks().sent(),
                before.acks().remote_ack(),
            )
            &&& r.len() == ks.len()
            &&& forall|i: int| 0 <= i < ks.len() ==> r[i] == before.acks().sent()[ks[i]]
        }
}

/// The reliability layer of one connection.
pub struct ReliabilitySystem {
    config: Config,
    ordering_system: OrderingSystem<(Vec<u8>, PacketType)>,
    sequencing_system: SequencingSystem,
    acknowledge_handler: AcknowledgmentHandler,
    fragmentation: Fragmentation,
}

impl ReliabilitySystem {
    pub closed spec fn config(&self) -> Config {
        self.config
    }

    pub closed spec fn acks(&self) -> AcknowledgmentHandler {
        self.acknowledge_handler
    }

    pub closed spec fn ordering(&self) -> OrderingSystem<(Vec<u8>, PacketType)> {
        self.ordering_system
    }

    pub closed spec fn sequencing(&self) -> SequencingSystem {
        self.sequencing_system
    }

    pub closed spec fn fragments(&self) -> Fragmentation {
        self.fragmentation
    }

    pub closed spec fn wf(&self) -> bool {
        &&& self.config.wf()
        &&& self.ordering_system.wf()
        &&& self.sequencing_system.wf()
        &&& self.acknowledge_handler.wf()
        &&& self.fragmentation.wf()
    }

    /// The acknowledgement header that the next reliable datagram carries.
    pub open spec fn next_ack(&self) -> (u16, u16, u32) {
        (self.acks().local_seq(), self.acks().spec_remote_seq(), self.acks().spec_ack_bitfield())
    }

    /// Whether every part is in its initial state.
    pub open spec fn is_fresh(&self, config: Config) -> bool {
        &&& self.wf()
        &&& self.config() == config
        &&& self.acks().local_seq() == 0
        &&& self.acks().remote_ack() == u16::MAX
        &&& self.acks().sent() == Map::<u16, SentPacket>::empty()
        &&& self.acks().received().seq_num() == 0
        &&& self.acks().received().slots() == Seq::new(33, |i: int| None::<(u16, ())>)
        &&& forall|id: u8| #[trigger] self.ordering().stream(id) == crate::arranging::ordering_default::<(Vec<u8>, PacketType)>()
        &&& forall|id: u8| #[trigger] self.sequencing().stream(id) == crate::arranging::sequencing_default()
        &&& self.fragments().seq_num() == 0
        &&& self.fragments().slots() == Seq::new(
            config.fragment_reassembly_buffer_size as nat,
            |i: int| None::<(u16, crate::fragmentation::ReassemblyModel)>,
        )
    }

    /// A reliability layer with nothing sent or received.
    pub fn new(config: &Config) -> (r: Self)
        requires
            config.wf(),
        ensures
            r.is_fresh(*config),
    {
        Self {
            config: *config,
            ordering_system: OrderingSystem::new(),
            sequencing_system: SequencingSystem::new(),
            acknowledge_handler: AcknowledgmentHandler::new(),
            fragmentation: Fragmentation::new(config),
        }
    }

    /// Forgets everything sent and received.
    pub fn reset(&mut self)
        requires
            old(self).wf(),
        ensures
            final(self).is_fresh(old(self).config()),
    {
        self.ordering_system = OrderingSystem::new();
        self.sequencing_system = SequencingSystem::new();
        self.acknowledge_handler = AcknowledgmentHandler::new();
        self.fragmentation = Fragmentation::new(&self.config);
    }

    /// How many reliable packets are not acknowledged yet, cut to 16 bits.
    pub fn packets_in_flight(&self) -> (r: u16)
        requires
            self.wf(),
        ensures
            r == self.acks().sent().dom().len() as u16,
    {
        self.acknowledge_handler.packets_in_flight()
    }

    /// Frames an outgoing packet. An unreliable packet is refused where its
    /// payload is larger than the receive buffer; a reliable one is refused
    /// where its payload is longer than 65535 bytes, is split into fragments
    /// where its payload is larger than a fragment (only a user packet can
    /// be, and only into as many fragments as allowed), and is recorded as
    /// sent. The time is not used.
    pub fn process_outgoing<'a>(
        &mut self,
        packet: PacketInfo<'a>,
        last_item_identifier: Option<u16>,
        time: u64,
    ) -> (r: Result<Vec<Vec<u8>>, ErrorKind>)
        requires
            old(self).wf(),
        ensures
            final(self).wf(),
            final(self).config() == old(self).config(),
            final(self).fragments() == old(self).fragments(),
            outgoing_step(*old(self), *final(self), packet.packet_type, packet.delivery, packet.ordering, packet.payload@, last_item_identifier, r),
    {
        match packet.delivery {
            DeliveryGuarantee::Unreliable => {
                if packet.payload.len() <= self.config.receive_buffer_max_size {
                    let mut datagram: Vec<u8> = Vec::new();
                    write_standard_header(&mut datagram, packet.packet_type, packet.delivery, packet.ordering);
                    let ghost arr = arranging_of(*old(self), packet.delivery, packet.ordering, last_item_identifier);
                    match packet.ordering {
                        OrderingGuarantee::Sequenced(stream_id) => {
                            let sid = unwrap_stream(stream_id, DEFAULT_SEQUENCING_STREAM);
                            let item_identifier = self.sequencing_system.new_item_identifier(sid);
                            write_arranging_header(&mut datagram, item_identifier, sid);
                        },
                        _ => {
                            assert(self.sequencing() =~= old(self).sequencing());
                        },
                    }
                    append_bytes(&mut datagram, packet.payload);
                    let mut out: Vec<Vec<u8>> = Vec::new();
                    out.push(datagram);
                    assert(datagrams(out@) =~= seq![framed(packet.packet_type, packet.delivery, packet.ordering, None, arr, packet.payload@)]);
                    Ok(out)
                } else {
                    Err(ErrorKind::PacketError(PacketErrorKind::ExceededMaxPacketSize))
                }
            },
            DeliveryGuarantee::Reliable => {
                if packet.payload.len() > 65535 {
                    return Err(ErrorKind::PacketError(PacketErrorKind::ExceededMaxPacketSize));
                }
                let payload_length = packet.payload.len() as u16;
                let mut item_identifier_value: Option<u16> = None;
                let local = self.acknowledge_handler.local_sequence_num();
                let remote = self.acknowledge_handler.remote_sequence_num();
                let bits = self.acknowledge_handler.ack_bitfield();
                let ghost arr = arranging_of(*old(self), packet.delivery, packet.ordering, last_item_identifier);
                let mut out: Vec<Vec<u8>> = Vec::new();
                if payload_length <= self.config.fragment_size {
                    let mut datagram: Vec<u8> = Vec::new();
                    write_standard_header(&mut datagram, packet.packet_type, packet.delivery, packet.ordering);
                    write_acked_header(&mut datagram, local, remote, bits);
                    match packet.ordering {
                        OrderingGuarantee::Ordered(stream_id) => {
                            let sid = unwrap_stream(stream_id, DEFAULT_ORDERING_STREAM);
                            let item_identifier = match last_item_identifier {
                                Some(x) => {
                                    assert(self.ordering() =~= old(self).ordering());
                                    x
                                },
                                None => self.ordering_system.new_item_identifier(sid),
                            };
                            item_identifier_value = Some(item_identifier);
                            write_arranging_header(&mut datagram, item_identifier, sid);
                            assert(self.sequencing() =~= old(self).sequencing());
                        },
                        OrderingGuarantee::Sequenced(stream_id) => {
                            let sid = unwrap_stream(stream_id, DEFAULT_SEQUENCING_STREAM);
                            let item_identifier = match last_item_identifier {
                                Some(x) => {
                                    assert(self.sequencing() =~= old(self).sequencing());
                                    x
                                },
                                None => self.sequencing_system.new_item_identifier(sid),
                            };
                            item_identifier_value = Some(item_identifier);
                            write_arranging_header(&mut datagram, item_identifier, sid);
                            assert(self.ordering() =~= old(self).ordering());
                        },
                        OrderingGuarantee::Unordered => {
                            assert(self.ordering() =~= old(self).ordering());
                            assert(self.sequencing() =~= old(self).sequencing());
                        },
                    }
                    append_bytes(&mut datagram, packet.payload);
                    out.push(datagram);
                    assert(datagrams(out@) =~= seq![framed(packet.packet_type, packet.delivery, packet.ordering, Some(old(self).next_ack()), arr, packet.payload@)]);
                } else {
                    match packet.packet_type {
                        PacketType::Packet => {},
                        _ => {
                            return Err(ErrorKind::PacketError(PacketErrorKind::PacketCannotBeFragmented));
                        },
                    }
                    let fragments = match Fragmentation::spit_into_fragments(packet.payload, &self.config) {
                        Ok(f) => f,
                        Err(e) => {
                            return Err(e);
                        },
                    };
                    let fragments_needed = Fragmentation::fragments_needed(payload_length, self.config.fragment_size) as u8;
                    let n = fragments.len();
                    let mut fragment_id: usize = 0;
                    while fragment_id < n
                        invariant
                            n == fragments@.len(),
                            n == fragments_needed,
                            fragment_id <= n,
                            out@.len() == fragment_id,
                            forall|i: int|
                                0 <= i < fragment_id ==> #[trigger] out@[i]@ == framed_fragment(
                                    packet.delivery,
                                    packet.ordering,
                                    local,
                                    i,
                                    fragments_needed,
                                    (local, remote, bits),
                                    fragments@[i]@,
                                ),
                        decreases n - fragment_id,
                    {
                        let mut datagram: Vec<u8> = Vec::new();
                        write_standard_header(&mut datagram, PacketType::Fragment, packet.delivery, packet.ordering);
                        write_fragment_header(&mut datagram, local, fragment_id as u8, fragments_needed);
                        if fragment_id == 0 {
                            write_acked_header(&mut datagram, local, remote, bits);
                        }
                        append_bytes(&mut datagram, fragments[fragment_id]);
                        assert(datagram@ =~= framed_fragment(
                            packet.delivery,
                            packet.ordering,
                            local,
                            fragment_id as int,
                            fragments_needed,
                            (local, remote, bits),
                            fragments@[fragment_id as int]@,
                        ));
                        out.push(datagram);
                        fragment_id = fragment_id + 1;
                    }
                    assert(self.ordering() =~= old(self).ordering());
                    assert(self.sequencing() =~= old(self).sequencing());
                }
                self.acknowledge_handler.process_outgoing(
                    packet.packet_type,
                    packet.payload,
                    packet.ordering,
                    item_identifier_value,
                );
                Ok(out)
            },
        }
    }

    /// Turns an incoming datagram into the packets that it completes: takes
    /// in its acknowledgement header, arranges it in its stream and
    /// reassembles fragments. A datagram whose headers cannot be read is
    /// refused, except a fragment, which is then ignored. The time is not used.
    pub fn process_incoming(&mut self, received_data: &[u8], time: u64) -> (r: Result<
        Vec<(Packet, PacketType)>,
        ErrorKind,
    >)
        requires
            old(self).wf(),
        ensures
            final(self).wf(),
            final(self).config() == old(self).config(),
            incoming_step(*old(self), *final(self), received_data@, r),
    {
        let header = match read_standard_header(received_data) {
            Ok(h) => h,
            Err(e) => {
                return Err(e);
            },
        };
        let len = received_data.len();
        match header.delivery_guarantee {
            DeliveryGuarantee::Unreliable => {
                match header.ordering_guarantee {
                    OrderingGuarantee::Sequenced(_) => {
                        let arranging_header = match read_arranging_header(received_data, 5) {
                            Ok(a) => a,
                            Err(e) => {
                                return Err(e);
                            },
                        };
                        let payload = slice_to_vec(&received_data[8..len]);
                        let ghost pv = payload@;
                        let mut out: Vec<(Packet, PacketType)> = Vec::new();
                        match self.sequencing_system.arrange(
                            arranging_header.stream_id,
                            arranging_header.arranging_id,
                            payload,
                        ) {
                            Some(p) => {
                                out.push(
                                    (
                                        Packet::new(
                                            p,
                                            header.delivery_guarantee,
                                            OrderingGuarantee::Sequenced(Some(arranging_header.stream_id)),
                                        ),
                                        header.packet_type,
                                    ),
                                );
                                assert(incoming_view(out@) =~= seq![
                                    (
                                        pv,
                                        header.delivery_guarantee,
                                        OrderingGuarantee::Sequenced(Some(arranging_header.stream_id)),
                                        header.packet_type,
                                    ),
                                ]);
                            },
                            None => {},
                        }
                        return Ok(out);
                    },
                    _ => {},
                }
                let payload = slice_to_vec(&received_data[5..len]);
                let mut out: Vec<(Packet, PacketType)> = Vec::new();
                out.push(
                    (
                        Packet::new(payload, header.delivery_guarantee, header.ordering_guarantee),
                        header.packet_type,
                    ),
                );
                assert(incoming_view(out@) =~= seq![
                    (
                        received_data@.subrange(5, len as int),
                        header.delivery_guarantee,
                        header.ordering_guarantee,
                        header.packet_type,
                    ),
                ]);
                return Ok(out);
            },
            DeliveryGuarantee::Reliable => {
                if header.is_fragment() {
                    match read_fragment(received_data, 5) {
                        Ok((fragment_header, acked_header)) => {
                            let pos: usize = if acked_header.is_some() {
                                17
                            } else {
                                9
                            };
                            let payload = &received_data[pos..len];
                            match self.fragmentation.handle_fragment(
                                fragment_header,
                                payload,
                                acked_header,
                            ) {
                                Ok(Some((payload, acked))) => {
                                    self.acknowledge_handler.process_incoming(
                                        acked.sequence(),
                                        acked.ack_seq(),
                                        acked.ack_field(),
                                    );
                                    let ghost pv = payload@;
                                    let mut out: Vec<(Packet, PacketType)> = Vec::new();
                                    out.push(
                                        (
                                            Packet::new(
                                                payload,
                                                header.delivery_guarantee,
                                                header.ordering_guarantee,
                                            ),
                                            PacketType::Packet,
                                        ),
                                    );
                                    assert(incoming_view(out@) =~= seq![
                                        (
                                            pv,
                                            header.delivery_guarantee,
                                            header.ordering_guarantee,
                                            PacketType::Packet,
                                        ),
                                    ]);
                                    return Ok(out);
                                },
                                Ok(None) => {
                                    return Ok(Vec::new());
                                },
                                Err(e) => {
                                    return Err(e);
                                },
                            }
                        },
                        Err(_) => {},
                    }
                } else {
                    let acked_header = match read_acknowledge_header(received_data, 5) {
                        Ok(a) => a,
                        Err(e) => {
                            return Err(e);
                        },
                    };
                    self.acknowledge_handler.process_incoming(
                        acked_header.sequence(),
                        acked_header.ack_seq(),
                        acked_header.ack_field(),
                    );
                    match header.ordering_guarantee {
                        OrderingGuarantee::Sequenced(_) => {
                            let arranging_header = match read_arranging_header(received_data, 13) {
                                Ok(a) => a,
                                Err(e) => {
                                    return Err(e);
                                },
                            };
                            let payload = slice_to_vec(&received_data[16..len]);
                            let ghost pv = payload@;
                            match self.sequencing_system.arrange(
                                arranging_header.stream_id,
                                arranging_header.arranging_id,
                                payload,
                            ) {
                                Some(p) => {
                                    let mut out: Vec<(Packet, PacketType)> = Vec::new();
                                    out.push(
                                        (
                                            Packet::new(
                                                p,
                                                header.delivery_guarantee,
                                                OrderingGuarantee::Sequenced(Some(arranging_header.stream_id)),
                                            ),
                                            header.packet_type,
                                        ),
                                    );
                                    assert(incoming_view(out@) =~= seq![
                                        (
                                            pv,
                                            header.delivery_guarantee,
                                            OrderingGuarantee::Sequenced(Some(arranging_header.stream_id)),
                                            header.packet_type,
                                        ),
                                    ]);
                                    return Ok(out);
                                },
                                None => {},
                            }
                        },
                        OrderingGuarantee::Ordered(_) => {
                            let arranging_header = match read_arranging_header(received_data, 13) {
                                Ok(a) => a,
                                Err(e) => {
                                    return Err(e);
                                },
                            };
                            let payload = slice_to_vec(&received_data[16..len]);
                            let ghost item = (payload, header.packet_type);
                            assert(self.ordering() == old(self).ordering());
                            let mut items = self.ordering_system.arrange(
                                arranging_header.stream_id,
                                arranging_header.arranging_id,
                                (payload, header.packet_type),
                            );
                            let ghost delivered = items@;
                            let sid = arranging_header.stream_id;
                            let mut out: Vec<(Packet, PacketType)> = Vec::new();
                            let ghost mut k: int = 0;
                            while items.len() > 0
                                invariant
                                    0 <= k <= delivered.len(),
                                    items@ == delivered.skip(k),
                                    incoming_view(out@) == ordered_view(delivered.take(k), header.delivery_guarantee, sid),
                                decreases items@.len(),
                            {
                                let ghost old_items = items@;
                                let ghost old_out = out@;
                                let (p, t) = items.remove(0);
                                let ghost pt_pair = (p, t);
                                assert(old_items[0] == delivered[k]);
                                out.push(
                                    (
                                        Packet::new(
                                            p,
                                            header.delivery_guarantee,
                                            OrderingGuarantee::Ordered(Some(sid)),
                                        ),
                                        t,
                                    ),
                                );
                                proof {
                                    assert(delivered.take(k + 1) =~= delivered.take(k).push(delivered[k]));
                                    assert(incoming_view(out@) =~= incoming_view(old_out).push(
                                        (pt_pair.0@, header.delivery_guarantee, OrderingGuarantee::Ordered(Some(sid)), pt_pair.1),
                                    ));
                                    assert(ordered_view(delivered.take(k + 1), header.delivery_guarantee, sid) =~= ordered_view(delivered.take(k), header.delivery_guarantee, sid).push(
                                        (delivered[k].0@, header.delivery_guarantee, OrderingGuarantee::Ordered(Some(sid)), delivered[k].1),
                                    ));
                                    k = k + 1;
                                    assert(items@ =~= delivered.skip(k));
                                    assert(incoming_view(out@) =~= ordered_view(delivered.take(k), header.delivery_guarantee, sid));
                                }
                            }
                            proof {
                                assert(delivered.take(k) =~= delivered);
                                assert(spec_order_deliver(old(self).ordering().stream(sid), arranging_header.arranging_id, item).0 == self.ordering().stream(sid));
                            }
                            return Ok(out);
                        },
                        OrderingGuarantee::Unordered => {
                            let payload = slice_to_vec(&received_data[13..len]);
                            let mut out: Vec<(Packet, PacketType)> = Vec::new();
                            out.push(
                                (
                                    Packet::new(
                                        payload,
                                        header.delivery_guarantee,
                                        header.ordering_guarantee,
                                    ),
                                    header.packet_type,
                                ),
                            );
                            assert(incoming_view(out@) =~= seq![
                                (
                                    received_data@.subrange(13, len as int),
                                    header.delivery_guarantee,
                                    header.ordering_guarantee,
                                    header.packet_type,
                                ),
                            ]);
                            return Ok(out);
                        },
                    }
                }
            },
        }
        Ok(Vec::new())
    }

    /// Takes the lost reliable packets out of the acknowledgement table, in
    /// increasing order of sequence number.
    pub fn gather_dropped_packets(&mut self) -> (r: Vec<SentPacket>)
        requires
            old(self).wf(),
        ensures
            final(self).wf(),
            gather_step(*old(self), *final(self), r@),
    {
        self.acknowledge_handler.dropped_packets()
    }
}

/// Where the payload of an unfragmented datagram starts.
pub open spec fn payload_offset(d: DeliveryGuarantee, arranging: Option<(u16, u8)>) -> int {
    5 + (if d == DeliveryGuarantee::Reliable {
        8int
    } else {
        0int
    }) + (if arranging is Some {
        3int
    } else {
        0int
    })
}

/// A datagram framed for sending is read back as it was framed: its
/// standard header (without the stream id), its acknowledgement header, its
/// arranging header and its payload.
pub proof fn lemma_framed_reads_back(
    pt: PacketType,
    d: DeliveryGuarantee,
    o: OrderingGuarantee,
    ack: (u16, u16, u32),
    arranging: Option<(u16, u8)>,
    payload: Seq<u8>,
)
    ensures
        ({
            let acked = if d == DeliveryGuarantee::Reliable {
                Some(ack)
            } else {
                None
            };
            let b = framed(pt, d, o, acked, arranging, payload);
            &&& spec_read_standard(b) == Ok::<_, ErrorKind>(
                StandardHeader {
                    protocol_version: crate::protocol_version::version_crc16(),
                    packet_type: pt,
                    delivery_guarantee: d,
                    ordering_guarantee: crate::headers::without_stream(o),
                },
            )
            &&& d == DeliveryGuarantee::Reliable ==> spec_read_acked(b, 5) == Ok::<_, ErrorKind>(
                AckedPacketHeader { seq: ack.0, ack_seq: ack.1, ack_field: ack.2 },
            )
            &&& arranging is Some ==> spec_read_arranging(
                b,
                if d == DeliveryGuarantee::Reliable {
                    13
                } else {
                    5
                },
            ) == Ok::<_, ErrorKind>(
                crate::headers::ArrangingHeader {
                    arranging_id: arranging.unwrap().0,
                    stream_id: arranging.unwrap().1,
                },
            )
            &&& b.subrange(payload_offset(d, arranging), b.len() as int) == payload
        }),
{
    let acked = if d == DeliveryGuarantee::Reliable {
        Some(ack)
    } else {
        None
    };
    let sb = standard_bytes(pt, d, o);
    let ab = match acked {
        Some((s, a, f)) => acked_bytes(s, a, f),
        None => Seq::empty(),
    };
    let rb = match arranging {
        Some((id, stream)) => arranging_bytes(id, stream),
        None => Seq::empty(),
    };
    let b = framed(pt, d, o, acked, arranging, payload);
    assert(b =~= sb + (ab + rb + payload));
    crate::headers::lemma_standard_roundtrip(pt, d, o, ab + rb + payload);
    if d == DeliveryGuarantee::Reliable {
        assert(b =~= sb + ab + (rb + payload));
        crate::headers::lemma_acked_roundtrip(sb, ack.0, ack.1, ack.2, rb + payload);
    }
    if arranging is Some {
        assert(b =~= (sb + ab) + rb + payload);
        crate::headers::lemma_arranging_roundtrip(sb + ab, arranging.unwrap().0, arranging.unwrap().1, payload);
    }
    assert(b.subrange(payload_offset(d, arranging), b.len() as int) =~= payload);
}

/// A reliable ordered packet sent again with the index it was first sent
/// with (a retransmission) is framed with that index in its stream, so
/// that the receiving stream gets the index it waits for; no ordered stream
/// hands out an index for it, and it is recorded as sent under that index.
pub proof fn lemma_ordered_index_reused(
    before: ReliabilitySystem,
    after: ReliabilitySystem,
    pt: PacketType,
    s: Option<u8>,
    payload: Seq<u8>,
    x: u16,
    r: Result<Vec<Vec<u8>>, ErrorKind>,
)
    requires
        payload.len() <= before.config().fragment_size,
        outgoing_step(
            before,
            after,
            pt,
            DeliveryGuarantee::Reliable,
            OrderingGuarantee::Ordered(s),
            payload,
            Some(x),
            r,
        ),
    ensures
        r is Ok,
        datagrams(r.unwrap()@).len() == 1,
        spec_read_arranging(datagrams(r.unwrap()@)[0], 13) == Ok::<_, ErrorKind>(
            crate::headers::ArrangingHeader {
                arranging_id: x,
                stream_id: stream_or(s, DEFAULT_ORDERING_STREAM),
            },
        ),
        forall|id: u8| #[trigger] after.ordering().stream(id) == before.ordering().stream(id),
        after.acks().sent()[before.acks().local_seq()].item_identifier == Some(x),
{
    let sid = stream_or(s, DEFAULT_ORDERING_STREAM);
    lemma_framed_reads_back(
        pt,
        DeliveryGuarantee::Reliable,
        OrderingGuarantee::Ordered(s),
        before.next_ack(),
        Some((x, sid)),
        payload,
    );
}

/// A reliable ordered packet sent for the first time gets the next index
/// of its stream, which that stream then moves past; the other ordered
/// streams stay as they were.
pub proof fn lemma_ordered_index_fresh(
    before: ReliabilitySystem,
    after: ReliabilitySystem,
    pt: PacketType,
    s: Option<u8>,
    payload: Seq<u8>,
    r: Result<Vec<Vec<u8>>, ErrorKind>,
)
    requires
        payload.len() <= before.config().fragment_size,
        outgoing_step(
            before,
            after,
            pt,
            DeliveryGuarantee::Reliable,
            OrderingGuarantee::Ordered(s),
            payload,
            None,
            r,
        ),
    ensures
        r is Ok,
        datagrams(r.unwrap()@).len() == 1,
        spec_read_arranging(datagrams(r.unwrap()@)[0], 13) == Ok::<_, ErrorKind>(
            crate::headers::ArrangingHeader {
                arranging_id: before.ordering().stream(stream_or(s, DEFAULT_ORDERING_STREAM)).unique,
                stream_id: stream_or(s, DEFAULT_ORDERING_STREAM),
            },
        ),
        after.ordering().stream(stream_or(s, DEFAULT_ORDERING_STREAM)).unique as int == (before.ordering().stream(
            stream_or(s, DEFAULT_ORDERING_STREAM),
        ).unique as int + 1) % 65536,
        forall|id: u8|
            id != stream_or(s, DEFAULT_ORDERING_STREAM) ==> #[trigger] after.ordering().stream(id)
                == before.ordering().stream(id),
{
    let sid = stream_or(s, DEFAULT_ORDERING_STREAM);
    lemma_framed_reads_back(
        pt,
        DeliveryGuarantee::Reliable,
        OrderingGuarantee::Ordered(s),
        before.next_ack(),
        Some((before.ordering().stream(sid).unique, sid)),
        payload,
    );
    assert(after.ordering().stream(sid).unique == before.ordering().stream(sid).unique.wrapping_add(1));
}

/// Fragment `i` framed for sending is read back as it was framed: a
/// reliable fragment with its fragment header, the acknowledgement header on
/// the first fragment, and its bytes.
pub proof fn lemma_fragment_reads_back(
    o: OrderingGuarantee,
    local: u16,
    i: int,
    n: u8,
    ack: (u16, u16, u32),
    data: Seq<u8>,
)
    requires
        0 <= i < 256,
    ensures
        ({
            let b = framed_fragment(DeliveryGuarantee::Reliable, o, local, i, n, ack, data);
            &&& spec_read_standard(b) == Ok::<_, ErrorKind>(
                StandardHeader {
                    protocol_version: crate::protocol_version::version_crc16(),
                    packet_type: PacketType::Fragment,
                    delivery_guarantee: DeliveryGuarantee::Reliable,
                    ordering_guarantee: crate::headers::without_stream(o),
                },
            )
            &&& spec_read_fragment(b, 5) == Ok::<_, ErrorKind>(
                (
                    crate::headers::FragmentHeader { sequence: local, id: i as u8, num_fragments: n },
                    if i == 0 {
                        Some(AckedPacketHeader { seq: ack.0, ack_seq: ack.1, ack_field: ack.2 })
                    } else {
                        None
                    },
                ),
            )
            &&& b.subrange(if i == 0 { 17 } else { 9 }, b.len() as int) == data
        }),
{
    let d = DeliveryGuarantee::Reliable;
    let sb = standard_bytes(PacketType::Fragment, d, o);
    let fb = fragment_bytes(local, i as u8, n);
    let ab = if i == 0 {
        acked_bytes(ack.0, ack.1, ack.2)
    } else {
        Seq::empty()
    };
    let ab2 = if (i as u8) == 0 {
        acked_bytes(ack.0, ack.1, ack.2)
    } else {
        Seq::empty()
    };
    assert((i as u8) == 0 <==> i == 0);
    let b = framed_fragment(d, o, local, i, n, ack, data);
    assert(b =~= sb + (fb + ab + data));
    crate::headers::lemma_standard_roundtrip(PacketType::Fragment, d, o, fb + ab + data);
    assert(b =~= sb + fb + ab2 + data);
    crate::headers::lemma_fragment_roundtrip(sb, local, i as u8, n, ack, data);
    assert(b.subrange(if i == 0 { 17 } else { 9 }, b.len() as int) =~= data);
}

/// What one end sends without ordering, the other end delivers as it was
/// sent: a packet framed in a single datagram by the reliability layer of
/// the sender, unreliable or reliable, is delivered by the reliability
/// layer of any receiver as one packet with the same payload and
/// guarantees.
pub proof fn lemma_unordered_delivered(
    sender: ReliabilitySystem,
    sender2: ReliabilitySystem,
    d: DeliveryGuarantee,
    payload: Seq<u8>,
    r: Result<Vec<Vec<u8>>, ErrorKind>,
    receiver: ReliabilitySystem,
    receiver2: ReliabilitySystem,
    r2: Result<Vec<(Packet, PacketType)>, ErrorKind>,
)
    requires
        outgoing_step(sender, sender2, PacketType::Packet, d, OrderingGuarantee::Unordered, payload, None, r),
        r is Ok,
        d == DeliveryGuarantee::Reliable ==> payload.len() <= sender.config().fragment_size,
        datagrams(r.unwrap()@).len() > 0,
        incoming_step(receiver, receiver2, datagrams(r.unwrap()@)[0], r2),
    ensures
        datagrams(r.unwrap()@).len() == 1,
        r2 is Ok,
        incoming_view(r2.unwrap()@) == seq![(payload, d, OrderingGuarantee::Unordered, PacketType::Packet)],
{
    let ack = sender.next_ack();
    lemma_framed_reads_back(PacketType::Packet, d, OrderingGuarantee::Unordered, ack, None, payload);
    let acked = if d == DeliveryGuarantee::Reliable {
        Some(ack)
    } else {
        None
    };
    let b = framed(PacketType::Packet, d, OrderingGuarantee::Unordered, acked, None, payload);
    assert(datagrams(r.unwrap()@)[0] == b);
    assert(payload_offset(d, None) == if d == DeliveryGuarantee::Reliable {
        13int
    } else {
        5int
    });
}

/// A reliable packet stays in flight until an acknowledgement covers it:
/// once sent, it is recorded under the local sequence number of the moment,
/// and after an acknowledgement header is taken in it is still recorded
/// exactly when the header does not acknowledge that number.
pub proof fn lemma_in_flight_until_acknowledged(
    a0: AcknowledgmentHandler,
    a1: AcknowledgmentHandler,
    a2: AcknowledgmentHandler,
    pt: PacketType,
    payload: Seq<u8>,
    o: OrderingGuarantee,
    item: Option<u16>,
    h: AckedPacketHeader,
)
    requires
        send_recorded(a0, a1, pt, payload, o, item),
        ack_received(a1, a2, h),
    ensures
        a1.sent().contains_key(a0.local_seq()),
        a1.sent()[a0.local_seq()].payload@ == payload,
        a2.sent().contains_key(a0.local_seq()) <==> !crate::acknowledgment::acked(
            h.ack_seq,
            h.ack_field,
            a0.local_seq(),
        ),
{
    assert(a1.sent().dom().contains(a0.local_seq()));
}

/// One outgoing packet as a caller hands it over: packet type, delivery,
/// ordering, payload and arranging index to reuse.
pub type OutgoingPacket = (PacketType, DeliveryGuarantee, OrderingGuarantee, Seq<u8>, Option<u16>);

/// How many of the first `n` packets were reliable and framed.
pub open spec fn reliable_sent(
    sends: Seq<OutgoingPacket>,
    rs: Seq<Result<Vec<Vec<u8>>, ErrorKind>>,
    n: int,
) -> nat
    decreases n,
{
    if n <= 0 {
        0
    } else {
        reliable_sent(sends, rs, n - 1) + if sends[n - 1].1 == DeliveryGuarantee::Reliable && rs[n - 1] is Ok {
            1nat
        } else {
            0nat
        }
    }
}

/// The sequence numbers below `c`.
pub open spec fn numbers_below(c: nat) -> Set<u16> {
    Set::new(|k: u16| (k as nat) < c)
}

proof fn lemma_numbers_below_len(c: nat)
    requires
        c <= 65536,
    ensures
        numbers_below(c).finite(),
        numbers_below(c).len() == c,
    decreases c,
{
    if c == 0 {
        assert(numbers_below(0) =~= Set::<u16>::empty());
    } else {
        lemma_numbers_below_len((c - 1) as nat);
        let k = (c - 1) as u16;
        assert(numbers_below(c) =~= numbers_below((c - 1) as nat).insert(k));
        assert(!numbers_below((c - 1) as nat).contains(k));
    }
}

/// Packets in flight count the reliable packets sent: starting from nothing
/// sent, after a run of outgoing packets (without incoming datagrams,
/// gathering of lost packets or resets) and fewer than 2^16 reliable ones,
/// the reliable packets that were framed are in flight, one per packet
/// however many fragments it took, and no unreliable one.
pub proof fn lemma_in_flight_counts_reliable_sends(
    states: Seq<ReliabilitySystem>,
    sends: Seq<OutgoingPacket>,
    rs: Seq<Result<Vec<Vec<u8>>, ErrorKind>>,
)
    requires
        states.len() == sends.len() + 1,
        rs.len() == sends.len(),
        states[0].acks().local_seq() == 0,
        states[0].acks().sent() == Map::<u16, SentPacket>::empty(),
        forall|i: int|
            0 <= i < sends.len() ==> outgoing_step(
                states[i],
                states[i + 1],
                sends[i].0,
                sends[i].1,
                sends[i].2,
                sends[i].3,
                sends[i].4,
                #[trigger] rs[i],
            ),
        reliable_sent(sends, rs, sends.len() as int) < 65536,
    ensures
        states.last().acks().sent().dom().finite(),
        states.last().acks().sent().dom().len() == reliable_sent(sends, rs, sends.len() as int),
        states.last().acks().sent().dom().len() as u16 == reliable_sent(sends, rs, sends.len() as int),
{
    lemma_in_flight_prefix(states, sends, rs, sends.len() as int);
    lemma_numbers_below_len(reliable_sent(sends, rs, sends.len() as int));
}

proof fn lemma_reliable_sent_monotone(
    sends: Seq<OutgoingPacket>,
    rs: Seq<Result<Vec<Vec<u8>>, ErrorKind>>,
    m: int,
    n: int,
)
    requires
        0 <= m <= n,
    ensures
        reliable_sent(sends, rs, m) <= reliable_sent(sends, rs, n),
    decreases n - m,
{
    if m < n {
        lemma_reliable_sent_monotone(sends, rs, m, n - 1);
    }
}

proof fn lemma_in_flight_prefix(
    states: Seq<ReliabilitySystem>,
    sends: Seq<OutgoingPacket>,
    rs: Seq<Result<Vec<Vec<u8>>, ErrorKind>>,
    n: int,
)
    requires
        0 <= n <= sends.len(),
        states.len() == sends.len() + 1,
        rs.len() == sends.len(),
        states[0].acks().local_seq() == 0,
        states[0].acks().sent() == Map::<u16, SentPacket>::empty(),
        forall|i: int|
            0 <= i < sends.len() ==> outgoing_step(
                states[i],
                states[i + 1],
                sends[i].0,
                sends[i].1,
                sends[i].2,
                sends[i].3,
                sends[i].4,
                #[trigger] rs[i],
            ),
        reliable_sent(sends, rs, sends.len() as int) < 65536,
    ensures
        states[n].acks().local_seq() == reliable_sent(sends, rs, n),
        states[n].acks().sent().dom() == numbers_below(reliable_sent(sends, rs, n)),
    decreases n,
{
    if n == 0 {
        assert(states[0].acks().sent().dom() =~= numbers_below(0));
    } else {
        lemma_in_flight_prefix(states, sends, rs, n - 1);
        lemma_reliable_sent_monotone(sends, rs, n, sends.len() as int);
        let i = n - 1;
        assert(outgoing_step(
            states[i],
            states[i + 1],
            sends[i].0,
            sends[i].1,
            sends[i].2,
            sends[i].3,
            sends[i].4,
            rs[i],
        ));
        let c = reliable_sent(sends, rs, i);
        if sends[i].1 == DeliveryGuarantee::Reliable && rs[i] is Ok {
            assert(states[n].acks().sent().dom() == states[i].acks().sent().dom().insert(c as u16));
            assert(states[n].acks().sent().dom() =~= numbers_below(c + 1));
        } else {
            assert(states[n].acks() == states[i].acks());
        }
    }
}

/// A table of sent packets is finite: its keys are 16-bit numbers.
pub proof fn lemma_sent_finite(m: Map<u16, SentPacket>)
    ensures
        m.dom().finite(),
        m.dom().len() <= 65536,
{
    lemma_numbers_below_len(65536);
    assert forall|k: u16| m.dom().contains(k) implies numbers_below(65536).contains(k) by {}
    vstd::set_lib::lemma_len_subset(m.dom(), numbers_below(65536));
}

/// Lost packets come out once: gathering takes each lost packet out of the
/// table exactly once, in increasing order of sequence number, each as it
/// was recorded when sent, so that as many fewer packets are in flight as
/// came out; gathering again right after gives nothing.
pub proof fn lemma_gathered_once(
    a: ReliabilitySystem,
    b: ReliabilitySystem,
    c: ReliabilitySystem,
    r1: Seq<SentPacket>,
    r2: Seq<SentPacket>,
)
    requires
        gather_step(a, b, r1),
        gather_step(b, c, r2),
    ensures
        b.acks().sent().dom().len() == a.acks().sent().dom().len() - r1.len(),
        exists|ks: Seq<u16>|
            {
                &&& ks.len() == r1.len()
                &&& forall|i: int, j: int| 0 <= i < j < ks.len() ==> #[trigger] ks[i] < #[trigger] ks[j]
                &&& forall|i: int|
                    0 <= i < ks.len() ==> a.acks().sent().contains_key(#[trigger] ks[i]) && r1[i]
                        == a.acks().sent()[ks[i]] && !b.acks().sent().contains_key(ks[i])
            },
        r2.len() == 0,
        c.acks().sent() == b.acks().sent(),
{
    let m = a.acks().sent();
    let ra = a.acks().remote_ack();
    let ks = choose|ks: Seq<u16>|
        {
            &&& #[trigger] crate::acknowledgment::dropped_in_order(ks, m, ra)
            &&& r1.len() == ks.len()
            &&& forall|i: int| 0 <= i < ks.len() ==> r1[i] == m[ks[i]]
        };
    let dropped = Set::new(|k: u16| crate::acknowledgment::is_dropped(ra, k));
    let kset = ks.to_set();
    assert(m.remove_keys(dropped) =~= m.remove_keys(kset)) by {
        assert forall|k: u16| m.contains_key(k) && dropped.contains(k) implies kset.contains(k) by {
            assert(ks.contains(k));
        }
        assert forall|k: u16| kset.contains(k) implies dropped.contains(k) by {
            let i = choose|i: int| 0 <= i < ks.len() && ks[i] == k;
            assert(m.contains_key(ks[i]) && crate::acknowledgment::is_dropped(ra, ks[i]));
        }
    }
    assert(ks.no_duplicates()) by {
        assert forall|i: int, j: int| 0 <= i < ks.len() && 0 <= j < ks.len() && i != j implies ks[i]
            != ks[j] by {
            if i < j {
                assert(ks[i] < ks[j]);
            } else {
                assert(ks[j] < ks[i]);
            }
        }
    }
    ks.unique_seq_to_set();
    vstd::seq_lib::seq_to_set_is_finite(ks);
    lemma_sent_finite(m);
    assert forall|k: u16| #[trigger] kset.contains(k) implies m.contains_key(k) by {
        let i = choose|i: int| 0 <= i < ks.len() && ks[i] == k;
        assert(m.contains_key(ks[i]));
    }
    m.lemma_remove_keys_len(kset);
    assert forall|i: int| 0 <= i < ks.len() implies m.contains_key(#[trigger] ks[i]) && r1[i] == m[ks[i]]
        && !b.acks().sent().contains_key(ks[i]) by {
        assert(m.contains_key(ks[i]) && crate::acknowledgment::is_dropped(ra, ks[i]));
        assert(dropped.contains(ks[i]));
    }
    let m2 = b.acks().sent();
    let ks2 = choose|ks2: Seq<u16>|
        {
            &&& #[trigger] crate::acknowledgment::dropped_in_order(ks2, m2, ra)
            &&& r2.len() == ks2.len()
            &&& forall|i: int| 0 <= i < ks2.len() ==> r2[i] == m2[ks2[i]]
        };
    if ks2.len() > 0 {
        assert(m2.contains_key(ks2[0]) && crate::acknowledgment::is_dropped(ra, ks2[0]));
        assert(dropped.contains(ks2[0]));
    }
    assert(c.acks().sent() =~= m2.remove_keys(dropped)) by {
        assert forall|k: u16| m2.contains_key(k) implies !dropped.contains(k) by {}
    }
    assert(m2.remove_keys(dropped) =~= m2) by {
        assert forall|k: u16| m2.contains_key(k) implies !dropped.contains(k) by {}
    }
}

/// Fragment `i` of a payload split into fragments of `fs` bytes.
pub open spec fn fragment_data(payload: Seq<u8>, fs: u16, i: int) -> Seq<u8> {
    payload.subrange(
        fragment_range(i, fs, payload.len() as u16).0,
        fragment_range(i, fs, payload.len() as u16).1,
    )
}

/// The first `n` fragments of a payload, one after the other.
pub open spec fn fragments_joined(payload: Seq<u8>, fs: u16, n: int) -> Seq<u8>
    decreases n,
{
    if n <= 0 {
        Seq::empty()
    } else {
        fragments_joined(payload, fs, n - 1) + fragment_data(payload, fs, n - 1)
    }
}

/// Every fragment but the last is full, and the last one ends the payload.
proof fn lemma_fragments_cover(plen: u16, fs: u16)
    requires
        fs > 0,
        plen > 0,
    ensures
        (spec_fragments_needed(plen, fs) - 1) * fs < plen,
        plen <= spec_fragments_needed(plen, fs) * fs,
{
    let q = plen / fs;
    let m = plen % fs;
    assert(plen == q * fs + m && 0 <= m < fs) by (nonlinear_arith)
        requires
            fs > 0,
            q == plen / fs,
            m == plen % fs,
    ;
    if m > 0 {
        assert((q + 1 - 1) * fs < plen && plen <= (q + 1) * fs) by (nonlinear_arith)
            requires
                plen == q * fs + m,
                0 < m < fs,
        ;
    } else {
        assert(q >= 1) by (nonlinear_arith)
            requires
                plen == q * fs,
                plen > 0,
                fs > 0,
        ;
        assert((q - 1) * fs < plen && plen <= q * fs) by (nonlinear_arith)
            requires
                plen == q * fs,
                fs > 0,
                q >= 1,
        ;
    }
}

/// The first `n` fragments joined are the payload up to where the `n`th
/// fragment ends.
#[verifier::spinoff_prover]
proof fn lemma_fragments_joined(payload: Seq<u8>, fs: u16, n: int)
    requires
        fs > 0,
        payload.len() <= 65535,
        0 <= n,
        (n - 1) * fs < payload.len() || n == 0,
    ensures
        fragments_joined(payload, fs, n) == payload.subrange(
            0,
            if n * fs > payload.len() {
                payload.len() as int
            } else {
                n * fs
            },
        ),
    decreases n,
{
    let plen = payload.len() as int;
    if n > 0 {
        assert((n - 1 - 1) * fs < plen || n - 1 == 0) by (nonlinear_arith)
            requires
                (n - 1) * fs < plen,
                fs > 0,
                n >= 1,
        ;
        lemma_fragments_joined(payload, fs, n - 1);
        assert(n * fs == (n - 1) * fs + fs) by (nonlinear_arith);
        assert((n - 1) * fs >= 0) by (nonlinear_arith)
            requires
                n >= 1,
                fs > 0,
        ;
        let a = fragments_joined(payload, fs, n - 1);
        assert(a == payload.subrange(0, (n - 1) * fs));
        assert(fragment_range(n - 1, fs, plen as u16) == ((n - 1) * fs, if n * fs > plen {
            plen
        } else {
            n * fs
        }));
        assert(fragments_joined(payload, fs, n) =~= payload.subrange(
            0,
            if n * fs > plen {
                plen
            } else {
                n * fs
            },
        ));
    }
}

/// The reassembly entry of a packet with sequence number `local`, of `k`
/// fragments, after its first `i` fragments arrived in order.
pub open spec fn reassembling(
    payload: Seq<u8>,
    fs: u16,
    local: u16,
    k: u8,
    i: int,
    ack: AckedPacketHeader,
) -> crate::fragmentation::ReassemblyModel {
    crate::fragmentation::ReassemblyModel {
        sequence: local,
        received: i as u8,
        total: k,
        buffer: fragments_joined(payload, fs, i),
        flags: Seq::new(k as nat, |x: int| x < i),
        acked: Some(ack),
    }
}

/// A reassembly ring of `len` slots holding only `entry`, in its slot.
pub open spec fn ring_with(len: nat, local: u16, entry: crate::fragmentation::ReassemblyModel) -> Seq<
    Option<(u16, crate::fragmentation::ReassemblyModel)>,
> {
    Seq::new(len, |x: int| None::<(u16, crate::fragmentation::ReassemblyModel)>).update(
        crate::sequence_buffer::slot_of(local, len as int),
        Some((local, entry)),
    )
}
/// The requirements on `k`, `fs` and the payload of a fragmented packet.
pub open spec fn fragmented_ok(payload: Seq<u8>, fs: u16, k: u8) -> bool {
    &&& fs > 0
    &&& payload.len() <= 65535
    &&& k >= 2
    &&& k == spec_fragments_needed(payload.len() as u16, fs)
    &&& (k - 1) * fs < payload.len()
}

/// The datagram of fragment `i`.
pub open spec fn fragment_datagram(
    payload: Seq<u8>,
    fs: u16,
    k: u8,
    local: u16,
    ack: (u16, u16, u32),
    i: int,
) -> Seq<u8> {
    framed_fragment(
        DeliveryGuarantee::Reliable,
        OrderingGuarantee::Unordered,
        local,
        i,
        k,
        ack,
        fragment_data(payload, fs, i),
    )
}

pub open spec fn ack_of(ack: (u16, u16, u32)) -> AckedPacketHeader {
    AckedPacketHeader { seq: ack.0, ack_seq: ack.1, ack_field: ack.2 }
}

/// The first fragment arrives at a ring with no entry.
#[verifier::rlimit(40)]
proof fn lemma_reassembly_first(
    payload: Seq<u8>,
    fs: u16,
    k: u8,
    local: u16,
    ack: (u16, u16, u32),
    rx: ReliabilitySystem,
    rx2: ReliabilitySystem,
    rr: Result<Vec<(Packet, PacketType)>, ErrorKind>,
)
    requires
        fragmented_ok(payload, fs, k),
        rx.fragments().slots().len() > 0,
        forall|j: int| 0 <= j < rx.fragments().slots().len() ==> #[trigger] rx.fragments().slots()[j] is None,
        !crate::sequence_buffer::too_old(rx.fragments().seq_num(), rx.fragments().slots().len(), local),
        incoming_step(rx, rx2, fragment_datagram(payload, fs, k, local, ack, 0), rr),
    ensures
        rr is Ok,
        rr.unwrap()@.len() == 0,
        rx2.fragments().slots() == ring_with(
            rx.fragments().slots().len(),
            local,
            reassembling(payload, fs, local, k, 1, ack_of(ack)),
        ),
{
    let len = rx.fragments().slots().len();
    lemma_fragment_reads_back(OrderingGuarantee::Unordered, local, 0, k, ack, fragment_data(payload, fs, 0));
    let b = fragment_datagram(payload, fs, k, local, ack, 0);
    assert(b.subrange(17, b.len() as int) == fragment_data(payload, fs, 0));
    let slots = rx.fragments().slots();
    assert(!crate::sequence_buffer::spec_exists(slots, local));
    let (n1, s1) = crate::sequence_buffer::spec_insert(
        rx.fragments().seq_num(),
        slots,
        local,
        crate::fragmentation::new_reassembly(local, k),
    );
    assert(s1 =~= ring_with(len, local, crate::fragmentation::new_reassembly(local, k)));
    lemma_fragments_joined(payload, fs, 1);
    assert(fragments_joined(payload, fs, 1) =~= fragment_data(payload, fs, 0));
    assert(Seq::new(k as nat, |x: int| false).update(0, true) =~= Seq::new(k as nat, |x: int| x < 1));
    assert(rx2.fragments().slots() =~= ring_with(len, local, reassembling(payload, fs, local, k, 1, ack_of(ack))));
}

/// Fragment `i` arrives at a ring holding the entry of the first `i`.
#[verifier::rlimit(40)]
#[verifier::spinoff_prover]
proof fn lemma_reassembly_next(
    payload: Seq<u8>,
    fs: u16,
    k: u8,
    local: u16,
    ack: (u16, u16, u32),
    rx: ReliabilitySystem,
    rx2: ReliabilitySystem,
    rr: Result<Vec<(Packet, PacketType)>, ErrorKind>,
    i: int,
    len: nat,
)
    requires
        fragmented_ok(payload, fs, k),
        1 <= i < k,
        len > 0,
        rx.fragments().slots() == ring_with(len, local, reassembling(payload, fs, local, k, i, ack_of(ack))),
        incoming_step(rx, rx2, fragment_datagram(payload, fs, k, local, ack, i), rr),
    ensures
        rr is Ok,
        i + 1 < k ==> {
            &&& rr.unwrap()@.len() == 0
            &&& rx2.fragments().slots() == ring_with(len, local, reassembling(payload, fs, local, k, i + 1, ack_of(ack)))
        },
        i + 1 == k ==> incoming_view(rr.unwrap()@) == seq![
            (
                fragments_joined(payload, fs, k as int),
                DeliveryGuarantee::Reliable,
                OrderingGuarantee::Unordered,
                PacketType::Packet,
            ),
        ],
{
    lemma_fragment_reads_back(OrderingGuarantee::Unordered, local, i, k, ack, fragment_data(payload, fs, i));
    let b = fragment_datagram(payload, fs, k, local, ack, i);
    assert(b.subrange(9, b.len() as int) == fragment_data(payload, fs, i));
    let slots = rx.fragments().slots();
    let j = crate::sequence_buffer::slot_of(local, len as int);
    assert(slots[j] == Some((local, reassembling(payload, fs, local, k, i, ack_of(ack)))));
    assert(crate::sequence_buffer::spec_exists(slots, local));
    assert(fragments_joined(payload, fs, i + 1) == fragments_joined(payload, fs, i) + fragment_data(payload, fs, i));
    assert(Seq::new(k as nat, |x: int| x < i).update(i, true) =~= Seq::new(k as nat, |x: int| x < i + 1));
    if i + 1 < k {
        assert(rx2.fragments().slots() =~= ring_with(len, local, reassembling(payload, fs, local, k, i + 1, ack_of(ack))));
    }
}

/// What holds after the first `n` of the `k` fragments arrived in order.
proof fn lemma_reassembly_prefix(
    payload: Seq<u8>,
    fs: u16,
    k: u8,
    local: u16,
    ack: (u16, u16, u32),
    rxs: Seq<ReliabilitySystem>,
    rrs: Seq<Result<Vec<(Packet, PacketType)>, ErrorKind>>,
    n: int,
)
    requires
        fragmented_ok(payload, fs, k),
        rxs.len() == k + 1,
        rrs.len() == k,
        rxs[0].fragments().slots().len() > 0,
        forall|j: int| 0 <= j < rxs[0].fragments().slots().len() ==> #[trigger] rxs[0].fragments().slots()[j] is None,
        !crate::sequence_buffer::too_old(
            rxs[0].fragments().seq_num(),
            rxs[0].fragments().slots().len(),
            local,
        ),
        forall|i: int|
            0 <= i < k ==> incoming_step(
                rxs[i],
                rxs[i + 1],
                fragment_datagram(payload, fs, k, local, ack, i),
                #[trigger] rrs[i],
            ),
        1 <= n < k,
    ensures
        rxs[n].fragments().slots() == ring_with(
            rxs[0].fragments().slots().len(),
            local,
            reassembling(payload, fs, local, k, n, ack_of(ack)),
        ),
        forall|i: int| 0 <= i < n ==> #[trigger] rrs[i] is Ok && rrs[i].unwrap()@.len() == 0,
    decreases n,
{
    let len = rxs[0].fragments().slots().len();
    let i = n - 1;
    assert(incoming_step(rxs[i], rxs[i + 1], fragment_datagram(payload, fs, k, local, ack, i), rrs[i]));
    if n == 1 {
        lemma_reassembly_first(payload, fs, k, local, ack, rxs[0], rxs[1], rrs[0]);
    } else {
        lemma_reassembly_prefix(payload, fs, k, local, ack, rxs, rrs, n - 1);
        lemma_reassembly_next(payload, fs, k, local, ack, rxs[i], rxs[n], rrs[i], i, len);
    }
}

/// What one end sends in fragments, the other end reassembles: a reliable,
/// unordered packet larger than a fragment (and not larger than the allowed
/// fragments hold) is framed as `k` fragments; a receiver with no packet
/// being reassembled, and for which the packet's sequence number is not too
/// old, that takes them in in order delivers nothing for the first `k - 1`
/// and, for the last, one whole packet with the payload that was sent.
pub proof fn lemma_fragments_reassembled(
    sender: ReliabilitySystem,
    sender2: ReliabilitySystem,
    payload: Seq<u8>,
    r: Result<Vec<Vec<u8>>, ErrorKind>,
    rxs: Seq<ReliabilitySystem>,
    rrs: Seq<Result<Vec<(Packet, PacketType)>, ErrorKind>>,
)
    requires
        outgoing_step(
            sender,
            sender2,
            PacketType::Packet,
            DeliveryGuarantee::Reliable,
            OrderingGuarantee::Unordered,
            payload,
            None,
            r,
        ),
        sender.config().fragment_size > 0,
        sender.config().fragment_size < payload.len(),
        payload.len() <= sender.config().fragment_size * sender.config().max_fragments,
        payload.len() <= 65535,
        rxs.len() == spec_fragments_needed(payload.len() as u16, sender.config().fragment_size) + 1,
        rrs.len() + 1 == rxs.len(),
        rxs[0].wf(),
        forall|j: int| 0 <= j < rxs[0].fragments().slots().len() ==> #[trigger] rxs[0].fragments().slots()[j] is None,
        !crate::sequence_buffer::too_old(
            rxs[0].fragments().seq_num(),
            rxs[0].fragments().slots().len(),
            sender.acks().local_seq(),
        ),
        forall|i: int|
            0 <= i < rrs.len() ==> incoming_step(
                rxs[i],
                rxs[i + 1],
                datagrams(r.unwrap()@)[i],
                #[trigger] rrs[i],
            ),
    ensures
        r is Ok,
        datagrams(r.unwrap()@).len() == rrs.len(),
        forall|i: int| 0 <= i < rrs.len() - 1 ==> #[trigger] rrs[i] is Ok && rrs[i].unwrap()@.len() == 0,
        rrs.last() is Ok,
        incoming_view(rrs.last().unwrap()@) == seq![
            (payload, DeliveryGuarantee::Reliable, OrderingGuarantee::Unordered, PacketType::Packet),
        ],
{
    let fs = sender.config().fragment_size;
    let plen = payload.len() as u16;
    lemma_fragments_cover(plen, fs);
    let kk = spec_fragments_needed(plen, fs);
    assert(kk * fs >= payload.len());
    assert(kk >= 2) by (nonlinear_arith)
        requires
            kk * fs >= payload.len(),
            fs < payload.len(),
            fs > 0,
    ;
    assert(kk <= sender.config().max_fragments) by (nonlinear_arith)
        requires
            (kk - 1) * fs < payload.len(),
            payload.len() <= fs * sender.config().max_fragments,
            fs > 0,
    ;
    let k = kk as u8;
    let local = sender.acks().local_seq();
    let ack = sender.next_ack();
    assert forall|i: int| 0 <= i < k implies #[trigger] datagrams(r.unwrap()@)[i] == fragment_datagram(
        payload,
        fs,
        k,
        local,
        ack,
        i,
    ) by {}
    assert forall|i: int| 0 <= i < k implies incoming_step(
        rxs[i],
        rxs[i + 1],
        fragment_datagram(payload, fs, k, local, ack, i),
        #[trigger] rrs[i],
    ) by {
        assert(datagrams(r.unwrap()@)[i] == fragment_datagram(payload, fs, k, local, ack, i));
    }
    rxs[0].fragments().lemma_has_slot();
    let len = rxs[0].fragments().slots().len();
    lemma_reassembly_prefix(payload, fs, k, local, ack, rxs, rrs, k - 1);
    let i = k - 1;
    assert(incoming_step(rxs[i], rxs[i + 1], fragment_datagram(payload, fs, k, local, ack, i), rrs[i]));
    lemma_reassembly_next(payload, fs, k, local, ack, rxs[i], rxs[i + 1], rrs[i], i, len);
    lemma_fragments_joined(payload, fs, k as int);
    assert(payload.subrange(0, payload.len() as int) =~= payload);
    assert(rrs.last() == rrs[i]);
}

} // verus!
