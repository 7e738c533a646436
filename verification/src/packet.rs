//! Packets and the guarantees that a user asks for.
use vstd::prelude::*;

verus! {

/// What a datagram of the reliability layer carries.
#[derive(Debug, Clone, Copy, PartialEq, Eq, Structural)]
pub enum PacketType {
    /// A whole user packet.
    Packet,
    /// One fragment of a user packet.
    Fragment,
    /// A packet with no user data that keeps the connection alive.
    Heartbeat,
}

/// Whether a packet is resent until it is acknowledged.
#[derive(Debug, Clone, Copy, PartialEq, Eq, Structural)]
pub enum DeliveryGuarantee {
    Unreliable,
    Reliable,
}

/// How packets of one stream are arranged on arrival.
#[derive(Debug, Clone, Copy, PartialEq, Eq, Structural)]
pub enum OrderingGuarantee {
    /// Delivered as they arrive.
    Unordered,
    /// Older packets than the newest one seen are dropped.
    Sequenced(Option<u8>),
    /// Delivered in the order in which they were sent.
    Ordered(Option<u8>),
}

/// A packet as it is handed to or from the reliability layer.
#[derive(Debug, PartialEq, Clone)]
pub struct PacketInfo<'a> {
    pub packet_type: PacketType,
    pub payload: &'a [u8],
    pub delivery: DeliveryGuarantee,
    pub ordering: OrderingGuarantee,
}

impl<'a> PacketInfo<'a> {
    /// A user packet with the given payload and guarantees.
    pub fn user_packet(
        payload: &'a [u8],
        delivery: DeliveryGuarantee,
        ordering: OrderingGuarantee,
    ) -> (r: PacketInfo<'a>)
        ensures
            r.packet_type == PacketType::Packet,
            r.payload@ == payload@,
            r.delivery == delivery,
            r.ordering == ordering,
    {
        PacketInfo { packet_type: PacketType::Packet, payload, delivery, ordering }
    }
}

/// A user packet: its payload and the guarantees it travels with.
#[derive(Debug, PartialEq, Clone)]
pub struct Packet {
    pub payload: Vec<u8>,
    pub delivery: DeliveryGuarantee,
    pub ordering: OrderingGuarantee,
}

impl Packet {
    pub fn new(payload: Vec<u8>, delivery: DeliveryGuarantee, ordering: OrderingGuarantee) -> (r:
        Packet)
        ensures
            r.payload@ == payload@,
            r.delivery == delivery,
            r.ordering == ordering,
    {
        Packet { payload, delivery, ordering }
    }

    /// An unreliable packet with no ordering.
    pub fn unreliable(payload: Vec<u8>) -> (r: Packet)
        ensures
            r.payload@ == payload@,
            r.delivery == DeliveryGuarantee::Unreliable,
            r.ordering == OrderingGuarantee::Unordered,
    {
        Packet::new(payload, DeliveryGuarantee::Unreliable, OrderingGuarantee::Unordered)
    }

    /// A reliable packet with no ordering.
    pub fn reliable_unordered(payload: Vec<u8>) -> (r: Packet)
        ensures
            r.payload@ == payload@,
            r.delivery == DeliveryGuarantee::Reliable,
            r.ordering == OrderingGuarantee::Unordered,
    {
        Packet::new(payload, DeliveryGuarantee::Reliable, OrderingGuarantee::Unordered)
    }

    /// A reliable packet delivered in order within its stream.
    pub fn reliable_ordered(payload: Vec<u8>, stream_id: Option<u8>) -> (r: Packet)
        ensures
            r.payload@ == payload@,
            r.delivery == DeliveryGuarantee::Reliable,
            r.ordering == OrderingGuarantee::Ordered(stream_id),
    {
        Packet::new(payload, DeliveryGuarantee::Reliable, OrderingGuarantee::Ordered(stream_id))
    }

    /// A reliable packet of which only the newest of its stream is delivered.
    pub fn reliable_sequenced(payload: Vec<u8>, stream_id: Option<u8>) -> (r: Packet)
        ensures
            r.payload@ == payload@,
            r.delivery == DeliveryGuarantee::Reliable,
            r.ordering == OrderingGuarantee::Sequenced(stream_id),
    {
        Packet::new(payload, DeliveryGuarantee::Reliable, OrderingGuarantee::Sequenced(stream_id))
    }

    /// An unreliable packet of which only the newest of its stream is delivered.
    pub fn unreliable_sequenced(payload: Vec<u8>, stream_id: Option<u8>) -> (r: Packet)
        ensures
            r.payload@ == payload@,
            r.delivery == DeliveryGuarantee::Unreliable,
            r.ordering == OrderingGuarantee::Sequenced(stream_id),
    {
        Packet::new(
            payload,
            DeliveryGuarantee::Unreliable,
            OrderingGuarantee::Sequenced(stream_id),
        )
    }

    pub fn payload(&self) -> (r: &[u8])
        ensures
            r@ == self.payload@,
    {
        self.payload.as_slice()
    }

    pub fn delivery_guarantee(&self) -> (r: DeliveryGuarantee)
        ensures
            r == self.delivery,
    {
        self.delivery
    }

    pub fn order_guarantee(&self) -> (r: OrderingGuarantee)
        ensures
            r == self.ordering,
    {
        self.ordering
    }
}

} // verus!
