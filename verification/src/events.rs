//! The events that a user sends to connections and that connections report.
use crate::packet::{DeliveryGuarantee, OrderingGuarantee, Packet};
use vstd::prelude::*;

verus! {

/// A request of the user to a connection.
#[derive(Debug)]
pub enum UserEvent {
    Connect,
    Packet(Packet),
    Disconnect,
}

/// What a connection reports to the user.
#[derive(Debug)]
pub enum ConnectionEvent {
    Created,
    Connected,
    Reconnected,
    Packet(Packet),
    Disconnected(DisconnectReason),
    Destroyed(DestroyReason),
}

/// Why a connection was destroyed.
#[derive(Debug)]
pub enum DestroyReason {
    /// An error arrived from the connection manager.
    ConnectionError(String),
    /// The connection had no activity for the idle timeout.
    Timeout,
    /// Too many reliable packets were not acknowledged.
    TooManyPacketsInFlight,
    /// The connection was closed.
    GracefullyDisconnected,
    /// The remote host denied the connection.
    Declined,
}

/// Why a connection was disconnected.
#[derive(Debug)]
pub enum DisconnectReason {
    /// Closed by the local host.
    ClosedByLocalHost,
    /// Closed by the remote host.
    ClosedByRemoteHost,
    /// The connection is being destroyed.
    Destroying(DestroyReason),
}

/// The content of a destroy reason.
pub enum ReasonModel {
    ConnectionError(Seq<char>),
    Timeout,
    TooManyPacketsInFlight,
    GracefullyDisconnected,
    Declined,
}

impl DestroyReason {
    pub open spec fn model(&self) -> ReasonModel {
        match self {
            DestroyReason::ConnectionError(s) => ReasonModel::ConnectionError(s@),
            DestroyReason::Timeout => ReasonModel::Timeout,
            DestroyReason::TooManyPacketsInFlight => ReasonModel::TooManyPacketsInFlight,
            DestroyReason::GracefullyDisconnected => ReasonModel::GracefullyDisconnected,
            DestroyReason::Declined => ReasonModel::Declined,
        }
    }

    /// A copy of this reason.
    pub fn duplicate(&self) -> (r: DestroyReason)
        ensures
            r.model() == self.model(),
    {
        match self {
            DestroyReason::ConnectionError(s) => DestroyReason::ConnectionError(s.clone()),
            DestroyReason::Timeout => DestroyReason::Timeout,
            DestroyReason::TooManyPacketsInFlight => DestroyReason::TooManyPacketsInFlight,
            DestroyReason::GracefullyDisconnected => DestroyReason::GracefullyDisconnected,
            DestroyReason::Declined => DestroyReason::Declined,
        }
    }
}

/// The content of a disconnect reason.
pub enum DisconnectModel {
    ClosedByLocalHost,
    ClosedByRemoteHost,
    Destroying(ReasonModel),
}

impl DisconnectReason {
    pub open spec fn model(&self) -> DisconnectModel {
        match self {
            DisconnectReason::ClosedByLocalHost => DisconnectModel::ClosedByLocalHost,
            DisconnectReason::ClosedByRemoteHost => DisconnectModel::ClosedByRemoteHost,
            DisconnectReason::Destroying(r) => DisconnectModel::Destroying(r.model()),
        }
    }
}

/// The content of a connection event; a packet is its payload and its
/// guarantees.
pub enum EventModel {
    Created,
    Connected,
    Reconnected,
    Packet(Seq<u8>, DeliveryGuarantee, OrderingGuarantee),
    Disconnected(DisconnectModel),
    Destroyed(ReasonModel),
}

impl ConnectionEvent {
    pub open spec fn model(&self) -> EventModel {
        match self {
            ConnectionEvent::Created => EventModel::Created,
            ConnectionEvent::Connected => EventModel::Connected,
            ConnectionEvent::Reconnected => EventModel::Reconnected,
            ConnectionEvent::Packet(p) => EventModel::Packet(p.payload@, p.delivery, p.ordering),
            ConnectionEvent::Disconnected(r) => EventModel::Disconnected(r.model()),
            ConnectionEvent::Destroyed(r) => EventModel::Destroyed(r.model()),
        }
    }
}

/// The content of a user event; a packet is its payload and its guarantees.
pub enum UserEventModel {
    Connect,
    Packet(Seq<u8>, DeliveryGuarantee, OrderingGuarantee),
    Disconnect,
}

impl UserEvent {
    pub open spec fn model(&self) -> UserEventModel {
        match self {
            UserEvent::Connect => UserEventModel::Connect,
            UserEvent::Packet(p) => UserEventModel::Packet(p.payload@, p.delivery, p.ordering),
            UserEvent::Disconnect => UserEventModel::Disconnect,
        }
    }
}

} // verus!
