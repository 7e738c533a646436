//! What a connection is given and what it hands back in one step: the
//! current time, the settings and the size of the send buffer in, the
//! datagrams to send and the events to report out. The socket around the
//! connections performs what comes out.
use crate::config::Config;
use crate::events::{ConnectionEvent, EventModel};
use vstd::prelude::*;

verus! {

/// A remote address: the IP address as 128 bits (an IPv4 address in the
/// low 32, with `v6` false) and the port.
#[derive(Debug, Clone, Copy, PartialEq, Eq, Structural, Hash)]
pub struct Address {
    pub ip: u128,
    pub port: u16,
    pub v6: bool,
}

/// Something a connection asks its socket to do.
#[derive(Debug)]
pub enum Outgoing {
    /// Send these bytes to this address.
    Datagram(Address, Vec<u8>),
    /// Report this event of the connection with this address.
    Event(Address, ConnectionEvent),
}

/// The content of an `Outgoing`.
pub enum OutModel {
    Datagram(Address, Seq<u8>),
    Event(Address, EventModel),
}

impl Outgoing {
    pub open spec fn model(&self) -> OutModel {
        match self {
            Outgoing::Datagram(a, b) => OutModel::Datagram(*a, b@),
            Outgoing::Event(a, e) => OutModel::Event(*a, e.model()),
        }
    }
}

/// The context of one step of the connections, and what they asked for in
/// it, in order.
pub struct Messenger {
    /// The current time in milliseconds.
    pub time: u64,
    /// The settings of the socket.
    pub config: Config,
    /// How many bytes one datagram may have.
    pub buffer_size: usize,
    /// What the connections asked for, oldest first.
    pub outbox: Vec<Outgoing>,
}

impl Messenger {
    /// The content of the outbox.
    pub open spec fn out(&self) -> Seq<OutModel> {
        self.outbox@.map_values(|o: Outgoing| o.model())
    }

    /// Whether `self` has the time, settings and buffer size of `other`.
    pub open spec fn same_context(&self, other: Messenger) -> bool {
        &&& self.time == other.time
        &&& self.config == other.config
        &&& self.buffer_size == other.buffer_size
    }

    /// A step at `time` with an empty outbox.
    pub fn new(time: u64, config: Config, buffer_size: usize) -> (r: Messenger)
        ensures
            r.time == time,
            r.config == config,
            r.buffer_size == buffer_size,
            r.out() == Seq::<OutModel>::empty(),
    {
        let r = Messenger { time, config, buffer_size, outbox: Vec::new() };
        assert(r.out() =~= Seq::<OutModel>::empty());
        r
    }

    /// Asks for an event to be reported.
    pub fn send_event(&mut self, address: Address, event: ConnectionEvent)
        ensures
            final(self).same_context(*old(self)),
            final(self).out() == old(self).out().push(OutModel::Event(address, event.model())),
    {
        let ghost e = event.model();
        self.outbox.push(Outgoing::Event(address, event));
        assert(self.out() =~= old(self).out().push(OutModel::Event(address, e)));
    }

    /// Asks for a datagram to be sent.
    pub fn send_datagram(&mut self, address: Address, bytes: Vec<u8>)
        ensures
            final(self).same_context(*old(self)),
            final(self).out() == old(self).out().push(OutModel::Datagram(address, bytes@)),
    {
        let ghost b = bytes@;
        self.outbox.push(Outgoing::Datagram(address, bytes));
        assert(self.out() =~= old(self).out().push(OutModel::Datagram(address, b)));
    }
}

} // verus!
