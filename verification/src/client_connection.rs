//! A connection seen from the client that opens it, as a state machine:
//! connecting (waiting for the challenge, then for the acceptance),
//! connected (payload flows through a reliability layer) or disconnected.
//! Only the handling of incoming datagrams is implemented; the rest of the
//! interface does nothing yet.
use crate::activity_system::ActivitySystem;
use crate::address_connection::{packet_events, HandshakePacket};
use crate::error::ErrorKind;
use crate::events::{DestroyReason, ReasonModel};
use crate::messenger::{Address, Messenger, OutModel};
use crate::packet::{Packet, PacketType};
use crate::packet_header::{HeaderModel, PacketHeader, PacketHeaderType};
use crate::reliability_system::{incoming_step, ReliabilitySystem};
use vstd::prelude::*;

verus! {

/// A connection that a manager drives: it takes decoded datagrams and user
/// packets, can be closed and updated, and says whether it is established
/// and whether it is to be destroyed.
pub trait Connection {
    /// What every operation keeps.
    spec fn inv(&self) -> bool;

    fn process_packet(&mut self, messenger: &mut Messenger, packet: PacketHeader)
        requires
            old(self).inv(),
            old(messenger).config.wf(),
        ensures
            final(self).inv(),
    ;

    fn user_packet(&mut self, messenger: &mut Messenger, packet: Packet)
        requires
            old(self).inv(),
        ensures
            final(self).inv(),
    ;

    fn disconnect(&mut self, messenger: &mut Messenger)
        requires
            old(self).inv(),
        ensures
            final(self).inv(),
    ;

    fn update(&mut self, messenger: &mut Messenger)
        requires
            old(self).inv(),
        ensures
            final(self).inv(),
    ;

    fn is_connected(&self) -> bool;

    fn should_drop(&self) -> Option<DestroyReason>;
}

struct ConnectingState {
    client_salt: u64,
    send_packet: HandshakePacket,
    hashed_salt: u64,
    send_at: u64,
    send_times_left: u8,
}

struct ConnectedState {
    identity: u64,
    activity: ActivitySystem,
    reliability: ReliabilitySystem,
}

struct DisconnectedState {
    immediately: bool,
    destroy_reason: DestroyReason,
}

enum ConnectionState {
    Connecting(ConnectingState),
    Connected(ConnectedState),
    Disconnected(DisconnectedState),
}

/// The content of the state of a client connection.
pub enum ClientModel {
    /// Waiting for the challenge to the client salt, then for the acceptance
    /// of the identity `hashed_salt`.
    Connecting {
        client_salt: u64,
        send_packet: HandshakePacket,
        hashed_salt: u64,
        send_at: u64,
        send_times_left: u8,
    },
    /// Established with `identity`.
    Connected {
        identity: u64,
        reliability: ReliabilitySystem,
        last_heard: u64,
        last_sent: u64,
        idle_timeout: u64,
    },
    /// Ended.
    Disconnected { immediately: bool, destroy_reason: ReasonModel },
}

/// The content of a client connection.
pub struct ClientConnectionModel {
    pub address: Address,
    pub state: ClientModel,
}

/// The client connection `o` became `f`, and the outbox `ob` became `oa`, on
/// a datagram with `identity` and header `h` at time `t`: a payload for the
/// established identity goes through the reliability layer and its packets
/// are reported; a challenge to the client salt gives the identity to wait
/// for; the acceptance of that identity establishes the connection with a
/// new reliability layer; a denial to the client salt ends it at once;
/// anything else is ignored.
pub open spec fn client_packet_step(
    o: ClientConnectionModel,
    f: ClientConnectionModel,
    identity: u64,
    h: HeaderModel,
    t: u64,
    config: crate::config::Config,
    ob: Seq<OutModel>,
    oa: Seq<OutModel>,
) -> bool {
    let unchanged = f == o && oa == ob;
    match h {
        HeaderModel::Payload(_, p, _, _) => if o.state is Connected && o.state->identity == identity {
            exists|r: Result<Vec<(Packet, PacketType)>, ErrorKind>|
                {
                    &&& #[trigger] incoming_step(o.state->reliability, f.state->reliability, p, r)
                    &&& f == (ClientConnectionModel {
                        address: o.address,
                        state: ClientModel::Connected {
                            identity,
                            reliability: f.state->reliability,
                            last_heard: t,
                            last_sent: o.state->last_sent,
                            idle_timeout: o.state->idle_timeout,
                        },
                    })
                    &&& oa == ob + packet_events(o.address, r)
                }
        } else {
            unchanged
        },
        HeaderModel::Challenge(server_salt) => if o.state is Connecting && o.state->client_salt == identity {
            &&& f == (ClientConnectionModel {
                address: o.address,
                state: ClientModel::Connecting {
                    client_salt: identity,
                    send_packet: o.state->send_packet,
                    hashed_salt: identity ^ server_salt,
                    send_at: o.state->send_at,
                    send_times_left: o.state->send_times_left,
                },
            })
            &&& oa == ob
        } else {
            unchanged
        },
        HeaderModel::ConnectionAccepted => if o.state is Connecting && o.state->hashed_salt == identity {
            &&& f.address == o.address
            &&& f.state is Connected
            &&& f.state->identity == identity
            &&& f.state->reliability.is_fresh(config)
            &&& f.state->last_heard == t
            &&& f.state->last_sent == t
            &&& f.state->idle_timeout == config.idle_connection_timeout
            &&& oa == ob
        } else {
            unchanged
        },
        HeaderModel::ConnectionDenied => if o.state is Connecting && o.state->client_salt == identity {
            &&& f == (ClientConnectionModel {
                address: o.address,
                state: ClientModel::Disconnected {
                    immediately: true,
                    destroy_reason: ReasonModel::Declined,
                },
            })
            &&& oa == ob
        } else {
            unchanged
        },
        _ => unchanged,
    }
}

/// The connection with a server, from the client's side.
pub struct ClientConnection {
    address: Address,
    state: ConnectionState,
}

impl ConnectedState {
    /// A payload for the established identity: the server was heard from,
    /// and the reliability layer turns the payload into packets, each
    /// reported in order.
    fn receive_payload(&mut self, address: Address, payload: &[u8], messenger: &mut Messenger) -> (res: Ghost<
        Result<Vec<(Packet, PacketType)>, ErrorKind>,
    >)
        requires
            old(self).reliability.wf(),
        ensures
            final(self).reliability.wf(),
            final(self).identity == old(self).identity,
            final(self).activity.last_heard() == old(messenger).time,
            final(self).activity.last_sent() == old(self).activity.last_sent(),
            final(self).activity.idle_timeout() == old(self).activity.idle_timeout(),
            final(messenger).same_context(*old(messenger)),
            incoming_step(old(self).reliability, final(self).reliability, payload@, res@),
            final(messenger).out() == old(messenger).out() + packet_events(address, res@),
    {
        self.activity.received(messenger.time);
        let ghost before = self.reliability;
        let r = self.reliability.process_incoming(payload, messenger.time);
        let ghost rv = r;
        assert(incoming_step(before, self.reliability, payload@, rv));
        match r {
            Ok(packets) => {
                let ghost out0 = messenger.out();
                let ghost events = packet_events(address, Ok::<_, ErrorKind>(packets));
                let mut rest = packets;
                let ghost all = rest@;
                let mut done: usize = 0;
                assert(all.len() == rest.len());
                while rest.len() > 0
                    invariant
                        messenger.same_context(*old(messenger)),
                        done + rest@.len() == all.len(),
                        all.len() <= usize::MAX,
                        rest@ == all.skip(done as int),
                        events.len() == all.len(),
                        forall|i: int|
                            0 <= i < all.len() ==> #[trigger] events[i] == OutModel::Event(
                                address,
                                crate::events::EventModel::Packet(
                                    all[i].0.payload@,
                                    all[i].0.delivery,
                                    all[i].0.ordering,
                                ),
                            ),
                        messenger.out() == out0 + events.take(done as int),
                    decreases rest@.len(),
                {
                    let incoming = rest.remove(0);
                    assert(incoming == all[done as int]);
                    messenger.send_event(address, crate::events::ConnectionEvent::Packet(incoming.0));
                    assert(events.take(done + 1) =~= events.take(done as int).push(events[done as int]));
                    done = done + 1;
                    assert(rest@ =~= all.skip(done as int));
                }
                assert(events.take(done as int) =~= events);
            },
            Err(_) => {
                assert(messenger.out() =~= old(messenger).out() + packet_events(address, rv));
            },
        }
        Ghost(rv)
    }
}

impl View for ClientConnection {
    type V = ClientConnectionModel;

    closed spec fn view(&self) -> ClientConnectionModel {
        ClientConnectionModel {
            address: self.address,
            state: match self.state {
                ConnectionState::Connecting(s) => ClientModel::Connecting {
                    client_salt: s.client_salt,
                    send_packet: s.send_packet,
                    hashed_salt: s.hashed_salt,
                    send_at: s.send_at,
                    send_times_left: s.send_times_left,
                },
                ConnectionState::Connected(s) => ClientModel::Connected {
                    identity: s.identity,
                    reliability: s.reliability,
                    last_heard: s.activity.last_heard(),
                    last_sent: s.activity.last_sent(),
                    idle_timeout: s.activity.idle_timeout(),
                },
                ConnectionState::Disconnected(s) => ClientModel::Disconnected {
                    immediately: s.immediately,
                    destroy_reason: s.destroy_reason.model(),
                },
            },
        }
    }
}

impl ClientConnection {
    /// Opening the connection: nothing is done yet.
    pub fn connect(&mut self, messenger: &mut Messenger)
        ensures
            final(self)@ == old(self)@,
            *final(messenger) == *old(messenger),
    {
    }
}

impl Connection for ClientConnection {
    /// An established connection has a well formed reliability layer.
    open spec fn inv(&self) -> bool {
        self@.state is Connected ==> self@.state->reliability.wf()
    }

    /// A decoded datagram, handled as `client_packet_step` says.
    fn process_packet(&mut self, messenger: &mut Messenger, packet: PacketHeader)
        ensures
            final(messenger).same_context(*old(messenger)),
            client_packet_step(
                old(self)@,
                final(self)@,
                packet.identity,
                packet.packet.model(),
                old(messenger).time,
                old(messenger).config,
                old(messenger).out(),
                final(messenger).out(),
            ),
    {
        let identity = packet.identity;
        let address = self.address;
        let ghost h = packet.packet.model();
        match packet.packet {
            PacketHeaderType::Payload(info) => {
                let ghost mut delivered: Result<Vec<(Packet, PacketType)>, ErrorKind> = arbitrary();
                if let ConnectionState::Connected(state) = &mut self.state {
                    if state.identity == identity {
                        let res = state.receive_payload(address, info.payload, messenger);
                        proof {
                            delivered = res@;
                        }
                    }
                }
                assert(h == HeaderModel::Payload(info.packet_type, info.payload@, info.delivery, info.ordering));
                assert(h matches HeaderModel::Payload(_, pp, _, _) && pp == info.payload@);
            },
            PacketHeaderType::Challenge(server_salt) => {
                if let ConnectionState::Connecting(state) = &mut self.state {
                    if state.client_salt == identity {
                        state.hashed_salt = state.client_salt ^ server_salt;
                    }
                }
            },
            PacketHeaderType::ConnectionAccepted => {
                let accept = match &self.state {
                    ConnectionState::Connecting(state) => state.hashed_salt == identity,
                    _ => false,
                };
                if accept {
                    self.state = ConnectionState::Connected(
                        ConnectedState {
                            identity,
                            reliability: ReliabilitySystem::new(&messenger.config),
                            activity: ActivitySystem::new(
                                messenger.config.idle_connection_timeout,
                                messenger.time,
                            ),
                        },
                    );
                }
            },
            PacketHeaderType::ConnectionDenied => {
                let deny = match &self.state {
                    ConnectionState::Connecting(state) => state.client_salt == identity,
                    _ => false,
                };
                if deny {
                    self.state = ConnectionState::Disconnected(
                        DisconnectedState { immediately: true, destroy_reason: DestroyReason::Declined },
                    );
                }
            },
            _ => {
            },
        }
    }

    /// A packet of the user: nothing is sent yet.
    fn user_packet(&mut self, messenger: &mut Messenger, packet: Packet)
        ensures
            final(self)@ == old(self)@,
            *final(messenger) == *old(messenger),
    {
    }

    /// Closing the connection: nothing is done yet.
    fn disconnect(&mut self, messenger: &mut Messenger)
        ensures
            final(self)@ == old(self)@,
            *final(messenger) == *old(messenger),
    {
    }

    /// A step of time: nothing is done yet.
    fn update(&mut self, messenger: &mut Messenger)
        ensures
            final(self)@ == old(self)@,
            *final(messenger) == *old(messenger),
    {
    }

    /// Never established as far as the manager knows, yet.
    fn is_connected(&self) -> (r: bool)
        ensures
            !r,
    {
        false
    }

    /// Never to be destroyed, yet.
    fn should_drop(&self) -> (r: Option<DestroyReason>)
        ensures
            r is None,
    {
        None
    }
}

} // verus!
