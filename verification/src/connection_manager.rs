//! The connections of a socket, one per remote address: datagrams and user
//! events are dispatched to the connection of their address, connections
//! are created for connection requests and for the user's connect, and
//! destroyed once they are done.
use crate::address_connection::{
    process_challenge_response_step, process_challenge_step, process_connection_accepted_step,
    process_connection_denied_step, process_connection_request_step, process_disconnect_step,
    process_payload_step, update_step, user_connect_step, user_disconnect_step, user_packet_step,
    handshakes_distinct, AddressConnection, ConnectionModel, SEND_INTERVAL_DURING_HANDSHAKE,
};
use crate::config::Config;
use crate::events::{ConnectionEvent, EventModel, UserEvent, UserEventModel};
use crate::messenger::{Address, Messenger, OutModel};
use crate::packet_header::{spec_decode, HeaderModel, PacketHeader, PacketHeaderType, HEADER_SIZE};
use vstd::prelude::*;

verus! {

/// The content of a manager.
pub struct ManagerModel {
    /// The connections, in the order in which they are updated.
    pub connections: Seq<ConnectionModel>,
    /// How many connections had an established handshake at the last update,
    /// plus those established since.
    pub connected: usize,
    pub max_connected: usize,
    pub max_total: usize,
    pub max_pending: usize,
}

/// Whether some connection has this address.
pub open spec fn has_address(cs: Seq<ConnectionModel>, address: Address) -> bool {
    exists|i: int| 0 <= i < cs.len() && #[trigger] cs[i].address == address
}

/// The position of the connection with this address.
pub open spec fn index_of(cs: Seq<ConnectionModel>, address: Address) -> int {
    choose|i: int| 0 <= i < cs.len() && #[trigger] cs[i].address == address
}

/// A connection with `address` just created at `time`.
pub open spec fn fresh_connection(c: ConnectionModel, address: Address, config: Config, time: u64) -> bool {
    &&& c.address == address
    &&& c.active is None
    &&& c.pending == Seq::<crate::address_connection::ConnectionState>::empty()
    &&& c.packet_to_send is None
    &&& c.destroy_reason is None
    &&& c.reliability.is_fresh(config)
    &&& c.last_heard == time
    &&& c.last_sent == time
    &&& c.idle_timeout == config.idle_connection_timeout
}

/// The connection `c` handled a datagram with `identity` and header `h`,
/// became `c2` and returned `accepted_new` (only a challenge response can
/// establish a new connection).
pub open spec fn header_handled(
    c: ConnectionModel,
    c2: ConnectionModel,
    identity: u64,
    h: HeaderModel,
    can_accept_new: bool,
    max_pending: usize,
    accepted_new: bool,
    t: u64,
    buf: usize,
    ob: Seq<OutModel>,
    oa: Seq<OutModel>,
) -> bool {
    match h {
        HeaderModel::Payload(_, p, _, _) => !accepted_new && process_payload_step(
            c,
            c2,
            identity,
            p,
            t,
            buf,
            ob,
            oa,
        ),
        HeaderModel::Disconnect => !accepted_new && process_disconnect_step(c, c2, identity, t, buf, ob, oa),
        HeaderModel::ConnectionRequest => !accepted_new && process_connection_request_step(
            c,
            c2,
            identity,
            max_pending,
            t,
            buf,
            ob,
            oa,
        ),
        HeaderModel::Challenge(s) => !accepted_new && process_challenge_step(
            c,
            c2,
            identity,
            s,
            t,
            buf,
            ob,
            oa,
        ),
        HeaderModel::ChallengeResponse => process_challenge_response_step(
            c,
            c2,
            identity,
            can_accept_new,
            accepted_new,
            t,
            buf,
            ob,
            oa,
        ),
        HeaderModel::ConnectionAccepted => !accepted_new && process_connection_accepted_step(
            c,
            c2,
            identity,
            t,
            buf,
            ob,
            oa,
        ),
        HeaderModel::ConnectionDenied => !accepted_new && process_connection_denied_step(
            c,
            c2,
            identity,
            t,
            buf,
            ob,
            oa,
        ),
    }
}

/// The manager `o` became `f`, and the outbox `ob` became `oa`, on the
/// datagram `bytes` from `address`: an unreadable datagram is ignored; a
/// datagram for a known address goes to its connection; a connection
/// request from an unknown address creates a connection, where fewer than
/// the maximum exist; anything else is ignored.
pub open spec fn packet_dispatched(
    o: ManagerModel,
    f: ManagerModel,
    address: Address,
    bytes: Seq<u8>,
    config: Config,
    t: u64,
    buf: usize,
    ob: Seq<OutModel>,
    oa: Seq<OutModel>,
) -> bool {
    match spec_decode(bytes) {
        Err(_) => f == o && oa == ob,
        Ok((identity, h)) => if has_address(o.connections, address) {
            let i = index_of(o.connections, address);
            let acc = f.connected != o.connected;
            &&& header_handled(
                o.connections[i],
                f.connections[i],
                identity,
                h,
                o.connected < o.max_connected,
                o.max_pending,
                acc,
                t,
                buf,
                ob,
                oa,
            )
            &&& f == ManagerModel {
                connections: o.connections.update(i, f.connections[i]),
                connected: if acc {
                    (o.connected + 1) as usize
                } else {
                    o.connected
                },
                ..o
            }
        } else if h is ConnectionRequest && o.connections.len() < o.max_total {
            exists|c: ConnectionModel|
                {
                    &&& #[trigger] fresh_connection(c, address, config, t)
                    &&& process_connection_request_step(
                        c,
                        f.connections.last(),
                        identity,
                        o.max_pending,
                        t,
                        buf,
                        ob.push(OutModel::Event(address, EventModel::Created)),
                        oa,
                    )
                    &&& f == ManagerModel { connections: o.connections.push(f.connections.last()), ..o }
                }
        } else {
            f == o && oa == ob
        },
    }
}

/// The manager `o` became `f`, and the outbox `ob` became `oa`, on the user
/// event `e` for `address`: it goes to the connection of the address; a
/// connect for an unknown address creates a connection; anything else is
/// ignored.
pub open spec fn event_dispatched(
    o: ManagerModel,
    f: ManagerModel,
    address: Address,
    e: UserEventModel,
    config: Config,
    t: u64,
    buf: usize,
    ob: Seq<OutModel>,
    oa: Seq<OutModel>,
) -> bool {
    if has_address(o.connections, address) {
        let i = index_of(o.connections, address);
        &&& f == ManagerModel { connections: o.connections.update(i, f.connections[i]), ..o }
        &&& match e {
            UserEventModel::Connect => user_connect_step(o.connections[i], f.connections[i], t, buf, ob, oa),
            UserEventModel::Packet(p, d, ord) => user_packet_step(
                o.connections[i],
                f.connections[i],
                p,
                d,
                ord,
                t,
                buf,
                ob,
                oa,
            ),
            UserEventModel::Disconnect => user_disconnect_step(
                o.connections[i],
                f.connections[i],
                t,
                buf,
                ob,
                oa,
            ),
        }
    } else if e is Connect {
        exists|c: ConnectionModel|
            {
                &&& #[trigger] fresh_connection(c, address, config, t)
                &&& user_connect_step(
                    c,
                    f.connections.last(),
                    t,
                    buf,
                    ob.push(OutModel::Event(address, EventModel::Created)),
                    oa,
                )
                &&& f == ManagerModel { connections: o.connections.push(f.connections.last()), ..o }
            }
    } else {
        f == o && oa == ob
    }
}

/// Whether a connection is to be destroyed: it has a reason and no
/// handshake datagram left to send.
pub open spec fn to_destroy(c: ConnectionModel) -> bool {
    c.destroy_reason is Some && c.packet_to_send is None
}

/// How many connections have an established handshake.
pub open spec fn count_connected(cs: Seq<ConnectionModel>) -> nat
    decreases cs.len(),
{
    if cs.len() == 0 {
        0
    } else {
        count_connected(cs.drop_last()) + if cs.last().active is Some {
            1nat
        } else {
            0nat
        }
    }
}

/// The connections that are not to be destroyed, in order.
pub open spec fn kept(cs: Seq<ConnectionModel>) -> Seq<ConnectionModel>
    decreases cs.len(),
{
    if cs.len() == 0 {
        Seq::empty()
    } else {
        kept(cs.drop_last()) + if to_destroy(cs.last()) {
            Seq::empty()
        } else {
            seq![cs.last()]
        }
    }
}

/// The events that report the destroyed connections, in order.
pub open spec fn destroyed_events(cs: Seq<ConnectionModel>) -> Seq<OutModel>
    decreases cs.len(),
{
    if cs.len() == 0 {
        Seq::empty()
    } else {
        destroyed_events(cs.drop_last()) + if to_destroy(cs.last()) {
            seq![OutModel::Event(cs.last().address, EventModel::Destroyed(cs.last().destroy_reason.unwrap()))]
        } else {
            Seq::empty()
        }
    }
}

/// Removing the connections to be destroyed removes no established one,
/// where none to be destroyed has an established handshake.
proof fn lemma_count_kept(cs: Seq<ConnectionModel>)
    requires
        forall|i: int| 0 <= i < cs.len() ==> #[trigger] cs[i].destroy_reason is Some ==> cs[i].active is None,
    ensures
        count_connected(kept(cs)) == count_connected(cs),
    decreases cs.len(),
{
    if cs.len() > 0 {
        let p = cs.drop_last();
        assert forall|i: int| 0 <= i < p.len() implies #[trigger] p[i].destroy_reason is Some ==> p[i].active is None by {
            assert(p[i] == cs[i]);
        }
        lemma_count_kept(p);
        lemma_count_append(kept(p), if to_destroy(cs.last()) {
            Seq::empty()
        } else {
            seq![cs.last()]
        });
        assert(cs.last() == cs[cs.len() - 1]);
        let one = seq![cs.last()];
        assert(one.drop_last() =~= Seq::<ConnectionModel>::empty());
        assert(count_connected(one) == count_connected(Seq::<ConnectionModel>::empty()) + if cs.last().active is Some {
            1nat
        } else {
            0nat
        });
        assert(count_connected(Seq::<ConnectionModel>::empty()) == 0);
    }
}

/// Counting established connections adds up over concatenation.
proof fn lemma_count_append(a: Seq<ConnectionModel>, b: Seq<ConnectionModel>)
    ensures
        count_connected(a + b) == count_connected(a) + count_connected(b),
    decreases b.len(),
{
    if b.len() == 0 {
        assert(a + b =~= a);
    } else {
        lemma_count_append(a, b.drop_last());
        assert((a + b).drop_last() =~= a + b.drop_last());
        assert((a + b).last() == b.last());
    }
}

/// The manager `o` became `f`, and the outbox `ob` became `oa`, in a step
/// of time: each connection was updated in order (giving `mids`, with the
/// outbox going through `outs`), those to be destroyed were removed and
/// reported, and the count of established connections is that of the ones
/// that remain.
pub open spec fn connections_updated(
    o: ManagerModel,
    f: ManagerModel,
    mids: Seq<ConnectionModel>,
    outs: Seq<Seq<OutModel>>,
    max_in_flight: u16,
    t: u64,
    buf: usize,
    ob: Seq<OutModel>,
    oa: Seq<OutModel>,
) -> bool {
    &&& mids.len() == o.connections.len()
    &&& outs.len() == mids.len() + 1
    &&& outs[0] == ob
    &&& forall|i: int|
        0 <= i < mids.len() ==> update_step(
            o.connections[i],
            #[trigger] mids[i],
            max_in_flight,
            t,
            buf,
            outs[i],
            outs[i + 1],
        )
    &&& f == ManagerModel { connections: kept(mids), connected: count_connected(kept(mids)) as usize, ..o }
    &&& oa == outs.last() + destroyed_events(mids)
}

/// A remote host cannot grow a manager beyond its limits: a datagram adds at
/// most one connection, only for a connection request from an unknown
/// address, reported as created first, and only where fewer than the
/// maximum exist; it counts at most one new established connection, and only
/// where fewer than the maximum are counted; an unreadable datagram changes
/// nothing.
pub proof fn lemma_datagram_within_limits(
    o: ManagerModel,
    f: ManagerModel,
    address: Address,
    bytes: Seq<u8>,
    config: Config,
    t: u64,
    buf: usize,
    ob: Seq<OutModel>,
    oa: Seq<OutModel>,
)
    requires
        packet_dispatched(o, f, address, bytes, config, t, buf, ob, oa),
    ensures
        f.connections.len() <= o.connections.len() + 1,
        f.connections.len() > o.connections.len() ==> o.connections.len() < o.max_total,
        f.connected == o.connected || (f.connected == o.connected + 1 && o.connected < o.max_connected),
        f.max_connected == o.max_connected,
        f.max_total == o.max_total,
        f.max_pending == o.max_pending,
        o.connections.len() <= o.max_total ==> f.connections.len() <= f.max_total,
        o.connected <= o.max_connected ==> f.connected <= f.max_connected,
        spec_decode(bytes) is Err ==> f == o && oa == ob,
        f.connections.len() > o.connections.len() ==> {
            &&& spec_decode(bytes) matches Ok((_, h)) && h is ConnectionRequest
            &&& !has_address(o.connections, address)
            &&& oa[ob.len() as int] == OutModel::Event(address, EventModel::Created)
        },
{
}

/// No two connections have the same address.
pub open spec fn addresses_distinct(cs: Seq<ConnectionModel>) -> bool {
    forall|i: int, j: int| 0 <= i < j < cs.len() ==> #[trigger] cs[i].address != #[trigger] cs[j].address
}

/// The connections of a socket.
pub struct Manager {
    connections: Vec<AddressConnection>,
    connected_connections: usize,
    max_connected_connections: usize,
    max_total_connections: usize,
    max_pending_per_connection: usize,
}

impl View for Manager {
    type V = ManagerModel;

    closed spec fn view(&self) -> ManagerModel {
        ManagerModel {
            connections: self.connections@.map_values(|c: AddressConnection| c@),
            connected: self.connected_connections,
            max_connected: self.max_connected_connections,
            max_total: self.max_total_connections,
            max_pending: self.max_pending_per_connection,
        }
    }
}

impl Manager {
    /// Every connection is well formed, and no two have the same address.
    pub closed spec fn wf(&self) -> bool {
        &&& forall|i: int| 0 <= i < self.connections@.len() ==> #[trigger] self.connections@[i].wf()
        &&& forall|i: int, j: int|
            0 <= i < j < self.connections@.len() ==> #[trigger] self.connections@[i]@.address
                != #[trigger] self.connections@[j]@.address
    }

    /// A manager holds at most one connection per remote address, and each
    /// of its connections is well formed.
    pub proof fn lemma_one_connection_per_address(&self)
        requires
            self.wf(),
        ensures
            addresses_distinct(self@.connections),
            forall|i: int| 0 <= i < self@.connections.len() ==> handshakes_distinct(
                #[trigger] self@.connections[i].active,
                self@.connections[i].pending,
            ),
    {
        assert forall|i: int, j: int| 0 <= i < j < self@.connections.len() implies #[trigger] self@.connections[i].address
            != #[trigger] self@.connections[j].address by {
            assert(self.connections@[i]@.address != self.connections@[j]@.address);
        }
        assert forall|i: int| 0 <= i < self@.connections.len() implies handshakes_distinct(
            #[trigger] self@.connections[i].active,
            self@.connections[i].pending,
        ) by {
            assert(self.connections@[i].wf());
        }
    }

    /// A manager with no connection, which establishes at most 10
    /// connections, holds at most 20 and lets each have at most 5 pending
    /// handshakes.
    pub fn new() -> (r: Self)
        ensures
            r.wf(),
            r@.connections == Seq::<ConnectionModel>::empty(),
            r@.connected == 0,
            r@.max_connected == 10,
            r@.max_total == 20,
            r@.max_pending == 5,
    {
        let r = Self {
            connections: Vec::new(),
            connected_connections: 0,
            max_connected_connections: 10,
            max_total_connections: 20,
            max_pending_per_connection: 5,
        };
        assert(r@.connections =~= Seq::<ConnectionModel>::empty());
        r
    }

    /// The position of the connection with this address.
    fn find(&self, address: Address) -> (r: Option<usize>)
        requires
            self.wf(),
        ensures
            match r {
                Some(i) => has_address(self@.connections, address) && i == index_of(
                    self@.connections,
                    address,
                ),
                None => !has_address(self@.connections, address),
            },
    {
        let mut i: usize = 0;
        while i < self.connections.len()
            invariant
                self.wf(),
                i <= self.connections@.len(),
                forall|j: int| 0 <= j < i ==> #[trigger] self.connections@[j]@.address != address,
            decreases self.connections@.len() - i,
        {
            if self.connections[i].address() == address {
                proof {
                    assert(self@.connections[i as int].address == address);
                    assert(has_address(self@.connections, address));
                    let k = index_of(self@.connections, address);
                    assert(0 <= k < self@.connections.len());
                    assert(self@.connections[k].address == address);
                    assert(self.connections@[k]@.address == address);
                    if k != i {
                        if k < i {
                            assert(self.connections@[k]@.address != self.connections@[i as int]@.address);
                        } else {
                            assert(self.connections@[i as int]@.address != self.connections@[k]@.address);
                        }
                    }
                }
                return Some(i);
            }
            i = i + 1;
        }
        proof {
            assert forall|j: int| 0 <= j < self@.connections.len() implies #[trigger] self@.connections[j].address
                != address by {
                assert(self.connections@[j]@.address != address);
            }
        }
        None
    }
    proof fn lemma_wf_after_update(&self, before: Seq<AddressConnection>, i: int)
        requires
            0 <= i < before.len(),
            self.connections@.len() == before.len(),
            forall|j: int| 0 <= j < before.len() && j != i ==> #[trigger] self.connections@[j] == before[j],
            self.connections@[i].wf(),
            self.connections@[i]@.address == before[i]@.address,
            forall|j: int| 0 <= j < before.len() ==> #[trigger] before[j].wf(),
            forall|a: int, b: int|
                0 <= a < b < before.len() ==> #[trigger] before[a]@.address != #[trigger] before[b]@.address,
        ensures
            self.wf(),
    {
        assert forall|a: int, b: int| 0 <= a < b < self.connections@.len() implies #[trigger] self.connections@[a]@.address
            != #[trigger] self.connections@[b]@.address by {
            assert(self.connections@[a]@.address == before[a]@.address);
            assert(self.connections@[b]@.address == before[b]@.address);
        }
    }

    proof fn lemma_wf_after_push(&self, before: Seq<AddressConnection>)
        requires
            self.connections@.len() == before.len() + 1,
            forall|j: int| 0 <= j < before.len() ==> #[trigger] self.connections@[j] == before[j],
            self.connections@.last().wf(),
            forall|j: int| 0 <= j < before.len() ==> #[trigger] before[j]@.address != self.connections@.last()@.address,
            forall|j: int| 0 <= j < before.len() ==> #[trigger] before[j].wf(),
            forall|a: int, b: int|
                0 <= a < b < before.len() ==> #[trigger] before[a]@.address != #[trigger] before[b]@.address,
        ensures
            self.wf(),
    {
        assert forall|j: int| 0 <= j < self.connections@.len() implies #[trigger] self.connections@[j].wf() by {
            if j < before.len() {
                assert(self.connections@[j] == before[j]);
            }
        }
        assert forall|a: int, b: int| 0 <= a < b < self.connections@.len() implies #[trigger] self.connections@[a]@.address
            != #[trigger] self.connections@[b]@.address by {
            assert(self.connections@[a] == before[a]);
            if b < before.len() {
                assert(self.connections@[b] == before[b]);
            }
        }
    }

    /// A datagram from `address`: a readable one goes to the connection of
    /// the address; a connection request from an unknown address creates a
    /// connection (reported as created) where fewer than the maximum exist.
    /// A challenge response that establishes a new connection counts it.
    pub fn process_packet(&mut self, messenger: &mut Messenger, address: Address, payload: &[u8])
        requires
            old(self).wf(),
            old(messenger).buffer_size >= HEADER_SIZE + 8,
            old(messenger).config.wf(),
        ensures
            final(self).wf(),
            final(messenger).same_context(*old(messenger)),
            packet_dispatched(
                old(self)@,
                final(self)@,
                address,
                payload@,
                old(messenger).config,
                old(messenger).time,
                old(messenger).buffer_size,
                old(messenger).out(),
                final(messenger).out(),
            ),
    {
        let ghost o = self@;
        if let Ok(header) = PacketHeader::from_bytes(payload) {
            let identity = header.identity;
            if let Some(i) = self.find(address) {
                let can_accept_new = self.connected_connections < self.max_connected_connections;
                let max_pending = self.max_pending_per_connection;
                let ghost c0 = self.connections@[i as int];
                let mut accepted = false;
                let conn = &mut self.connections[i];
                match header.packet {
                    PacketHeaderType::Payload(info) => {
                        conn.process_payload(identity, info.payload, messenger);
                    },
                    PacketHeaderType::Disconnect => {
                        conn.process_disconnect(identity, messenger);
                    },
                    PacketHeaderType::ConnectionRequest => {
                        conn.process_connection_request(identity, messenger, max_pending);
                    },
                    PacketHeaderType::Challenge(server_salt) => {
                        conn.process_challenge(identity, server_salt, messenger);
                    },
                    PacketHeaderType::ChallengeResponse => {
                        accepted = conn.process_challenge_response(identity, messenger, can_accept_new);
                    },
                    PacketHeaderType::ConnectionAccepted => {
                        conn.process_connection_accepted(identity, messenger);
                    },
                    PacketHeaderType::ConnectionDenied => {
                        conn.process_connection_denied(identity, messenger);
                    },
                }
                if accepted {
                    self.connected_connections = self.connected_connections + 1;
                }
                proof {
                    assert(self.connections@[i as int]@.address == c0@.address);
                    assert(self@.connections =~= o.connections.update(i as int, self@.connections[i as int]));
                    self.lemma_wf_after_update(old(self).connections@, i as int);
                }
            } else if let PacketHeaderType::ConnectionRequest = header.packet {
                if self.connections.len() < self.max_total_connections {
                    messenger.send_event(address, ConnectionEvent::Created);
                    let mut conn = AddressConnection::new(address, &messenger.config, messenger.time);
                    let ghost c0 = conn@;
                    conn.process_connection_request(identity, messenger, self.max_pending_per_connection);
                    self.connections.push(conn);
                    proof {
                        assert(fresh_connection(c0, address, old(messenger).config, old(messenger).time));
                        assert(self@.connections =~= o.connections.push(self@.connections.last()));
                        assert(self.connections@.last()@.address == address);
                        assert forall|j: int| 0 <= j < old(self).connections@.len() implies #[trigger] old(
                            self,
                        ).connections@[j]@.address != self.connections@.last()@.address by {
                            assert(o.connections[j] == old(self).connections@[j]@);
                        }
                        self.lemma_wf_after_push(old(self).connections@);
                    }
                }
            }
        }
    }
    /// A user event for `address`: it goes to the connection of the
    /// address; a connect for an unknown address creates a connection
    /// (reported as created), whatever the number of connections.
    pub fn process_event(&mut self, messenger: &mut Messenger, address: Address, event: UserEvent)
        requires
            old(self).wf(),
            old(messenger).buffer_size >= HEADER_SIZE,
            old(messenger).config.wf(),
        ensures
            final(self).wf(),
            final(messenger).same_context(*old(messenger)),
            event_dispatched(
                old(self)@,
                final(self)@,
                address,
                event.model(),
                old(messenger).config,
                old(messenger).time,
                old(messenger).buffer_size,
                old(messenger).out(),
                final(messenger).out(),
            ),
    {
        let ghost o = self@;
        if let Some(i) = self.find(address) {
            let ghost c0 = self.connections@[i as int];
            let conn = &mut self.connections[i];
            match event {
                UserEvent::Connect => {
                    conn.user_connect(messenger);
                },
                UserEvent::Packet(packet) => {
                    conn.user_packet(packet, messenger);
                },
                UserEvent::Disconnect => {
                    conn.user_disconnect(messenger);
                },
            }
            proof {
                assert(self.connections@[i as int]@.address == c0@.address);
                assert(self@.connections =~= o.connections.update(i as int, self@.connections[i as int]));
                self.lemma_wf_after_update(old(self).connections@, i as int);
            }
        } else if let UserEvent::Connect = event {
            messenger.send_event(address, ConnectionEvent::Created);
            let mut conn = AddressConnection::new(address, &messenger.config, messenger.time);
            let ghost c0 = conn@;
            conn.user_connect(messenger);
            self.connections.push(conn);
            proof {
                assert(fresh_connection(c0, address, old(messenger).config, old(messenger).time));
                assert(self@.connections =~= o.connections.push(self@.connections.last()));
                assert(self.connections@.last()@.address == address);
                assert forall|j: int| 0 <= j < old(self).connections@.len() implies #[trigger] old(
                    self,
                ).connections@[j]@.address != self.connections@.last()@.address by {
                    assert(o.connections[j] == old(self).connections@[j]@);
                }
                self.lemma_wf_after_push(old(self).connections@);
            }
        }
    }
    /// A step of time: each connection is updated, in order; the
    /// established ones are counted; those to be destroyed are removed and
    /// reported as destroyed.
    pub fn update_connections(&mut self, messenger: &mut Messenger)
        requires
            old(self).wf(),
            old(messenger).buffer_size >= HEADER_SIZE,
            old(messenger).time <= u64::MAX - SEND_INTERVAL_DURING_HANDSHAKE,
        ensures
            final(self).wf(),
            final(messenger).same_context(*old(messenger)),
            exists|mids: Seq<ConnectionModel>, outs: Seq<Seq<OutModel>>|
                #[trigger] connections_updated(
                    old(self)@,
                    final(self)@,
                    mids,
                    outs,
                    old(messenger).config.max_packets_in_flight,
                    old(messenger).time,
                    old(messenger).buffer_size,
                    old(messenger).out(),
                    final(messenger).out(),
                ),
    {
        let ghost o = self@;
        let ghost mut outs = seq![messenger.out()];
        let n = self.connections.len();
        let mut i: usize = 0;
        while i < n
            invariant
                n == self.connections@.len(),
                n == o.connections.len(),
                i <= n,
                messenger.same_context(*old(messenger)),
                old(messenger).buffer_size >= HEADER_SIZE,
                old(messenger).time <= u64::MAX - SEND_INTERVAL_DURING_HANDSHAKE,
                o == old(self)@,
                self.max_connected_connections == old(self).max_connected_connections,
                self.max_total_connections == old(self).max_total_connections,
                self.max_pending_per_connection == old(self).max_pending_per_connection,
                self.connected_connections == old(self).connected_connections,
                forall|j: int| 0 <= j < n ==> #[trigger] self.connections@[j].wf(),
                forall|j: int| 0 <= j < n ==> #[trigger] self.connections@[j]@.address == o.connections[j].address,
                forall|j: int| i <= j < n ==> #[trigger] self.connections@[j] == old(self).connections@[j],
                forall|a: int, b: int|
                    0 <= a < b < n ==> #[trigger] o.connections[a].address != #[trigger] o.connections[b].address,
                outs.len() == i + 1,
                outs[0] == old(messenger).out(),
                outs.last() == messenger.out(),
                forall|j: int|
                    0 <= j < i ==> update_step(
                        o.connections[j],
                        #[trigger] self@.connections[j],
                        old(messenger).config.max_packets_in_flight,
                        old(messenger).time,
                        old(messenger).buffer_size,
                        outs[j],
                        outs[j + 1],
                    ),
            decreases n - i,
        {
            let ghost before = self.connections@;
            let ghost s0 = self@;
            let ghost outs0 = outs;
            let conn = &mut self.connections[i];
            conn.update(messenger);
            proof {
                outs = outs.push(messenger.out());
                assert forall|j: int| 0 <= j < n && j != i implies #[trigger] self.connections@[j] == before[j] by {}
                assert(self@.connections[i as int] == self.connections@[i as int]@);
                assert forall|j: int| 0 <= j < i + 1 implies update_step(
                    o.connections[j],
                    #[trigger] self@.connections[j],
                    old(messenger).config.max_packets_in_flight,
                    old(messenger).time,
                    old(messenger).buffer_size,
                    outs[j],
                    outs[j + 1],
                ) by {
                    assert(self@.connections[j] == self.connections@[j]@);
                    assert(outs[j] == outs0[j] || j == i);
                    if j < i {
                        assert(self.connections@[j] == before[j]);
                        assert(s0.connections[j] == before[j]@);
                        assert(outs[j] == outs0[j]);
                        assert(outs[j + 1] == outs0[j + 1]);
                    } else {
                        assert(outs[j] == outs0.last());
                        assert(o.connections[j] == old(self).connections@[j]@);
                    }
                }
            }
            i = i + 1;
        }
        let ghost mids = self@.connections;
        let ghost mids_wf = self.connections@;
        let ghost out_mid = messenger.out();
        let mut connected: usize = 0;
        let mut k: usize = 0;
        while k < n
            invariant
                n == self.connections@.len(),
                mids == self@.connections,
                mids.len() == n,
                k <= n,
                connected <= k,
                connected == count_connected(mids.take(k as int)),
            decreases n - k,
        {
            assert(mids.take(k + 1).drop_last() =~= mids.take(k as int));
            assert(self.connections@[k as int]@ == mids[k as int]);
            if self.connections[k].is_connected() {
                connected = connected + 1;
            }
            k = k + 1;
        }
        assert(mids.take(n as int) =~= mids);
        self.connected_connections = connected;
        let mut rest: Vec<AddressConnection> = Vec::new();
        std::mem::swap(&mut rest, &mut self.connections);
        let mut done: usize = 0;
        assert(mids.take(0) =~= Seq::<ConnectionModel>::empty());
        assert(self@.connections =~= Seq::<ConnectionModel>::empty());
        while rest.len() > 0
            invariant
                done + rest@.len() == n,
                mids.len() == n,
                forall|j: int| 0 <= j < rest@.len() ==> #[trigger] rest@[j]@ == mids[done + j],
                forall|j: int| 0 <= j < rest@.len() ==> #[trigger] rest@[j].wf(),
                forall|a: int, b: int|
                    0 <= a < b < rest@.len() ==> #[trigger] rest@[a]@.address != #[trigger] rest@[b]@.address,
                forall|j: int| 0 <= j < self.connections@.len() ==> #[trigger] self.connections@[j].wf(),
                forall|a: int, b: int|
                    0 <= a < b < self.connections@.len() ==> #[trigger] self.connections@[a]@.address
                        != #[trigger] self.connections@[b]@.address,
                forall|a: int, b: int|
                    0 <= a < self.connections@.len() && 0 <= b < rest@.len() ==> #[trigger] self.connections@[a]@.address
                        != #[trigger] rest@[b]@.address,
                self@.connections == kept(mids.take(done as int)),
                messenger.out() == out_mid + destroyed_events(mids.take(done as int)),
                messenger.same_context(*old(messenger)),
                self.connected_connections == connected,
                self.max_connected_connections == old(self).max_connected_connections,
                self.max_total_connections == old(self).max_total_connections,
                self.max_pending_per_connection == old(self).max_pending_per_connection,
            decreases rest@.len(),
        {
            let ghost rest0 = rest@;
            let ghost kept0 = self.connections@;
            let conn = rest.remove(0);
            assert(conn@ == mids[done as int]);
            assert(mids.take(done + 1).drop_last() =~= mids.take(done as int));
            assert(mids.take(done + 1).last() == mids[done as int]);
            match conn.should_drop() {
                Some(reason) => {
                    messenger.send_event(conn.address(), ConnectionEvent::Destroyed(reason));
                    assert(messenger.out() =~= out_mid + destroyed_events(mids.take(done + 1)));
                },
                None => {
                    self.connections.push(conn);
                    assert(self@.connections =~= kept(mids.take(done + 1)));
                    assert forall|a: int, b: int|
                        0 <= a < self.connections@.len() && 0 <= b < rest@.len() implies #[trigger] self.connections@[a]@.address
                            != #[trigger] rest@[b]@.address by {
                        assert(rest@[b] == rest0[b + 1]);
                        if a < kept0.len() {
                            assert(self.connections@[a] == kept0[a]);
                        }
                    }
                    assert forall|a: int, b: int|
                        0 <= a < b < self.connections@.len() implies #[trigger] self.connections@[a]@.address
                            != #[trigger] self.connections@[b]@.address by {
                        if b == kept0.len() {
                            assert(self.connections@[a] == kept0[a]);
                            assert(rest0[0] == self.connections@[b]);
                        }
                    }
                },
            }
            assert forall|j: int| 0 <= j < rest@.len() implies #[trigger] rest@[j]@ == mids[done + 1 + j] by {
                assert(rest@[j] == rest0[j + 1]);
            }
            done = done + 1;
        }
        proof {
            assert(mids.take(done as int) =~= mids);
            assert forall|i: int| 0 <= i < mids.len() implies #[trigger] mids[i].destroy_reason is Some
                ==> mids[i].active is None by {
                assert(mids_wf[i].wf());
                assert(mids[i] == mids_wf[i]@);
            }
            lemma_count_kept(mids);
            assert(connections_updated(
                old(self)@,
                self@,
                mids,
                outs,
                old(messenger).config.max_packets_in_flight,
                old(messenger).time,
                old(messenger).buffer_size,
                old(messenger).out(),
                messenger.out(),
            ));
        }
    }
}

} // verus!
