//! The connection with one remote address: the handshake that establishes
//! it (request, challenge, challenge response, accepted or denied), the
//! payload that flows through its reliability layer once it is established,
//! and its end (disconnect, timeout, too many packets in flight).
use crate::activity_system::{spec_is_active, ActivitySystem};
use crate::config::Config;
use crate::error::ErrorKind;
use crate::events::{
    ConnectionEvent, DestroyReason, DisconnectModel, DisconnectReason, EventModel, ReasonModel,
};
use crate::messenger::{Address, Messenger, OutModel};
use crate::packet::{DeliveryGuarantee, OrderingGuarantee, Packet, PacketInfo, PacketType};
use crate::packet_header::{spec_decode, spec_encode, HeaderModel, PacketHeader, PacketHeaderType, HEADER_SIZE};
use crate::reliability_system::{incoming_step, outgoing_step, ReliabilitySystem};
use crate::wire::random_u64;
use vstd::prelude::*;

verus! {

/// How many random server salts a connection request draws before it takes
/// the least free identity.
pub const MAX_SALT_DRAWS: u8 = 16;

/// Milliseconds between two sends of a handshake datagram (five a second).
pub const SEND_INTERVAL_DURING_HANDSHAKE: u64 = 200;

/// The salts of one handshake; their exclusive or identifies the
/// connection in every datagram.
#[derive(Debug, Clone, Copy, PartialEq, Eq, Structural)]
pub struct ConnectionState {
    pub client_salt: u64,
    pub server_salt: u64,
}

impl ConnectionState {
    pub open spec fn identity(self) -> u64 {
        self.client_salt ^ self.server_salt
    }

    /// The identity of the connection: the exclusive or of both salts.
    pub fn get_identity(&self) -> (r: u64)
        ensures
            r == self.identity(),
    {
        self.client_salt ^ self.server_salt
    }
}

/// A handshake datagram that is sent again and again until it is answered.
#[derive(Debug, Clone, Copy, PartialEq, Eq, Structural)]
pub enum HandshakePacket {
    ConnectionRequest,
    ChallengeResponse,
    Disconnect,
}

impl HandshakePacket {
    pub open spec fn model(self) -> HeaderModel {
        match self {
            HandshakePacket::ConnectionRequest => HeaderModel::ConnectionRequest,
            HandshakePacket::ChallengeResponse => HeaderModel::ChallengeResponse,
            HandshakePacket::Disconnect => HeaderModel::Disconnect,
        }
    }

    fn header_type(self) -> (r: PacketHeaderType<'static>)
        ensures
            r.model() == self.model(),
    {
        match self {
            HandshakePacket::ConnectionRequest => PacketHeaderType::ConnectionRequest,
            HandshakePacket::ChallengeResponse => PacketHeaderType::ChallengeResponse,
            HandshakePacket::Disconnect => PacketHeaderType::Disconnect,
        }
    }
}

/// A handshake datagram due to be sent at `send_at`, at most
/// `send_times_left - 1` more times.
#[derive(Debug, Clone, Copy, PartialEq, Eq, Structural)]
pub struct PacketToSend {
    pub send_packet: HandshakePacket,
    pub remote_identity: u64,
    pub send_at: u64,
    pub send_times_left: u8,
}

/// The content of a connection.
pub struct ConnectionModel {
    pub address: Address,
    /// The established handshake, where there is one.
    pub active: Option<ConnectionState>,
    /// Handshakes not established yet, oldest first.
    pub pending: Seq<ConnectionState>,
    /// The handshake datagram being repeated, where there is one.
    pub packet_to_send: Option<PacketToSend>,
    /// Why the connection is to be destroyed, once it is.
    pub destroy_reason: Option<ReasonModel>,
    pub reliability: ReliabilitySystem,
    pub last_heard: u64,
    pub last_sent: u64,
    pub idle_timeout: u64,
}

/// Whether some handshake, established or pending, has identity `id`.
pub open spec fn identity_in_use(
    active: Option<ConnectionState>,
    pending: Seq<ConnectionState>,
    id: u64,
) -> bool {
    ||| (active is Some && active.unwrap().identity() == id)
    ||| exists|i: int| 0 <= i < pending.len() && #[trigger] pending[i].identity() == id
}

/// No two handshakes of a connection share an identity, and no two pending
/// handshakes share a client salt.
pub open spec fn handshakes_distinct(active: Option<ConnectionState>, pending: Seq<ConnectionState>) -> bool {
    &&& forall|i: int|
        0 <= i < pending.len() && active is Some ==> #[trigger] pending[i].identity()
            != active.unwrap().identity()
    &&& forall|i: int, j: int|
        0 <= i < j < pending.len() ==> #[trigger] pending[i].identity() != #[trigger] pending[j].identity()
    &&& forall|i: int, j: int|
        0 <= i < j < pending.len() ==> #[trigger] pending[i].client_salt
            != #[trigger] pending[j].client_salt
}

/// A connection marked to be destroyed has no established handshake.
pub open spec fn destroy_without_handshake(m: ConnectionModel) -> bool {
    m.destroy_reason is Some ==> m.active is None
}

/// Whether `m` has an established handshake with identity `identity`.
pub open spec fn active_is(m: ConnectionModel, identity: u64) -> bool {
    m.active is Some && m.active.unwrap().identity() == identity
}

/// The datagram that carries a header with `identity` and `h`, written into
/// a buffer of `buffer_size` bytes.
pub open spec fn header_datagram(addr: Address, identity: u64, h: HeaderModel, buffer_size: usize) -> OutModel {
    OutModel::Datagram(addr, spec_encode(identity, h, buffer_size as nat))
}

/// The header that carries a datagram of the reliability layer.
pub open spec fn payload_header(bytes: Seq<u8>) -> HeaderModel {
    HeaderModel::Payload(
        PacketType::Packet,
        bytes,
        DeliveryGuarantee::Unreliable,
        OrderingGuarantee::Unordered,
    )
}

/// The datagrams that carry what the reliability layer framed, in order.
pub open spec fn payload_datagrams(
    addr: Address,
    identity: u64,
    r: Result<Vec<Vec<u8>>, ErrorKind>,
    buffer_size: usize,
) -> Seq<OutModel> {
    match r {
        Ok(v) => v@.map_values(
            |d: Vec<u8>| header_datagram(addr, identity, payload_header(d@), buffer_size),
        ),
        Err(_) => Seq::empty(),
    }
}

/// The events that report what the reliability layer delivered, in order.
pub open spec fn packet_events(addr: Address, r: Result<Vec<(Packet, PacketType)>, ErrorKind>) -> Seq<
    OutModel,
> {
    match r {
        Ok(v) => v@.map_values(
            |x: (Packet, PacketType)|
                OutModel::Event(addr, EventModel::Packet(x.0.payload@, x.0.delivery, x.0.ordering)),
        ),
        Err(_) => Seq::empty(),
    }
}

/// Every handshake, the established one first.
pub open spec fn all_states(active: Option<ConnectionState>, pending: Seq<ConnectionState>) -> Seq<
    ConnectionState,
> {
    match active {
        Some(a) => seq![a] + pending,
        None => pending,
    }
}

/// There are fewer handshakes than `k + 1` where every identity up to `k`
/// is in use: the identities up to `k` are distinct.
proof fn lemma_identities_exhaust(active: Option<ConnectionState>, pending: Seq<ConnectionState>, k: u64)
    requires
        forall|j: u64| j <= k ==> #[trigger] identity_in_use(active, pending, j),
    ensures
        k + 1 <= all_states(active, pending).len(),
{
    let states = all_states(active, pending);
    let ids = states.map_values(|c: ConnectionState| c.identity() as int);
    let range = vstd::set_lib::set_int_range(0, k + 1);
    assert forall|x: int| range.contains(x) implies ids.to_set().contains(x) by {
        let j = x as u64;
        assert(identity_in_use(active, pending, j));
        if active is Some && active.unwrap().identity() == j {
            assert(ids[0] == x);
        } else {
            let i = choose|i: int| 0 <= i < pending.len() && #[trigger] pending[i].identity() == j;
            let at: int = if active is Some {
                i + 1
            } else {
                i
            };
            assert(states[at] == pending[i]);
            assert(ids[at] == x);
        }
        assert(ids.contains(x));
    }
    vstd::set_lib::lemma_int_range(0, k + 1);
    vstd::seq_lib::seq_to_set_is_finite(ids);
    vstd::set_lib::lemma_len_subset(range, ids.to_set());
    ids.lemma_cardinality_of_set();
}

/// The pending handshakes once the one at `i` was taken out and the last
/// one moved into its place.
pub open spec fn swap_removed(p: Seq<ConnectionState>, i: int) -> Seq<ConnectionState> {
    p.update(i, p.last()).drop_last()
}

/// Establishing a pending handshake keeps the handshakes distinct, whatever
/// was established before.
proof fn lemma_establish_distinct(
    active: Option<ConnectionState>,
    pending: Seq<ConnectionState>,
    i: int,
)
    requires
        handshakes_distinct(active, pending),
        0 <= i < pending.len(),
    ensures
        handshakes_distinct(Some(pending[i]), swap_removed(pending, i)),
{
    let q = swap_removed(pending, i);
    let last = pending.len() - 1;
    assert forall|k: int| 0 <= k < q.len() implies q[k] == pending[if k == i {
        last
    } else {
        k
    }] && (if k == i {
        last
    } else {
        k
    }) != i by {}
    assert forall|k: int| 0 <= k < q.len() implies #[trigger] q[k].identity() != pending[i].identity() by {
        let src = if k == i {
            last
        } else {
            k
        };
        assert(q[k] == pending[src]);
        if src < i {
            assert(pending[src].identity() != pending[i].identity());
        } else {
            assert(pending[i].identity() != pending[src].identity());
        }
    }
    assert forall|a: int, b: int| 0 <= a < b < q.len() implies #[trigger] q[a].identity()
        != #[trigger] q[b].identity() && q[a].client_salt != q[b].client_salt by {
        let sa = if a == i {
            last
        } else {
            a
        };
        let sb = if b == i {
            last
        } else {
            b
        };
        assert(q[a] == pending[sa]);
        assert(q[b] == pending[sb]);
        assert(sa != sb);
        if sa < sb {
            assert(pending[sa].identity() != pending[sb].identity());
            assert(pending[sa].client_salt != pending[sb].client_salt);
        } else {
            assert(pending[sb].identity() != pending[sa].identity());
            assert(pending[sb].client_salt != pending[sa].client_salt);
        }
    }
}

/// The handshake datagram of `b` was due at `time`: it is sent again, and
/// due again an interval later, while sends are left; else it is given up.
pub open spec fn handshake_resent(
    b: ConnectionModel,
    a: ConnectionModel,
    out: Seq<OutModel>,
    time: u64,
    buffer_size: usize,
) -> bool {
    match b.packet_to_send {
        Some(p) => if time > p.send_at {
            if p.send_times_left > 1 {
                &&& a == ConnectionModel {
                    packet_to_send: Some(
                        PacketToSend {
                            send_at: (time + SEND_INTERVAL_DURING_HANDSHAKE) as u64,
                            send_times_left: (p.send_times_left - 1) as u8,
                            ..p
                        },
                    ),
                    last_sent: time,
                    ..b
                }
                &&& out == seq![header_datagram(b.address, p.remote_identity, p.send_packet.model(), buffer_size)]
            } else {
                a == ConnectionModel { packet_to_send: None, ..b } && out == Seq::<OutModel>::empty()
            }
        } else {
            a == b && out == Seq::<OutModel>::empty()
        },
        None => a == b && out == Seq::<OutModel>::empty(),
    }
}

/// `b` was marked to be destroyed for `reason`: its handshake is
/// forgotten, its reliability layer reset, and a disconnect is reported
/// where a handshake was established.
pub open spec fn dropped_for(b: ConnectionModel, a: ConnectionModel, out: Seq<OutModel>, reason: ReasonModel) -> bool {
    &&& a.reliability.is_fresh(b.reliability.config())
    &&& a == ConnectionModel {
        active: None,
        packet_to_send: None,
        destroy_reason: Some(reason),
        reliability: a.reliability,
        ..b
    }
    &&& out == if b.active is Some {
        seq![OutModel::Event(b.address, EventModel::Disconnected(DisconnectModel::Destroying(reason)))]
    } else {
        Seq::<OutModel>::empty()
    }
}

/// A connection not yet marked to be destroyed that was silent for the idle
/// timeout is marked for a timeout.
pub open spec fn timeout_checked(b: ConnectionModel, a: ConnectionModel, out: Seq<OutModel>, time: u64) -> bool {
    if b.destroy_reason is None && !spec_is_active(b.last_heard, b.last_sent, b.idle_timeout, time) {
        dropped_for(b, a, out, ReasonModel::Timeout)
    } else {
        a == b && out == Seq::<OutModel>::empty()
    }
}

/// A connection with more reliable packets in flight than allowed is marked
/// to be destroyed.
pub open spec fn flight_checked(b: ConnectionModel, a: ConnectionModel, out: Seq<OutModel>, max: u16) -> bool {
    if b.reliability.acks().sent().dom().len() as u16 > max {
        dropped_for(b, a, out, ReasonModel::TooManyPacketsInFlight)
    } else {
        a == b && out == Seq::<OutModel>::empty()
    }
}

/// The datagrams sent for the results `rs` of framing lost packets again,
/// in order.
pub open spec fn resend_out(
    addr: Address,
    identity: u64,
    rs: Seq<Result<Vec<Vec<u8>>, ErrorKind>>,
    buffer_size: usize,
) -> Seq<OutModel>
    decreases rs.len(),
{
    if rs.len() == 0 {
        Seq::empty()
    } else {
        resend_out(addr, identity, rs.drop_last(), buffer_size) + payload_datagrams(
            addr,
            identity,
            rs.last(),
            buffer_size,
        )
    }
}

/// The lost packets `dropped` went through the reliability layer again, in
/// order, reliable and with their ordering and arranging index: it went
/// through the states `steps` from `before` to `after`, and packet `i` gave
/// `rs[i]`.
pub open spec fn resent_all(
    before: ReliabilitySystem,
    after: ReliabilitySystem,
    dropped: Seq<crate::acknowledgment::SentPacket>,
    steps: Seq<ReliabilitySystem>,
    rs: Seq<Result<Vec<Vec<u8>>, ErrorKind>>,
) -> bool {
    &&& steps.len() == dropped.len() + 1
    &&& rs.len() == dropped.len()
    &&& steps[0] == before
    &&& steps.last() == after
    &&& forall|i: int|
        0 <= i < dropped.len() ==> outgoing_step(
            steps[i],
            steps[i + 1],
            dropped[i].packet_type,
            DeliveryGuarantee::Reliable,
            dropped[i].ordering_guarantee,
            dropped[i].payload@,
            dropped[i].item_identifier,
            #[trigger] rs[i],
        )
}

/// Where a handshake is established, the lost reliable packets are
/// gathered and sent again.
pub open spec fn retransmitted(
    b: ConnectionModel,
    a: ConnectionModel,
    out: Seq<OutModel>,
    time: u64,
    buffer_size: usize,
) -> bool {
    match b.active {
        None => a == b && out == Seq::<OutModel>::empty(),
        Some(s) => exists|
            dropped: Seq<crate::acknowledgment::SentPacket>,
            g: ReliabilitySystem,
            steps: Seq<ReliabilitySystem>,
            rs: Seq<Result<Vec<Vec<u8>>, ErrorKind>>,
        |
            #![trigger crate::reliability_system::gather_step(b.reliability, g, dropped), resent_all(g, a.reliability, dropped, steps, rs)]
            {
                &&& crate::reliability_system::gather_step(b.reliability, g, dropped)
                &&& resent_all(g, a.reliability, dropped, steps, rs)
                &&& out == resend_out(b.address, s.identity(), rs, buffer_size)
                &&& a == ConnectionModel {
                    reliability: a.reliability,
                    last_sent: if exists|i: int| 0 <= i < rs.len() && #[trigger] rs[i] is Ok {
                        time
                    } else {
                        b.last_sent
                    },
                    ..b
                }
            },
    }
}

/// `o` became `f` and the outbox `ob` became `oa` on a disconnect datagram
/// with `identity` at time `t`.
pub open spec fn process_disconnect_step(
    o: ConnectionModel,
    f: ConnectionModel,
    identity: u64,
    t: u64,
    buf: usize,
    ob: Seq<OutModel>,
    oa: Seq<OutModel>,
) -> bool {
    &&& active_is(o, identity) ==> {
        &&& f == (ConnectionModel {
            active: None,
            pending: Seq::empty(),
            destroy_reason: Some(ReasonModel::GracefullyDisconnected),
            packet_to_send: None,
            ..o
        })
        &&& oa == ob.push(
            OutModel::Event(
                o.address,
                EventModel::Disconnected(DisconnectModel::ClosedByRemoteHost),
            ),
        )
    }
    &&& !active_is(o, identity) ==> f == o && oa == ob
}

/// `o` became `f` and the outbox `ob` became `oa` when the user
/// disconnected at time `t`.
pub open spec fn user_disconnect_step(
    o: ConnectionModel,
    f: ConnectionModel,
    t: u64,
    buf: usize,
    ob: Seq<OutModel>,
    oa: Seq<OutModel>,
) -> bool {
    &&& o.active is Some ==> {
        &&& f == (ConnectionModel {
            active: None,
            pending: Seq::empty(),
            destroy_reason: Some(ReasonModel::GracefullyDisconnected),
            packet_to_send: Some(
                PacketToSend {
                    send_packet: HandshakePacket::Disconnect,
                    remote_identity: o.active.unwrap().identity(),
                    send_at: t,
                    send_times_left: 10,
                },
            ),
            ..o
        })
        &&& oa == ob.push(
            OutModel::Event(
                o.address,
                EventModel::Disconnected(DisconnectModel::ClosedByLocalHost),
            ),
        )
    }
    &&& o.active is None ==> f == o && oa == ob
}

/// `o` became `f` and the outbox `ob` became `oa` on a challenge at time
/// `t`.
pub open spec fn process_challenge_step(
    o: ConnectionModel,
    f: ConnectionModel,
    client_salt: u64,
    server_salt: u64,
    t: u64,
    buf: usize,
    ob: Seq<OutModel>,
    oa: Seq<OutModel>,
) -> bool {
    &&& if o.active is None && o.pending.len() == 1 && o.pending[0].client_salt == client_salt {
        f == ConnectionModel {
            pending: seq![ConnectionState { client_salt, server_salt }],
            last_heard: t,
            packet_to_send: Some(
                PacketToSend {
                    send_packet: HandshakePacket::ChallengeResponse,
                    remote_identity: client_salt ^ server_salt,
                    send_at: t,
                    send_times_left: 10,
                },
            ),
            ..o
        }
    } else {
        f == o
    }
    &&& oa == ob
}

/// `o` became `f` and the outbox `ob` became `oa` on an accepted datagram
/// with `identity` at time `t`.
pub open spec fn process_connection_accepted_step(
    o: ConnectionModel,
    f: ConnectionModel,
    identity: u64,
    t: u64,
    buf: usize,
    ob: Seq<OutModel>,
    oa: Seq<OutModel>,
) -> bool {
    if o.active is None && o.pending.len() == 1 && o.pending[0].identity() == identity {
        &&& f == ConnectionModel {
            active: Some(o.pending[0]),
            pending: Seq::empty(),
            packet_to_send: None,
            destroy_reason: None,
            last_heard: t,
            ..o
        }
        &&& oa == ob.push(
            OutModel::Event(o.address, EventModel::Connected),
        )
    } else {
        f == o && oa == ob
    }
}

/// `o` became `f` and the outbox `ob` became `oa` on a denied datagram.
pub open spec fn process_connection_denied_step(
    o: ConnectionModel,
    f: ConnectionModel,
    client_salt: u64,
    t: u64,
    buf: usize,
    ob: Seq<OutModel>,
    oa: Seq<OutModel>,
) -> bool {
    &&& if o.active is None && o.pending.len() == 1 && o.pending[0].client_salt == client_salt {
        f == ConnectionModel {
            pending: Seq::empty(),
            packet_to_send: None,
            destroy_reason: Some(ReasonModel::Declined),
            ..o
        }
    } else {
        f == o
    }
    &&& oa == ob
}

/// `o` became `f` and the outbox `ob` became `oa` when the user asked to
/// connect at time `t`.
pub open spec fn user_connect_step(
    o: ConnectionModel,
    f: ConnectionModel,
    t: u64,
    buf: usize,
    ob: Seq<OutModel>,
    oa: Seq<OutModel>,
) -> bool {
    &&& o.active is Some ==> f == o
    &&& o.active is None ==> {
        &&& f.reliability.is_fresh(o.reliability.config())
        &&& f.pending.len() == 1
        &&& f.pending[0].server_salt == 0
        &&& f == (ConnectionModel {
            pending: f.pending,
            packet_to_send: Some(
                PacketToSend {
                    send_packet: HandshakePacket::ConnectionRequest,
                    remote_identity: f.pending[0].client_salt,
                    send_at: t,
                    send_times_left: 100,
                },
            ),
            reliability: f.reliability,
            ..o
        })
    }
    &&& oa == ob
}

/// `o` became `f` and the outbox `ob` became `oa` on a connection request
/// at time `t`, with datagrams written into buffers of `buf` bytes.
pub open spec fn process_connection_request_step(
    o: ConnectionModel,
    f: ConnectionModel,
    client_salt: u64,
    max_pending_connections: usize,
    t: u64,
    buf: usize,
    ob: Seq<OutModel>,
    oa: Seq<OutModel>,
) -> bool {
    if exists|i: int| 0 <= i < o.pending.len() && #[trigger] o.pending[i].client_salt == client_salt {
        &&& f == o
        &&& exists|i: int|
            0 <= i < o.pending.len() && #[trigger] o.pending[i].client_salt == client_salt
                && oa == ob.push(
                header_datagram(
                    o.address,
                    client_salt,
                    HeaderModel::Challenge(o.pending[i].server_salt),
                    buf,
                ),
            )
    } else if o.pending.len() < max_pending_connections {
        let added = f.pending.last();
        &&& added.client_salt == client_salt
        &&& !identity_in_use(o.active, o.pending, added.identity())
        &&& f == ConnectionModel {
            pending: o.pending.push(added),
            last_heard: t,
            ..o
        }
        &&& oa == ob.push(
            header_datagram(o.address, client_salt, HeaderModel::Challenge(added.server_salt), buf),
        )
    } else {
        &&& f == o
        &&& oa == ob.push(
            header_datagram(o.address, client_salt, HeaderModel::ConnectionDenied, buf),
        )
    }
}

/// `o` became `f`, the outbox `ob` became `oa` and `r` was returned on a
/// challenge response at time `t`.
pub open spec fn process_challenge_response_step(
    o: ConnectionModel,
    f: ConnectionModel,
    identity: u64,
    can_accept_new: bool,
    r: bool,
    t: u64,
    buf: usize,
    ob: Seq<OutModel>,
    oa: Seq<OutModel>,
) -> bool {
    let accepted = header_datagram(o.address, identity, HeaderModel::ConnectionAccepted, buf);
    let denied = header_datagram(o.address, identity, HeaderModel::ConnectionDenied, buf);
    if active_is(o, identity) {
        &&& !r
        &&& f == ConnectionModel { last_heard: t, ..o }
        &&& oa == ob.push(accepted)
    } else if exists|i: int| 0 <= i < o.pending.len() && #[trigger] o.pending[i].identity() == identity {
        if o.active is Some || can_accept_new {
            &&& r == (o.active is None)
            &&& f.reliability.is_fresh(o.reliability.config())
            &&& exists|i: int|
                0 <= i < o.pending.len() && #[trigger] o.pending[i].identity() == identity
                    && f == (ConnectionModel {
                    active: Some(o.pending[i]),
                    pending: swap_removed(o.pending, i),
                    last_heard: t,
                    destroy_reason: None,
                    reliability: f.reliability,
                    ..o
                })
            &&& oa == ob.push(
                OutModel::Event(
                    o.address,
                    if o.active is Some {
                        EventModel::Reconnected
                    } else {
                        EventModel::Connected
                    },
                ),
            ).push(accepted)
        } else {
            &&& !r
            &&& f == o
            &&& oa == ob.push(denied)
        }
    } else {
        &&& !r
        &&& f == o
        &&& oa == ob.push(denied)
    }
}

/// `o` became `f` and the outbox `ob` became `oa` on a payload datagram at
/// time `t`.
pub open spec fn process_payload_step(
    o: ConnectionModel,
    f: ConnectionModel,
    identity: u64,
    payload: Seq<u8>,
    t: u64,
    buf: usize,
    ob: Seq<OutModel>,
    oa: Seq<OutModel>,
) -> bool {
    &&& active_is(o, identity) ==> exists|r: Result<Vec<(Packet, PacketType)>, ErrorKind>|
        {
            &&& #[trigger] incoming_step(o.reliability, f.reliability, payload, r)
            &&& f == (ConnectionModel {
                reliability: f.reliability,
                last_heard: t,
                ..o
            })
            &&& oa == ob + packet_events(o.address, r)
        }
    &&& !active_is(o, identity) ==> f == o && oa == ob
}

/// `o` became `f` and the outbox `ob` became `oa` on a packet of the user
/// at time `t`.
pub open spec fn user_packet_step(
    o: ConnectionModel,
    f: ConnectionModel,
    payload: Seq<u8>,
    d: DeliveryGuarantee,
    ord: OrderingGuarantee,
    t: u64,
    buf: usize,
    ob: Seq<OutModel>,
    oa: Seq<OutModel>,
) -> bool {
    &&& o.active is Some ==> exists|r: Result<Vec<Vec<u8>>, ErrorKind>|
        {
            &&& #[trigger] outgoing_step(
                o.reliability,
                f.reliability,
                PacketType::Packet,
                d,
                ord,
                payload,
                None,
                r,
            )
            &&& f == (ConnectionModel {
                reliability: f.reliability,
                last_sent: if r is Ok {
                    t
                } else {
                    o.last_sent
                },
                ..o
            })
            &&& oa == ob + payload_datagrams(
                o.address,
                o.active.unwrap().identity(),
                r,
                buf,
            )
        }
    &&& o.active is None ==> f == o && oa == ob
}

/// `o` became `f` and the outbox `ob` became `oa` in a step of time at
/// `t`: the handshake datagram, the timeout, the packets in flight and the
/// lost packets, in this order.
pub open spec fn update_step(
    o: ConnectionModel,
    f: ConnectionModel,
    max_in_flight: u16,
    t: u64,
    buf: usize,
    ob: Seq<OutModel>,
    oa: Seq<OutModel>,
) -> bool {
    exists|
        c1: ConnectionModel,
        c2: ConnectionModel,
        c3: ConnectionModel,
        o1: Seq<OutModel>,
        o2: Seq<OutModel>,
        o3: Seq<OutModel>,
        o4: Seq<OutModel>,
    |
        #![trigger handshake_resent(o, c1, o1, t, buf), timeout_checked(c1, c2, o2, t), flight_checked(c2, c3, o3, max_in_flight), retransmitted(c3, f, o4, t, buf)]
        {
            &&& handshake_resent(o, c1, o1, t, buf)
            &&& timeout_checked(c1, c2, o2, t)
            &&& flight_checked(c2, c3, o3, max_in_flight)
            &&& retransmitted(c3, f, o4, t, buf)
            &&& oa == ob + o1 + o2 + o3 + o4
        }
}

/// The least identity that no handshake has.
pub open spec fn least_free_identity(active: Option<ConnectionState>, pending: Seq<ConnectionState>) -> u64 {
    choose|k: u64|
        !identity_in_use(active, pending, k) && forall|j: u64| j < k ==> #[trigger] identity_in_use(
            active,
            pending,
            j,
        )
}

/// The server salt of a new handshake of client salt `client_salt`, from the
/// candidate `candidate`: the candidate, unless its identity is in use; then
/// the salt that gives the least identity not in use.
pub open spec fn chosen_salt(
    active: Option<ConnectionState>,
    pending: Seq<ConnectionState>,
    client_salt: u64,
    candidate: u64,
) -> u64 {
    if identity_in_use(active, pending, client_salt ^ candidate) {
        client_salt ^ least_free_identity(active, pending)
    } else {
        candidate
    }
}

/// The least identity not in use is the only one with nothing free below it.
proof fn lemma_least_free_unique(active: Option<ConnectionState>, pending: Seq<ConnectionState>, k: u64)
    requires
        !identity_in_use(active, pending, k),
        forall|j: u64| j < k ==> #[trigger] identity_in_use(active, pending, j),
    ensures
        least_free_identity(active, pending) == k,
{
    let l = least_free_identity(active, pending);
    assert(!identity_in_use(active, pending, l) && forall|j: u64| j < l ==> #[trigger] identity_in_use(
        active,
        pending,
        j,
    ));
    if l < k {
        assert(identity_in_use(active, pending, l));
    } else if k < l {
        assert(identity_in_use(active, pending, k));
    }
}

/// The connection with one remote address.
pub struct AddressConnection {
    address: Address,
    active: Option<ConnectionState>,
    pending: Vec<ConnectionState>,
    packet_to_send: Option<PacketToSend>,
    destroy_reason: Option<DestroyReason>,
    reliability: ReliabilitySystem,
    activity: ActivitySystem,
}

impl View for AddressConnection {
    type V = ConnectionModel;

    closed spec fn view(&self) -> ConnectionModel {
        ConnectionModel {
            address: self.address,
            active: self.active,
            pending: self.pending@,
            packet_to_send: self.packet_to_send,
            destroy_reason: match self.destroy_reason {
                Some(r) => Some(r.model()),
                None => None,
            },
            reliability: self.reliability,
            last_heard: self.activity.last_heard(),
            last_sent: self.activity.last_sent(),
            idle_timeout: self.activity.idle_timeout(),
        }
    }
}

impl AddressConnection {
    /// The reliability layer is well formed, the handshakes are distinct, and
    /// a connection marked to be destroyed has no established handshake.
    pub open spec fn wf(&self) -> bool {
        &&& self@.reliability.wf()
        &&& handshakes_distinct(self@.active, self@.pending)
        &&& destroy_without_handshake(self@)
    }

    /// A connection with `address` that has no handshake yet and was active
    /// in both directions at `time`.
    pub fn new(address: Address, config: &Config, time: u64) -> (r: Self)
        requires
            config.wf(),
        ensures
            r.wf(),
            r@.address == address,
            r@.active is None,
            r@.pending == Seq::<ConnectionState>::empty(),
            r@.packet_to_send is None,
            r@.destroy_reason is None,
            r@.reliability.is_fresh(*config),
            r@.last_heard == time,
            r@.last_sent == time,
            r@.idle_timeout == config.idle_connection_timeout,
    {
        Self {
            address,
            active: None,
            pending: Vec::new(),
            packet_to_send: None,
            destroy_reason: None,
            reliability: ReliabilitySystem::new(config),
            activity: ActivitySystem::new(config.idle_connection_timeout, time),
        }
    }

    /// The remote address.
    pub(crate) fn address(&self) -> (r: Address)
        ensures
            r == self@.address,
    {
        self.address
    }

    /// Whether a handshake is established.
    pub fn is_connected(&self) -> (r: bool)
        ensures
            r == self@.active is Some,
    {
        self.active.is_some()
    }

    /// The reason to destroy the connection, once there is one and no
    /// handshake datagram is left to send.
    pub fn should_drop(&self) -> (r: Option<DestroyReason>)
        ensures
            match r {
                Some(reason) => self@.destroy_reason == Some(reason.model())
                    && self@.packet_to_send is None,
                None => self@.destroy_reason is None || self@.packet_to_send is Some,
            },
    {
        if let Some(reason) = &self.destroy_reason {
            if self.packet_to_send.is_none() {
                return Some(reason.duplicate());
            }
        }
        None
    }

    /// Writes a header into a buffer of the messenger's size and asks for
    /// it to be sent.
    fn send_packet(&self, identity: u64, packet: PacketHeaderType, messenger: &mut Messenger)
        requires
            old(messenger).buffer_size >= HEADER_SIZE,
            packet.model() is Challenge ==> old(messenger).buffer_size >= HEADER_SIZE + 8,
            crate::packet_header::writable(packet.model()),
        ensures
            final(messenger).same_context(*old(messenger)),
            final(messenger).out() == old(messenger).out().push(
                header_datagram(self@.address, identity, packet.model(), old(messenger).buffer_size),
            ),
    {
        let ghost h = packet.model();
        let size = messenger.buffer_size;
        let mut buffer: Vec<u8> = Vec::new();
        let mut i: usize = 0;
        while i < size
            invariant
                i <= size,
                buffer@.len() == i,
            decreases size - i,
        {
            buffer.push(0u8);
            i = i + 1;
        }
        let header = PacketHeader { identity, packet };
        let written = match header.into_bytes(buffer.as_mut_slice()) {
            Ok(n) => n,
            Err(_) => {
                assert(false);
                0
            },
        };
        let ghost bytes = spec_encode(identity, h, size as nat);
        buffer.truncate(written);
        assert(buffer@ =~= bytes);
        messenger.send_datagram(self.address, buffer);
    }

    /// Ends the connection: forgets every handshake, marks it to be
    /// destroyed and reports why; a local close repeats a disconnect
    /// datagram before the connection goes.
    fn disconnect(&mut self, identity: u64, messenger: &mut Messenger, reason: DisconnectReason)
        requires
            old(self).wf(),
        ensures
            final(self).wf(),
            final(messenger).same_context(*old(messenger)),
            final(self)@ == (ConnectionModel {
                active: None,
                pending: Seq::empty(),
                destroy_reason: Some(ReasonModel::GracefullyDisconnected),
                packet_to_send: if reason.model() is ClosedByLocalHost {
                    Some(
                        PacketToSend {
                            send_packet: HandshakePacket::Disconnect,
                            remote_identity: identity,
                            send_at: old(messenger).time,
                            send_times_left: 10,
                        },
                    )
                } else {
                    None
                },
                ..old(self)@
            }),
            final(messenger).out() == old(messenger).out().push(
                OutModel::Event(old(self)@.address, EventModel::Disconnected(reason.model())),
            ),
    {
        self.pending.clear();
        self.destroy_reason = Some(DestroyReason::GracefullyDisconnected);
        self.active = None;
        if let DisconnectReason::ClosedByLocalHost = reason {
            self.packet_to_send = Some(
                PacketToSend {
                    send_packet: HandshakePacket::Disconnect,
                    remote_identity: identity,
                    send_at: messenger.time,
                    send_times_left: 10,
                },
            );
        } else {
            self.packet_to_send = None;
        }
        messenger.send_event(self.address, ConnectionEvent::Disconnected(reason));
    }

    /// Marks the connection to be destroyed for `reason`, reporting a
    /// disconnect where a handshake was established, and resets its
    /// reliability layer.
    fn prepare_drop(&mut self, messenger: &mut Messenger, reason: DestroyReason)
        requires
            old(self).wf(),
        ensures
            final(self).wf(),
            final(messenger).same_context(*old(messenger)),
            final(self)@.reliability.is_fresh(old(self)@.reliability.config()),
            final(self)@ == (ConnectionModel {
                active: None,
                packet_to_send: None,
                destroy_reason: Some(reason.model()),
                reliability: final(self)@.reliability,
                ..old(self)@
            }),
            final(messenger).out() == if old(self)@.active is Some {
                old(messenger).out().push(
                    OutModel::Event(
                        old(self)@.address,
                        EventModel::Disconnected(DisconnectModel::Destroying(reason.model())),
                    ),
                )
            } else {
                old(messenger).out()
            },
    {
        if self.active.is_some() {
            messenger.send_event(
                self.address,
                ConnectionEvent::Disconnected(DisconnectReason::Destroying(reason.duplicate())),
            );
        }
        self.reliability.reset();
        self.active = None;
        self.packet_to_send = None;
        self.destroy_reason = Some(reason);
    }

    /// A disconnect datagram: ends an established handshake with that
    /// identity; anything else is ignored.
    pub fn process_disconnect(&mut self, identity: u64, messenger: &mut Messenger)
        requires
            old(self).wf(),
        ensures
            final(self).wf(),
            final(messenger).same_context(*old(messenger)),
            process_disconnect_step(
                old(self)@,
                final(self)@,
                identity,
                old(messenger).time,
                old(messenger).buffer_size,
                old(messenger).out(),
                final(messenger).out(),
            ),
    {
        if let Some(state) = &self.active {
            if state.get_identity() == identity {
                self.disconnect(identity, messenger, DisconnectReason::ClosedByRemoteHost);
            }
        }
    }

    /// The user closes an established handshake.
    pub fn user_disconnect(&mut self, messenger: &mut Messenger)
        requires
            old(self).wf(),
        ensures
            final(self).wf(),
            final(messenger).same_context(*old(messenger)),
            user_disconnect_step(
                old(self)@,
                final(self)@,
                old(messenger).time,
                old(messenger).buffer_size,
                old(messenger).out(),
                final(messenger).out(),
            ),
    {
        if let Some(state) = &self.active {
            let identity = state.get_identity();
            self.disconnect(identity, messenger, DisconnectReason::ClosedByLocalHost);
        }
    }
    /// A challenge to the one pending handshake with that client salt, while
    /// none is established: takes the server salt and starts repeating the
    /// challenge response.
    pub fn process_challenge(&mut self, client_salt: u64, server_salt: u64, messenger: &mut Messenger)
        requires
            old(self).wf(),
        ensures
            final(self).wf(),
            *final(messenger) == *old(messenger),
            process_challenge_step(
                old(self)@,
                final(self)@,
                client_salt,
                server_salt,
                old(messenger).time,
                old(messenger).buffer_size,
                old(messenger).out(),
                final(messenger).out(),
            ),
    {
        if self.active.is_none() && self.pending.len() == 1 {
            if self.pending[0].client_salt == client_salt {
                self.activity.received(messenger.time);
                self.pending.set(0, ConnectionState { client_salt, server_salt });
                self.packet_to_send = Some(
                    PacketToSend {
                        send_packet: HandshakePacket::ChallengeResponse,
                        remote_identity: client_salt ^ server_salt,
                        send_at: messenger.time,
                        send_times_left: 10,
                    },
                );
                assert(self@.pending =~= seq![ConnectionState { client_salt, server_salt }]);
            }
        }
    }

    /// The remote host accepted the one pending handshake, with that
    /// identity, while none is established: it becomes the established one.
    pub fn process_connection_accepted(&mut self, identity: u64, messenger: &mut Messenger)
        requires
            old(self).wf(),
        ensures
            final(self).wf(),
            final(messenger).same_context(*old(messenger)),
            process_connection_accepted_step(
                old(self)@,
                final(self)@,
                identity,
                old(messenger).time,
                old(messenger).buffer_size,
                old(messenger).out(),
                final(messenger).out(),
            ),
    {
        if self.active.is_none() && self.pending.len() == 1 && self.pending[0].get_identity()
            == identity {
            self.activity.received(messenger.time);
            let state = self.pending.swap_remove(0);
            self.active = Some(state);
            self.packet_to_send = None;
            self.destroy_reason = None;
            assert(self@.pending =~= Seq::<ConnectionState>::empty());
            messenger.send_event(self.address, ConnectionEvent::Connected);
        }
    }

    /// The remote host denied the one pending handshake with that client
    /// salt, while none is established: the connection is to be destroyed.
    pub fn process_connection_denied(&mut self, client_salt: u64, messenger: &mut Messenger)
        requires
            old(self).wf(),
        ensures
            final(self).wf(),
            *final(messenger) == *old(messenger),
            process_connection_denied_step(
                old(self)@,
                final(self)@,
                client_salt,
                old(messenger).time,
                old(messenger).buffer_size,
                old(messenger).out(),
                final(messenger).out(),
            ),
    {
        if self.active.is_none() && self.pending.len() == 1 && self.pending[0].client_salt
            == client_salt {
            self.pending.clear();
            self.packet_to_send = None;
            self.destroy_reason = Some(DestroyReason::Declined);
        }
    }

    /// The user asks to connect: unless a handshake is established, every
    /// pending one is dropped and a new one starts with a random client
    /// salt, whose connection request is repeated.
    pub fn user_connect(&mut self, messenger: &mut Messenger)
        requires
            old(self).wf(),
        ensures
            final(self).wf(),
            *final(messenger) == *old(messenger),
            user_connect_step(
                old(self)@,
                final(self)@,
                old(messenger).time,
                old(messenger).buffer_size,
                old(messenger).out(),
                final(messenger).out(),
            ),
    {
        let salt = random_u64();
        self.user_connect_with_salt(messenger, salt);
    }

    /// The user asks to connect, with `salt` as the client salt of the new
    /// handshake: unless a handshake is established, every pending one is
    /// dropped and the new one starts, whose connection request is repeated.
    pub fn user_connect_with_salt(&mut self, messenger: &mut Messenger, salt: u64)
        requires
            old(self).wf(),
        ensures
            final(self).wf(),
            *final(messenger) == *old(messenger),
            user_connect_step(
                old(self)@,
                final(self)@,
                old(messenger).time,
                old(messenger).buffer_size,
                old(messenger).out(),
                final(messenger).out(),
            ),
            old(self)@.active is None ==> final(self)@.pending == seq![
                ConnectionState { client_salt: salt, server_salt: 0 },
            ],
    {
        if self.active.is_none() {
            self.pending.clear();
            self.reliability.reset();
            self.pending.push(ConnectionState { client_salt: salt, server_salt: 0 });
            self.packet_to_send = Some(
                PacketToSend {
                    send_packet: HandshakePacket::ConnectionRequest,
                    remote_identity: salt,
                    send_at: messenger.time,
                    send_times_left: 100,
                },
            );
            assert(self@.pending =~= seq![ConnectionState { client_salt: salt, server_salt: 0 }]);
        }
    }

    /// The position of the pending handshake with this client salt.
    fn find_client_salt(&self, client_salt: u64) -> (r: Option<usize>)
        ensures
            match r {
                Some(i) => i < self@.pending.len() && self@.pending[i as int].client_salt == client_salt,
                None => forall|i: int|
                    0 <= i < self@.pending.len() ==> #[trigger] self@.pending[i].client_salt
                        != client_salt,
            },
    {
        let mut i: usize = 0;
        while i < self.pending.len()
            invariant
                i <= self@.pending.len(),
                forall|j: int| 0 <= j < i ==> #[trigger] self@.pending[j].client_salt != client_salt,
            decreases self@.pending.len() - i,
        {
            if self.pending[i].client_salt == client_salt {
                return Some(i);
            }
            i = i + 1;
        }
        None
    }

    /// The position of the pending handshake with this identity.
    fn find_identity(&self, identity: u64) -> (r: Option<usize>)
        ensures
            match r {
                Some(i) => i < self@.pending.len() && self@.pending[i as int].identity() == identity,
                None => forall|i: int|
                    0 <= i < self@.pending.len() ==> #[trigger] self@.pending[i].identity()
                        != identity,
            },
    {
        let mut i: usize = 0;
        while i < self.pending.len()
            invariant
                i <= self@.pending.len(),
                forall|j: int| 0 <= j < i ==> #[trigger] self@.pending[j].identity() != identity,
            decreases self@.pending.len() - i,
        {
            if self.pending[i].get_identity() == identity {
                return Some(i);
            }
            i = i + 1;
        }
        None
    }

    /// Whether some handshake has this identity.
    fn identity_taken(&self, identity: u64) -> (r: bool)
        ensures
            r == identity_in_use(self@.active, self@.pending, identity),
    {
        if let Some(a) = &self.active {
            if a.get_identity() == identity {
                return true;
            }
        }
        match self.find_identity(identity) {
            Some(i) => {
                assert(self@.pending[i as int].identity() == identity);
                true
            },
            None => false,
        }
    }

    /// The least identity that no handshake has.
    fn free_identity(&self) -> (r: u64)
        requires
            self@.pending.len() < usize::MAX,
        ensures
            !identity_in_use(self@.active, self@.pending, r),
            forall|j: u64| j < r ==> #[trigger] identity_in_use(self@.active, self@.pending, j),
    {
        let ghost bound = all_states(self@.active, self@.pending).len();
        let mut k: u64 = 0;
        while self.identity_taken(k)
            invariant
                self@.pending.len() < usize::MAX,
                bound == all_states(self@.active, self@.pending).len(),
                k <= bound,
                forall|j: u64| j < k ==> #[trigger] identity_in_use(self@.active, self@.pending, j),
            decreases bound - k,
        {
            proof {
                lemma_identities_exhaust(self@.active, self@.pending, k);
            }
            k = k + 1;
        }
        k
    }

    /// A connection request with a client salt: a pending handshake with that
    /// client salt is challenged again with its server salt; else, where
    /// fewer than `max_pending_connections` handshakes are pending, a new one
    /// starts with a random server salt that gives it an identity no other
    /// handshake has, and is challenged; else the request is denied. A salt
    /// whose identity is in use is drawn again, up to `MAX_SALT_DRAWS` draws
    /// in all; should all of them collide, the salt that gives the least
    /// identity not in use is taken, which is predictable.
    pub fn process_connection_request(
        &mut self,
        client_salt: u64,
        messenger: &mut Messenger,
        max_pending_connections: usize,
    )
        requires
            old(self).wf(),
            old(messenger).buffer_size >= HEADER_SIZE + 8,
        ensures
            final(self).wf(),
            final(messenger).same_context(*old(messenger)),
            process_connection_request_step(
                old(self)@,
                final(self)@,
                client_salt,
                max_pending_connections,
                old(messenger).time,
                old(messenger).buffer_size,
                old(messenger).out(),
                final(messenger).out(),
            ),
    {
        let mut candidate = random_u64();
        let mut draws: u8 = 1;
        while draws < MAX_SALT_DRAWS && self.identity_taken(client_salt ^ candidate)
            invariant
                self == old(self),
                draws <= MAX_SALT_DRAWS,
            decreases MAX_SALT_DRAWS - draws,
        {
            candidate = random_u64();
            draws = draws + 1;
        }
        self.process_connection_request_with_salt(
            client_salt,
            messenger,
            max_pending_connections,
            candidate,
        );
    }

    /// A connection request as `process_connection_request` handles it, with
    /// `candidate` as the server salt of a new handshake; where its identity
    /// is in use, the server salt gives the least identity not in use.
    pub fn process_connection_request_with_salt(
        &mut self,
        client_salt: u64,
        messenger: &mut Messenger,
        max_pending_connections: usize,
        candidate: u64,
    )
        requires
            old(self).wf(),
            old(messenger).buffer_size >= HEADER_SIZE + 8,
        ensures
            final(self).wf(),
            final(messenger).same_context(*old(messenger)),
            process_connection_request_step(
                old(self)@,
                final(self)@,
                client_salt,
                max_pending_connections,
                old(messenger).time,
                old(messenger).buffer_size,
                old(messenger).out(),
                final(messenger).out(),
            ),
            final(self)@.pending.len() > old(self)@.pending.len() ==> final(self)@.pending.last().server_salt
                == chosen_salt(old(self)@.active, old(self)@.pending, client_salt, candidate),
    {
        let mut server_salt: Option<u64> = None;
        if let Some(i) = self.find_client_salt(client_salt) {
            server_salt = Some(self.pending[i].server_salt);
        } else if self.pending.len() < max_pending_connections {
            let mut salt = candidate;
            if self.identity_taken(client_salt ^ salt) {
                let free = self.free_identity();
                proof {
                    lemma_least_free_unique(self@.active, self@.pending, free);
                }
                salt = client_salt ^ free;
                assert(client_salt ^ (client_salt ^ free) == free) by (bit_vector);
            }
            let ghost before = self@;
            let added = ConnectionState { client_salt, server_salt: salt };
            self.pending.push(added);
            self.activity.received(messenger.time);
            server_salt = Some(salt);
            proof {
                let p = self@.pending;
                assert(p.last() == added);
                assert forall|i: int, j: int| 0 <= i < j < p.len() implies #[trigger] p[i].identity()
                    != #[trigger] p[j].identity() && p[i].client_salt != p[j].client_salt by {
                    if j == p.len() - 1 {
                        assert(p[i] == before.pending[i]);
                        assert(!identity_in_use(before.active, before.pending, added.identity()));
                    }
                }
            }
        }
        if let Some(salt) = server_salt {
            self.send_packet(client_salt, PacketHeaderType::Challenge(salt), messenger);
        } else {
            self.send_packet(client_salt, PacketHeaderType::ConnectionDenied, messenger);
        }
    }
    /// A challenge response with an identity: the established handshake
    /// with it is accepted again; a pending one with it is accepted and
    /// established in place of any established one (a reconnection), where
    /// one is established or `can_accept_new` allows a new one, and denied
    /// otherwise; an unknown identity is denied. Returns whether a new
    /// connection was established where none was.
    pub fn process_challenge_response(
        &mut self,
        identity: u64,
        messenger: &mut Messenger,
        can_accept_new: bool,
    ) -> (r: bool)
        requires
            old(self).wf(),
            old(messenger).buffer_size >= HEADER_SIZE,
        ensures
            final(self).wf(),
            final(messenger).same_context(*old(messenger)),
            process_challenge_response_step(
                old(self)@,
                final(self)@,
                identity,
                can_accept_new,
                r,
                old(messenger).time,
                old(messenger).buffer_size,
                old(messenger).out(),
                final(messenger).out(),
            ),
    {
        if let Some(active) = &self.active {
            if active.get_identity() == identity {
                self.activity.received(messenger.time);
                self.send_packet(identity, PacketHeaderType::ConnectionAccepted, messenger);
                return false;
            }
        }
        if let Some(index) = self.find_identity(identity) {
            let is_new_connection;
            if self.active.is_some() {
                messenger.send_event(self.address, ConnectionEvent::Reconnected);
                is_new_connection = false;
            } else if can_accept_new {
                messenger.send_event(self.address, ConnectionEvent::Connected);
                is_new_connection = true;
            } else {
                self.send_packet(identity, PacketHeaderType::ConnectionDenied, messenger);
                return false;
            }
            let ghost before = self@;
            proof {
                lemma_establish_distinct(before.active, before.pending, index as int);
            }
            let state = self.pending.swap_remove(index);
            self.active = Some(state);
            self.activity.received(messenger.time);
            self.reliability.reset();
            self.destroy_reason = None;
            assert(self@.pending =~= swap_removed(before.pending, index as int));
            self.send_packet(identity, PacketHeaderType::ConnectionAccepted, messenger);
            return is_new_connection;
        } else {
            self.send_packet(identity, PacketHeaderType::ConnectionDenied, messenger);
        }
        false
    }
    /// Reports each delivered packet, in order.
    fn report_packets(&self, packets: Vec<(Packet, PacketType)>, messenger: &mut Messenger)
        ensures
            final(messenger).same_context(*old(messenger)),
            final(messenger).out() == old(messenger).out() + packet_events(
                self@.address,
                Ok::<_, ErrorKind>(packets),
            ),
    {
        let ghost all = packets@;
        let ghost events = packet_events(self@.address, Ok::<_, ErrorKind>(packets));
        let mut rest = packets;
        let mut done: usize = 0;
        assert(all.len() == rest.len());
        while rest.len() > 0
            invariant
                messenger.same_context(*old(messenger)),
                done + rest@.len() == all.len(),
                all.len() <= usize::MAX,
                rest@ == all.skip(done as int),
                events.len() == all.len(),
                forall|i: int| 0 <= i < all.len() ==> #[trigger] events[i] == OutModel::Event(
                    self@.address,
                    EventModel::Packet(all[i].0.payload@, all[i].0.delivery, all[i].0.ordering),
                ),
                messenger.out() == old(messenger).out() + events.take(done as int),
            decreases rest@.len(),
        {
            let incoming = rest.remove(0);
            assert(incoming == all[done as int]);
            messenger.send_event(self.address, ConnectionEvent::Packet(incoming.0));
            assert(events.take(done + 1) =~= events.take(done as int).push(events[done as int]));
            done = done + 1;
            assert(rest@ =~= all.skip(done as int));
        }
        assert(events.take(done as int) =~= events);
    }

    /// A payload datagram: where it carries the identity of the
    /// established handshake, the remote host was heard from, and the
    /// reliability layer turns it into packets, each reported in order.
    pub fn process_payload(&mut self, identity: u64, payload: &[u8], messenger: &mut Messenger)
        requires
            old(self).wf(),
        ensures
            final(self).wf(),
            final(messenger).same_context(*old(messenger)),
            process_payload_step(
                old(self)@,
                final(self)@,
                identity,
                payload@,
                old(messenger).time,
                old(messenger).buffer_size,
                old(messenger).out(),
                final(messenger).out(),
            ),
    {
        if let Some(state) = &self.active {
            if state.get_identity() == identity {
                self.activity.received(messenger.time);
                let ghost before = self.reliability;
                let r = self.reliability.process_incoming(payload, messenger.time);
                let ghost rv = r;
                assert(incoming_step(before, self@.reliability, payload@, rv));
                match r {
                    Ok(packets) => {
                        self.report_packets(packets, messenger);
                    },
                    Err(_) => {
                        assert(packet_events(self@.address, rv) =~= Seq::<OutModel>::empty());
                        assert(messenger.out() =~= old(messenger).out() + packet_events(self@.address, rv));
                    },
                }
            }
        }
    }
    /// Sends each datagram that the reliability layer framed, in order,
    /// under the given identity.
    fn send_payloads(&self, identity: u64, packets: &Vec<Vec<u8>>, messenger: &mut Messenger)
        requires
            old(messenger).buffer_size >= HEADER_SIZE,
        ensures
            final(messenger).same_context(*old(messenger)),
            final(messenger).out() == old(messenger).out() + payload_datagrams(
                self@.address,
                identity,
                Ok::<_, ErrorKind>(*packets),
                old(messenger).buffer_size,
            ),
    {
        let ghost sent = payload_datagrams(
            self@.address,
            identity,
            Ok::<_, ErrorKind>(*packets),
            old(messenger).buffer_size,
        );
        let mut i: usize = 0;
        while i < packets.len()
            invariant
                messenger.same_context(*old(messenger)),
                old(messenger).buffer_size >= HEADER_SIZE,
                i <= packets@.len(),
                sent.len() == packets@.len(),
                forall|k: int| 0 <= k < packets@.len() ==> #[trigger] sent[k] == header_datagram(
                    self@.address,
                    identity,
                    payload_header(packets@[k]@),
                    old(messenger).buffer_size,
                ),
                messenger.out() == old(messenger).out() + sent.take(i as int),
            decreases packets@.len() - i,
        {
            let datagram: &Vec<u8> = &packets[i];
            let info = PacketInfo {
                packet_type: PacketType::Packet,
                payload: datagram.as_slice(),
                delivery: DeliveryGuarantee::Unreliable,
                ordering: OrderingGuarantee::Unordered,
            };
            self.send_packet(identity, PacketHeaderType::Payload(info), messenger);
            assert(sent.take(i + 1) =~= sent.take(i as int).push(sent[i as int]));
            i = i + 1;
        }
        assert(sent.take(i as int) =~= sent);
    }

    /// A packet of the user: where a handshake is established, the
    /// reliability layer frames it and each datagram is sent under the
    /// established identity.
    pub fn user_packet(&mut self, packet: Packet, messenger: &mut Messenger)
        requires
            old(self).wf(),
            old(messenger).buffer_size >= HEADER_SIZE,
        ensures
            final(self).wf(),
            final(messenger).same_context(*old(messenger)),
            user_packet_step(
                old(self)@,
                final(self)@,
                packet.payload@,
                packet.delivery,
                packet.ordering,
                old(messenger).time,
                old(messenger).buffer_size,
                old(messenger).out(),
                final(messenger).out(),
            ),
    {
        if let Some(active) = self.active {
            let identity = active.get_identity();
            let info = PacketInfo::user_packet(
                packet.payload(),
                packet.delivery_guarantee(),
                packet.order_guarantee(),
            );
            let ghost before = self.reliability;
            let r = self.reliability.process_outgoing(info, None, messenger.time);
            assert(outgoing_step(
                before,
                self@.reliability,
                PacketType::Packet,
                packet.delivery,
                packet.ordering,
                packet.payload@,
                None,
                r,
            ));
            match &r {
                Ok(packets) => {
                    self.activity.sent(messenger.time);
                    self.send_payloads(identity, packets, messenger);
                },
                Err(_) => {
                    assert(messenger.out() =~= old(messenger).out() + payload_datagrams(
                        self@.address,
                        identity,
                        r,
                        old(messenger).buffer_size,
                    ));
                },
            }
        }
    }
    /// Repeats the handshake datagram where it is due.
    fn resend_handshake(&mut self, messenger: &mut Messenger)
        requires
            old(self).wf(),
            old(messenger).buffer_size >= HEADER_SIZE,
            old(messenger).time <= u64::MAX - SEND_INTERVAL_DURING_HANDSHAKE,
        ensures
            final(self).wf(),
            final(messenger).same_context(*old(messenger)),
            final(messenger).out() == old(messenger).out() + final(messenger).out().skip(
                old(messenger).out().len() as int,
            ),
            handshake_resent(
                old(self)@,
                final(self)@,
                final(messenger).out().skip(old(messenger).out().len() as int),
                old(messenger).time,
                old(messenger).buffer_size,
            ),
    {
        let ghost out0 = messenger.out();
        if let Some(mut packet) = self.packet_to_send {
            if messenger.time > packet.send_at {
                packet.send_at = messenger.time + SEND_INTERVAL_DURING_HANDSHAKE;
                if packet.send_times_left > 1 {
                    packet.send_times_left = packet.send_times_left - 1;
                    self.packet_to_send = Some(packet);
                    self.activity.sent(messenger.time);
                    self.send_packet(packet.remote_identity, packet.send_packet.header_type(), messenger);
                    assert(messenger.out().skip(out0.len() as int) =~= seq![
                        header_datagram(
                            self@.address,
                            packet.remote_identity,
                            packet.send_packet.model(),
                            messenger.buffer_size,
                        ),
                    ]);
                } else {
                    self.packet_to_send = None;
                    assert(messenger.out().skip(out0.len() as int) =~= Seq::<OutModel>::empty());
                }
            } else {
                assert(messenger.out().skip(out0.len() as int) =~= Seq::<OutModel>::empty());
            }
        } else {
            assert(messenger.out().skip(out0.len() as int) =~= Seq::<OutModel>::empty());
        }
        assert(messenger.out() =~= out0 + messenger.out().skip(out0.len() as int));
    }

    /// Marks the connection for a timeout where it is not marked yet and was
    /// silent for the idle timeout.
    fn check_timeout(&mut self, messenger: &mut Messenger)
        requires
            old(self).wf(),
        ensures
            final(self).wf(),
            final(messenger).same_context(*old(messenger)),
            final(messenger).out() == old(messenger).out() + final(messenger).out().skip(
                old(messenger).out().len() as int,
            ),
            timeout_checked(
                old(self)@,
                final(self)@,
                final(messenger).out().skip(old(messenger).out().len() as int),
                old(messenger).time,
            ),
    {
        let ghost out0 = messenger.out();
        if self.destroy_reason.is_none() && !self.activity.is_active(messenger.time) {
            self.prepare_drop(messenger, DestroyReason::Timeout);
        }
        assert(messenger.out().skip(out0.len() as int) =~= if old(self)@.destroy_reason is None
            && !spec_is_active(old(self)@.last_heard, old(self)@.last_sent, old(self)@.idle_timeout, messenger.time)
            && old(self)@.active is Some {
            seq![OutModel::Event(old(self)@.address, EventModel::Disconnected(DisconnectModel::Destroying(ReasonModel::Timeout)))]
        } else {
            Seq::<OutModel>::empty()
        });
        assert(messenger.out() =~= out0 + messenger.out().skip(out0.len() as int));
    }

    /// Marks the connection to be destroyed where more reliable packets are
    /// in flight than allowed.
    fn check_packets_in_flight(&mut self, messenger: &mut Messenger)
        requires
            old(self).wf(),
        ensures
            final(self).wf(),
            final(messenger).same_context(*old(messenger)),
            final(messenger).out() == old(messenger).out() + final(messenger).out().skip(
                old(messenger).out().len() as int,
            ),
            flight_checked(
                old(self)@,
                final(self)@,
                final(messenger).out().skip(old(messenger).out().len() as int),
                old(messenger).config.max_packets_in_flight,
            ),
    {
        let ghost out0 = messenger.out();
        if self.reliability.packets_in_flight() > messenger.config.max_packets_in_flight {
            self.prepare_drop(messenger, DestroyReason::TooManyPacketsInFlight);
        }
        assert(messenger.out().skip(out0.len() as int) =~= if old(self)@.reliability.acks().sent().dom().len() as u16
            > messenger.config.max_packets_in_flight && old(self)@.active is Some {
            seq![OutModel::Event(old(self)@.address, EventModel::Disconnected(DisconnectModel::Destroying(ReasonModel::TooManyPacketsInFlight)))]
        } else {
            Seq::<OutModel>::empty()
        });
        assert(messenger.out() =~= out0 + messenger.out().skip(out0.len() as int));
    }

    /// Sends the lost reliable packets again, where a handshake is
    /// established.
    fn resend_dropped(&mut self, messenger: &mut Messenger)
        requires
            old(self).wf(),
            old(messenger).buffer_size >= HEADER_SIZE,
        ensures
            final(self).wf(),
            final(messenger).same_context(*old(messenger)),
            final(messenger).out() == old(messenger).out() + final(messenger).out().skip(
                old(messenger).out().len() as int,
            ),
            retransmitted(
                old(self)@,
                final(self)@,
                final(messenger).out().skip(old(messenger).out().len() as int),
                old(messenger).time,
                old(messenger).buffer_size,
            ),
    {
        let ghost out0 = messenger.out();
        let time = messenger.time;
        let buffer_size = messenger.buffer_size;
        if let Some(state) = self.active {
            let identity = state.get_identity();
            let ghost before = self@;
            let dropped = self.reliability.gather_dropped_packets();
            let ghost g = self.reliability;
            let ghost mut steps = seq![g];
            let ghost mut rs = Seq::<Result<Vec<Vec<u8>>, ErrorKind>>::empty();
            assert(messenger.out().skip(out0.len() as int) =~= Seq::<OutModel>::empty());
            let mut i: usize = 0;
            while i < dropped.len()
                invariant
                    self.wf(),
                    i <= dropped@.len(),
                    messenger.same_context(*old(messenger)),
                    time == old(messenger).time,
                    buffer_size == old(messenger).buffer_size,
                    buffer_size >= HEADER_SIZE,
                    out0 == old(messenger).out(),
                    self@ == (ConnectionModel {
                        reliability: self@.reliability,
                        last_sent: if exists|k: int| 0 <= k < rs.len() && #[trigger] rs[k] is Ok {
                            time
                        } else {
                            before.last_sent
                        },
                        ..before
                    }),
                    resent_all(g, self@.reliability, dropped@.take(i as int), steps, rs),
                    messenger.out().skip(out0.len() as int) == resend_out(before.address, identity, rs, buffer_size),
                    messenger.out() == out0 + messenger.out().skip(out0.len() as int),
                decreases dropped@.len() - i,
            {
                let d = &dropped[i];
                let ghost out1 = messenger.out().skip(out0.len() as int);
                let ghost rs1 = rs;
                let r = self.reliability.process_outgoing(
                    PacketInfo {
                        packet_type: d.packet_type,
                        payload: d.payload.as_slice(),
                        delivery: DeliveryGuarantee::Reliable,
                        ordering: d.ordering_guarantee,
                    },
                    d.item_identifier,
                    time,
                );
                match &r {
                    Ok(packets) => {
                        self.activity.sent(time);
                        self.send_payloads(identity, packets, messenger);
                    },
                    Err(_) => {},
                }
                proof {
                    steps = steps.push(self@.reliability);
                    rs = rs.push(r);
                    assert(rs.drop_last() =~= rs1);
                    assert(messenger.out().skip(out0.len() as int) =~= out1 + payload_datagrams(
                        before.address,
                        identity,
                        r,
                        buffer_size,
                    ));
                    assert(messenger.out() =~= out0 + messenger.out().skip(out0.len() as int));
                    assert forall|k: int| 0 <= k < i + 1 implies outgoing_step(
                        steps[k],
                        steps[k + 1],
                        dropped@.take(i + 1)[k].packet_type,
                        DeliveryGuarantee::Reliable,
                        dropped@.take(i + 1)[k].ordering_guarantee,
                        dropped@.take(i + 1)[k].payload@,
                        dropped@.take(i + 1)[k].item_identifier,
                        #[trigger] rs[k],
                    ) by {
                        if k < i {
                            assert(rs[k] == rs1[k]);
                            assert(dropped@.take(i + 1)[k] == dropped@.take(i as int)[k]);
                        }
                    }
                    if r is Ok {
                        assert(rs[i as int] is Ok);
                    } else {
                        assert forall|k: int| 0 <= k < rs.len() && #[trigger] rs[k] is Ok implies k < rs1.len() && rs1[k] is Ok by {}
                    }
                }
                i = i + 1;
            }
            assert(dropped@.take(i as int) =~= dropped@);
        } else {
            assert(messenger.out().skip(out0.len() as int) =~= Seq::<OutModel>::empty());
        }
        assert(messenger.out() =~= out0 + messenger.out().skip(out0.len() as int));
    }

    /// One step of time: repeats a due handshake datagram, marks the
    /// connection to be destroyed after the idle timeout or with too many
    /// packets in flight, and sends the lost reliable packets again.
    pub fn update(&mut self, messenger: &mut Messenger)
        requires
            old(self).wf(),
            old(messenger).buffer_size >= HEADER_SIZE,
            old(messenger).time <= u64::MAX - SEND_INTERVAL_DURING_HANDSHAKE,
        ensures
            final(self).wf(),
            final(messenger).same_context(*old(messenger)),
            update_step(
                old(self)@,
                final(self)@,
                old(messenger).config.max_packets_in_flight,
                old(messenger).time,
                old(messenger).buffer_size,
                old(messenger).out(),
                final(messenger).out(),
            ),
    {
        let ghost out0 = messenger.out();
        self.resend_handshake(messenger);
        let ghost c1 = self@;
        let ghost out1 = messenger.out();
        self.check_timeout(messenger);
        let ghost c2 = self@;
        let ghost out2 = messenger.out();
        self.check_packets_in_flight(messenger);
        let ghost c3 = self@;
        let ghost out3 = messenger.out();
        self.resend_dropped(messenger);
        proof {
            let o1 = out1.skip(out0.len() as int);
            let o2 = out2.skip(out1.len() as int);
            let o3 = out3.skip(out2.len() as int);
            let o4 = messenger.out().skip(out3.len() as int);
            assert(messenger.out() =~= out0 + o1 + o2 + o3 + o4);
            assert(handshake_resent(old(self)@, c1, o1, old(messenger).time, old(messenger).buffer_size));
            assert(timeout_checked(c1, c2, o2, old(messenger).time));
            assert(flight_checked(c2, c3, o3, old(messenger).config.max_packets_in_flight));
            assert(retransmitted(c3, self@, o4, old(messenger).time, old(messenger).buffer_size));
        }
    }
}

/// The bytes of a datagram to be sent.
pub open spec fn datagram_bytes(o: OutModel) -> Seq<u8> {
    match o {
        OutModel::Datagram(_, b) => b,
        OutModel::Event(_, _) => Seq::empty(),
    }
}

/// A handshake establishes the same connection at both ends. A client with
/// one pending handshake of client salt `cs` (as connecting leaves it) and a
/// server without handshakes of that client salt go through request,
/// challenge, challenge response and acceptance: the server's datagrams read
/// back as the challenge with its new server salt `ss` and as the
/// acceptance of identity `cs ^ ss`; the client answers the challenge with a
/// challenge response of identity `cs ^ ss`; then both ends have the
/// handshake `(cs, ss)` established, and both report the connection as
/// new.
pub proof fn lemma_handshake_establishes(
    client0: ConnectionModel,
    client1: ConnectionModel,
    client2: ConnectionModel,
    server0: ConnectionModel,
    server1: ConnectionModel,
    server2: ConnectionModel,
    cs: u64,
    max_pending: usize,
    accepted: bool,
    t: u64,
    buf: usize,
    sob0: Seq<OutModel>,
    soa0: Seq<OutModel>,
    sob1: Seq<OutModel>,
    soa1: Seq<OutModel>,
    cob0: Seq<OutModel>,
    coa0: Seq<OutModel>,
    cob1: Seq<OutModel>,
    coa1: Seq<OutModel>,
)
    requires
        client0.active is None,
        client0.pending == seq![ConnectionState { client_salt: cs, server_salt: 0 }],
        server0.active is None,
        forall|i: int| 0 <= i < server0.pending.len() ==> #[trigger] server0.pending[i].client_salt != cs,
        server0.pending.len() < max_pending,
        handshakes_distinct(server0.active, server0.pending),
        handshakes_distinct(server1.active, server1.pending),
        buf >= HEADER_SIZE + 8,
        process_connection_request_step(server0, server1, cs, max_pending, t, buf, sob0, soa0),
        process_challenge_step(client0, client1, cs, server1.pending.last().server_salt, t, buf, cob0, coa0),
        process_challenge_response_step(
            server1,
            server2,
            cs ^ server1.pending.last().server_salt,
            true,
            accepted,
            t,
            buf,
            sob1,
            soa1,
        ),
        process_connection_accepted_step(client1, client2, cs ^ server1.pending.last().server_salt, t, buf, cob1, coa1),
    ensures
        ({
            let ss = server1.pending.last().server_salt;
            let state = ConnectionState { client_salt: cs, server_salt: ss };
            &&& spec_decode(datagram_bytes(soa0.last())) == Ok::<_, ErrorKind>((cs, HeaderModel::Challenge(ss)))
            &&& client1.packet_to_send == Some(
                PacketToSend {
                    send_packet: HandshakePacket::ChallengeResponse,
                    remote_identity: cs ^ ss,
                    send_at: t,
                    send_times_left: 10,
                },
            )
            &&& accepted
            &&& server2.active == Some(state)
            &&& spec_decode(datagram_bytes(soa1.last())) == Ok::<_, ErrorKind>(
                (cs ^ ss, HeaderModel::ConnectionAccepted),
            )
            &&& client2.active == Some(state)
            &&& coa1 == cob1.push(OutModel::Event(client1.address, EventModel::Connected))
            &&& soa1 == sob1.push(OutModel::Event(server1.address, EventModel::Connected)).push(
                header_datagram(server1.address, cs ^ ss, HeaderModel::ConnectionAccepted, buf),
            )
        }),
{
    let ss = server1.pending.last().server_salt;
    let id = cs ^ ss;
    let last = server1.pending.len() - 1;
    assert(!(exists|i: int| 0 <= i < server0.pending.len() && #[trigger] server0.pending[i].client_salt == cs));
    assert(server1.pending == server0.pending.push(server1.pending.last()));
    assert(server1.pending[last] == ConnectionState { client_salt: cs, server_salt: ss });
    crate::packet_header::lemma_header_roundtrip(cs, HeaderModel::Challenge(ss), buf as nat);
    assert(server1.pending[last].identity() == id);
    assert(!active_is(server1, id));
    assert(exists|i: int| 0 <= i < server1.pending.len() && #[trigger] server1.pending[i].identity() == id);
    let i = choose|i: int|
        0 <= i < server1.pending.len() && #[trigger] server1.pending[i].identity() == id && server2 == (
        ConnectionModel {
            active: Some(server1.pending[i]),
            pending: swap_removed(server1.pending, i),
            last_heard: t,
            destroy_reason: None,
            reliability: server2.reliability,
            ..server1
        });
    if i != last {
        assert(server1.pending[i].identity() != server1.pending[last].identity());
    }
    crate::packet_header::lemma_header_roundtrip(id, HeaderModel::ConnectionAccepted, buf as nat);
    assert(client1.pending[0].identity() == id);
}

/// A challenge response that carries the identity of the established
/// handshake (a client repeating it because the acceptance was lost) is
/// answered with one more datagram, which reads back as the acceptance of
/// that identity; no new connection is reported, and the remote host was
/// heard from at time `t`, which is all that changes.
pub proof fn lemma_established_response_accepted(
    o: ConnectionModel,
    f: ConnectionModel,
    identity: u64,
    can_accept_new: bool,
    r: bool,
    t: u64,
    buf: usize,
    ob: Seq<OutModel>,
    oa: Seq<OutModel>,
)
    requires
        buf >= HEADER_SIZE,
        o.active is Some,
        o.active.unwrap().identity() == identity,
        process_challenge_response_step(o, f, identity, can_accept_new, r, t, buf, ob, oa),
    ensures
        !r,
        f == (ConnectionModel { last_heard: t, ..o }),
        oa.len() == ob.len() + 1,
        oa.take(ob.len() as int) == ob,
        oa.last() matches OutModel::Datagram(a, _) && a == o.address,
        spec_decode(datagram_bytes(oa.last())) == Ok::<_, ErrorKind>(
            (identity, HeaderModel::ConnectionAccepted),
        ),
{
    crate::packet_header::lemma_header_roundtrip(identity, HeaderModel::ConnectionAccepted, buf as nat);
    assert(oa.take(ob.len() as int) =~= ob);
}

/// One step of time does to the handshake datagram of `c` what
/// `handshake_resent` says, except that the step may also give it up when
/// the connection is marked to be destroyed; it never queues a new one and
/// never changes the address.
proof fn lemma_update_queue_step(
    c: ConnectionModel,
    f: ConnectionModel,
    max_in_flight: u16,
    t: u64,
    buf: usize,
    ob: Seq<OutModel>,
    oa: Seq<OutModel>,
)
    requires
        update_step(c, f, max_in_flight, t, buf, ob, oa),
    ensures
        f.address == c.address,
        c.packet_to_send is None ==> f.packet_to_send is None,
        c.packet_to_send matches Some(p) ==> if t > p.send_at {
            if p.send_times_left > 1 {
                &&& (f.packet_to_send is None || f.packet_to_send == Some(
                    PacketToSend {
                        send_at: (t + SEND_INTERVAL_DURING_HANDSHAKE) as u64,
                        send_times_left: (p.send_times_left - 1) as u8,
                        ..p
                    },
                ))
                &&& oa.len() > ob.len()
                &&& oa[ob.len() as int] == header_datagram(
                    c.address,
                    p.remote_identity,
                    p.send_packet.model(),
                    buf,
                )
            } else {
                f.packet_to_send is None
            }
        } else {
            f.packet_to_send is None || f.packet_to_send == Some(p)
        },
{
    let (c1, c2, c3, o1, o2, o3, o4) = choose|
        c1: ConnectionModel,
        c2: ConnectionModel,
        c3: ConnectionModel,
        o1: Seq<OutModel>,
        o2: Seq<OutModel>,
        o3: Seq<OutModel>,
        o4: Seq<OutModel>,
    |
        #![trigger handshake_resent(c, c1, o1, t, buf), timeout_checked(c1, c2, o2, t), flight_checked(c2, c3, o3, max_in_flight), retransmitted(c3, f, o4, t, buf)]
        {
            &&& handshake_resent(c, c1, o1, t, buf)
            &&& timeout_checked(c1, c2, o2, t)
            &&& flight_checked(c2, c3, o3, max_in_flight)
            &&& retransmitted(c3, f, o4, t, buf)
            &&& oa == ob + o1 + o2 + o3 + o4
        };
    assert(f.packet_to_send == c3.packet_to_send && f.address == c3.address);
    if let Some(p) = c.packet_to_send {
        if t > p.send_at && p.send_times_left > 1 {
            assert(o1.len() == 1);
            assert(oa[ob.len() as int] == o1[0]);
        }
    }
}

/// Whether step `i` of a run of steps sends the handshake datagram again.
pub open spec fn resends_at(cs: Seq<ConnectionModel>, ts: Seq<u64>, i: int) -> bool {
    &&& cs[i].packet_to_send is Some
    &&& ts[i] > cs[i].packet_to_send.unwrap().send_at
    &&& cs[i].packet_to_send.unwrap().send_times_left > 1
}

/// How many of the first `n` steps send the handshake datagram again.
pub open spec fn resend_count(cs: Seq<ConnectionModel>, ts: Seq<u64>, n: int) -> nat
    decreases n,
{
    if n <= 0 {
        0
    } else {
        resend_count(cs, ts, n - 1) + if resends_at(cs, ts, n - 1) {
            1nat
        } else {
            0nat
        }
    }
}

/// A handshake datagram is repeated a bounded number of times, five a second
/// at most: over a run of steps of time at non-decreasing times `ts`, where
/// `cs[i]` becomes `cs[i + 1]` and the outbox `outs[i]` becomes
/// `outs[i + 1]`, the datagram queued at first (`p0`, with `k` sends left)
/// is sent again only in steps whose time is past its due time, always to
/// the same address with the same identity, at most `k - 1` times, each two
/// sends more than 200 ms apart; the step that finds one send left gives it
/// up.
pub proof fn lemma_handshake_resend_bounded(
    cs: Seq<ConnectionModel>,
    ts: Seq<u64>,
    outs: Seq<Seq<OutModel>>,
    max_in_flight: u16,
    buf: usize,
    p0: PacketToSend,
)
    requires
        cs.len() == ts.len() + 1,
        outs.len() == ts.len() + 1,
        cs[0].packet_to_send == Some(p0),
        forall|i: int, j: int| 0 <= i <= j < ts.len() ==> ts[i] <= ts[j],
        forall|i: int| 0 <= i < ts.len() ==> ts[i] <= u64::MAX - SEND_INTERVAL_DURING_HANDSHAKE,
        forall|i: int|
            0 <= i < ts.len() ==> update_step(
                cs[i],
                cs[i + 1],
                max_in_flight,
                #[trigger] ts[i],
                buf,
                outs[i],
                outs[i + 1],
            ),
    ensures
        resend_count(cs, ts, ts.len() as int) + 1 <= p0.send_times_left || resend_count(
            cs,
            ts,
            ts.len() as int,
        ) == 0,
        forall|i: int, j: int|
            0 <= i < j < ts.len() && resends_at(cs, ts, i) && resends_at(cs, ts, j) ==> ts[j]
                > ts[i] + SEND_INTERVAL_DURING_HANDSHAKE,
        forall|i: int|
            0 <= i < ts.len() && #[trigger] resends_at(cs, ts, i) ==> outs[i + 1].len() > outs[i].len()
                && outs[i + 1][outs[i].len() as int] == header_datagram(
                cs[0].address,
                p0.remote_identity,
                p0.send_packet.model(),
                buf,
            ),
        forall|i: int|
            0 <= i < ts.len() && cs[i].packet_to_send is Some && ts[i]
                > cs[i].packet_to_send.unwrap().send_at && cs[i].packet_to_send.unwrap().send_times_left
                <= 1 ==> #[trigger] cs[i + 1].packet_to_send is None,
{
    lemma_resend_prefix(cs, ts, outs, max_in_flight, buf, p0, ts.len() as int);
}

/// What holds after the first `n` steps of a run: the address is the first
/// one; a queued datagram is the first one with one send left less per send
/// so far, due 200 ms after the last send where there was one; every send so
/// far came at or before the last one.
proof fn lemma_resend_prefix(
    cs: Seq<ConnectionModel>,
    ts: Seq<u64>,
    outs: Seq<Seq<OutModel>>,
    max_in_flight: u16,
    buf: usize,
    p0: PacketToSend,
    n: int,
) -> (last: u64)
    requires
        0 <= n <= ts.len(),
        cs.len() == ts.len() + 1,
        outs.len() == ts.len() + 1,
        cs[0].packet_to_send == Some(p0),
        forall|i: int, j: int| 0 <= i <= j < ts.len() ==> ts[i] <= ts[j],
        forall|i: int| 0 <= i < ts.len() ==> ts[i] <= u64::MAX - SEND_INTERVAL_DURING_HANDSHAKE,
        forall|i: int|
            0 <= i < ts.len() ==> update_step(
                cs[i],
                cs[i + 1],
                max_in_flight,
                #[trigger] ts[i],
                buf,
                outs[i],
                outs[i + 1],
            ),
    ensures
        cs[n].address == cs[0].address,
        cs[n].packet_to_send matches Some(p) ==> {
            &&& p.send_packet == p0.send_packet
            &&& p.remote_identity == p0.remote_identity
            &&& p.send_times_left + resend_count(cs, ts, n) == p0.send_times_left
            &&& resend_count(cs, ts, n) > 0 ==> p.send_at == last + SEND_INTERVAL_DURING_HANDSHAKE
        },
        resend_count(cs, ts, n) + 1 <= p0.send_times_left || resend_count(cs, ts, n) == 0,
        resend_count(cs, ts, n) > 0 ==> forall|i: int|
            0 <= i < n && resends_at(cs, ts, i) ==> ts[i] <= last,
        cs[n].packet_to_send is None ==> forall|i: int| n <= i < ts.len() ==> !resends_at(cs, ts, i),
        forall|i: int|
            0 <= i < n && #[trigger] resends_at(cs, ts, i) ==> outs[i + 1].len() > outs[i].len()
                && outs[i + 1][outs[i].len() as int] == header_datagram(
                cs[0].address,
                p0.remote_identity,
                p0.send_packet.model(),
                buf,
            ),
        forall|i: int, j: int|
            0 <= i < j < n && resends_at(cs, ts, i) && resends_at(cs, ts, j) ==> ts[j] > ts[i]
                + SEND_INTERVAL_DURING_HANDSHAKE,
        forall|i: int|
            0 <= i < n && cs[i].packet_to_send is Some && ts[i] > cs[i].packet_to_send.unwrap().send_at
                && cs[i].packet_to_send.unwrap().send_times_left <= 1 ==> #[trigger] cs[i
                + 1].packet_to_send is None,
    decreases n,
{
    if n == 0 {
        if cs[0].packet_to_send is None {
            lemma_none_stays(cs, ts, outs, max_in_flight, buf, 0);
        }
        0
    } else {
        let prev = lemma_resend_prefix(cs, ts, outs, max_in_flight, buf, p0, n - 1);
        let i = n - 1;
        assert(update_step(cs[i], cs[i + 1], max_in_flight, ts[i], buf, outs[i], outs[i + 1]));
        lemma_update_queue_step(cs[i], cs[i + 1], max_in_flight, ts[i], buf, outs[i], outs[i + 1]);
        let last: u64 = if resends_at(cs, ts, i) {
            ts[i]
        } else {
            prev
        };
        if cs[n].packet_to_send is None {
            lemma_none_stays(cs, ts, outs, max_in_flight, buf, n);
        }
        assert(resend_count(cs, ts, n) == resend_count(cs, ts, i) + if resends_at(cs, ts, i) {
            1nat
        } else {
            0nat
        });
        assert(ts[i] <= u64::MAX - SEND_INTERVAL_DURING_HANDSHAKE);
        if let Some(q) = cs[n].packet_to_send {
            assert(cs[i].packet_to_send is Some);
            let pi = cs[i].packet_to_send.unwrap();
            if resends_at(cs, ts, i) {
                assert(q.send_times_left == pi.send_times_left - 1);
                assert(q.send_at == ts[i] + SEND_INTERVAL_DURING_HANDSHAKE);
            } else {
                assert(q == pi);
            }
        }
        if resends_at(cs, ts, i) {
            assert(ts[i] <= u64::MAX - SEND_INTERVAL_DURING_HANDSHAKE);
            assert forall|a: int, b: int|
                0 <= a < b < n && resends_at(cs, ts, a) && resends_at(cs, ts, b) implies ts[b] > ts[a]
                + SEND_INTERVAL_DURING_HANDSHAKE by {
                if b == i {
                    assert(resend_count(cs, ts, i) > 0) by {
                        lemma_resend_count_positive(cs, ts, a, i);
                    }
                    assert(ts[a] <= prev);
                }
            }
            assert forall|a: int| 0 <= a < n && resends_at(cs, ts, a) implies ts[a] <= last by {
                if a < i {
                    assert(ts[a] <= ts[i]);
                }
            }
        }
        last
    }
}

/// Once no handshake datagram is queued, no later step queues or sends one.
proof fn lemma_none_stays(
    cs: Seq<ConnectionModel>,
    ts: Seq<u64>,
    outs: Seq<Seq<OutModel>>,
    max_in_flight: u16,
    buf: usize,
    n: int,
)
    requires
        0 <= n <= ts.len(),
        cs.len() == ts.len() + 1,
        outs.len() == ts.len() + 1,
        cs[n].packet_to_send is None,
        forall|i: int|
            0 <= i < ts.len() ==> update_step(
                cs[i],
                cs[i + 1],
                max_in_flight,
                #[trigger] ts[i],
                buf,
                outs[i],
                outs[i + 1],
            ),
    ensures
        forall|i: int| n <= i < ts.len() ==> !resends_at(cs, ts, i),
        forall|i: int| n <= i <= ts.len() ==> #[trigger] cs[i].packet_to_send is None,
    decreases ts.len() - n,
{
    if n < ts.len() {
        assert(update_step(cs[n], cs[n + 1], max_in_flight, ts[n], buf, outs[n], outs[n + 1]));
        lemma_update_queue_step(cs[n], cs[n + 1], max_in_flight, ts[n], buf, outs[n], outs[n + 1]);
        lemma_none_stays(cs, ts, outs, max_in_flight, buf, n + 1);
        assert forall|i: int| n <= i <= ts.len() implies #[trigger] cs[i].packet_to_send is None by {
            if i > n {
                assert(cs[i].packet_to_send is None);
            }
        }
    }
}

/// A send among the first `n` steps makes their count positive.
proof fn lemma_resend_count_positive(cs: Seq<ConnectionModel>, ts: Seq<u64>, a: int, n: int)
    requires
        0 <= a < n,
        resends_at(cs, ts, a),
    ensures
        resend_count(cs, ts, n) > 0,
    decreases n,
{
    if a < n - 1 {
        lemma_resend_count_positive(cs, ts, a, n - 1);
    }
}

} // verus!
