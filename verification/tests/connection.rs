use laminar::address_connection::{AddressConnection, ConnectionState};
use laminar::config::Config;
use laminar::connection_manager::Manager;
use laminar::events::{ConnectionEvent, DestroyReason, DisconnectReason, UserEvent};
use laminar::messenger::{Address, Messenger, Outgoing};
use laminar::packet::Packet;
use laminar::packet_header::{PacketHeader, PacketHeaderType};

const BUFFER: usize = 1500;

fn addr(port: u16) -> Address {
    Address { ip: 0x7f00_0001, port, v6: false }
}

fn step(time: u64) -> Messenger {
    Messenger::new(time, Config::default(), BUFFER)
}

fn datagrams(m: &Messenger) -> Vec<(Address, Vec<u8>)> {
    m.outbox
        .iter()
        .filter_map(|o| match o {
            Outgoing::Datagram(a, b) => Some((*a, b.clone())),
            _ => None,
        })
        .collect()
}

fn events(m: &Messenger) -> Vec<&ConnectionEvent> {
    m.outbox
        .iter()
        .filter_map(|o| match o {
            Outgoing::Event(_, e) => Some(e),
            _ => None,
        })
        .collect()
}

fn header_of(bytes: &[u8]) -> PacketHeader<'_> {
    PacketHeader::from_bytes(bytes).unwrap()
}

/// Runs a full handshake between a client manager and a server manager;
/// returns the time reached.
fn handshake(client: &mut Manager, server: &mut Manager) -> u64 {
    let (c, s) = (addr(1000), addr(2000));
    let mut m = step(1);
    client.process_event(&mut m, s, UserEvent::Connect);
    assert!(matches!(events(&m)[..], [ConnectionEvent::Created]));
    assert!(datagrams(&m).is_empty());

    let mut m = step(2);
    client.update_connections(&mut m);
    let request = datagrams(&m);
    assert_eq!(request.len(), 1);
    assert_eq!(request[0].0, s);
    assert_eq!(request[0].1.len(), 1000);
    assert_eq!(header_of(&request[0].1).packet, PacketHeaderType::ConnectionRequest);

    let mut m = step(3);
    server.process_packet(&mut m, c, &request[0].1);
    assert!(matches!(events(&m)[..], [ConnectionEvent::Created]));
    let challenge = datagrams(&m);
    assert_eq!(challenge.len(), 1);
    assert_eq!(challenge[0].1.len(), 23);
    let h = header_of(&challenge[0].1);
    assert_eq!(h.identity, header_of(&request[0].1).identity);
    assert!(matches!(h.packet, PacketHeaderType::Challenge(_)));

    let mut m = step(4);
    client.process_packet(&mut m, s, &challenge[0].1);
    assert!(m.outbox.is_empty());

    let mut m = step(5);
    client.update_connections(&mut m);
    let response = datagrams(&m);
    assert_eq!(response.len(), 1);
    assert_eq!(header_of(&response[0].1).packet, PacketHeaderType::ChallengeResponse);

    let mut m = step(6);
    server.process_packet(&mut m, c, &response[0].1);
    assert!(matches!(events(&m)[..], [ConnectionEvent::Connected]));
    let accepted = datagrams(&m);
    assert_eq!(accepted.len(), 1);
    assert_eq!(header_of(&accepted[0].1).packet, PacketHeaderType::ConnectionAccepted);
    assert_eq!(header_of(&accepted[0].1).identity, header_of(&response[0].1).identity);

    let mut m = step(7);
    client.process_packet(&mut m, s, &accepted[0].1);
    assert!(matches!(events(&m)[..], [ConnectionEvent::Connected]));
    7
}

#[test]
fn handshake_connects_both_ends_and_packets_flow() {
    let mut client = Manager::new();
    let mut server = Manager::new();
    let t = handshake(&mut client, &mut server);

    let mut m = step(t + 1);
    client.process_event(&mut m, addr(2000), UserEvent::Packet(Packet::reliable_unordered(b"hello".to_vec())));
    let sent = datagrams(&m);
    assert_eq!(sent.len(), 1);

    let mut m = step(t + 2);
    server.process_packet(&mut m, addr(1000), &sent[0].1);
    match &events(&m)[..] {
        [ConnectionEvent::Packet(p)] => assert_eq!(p.payload(), b"hello"),
        other => panic!("unexpected events {:?}", other),
    }
}

#[test]
fn corrupted_datagram_is_ignored() {
    let mut client = Manager::new();
    let mut server = Manager::new();
    let t = handshake(&mut client, &mut server);
    let mut m = step(t + 1);
    client.process_event(&mut m, addr(2000), UserEvent::Packet(Packet::unreliable(b"x".to_vec())));
    let mut bytes = datagrams(&m)[0].1.clone();
    // flip a bit of the identity and fix nothing else: the checksum no longer matches
    bytes[7] ^= 1;
    let mut m = step(t + 2);
    server.process_packet(&mut m, addr(1000), &bytes);
    assert!(m.outbox.is_empty());
}

#[test]
fn local_disconnect_is_reported_on_both_ends() {
    let mut client = Manager::new();
    let mut server = Manager::new();
    let t = handshake(&mut client, &mut server);

    let mut m = step(t + 1);
    client.process_event(&mut m, addr(2000), UserEvent::Disconnect);
    assert!(matches!(
        events(&m)[..],
        [ConnectionEvent::Disconnected(DisconnectReason::ClosedByLocalHost)]
    ));

    let mut m = step(t + 2);
    client.update_connections(&mut m);
    let bye = datagrams(&m);
    assert_eq!(bye.len(), 1);
    assert_eq!(header_of(&bye[0].1).packet, PacketHeaderType::Disconnect);

    let mut m = step(t + 3);
    server.process_packet(&mut m, addr(1000), &bye[0].1);
    assert!(matches!(
        events(&m)[..],
        [ConnectionEvent::Disconnected(DisconnectReason::ClosedByRemoteHost)]
    ));

    // the server's connection has nothing left to send and is destroyed
    let mut m = step(t + 4);
    server.update_connections(&mut m);
    assert!(matches!(
        events(&m)[..],
        [ConnectionEvent::Destroyed(DestroyReason::GracefullyDisconnected)]
    ));
}

#[test]
fn silent_connection_times_out() {
    let mut client = Manager::new();
    let mut server = Manager::new();
    let t = handshake(&mut client, &mut server);
    let mut m = step(t + 5000);
    server.update_connections(&mut m);
    let evs = events(&m);
    assert!(matches!(
        evs[..],
        [
            ConnectionEvent::Disconnected(DisconnectReason::Destroying(DestroyReason::Timeout)),
            ConnectionEvent::Destroyed(DestroyReason::Timeout)
        ]
    ));
    // the connection is gone: a payload from the client is ignored
    let mut m2 = step(t + 5001);
    client.process_event(&mut m2, addr(2000), UserEvent::Packet(Packet::unreliable(b"x".to_vec())));
    let sent = datagrams(&m2);
    let mut m3 = step(t + 5002);
    server.process_packet(&mut m3, addr(1000), &sent[0].1);
    assert!(m3.outbox.is_empty());
}

#[test]
fn connection_request_is_ignored_when_the_manager_is_full() {
    let mut server = Manager::new();
    let mut request = [0u8; 1000];
    let n = PacketHeader { identity: 42, packet: PacketHeaderType::ConnectionRequest }
        .into_bytes(&mut request)
        .unwrap();
    for port in 0..20u16 {
        let mut m = step(1);
        server.process_packet(&mut m, addr(port), &request[..n]);
        assert!(matches!(events(&m)[..], [ConnectionEvent::Created]));
    }
    let mut m = step(1);
    server.process_packet(&mut m, addr(20), &request[..n]);
    assert!(m.outbox.is_empty());
}

#[test]
fn repeated_connection_request_gets_the_same_challenge() {
    let mut conn = AddressConnection::new(addr(5), &Config::default(), 0);
    let mut m = step(1);
    conn.process_connection_request(77, &mut m, 5);
    let mut m2 = step(2);
    conn.process_connection_request(77, &mut m2, 5);
    assert_eq!(datagrams(&m), datagrams(&m2));
    let d = datagrams(&m);
    let h = header_of(&d[0].1);
    assert_eq!(h.identity, 77);
}

#[test]
fn connection_request_beyond_pending_limit_is_denied() {
    let mut conn = AddressConnection::new(addr(5), &Config::default(), 0);
    let mut m = step(1);
    conn.process_connection_request(1, &mut m, 1);
    let mut m = step(2);
    conn.process_connection_request(2, &mut m, 1);
    let d = datagrams(&m);
    let h = header_of(&d[0].1);
    assert_eq!(h.identity, 2);
    assert_eq!(h.packet, PacketHeaderType::ConnectionDenied);
}

#[test]
fn unknown_challenge_response_is_denied() {
    let mut conn = AddressConnection::new(addr(5), &Config::default(), 0);
    let mut m = step(1);
    assert!(!conn.process_challenge_response(99, &mut m, true));
    let d = datagrams(&m);
    let h = header_of(&d[0].1);
    assert_eq!(h.packet, PacketHeaderType::ConnectionDenied);
    assert_eq!(h.identity, 99);
    assert!(!conn.is_connected());
}

#[test]
fn challenge_response_without_room_is_denied() {
    let mut conn = AddressConnection::new(addr(5), &Config::default(), 0);
    let mut m = step(1);
    conn.process_connection_request(10, &mut m, 5);
    let salt = match header_of(&datagrams(&m)[0].1).packet {
        PacketHeaderType::Challenge(s) => s,
        other => panic!("unexpected {:?}", other),
    };
    let identity = ConnectionState { client_salt: 10, server_salt: salt }.get_identity();
    let mut m = step(2);
    assert!(!conn.process_challenge_response(identity, &mut m, false));
    assert_eq!(header_of(&datagrams(&m)[0].1).packet, PacketHeaderType::ConnectionDenied);
    let mut m = step(3);
    assert!(conn.process_challenge_response(identity, &mut m, true));
    assert!(conn.is_connected());
    assert_eq!(header_of(&datagrams(&m)[0].1).packet, PacketHeaderType::ConnectionAccepted);
}

#[test]
fn denied_connection_is_dropped_as_declined() {
    let mut conn = AddressConnection::new(addr(5), &Config::default(), 0);
    let mut m = step(1);
    conn.user_connect(&mut m);
    let mut m = step(2);
    conn.update(&mut m);
    let salt = header_of(&datagrams(&m)[0].1).identity;
    assert!(conn.should_drop().is_none());
    conn.process_connection_denied(salt, &mut m);
    assert!(matches!(conn.should_drop(), Some(DestroyReason::Declined)));
}

#[test]
fn connection_request_is_repeated_then_given_up() {
    let mut conn = AddressConnection::new(addr(5), &Config::default(), 0);
    let mut m = step(0);
    conn.user_connect(&mut m);
    let mut sent = 0;
    let mut time = 1;
    for _ in 0..150 {
        let mut m = step(time);
        conn.update(&mut m);
        sent += datagrams(&m).len();
        time += 201;
    }
    // a hundred sends were allowed: the first and 98 repetitions go out
    assert_eq!(sent, 99);
}

#[test]
fn handshake_datagram_waits_for_its_interval() {
    let mut conn = AddressConnection::new(addr(5), &Config::default(), 0);
    let mut m = step(10);
    conn.user_connect(&mut m);
    let mut m = step(10);
    conn.update(&mut m);
    assert!(datagrams(&m).is_empty());
    let mut m = step(11);
    conn.update(&mut m);
    assert_eq!(datagrams(&m).len(), 1);
    let mut m = step(211);
    conn.update(&mut m);
    assert!(datagrams(&m).is_empty());
    let mut m = step(212);
    conn.update(&mut m);
    assert_eq!(datagrams(&m).len(), 1);
}

#[test]
fn connection_identity_is_the_exclusive_or_of_the_salts() {
    let s = ConnectionState { client_salt: 0b1100, server_salt: 0b1010 };
    assert_eq!(s.get_identity(), 0b0110);
}

#[test]
fn user_connect_picks_a_random_salt() {
    let mut a = AddressConnection::new(addr(5), &Config::default(), 0);
    let mut b = AddressConnection::new(addr(6), &Config::default(), 0);
    let mut m = step(0);
    a.user_connect(&mut m);
    b.user_connect(&mut m);
    let mut ma = step(1);
    a.update(&mut ma);
    let mut mb = step(1);
    b.update(&mut mb);
    let ia = header_of(&datagrams(&ma)[0].1).identity;
    let ib = header_of(&datagrams(&mb)[0].1).identity;
    assert_ne!(ia, ib);
}

#[test]
fn one_connection_per_remote_address() {
    let mut server = Manager::new();
    let mut request = [0u8; 1000];
    let n = PacketHeader { identity: 1, packet: PacketHeaderType::ConnectionRequest }
        .into_bytes(&mut request)
        .unwrap();
    let mut m = step(1);
    server.process_packet(&mut m, addr(9), &request[..n]);
    assert!(matches!(events(&m)[..], [ConnectionEvent::Created]));
    let n2 = PacketHeader { identity: 2, packet: PacketHeaderType::ConnectionRequest }
        .into_bytes(&mut request)
        .unwrap();
    let mut m = step(2);
    server.process_packet(&mut m, addr(9), &request[..n2]);
    // the same connection answers: no second creation, a second challenge
    assert!(events(&m).is_empty());
    let d = datagrams(&m);
    assert_eq!(d.len(), 1);
    assert_eq!(header_of(&d[0].1).identity, 2);
    assert!(matches!(header_of(&d[0].1).packet, PacketHeaderType::Challenge(_)));
}

#[test]
fn user_connect_creates_a_connection_once() {
    let mut client = Manager::new();
    let mut m = step(1);
    client.process_event(&mut m, addr(3), UserEvent::Connect);
    assert!(matches!(events(&m)[..], [ConnectionEvent::Created]));
    let mut m = step(2);
    client.process_event(&mut m, addr(3), UserEvent::Connect);
    assert!(events(&m).is_empty());
    // a packet for an unknown address is ignored
    let mut m = step(3);
    client.process_event(&mut m, addr(4), UserEvent::Packet(Packet::unreliable(vec![1])));
    assert!(m.outbox.is_empty());
}

#[test]
fn connection_request_is_challenged_with_the_given_salt() {
    let mut conn = AddressConnection::new(addr(5), &Config::default(), 0);
    let mut m = step(1);
    conn.process_connection_request_with_salt(5, &mut m, 5, 9);
    let d = datagrams(&m);
    let h = header_of(&d[0].1);
    assert_eq!(h.identity, 5);
    assert_eq!(h.packet, PacketHeaderType::Challenge(9));
}

#[test]
fn colliding_salt_gives_the_least_free_identity() {
    let mut conn = AddressConnection::new(addr(5), &Config::default(), 0);
    let mut m = step(1);
    // identity 5 ^ 9 = 12
    conn.process_connection_request_with_salt(5, &mut m, 5, 9);
    // 6 ^ 10 = 12 is taken: the salt becomes 6 ^ 0, for identity 0
    let mut m = step(2);
    conn.process_connection_request_with_salt(6, &mut m, 5, 10);
    let d = datagrams(&m);
    assert_eq!(header_of(&d[0].1).packet, PacketHeaderType::Challenge(6));
    // 7 ^ 7 = 0 is taken too: identity 1, salt 7 ^ 1 = 6
    let mut m = step(3);
    conn.process_connection_request_with_salt(7, &mut m, 5, 7);
    let d = datagrams(&m);
    assert_eq!(header_of(&d[0].1).packet, PacketHeaderType::Challenge(6));
}

#[test]
fn connecting_with_a_given_salt_requests_with_it() {
    let mut conn = AddressConnection::new(addr(5), &Config::default(), 0);
    let mut m = step(0);
    conn.user_connect_with_salt(&mut m, 4242);
    let mut m = step(1);
    conn.update(&mut m);
    let d = datagrams(&m);
    let h = header_of(&d[0].1);
    assert_eq!(h.identity, 4242);
    assert_eq!(h.packet, PacketHeaderType::ConnectionRequest);
}
