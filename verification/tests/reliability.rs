use laminar::config::Config;
use laminar::error::{ErrorKind, FragmentErrorKind, PacketErrorKind};
use laminar::packet::{DeliveryGuarantee, OrderingGuarantee, Packet, PacketInfo, PacketType};
use laminar::reliability_system::ReliabilitySystem;

fn info(payload: &[u8], delivery: DeliveryGuarantee, ordering: OrderingGuarantee) -> PacketInfo<'_> {
    PacketInfo { packet_type: PacketType::Packet, payload, delivery, ordering }
}

fn send(sys: &mut ReliabilitySystem, payload: &[u8], d: DeliveryGuarantee, o: OrderingGuarantee) -> Vec<Vec<u8>> {
    sys.process_outgoing(info(payload, d, o), None, 0).unwrap()
}

fn receive(sys: &mut ReliabilitySystem, datagram: &[u8]) -> Vec<(Packet, PacketType)> {
    sys.process_incoming(datagram, 0).unwrap()
}

#[test]
fn new_system_has_nothing_in_flight() {
    let sys = ReliabilitySystem::new(&Config::default());
    assert_eq!(sys.packets_in_flight(), 0);
}

#[test]
fn unreliable_unordered_packet_is_delivered_as_sent() {
    let config = Config::default();
    let mut a = ReliabilitySystem::new(&config);
    let mut b = ReliabilitySystem::new(&config);
    let out = send(&mut a, b"hello", DeliveryGuarantee::Unreliable, OrderingGuarantee::Unordered);
    assert_eq!(out.len(), 1);
    // standard header (5 bytes) then the payload
    assert_eq!(out[0].len(), 5 + 5);
    assert_eq!(&out[0][5..], b"hello");
    assert_eq!(a.packets_in_flight(), 0);
    let got = receive(&mut b, &out[0]);
    assert_eq!(got.len(), 1);
    assert_eq!(got[0].0.payload(), b"hello");
    assert_eq!(got[0].0.delivery_guarantee(), DeliveryGuarantee::Unreliable);
    assert_eq!(got[0].0.order_guarantee(), OrderingGuarantee::Unordered);
    assert_eq!(got[0].1, PacketType::Packet);
}

#[test]
fn reliable_packet_is_in_flight_until_acknowledged() {
    let config = Config::default();
    let mut a = ReliabilitySystem::new(&config);
    let mut b = ReliabilitySystem::new(&config);
    let out = send(&mut a, b"ping", DeliveryGuarantee::Reliable, OrderingGuarantee::Unordered);
    assert_eq!(out.len(), 1);
    // standard header, acknowledgement header (8 bytes), payload
    assert_eq!(out[0].len(), 5 + 8 + 4);
    assert_eq!(a.packets_in_flight(), 1);
    let got = receive(&mut b, &out[0]);
    assert_eq!(got.len(), 1);
    assert_eq!(got[0].0.payload(), b"ping");
    assert_eq!(got[0].0.delivery_guarantee(), DeliveryGuarantee::Reliable);
    // the answer carries the acknowledgement of `ping`
    let back = send(&mut b, b"pong", DeliveryGuarantee::Reliable, OrderingGuarantee::Unordered);
    let got = receive(&mut a, &back[0]);
    assert_eq!(got[0].0.payload(), b"pong");
    assert_eq!(a.packets_in_flight(), 0);
    assert_eq!(b.packets_in_flight(), 1);
}

#[test]
fn unreliable_packet_larger_than_receive_buffer_is_refused() {
    let config = Config::default();
    let mut a = ReliabilitySystem::new(&config);
    let payload = vec![7u8; 1501];
    let r = a.process_outgoing(info(&payload, DeliveryGuarantee::Unreliable, OrderingGuarantee::Unordered), None, 0);
    assert_eq!(r, Err(ErrorKind::PacketError(PacketErrorKind::ExceededMaxPacketSize)));
    let payload = vec![7u8; 1500];
    let r = a.process_outgoing(info(&payload, DeliveryGuarantee::Unreliable, OrderingGuarantee::Unordered), None, 0);
    assert_eq!(r.unwrap().len(), 1);
}

#[test]
fn large_reliable_packet_is_fragmented_and_reassembled() {
    let config = Config::default();
    let mut a = ReliabilitySystem::new(&config);
    let mut b = ReliabilitySystem::new(&config);
    let payload: Vec<u8> = (0..3000u32).map(|i| (i % 251) as u8).collect();
    let out = send(&mut a, &payload, DeliveryGuarantee::Reliable, OrderingGuarantee::Unordered);
    // 1450 + 1450 + 100
    assert_eq!(out.len(), 3);
    assert_eq!(a.packets_in_flight(), 1);
    assert!(receive(&mut b, &out[0]).is_empty());
    assert!(receive(&mut b, &out[1]).is_empty());
    let got = receive(&mut b, &out[2]);
    assert_eq!(got.len(), 1);
    assert_eq!(got[0].0.payload(), &payload[..]);
    assert_eq!(got[0].1, PacketType::Packet);
}

#[test]
fn fragments_are_reassembled_in_the_order_of_arrival() {
    let config = Config::default();
    let mut a = ReliabilitySystem::new(&config);
    let mut b = ReliabilitySystem::new(&config);
    let payload: Vec<u8> = (0..2000u32).map(|i| (i % 13) as u8).collect();
    let out = send(&mut a, &payload, DeliveryGuarantee::Reliable, OrderingGuarantee::Unordered);
    assert_eq!(out.len(), 2);
    assert!(receive(&mut b, &out[1]).is_empty());
    let got = receive(&mut b, &out[0]);
    assert_eq!(got.len(), 1);
    // fragment data is appended in the order of arrival
    let mut expected = payload[1450..].to_vec();
    expected.extend_from_slice(&payload[..1450]);
    assert_eq!(got[0].0.payload(), &expected[..]);
}

#[test]
fn too_many_fragments_are_refused() {
    let config = Config::default();
    let mut a = ReliabilitySystem::new(&config);
    let payload = vec![1u8; 1450 * 16 + 1];
    let r = a.process_outgoing(info(&payload, DeliveryGuarantee::Reliable, OrderingGuarantee::Unordered), None, 0);
    assert_eq!(r, Err(ErrorKind::FragmentError(FragmentErrorKind::ExceededMaxFragments)));
    assert_eq!(a.packets_in_flight(), 0);
}

#[test]
fn only_user_packets_can_be_fragmented() {
    let config = Config::default();
    let mut a = ReliabilitySystem::new(&config);
    let payload = vec![1u8; 2000];
    let heartbeat = PacketInfo {
        packet_type: PacketType::Heartbeat,
        payload: &payload,
        delivery: DeliveryGuarantee::Reliable,
        ordering: OrderingGuarantee::Unordered,
    };
    let r = a.process_outgoing(heartbeat, None, 0);
    assert_eq!(r, Err(ErrorKind::PacketError(PacketErrorKind::PacketCannotBeFragmented)));
}

#[test]
fn unreadable_datagram_is_refused() {
    let config = Config::default();
    let mut b = ReliabilitySystem::new(&config);
    assert!(b.process_incoming(&[], 0).is_err());
    assert!(b.process_incoming(&[1, 2], 0).is_err());
}

#[test]
fn older_sequenced_packet_is_dropped() {
    let config = Config::default();
    let mut a = ReliabilitySystem::new(&config);
    let mut b = ReliabilitySystem::new(&config);
    let first = send(&mut a, b"first", DeliveryGuarantee::Unreliable, OrderingGuarantee::Sequenced(Some(3)));
    let second = send(&mut a, b"second", DeliveryGuarantee::Unreliable, OrderingGuarantee::Sequenced(Some(3)));
    let got = receive(&mut b, &second[0]);
    assert_eq!(got.len(), 1);
    assert_eq!(got[0].0.payload(), b"second");
    assert_eq!(got[0].0.order_guarantee(), OrderingGuarantee::Sequenced(Some(3)));
    assert!(receive(&mut b, &first[0]).is_empty());
}

#[test]
fn ordered_packets_are_delivered_in_order() {
    let config = Config::default();
    let mut a = ReliabilitySystem::new(&config);
    let mut b = ReliabilitySystem::new(&config);
    let first = send(&mut a, b"one", DeliveryGuarantee::Reliable, OrderingGuarantee::Ordered(None));
    let second = send(&mut a, b"two", DeliveryGuarantee::Reliable, OrderingGuarantee::Ordered(None));
    let third = send(&mut a, b"three", DeliveryGuarantee::Reliable, OrderingGuarantee::Ordered(None));
    assert!(receive(&mut b, &third[0]).is_empty());
    assert!(receive(&mut b, &second[0]).is_empty());
    let got = receive(&mut b, &first[0]);
    let payloads: Vec<&[u8]> = got.iter().map(|(p, _)| p.payload()).collect();
    assert_eq!(payloads, vec![&b"one"[..], &b"two"[..], &b"three"[..]]);
    assert!(got.iter().all(|(p, _)| p.order_guarantee() == OrderingGuarantee::Ordered(Some(255))));
}

#[test]
fn packets_far_behind_the_acknowledgement_are_dropped() {
    let config = Config::default();
    let mut a = ReliabilitySystem::new(&config);
    let mut b = ReliabilitySystem::new(&config);
    let lost = send(&mut a, b"lost", DeliveryGuarantee::Reliable, OrderingGuarantee::Unordered);
    assert_eq!(lost.len(), 1);
    let mut last = Vec::new();
    for _ in 0..40 {
        last = send(&mut a, b"x", DeliveryGuarantee::Reliable, OrderingGuarantee::Unordered);
    }
    receive(&mut b, &last[0]);
    let back = send(&mut b, b"ack", DeliveryGuarantee::Reliable, OrderingGuarantee::Unordered);
    receive(&mut a, &back[0]);
    let before = a.packets_in_flight();
    let dropped = a.gather_dropped_packets();
    assert_eq!(a.packets_in_flight() as usize, before as usize - dropped.len());
    assert_eq!(dropped.len(), 8);
    assert!(dropped.iter().any(|p| p.payload == b"lost".to_vec()));
    assert!(dropped.iter().all(|p| p.packet_type == PacketType::Packet));
    assert!(a.gather_dropped_packets().is_empty());
}

#[test]
fn reset_forgets_packets_in_flight() {
    let config = Config::default();
    let mut a = ReliabilitySystem::new(&config);
    send(&mut a, b"x", DeliveryGuarantee::Reliable, OrderingGuarantee::Unordered);
    assert_eq!(a.packets_in_flight(), 1);
    a.reset();
    assert_eq!(a.packets_in_flight(), 0);
}

#[test]
fn only_reliable_sends_are_in_flight() {
    let config = Config::default();
    let mut a = ReliabilitySystem::new(&config);
    send(&mut a, b"u1", DeliveryGuarantee::Unreliable, OrderingGuarantee::Unordered);
    send(&mut a, b"r1", DeliveryGuarantee::Reliable, OrderingGuarantee::Unordered);
    send(&mut a, b"u2", DeliveryGuarantee::Unreliable, OrderingGuarantee::Sequenced(None));
    let big = vec![9u8; 4000];
    let frags = send(&mut a, &big, DeliveryGuarantee::Reliable, OrderingGuarantee::Unordered);
    assert_eq!(frags.len(), 3);
    send(&mut a, b"r3", DeliveryGuarantee::Reliable, OrderingGuarantee::Ordered(Some(1)));
    assert_eq!(a.packets_in_flight(), 3);
}

#[test]
fn many_fragments_of_a_large_configuration_are_reassembled() {
    let mut config = Config::default();
    config.max_fragments = 64;
    let mut a = ReliabilitySystem::new(&config);
    let mut b = ReliabilitySystem::new(&config);
    let payload: Vec<u8> = (0..65000u32).map(|i| (i % 241) as u8).collect();
    let out = send(&mut a, &payload, DeliveryGuarantee::Reliable, OrderingGuarantee::Unordered);
    assert_eq!(out.len(), 45);
    for f in &out[..44] {
        assert!(receive(&mut b, f).is_empty());
    }
    let got = receive(&mut b, &out[44]);
    assert_eq!(got.len(), 1);
    assert_eq!(got[0].0.payload(), &payload[..]);
    assert_eq!(got[0].0.delivery_guarantee(), DeliveryGuarantee::Reliable);
    assert_eq!(got[0].1, PacketType::Packet);
}

#[test]
fn reliable_payload_longer_than_sixteen_bits_is_refused() {
    let config = Config::default();
    let mut a = ReliabilitySystem::new(&config);
    let payload = vec![0u8; 65536];
    let r = a.process_outgoing(info(&payload, DeliveryGuarantee::Reliable, OrderingGuarantee::Unordered), None, 0);
    assert_eq!(r, Err(ErrorKind::PacketError(PacketErrorKind::ExceededMaxPacketSize)));
    assert_eq!(a.packets_in_flight(), 0);
}
