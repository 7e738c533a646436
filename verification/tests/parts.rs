use laminar::activity_system::ActivitySystem;
use laminar::arranging::{OrderingSystem, SequencingSystem};
use laminar::config::Config;
use laminar::events::DestroyReason;
use laminar::fragmentation::Fragmentation;
use laminar::headers::{
    read_acknowledge_header, read_arranging_header, read_fragment, read_standard_header,
    write_acked_header, write_arranging_header, write_fragment_header, write_standard_header,
};
use laminar::keyed_vec::KeyedVec;
use laminar::packet::{DeliveryGuarantee, OrderingGuarantee, PacketType};
use laminar::protocol_version::ProtocolVersion;
use laminar::sequence_buffer::{sequence_greater_than, sequence_less_than, SequenceBuffer};

#[test]
fn default_config_values() {
    let c = Config::default();
    assert_eq!(c.idle_connection_timeout, 5000);
    assert_eq!(c.max_packets_in_flight, 512);
    assert_eq!(c.receive_buffer_max_size, 1500);
    assert_eq!(c.fragment_size, 1450);
    assert_eq!(c.max_fragments, 16);
    assert_eq!(c.fragment_reassembly_buffer_size, 64);
}

#[test]
fn activity_keeps_a_connection_alive() {
    let mut a = ActivitySystem::new(100, 0);
    assert!(a.is_active(99));
    assert!(!a.is_active(100));
    a.received(150);
    assert!(a.is_active(249));
    assert!(!a.is_active(250));
    a.sent(300);
    assert!(a.is_active(399));
    // a time before the last activity counts as no time at all
    assert!(a.is_active(0));
}

#[test]
fn sequence_numbers_wrap_around() {
    assert!(sequence_greater_than(1, 0));
    assert!(sequence_greater_than(0, 65535));
    assert!(!sequence_greater_than(0, 1));
    assert!(sequence_less_than(65535, 0));
    assert!(!sequence_greater_than(5, 5));
    assert!(sequence_greater_than(32768, 0));
    assert!(!sequence_greater_than(32769, 0));
}

#[test]
fn sequence_buffer_entries_live_in_their_slots() {
    let mut b: SequenceBuffer<u32> = SequenceBuffer::with_capacity(4);
    assert!(b.insert(0, 10));
    assert!(b.insert(1, 11));
    assert!(b.contains(0));
    assert!(b.insert(5, 15));
    assert_eq!(b.sequence_num(), 6);
    // the entries for 2 to 5 were cleared and 5 took the slot of 1; the entry
    // for 0 is kept in the slot of 4
    assert!(b.contains(0));
    assert!(!b.contains(1));
    assert!(b.contains(5));
    // too old for the ring
    assert!(!b.insert(1, 99));
    assert_eq!(b.remove(5), Some(15));
    assert!(!b.contains(5));
}

#[test]
fn keyed_vec_inserts_replaces_and_removes() {
    let mut k: KeyedVec<&str> = KeyedVec::new();
    k.insert(3, "a");
    k.insert(4, "b");
    k.insert(3, "c");
    assert_eq!(k.len(), 2);
    assert!(k.contains_key(4));
    assert_eq!(k.remove(3), Some("c"));
    assert_eq!(k.remove(3), None);
    assert_eq!(k.len(), 1);
}

#[test]
fn protocol_version_checksum_is_the_x25_crc_of_the_version() {
    assert_eq!(ProtocolVersion::get_version(), "laminar-0.1.0");
    let crc = crc::crc16::checksum_x25(b"laminar-0.1.0");
    assert_eq!(ProtocolVersion::get_crc16(), crc);
    assert!(ProtocolVersion::valid_version(crc));
    assert!(!ProtocolVersion::valid_version(crc.wrapping_add(1)));
}

#[test]
fn headers_read_back_what_was_written() {
    let mut out = Vec::new();
    write_standard_header(&mut out, PacketType::Fragment, DeliveryGuarantee::Reliable, OrderingGuarantee::Ordered(Some(4)));
    write_fragment_header(&mut out, 513, 2, 3);
    write_acked_header(&mut out, 0x0102, 0x0304, 0x0506_0708);
    write_arranging_header(&mut out, 0xabcd, 9);
    assert_eq!(out.len(), 5 + 4 + 8 + 3);
    // big endian on the wire
    assert_eq!(&out[9..13], &[0x01, 0x02, 0x03, 0x04]);
    let h = read_standard_header(&out).unwrap();
    assert_eq!(h.packet_type(), PacketType::Fragment);
    assert!(h.is_fragment());
    assert_eq!(h.delivery_guarantee(), DeliveryGuarantee::Reliable);
    // the stream id is not part of the standard header
    assert_eq!(h.ordering_guarantee(), OrderingGuarantee::Ordered(None));
    let a = read_acknowledge_header(&out, 9).unwrap();
    assert_eq!(a.sequence(), 0x0102);
    assert_eq!(a.ack_seq(), 0x0304);
    assert_eq!(a.ack_field(), 0x0506_0708);
    let r = read_arranging_header(&out, 17).unwrap();
    assert_eq!(r.arranging_id, 0xabcd);
    assert_eq!(r.stream_id, 9);
    assert!(read_arranging_header(&out, 18).is_err());
    let mut frag = Vec::new();
    write_standard_header(&mut frag, PacketType::Fragment, DeliveryGuarantee::Reliable, OrderingGuarantee::Unordered);
    write_fragment_header(&mut frag, 7, 1, 2);
    frag.extend_from_slice(b"data");
    let (fh, ack) = read_fragment(&frag, 5).unwrap();
    assert_eq!((fh.sequence, fh.id, fh.num_fragments), (7, 1, 2));
    assert!(ack.is_none());
}

#[test]
fn fragments_needed_rounds_up() {
    assert_eq!(Fragmentation::fragments_needed(0, 10), 0);
    assert_eq!(Fragmentation::fragments_needed(10, 10), 1);
    assert_eq!(Fragmentation::fragments_needed(11, 10), 2);
    assert_eq!(Fragmentation::fragments_needed(3000, 1450), 3);
}

#[test]
fn payload_is_split_into_fragments_of_the_configured_size() {
    let config = Config::default();
    let payload = vec![3u8; 3000];
    let parts = Fragmentation::spit_into_fragments(&payload, &config).unwrap();
    let sizes: Vec<usize> = parts.iter().map(|p| p.len()).collect();
    assert_eq!(sizes, vec![1450, 1450, 100]);
}

#[test]
fn sequencing_stream_hands_out_increasing_identifiers() {
    let mut s = SequencingSystem::new();
    assert_eq!(s.new_item_identifier(1), 0);
    assert_eq!(s.new_item_identifier(1), 1);
    assert_eq!(s.new_item_identifier(2), 0);
    // newer first: the older one is dropped
    assert_eq!(s.arrange(1, 5, "five"), Some("five"));
    assert_eq!(s.arrange(1, 4, "four"), None);
}

#[test]
fn ordering_stream_waits_for_the_missing_item() {
    let mut o: OrderingSystem<u8> = OrderingSystem::new();
    assert!(o.arrange(0, 1, 11).is_empty());
    assert_eq!(o.arrange(0, 0, 10), vec![10, 11]);
    assert_eq!(o.arrange(0, 2, 12), vec![12]);
}

#[test]
fn destroy_reason_copy_keeps_its_content() {
    let r = DestroyReason::ConnectionError("boom".to_string());
    match r.duplicate() {
        DestroyReason::ConnectionError(s) => assert_eq!(s, "boom"),
        other => panic!("unexpected {:?}", other),
    }
    assert!(matches!(DestroyReason::Timeout.duplicate(), DestroyReason::Timeout));
}
