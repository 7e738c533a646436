use laminar::packet::{DeliveryGuarantee, OrderingGuarantee, PacketInfo, PacketType};
use laminar::packet_header::{PacketHeader, PacketHeaderType, HEADER_SIZE};

fn write_and_read<'a>(header: PacketHeader, buf: &'a mut [u8]) -> (PacketHeader<'a>, usize) {
    let written = header.into_bytes(buf).unwrap();
    (PacketHeader::from_bytes(&buf[..written]).unwrap(), written)
}

#[test]
fn write_read_packet_type_disconnect() {
    let mut buffer = [0; 1500];
    let (res, written) = write_and_read(
        PacketHeader { identity: 654818944169854, packet: PacketHeaderType::Disconnect },
        &mut buffer,
    );
    assert_eq!(written, HEADER_SIZE);
    assert_eq!(res.identity, 654818944169854);
    assert_eq!(res.packet, PacketHeaderType::Disconnect);
}

#[test]
fn write_read_packet_type_connection_request() {
    let mut buffer = [0; 1500];
    let (res, written) = write_and_read(
        PacketHeader { identity: 8945186514, packet: PacketHeaderType::ConnectionRequest },
        &mut buffer,
    );
    assert_eq!(written, 1000);
    assert_eq!(res.identity, 8945186514);
    assert_eq!(res.packet, PacketHeaderType::ConnectionRequest);
}

#[test]
fn write_read_packet_type_challenge() {
    let mut buffer = [0; 1500];
    let (res, written) = write_and_read(
        PacketHeader {
            identity: 8716546546878,
            packet: PacketHeaderType::Challenge(98548465498746),
        },
        &mut buffer,
    );
    assert_eq!(written, HEADER_SIZE + 8);
    assert_eq!(res.identity, 8716546546878);
    assert_eq!(res.packet, PacketHeaderType::Challenge(98548465498746));
}

#[test]
fn write_read_packet_type_challenge_response() {
    let mut buffer = [0; 1500];
    let (res, written) = write_and_read(
        PacketHeader { identity: 8716546546878, packet: PacketHeaderType::ChallengeResponse },
        &mut buffer,
    );
    assert_eq!(written, 1000);
    assert_eq!(res.identity, 8716546546878);
    assert_eq!(res.packet, PacketHeaderType::ChallengeResponse);
}

#[test]
fn write_read_packet_type_payload1() {
    let mut buffer = [0; 1500];
    let payload = [54, 1, 98, 94, 37, 159];
    let (res, written) = write_and_read(
        PacketHeader {
            identity: 8716546546878,
            packet: PacketHeaderType::Payload(PacketInfo {
                packet_type: PacketType::Packet,
                payload: &payload,
                delivery: DeliveryGuarantee::Unreliable,
                ordering: OrderingGuarantee::Unordered,
            }),
        },
        &mut buffer,
    );
    assert_eq!(written, HEADER_SIZE + payload.len());
    assert_eq!(res.identity, 8716546546878);
    assert_eq!(
        res.packet,
        PacketHeaderType::Payload(PacketInfo {
            packet_type: PacketType::Packet,
            payload: &payload,
            delivery: DeliveryGuarantee::Unreliable,
            ordering: OrderingGuarantee::Unordered
        })
    );
}

#[test]
fn write_read_packet_type_payload2() {
    let mut buffer = [0; 1500];
    let payload: [u8; 0] = [];
    let (res, written) = write_and_read(
        PacketHeader {
            identity: 3216576541897651987,
            packet: PacketHeaderType::Payload(PacketInfo {
                packet_type: PacketType::Fragment,
                payload: &payload,
                delivery: DeliveryGuarantee::Reliable,
                ordering: OrderingGuarantee::Sequenced(None),
            }),
        },
        &mut buffer,
    );
    assert_eq!(written, HEADER_SIZE + payload.len());
    assert_eq!(res.identity, 3216576541897651987);
    assert_eq!(
        res.packet,
        PacketHeaderType::Payload(PacketInfo {
            packet_type: PacketType::Fragment,
            payload: &payload,
            delivery: DeliveryGuarantee::Reliable,
            ordering: OrderingGuarantee::Sequenced(None)
        })
    );
}

#[test]
fn all_malformed_packets_should_be_rejected() {
    let mut buf = [0; 1000];
    // create valid packet, so we could reuse data in it, without breaking early
    let valid_packet = PacketHeader {
        identity: 3216576541897651987,
        packet: PacketHeaderType::Payload(PacketInfo {
            packet_type: PacketType::Fragment,
            payload: &[123, 54, 98, 67, 98, 4],
            delivery: DeliveryGuarantee::Reliable,
            ordering: OrderingGuarantee::Sequenced(None),
        }),
    };
    let written = valid_packet.into_bytes(&mut buf).unwrap();

    for i in 0..30 {
        match PacketHeader::from_bytes(&buf[0..i]) {
            Ok(_) if i == written => (),
            Err(_) if i != written => (),
            _ => panic!("something is wrong"),
        }
    }
}
