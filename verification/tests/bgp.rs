use zephyr_route::bgp_error::{BGPError, ErrorCode, HeaderError, OpenMessageError};
use zephyr_route::error::ErrorType;
use zephyr_route::header::{BGPHeader, PacketType};
use zephyr_route::io::{Buffer, ByteOrder};
use zephyr_route::opt_params::{Capability, OptionalParameter, AFI, SAFI};
use zephyr_route::packet::Packet;
use zephyr_route::path_attr::{
    ASPathSegment, Attribute, AttributeFlags, AttributeType, AttributeValue, Community,
    LargeCommunity, Origin,
};
use zephyr_route::prefix::RoutePrefix;

#[test]
fn test_open_packet() {
    let buffer = &mut Buffer::empty(ByteOrder::BigEndian);
    let packet = Packet::Open(
        4,
        64600,
        240,
        127127127,
        vec![OptionalParameter::Capabilities(vec![
            Capability::FourOctetASNumberSupport(11111111),
            Capability::LongLivedGracefulRestart,
            Capability::EnhancedRouteRefresh,
        ])],
    );
    packet.write(buffer).unwrap();
    buffer.reset_position();
    let packet_read = Packet::read(buffer).unwrap();
    assert_eq!(packet, packet_read);
}

#[test]
fn test_notification_packet() {
    let buffer = &mut Buffer::empty(ByteOrder::BigEndian);
    let packet = Packet::Notification(ErrorCode::MessageHeader, 1, Vec::new());
    packet.write(buffer).unwrap();
    buffer.reset_position();
    let packet_read = Packet::read(buffer).unwrap();
    assert_eq!(packet, packet_read);
}

#[test]
fn test_update_packet() {
    let buffer = &mut Buffer::empty(ByteOrder::BigEndian);
    let packet = Packet::Update(
        vec![RoutePrefix::IPv4(16, vec![255, 255])],
        vec![RoutePrefix::IPv4(8, vec![255])],
        vec![
            Attribute::new(
                AttributeType::Origin,
                AttributeFlags::none(),
                AttributeValue::Origin(Origin::IGP),
            ),
            Attribute::new(
                AttributeType::NextHop,
                AttributeFlags::optional(),
                AttributeValue::NextHop(vec![127, 168, 0, 1]),
            ),
            Attribute::new(
                AttributeType::Community,
                AttributeFlags::optional(),
                AttributeValue::Communities(vec![
                    Community::new(127127127, 1),
                    Community::new(127127128, 2),
                ]),
            ),
        ],
    );
    packet.write(buffer).unwrap();
    buffer.reset_position();
    let packet_read = Packet::read(buffer).unwrap();
    assert_eq!(packet, packet_read);
}

#[test]
fn test_keep_alive_packet() {
    let buffer = &mut Buffer::empty(ByteOrder::BigEndian);
    let packet = Packet::KeepAlive;
    packet.write(buffer).unwrap();
    buffer.reset_position();
    let packet_read = Packet::read(buffer).unwrap();
    assert_eq!(packet, packet_read);
}

#[test]
fn test_multiple_packets() {
    let packets = vec![
        Packet::Update(vec![RoutePrefix::IPv4(15, vec![255, 255])], Vec::new(), Vec::new()),
        Packet::Update(vec![RoutePrefix::IPv4(8, vec![255])], Vec::new(), Vec::new()),
    ];
    let bytes = Packet::send(&packets).unwrap();
    let packets_recv = Packet::receive(bytes).unwrap();
    assert_eq!(packets, packets_recv);
}

fn header_bytes(marker: u8, length: u16, ty: u8) -> Vec<u8> {
    let mut bytes = vec![marker; 16];
    bytes.push((length / 256) as u8);
    bytes.push((length % 256) as u8);
    bytes.push(ty);
    bytes
}

fn bad_message_length() -> ErrorType {
    ErrorType::BGPError(BGPError::header_error(HeaderError::BadMessageLength))
}

#[test]
fn test_header_rejects_length_18() {
    let buffer = &mut Buffer::from_vec(header_bytes(0xFF, 18, 4), ByteOrder::BigEndian);
    let err = BGPHeader::read(buffer).unwrap_err();
    assert_eq!(err.error_type(), bad_message_length());
}

#[test]
fn test_header_rejects_length_4097() {
    let mut bytes = header_bytes(0xFF, 4097, 4);
    bytes.resize(4097, 0);
    let buffer = &mut Buffer::from_vec(bytes, ByteOrder::BigEndian);
    let err = BGPHeader::read(buffer).unwrap_err();
    assert_eq!(err.error_type(), bad_message_length());
}

#[test]
fn test_header_accepts_keep_alive_length_19() {
    let buffer = &mut Buffer::from_vec(header_bytes(0xFF, 19, 4), ByteOrder::BigEndian);
    let header = BGPHeader::read(buffer).unwrap();
    assert_eq!(header.ty, PacketType::KeepAlive);
    assert_eq!(header.length, 19);
}

#[test]
fn test_header_rejects_bad_marker() {
    let buffer = &mut Buffer::from_vec(header_bytes(0xAA, 19, 4), ByteOrder::BigEndian);
    let err = BGPHeader::read(buffer).unwrap_err();
    assert_eq!(
        err.error_type(),
        ErrorType::BGPError(BGPError::header_error(HeaderError::ConnectionNotSynchronized))
    );
}

#[test]
fn test_header_rejects_bad_type() {
    let mut bytes = header_bytes(0xFF, 25, 9);
    bytes.resize(25, 0);
    let buffer = &mut Buffer::from_vec(bytes, ByteOrder::BigEndian);
    let err = BGPHeader::read(buffer).unwrap_err();
    assert_eq!(
        err.error_type(),
        ErrorType::BGPError(BGPError::header_error(HeaderError::BadMessageType))
    );
}

#[test]
fn test_header_rejects_truncated_message() {
    // the header declares 30 bytes but only the 19 header bytes arrived
    let buffer = &mut Buffer::from_vec(header_bytes(0xFF, 30, 1), ByteOrder::BigEndian);
    let err = BGPHeader::read(buffer).unwrap_err();
    assert_eq!(err.error_type(), bad_message_length());
}

fn open_packet_with_hold_time(hold_time: u16) -> Vec<u8> {
    let buffer = &mut Buffer::empty(ByteOrder::BigEndian);
    let packet = Packet::Open(4, 64600, hold_time, 1, Vec::new());
    packet.write(buffer).unwrap();
    buffer.reset_position();
    buffer.bytes().clone()
}

#[test]
fn test_open_rejects_hold_time_1() {
    let buffer = &mut Buffer::from_vec(open_packet_with_hold_time(1), ByteOrder::BigEndian);
    let err = Packet::read(buffer).unwrap_err();
    assert_eq!(
        err.error_type(),
        ErrorType::BGPError(BGPError::open(OpenMessageError::UnacceptableHoldTime))
    );
}

#[test]
fn test_open_rejects_hold_time_2() {
    let buffer = &mut Buffer::from_vec(open_packet_with_hold_time(2), ByteOrder::BigEndian);
    let err = Packet::read(buffer).unwrap_err();
    assert_eq!(
        err.error_type(),
        ErrorType::BGPError(BGPError::open(OpenMessageError::UnacceptableHoldTime))
    );
}

#[test]
fn test_open_accepts_hold_time_0_and_3() {
    for hold_time in [0u16, 3u16] {
        let buffer = &mut Buffer::from_vec(
            open_packet_with_hold_time(hold_time),
            ByteOrder::BigEndian,
        );
        let packet = Packet::read(buffer).unwrap();
        assert_eq!(packet, Packet::Open(4, 64600, hold_time, 1, Vec::new()));
    }
}

#[test]
fn test_unknown_capability_passthrough() {
    // an unrecognized capability id with an arbitrary payload survives
    // decode and encode byte for byte
    let wire = vec![99u8, 3, 7, 8, 9];
    let buffer = &mut Buffer::from_vec(wire.clone(), ByteOrder::BigEndian);
    let capability = Capability::read(buffer).unwrap();
    assert_eq!(capability, Capability::Unknown(99, vec![7, 8, 9]));
    let out = &mut Buffer::empty(ByteOrder::BigEndian);
    capability.write(out).unwrap();
    assert_eq!(out.bytes(), &wire);
}

#[test]
fn test_unknown_capability_with_known_id_cannot_encode() {
    let out = &mut Buffer::empty(ByteOrder::BigEndian);
    let err = Capability::Unknown(65, vec![1]).write(out).unwrap_err();
    assert_eq!(
        err.error_type(),
        ErrorType::BGPError(BGPError::open(OpenMessageError::UnsupportedOptionalParameter))
    );
}

#[test]
fn test_unknown_as_path_segment_cannot_encode() {
    let out = &mut Buffer::empty(ByteOrder::BigEndian);
    let err = ASPathSegment::Unknown(9).write(out).unwrap_err();
    assert_eq!(err.error_type(), ErrorType::WriteError);
}

#[test]
fn test_unknown_optional_parameter_id_is_read_error() {
    let buffer = &mut Buffer::from_vec(vec![5u8, 0], ByteOrder::BigEndian);
    let err = OptionalParameter::read(buffer).unwrap_err();
    assert_eq!(err.error_type(), ErrorType::ReadError);
}

#[test]
fn test_out_of_range_origin_is_other_error() {
    let err = Origin::from(3).unwrap_err();
    assert_eq!(err.error_type(), ErrorType::OtherError);
}

#[test]
fn test_unassigned_attribute_type_is_read_error() {
    let err = AttributeType::from(11).unwrap_err();
    assert_eq!(err.error_type(), ErrorType::ReadError);
    assert_eq!(AttributeType::from(32).unwrap(), AttributeType::LargeCommunity);
}

#[test]
fn test_attribute_flags_reject_low_bits() {
    assert!(AttributeFlags::from_bits(0x81).is_none());
    assert_eq!(AttributeFlags::from_bits(0x90).unwrap().bits(), 0x90);
    assert_eq!(
        AttributeFlags::optional().union(AttributeFlags::transitive()).bits(),
        0xC0
    );
}

#[test]
fn test_end_to_end_update_scenario() {
    let packet = Packet::Update(
        vec![RoutePrefix::IPv4(16, vec![255, 255])],
        vec![RoutePrefix::IPv4(8, vec![255])],
        vec![
            Attribute::new(
                AttributeType::Origin,
                AttributeFlags::none(),
                AttributeValue::Origin(Origin::IGP),
            ),
            Attribute::new(
                AttributeType::NextHop,
                AttributeFlags::none(),
                AttributeValue::NextHop(vec![127, 168, 0, 1]),
            ),
            Attribute::new(
                AttributeType::Community,
                AttributeFlags::none(),
                AttributeValue::Communities(vec![
                    Community::new(127127127, 1),
                    Community::new(127127128, 2),
                ]),
            ),
        ],
    );
    let buffer = &mut Buffer::empty(ByteOrder::BigEndian);
    packet.write(buffer).unwrap();
    // header (19), withdrawn section (2 + 3), attribute section
    // (2 + (3+1) + (3+4) + (3+12)), reachability section (2 + 2)
    assert_eq!(buffer.len(), 19 + (2 + 3) + (2 + 4 + 7 + 15) + (2 + 2));
    assert_eq!(packet.len().unwrap(), buffer.len());
    buffer.reset_position();
    let packet_read = Packet::read(buffer).unwrap();
    assert_eq!(packet, packet_read);
}

#[test]
fn test_large_community_round_trip() {
    let packet = Packet::Update(
        Vec::new(),
        Vec::new(),
        vec![Attribute::new(
            AttributeType::LargeCommunity,
            AttributeFlags::optional(),
            AttributeValue::LargeCommunities(vec![LargeCommunity::new(1, 2, 3)]),
        )],
    );
    let buffer = &mut Buffer::empty(ByteOrder::BigEndian);
    packet.write(buffer).unwrap();
    buffer.reset_position();
    assert_eq!(packet, Packet::read(buffer).unwrap());
}

#[test]
fn test_as_path_round_trip() {
    let packet = Packet::Update(
        Vec::new(),
        Vec::new(),
        vec![Attribute::new(
            AttributeType::ASPath,
            AttributeFlags::transitive(),
            AttributeValue::ASPath(ASPathSegment::ASSequence(vec![64600, 64601, 4200000000])),
        )],
    );
    let buffer = &mut Buffer::empty(ByteOrder::BigEndian);
    packet.write(buffer).unwrap();
    buffer.reset_position();
    assert_eq!(packet, Packet::read(buffer).unwrap());
}

#[test]
fn test_route_refresh_round_trip() {
    let buffer = &mut Buffer::empty(ByteOrder::BigEndian);
    Packet::RouteRefresh.write(buffer).unwrap();
    assert_eq!(buffer.len(), 19);
    buffer.reset_position();
    assert_eq!(Packet::RouteRefresh, Packet::read(buffer).unwrap());
}

#[test]
fn test_empty_update_round_trip() {
    let packet = Packet::Update(Vec::new(), Vec::new(), Vec::new());
    let buffer = &mut Buffer::empty(ByteOrder::BigEndian);
    packet.write(buffer).unwrap();
    // three empty length-prefixed sections after the 19-byte header
    assert_eq!(buffer.len(), 25);
    buffer.reset_position();
    assert_eq!(packet, Packet::read(buffer).unwrap());
}

#[test]
fn test_notification_with_data_round_trip() {
    // an unknown error code outside the assigned range survives the trip
    let packet = Packet::Notification(ErrorCode::Unknown(200), 7, vec![1, 2, 3]);
    let buffer = &mut Buffer::empty(ByteOrder::BigEndian);
    packet.write(buffer).unwrap();
    assert_eq!(buffer.len(), 24);
    buffer.reset_position();
    assert_eq!(packet, Packet::read(buffer).unwrap());
}

#[test]
fn test_multiprotocol_capability_round_trip() {
    let packet = Packet::Open(
        4,
        64600,
        180,
        42,
        vec![OptionalParameter::Capabilities(vec![
            Capability::MultiProtocolExtensions(AFI::IPv6, SAFI::Unicast),
            Capability::RouteRefresh,
        ])],
    );
    let buffer = &mut Buffer::empty(ByteOrder::BigEndian);
    packet.write(buffer).unwrap();
    buffer.reset_position();
    assert_eq!(packet, Packet::read(buffer).unwrap());
}

#[test]
fn test_receive_rejects_leftover_bytes() {
    let mut bytes = Packet::send(&vec![Packet::KeepAlive]).unwrap();
    bytes.push(0xAB);
    let err = Packet::receive(bytes).unwrap_err();
    assert_eq!(err.error_type(), ErrorType::ReadError);
}
