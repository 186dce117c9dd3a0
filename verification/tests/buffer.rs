use zephyr_route::error::ErrorType;
use zephyr_route::header::{BGPHeader, PacketType};
use zephyr_route::io::{Buffer, ByteOrder};

#[test]
fn test_u8() {
    let buffer = &mut Buffer::system_order();
    buffer.write_u8(u8::default());
    buffer.reset_position();
    assert_eq!(u8::default(), buffer.read_u8().unwrap());
}

#[test]
fn test_i8() {
    let buffer = &mut Buffer::system_order();
    buffer.write_i8(i8::default());
    buffer.reset_position();
    assert_eq!(i8::default(), buffer.read_i8().unwrap());
}

#[test]
fn test_u16() {
    let buffer = &mut Buffer::system_order();
    buffer.write_u16(u16::default());
    buffer.reset_position();
    assert_eq!(u16::default(), buffer.read_u16().unwrap());
}

#[test]
fn test_i16() {
    let buffer = &mut Buffer::system_order();
    buffer.write_i16(i16::default());
    buffer.reset_position();
    assert_eq!(i16::default(), buffer.read_i16().unwrap());
}

#[test]
fn test_u32() {
    let buffer = &mut Buffer::system_order();
    buffer.write_u32(u32::default());
    buffer.reset_position();
    assert_eq!(u32::default(), buffer.read_u32().unwrap());
}

#[test]
fn test_i32() {
    let buffer = &mut Buffer::system_order();
    buffer.write_i32(i32::default());
    buffer.reset_position();
    assert_eq!(i32::default(), buffer.read_i32().unwrap());
}

#[test]
fn test_u64() {
    let buffer = &mut Buffer::system_order();
    buffer.write_u64(u64::default());
    buffer.reset_position();
    assert_eq!(u64::default(), buffer.read_u64().unwrap());
}

#[test]
fn test_i64() {
    let buffer = &mut Buffer::system_order();
    buffer.write_i64(i64::default());
    buffer.reset_position();
    assert_eq!(i64::default(), buffer.read_i64().unwrap());
}

#[test]
fn test_bgp_header() {
    let buffer = &mut Buffer::system_order();
    BGPHeader::default().write(buffer).unwrap();
    buffer.reset_position();
    assert_eq!(BGPHeader::default(), BGPHeader::read(buffer).unwrap());
}

#[test]
fn test_peek() {
    let buffer = &mut Buffer::empty(ByteOrder::BigEndian);
    let header = BGPHeader::by_type(PacketType::KeepAlive, 19);
    header.write(buffer).unwrap();
    buffer.reset_position();
    let position_before = buffer.position();
    let header_peek = BGPHeader::peek(buffer).unwrap();
    assert_eq!(buffer.position(), position_before);
    let header_read = BGPHeader::read(buffer).unwrap();
    assert_eq!(header, header_peek);
    assert_eq!(header, header_read);
}

#[test]
fn test_big_endian_integer_layout() {
    let buffer = &mut Buffer::empty(ByteOrder::BigEndian);
    buffer.write_u16(0x1234);
    buffer.write_u32(0x01020304);
    buffer.write_u64(0x0102030405060708);
    assert_eq!(
        buffer.bytes(),
        &vec![0x12, 0x34, 1, 2, 3, 4, 1, 2, 3, 4, 5, 6, 7, 8]
    );
    buffer.reset_position();
    assert_eq!(buffer.read_u16().unwrap(), 0x1234);
    assert_eq!(buffer.read_u32().unwrap(), 0x01020304);
    assert_eq!(buffer.read_u64().unwrap(), 0x0102030405060708);
}

#[test]
fn test_little_endian_integer_layout() {
    let buffer = &mut Buffer::empty(ByteOrder::LittleEndian);
    buffer.write_u16(0x1234);
    assert_eq!(buffer.bytes(), &vec![0x34, 0x12]);
    buffer.reset_position();
    assert_eq!(buffer.read_u16().unwrap(), 0x1234);
}

#[test]
fn test_signed_integers_round_trip() {
    let buffer = &mut Buffer::empty(ByteOrder::BigEndian);
    buffer.write_i8(-1);
    buffer.write_i16(-2);
    buffer.write_i32(-3);
    buffer.write_i64(-4);
    buffer.reset_position();
    assert_eq!(buffer.read_i8().unwrap(), -1);
    assert_eq!(buffer.read_i16().unwrap(), -2);
    assert_eq!(buffer.read_i32().unwrap(), -3);
    assert_eq!(buffer.read_i64().unwrap(), -4);
}

#[test]
fn test_cursor_bookkeeping() {
    let mut buffer = Buffer::from_vec(vec![1, 2, 3, 4], ByteOrder::BigEndian);
    assert_eq!(buffer.len(), 4);
    assert_eq!(buffer.remaining(), 4);
    assert!(!buffer.is_empty());
    buffer.skip(3).unwrap();
    assert_eq!(buffer.remaining(), 1);
    let err = buffer.skip(2).unwrap_err();
    assert_eq!(err.error_type(), ErrorType::OtherError);
    buffer.skip(1).unwrap();
    assert!(buffer.is_empty());
}

#[test]
fn test_reads_check_availability_first() {
    let mut buffer = Buffer::from_vec(vec![1], ByteOrder::BigEndian);
    let err = buffer.read_u16().unwrap_err();
    assert_eq!(err.error_type(), ErrorType::ReadError);
    // the failed read consumed nothing
    assert_eq!(buffer.remaining(), 1);
    assert_eq!(buffer.read_u8().unwrap(), 1);
    let err = buffer.read_u8().unwrap_err();
    assert_eq!(err.error_type(), ErrorType::ReadError);
}

#[test]
fn test_byte_helpers() {
    let mut buffer = Buffer::capacity(2, ByteOrder::BigEndian);
    assert_eq!(buffer.bytes(), &vec![0, 0]);
    buffer.write_bytes_array([9, 8]);
    buffer.write_bytes_slice(&[7, 6]);
    buffer.write_bytes_vector(&vec![5]);
    assert_eq!(buffer.bytes(), &vec![9, 8, 7, 6, 5, 0, 0]);
    buffer.reset_position();
    let head: [u8; 3] = buffer.read_bytes_array().unwrap();
    assert_eq!(head, [9, 8, 7]);
    assert_eq!(buffer.read_bytes_vector(2).unwrap(), vec![6, 5]);
}
