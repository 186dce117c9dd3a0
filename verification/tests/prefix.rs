use zephyr_route::io::{Buffer, ByteOrder};
use zephyr_route::prefix::RoutePrefix;

#[test]
fn test_ipv4_0() {
    let prefix1 = RoutePrefix::IPv4(0, vec![]);
    let buffer = &mut Buffer::empty(ByteOrder::BigEndian);
    prefix1.write(buffer).unwrap();
    buffer.reset_position();
    let prefix2 = RoutePrefix::read(buffer).unwrap();
    assert_eq!(prefix1, prefix2);
}

#[test]
fn test_ipv4_1() {
    let prefix1 = RoutePrefix::IPv4(1, vec![128]);
    let buffer = &mut Buffer::empty(ByteOrder::BigEndian);
    prefix1.write(buffer).unwrap();
    buffer.reset_position();
    let prefix2 = RoutePrefix::read(buffer).unwrap();
    assert_eq!(prefix1, prefix2);
}

#[test]
fn test_ipv4_2() {
    let prefix1 = RoutePrefix::IPv4(2, vec![192]);
    let buffer = &mut Buffer::empty(ByteOrder::BigEndian);
    prefix1.write(buffer).unwrap();
    buffer.reset_position();
    let prefix2 = RoutePrefix::read(buffer).unwrap();
    assert_eq!(prefix1, prefix2);
}

#[test]
fn test_ipv4_3() {
    let prefix1 = RoutePrefix::IPv4(3, vec![224]);
    let buffer = &mut Buffer::empty(ByteOrder::BigEndian);
    prefix1.write(buffer).unwrap();
    buffer.reset_position();
    let prefix2 = RoutePrefix::read(buffer).unwrap();
    assert_eq!(prefix1, prefix2);
}

#[test]
fn test_ipv4_4() {
    let prefix1 = RoutePrefix::IPv4(4, vec![240]);
    let buffer = &mut Buffer::empty(ByteOrder::BigEndian);
    prefix1.write(buffer).unwrap();
    buffer.reset_position();
    let prefix2 = RoutePrefix::read(buffer).unwrap();
    assert_eq!(prefix1, prefix2);
}

#[test]
fn test_ipv4_5() {
    let prefix1 = RoutePrefix::IPv4(5, vec![248]);
    let buffer = &mut Buffer::empty(ByteOrder::BigEndian);
    prefix1.write(buffer).unwrap();
    buffer.reset_position();
    let prefix2 = RoutePrefix::read(buffer).unwrap();
    assert_eq!(prefix1, prefix2);
}

#[test]
fn test_ipv4_6() {
    let prefix1 = RoutePrefix::IPv4(6, vec![252]);
    let buffer = &mut Buffer::empty(ByteOrder::BigEndian);
    prefix1.write(buffer).unwrap();
    buffer.reset_position();
    let prefix2 = RoutePrefix::read(buffer).unwrap();
    assert_eq!(prefix1, prefix2);
}

#[test]
fn test_ipv4_7() {
    let prefix1 = RoutePrefix::IPv4(7, vec![254]);
    let buffer = &mut Buffer::empty(ByteOrder::BigEndian);
    prefix1.write(buffer).unwrap();
    buffer.reset_position();
    let prefix2 = RoutePrefix::read(buffer).unwrap();
    assert_eq!(prefix1, prefix2);
}

#[test]
fn test_ipv4_8() {
    let prefix1 = RoutePrefix::IPv4(8, vec![255]);
    let buffer = &mut Buffer::empty(ByteOrder::BigEndian);
    prefix1.write(buffer).unwrap();
    buffer.reset_position();
    let prefix2 = RoutePrefix::read(buffer).unwrap();
    assert_eq!(prefix1, prefix2);
}

#[test]
fn test_ipv4_9() {
    let prefix1 = RoutePrefix::IPv4(9, vec![255, 128]);
    let buffer = &mut Buffer::empty(ByteOrder::BigEndian);
    prefix1.write(buffer).unwrap();
    buffer.reset_position();
    let prefix2 = RoutePrefix::read(buffer).unwrap();
    assert_eq!(prefix1, prefix2);
}

#[test]
fn test_ipv4_10() {
    let prefix1 = RoutePrefix::IPv4(10, vec![255, 192]);
    let buffer = &mut Buffer::empty(ByteOrder::BigEndian);
    prefix1.write(buffer).unwrap();
    buffer.reset_position();
    let prefix2 = RoutePrefix::read(buffer).unwrap();
    assert_eq!(prefix1, prefix2);
}

#[test]
fn test_ipv4_11() {
    let prefix1 = RoutePrefix::IPv4(11, vec![255, 224]);
    let buffer = &mut Buffer::empty(ByteOrder::BigEndian);
    prefix1.write(buffer).unwrap();
    buffer.reset_position();
    let prefix2 = RoutePrefix::read(buffer).unwrap();
    assert_eq!(prefix1, prefix2);
}

#[test]
fn test_ipv4_12() {
    let prefix1 = RoutePrefix::IPv4(12, vec![255, 240]);
    let buffer = &mut Buffer::empty(ByteOrder::BigEndian);
    prefix1.write(buffer).unwrap();
    buffer.reset_position();
    let prefix2 = RoutePrefix::read(buffer).unwrap();
    assert_eq!(prefix1, prefix2);
}

#[test]
fn test_ipv4_13() {
    let prefix1 = RoutePrefix::IPv4(13, vec![255, 248]);
    let buffer = &mut Buffer::empty(ByteOrder::BigEndian);
    prefix1.write(buffer).unwrap();
    buffer.reset_position();
    let prefix2 = RoutePrefix::read(buffer).unwrap();
    assert_eq!(prefix1, prefix2);
}

#[test]
fn test_ipv4_14() {
    let prefix1 = RoutePrefix::IPv4(14, vec![255, 252]);
    let buffer = &mut Buffer::empty(ByteOrder::BigEndian);
    prefix1.write(buffer).unwrap();
    buffer.reset_position();
    let prefix2 = RoutePrefix::read(buffer).unwrap();
    assert_eq!(prefix1, prefix2);
}

#[test]
fn test_ipv4_15() {
    let prefix1 = RoutePrefix::IPv4(15, vec![255, 254]);
    let buffer = &mut Buffer::empty(ByteOrder::BigEndian);
    prefix1.write(buffer).unwrap();
    buffer.reset_position();
    let prefix2 = RoutePrefix::read(buffer).unwrap();
    assert_eq!(prefix1, prefix2);
}

#[test]
fn test_ipv4_16() {
    let prefix1 = RoutePrefix::IPv4(16, vec![255, 255]);
    let buffer = &mut Buffer::empty(ByteOrder::BigEndian);
    prefix1.write(buffer).unwrap();
    buffer.reset_position();
    let prefix2 = RoutePrefix::read(buffer).unwrap();
    assert_eq!(prefix1, prefix2);
}

#[test]
fn test_ipv4_17() {
    let prefix1 = RoutePrefix::IPv4(17, vec![255, 255, 128]);
    let buffer = &mut Buffer::empty(ByteOrder::BigEndian);
    prefix1.write(buffer).unwrap();
    buffer.reset_position();
    let prefix2 = RoutePrefix::read(buffer).unwrap();
    assert_eq!(prefix1, prefix2);
}

#[test]
fn test_ipv4_18() {
    let prefix1 = RoutePrefix::IPv4(18, vec![255, 255, 192]);
    let buffer = &mut Buffer::empty(ByteOrder::BigEndian);
    prefix1.write(buffer).unwrap();
    buffer.reset_position();
    let prefix2 = RoutePrefix::read(buffer).unwrap();
    assert_eq!(prefix1, prefix2);
}

#[test]
fn test_ipv4_19() {
    let prefix1 = RoutePrefix::IPv4(19, vec![255, 255, 224]);
    let buffer = &mut Buffer::empty(ByteOrder::BigEndian);
    prefix1.write(buffer).unwrap();
    buffer.reset_position();
    let prefix2 = RoutePrefix::read(buffer).unwrap();
    assert_eq!(prefix1, prefix2);
}

#[test]
fn test_ipv4_20() {
    let prefix1 = RoutePrefix::IPv4(20, vec![255, 255, 240]);
    let buffer = &mut Buffer::empty(ByteOrder::BigEndian);
    prefix1.write(buffer).unwrap();
    buffer.reset_position();
    let prefix2 = RoutePrefix::read(buffer).unwrap();
    assert_eq!(prefix1, prefix2);
}

#[test]
fn test_ipv4_21() {
    let prefix1 = RoutePrefix::IPv4(21, vec![255, 255, 248]);
    let buffer = &mut Buffer::empty(ByteOrder::BigEndian);
    prefix1.write(buffer).unwrap();
    buffer.reset_position();
    let prefix2 = RoutePrefix::read(buffer).unwrap();
    assert_eq!(prefix1, prefix2);
}

#[test]
fn test_ipv4_22() {
    let prefix1 = RoutePrefix::IPv4(22, vec![255, 255, 252]);
    let buffer = &mut Buffer::empty(ByteOrder::BigEndian);
    prefix1.write(buffer).unwrap();
    buffer.reset_position();
    let prefix2 = RoutePrefix::read(buffer).unwrap();
    assert_eq!(prefix1, prefix2);
}

#[test]
fn test_ipv4_23() {
    let prefix1 = RoutePrefix::IPv4(23, vec![255, 255, 254]);
    let buffer = &mut Buffer::empty(ByteOrder::BigEndian);
    prefix1.write(buffer).unwrap();
    buffer.reset_position();
    let prefix2 = RoutePrefix::read(buffer).unwrap();
    assert_eq!(prefix1, prefix2);
}

#[test]
fn test_ipv4_24() {
    let prefix1 = RoutePrefix::IPv4(24, vec![255, 255, 255]);
    let buffer = &mut Buffer::empty(ByteOrder::BigEndian);
    prefix1.write(buffer).unwrap();
    buffer.reset_position();
    let prefix2 = RoutePrefix::read(buffer).unwrap();
    assert_eq!(prefix1, prefix2);
}

#[test]
fn test_ipv4_25() {
    let prefix1 = RoutePrefix::IPv4(25, vec![255, 255, 255, 128]);
    let buffer = &mut Buffer::empty(ByteOrder::BigEndian);
    prefix1.write(buffer).unwrap();
    buffer.reset_position();
    let prefix2 = RoutePrefix::read(buffer).unwrap();
    assert_eq!(prefix1, prefix2);
}

#[test]
fn test_ipv4_26() {
    let prefix1 = RoutePrefix::IPv4(26, vec![255, 255, 255, 192]);
    let buffer = &mut Buffer::empty(ByteOrder::BigEndian);
    prefix1.write(buffer).unwrap();
    buffer.reset_position();
    let prefix2 = RoutePrefix::read(buffer).unwrap();
    assert_eq!(prefix1, prefix2);
}

#[test]
fn test_ipv4_27() {
    let prefix1 = RoutePrefix::IPv4(27, vec![255, 255, 255, 224]);
    let buffer = &mut Buffer::empty(ByteOrder::BigEndian);
    prefix1.write(buffer).unwrap();
    buffer.reset_position();
    let prefix2 = RoutePrefix::read(buffer).unwrap();
    assert_eq!(prefix1, prefix2);
}

#[test]
fn test_ipv4_28() {
    let prefix1 = RoutePrefix::IPv4(28, vec![255, 255, 255, 240]);
    let buffer = &mut Buffer::empty(ByteOrder::BigEndian);
    prefix1.write(buffer).unwrap();
    buffer.reset_position();
    let prefix2 = RoutePrefix::read(buffer).unwrap();
    assert_eq!(prefix1, prefix2);
}

#[test]
fn test_ipv4_29() {
    let prefix1 = RoutePrefix::IPv4(29, vec![255, 255, 255, 248]);
    let buffer = &mut Buffer::empty(ByteOrder::BigEndian);
    prefix1.write(buffer).unwrap();
    buffer.reset_position();
    let prefix2 = RoutePrefix::read(buffer).unwrap();
    assert_eq!(prefix1, prefix2);
}

#[test]
fn test_ipv4_30() {
    let prefix1 = RoutePrefix::IPv4(30, vec![255, 255, 255, 252]);
    let buffer = &mut Buffer::empty(ByteOrder::BigEndian);
    prefix1.write(buffer).unwrap();
    buffer.reset_position();
    let prefix2 = RoutePrefix::read(buffer).unwrap();
    assert_eq!(prefix1, prefix2);
}

#[test]
fn test_ipv4_31() {
    let prefix1 = RoutePrefix::IPv4(31, vec![255, 255, 255, 254]);
    let buffer = &mut Buffer::empty(ByteOrder::BigEndian);
    prefix1.write(buffer).unwrap();
    buffer.reset_position();
    let prefix2 = RoutePrefix::read(buffer).unwrap();
    assert_eq!(prefix1, prefix2);
}

#[test]
fn test_ipv4_32() {
    let prefix1 = RoutePrefix::IPv4(32, vec![255, 255, 255, 255]);
    let buffer = &mut Buffer::empty(ByteOrder::BigEndian);
    prefix1.write(buffer).unwrap();
    buffer.reset_position();
    let prefix2 = RoutePrefix::read(buffer).unwrap();
    assert_eq!(prefix1, prefix2);
}
