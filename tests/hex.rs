use delog::hex::{Align, HexStr, Separator, Unsigned, U1};

struct U2;
impl Unsigned for U2 {
    const N: usize = 2;
}

struct U3;
impl Unsigned for U3 {
    const N: usize = 3;
}

struct U4;
impl Unsigned for U4 {
    const N: usize = 4;
}

struct Space;
impl Separator for Space {
    const SEPARATOR: &'static str = " ";
}

struct Nothing;
impl Separator for Nothing {
    const SEPARATOR: &'static str = "";
}

struct Pipe;
impl Separator for Pipe {
    const SEPARATOR: &'static str = "|";
}

fn text(v: Vec<u8>) -> String {
    String::from_utf8(v).unwrap()
}

#[test]
fn test_hex_str() {
    let buf = [1u8, 2, 3, 0xA1, 0xB7, 0xFF, 0x3];
    assert_eq!(format!("'{}'", text(HexStr::<U1, Space>(&buf).render(true, None, None))), "'01 02 03 A1 B7 FF 03'");
    assert_eq!(format!("'{}'", text(HexStr::<U2, Space>(&buf).render(true, None, None))), "'0102 03A1 B7FF 03'");
    assert_eq!(format!("'{}'", text(HexStr::<U2, Space>(&buf).render(false, None, None))), "'0102 03a1 b7ff 03'");
    assert_eq!(format!("'{}'", text(HexStr::<U4, Space>(&buf).render(true, None, None))), "'010203A1 B7FF03'");
    assert_eq!(format!("'{}'", text(HexStr::<U4, Space>(&buf[..]).render(true, None, None))), "'010203A1 B7FF03'");
    assert_eq!(format!("'{}'", text(HexStr::<U4, Space>(&buf).render(true, None, None))), "'010203A1 B7FF03'");
    assert_eq!(format!("'{}'", text(HexStr::<U4, Space>(&buf).render(true, None, None))), "'010203A1 B7FF03'");
}

#[test]
fn test_custom_hex_str() {
    let buf = [1u8, 2, 3, 0xA1, 0xB7, 0xFF, 0x3];
    assert_eq!(format!("'{}'", text(HexStr::<U3, Space>(&buf).render(true, None, None))), "'010203 A1B7FF 03'");
}

#[test]
fn hex_without_separator() {
    let data = [7u8, 0xA1, 255, 0xC7];
    assert_eq!(text(HexStr::<U1, Nothing>(&data).render(true, None, None)), "07A1FFC7");
    assert_eq!(text(HexStr::<U1, Nothing>(&data).render(false, None, None)), "07a1ffc7");
}

#[test]
fn hex_shortened_by_width() {
    let data = [7u8, 0xA1, 255, 0xC7];
    assert_eq!(text(HexStr::<U1, Space>(&data).render(false, Some(2), None)), "07..c7");
    assert_eq!(text(HexStr::<U1, Space>(&data).render(false, Some(3), Some(Align::Left))), "07 a1 ff..");
    assert_eq!(text(HexStr::<U1, Space>(&data).render(false, Some(3), Some(Align::Right))), "..a1 ff c7");
    assert_eq!(text(HexStr::<U1, Pipe>(&data).render(true, Some(3), Some(Align::Left))), "07|A1|FF..");
    assert_eq!(text(HexStr::<U1, Space>(&data).render(true, Some(4), None)), "07 A1 FF C7");
    assert_eq!(text(HexStr::<U1, Space>(&data).render(true, Some(0), None)), "..");
}

#[test]
fn hex_blocks_and_empty() {
    let data = [7u8, 0xA1, 255, 0xC7];
    assert_eq!(text(HexStr::<U2, Space>(&data).render(true, None, None)), "07A1 FFC7");
    assert_eq!(text(HexStr::<U2, Pipe>(&data).render(true, None, None)), "07A1|FFC7");
    assert_eq!(text(HexStr::<U3, Space>(&data).render(true, None, None)), "07A1FF C7");
    let empty: [u8; 0] = [];
    assert_eq!(text(HexStr::<U1, Space>(&empty).render(true, None, None)), "");
}
