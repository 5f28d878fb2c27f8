use font_toolkit::font_data::{FontData, ReadError};
use font_toolkit::head::{Head, HeadMarker};
use font_toolkit::scalars::{Fixed, LongDateTime, MajorMinor};

fn head_bytes() -> Vec<u8> {
    let mut bytes = Vec::new();
    bytes.extend_from_slice(&[0, 1, 0, 0]); // version 1.0
    bytes.extend_from_slice(&[0, 2, 0x80, 0]); // revision 2.5
    bytes.extend_from_slice(&0xdead_beefu32.to_be_bytes());
    bytes.extend_from_slice(&0x5f0f_3cf5u32.to_be_bytes());
    bytes.extend_from_slice(&0x000bu16.to_be_bytes());
    bytes.extend_from_slice(&2048u16.to_be_bytes());
    bytes.extend_from_slice(&3_562_553_439i64.to_be_bytes());
    bytes.extend_from_slice(&(-5i64).to_be_bytes());
    bytes.extend_from_slice(&(-100i16).to_be_bytes());
    bytes.extend_from_slice(&(-200i16).to_be_bytes());
    bytes.extend_from_slice(&1000i16.to_be_bytes());
    bytes.extend_from_slice(&i16::MAX.to_be_bytes());
    bytes.extend_from_slice(&0x0003u16.to_be_bytes());
    bytes.extend_from_slice(&8u16.to_be_bytes());
    bytes.extend_from_slice(&2i16.to_be_bytes());
    bytes.extend_from_slice(&1i16.to_be_bytes());
    bytes.extend_from_slice(&i16::MIN.to_be_bytes());
    bytes
}

#[test]
fn head_fields() {
    let bytes = head_bytes();
    assert_eq!(bytes.len(), 54);
    let head = Head::read(FontData::new(&bytes)).unwrap();
    assert_eq!(head.version(), MajorMinor::new(1, 0));
    assert_eq!(head.font_revision(), Fixed::from_bits(0x0002_8000));
    assert_eq!(head.checksum_adjustment(), 0xdead_beef);
    assert_eq!(head.magic_number(), 0x5f0f_3cf5);
    assert_eq!(head.flags(), 0x000b);
    assert_eq!(head.units_per_em(), 2048);
    assert_eq!(head.created(), LongDateTime::new(3_562_553_439));
    assert_eq!(head.modified().as_secs(), -5);
    assert_eq!(head.x_min(), -100);
    assert_eq!(head.y_min(), -200);
    assert_eq!(head.x_max(), 1000);
    assert_eq!(head.y_max(), i16::MAX);
    assert_eq!(head.mac_style(), 3);
    assert_eq!(head.lowest_rec_ppem(), 8);
    assert_eq!(head.font_direction_hint(), 2);
    assert_eq!(head.index_to_loc_format(), 1);
    assert_eq!(head.glyph_data_format(), i16::MIN);
}

#[test]
fn head_too_short() {
    let bytes = head_bytes();
    assert_eq!(
        Head::read(FontData::new(&bytes[..53])).err(),
        Some(ReadError::OutOfBounds)
    );
}

#[test]
fn head_byte_ranges() {
    let marker = HeadMarker {};
    assert_eq!(marker.version_byte_range(), 0..4);
    assert_eq!(marker.created_byte_range(), 20..28);
    assert_eq!(marker.glyph_data_format_byte_range(), 52..54);
}

#[test]
fn font_data_reads() {
    let bytes = [0x80, 0x01, 0xff, 0xfe, 0x7f, 0xff, 0xff, 0xff, 0x00];
    let data = FontData::new(&bytes);
    assert_eq!(data.len(), 9);
    assert_eq!(data.read_u8(0), Ok(0x80));
    assert_eq!(data.read_i8(0), Ok(-128));
    assert_eq!(data.read_u16(0), Ok(0x8001));
    assert_eq!(data.read_i16(0), Ok(-32767));
    assert_eq!(data.read_i16(2), Ok(-2));
    assert_eq!(data.read_u32(0), Ok(0x8001_fffe));
    assert_eq!(data.read_i32(0), Ok(0x8001_fffeu32 as i32));
    assert_eq!(data.read_i32(4), Ok(i32::MAX));
    assert_eq!(data.read_i64(0), Ok(0x8001_fffe_7fff_ffffu64 as i64));
    assert_eq!(data.read_i64(1), Ok(0x01ff_fe7f_ffff_ff00));
    assert_eq!(data.read_u8(9), Err(ReadError::OutOfBounds));
    assert_eq!(data.read_u16(8), Err(ReadError::OutOfBounds));
    assert_eq!(data.read_u32(6), Err(ReadError::OutOfBounds));
    assert_eq!(data.read_i64(2), Err(ReadError::OutOfBounds));
    assert_eq!(data.read_u16(usize::MAX), Err(ReadError::OutOfBounds));
    assert_eq!(data.read_array(2, 4), Ok(&[0xff, 0xfe][..]));
    assert_eq!(data.read_array(4, 2), Err(ReadError::OutOfBounds));
    assert_eq!(data.read_array(8, 10), Err(ReadError::OutOfBounds));
}
