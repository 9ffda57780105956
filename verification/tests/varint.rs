use snippy::varint::{read, VarintError};

#[test]
fn read_zero() {
    assert_eq!(read(&[0]), Ok((0, 1)));
}

#[test]
fn read_64() {
    assert_eq!(read(&[0x40]), Ok((64, 1)));
}

#[test]
fn read_three_bytes() {
    assert_eq!(read(&[0xfe, 0xff, 0x7f]), Ok((0x1f_fffe, 3)));
}

#[test]
fn read_u32_max() {
    assert_eq!(read(&[0xff, 0xff, 0xff, 0xff, 0xf]), Ok((0xffff_ffff, 5)));
}

#[test]
fn read_leaves_trailing_bytes() {
    assert_eq!(read(&[0x81, 0x01, 0xaa, 0xbb]), Ok((129, 2)));
}

#[test]
fn read_err_overflow() {
    assert_eq!(read(&[0x80, 0x80, 0x80, 0x80, 0x10]), Err(VarintError::Overflow));
}

#[test]
fn read_err_too_many_bytes() {
    assert_eq!(read(&[0x80, 0x80, 0x80, 0x80, 0x80]), Err(VarintError::Overflow));
}

#[test]
fn read_err_empty() {
    assert_eq!(read(&[]), Err(VarintError::UnexpectedEof));
}

#[test]
fn read_err_eof_inside() {
    assert_eq!(read(&[0x80, 0x80]), Err(VarintError::UnexpectedEof));
}

#[test]
fn read_accepts_padded_encoding() {
    assert_eq!(read(&[0x80, 0x00]), Ok((0, 2)));
}

fn written(x: u32) -> Vec<u8> {
    let mut buf = vec![];
    snippy::varint::write(x, &mut buf);
    buf
}

#[test]
fn write_zero() {
    assert_eq!(written(0), vec![0]);
}

#[test]
fn write_64() {
    assert_eq!(written(64), vec![0x40]);
}

#[test]
fn write_three_bytes() {
    assert_eq!(written(0x1f_fffe), vec![0xfe, 0xff, 0x7f]);
}

#[test]
fn write_u32_max() {
    assert_eq!(written(0xffff_ffff), vec![0xff, 0xff, 0xff, 0xff, 0xf]);
}

#[test]
fn write_appends() {
    let mut buf = vec![7, 8];
    snippy::varint::write(300, &mut buf);
    assert_eq!(buf, vec![7, 8, 0xac, 0x02]);
}

#[test]
fn read_write_roundtrip_values() {
    let values = [
        0u32, 1, 127, 128, 255, 256, 16383, 16384, 2_097_151, 2_097_152, 268_435_455,
        268_435_456, 0xffff_fffe, 0xffff_ffff,
    ];
    for &x in values.iter() {
        let mut buf = written(x);
        let len = buf.len();
        buf.extend_from_slice(&[0x99, 0x01]);
        assert_eq!(read(&buf), Ok((x, len)));
    }
}
