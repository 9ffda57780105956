use snippy::decompress::tag::{parse_tag_byte, read, Tag, TagByte, TagError};

#[test]
fn parse_literal_value() {
    assert_eq!(parse_tag_byte(0x00), TagByte::LiteralLengthValue(1));
    assert_eq!(parse_tag_byte(59 << 2), TagByte::LiteralLengthValue(60));
}

#[test]
fn parse_literal_num_bytes() {
    assert_eq!(parse_tag_byte(60 << 2), TagByte::LiteralLengthNumBytes(1));
    assert_eq!(parse_tag_byte(61 << 2), TagByte::LiteralLengthNumBytes(2));
    assert_eq!(parse_tag_byte(62 << 2), TagByte::LiteralLengthNumBytes(3));
    assert_eq!(parse_tag_byte(63 << 2), TagByte::LiteralLengthNumBytes(4));
}

#[test]
fn parse_copy_one_byte_offset() {
    // high bits 0b101, length 4 + 0b011
    assert_eq!(
        parse_tag_byte(0b101_011_01),
        TagByte::Copy { len: 7, offset_high_bits: 0b101 << 8, offset_num_bytes: 1 }
    );
}

#[test]
fn parse_copy_two_and_four_byte_offsets() {
    assert_eq!(
        parse_tag_byte((63 << 2) | 2),
        TagByte::Copy { len: 64, offset_high_bits: 0, offset_num_bytes: 2 }
    );
    assert_eq!(
        parse_tag_byte(3),
        TagByte::Copy { len: 1, offset_high_bits: 0, offset_num_bytes: 4 }
    );
}

#[test]
fn read_short_literal() {
    assert_eq!(read(&[12, 1, 2, 3, 4]), Ok((Tag::Literal { len: 4 }, 1)));
}

#[test]
fn read_long_literals() {
    assert_eq!(read(&[60 << 2, 60]), Ok((Tag::Literal { len: 61 }, 2)));
    assert_eq!(read(&[61 << 2, 0x00, 0x01]), Ok((Tag::Literal { len: 257 }, 3)));
    assert_eq!(read(&[62 << 2, 0x00, 0x00, 0x01]), Ok((Tag::Literal { len: 65537 }, 4)));
    assert_eq!(
        read(&[63 << 2, 0xfe, 0xff, 0xff, 0xff]),
        Ok((Tag::Literal { len: 0xffff_ffff }, 5))
    );
}

#[test]
fn read_literal_len_overflow() {
    assert_eq!(read(&[63 << 2, 0xff, 0xff, 0xff, 0xff]), Err(TagError::LiteralLenOverflow));
}

#[test]
fn read_copies() {
    assert_eq!(read(&[0b101_011_01, 0x34]), Ok((Tag::Copy { offset: 0x534, len: 7 }, 2)));
    assert_eq!(read(&[(11 << 2) | 2, 0x34, 0x12]), Ok((Tag::Copy { offset: 0x1234, len: 12 }, 3)));
    assert_eq!(
        read(&[(3 << 2) | 3, 0x78, 0x56, 0x34, 0x12]),
        Ok((Tag::Copy { offset: 0x1234_5678, len: 4 }, 5))
    );
}

#[test]
fn read_eof() {
    assert_eq!(read(&[]), Err(TagError::UnexpectedEof));
    assert_eq!(read(&[61 << 2, 0x00]), Err(TagError::UnexpectedEof));
    assert_eq!(read(&[2, 0x01]), Err(TagError::UnexpectedEof));
    assert_eq!(read(&[1]), Err(TagError::UnexpectedEof));
}
