use snippy::decompress::tag::{read, Tag, TagError};
use snippy::decompress::DecompressError;
use snippy::varint::VarintError;
use snippy::{compress, decompress};

fn pseudo_random(n: usize, seed: u32) -> Vec<u8> {
    let mut x = seed;
    (0..n)
        .map(|_| {
            x = x.wrapping_mul(1_103_515_245).wrapping_add(12345);
            (x >> 16) as u8
        })
        .collect()
}

fn roundtrip(input: &[u8]) {
    let compressed = compress(input);
    assert_eq!(decompress(&compressed), Ok(input.to_vec()));
}

#[test]
fn compress_empty() {
    assert_eq!(compress(b""), vec![0]);
    roundtrip(b"");
}

#[test]
fn compress_single_byte() {
    assert_eq!(compress(b"a"), vec![1, 0, b'a']);
}

#[test]
fn compress_repeated_pattern() {
    // a literal "abcd", then a copy of 12 bytes from 4 back
    assert_eq!(
        compress(b"abcdabcdabcdabcd"),
        vec![16, 12, b'a', b'b', b'c', b'd', (11 << 2) | 2, 4, 0]
    );
    roundtrip(b"abcdabcdabcdabcd");
}

#[test]
fn compress_short_copy() {
    // a literal "abcde", then a copy of 5 bytes from 5 back with a one-byte offset
    assert_eq!(
        compress(b"abcdeabcde"),
        vec![10, 16, b'a', b'b', b'c', b'd', b'e', (1 << 2) | 1, 5]
    );
}

#[test]
fn compress_long_literal() {
    let input = pseudo_random(100, 7);
    let compressed = compress(&input);
    assert_eq!(&compressed[..3], &[100, 60 << 2, 99]);
    assert_eq!(&compressed[3..], &input[..]);
    roundtrip(&input);
}

#[test]
fn roundtrip_small_inputs() {
    for n in 0..200 {
        roundtrip(&pseudo_random(n, n as u32));
        roundtrip(&vec![b'z'; n]);
    }
}

#[test]
fn roundtrip_text() {
    let text = b"It was the best of times, it was the worst of times, it was the age of \
        wisdom, it was the age of foolishness, it was the epoch of belief, it was the \
        epoch of incredulity, it was the season of Light, it was the season of Darkness";
    roundtrip(text);
    assert!(compress(text).len() < text.len());
}

#[test]
fn roundtrip_several_blocks() {
    // blocks are compressed in parallel; a wrong order would not decompress
    let mut input = Vec::new();
    for k in 0..5u32 {
        let block: Vec<u8> = pseudo_random(40_000, k).iter().map(|b| b % (k as u8 + 2)).collect();
        input.extend_from_slice(&block);
        input.extend_from_slice(&pseudo_random(31_000, 100 + k));
    }
    roundtrip(&input);
    let compressed = compress(&input);
    assert!(compressed.len() < input.len());
}

#[test]
fn roundtrip_exact_block_sizes() {
    for &n in [65535usize, 65536, 65537, 131072].iter() {
        roundtrip(&pseudo_random(n, 3));
        roundtrip(&vec![0u8; n]);
    }
}

#[test]
fn decompress_trailing_bytes_ignored() {
    assert_eq!(decompress(&[1, 0, b'a', 0xff, 0xff]), Ok(vec![b'a']));
}

#[test]
fn decompress_overlapping_copy() {
    // "ab" then a copy of 7 bytes from 2 back
    assert_eq!(
        decompress(&[9, 4, b'a', b'b', ((7 - 4) << 2) | 1, 2]),
        Ok(b"ababababa".to_vec())
    );
}

#[test]
fn decompress_err_total_len() {
    assert_eq!(decompress(&[]), Err(DecompressError::TotalLen(VarintError::UnexpectedEof)));
    assert_eq!(
        decompress(&[0x80, 0x80, 0x80, 0x80, 0x10]),
        Err(DecompressError::TotalLen(VarintError::Overflow))
    );
}

#[test]
fn decompress_err_tag() {
    assert_eq!(decompress(&[5]), Err(DecompressError::Tag(TagError::UnexpectedEof)));
    assert_eq!(
        decompress(&[5, 63 << 2, 0xff, 0xff, 0xff, 0xff]),
        Err(DecompressError::Tag(TagError::LiteralLenOverflow))
    );
}

#[test]
fn decompress_err_literal_too_long() {
    assert_eq!(decompress(&[1, 4, b'a', b'b']), Err(DecompressError::LiteralTooLong));
}

#[test]
fn decompress_err_literal_eof() {
    assert_eq!(decompress(&[2, 4, b'a']), Err(DecompressError::LiteralEof));
}

#[test]
fn decompress_err_copy_offset_zero() {
    assert_eq!(decompress(&[5, 0, b'a', 1, 0]), Err(DecompressError::CopyOffsetZero));
}

#[test]
fn decompress_err_copy_offset_too_far() {
    assert_eq!(decompress(&[5, 0, b'a', 1, 2]), Err(DecompressError::CopyOffsetTooFar));
}

#[test]
fn decompress_err_copy_too_long() {
    assert_eq!(decompress(&[4, 0, b'a', 1, 1]), Err(DecompressError::CopyTooLong));
}

#[test]
fn decompress_stops_at_total() {
    // the header says 3; the literal of 3 ends it and the copy after it is never read
    assert_eq!(decompress(&[3, 8, b'x', b'y', b'z', 1, 0]), Ok(b"xyz".to_vec()));
}

fn max_compressed_len(n: usize) -> usize {
    5 + n + n / 64
}

#[test]
fn compressed_size_within_bound() {
    for &n in [0usize, 1, 60, 61, 64, 200, 4096, 65536, 70000].iter() {
        let input = pseudo_random(n, 11);
        assert!(compress(&input).len() <= max_compressed_len(n));
    }
}

#[test]
fn compressed_size_bound_with_short_matches() {
    // 61 fresh bytes, then 4 bytes repeated from far back, over and over: every
    // literal needs a two-byte tag and every copy a three-byte one
    let far = pseudo_random(4096, 5);
    let mut input = far.clone();
    let mut k = 0;
    while input.len() < 60_000 {
        input.extend_from_slice(&pseudo_random(61, 1000 + k));
        let at = (k as usize * 4) % 2000;
        input.extend_from_slice(&far[at..at + 4]);
        k += 1;
    }
    let compressed = compress(&input);
    assert!(compressed.len() <= max_compressed_len(input.len()));
    assert_eq!(decompress(&compressed), Ok(input));
}

#[test]
fn emitted_tags_read_back() {
    let input = pseudo_random(61, 21);
    let compressed = compress(&input);
    assert_eq!(read(&compressed[1..]), Ok((Tag::Literal { len: 61 }, 2)));

    let compressed = compress(b"abcdabcdabcdabcd");
    assert_eq!(read(&compressed[1..]), Ok((Tag::Literal { len: 4 }, 1)));
    assert_eq!(read(&compressed[6..]), Ok((Tag::Copy { offset: 4, len: 12 }, 3)));

    let compressed = compress(b"abcdeabcde");
    assert_eq!(read(&compressed[7..]), Ok((Tag::Copy { offset: 5, len: 5 }, 2)));
}
