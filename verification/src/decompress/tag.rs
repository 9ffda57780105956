//! The tags that start each element of a compressed stream.

use vstd::prelude::*;

verus! {

/// One element of a compressed stream, as its tag describes it.
#[allow(inconsistent_fields)]
#[derive(Debug, Clone, Copy, PartialEq, Eq, Structural)]
pub enum Tag {
    /// `len` raw bytes follow the tag.
    Literal { len: u32 },
    /// Repeat `len` bytes starting `offset` bytes back in the output.
    Copy { offset: u32, len: u8 },
}

/// Why a tag could not be read.
#[derive(Debug, Clone, Copy, PartialEq, Eq, Structural)]
pub enum TagError {
    /// The input ended inside the tag.
    UnexpectedEof,
    /// The literal length would be 2^32, which no stream can hold.
    LiteralLenOverflow,
}

/// What the first byte of a tag says.
#[derive(Debug, Clone, Copy, PartialEq, Eq, Structural)]
pub enum TagByte {
    /// A literal whose length (1..=60) is given by the byte itself.
    LiteralLengthValue(u8),
    /// A literal whose length minus one follows in this many (1..=4) bytes.
    LiteralLengthNumBytes(u8),
    /// A copy of `len` bytes; its offset is `offset_high_bits` plus the
    /// little-endian number in the next `offset_num_bytes` bytes.
    Copy { len: u8, offset_high_bits: u32, offset_num_bytes: u8 },
}

/// The meaning of a tag byte: its low two bits give the kind of element, and the
/// upper six bits the length (and, for short copies, the top bits of the offset).
pub open spec fn spec_parse_tag_byte(b: u8) -> TagByte {
    let upper = b / 4;
    if b % 4 == 0 {
        if upper >= 60 {
            TagByte::LiteralLengthNumBytes((upper - 59) as u8)
        } else {
            TagByte::LiteralLengthValue((upper + 1) as u8)
        }
    } else if b % 4 == 1 {
        TagByte::Copy {
            len: (upper % 8 + 4) as u8,
            offset_high_bits: ((b / 32) * 256) as u32,
            offset_num_bytes: 1,
        }
    } else if b % 4 == 2 {
        TagByte::Copy { len: (upper + 1) as u8, offset_high_bits: 0, offset_num_bytes: 2 }
    } else {
        TagByte::Copy { len: (upper + 1) as u8, offset_high_bits: 0, offset_num_bytes: 4 }
    }
}

/// The little-endian number that the bytes of `s` hold.
pub open spec fn le_value(s: Seq<u8>) -> nat
    decreases s.len(),
{
    if s.len() == 0 {
        0
    } else {
        s[0] as nat + 256 * le_value(s.drop_first())
    }
}

/// `256` to the power `k`.
pub open spec fn pow256(k: nat) -> nat
    decreases k,
{
    if k == 0 {
        1
    } else {
        256 * pow256((k - 1) as nat)
    }
}

/// What reading a tag at the start of `s` gives: the tag and the number of bytes
/// it takes, or the reason it fails.
pub open spec fn spec_read_tag(s: Seq<u8>) -> Result<(Tag, nat), TagError> {
    if s.len() == 0 {
        Err(TagError::UnexpectedEof)
    } else {
        match spec_parse_tag_byte(s[0]) {
            TagByte::LiteralLengthValue(len) => Ok((Tag::Literal { len: len as u32 }, 1)),
            TagByte::LiteralLengthNumBytes(n) => {
                if s.len() < 1 + n {
                    Err(TagError::UnexpectedEof)
                } else {
                    let v = le_value(s.subrange(1, 1 + n));
                    if v + 1 > u32::MAX {
                        Err(TagError::LiteralLenOverflow)
                    } else {
                        Ok((Tag::Literal { len: (v + 1) as u32 }, (1 + n) as nat))
                    }
                }
            },
            TagByte::Copy { len, offset_high_bits, offset_num_bytes } => {
                if s.len() < 1 + offset_num_bytes {
                    Err(TagError::UnexpectedEof)
                } else {
                    let v = le_value(s.subrange(1, 1 + offset_num_bytes));
                    Ok(
                        (
                            Tag::Copy { offset: (v + offset_high_bits) as u32, len },
                            (1 + offset_num_bytes) as nat,
                        ),
                    )
                }
            },
        }
    }
}

/// Splits a tag byte into what it says.
pub fn parse_tag_byte(tag_byte: u8) -> (r: TagByte)
    ensures
        r == spec_parse_tag_byte(tag_byte),
{
    assert(tag_byte & 0x3 == tag_byte % 4 && tag_byte >> 2 == tag_byte / 4 && (tag_byte >> 2) & 0x7
        == (tag_byte / 4) % 8 && tag_byte >> 5 == tag_byte / 32) by (bit_vector);
    match tag_byte & 0x3 {
        0 => match tag_byte >> 2 {
            60 => TagByte::LiteralLengthNumBytes(1),
            61 => TagByte::LiteralLengthNumBytes(2),
            62 => TagByte::LiteralLengthNumBytes(3),
            63 => TagByte::LiteralLengthNumBytes(4),
            n => TagByte::LiteralLengthValue(n + 1),
        },
        1 => {
            let high = (tag_byte >> 5) as u32;
            assert(high << 8u32 == high * 256) by (bit_vector)
                requires
                    high < 8,
            ;
            TagByte::Copy {
                // middle 3 bits
                len: ((tag_byte >> 2) & 0x7) + 4,
                // high 3 bits
                offset_high_bits: high << 8u32,
                offset_num_bytes: 1,
            }
        },
        2 => TagByte::Copy { len: (tag_byte >> 2) + 1, offset_high_bits: 0, offset_num_bytes: 2 },
        _ => TagByte::Copy { len: (tag_byte >> 2) + 1, offset_high_bits: 0, offset_num_bytes: 4 },
    }
}

/// The number held by `k` bytes is below `256^k`.
proof fn lemma_le_value_bound(s: Seq<u8>)
    ensures
        le_value(s) < pow256(s.len()),
    decreases s.len(),
{
    if s.len() > 0 {
        lemma_le_value_bound(s.drop_first());
    }
}

/// Reads the little-endian number held by the (at most four) bytes of `bytes`.
pub(crate) fn le_u32(bytes: &[u8]) -> (v: u32)
    requires
        bytes.len() <= 4,
    ensures
        v as nat == le_value(bytes@),
{
    assert(pow256(4) == 0x1_0000_0000) by {
        reveal_with_fuel(pow256, 5);
    }
    let n = bytes.len();
    let mut k = n;
    let mut v: u32 = 0;
    assert(bytes@.skip(n as int) =~= Seq::<u8>::empty());
    while k > 0
        invariant
            n == bytes.len(),
            n <= 4,
            k <= n,
            v as nat == le_value(bytes@.skip(k as int)),
            pow256(4) == 0x1_0000_0000,
        decreases k,
    {
        k = k - 1;
        let ghost tail = bytes@.skip(k as int);
        assert(tail.drop_first() =~= bytes@.skip(k + 1));
        proof {
            lemma_le_value_bound(tail);
            lemma_pow256_mono(tail.len(), 4);
        }
        v = v * 256 + bytes[k] as u32;
    }
    assert(bytes@.skip(0) =~= bytes@);
    v
}

/// Powers of 256 grow with the exponent.
proof fn lemma_pow256_mono(a: nat, b: nat)
    requires
        a <= b,
    ensures
        pow256(a) <= pow256(b),
    decreases b,
{
    if a < b {
        lemma_pow256_mono(a, (b - 1) as nat);
    }
}

/// Reads the tag at the start of `r`, giving the tag and the number of bytes it takes.
pub fn read(r: &[u8]) -> (res: Result<(Tag, usize), TagError>)
    ensures
        match res {
            Ok((t, n)) => spec_read_tag(r@) == Ok::<(Tag, nat), TagError>((t, n as nat)),
            Err(e) => spec_read_tag(r@) == Err::<(Tag, nat), TagError>(e),
        },
{
    if r.len() < 1 {
        return Err(TagError::UnexpectedEof);
    }
    let tag_byte = r[0];
    match parse_tag_byte(tag_byte) {
        TagByte::LiteralLengthValue(len) => Ok((Tag::Literal { len: len as u32 }, 1)),
        TagByte::LiteralLengthNumBytes(n) => {
            let n = n as usize;
            if r.len() < 1 + n {
                return Err(TagError::UnexpectedEof);
            }
            let v = le_u32(vstd::slice::slice_subrange(r, 1, 1 + n));
            match v.checked_add(1) {
                Some(len) => Ok((Tag::Literal { len }, 1 + n)),
                None => Err(TagError::LiteralLenOverflow),
            }
        },
        TagByte::Copy { len, offset_high_bits, offset_num_bytes } => {
            let n = offset_num_bytes as usize;
            if r.len() < 1 + n {
                return Err(TagError::UnexpectedEof);
            }
            let v = le_u32(vstd::slice::slice_subrange(r, 1, 1 + n));
            if n == 1 {
                proof {
                    lemma_le_value_bound(r@.subrange(1, 2));
                    reveal_with_fuel(pow256, 2);
                }
                assert(v | offset_high_bits == v + offset_high_bits) by (bit_vector)
                    requires
                        v < 256,
                        offset_high_bits == (offset_high_bits / 256) * 256,
                        offset_high_bits < 2048,
                ;
            } else {
                assert(v | 0 == v) by (bit_vector);
            }
            let offset = v | offset_high_bits;
            Ok((Tag::Copy { offset, len }, 1 + n))
        },
    }
}

/// A tag that reads successfully takes at least one byte and no more than there are,
/// and always stands for at least one byte of output.
pub proof fn lemma_read_tag_size(s: Seq<u8>)
    ensures
        spec_read_tag(s) matches Ok((t, n)) ==> {
            &&& 1 <= n <= s.len()
            &&& t matches Tag::Literal { len } ==> len >= 1
            &&& t matches Tag::Copy { len, .. } ==> len >= 1
        },
{
}

/// A tag that reads successfully reads the same with more bytes after it.
pub proof fn lemma_read_tag_prefix(s: Seq<u8>, rest: Seq<u8>)
    requires
        spec_read_tag(s) is Ok,
    ensures
        spec_read_tag(s + rest) == spec_read_tag(s),
{
    let t = s + rest;
    assert(t[0] == s[0]);
    match spec_parse_tag_byte(s[0]) {
        TagByte::LiteralLengthValue(_) => {},
        TagByte::LiteralLengthNumBytes(n) => {
            assert(t.subrange(1, 1 + n) =~= s.subrange(1, 1 + n));
        },
        TagByte::Copy { offset_num_bytes, .. } => {
            assert(t.subrange(1, 1 + offset_num_bytes) =~= s.subrange(1, 1 + offset_num_bytes));
        },
    }
}

/// A tag byte with low bits `00` and upper six bits `m` below 60 is a literal of
/// `m + 1` bytes, read from that one byte.
pub proof fn lemma_read_literal_short(s: Seq<u8>)
    requires
        s.len() >= 1,
        s[0] % 4 == 0,
        s[0] / 4 < 60,
    ensures
        spec_read_tag(s) == Ok::<(Tag, nat), TagError>(
            (Tag::Literal { len: (s[0] / 4 + 1) as u32 }, 1),
        ),
{
}

/// A tag byte with low bits `00` and upper six bits `59 + k` (`k` from 1 to 4) is a
/// literal whose length minus one follows in the next `k` bytes, least significant
/// first; a length of 2^32 is refused, and so is a tag cut short.
pub proof fn lemma_read_literal_long(s: Seq<u8>)
    requires
        s.len() >= 1,
        s[0] % 4 == 0,
        s[0] / 4 >= 60,
    ensures
        s.len() < s[0] / 4 - 58 ==> spec_read_tag(s) == Err::<(Tag, nat), TagError>(
            TagError::UnexpectedEof,
        ),
        s[0] / 4 == 60 && s.len() >= 2 ==> spec_read_tag(s) == Ok::<(Tag, nat), TagError>(
            (Tag::Literal { len: (s[1] + 1) as u32 }, 2),
        ),
        s[0] / 4 == 61 && s.len() >= 3 ==> spec_read_tag(s) == Ok::<(Tag, nat), TagError>(
            (Tag::Literal { len: (s[1] + 256 * s[2] + 1) as u32 }, 3),
        ),
        s[0] / 4 == 62 && s.len() >= 4 ==> spec_read_tag(s) == Ok::<(Tag, nat), TagError>(
            (Tag::Literal { len: (s[1] + 256 * s[2] + 65536 * s[3] + 1) as u32 }, 4),
        ),
        s[0] / 4 == 63 && s.len() >= 5 ==> {
            let v = s[1] + 256 * s[2] + 65536 * s[3] + 16777216 * s[4];
            &&& v < u32::MAX ==> spec_read_tag(s) == Ok::<(Tag, nat), TagError>(
                (Tag::Literal { len: (v + 1) as u32 }, 5),
            )
            &&& v == u32::MAX ==> spec_read_tag(s) == Err::<(Tag, nat), TagError>(
                TagError::LiteralLenOverflow,
            )
        },
{
    reveal_with_fuel(le_value, 5);
    if s.len() >= 2 {
        let t = s.subrange(1, 2);
        assert(t[0] == s[1]);
        assert(t.drop_first().len() == 0);
    }
    if s.len() >= 3 {
        let t = s.subrange(1, 3);
        assert(t[0] == s[1] && t.drop_first()[0] == s[2]);
        assert(t.drop_first().drop_first().len() == 0);
    }
    if s.len() >= 4 {
        let t = s.subrange(1, 4);
        assert(t[0] == s[1] && t.drop_first()[0] == s[2] && t.drop_first().drop_first()[0]
            == s[3]);
        assert(t.drop_first().drop_first().drop_first().len() == 0);
    }
    if s.len() >= 5 {
        let t = s.subrange(1, 5);
        assert(t[0] == s[1] && t.drop_first()[0] == s[2] && t.drop_first().drop_first()[0]
            == s[3] && t.drop_first().drop_first().drop_first()[0] == s[4]);
        assert(t.drop_first().drop_first().drop_first().drop_first().len() == 0);
    }
}

/// A tag byte with low bits `01` is a copy of 4 to 11 bytes, the length minus four in
/// bits 2..4; bits 5..7 are bits 8..10 of the offset, whose low byte follows.
pub proof fn lemma_read_copy_one_byte_offset(s: Seq<u8>)
    requires
        s.len() >= 1,
        s[0] % 4 == 1,
    ensures
        s.len() < 2 ==> spec_read_tag(s) == Err::<(Tag, nat), TagError>(TagError::UnexpectedEof),
        s.len() >= 2 ==> spec_read_tag(s) == Ok::<(Tag, nat), TagError>(
            (Tag::Copy { offset: ((s[0] / 32) * 256 + s[1]) as u32, len: ((s[0] / 4) % 8 + 4) as u8 }, 2),
        ),
{
    reveal_with_fuel(le_value, 2);
    if s.len() >= 2 {
        let t = s.subrange(1, 2);
        assert(t[0] == s[1]);
        assert(t.drop_first().len() == 0);
    }
}

/// A tag byte with low bits `10` is a copy of `m + 1` bytes, `m` being its upper six
/// bits, whose offset follows in two bytes, least significant first.
pub proof fn lemma_read_copy_two_byte_offset(s: Seq<u8>)
    requires
        s.len() >= 1,
        s[0] % 4 == 2,
    ensures
        s.len() < 3 ==> spec_read_tag(s) == Err::<(Tag, nat), TagError>(TagError::UnexpectedEof),
        s.len() >= 3 ==> spec_read_tag(s) == Ok::<(Tag, nat), TagError>(
            (Tag::Copy { offset: (s[1] + 256 * s[2]) as u32, len: (s[0] / 4 + 1) as u8 }, 3),
        ),
{
    reveal_with_fuel(le_value, 3);
    if s.len() >= 3 {
        let t = s.subrange(1, 3);
        assert(t[0] == s[1] && t.drop_first()[0] == s[2]);
        assert(t.drop_first().drop_first().len() == 0);
    }
}

/// A tag byte with low bits `11` is a copy of `m + 1` bytes, `m` being its upper six
/// bits, whose offset follows in four bytes, least significant first.
pub proof fn lemma_read_copy_four_byte_offset(s: Seq<u8>)
    requires
        s.len() >= 1,
        s[0] % 4 == 3,
    ensures
        s.len() < 5 ==> spec_read_tag(s) == Err::<(Tag, nat), TagError>(TagError::UnexpectedEof),
        s.len() >= 5 ==> spec_read_tag(s) == Ok::<(Tag, nat), TagError>(
            (
                Tag::Copy {
                    offset: (s[1] + 256 * s[2] + 65536 * s[3] + 16777216 * s[4]) as u32,
                    len: (s[0] / 4 + 1) as u8,
                },
                5,
            ),
        ),
{
    reveal_with_fuel(le_value, 5);
    if s.len() >= 5 {
        let t = s.subrange(1, 5);
        assert(t[0] == s[1] && t.drop_first()[0] == s[2] && t.drop_first().drop_first()[0]
            == s[3] && t.drop_first().drop_first().drop_first()[0] == s[4]);
        assert(t.drop_first().drop_first().drop_first().drop_first().len() == 0);
    }
}

} // verus!
