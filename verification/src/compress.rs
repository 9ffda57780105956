//! Compressing bytes into a stream of literals and copies.

pub mod hash_table;

use vstd::prelude::*;
use vstd::slice::slice_subrange;
use rayon::iter::ParallelIterator;
use rayon::slice::ParallelSlice;
use crate::varint;
use crate::varint::varint_bytes;
use crate::decompress::tag::{
    Tag,
    spec_read_tag,
    le_value,
    pow256,
    lemma_read_tag_size,
    lemma_read_tag_prefix,
};
use crate::decompress::{
    copy_bytes,
    decode_elems,
    spec_decompress,
    lemma_elems_grow,
    lemma_elems_concat,
    lemma_elems_prefix,
    lemma_elems_loop,
};
use self::hash_table::{HashTable, NUM_BUCKETS, spec_bucket};

verus! {

/// The input is compressed in blocks of this many bytes, each on its own.
pub const BLOCK_SIZE: usize = 64 * 1024;

/// The longest copy that the compressor emits.
pub const MAX_COPY_LEN: usize = 64;

/// How many bytes it takes to hold `m` little-endian (at least one).
pub open spec fn len_num_bytes(m: nat) -> nat {
    if m < 0x100 {
        1
    } else if m < 0x1_0000 {
        2
    } else if m < 0x100_0000 {
        3
    } else {
        4
    }
}

/// The `n` low bytes of `v`, least significant first.
pub open spec fn le_bytes(v: nat, n: nat) -> Seq<u8>
    decreases n,
{
    if n == 0 {
        Seq::empty()
    } else {
        seq![(v % 256) as u8] + le_bytes(v / 256, (n - 1) as nat)
    }
}

/// The tag of a literal of `len` bytes: one byte holding `len - 1` if `len` is at
/// most 60; otherwise a byte saying how many bytes follow, then `len - 1` in that
/// many little-endian bytes.
pub open spec fn literal_tag_bytes(len: nat) -> Seq<u8> {
    if len <= 60 {
        seq![((len - 1) * 4) as u8]
    } else {
        let m = (len - 1) as nat;
        let nb = len_num_bytes(m);
        seq![((59 + nb) * 4) as u8] + le_bytes(m, nb)
    }
}

/// The bytes of a copy of `len` bytes from `offset` back: two bytes when the length
/// is 4 to 11 and the offset below 2048, else a tag byte with a two-byte offset when
/// it fits, else a tag byte with a four-byte offset.
pub open spec fn copy_tag_bytes(offset: nat, len: nat) -> Seq<u8> {
    if 4 <= len <= 11 && offset < 2048 {
        seq![((offset / 256) * 32 + (len - 4) * 4 + 1) as u8, (offset % 256) as u8]
    } else if offset <= 0xffff {
        seq![((len - 1) * 4 + 2) as u8] + le_bytes(offset, 2)
    } else {
        seq![((len - 1) * 4 + 3) as u8] + le_bytes(offset, 4)
    }
}

/// `le_bytes` keeps the number when it fits.
proof fn lemma_le_bytes_value(v: nat, n: nat)
    requires
        v < pow256(n),
    ensures
        le_value(le_bytes(v, n)) == v,
        le_bytes(v, n).len() == n,
    decreases n,
{
    if n > 0 {
        lemma_le_bytes_value(v / 256, (n - 1) as nat);
        let b = le_bytes(v, n);
        assert(b.drop_first() =~= le_bytes(v / 256, (n - 1) as nat));
    }
}

/// `le_bytes` has as many bytes as asked for.
proof fn lemma_le_bytes_len(v: nat, n: nat)
    ensures
        le_bytes(v, n).len() == n,
    decreases n,
{
    if n > 0 {
        lemma_le_bytes_len(v / 256, (n - 1) as nat);
    }
}

/// The tag of a literal of at most a block takes one byte up to 60 bytes, two up to
/// 256, and three beyond.
proof fn lemma_literal_tag_len(len: nat)
    requires
        1 <= len <= BLOCK_SIZE,
    ensures
        len <= 60 ==> literal_tag_bytes(len).len() == 1,
        len <= 256 ==> literal_tag_bytes(len).len() <= 2,
        literal_tag_bytes(len).len() <= 3,
{
    if len > 60 {
        lemma_le_bytes_len((len - 1) as nat, len_num_bytes((len - 1) as nat));
    }
}

/// A copy with an offset that fits in two bytes takes at most three bytes.
proof fn lemma_copy_tag_len(offset: nat, len: nat)
    requires
        offset <= 0xffff,
    ensures
        copy_tag_bytes(offset, len).len() <= 3,
{
    lemma_le_bytes_len(offset, 2);
}

/// Appends the `n` low bytes of `v` to `out`, least significant first.
fn push_le_bytes(v: u32, n: usize, out: &mut Vec<u8>)
    ensures
        final(out)@ == old(out)@ + le_bytes(v as nat, n as nat),
{
    let ghost target = old(out)@ + le_bytes(v as nat, n as nat);
    let mut w = v;
    let mut k: usize = 0;
    while k < n
        invariant
            k <= n,
            out@ + le_bytes(w as nat, (n - k) as nat) == target,
        decreases n - k,
    {
        let ghost before = out@;
        let ghost rest = le_bytes(w as nat, (n - k) as nat);
        assert(w as u8 == w % 256 && w >> 8u32 == w / 256) by (bit_vector);
        out.push(w as u8);
        assert(rest =~= seq![(w % 256) as u8] + le_bytes((w / 256) as nat, (n - k - 1) as nat));
        w = w >> 8u32;
        k = k + 1;
        assert(out@ + le_bytes(w as nat, (n - k) as nat) =~= before + rest);
    }
    assert(le_bytes(w as nat, 0) =~= Seq::<u8>::empty());
    assert(out@ =~= target);
}

/// Appends the tag of a literal of `len` bytes to `out`.
fn emit_literal_tag(len: usize, out: &mut Vec<u8>)
    requires
        1 <= len <= u32::MAX,
    ensures
        final(out)@ == old(out)@ + literal_tag_bytes(len as nat),
{
    if len <= 60 {
        let len = len as u8;
        let len_minus_one = len - 1;
        let tag_byte = len_minus_one << 2u8;
        assert(tag_byte == len_minus_one * 4) by (bit_vector)
            requires
                len_minus_one < 60,
                tag_byte == len_minus_one << 2u8,
        ;
        let ghost before = out@;
        out.push(tag_byte);
        assert(out@ =~= before + literal_tag_bytes(len as nat));
    } else {
        let len = len as u32;
        let len_minus_one = len - 1;
        let num_empty_bytes: u32 = len_minus_one.leading_zeros() / 8;
        proof {
            let lz = vstd::std_specs::bits::u32_leading_zeros(len_minus_one);
            vstd::std_specs::bits::axiom_u32_leading_zeros(len_minus_one);
            assert({
                &&& len_minus_one < 0x100 ==> lz / 8 == 3
                &&& 0x100 <= len_minus_one < 0x1_0000 ==> lz / 8 == 2
                &&& 0x1_0000 <= len_minus_one < 0x100_0000 ==> lz / 8 == 1
                &&& 0x100_0000 <= len_minus_one ==> lz / 8 == 0
            }) by (bit_vector)
                requires
                    len_minus_one != 0,
                    lz <= 32,
                    lz < 32 ==> (len_minus_one >> ((31 - lz) as u32)) & 1u32 != 0u32,
                    len_minus_one >> ((32 - lz) as u32) == 0,
            ;
        }
        let num_bytes = 4 - num_empty_bytes as u8;
        let kind = 59 + num_bytes;
        let tag_byte = kind << 2u8;
        assert(tag_byte == kind * 4) by (bit_vector)
            requires
                60 <= kind <= 63,
                tag_byte == kind << 2u8,
        ;
        let ghost before = out@;
        out.push(tag_byte);
        push_le_bytes(len_minus_one, num_bytes as usize, out);
        assert(out@ =~= before + literal_tag_bytes(len as nat));
    }
}

/// Appends a literal holding `data` to `out`.
fn emit_literal(data: &[u8], out: &mut Vec<u8>)
    requires
        1 <= data.len() <= u32::MAX,
    ensures
        final(out)@ == old(out)@ + literal_tag_bytes(data.len() as nat) + data@,
{
    emit_literal_tag(data.len(), out);
    let ghost before = out@;
    out.extend_from_slice(data);
    assert(out@ =~= before + data@);
}

/// Appends a copy of `len` bytes from `offset` back to `out`.
fn emit_copy(offset: usize, len: usize, out: &mut Vec<u8>)
    requires
        1 <= offset <= u32::MAX,
        1 <= len <= MAX_COPY_LEN,
    ensures
        final(out)@ == old(out)@ + copy_tag_bytes(offset as nat, len as nat),
{
    let ghost before = out@;
    assert((1usize << 11usize) == 2048) by (bit_vector);
    // "1-byte" offset
    if 4 <= len && len <= 11 && offset < (1usize << 11usize) {
        let len_minus_4 = (len - 4) as u8;
        let offset_high_bits = (offset >> 8u32) as u8;
        let offset_low_byte = (offset & 0xff) as u8;
        assert(offset >> 8u32 == offset / 256 && offset & 0xff == offset % 256) by (bit_vector);
        let tag_byte = offset_high_bits << 5u8 | len_minus_4 << 2u8 | 0x1;
        assert(tag_byte == offset_high_bits * 32 + len_minus_4 * 4 + 1) by (bit_vector)
            requires
                offset_high_bits < 8,
                len_minus_4 < 8,
                tag_byte == offset_high_bits << 5u8 | len_minus_4 << 2u8 | 0x1,
        ;
        out.push(tag_byte);
        out.push(offset_low_byte);
    }
    // 2-byte offset
    else if offset <= 0xffff {
        let len_minus_1 = (len - 1) as u8;
        let tag_byte = len_minus_1 << 2u8 | 0x2;
        assert(tag_byte == len_minus_1 * 4 + 2) by (bit_vector)
            requires
                len_minus_1 < 64,
                tag_byte == len_minus_1 << 2u8 | 0x2,
        ;
        out.push(tag_byte);
        push_le_bytes(offset as u32, 2, out);
    }
    // 4-byte offset
    else {
        let len_minus_1 = (len - 1) as u8;
        let tag_byte = len_minus_1 << 2u8 | 0x3;
        assert(tag_byte == len_minus_1 * 4 + 3) by (bit_vector)
            requires
                len_minus_1 < 64,
                tag_byte == len_minus_1 << 2u8 | 0x3,
        ;
        out.push(tag_byte);
        push_le_bytes(offset as u32, 4, out);
    }
    assert(out@ =~= before + copy_tag_bytes(offset as nat, len as nat));
}

/// The powers of 256 up to the fourth.
proof fn lemma_pow256_values()
    ensures
        pow256(1) == 0x100,
        pow256(2) == 0x1_0000,
        pow256(3) == 0x100_0000,
        pow256(4) == 0x1_0000_0000,
{
    reveal_with_fuel(pow256, 5);
}

/// Reading the tag that `emit_literal_tag` writes gives back the literal's length and
/// takes exactly the tag's bytes, whatever follows.
pub proof fn lemma_literal_tag_roundtrip(len: nat, rest: Seq<u8>)
    requires
        1 <= len <= u32::MAX,
    ensures
        spec_read_tag(literal_tag_bytes(len) + rest) == Ok::<(Tag, nat), crate::decompress::tag::TagError>(
            (Tag::Literal { len: len as u32 }, literal_tag_bytes(len).len()),
        ),
{
    let t = literal_tag_bytes(len);
    let s = t + rest;
    assert(s[0] == t[0]);
    if len > 60 {
        let m = (len - 1) as nat;
        let nb = len_num_bytes(m);
        lemma_pow256_values();
        lemma_le_bytes_value(m, nb);
        assert(s.subrange(1, (1 + nb) as int) =~= le_bytes(m, nb));
    }
}

/// Reading the bytes that `emit_copy` writes gives back the copy's offset and length
/// and takes exactly those bytes, whatever follows.
pub proof fn lemma_copy_tag_roundtrip(offset: nat, len: nat, rest: Seq<u8>)
    requires
        1 <= offset <= u32::MAX,
        1 <= len <= MAX_COPY_LEN,
    ensures
        spec_read_tag(copy_tag_bytes(offset, len) + rest) == Ok::<(Tag, nat), crate::decompress::tag::TagError>(
            (Tag::Copy { offset: offset as u32, len: len as u8 }, copy_tag_bytes(offset, len).len()),
        ),
{
    let t = copy_tag_bytes(offset, len);
    let s = t + rest;
    assert(s[0] == t[0]);
    lemma_pow256_values();
    if 4 <= len <= 11 && offset < 2048 {
        reveal_with_fuel(le_value, 2);
        assert(s.subrange(1, 2) =~= seq![(offset % 256) as u8]);
        assert(seq![(offset % 256) as u8].drop_first() =~= Seq::<u8>::empty());
    } else if offset <= 0xffff {
        lemma_le_bytes_value(offset, 2);
        assert(s.subrange(1, 3) =~= le_bytes(offset, 2));
    } else {
        lemma_le_bytes_value(offset, 4);
        assert(s.subrange(1, 5) =~= le_bytes(offset, 4));
    }
}

/// What the tag of a literal of `len` bytes holds: up to 60 bytes, one byte with low
/// bits `00` and `len - 1` in the upper six bits; beyond, a byte with low bits `00`
/// and `59 + k` in the upper six bits, then `len - 1` in the fewest bytes `k` that
/// hold it, least significant first.
pub proof fn lemma_literal_tag_format(len: nat)
    requires
        1 <= len <= u32::MAX,
    ensures
        len <= 60 ==> {
            let t = literal_tag_bytes(len);
            &&& t.len() == 1
            &&& t[0] % 4 == 0
            &&& t[0] / 4 == len - 1
        },
        len > 60 ==> {
            let t = literal_tag_bytes(len);
            let k = t.len() - 1;
            let m = len - 1;
            &&& 1 <= k <= 4
            &&& t[0] % 4 == 0
            &&& t[0] / 4 == 59 + k
            &&& k == 1 ==> t[1] == m
            &&& k == 2 ==> t[1] + 256 * t[2] == m
            &&& k == 3 ==> t[1] + 256 * t[2] + 65536 * t[3] == m
            &&& k == 4 ==> t[1] + 256 * t[2] + 65536 * t[3] + 16777216 * t[4] == m
            &&& k >= 2 ==> m >= 0x100
            &&& k >= 3 ==> m >= 0x1_0000
            &&& k >= 4 ==> m >= 0x100_0000
        },
{
    if len > 60 {
        let m = (len - 1) as nat;
        let nb = len_num_bytes(m);
        let t = literal_tag_bytes(len);
        let b = le_bytes(m, nb);
        lemma_pow256_values();
        lemma_le_bytes_value(m, nb);
        reveal_with_fuel(le_value, 5);
        assert(t == seq![((59 + nb) * 4) as u8] + b);
        assert(forall|j: int| 0 <= j < nb ==> t[j + 1] == b[j]);
        if nb >= 2 {
            assert(b.drop_first()[0] == b[1]);
        }
        if nb >= 3 {
            assert(b.drop_first().drop_first()[0] == b[2]);
        }
        if nb >= 4 {
            assert(b.drop_first().drop_first().drop_first()[0] == b[3]);
        }
        assert(b.skip(nb as int).len() == 0);
        if nb == 1 {
            assert(b.drop_first().len() == 0);
        } else if nb == 2 {
            assert(b.drop_first().drop_first().len() == 0);
        } else if nb == 3 {
            assert(b.drop_first().drop_first().drop_first().len() == 0);
        } else {
            assert(b.drop_first().drop_first().drop_first().drop_first().len() == 0);
        }
    }
}

/// What the bytes of a copy hold. With a length of 4 to 11 and an offset below 2048:
/// two bytes, the first with low bits `01`, the length minus four in bits 2..4 and
/// bits 8..10 of the offset in bits 5..7, the second the low byte of the offset.
/// Otherwise a byte with `len - 1` in its upper six bits and low bits `10`, then the
/// offset in two bytes if it fits, else low bits `11` and the offset in four bytes,
/// least significant first.
pub proof fn lemma_copy_tag_format(offset: nat, len: nat)
    requires
        1 <= offset <= u32::MAX,
        1 <= len <= MAX_COPY_LEN,
    ensures
        4 <= len <= 11 && offset < 2048 ==> {
            let t = copy_tag_bytes(offset, len);
            &&& t.len() == 2
            &&& t[0] % 4 == 1
            &&& (t[0] / 4) % 8 == len - 4
            &&& t[0] / 32 == offset / 256
            &&& t[1] == offset % 256
        },
        !(4 <= len <= 11 && offset < 2048) && offset <= 0xffff ==> {
            let t = copy_tag_bytes(offset, len);
            &&& t.len() == 3
            &&& t[0] % 4 == 2
            &&& t[0] / 4 == len - 1
            &&& t[1] + 256 * t[2] == offset
        },
        offset > 0xffff ==> {
            let t = copy_tag_bytes(offset, len);
            &&& t.len() == 5
            &&& t[0] % 4 == 3
            &&& t[0] / 4 == len - 1
            &&& t[1] + 256 * t[2] + 65536 * t[3] + 16777216 * t[4] == offset
        },
{
    lemma_pow256_values();
    reveal_with_fuel(le_value, 5);
    let t = copy_tag_bytes(offset, len);
    if 4 <= len <= 11 && offset < 2048 {
        let h = offset / 256;
        assert(h < 8);
        assert(((h * 32 + (len - 4) * 4 + 1) / 32) == h);
        assert(((h * 32 + (len - 4) * 4 + 1) / 4) % 8 == len - 4);
    } else if offset <= 0xffff {
        let b = le_bytes(offset, 2);
        lemma_le_bytes_value(offset, 2);
        assert(t == seq![((len - 1) * 4 + 2) as u8] + b);
        assert(t[1] == b[0] && t[2] == b[1]);
        assert(b.drop_first()[0] == b[1]);
        assert(b.drop_first().drop_first().len() == 0);
    } else {
        let b = le_bytes(offset, 4);
        lemma_le_bytes_value(offset, 4);
        assert(t == seq![((len - 1) * 4 + 3) as u8] + b);
        assert(t[1] == b[0] && t[2] == b[1] && t[3] == b[2] && t[4] == b[3]);
        assert(b.drop_first()[0] == b[1]);
        assert(b.drop_first().drop_first()[0] == b[2]);
        assert(b.drop_first().drop_first().drop_first()[0] == b[3]);
        assert(b.drop_first().drop_first().drop_first().drop_first().len() == 0);
    }
}

/// A literal's bytes decode to its data, after any output.
proof fn lemma_literal_elem(d: Seq<u8>, out: Seq<u8>)
    requires
        1 <= d.len() <= u32::MAX,
    ensures
        decode_elems(literal_tag_bytes(d.len()) + d, out) == Some(out + d),
{
    let t = literal_tag_bytes(d.len());
    let s = t + d;
    lemma_literal_tag_roundtrip(d.len(), d);
    let rest = s.skip(t.len() as int);
    assert(rest =~= d);
    assert(rest.take(d.len() as int) =~= d);
    assert(rest.skip(d.len() as int) =~= Seq::<u8>::empty());
    assert(decode_elems(Seq::<u8>::empty(), out + d) == Some(out + d));
    assert(s.len() > 0);
}

/// A copy's bytes decode to the copied bytes, after output at least `offset` long.
proof fn lemma_copy_elem(offset: nat, len: nat, out: Seq<u8>)
    requires
        1 <= offset <= out.len(),
        offset <= u32::MAX,
        1 <= len <= MAX_COPY_LEN,
    ensures
        decode_elems(copy_tag_bytes(offset, len), out) == Some(copy_bytes(out, offset, len)),
{
    let t = copy_tag_bytes(offset, len);
    lemma_copy_tag_roundtrip(offset, len, Seq::empty());
    assert(t + Seq::<u8>::empty() =~= t);
    assert(t.skip(t.len() as int) =~= Seq::<u8>::empty());
    let c = copy_bytes(out, offset, len);
    assert(decode_elems(Seq::<u8>::empty(), c) == Some(c));
    assert(t.len() > 0);
    assert((offset as u32) as nat == offset && (len as u8) as nat == len);
}

/// Extends a match as far as it goes: the length of the longest run, up to
/// `MAX_COPY_LEN`, where the bytes from `i` equal those from `i0`. The two runs may
/// overlap.
fn match_len(input: &[u8], i: usize, i0: usize) -> (len: usize)
    requires
        i0 < i,
        i + 4 <= input.len(),
        input@.subrange(i as int, i + 4) == input@.subrange(i0 as int, i0 + 4),
    ensures
        4 <= len <= MAX_COPY_LEN,
        i + len <= input.len(),
        input@.subrange(i as int, i + len) == input@.subrange(i0 as int, i0 + len),
        len == MAX_COPY_LEN || i + len == input.len() || input@[i + len as int] != input@[i0
            + len as int],
        len == spec_match_len(input@, i as int, i0 as int, 4),
{
    let mut match_len: usize = 4;
    while match_len < MAX_COPY_LEN && i + match_len < input.len() && input[i + match_len]
        == input[i0 + match_len]
        invariant
            i0 < i,
            4 <= match_len <= MAX_COPY_LEN,
            i + match_len <= input.len(),
            input@.subrange(i as int, i + match_len) == input@.subrange(i0 as int, i0 + match_len),
            spec_match_len(input@, i as int, i0 as int, 4) == spec_match_len(
                input@,
                i as int,
                i0 as int,
                match_len as nat,
            ),
        decreases MAX_COPY_LEN - match_len,
    {
        assert(input@.subrange(i as int, i + match_len + 1) =~= input@.subrange(i as int, i + match_len).push(input@[i + match_len as int]));
        assert(input@.subrange(i0 as int, i0 + match_len + 1) =~= input@.subrange(i0 as int, i0 + match_len).push(input@[i0 + match_len as int]));
        match_len = match_len + 1;
    }
    match_len
}

/// Where the bytes from `i` repeat those from `i0 < i` for `len` bytes, each of them
/// equals the byte at `i0` plus its distance from `i` modulo `i - i0`.
proof fn lemma_periodic(s: Seq<u8>, i: int, i0: int, len: int, k: int)
    requires
        0 <= i0 < i,
        i + len <= s.len(),
        s.subrange(i, i + len) == s.subrange(i0, i0 + len),
        0 <= k < len,
    ensures
        s[i + k] == s[i0 + k % (i - i0)],
    decreases k,
{
    let off = i - i0;
    assert(s[i + k] == s.subrange(i, i + len)[k]);
    assert(s[i0 + k] == s.subrange(i0, i0 + len)[k]);
    if k < off {
        vstd::arithmetic::div_mod::lemma_small_mod(k as nat, off as nat);
    } else {
        lemma_periodic(s, i, i0, len, k - off);
        vstd::arithmetic::div_mod::lemma_mod_add_multiples_vanish(k - off, off);
        assert(s[i + k] == s[i0 + k]);
        assert(i0 + k == i + (k - off));
    }
}

/// A copy from `i0` at `i` reproduces the input when the bytes match that far.
proof fn lemma_copy_reproduces(s: Seq<u8>, i: int, i0: int, len: int)
    requires
        0 <= i0 < i,
        i + len <= s.len(),
        0 <= len,
        s.subrange(i, i + len) == s.subrange(i0, i0 + len),
    ensures
        copy_bytes(s.take(i), (i - i0) as nat, len as nat) == s.take(i + len),
{
    let c = copy_bytes(s.take(i), (i - i0) as nat, len as nat);
    assert forall|k: int| 0 <= k < i + len implies c[k] == s.take(i + len)[k] by {
        if k >= i {
            lemma_periodic(s, i, i0, len, k - i);
        }
    }
    assert(c =~= s.take(i + len));
}

/// The bytes `enc` decode, after nothing, to exactly `data`.
pub open spec fn encodes_block(enc: Seq<u8>, data: Seq<u8>) -> bool {
    decode_elems(enc, Seq::empty()) == Some(data)
}

/// Appending a literal of the next input bytes extends what an encoding stands for.
proof fn lemma_append_literal(enc: Seq<u8>, input: Seq<u8>, a: int, b: int)
    requires
        0 <= a < b <= input.len(),
        b - a <= u32::MAX,
        encodes_block(enc, input.take(a)),
    ensures
        encodes_block(
            enc + (literal_tag_bytes((b - a) as nat) + input.subrange(a, b)),
            input.take(b),
        ),
{
    let lit = input.subrange(a, b);
    let ops = literal_tag_bytes(lit.len()) + lit;
    lemma_elems_concat(enc, ops, Seq::empty());
    lemma_literal_elem(lit, input.take(a));
    assert(input.take(a) + lit =~= input.take(b));
}

/// Appending a copy that the input repeats extends what an encoding stands for.
proof fn lemma_append_copy(enc: Seq<u8>, input: Seq<u8>, i: int, i0: int, len: int)
    requires
        0 <= i0 < i,
        i + len <= input.len(),
        1 <= len <= MAX_COPY_LEN,
        i - i0 <= u32::MAX,
        input.subrange(i, i + len) == input.subrange(i0, i0 + len),
        encodes_block(enc, input.take(i)),
    ensures
        encodes_block(enc + copy_tag_bytes((i - i0) as nat, len as nat), input.take(i + len)),
{
    let ops = copy_tag_bytes((i - i0) as nat, len as nat);
    lemma_elems_concat(enc, ops, Seq::empty());
    lemma_copy_elem((i - i0) as nat, len as nat, input.take(i));
    lemma_copy_reproduces(input, i, i0, len);
}

/// The bytes emitted for a match at `i` from `i0`: a literal of the input from
/// `emitted` up to `i`, if there is any, then the copy.
pub open spec fn match_bytes(input: Seq<u8>, emitted: int, i: int, i0: int, len: int) -> Seq<u8> {
    (if emitted < i {
        literal_tag_bytes((i - emitted) as nat) + input.subrange(emitted, i)
    } else {
        Seq::empty()
    }) + copy_tag_bytes((i - i0) as nat, len as nat)
}

/// Emitting a match extends what an encoding stands for, and keeps it within 66/65 of
/// the input it covers: a copy of at least four bytes makes up for the tag of the
/// literal before it.
proof fn lemma_append_match(enc: Seq<u8>, input: Seq<u8>, emitted: int, i: int, i0: int, len: int)
    requires
        0 <= emitted <= i,
        0 <= i0 < i,
        i + len <= input.len() <= BLOCK_SIZE,
        4 <= len <= MAX_COPY_LEN,
        input.subrange(i, i + len) == input.subrange(i0, i0 + len),
        encodes_block(enc, input.take(emitted)),
        65 * enc.len() <= 66 * emitted,
    ensures
        encodes_block(enc + match_bytes(input, emitted, i, i0, len), input.take(i + len)),
        65 * (enc + match_bytes(input, emitted, i, i0, len)).len() <= 66 * (i + len),
{
    let copy = copy_tag_bytes((i - i0) as nat, len as nat);
    lemma_copy_tag_len((i - i0) as nat, len as nat);
    if emitted < i {
        let lit = literal_tag_bytes((i - emitted) as nat) + input.subrange(emitted, i);
        lemma_append_literal(enc, input, emitted, i);
        lemma_literal_tag_len((i - emitted) as nat);
        lemma_append_copy(enc + lit, input, i, i0, len);
        assert(enc + match_bytes(input, emitted, i, i0, len) =~= enc + lit + copy);
    } else {
        lemma_append_copy(enc, input, i, i0, len);
        assert(enc + match_bytes(input, emitted, i, i0, len) =~= enc + copy);
    }
}

/// Where the compressor stops looking for matches in a block of `n` bytes: the
/// last position with four bytes after it, plus one.
pub open spec fn match_limit(n: nat) -> nat {
    if n >= 3 {
        (n - 3) as nat
    } else {
        0
    }
}

/// The four-byte pattern at position `j`, as a little-endian number.
pub open spec fn pattern_at(s: Seq<u8>, j: int) -> nat {
    le_value(s.subrange(j, j + 4))
}

/// What the hash table holds in bucket `b` once the patterns at positions below `i`
/// are in: the last such position whose pattern hashes to `b`, or 0 if none does.
#[verifier::opaque]
pub open spec fn last_seen(s: Seq<u8>, i: nat, b: nat) -> nat
    decreases i,
{
    if i == 0 {
        0
    } else if spec_bucket(pattern_at(s, i - 1)) == b {
        (i - 1) as nat
    } else {
        last_seen(s, (i - 1) as nat, b)
    }
}

/// How far the match of the bytes from `i` with those from `i0` goes, counting from
/// `m`: it stops at `MAX_COPY_LEN`, at the end of `s`, or at the first difference.
pub open spec fn spec_match_len(s: Seq<u8>, i: int, i0: int, m: nat) -> nat
    decreases MAX_COPY_LEN - m,
{
    if m >= MAX_COPY_LEN || i + m >= s.len() || s[i + m] != s[i0 + m] {
        m
    } else {
        spec_match_len(s, i, i0, m + 1)
    }
}

/// A match extends the four bytes it starts with, and at most to `MAX_COPY_LEN`.
pub proof fn lemma_spec_match_len(s: Seq<u8>, i: int, i0: int, m: nat)
    requires
        0 <= i0 < i,
        4 <= m <= MAX_COPY_LEN,
        i + m <= s.len(),
        s.subrange(i, i + m) == s.subrange(i0, i0 + m),
    ensures
        m <= spec_match_len(s, i, i0, m) <= MAX_COPY_LEN,
        i + spec_match_len(s, i, i0, m) <= s.len(),
        s.subrange(i, i + spec_match_len(s, i, i0, m)) == s.subrange(
            i0,
            i0 + spec_match_len(s, i, i0, m),
        ),
    decreases MAX_COPY_LEN - m,
{
    if !(m >= MAX_COPY_LEN || i + m >= s.len() || s[i + m] != s[i0 + m]) {
        assert(s.subrange(i, i + m + 1) =~= s.subrange(i, i + m).push(s[i + m]));
        assert(s.subrange(i0, i0 + m + 1) =~= s.subrange(i0, i0 + m).push(s[i0 + m]));
        lemma_spec_match_len(s, i, i0, m + 1);
    }
}

/// The table never holds a position at or after the current one, except 0.
pub proof fn lemma_last_seen_bound(s: Seq<u8>, i: nat, b: nat)
    ensures
        last_seen(s, i, b) == 0 || last_seen(s, i, b) < i,
    decreases i,
{
    reveal(last_seen);
    if i > 0 {
        lemma_last_seen_bound(s, (i - 1) as nat, b);
    }
}

/// The compressed form of a block from position `i` on, with the input before
/// `emitted` already emitted: at each position below `i_limit`, the position last seen
/// with the same hash is a candidate; if its four bytes match, the match is extended,
/// the pending input is emitted as a literal and the match as a copy, and the scan
/// resumes after the match; otherwise it moves on by one. The rest of the input goes
/// out as a final literal.
#[verifier::opaque]
pub open spec fn greedy(s: Seq<u8>, i: nat, emitted: nat) -> Seq<u8>
    decreases match_limit(s.len()) - i,
{
    let lim = match_limit(s.len());
    if i >= lim {
        if emitted < s.len() {
            literal_tag_bytes((s.len() - emitted) as nat) + s.subrange(emitted as int, s.len() as int)
        } else {
            Seq::empty()
        }
    } else {
        let i0 = last_seen(s, i, spec_bucket(pattern_at(s, i as int)));
        if i != 0 && s.subrange(i as int, (i + 4) as int) == s.subrange(i0 as int, (i0 + 4) as int) {
            let len = spec_match_len(s, i as int, i0 as int, 4);
            proof {
                lemma_last_seen_bound(s, i, spec_bucket(pattern_at(s, i as int)));
                lemma_spec_match_len(s, i as int, i0 as int, 4);
            }
            let next = if i + len < lim {
                i + len
            } else {
                lim
            };
            match_bytes(s, emitted as int, i as int, i0 as int, len as int) + greedy(
                s,
                next,
                i + len,
            )
        } else {
            greedy(s, i + 1, emitted)
        }
    }
}

/// One step of `greedy` at a position below `match_limit`.
proof fn lemma_greedy_step(s: Seq<u8>, i: nat, emitted: nat)
    requires
        i < match_limit(s.len()),
    ensures
        ({
            let i0 = last_seen(s, i, spec_bucket(pattern_at(s, i as int)));
            let len = spec_match_len(s, i as int, i0 as int, 4);
            let next = if i + len < match_limit(s.len()) {
                i + len
            } else {
                match_limit(s.len())
            };
            greedy(s, i, emitted) == if i != 0 && s.subrange(i as int, (i + 4) as int)
                == s.subrange(i0 as int, (i0 + 4) as int) {
                match_bytes(s, emitted as int, i as int, i0 as int, len as int) + greedy(
                    s,
                    next,
                    i + len,
                )
            } else {
                greedy(s, i + 1, emitted)
            }
        }),
{
    reveal(greedy);
}

/// The last step of `greedy`: the rest of the input as a literal.
proof fn lemma_greedy_end(s: Seq<u8>, i: nat, emitted: nat)
    requires
        i >= match_limit(s.len()),
    ensures
        greedy(s, i, emitted) == if emitted < s.len() {
            literal_tag_bytes((s.len() - emitted) as nat) + s.subrange(emitted as int, s.len() as int)
        } else {
            Seq::empty()
        },
{
    reveal(greedy);
}

/// Storing position `i` in the bucket of the pattern at `i` turns the table of
/// positions below `i` into the table of positions below `i + 1`.
proof fn lemma_table_step(s: Seq<u8>, i: nat, next: nat, h: nat, before: Seq<u16>, after: Seq<u16>)
    requires
        next == i + 1,
        i <= u16::MAX,
        h == spec_bucket(pattern_at(s, i as int)),
        h < NUM_BUCKETS,
        before.len() == NUM_BUCKETS,
        forall|b: nat| b < NUM_BUCKETS ==> before[b as int] as nat == #[trigger] last_seen(s, i, b),
        after == before.update(h as int, i as u16),
    ensures
        forall|b: nat| b < NUM_BUCKETS ==> after[b as int] as nat == #[trigger] last_seen(s, next, b),
{
    assert forall|b: nat| b < NUM_BUCKETS implies after[b as int] as nat == #[trigger] last_seen(
        s,
        next,
        b,
    ) by {
        assert(before[b as int] as nat == last_seen(s, i, b));
        reveal_with_fuel(last_seen, 2);
        if b == h {
            assert(after[b as int] == i as u16);
        } else {
            assert(after[b as int] == before[b as int]);
        }
    }
}

/// Before any pattern is in, every bucket holds 0.
proof fn lemma_table_start(s: Seq<u8>)
    ensures
        forall|b: nat| b < NUM_BUCKETS ==> #[trigger] last_seen(s, 0, b) == 0,
{
    reveal(last_seen);
}

/// The compressed form of one block.
pub open spec fn spec_compress_block(s: Seq<u8>) -> Seq<u8> {
    greedy(s, 0, 0)
}

/// What `greedy` appends to an encoding of the input so far decodes to the whole
/// input, and keeps the whole within 66/65 of the input plus three bytes.
proof fn lemma_greedy(s: Seq<u8>, i: nat, emitted: nat, enc: Seq<u8>)
    requires
        s.len() <= BLOCK_SIZE,
        i <= match_limit(s.len()),
        emitted <= s.len(),
        i < match_limit(s.len()) ==> emitted <= i,
        encodes_block(enc, s.take(emitted as int)),
        65 * enc.len() <= 66 * emitted,
    ensures
        encodes_block(enc + greedy(s, i, emitted), s),
        65 * (enc + greedy(s, i, emitted)).len() <= 66 * s.len() + 195,
    decreases match_limit(s.len()) - i,
{
    reveal(greedy);
    let n = s.len();
    let lim = match_limit(n);
    if i >= lim {
        if emitted < n {
            lemma_append_literal(enc, s, emitted as int, n as int);
            lemma_literal_tag_len((n - emitted) as nat);
        } else {
            assert(enc + greedy(s, i, emitted) =~= enc);
        }
        assert(s.take(n as int) =~= s);
    } else {
        let b = spec_bucket(pattern_at(s, i as int));
        let i0 = last_seen(s, i, b);
        lemma_last_seen_bound(s, i, b);
        if i != 0 && s.subrange(i as int, (i + 4) as int) == s.subrange(i0 as int, (i0 + 4) as int) {
            let len = spec_match_len(s, i as int, i0 as int, 4);
            lemma_spec_match_len(s, i as int, i0 as int, 4);
            let next = if i + len < lim {
                i + len
            } else {
                lim
            };
            let m = match_bytes(s, emitted as int, i as int, i0 as int, len as int);
            lemma_append_match(enc, s, emitted as int, i as int, i0 as int, len as int);
            lemma_greedy(s, next, i + len, enc + m);
            assert(enc + greedy(s, i, emitted) =~= (enc + m) + greedy(s, next, i + len));
        } else {
            lemma_greedy(s, i + 1, emitted, enc);
        }
    }
}

/// The elements of `s` have the shape the compressor gives them, after `decoded`
/// bytes of output: every literal holds at least one byte, and every copy reaches
/// back at least one byte, no further than the output so far and below 65536 bytes,
/// for 4 to `MAX_COPY_LEN` bytes.
pub open spec fn elems_shaped(s: Seq<u8>, decoded: nat) -> bool
    decreases s.len(),
{
    if s.len() == 0 {
        true
    } else {
        match spec_read_tag(s) {
            Err(_) => false,
            Ok((Tag::Literal { len }, n)) => {
                proof {
                    lemma_read_tag_size(s);
                }
                let rest = s.skip(n as int);
                &&& len >= 1
                &&& rest.len() >= len
                &&& elems_shaped(rest.skip(len as int), decoded + len as nat)
            },
            Ok((Tag::Copy { offset, len }, n)) => {
                proof {
                    lemma_read_tag_size(s);
                }
                &&& 1 <= offset <= decoded
                &&& offset < 0x1_0000
                &&& 4 <= len <= MAX_COPY_LEN
                &&& elems_shaped(s.skip(n as int), decoded + len as nat)
            },
        }
    }
}

/// Shaped elements followed by shaped elements are shaped.
proof fn lemma_shaped_concat(a: Seq<u8>, b: Seq<u8>, out: Seq<u8>)
    requires
        decode_elems(a, out) is Some,
        elems_shaped(a, out.len()),
        elems_shaped(b, decode_elems(a, out).unwrap().len()),
    ensures
        elems_shaped(a + b, out.len()),
    decreases a.len(),
{
    if a.len() == 0 {
        assert(a + b =~= b);
    } else {
        lemma_read_tag_size(a);
        lemma_read_tag_prefix(a, b);
        match spec_read_tag(a) {
            Ok((Tag::Literal { len }, n)) => {
                let rest = a.skip(n as int);
                let rest2 = (a + b).skip(n as int);
                assert(rest2 =~= rest + b);
                assert(rest2.skip(len as int) =~= rest.skip(len as int) + b);
                lemma_shaped_concat(rest.skip(len as int), b, out + rest.take(len as int));
            },
            Ok((Tag::Copy { offset, len }, n)) => {
                assert((a + b).skip(n as int) =~= a.skip(n as int) + b);
                lemma_shaped_concat(a.skip(n as int), b, copy_bytes(out, offset as nat, len as nat));
            },
            Err(_) => {},
        }
    }
}

/// A literal of at least one byte is shaped.
proof fn lemma_literal_shaped(d: Seq<u8>, decoded: nat)
    requires
        1 <= d.len() <= u32::MAX,
    ensures
        elems_shaped(literal_tag_bytes(d.len()) + d, decoded),
{
    let t = literal_tag_bytes(d.len());
    let s = t + d;
    lemma_literal_tag_roundtrip(d.len(), d);
    let rest = s.skip(t.len() as int);
    assert(rest =~= d);
    assert(rest.skip(d.len() as int) =~= Seq::<u8>::empty());
    assert(elems_shaped(Seq::<u8>::empty(), decoded + d.len()));
    assert(s.len() > 0);
}

/// A copy of 4 to `MAX_COPY_LEN` bytes from less than 65536 bytes back, within the
/// output so far, is shaped.
proof fn lemma_copy_shaped(offset: nat, len: nat, decoded: nat)
    requires
        1 <= offset <= decoded,
        offset < 0x1_0000,
        4 <= len <= MAX_COPY_LEN,
    ensures
        elems_shaped(copy_tag_bytes(offset, len), decoded),
{
    let t = copy_tag_bytes(offset, len);
    lemma_copy_tag_roundtrip(offset, len, Seq::empty());
    assert(t + Seq::<u8>::empty() =~= t);
    assert(t.skip(t.len() as int) =~= Seq::<u8>::empty());
    assert(elems_shaped(Seq::<u8>::empty(), decoded + len));
    assert(t.len() > 0);
    assert((offset as u32) as nat == offset && (len as u8) as nat == len);
}

/// What `greedy` appends to shaped elements keeps them shaped.
proof fn lemma_greedy_shaped(s: Seq<u8>, i: nat, emitted: nat, enc: Seq<u8>)
    requires
        s.len() <= BLOCK_SIZE,
        i <= match_limit(s.len()),
        emitted <= s.len(),
        i < match_limit(s.len()) ==> emitted <= i,
        encodes_block(enc, s.take(emitted as int)),
        65 * enc.len() <= 66 * emitted,
        elems_shaped(enc, 0),
    ensures
        elems_shaped(enc + greedy(s, i, emitted), 0),
    decreases match_limit(s.len()) - i,
{
    reveal(greedy);
    let n = s.len();
    let lim = match_limit(n);
    if i >= lim {
        if emitted < n {
            let lit = literal_tag_bytes((n - emitted) as nat) + s.subrange(emitted as int, n as int);
            lemma_literal_shaped(s.subrange(emitted as int, n as int), emitted);
            lemma_shaped_concat(enc, lit, Seq::empty());
        } else {
            assert(enc + greedy(s, i, emitted) =~= enc);
        }
    } else {
        let b = spec_bucket(pattern_at(s, i as int));
        let i0 = last_seen(s, i, b);
        lemma_last_seen_bound(s, i, b);
        if i != 0 && s.subrange(i as int, (i + 4) as int) == s.subrange(i0 as int, (i0 + 4) as int) {
            let len = spec_match_len(s, i as int, i0 as int, 4);
            lemma_spec_match_len(s, i as int, i0 as int, 4);
            let next = if i + len < lim {
                i + len
            } else {
                lim
            };
            let m = match_bytes(s, emitted as int, i as int, i0 as int, len as int);
            let copy = copy_tag_bytes((i - i0) as nat, len);
            lemma_append_match(enc, s, emitted as int, i as int, i0 as int, len as int);
            lemma_copy_shaped((i - i0) as nat, len, i);
            if emitted < i {
                let lit = literal_tag_bytes((i - emitted) as nat) + s.subrange(
                    emitted as int,
                    i as int,
                );
                lemma_literal_shaped(s.subrange(emitted as int, i as int), emitted);
                lemma_shaped_concat(enc, lit, Seq::empty());
                lemma_append_literal(enc, s, emitted as int, i as int);
                lemma_shaped_concat(enc + lit, copy, Seq::empty());
                assert(enc + m =~= (enc + lit) + copy);
            } else {
                lemma_shaped_concat(enc, copy, Seq::empty());
                assert(enc + m =~= enc + copy);
            }
            lemma_greedy_shaped(s, next, i + len, enc + m);
            assert(enc + greedy(s, i, emitted) =~= (enc + m) + greedy(s, next, i + len));
        } else {
            lemma_greedy_shaped(s, i + 1, emitted, enc);
        }
    }
}

/// A compressed block decodes to the block, takes at most 66/65 of its length plus
/// three bytes, and its elements have the compressor's shape. Behind the varint of
/// its length, it decompresses to the block.
pub proof fn lemma_compress_block(s: Seq<u8>)
    requires
        s.len() <= BLOCK_SIZE,
    ensures
        encodes_block(spec_compress_block(s), s),
        65 * spec_compress_block(s).len() <= 66 * s.len() + 195,
        elems_shaped(spec_compress_block(s), 0),
        spec_decompress(varint_bytes(s.len()) + spec_compress_block(s)) == Ok::<
            Seq<u8>,
            crate::decompress::DecompressError,
        >(s),
{
    let e = spec_compress_block(s);
    assert(s.take(0) =~= Seq::<u8>::empty());
    lemma_greedy(s, 0, 0, Seq::empty());
    lemma_greedy_shaped(s, 0, 0, Seq::empty());
    assert(Seq::<u8>::empty() + greedy(s, 0, 0) =~= greedy(s, 0, 0));
    let header = varint_bytes(s.len());
    varint::lemma_read_write_roundtrip(s.len() as u32, e);
    assert((header + e).skip(header.len() as int) =~= e);
    assert(e + Seq::<u8>::empty() =~= e);
    lemma_elems_loop(e, Seq::empty(), Seq::empty(), s.len());
}

/// Compresses one block, appending literals and copies to `out`. Four-byte patterns
/// are looked up in a hash table of where they were last seen; a confirmed match is
/// extended as far as it goes and emitted as a copy, after a literal of whatever
/// came before it.
fn compress_block(input: &[u8], out: &mut Vec<u8>)
    requires
        input.len() <= BLOCK_SIZE,
    ensures
        final(out)@ == old(out)@ + spec_compress_block(input@),
{
    let n = input.len();
    let ghost s = input@;
    let ghost start = out@;
    let ghost mut enc: Seq<u8> = Seq::empty();
    let mut seen = HashTable::new(n);
    let mut emitted: usize = 0;  // num input bytes compressed so far
    let mut i: usize = 0;
    let i_limit = n.saturating_sub(3);  // exclusive
    assert(out@ =~= start + enc);
    assert(enc + greedy(s, 0, 0) =~= spec_compress_block(s));
    proof {
        lemma_table_start(s);
    }
    while i < i_limit
        invariant
            n == input.len(),
            s == input@,
            n <= BLOCK_SIZE,
            i_limit == match_limit(n as nat),
            i <= i_limit,
            emitted <= n,
            i < i_limit ==> emitted <= i,
            seen.wf(),
            forall|b: nat|
                b < NUM_BUCKETS ==> seen.view()[b as int] as nat == #[trigger] last_seen(
                    s,
                    i as nat,
                    b,
                ),
            out@ == start + enc,
            enc + greedy(s, i as nat, emitted as nat) == spec_compress_block(s),
        decreases i_limit - i,
    {
        let mut next_i = i + 1;

        // Have we seen this 4-byte pattern before?
        let curr_hash = seen.hash(slice_subrange(input, i, i + 4));
        let i0 = seen.get(curr_hash);
        proof {
            lemma_last_seen_bound(s, i as nat, curr_hash.index());
            assert(last_seen(s, i as nat, curr_hash.index()) == i0);
            assert(s.subrange(i as int, i + 4)[0] == s[i as int]);
            assert(s.subrange(i as int, i + 4)[1] == s[i + 1]);
            assert(s.subrange(i as int, i + 4)[2] == s[i + 2]);
            assert(s.subrange(i as int, i + 4)[3] == s[i + 3]);
            assert(s.subrange(i0 as int, i0 + 4)[0] == s[i0 as int]);
            assert(s.subrange(i0 as int, i0 + 4)[1] == s[i0 + 1]);
            assert(s.subrange(i0 as int, i0 + 4)[2] == s[i0 + 2]);
            assert(s.subrange(i0 as int, i0 + 4)[3] == s[i0 + 3]);
        }
        if i != 0 && input[i] == input[i0] && input[i + 1] == input[i0 + 1] && input[i + 2]
            == input[i0 + 2] && input[i + 3] == input[i0 + 3] {
            // It's a match!
            let offset = i - i0;
            assert(s.subrange(i as int, i + 4) =~= s.subrange(i0 as int, i0 + 4));
            let len = match_len(input, i, i0);
            let ghost emitted0 = emitted;

            if emitted < i {
                emit_literal(slice_subrange(input, emitted, i), out);
                emitted = i;
            }
            emit_copy(offset, len, out);
            emitted = emitted + len;

            next_i = if i + len < i_limit {
                i + len
            } else {
                i_limit
            };
            proof {
                let m = match_bytes(s, emitted0 as int, i as int, i0 as int, len as int);
                assert(out@ =~= start + (enc + m));
                lemma_greedy_step(s, i as nat, emitted0 as nat);
                assert(greedy(s, i as nat, emitted0 as nat) == m + greedy(
                    s,
                    next_i as nat,
                    emitted as nat,
                ));
                assert(enc + greedy(s, i as nat, emitted0 as nat) =~= (enc + m) + greedy(
                    s,
                    next_i as nat,
                    emitted as nat,
                ));
                enc = enc + m;
            }
        } else {
            proof {
                lemma_greedy_step(s, i as nat, emitted as nat);
                assert(greedy(s, i as nat, emitted as nat) == greedy(
                    s,
                    (i + 1) as nat,
                    emitted as nat,
                ));
            }
        }
        let ghost table = seen.view();
        seen.insert(curr_hash, i);
        i = i + 1;
        proof {
            lemma_table_step(s, (i - 1) as nat, i as nat, curr_hash.index(), table, seen.view());
        }
        while i < next_i
            invariant
                n == input.len(),
                s == input@,
                n <= BLOCK_SIZE,
                i_limit == match_limit(n as nat),
                1 <= i <= next_i <= i_limit,
                seen.wf(),
                forall|b: nat|
                    b < NUM_BUCKETS ==> seen.view()[b as int] as nat == #[trigger] last_seen(
                        s,
                        i as nat,
                        b,
                    ),
            decreases next_i - i,
        {
            let hash = seen.hash(slice_subrange(input, i, i + 4));
            let ghost table = seen.view();
            seen.insert(hash, i);
            i = i + 1;
            proof {
                lemma_table_step(s, (i - 1) as nat, i as nat, hash.index(), table, seen.view());
            }
        }
    }

    proof {
        lemma_greedy_end(s, i as nat, emitted as nat);
    }
    if emitted < n {
        emit_literal(slice_subrange(input, emitted, n), out);
    }
    assert(out@ =~= start + (enc + greedy(s, i as nat, emitted as nat)));
}

/// Compresses one piece of at most `BLOCK_SIZE` bytes into a buffer of its own.
fn compress_chunk(chunk: &[u8]) -> (buffer: Vec<u8>)
    requires
        chunk.len() <= BLOCK_SIZE,
    ensures
        buffer@ == spec_compress_block(chunk@),
{
    let mut buffer = Vec::with_capacity(BLOCK_SIZE);
    compress_block(chunk, &mut buffer);
    assert(buffer@ =~= spec_compress_block(chunk@));
    buffer
}

/// How many pieces of `BLOCK_SIZE` bytes (the last possibly shorter) `n` bytes make.
pub open spec fn num_blocks(n: nat) -> nat {
    ((n + BLOCK_SIZE - 1) / (BLOCK_SIZE as int)) as nat
}

/// Piece `j` of `data` cut into pieces of `BLOCK_SIZE` bytes (the last possibly shorter).
pub open spec fn block(data: Seq<u8>, j: int) -> Seq<u8> {
    let end = (j + 1) * BLOCK_SIZE;
    data.subrange(j * BLOCK_SIZE, if end < data.len() { end } else { data.len() as int })
}

/// Compresses each piece of `BLOCK_SIZE` bytes of `input` on its own, in parallel,
/// through rayon's `ParallelSlice::par_chunks`, `ParallelIterator::map` and
/// `ParallelIterator::collect` into a `Vec`. Trusted: rayon cuts the slice into
/// consecutive pieces of `BLOCK_SIZE` bytes, the last possibly shorter and none empty;
/// calls `compress_chunk` on each; and collects the results in the order of the
/// pieces. What each result holds is then what `compress_chunk` ensures.
#[verifier::external_body]
fn compress_blocks_in_parallel(input: &[u8]) -> (blocks: Vec<Vec<u8>>)
    ensures
        blocks.len() == num_blocks(input.len() as nat),
        forall|j: int|
            0 <= j < blocks.len() ==> #[trigger] blocks[j]@ == spec_compress_block(
                block(input@, j),
            ),
{
    input.par_chunks(BLOCK_SIZE).map(compress_chunk).collect()
}

/// How many of `n` bytes the first `j` pieces hold.
pub open spec fn blocks_end(n: nat, j: nat) -> int {
    if j * BLOCK_SIZE < n {
        j * BLOCK_SIZE
    } else {
        n as int
    }
}

/// The header and the pieces, each at most 66/65 of its input plus three bytes, fit
/// in `max_compressed_len`.
proof fn lemma_compressed_size(n: nat, h: nat, body: nat)
    requires
        n <= u32::MAX,
        h >= 1,
        n < 0x80 ==> h == 1,
        n < 0x4000 ==> h <= 2,
        n <= 65536 ==> h <= 3,
        h <= 5,
        65 * body <= 66 * n + 195 * num_blocks(n),
    ensures
        h + body <= max_compressed_len_spec(n),
{
    let b = num_blocks(n);
    assert(b == (n + 65535) / 65536);
    if n == 0 {
        assert(b == 0) by (nonlinear_arith)
            requires
                b == (n + 65535) / 65536,
                n == 0,
        ;
    } else if n <= 65536 {
        assert(b == 1) by (nonlinear_arith)
            requires
                b == (n + 65535) / 65536,
                1 <= n <= 65536,
        ;
        assert(h + body <= 5 + n + n / 64) by (nonlinear_arith)
            requires
                65 * body <= 66 * n + 195,
                1 <= n <= 65536,
                n < 0x80 ==> h == 1,
                n < 0x4000 ==> h <= 2,
                h <= 3,
        ;
    } else {
        assert(b <= n / 65536 + 1) by (nonlinear_arith)
            requires
                b == (n + 65535) / 65536,
        ;
        assert(h + body <= 5 + n + n / 64) by (nonlinear_arith)
            requires
                65 * body <= 66 * n + 195 * b,
                b <= n / 65536 + 1,
                n > 65536,
                h <= 5,
        ;
    }
}

/// Facts about cutting `n` bytes into pieces.
proof fn lemma_num_blocks(n: nat, j: nat)
    ensures
        j < num_blocks(n) ==> j * BLOCK_SIZE < n,
        j >= num_blocks(n) ==> j * BLOCK_SIZE >= n,
{
    let b = BLOCK_SIZE as int;
    assert(b == 65536);
    assert(j < (n + b - 1) / b ==> j * b < n) by (nonlinear_arith)
        requires
            b == 65536,
    ;
    assert(j >= (n + b - 1) / b ==> j * b >= n) by (nonlinear_arith)
        requires
            b == 65536,
    ;
}

/// The compressed forms of the first `j` pieces of `s`, one after the other.
pub open spec fn compressed_blocks(s: Seq<u8>, j: nat) -> Seq<u8>
    decreases j,
{
    if j == 0 {
        Seq::empty()
    } else {
        compressed_blocks(s, (j - 1) as nat) + spec_compress_block(block(s, j - 1))
    }
}

/// The compressed form of `s`: a varint header with its length, then each piece of
/// `BLOCK_SIZE` bytes compressed on its own.
pub open spec fn spec_compress(s: Seq<u8>) -> Seq<u8> {
    varint_bytes(s.len()) + compressed_blocks(s, num_blocks(s.len()))
}

/// The first `j` compressed pieces decode to the first `j` pieces, and take at most
/// 66/65 of their length plus three bytes each.
proof fn lemma_compressed_blocks(s: Seq<u8>, j: nat)
    requires
        j <= num_blocks(s.len()),
    ensures
        encodes_block(compressed_blocks(s, j), s.take(blocks_end(s.len(), j))),
        65 * compressed_blocks(s, j).len() <= 66 * blocks_end(s.len(), j) + 195 * j,
    decreases j,
{
    let n = s.len();
    assert(BLOCK_SIZE == 65536);
    if j == 0 {
        assert(s.take(blocks_end(n, 0)) =~= Seq::<u8>::empty());
    } else {
        let k = (j - 1) as nat;
        lemma_compressed_blocks(s, k);
        lemma_num_blocks(n, k);
        lemma_num_blocks(n, j);
        let prev = compressed_blocks(s, k);
        let c = spec_compress_block(block(s, k as int));
        let start = k * BLOCK_SIZE;
        let end = blocks_end(n, j);
        assert(blocks_end(n, k) == start);
        assert(j * BLOCK_SIZE == k * BLOCK_SIZE + BLOCK_SIZE) by (nonlinear_arith)
            requires
                j == k + 1,
        ;
        assert(end == (if start + BLOCK_SIZE < n { start + BLOCK_SIZE } else { n as int }));
        assert(block(s, k as int) == s.subrange(start, end));
        lemma_compress_block(block(s, k as int));
        lemma_elems_concat(prev, c, Seq::empty());
        lemma_elems_prefix(c, s.take(start), Seq::empty());
        assert(s.take(start) + Seq::<u8>::empty() =~= s.take(start));
        assert(s.take(start) + s.subrange(start, end) =~= s.take(end));
    }
}

/// Decompressing what `compress` makes gives back its input, and what it makes is
/// no longer than `max_compressed_len` says.
pub proof fn lemma_compress_roundtrip(s: Seq<u8>)
    requires
        s.len() <= u32::MAX,
    ensures
        spec_decompress(spec_compress(s)) == Ok::<Seq<u8>, crate::decompress::DecompressError>(s),
        spec_compress(s).len() <= max_compressed_len_spec(s.len()),
{
    let n = s.len();
    let b = num_blocks(n);
    let header = varint_bytes(n);
    let body = compressed_blocks(s, b);
    lemma_compressed_blocks(s, b);
    lemma_num_blocks(n, b);
    assert(blocks_end(n, b) == n);
    assert(s.take(n as int) =~= s);
    varint::lemma_read_write_roundtrip(n as u32, body);
    assert((header + body).skip(header.len() as int) =~= body);
    assert(body + Seq::<u8>::empty() =~= body);
    lemma_elems_grow(body, Seq::empty());
    lemma_elems_loop(body, Seq::empty(), Seq::empty(), n);
    varint::lemma_varint_len(n);
    lemma_compressed_size(n, header.len(), body.len());
}

/// Compresses `input`: a varint header with its length, then each piece of
/// `BLOCK_SIZE` bytes compressed on its own.
pub fn compress(input: &[u8]) -> (compressed: Vec<u8>)
    requires
        input.len() <= u32::MAX,
    ensures
        compressed@ == spec_compress(input@),
{
    let n = input.len() as u32;

    // Header: uncompressed length.
    let mut result: Vec<u8> = Vec::new();
    varint::write(n, &mut result);

    let output_chunks: Vec<Vec<u8>> = compress_blocks_in_parallel(input);

    let mut j: usize = 0;
    assert(result@ =~= varint_bytes(n as nat) + compressed_blocks(input@, 0));
    while j < output_chunks.len()
        invariant
            n == input.len(),
            output_chunks.len() == num_blocks(n as nat),
            forall|k: int|
                0 <= k < output_chunks.len() ==> #[trigger] output_chunks[k]@
                    == spec_compress_block(block(input@, k)),
            j <= output_chunks.len(),
            result@ == varint_bytes(n as nat) + compressed_blocks(input@, j as nat),
        decreases output_chunks.len() - j,
    {
        result.extend_from_slice(output_chunks[j].as_slice());
        j = j + 1;
        assert(result@ =~= varint_bytes(n as nat) + compressed_blocks(input@, j as nat));
    }
    result
}

/// An upper bound on the compressed length of `uncompressed_len` bytes: a five-byte
/// header, the data itself, and at most one byte lost every 64 bytes.
#[allow(dead_code)]
fn max_compressed_len(uncompressed_len: u32) -> (bound: u64)
    ensures
        bound == 5 + uncompressed_len + uncompressed_len / 64,
{
    let n = uncompressed_len as u64;
    // In the worst case, we have:
    // * 5-byte varint header
    // * the data itself
    // * wasting at most 1 byte every 64 bytes
    //
    // The number of wasted bytes is based on the following pattern:
    // * literal of length 61
    // * copy of 4 bytes, at offset >= 2048
    // * ...repeat...
    // which stores 65 bytes of input data as 61 bytes of data plus 5 bytes of
    // metadata: a 2-byte literal tag and a 3-byte copy tag.
    5 + n + n / 64
}

/// How much space to set aside for the compressed form of `uncompressed_len` bytes:
/// `max_compressed_len`, capped at `isize::MAX`.
#[allow(dead_code)]
fn out_buf_capacity(uncompressed_len: u32) -> (capacity: usize)
    ensures
        capacity == (if max_compressed_len_spec(uncompressed_len as nat) <= isize::MAX {
            max_compressed_len_spec(uncompressed_len as nat)
        } else {
            isize::MAX as nat
        }),
{
    let bound = max_compressed_len(uncompressed_len);
    if bound <= isize::MAX as u64 {
        bound as usize
    } else {
        isize::MAX as usize
    }
}

/// `max_compressed_len` as a number.
pub open spec fn max_compressed_len_spec(uncompressed_len: nat) -> nat {
    5 + uncompressed_len + uncompressed_len / 64
}

} // verus!
