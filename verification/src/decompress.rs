//! Decoding a compressed stream back into the bytes it stands for.

pub mod tag;

use vstd::prelude::*;
use vstd::slice::slice_subrange;
use crate::varint;
use crate::varint::VarintError;
use self::tag::{Tag, TagError, spec_read_tag, lemma_read_tag_size, lemma_read_tag_prefix};

verus! {

/// Why a compressed stream could not be decoded.
#[derive(Debug, Clone, Copy, PartialEq, Eq, Structural)]
pub enum DecompressError {
    /// The header that holds the uncompressed length could not be read.
    TotalLen(VarintError),
    /// An element's tag could not be read.
    Tag(TagError),
    /// A literal would make the output longer than the header says.
    LiteralTooLong,
    /// The input ended inside a literal.
    LiteralEof,
    /// A copy has offset zero.
    CopyOffsetZero,
    /// A copy reaches back before the start of the output.
    CopyOffsetTooFar,
    /// A copy would make the output longer than the header says.
    CopyTooLong,
    /// The output came out longer than the header says. The checks on each literal
    /// and copy rule this out; the decoder still tests for it at the end.
    OutputTooLong,
}

/// `out` followed by `len` bytes copied from `offset` bytes back, where the copy may
/// overlap the bytes it produces (so a short offset repeats a pattern).
pub open spec fn copy_bytes(out: Seq<u8>, offset: nat, len: nat) -> Seq<u8> {
    out + Seq::new(len, |k: int| out[out.len() - offset + k % (offset as int)])
}

/// A copy appends `len` bytes to the output, each equal to the byte `offset` places
/// before it, so that a copy overlapping its own output repeats the last `offset`
/// bytes.
pub proof fn lemma_copy_bytes_law(out: Seq<u8>, offset: nat, len: nat)
    requires
        1 <= offset <= out.len(),
    ensures
        copy_bytes(out, offset, len).len() == out.len() + len,
        copy_bytes(out, offset, len).take(out.len() as int) == out,
        forall|k: int|
            out.len() <= k < out.len() + len ==> #[trigger] copy_bytes(out, offset, len)[k]
                == copy_bytes(out, offset, len)[k - offset],
{
    let r = copy_bytes(out, offset, len);
    let n = out.len() as int;
    let o = offset as int;
    assert(r.take(n) =~= out);
    assert forall|k: int| n <= k < n + len implies #[trigger] r[k] == r[k - o] by {
        let j = k - n;
        if j < o {
            vstd::arithmetic::div_mod::lemma_small_mod(j as nat, offset);
            assert(r[k - o] == out[k - o]);
        } else {
            vstd::arithmetic::div_mod::lemma_mod_add_multiples_vanish(j - o, o);
            assert(o + (j - o) == j);
        }
    }
}

/// Decodes elements from `s` onto `out` until the output holds `total` bytes, as the
/// decoder does: each literal and copy is checked against `total` and the input.
/// Bytes left over once `total` is reached are ignored.
pub open spec fn decode_loop(s: Seq<u8>, out: Seq<u8>, total: nat) -> Result<
    Seq<u8>,
    DecompressError,
>
    decreases s.len(),
{
    if out.len() >= total {
        Ok(out)
    } else {
        match spec_read_tag(s) {
            Err(e) => Err(DecompressError::Tag(e)),
            Ok((Tag::Literal { len }, n)) => {
                proof {
                    lemma_read_tag_size(s);
                }
                let rest = s.skip(n as int);
                if out.len() + len > total {
                    Err(DecompressError::LiteralTooLong)
                } else if rest.len() < len {
                    Err(DecompressError::LiteralEof)
                } else {
                    decode_loop(rest.skip(len as int), out + rest.take(len as int), total)
                }
            },
            Ok((Tag::Copy { offset, len }, n)) => {
                proof {
                    lemma_read_tag_size(s);
                }
                if offset == 0 {
                    Err(DecompressError::CopyOffsetZero)
                } else if offset > out.len() {
                    Err(DecompressError::CopyOffsetTooFar)
                } else if out.len() + len > total {
                    Err(DecompressError::CopyTooLong)
                } else {
                    decode_loop(s.skip(n as int), copy_bytes(out, offset as nat, len as nat), total)
                }
            },
        }
    }
}

/// What decompressing `s` gives: the header is read as the uncompressed length, and
/// the elements after it are decoded until that many bytes are out.
pub open spec fn spec_decompress(s: Seq<u8>) -> Result<Seq<u8>, DecompressError> {
    match varint::spec_read(s) {
        Err(e) => Err(DecompressError::TotalLen(e)),
        Ok((total, k)) => decode_loop(s.skip(k as int), Seq::empty(), total),
    }
}

/// Decodes every element of `s` onto `out`, with no length limit: `None` if some
/// element is malformed, runs past the end of `s`, or copies from before the start
/// of the output.
pub open spec fn decode_elems(s: Seq<u8>, out: Seq<u8>) -> Option<Seq<u8>>
    decreases s.len(),
{
    if s.len() == 0 {
        Some(out)
    } else {
        match spec_read_tag(s) {
            Err(_) => None,
            Ok((Tag::Literal { len }, n)) => {
                proof {
                    lemma_read_tag_size(s);
                }
                let rest = s.skip(n as int);
                if rest.len() < len {
                    None
                } else {
                    decode_elems(rest.skip(len as int), out + rest.take(len as int))
                }
            },
            Ok((Tag::Copy { offset, len }, n)) => {
                proof {
                    lemma_read_tag_size(s);
                }
                if offset == 0 || offset > out.len() {
                    None
                } else {
                    decode_elems(s.skip(n as int), copy_bytes(out, offset as nat, len as nat))
                }
            },
        }
    }
}

/// Decoding elements only appends to the output, and a nonempty run of elements
/// appends at least one byte.
pub proof fn lemma_elems_grow(s: Seq<u8>, out: Seq<u8>)
    requires
        decode_elems(s, out) is Some,
    ensures
        decode_elems(s, out).unwrap().len() >= out.len(),
        s.len() > 0 ==> decode_elems(s, out).unwrap().len() > out.len(),
    decreases s.len(),
{
    if s.len() > 0 {
        lemma_read_tag_size(s);
        match spec_read_tag(s) {
            Ok((Tag::Literal { len }, n)) => {
                let rest = s.skip(n as int);
                lemma_elems_grow(rest.skip(len as int), out + rest.take(len as int));
            },
            Ok((Tag::Copy { offset, len }, n)) => {
                lemma_elems_grow(s.skip(n as int), copy_bytes(out, offset as nat, len as nat));
            },
            Err(_) => {},
        }
    }
}

/// Elements decode the same after any earlier output: copies never reach before the
/// output they were decoded onto.
pub proof fn lemma_elems_prefix(s: Seq<u8>, p: Seq<u8>, out: Seq<u8>)
    requires
        decode_elems(s, out) is Some,
    ensures
        decode_elems(s, p + out) == Some(p + decode_elems(s, out).unwrap()),
    decreases s.len(),
{
    if s.len() > 0 {
        lemma_read_tag_size(s);
        match spec_read_tag(s) {
            Ok((Tag::Literal { len }, n)) => {
                let rest = s.skip(n as int);
                assert(p + out + rest.take(len as int) =~= p + (out + rest.take(len as int)));
                lemma_elems_prefix(rest.skip(len as int), p, out + rest.take(len as int));
            },
            Ok((Tag::Copy { offset, len }, n)) => {
                let c = copy_bytes(out, offset as nat, len as nat);
                assert(copy_bytes(p + out, offset as nat, len as nat) =~= p + c);
                lemma_elems_prefix(s.skip(n as int), p, c);
            },
            Err(_) => {},
        }
    }
}

/// Decoding `a` then `b` is decoding `a + b`.
pub proof fn lemma_elems_concat(a: Seq<u8>, b: Seq<u8>, out: Seq<u8>)
    requires
        decode_elems(a, out) is Some,
    ensures
        decode_elems(a + b, out) == decode_elems(b, decode_elems(a, out).unwrap()),
    decreases a.len(),
{
    if a.len() == 0 {
        assert(a + b =~= b);
    } else {
        lemma_read_tag_size(a);
        lemma_read_tag_prefix(a, b);
        match spec_read_tag(a) {
            Ok((Tag::Literal { len }, n)) => {
                let rest = a.skip(n as int);
                let rest2 = (a + b).skip(n as int);
                assert(rest2 =~= rest + b);
                assert(rest2.take(len as int) =~= rest.take(len as int));
                assert(rest2.skip(len as int) =~= rest.skip(len as int) + b);
                lemma_elems_concat(rest.skip(len as int), b, out + rest.take(len as int));
            },
            Ok((Tag::Copy { offset, len }, n)) => {
                assert((a + b).skip(n as int) =~= a.skip(n as int) + b);
                lemma_elems_concat(
                    a.skip(n as int),
                    b,
                    copy_bytes(out, offset as nat, len as nat),
                );
            },
            Err(_) => {},
        }
    }
}

/// When elements decode without going past `total`, the decoder's loop runs through
/// all of them and carries on after them.
pub proof fn lemma_elems_loop(s: Seq<u8>, rest: Seq<u8>, out: Seq<u8>, total: nat)
    requires
        decode_elems(s, out) is Some,
        decode_elems(s, out).unwrap().len() <= total,
    ensures
        decode_loop(s + rest, out, total) == decode_loop(rest, decode_elems(s, out).unwrap(), total),
    decreases s.len(),
{
    if s.len() == 0 {
        assert(s + rest =~= rest);
    } else {
        lemma_elems_grow(s, out);
        lemma_read_tag_size(s);
        lemma_read_tag_prefix(s, rest);
        match spec_read_tag(s) {
            Ok((Tag::Literal { len }, n)) => {
                let r = s.skip(n as int);
                let r2 = (s + rest).skip(n as int);
                let out2 = out + r.take(len as int);
                assert(r2 =~= r + rest);
                assert(r2.take(len as int) =~= r.take(len as int));
                assert(r2.skip(len as int) =~= r.skip(len as int) + rest);
                lemma_elems_grow(r.skip(len as int), out2);
                lemma_elems_loop(r.skip(len as int), rest, out2, total);
            },
            Ok((Tag::Copy { offset, len }, n)) => {
                let out2 = copy_bytes(out, offset as nat, len as nat);
                assert((s + rest).skip(n as int) =~= s.skip(n as int) + rest);
                lemma_elems_grow(s.skip(n as int), out2);
                lemma_elems_loop(s.skip(n as int), rest, out2, total);
            },
            Err(_) => {},
        }
    }
}

/// Decodes a whole compressed stream.
pub fn decompress(compressed: &[u8]) -> (res: Result<Vec<u8>, DecompressError>)
    ensures
        match res {
            Ok(v) => spec_decompress(compressed@) == Ok::<Seq<u8>, DecompressError>(v@),
            Err(e) => spec_decompress(compressed@) == Err::<Seq<u8>, DecompressError>(e),
        },
{
    let (total_len, header) = match varint::read(compressed) {
        Ok(x) => x,
        Err(e) => return Err(DecompressError::TotalLen(e)),
    };
    let total = total_len as usize;
    let mut out: Vec<u8> = Vec::with_capacity(total);
    let mut pos: usize = header;
    let ghost goal = spec_decompress(compressed@);
    while out.len() < total
        invariant
            pos <= compressed.len(),
            out.len() <= total,
            total == total_len,
            goal == spec_decompress(compressed@),
            goal == decode_loop(compressed@.skip(pos as int), out@, total as nat),
        decreases compressed.len() - pos,
    {
        let rest = slice_subrange(compressed, pos, compressed.len());
        assert(rest@ =~= compressed@.skip(pos as int));
        let (tag, n) = match tag::read(rest) {
            Ok(x) => x,
            Err(e) => return Err(DecompressError::Tag(e)),
        };
        proof {
            lemma_read_tag_size(rest@);
        }
        match tag {
            Tag::Literal { len } => {
                let data = slice_subrange(compressed, pos + n, compressed.len());
                assert(data@ =~= rest@.skip(n as int));
                match decompress_literal(data, len, &mut out, total) {
                    Ok(m) => {
                        assert(compressed@.skip((pos + n + m) as int) =~= data@.skip(m as int));
                        pos = pos + n + m;
                    },
                    Err(e) => return Err(e),
                }
            },
            Tag::Copy { offset, len } => {
                match decompress_copy(offset, len, &mut out, total) {
                    Ok(()) => {
                        assert(compressed@.skip((pos + n) as int) =~= rest@.skip(n as int));
                        pos = pos + n;
                    },
                    Err(e) => return Err(e),
                }
            },
        }
    }
    if out.len() != total {
        return Err(DecompressError::OutputTooLong);
    }
    Ok(out)
}

/// Appends the `len` bytes of a literal, taken from the start of `r`, to `out`,
/// unless that would make `out` longer than `total_len` or `r` is too short.
/// On success gives the number of bytes taken from `r`.
fn decompress_literal(r: &[u8], len: u32, out: &mut Vec<u8>, total_len: usize) -> (res: Result<
    usize,
    DecompressError,
>)
    ensures
        old(out).len() + len > total_len ==> res == Err::<usize, DecompressError>(
            DecompressError::LiteralTooLong,
        ),
        old(out).len() + len <= total_len && r.len() < len ==> res == Err::<
            usize,
            DecompressError,
        >(DecompressError::LiteralEof),
        old(out).len() + len <= total_len && r.len() >= len ==> res == Ok::<
            usize,
            DecompressError,
        >(len as usize) && final(out)@ == old(out)@ + r@.take(len as int),
        res is Err ==> final(out)@ == old(out)@,
{
    let len = len as usize;
    match out.len().checked_add(len) {
        Some(end) => {
            if end > total_len {
                return Err(DecompressError::LiteralTooLong);
            }
        },
        None => return Err(DecompressError::LiteralTooLong),
    }
    if r.len() < len {
        return Err(DecompressError::LiteralEof);
    }
    let data = slice_subrange(r, 0, len);
    let ghost before = out@;
    out.extend_from_slice(data);
    assert(out@ =~= before + r@.take(len as int));
    Ok(len)
}

/// Appends `len` bytes copied from `offset` bytes back to `out` (the copy may overlap
/// what it appends), unless the offset is zero, reaches before the start of `out`,
/// or the copy would make `out` longer than `total_len`.
fn decompress_copy(offset: u32, len: u8, out: &mut Vec<u8>, total_len: usize) -> (res: Result<
    (),
    DecompressError,
>)
    ensures
        offset == 0 ==> res == Err::<(), DecompressError>(DecompressError::CopyOffsetZero),
        offset != 0 && offset > old(out).len() ==> res == Err::<(), DecompressError>(
            DecompressError::CopyOffsetTooFar,
        ),
        offset != 0 && offset <= old(out).len() && old(out).len() + len > total_len ==> res
            == Err::<(), DecompressError>(DecompressError::CopyTooLong),
        offset != 0 && offset <= old(out).len() && old(out).len() + len <= total_len ==> res
            == Ok::<(), DecompressError>(()) && final(out)@ == copy_bytes(
            old(out)@,
            offset as nat,
            len as nat,
        ),
        res is Err ==> final(out)@ == old(out)@,
{
    let offset = offset as usize;
    let len = len as usize;
    if offset == 0 {
        return Err(DecompressError::CopyOffsetZero);
    }
    if offset > out.len() {
        return Err(DecompressError::CopyOffsetTooFar);
    }
    match out.len().checked_add(len) {
        Some(end) => {
            if end > total_len {
                return Err(DecompressError::CopyTooLong);
            }
        },
        None => return Err(DecompressError::CopyTooLong),
    }
    let start_len = out.len();
    let finished_len = out.len() + len;
    let ghost old_out = out@;
    assert(out@ =~= copy_bytes(old_out, offset as nat, 0));
    while out.len() < finished_len
        invariant
            start_len <= out.len() <= finished_len,
            1 <= offset <= start_len,
            old_out.len() == start_len,
            out@ == copy_bytes(old_out, offset as nat, (out.len() - start_len) as nat),
        decreases finished_len - out.len(),
    {
        let j: usize = out.len() - start_len;
        let b = out[out.len() - offset];
        proof {
            let oi = offset as int;
            let ji = j as int;
            if ji < oi {
                vstd::arithmetic::div_mod::lemma_small_mod(j as nat, offset as nat);
            } else {
                vstd::arithmetic::div_mod::lemma_mod_add_multiples_vanish(ji - oi, oi);
                assert(oi + (ji - oi) == ji);
            }
            assert(b == old_out[start_len - oi + ji % oi]);
        }
        out.push(b);
        assert(out@ =~= copy_bytes(old_out, offset as nat, (j + 1) as nat));
    }
    Ok(())
}

} // verus!
