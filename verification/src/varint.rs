//! Little-endian base-128 varints, as used for the header of a compressed stream.

use vstd::prelude::*;

verus! {

/// Why a varint could not be read.
#[derive(Debug, Clone, Copy, PartialEq, Eq, Structural)]
pub enum VarintError {
    /// The input ended before the varint's last byte.
    UnexpectedEof,
    /// The fifth byte holds bits that do not fit in a `u32`.
    Overflow,
}

/// The bytes that encode `x`: seven bits per byte, least significant group first,
/// with the high bit set on every byte except the last.
pub open spec fn varint_bytes(x: nat) -> Seq<u8>
    decreases x,
{
    if x < 128 {
        seq![x as u8]
    } else {
        seq![(x % 128 + 128) as u8] + varint_bytes(x / 128)
    }
}

/// Where the varint that starts `s` ends, scanning from index `i`: one past the
/// first byte without its high bit, with at most five bytes, the fifth below 16.
pub open spec fn varint_end(s: Seq<u8>, i: nat) -> Result<nat, VarintError>
    decreases 4 - i,
{
    if i >= s.len() {
        Err(VarintError::UnexpectedEof)
    } else if i >= 4 {
        if s[i as int] < 16 {
            Ok(i + 1)
        } else {
            Err(VarintError::Overflow)
        }
    } else if s[i as int] < 128 {
        Ok(i + 1)
    } else {
        varint_end(s, i + 1)
    }
}

/// The number held by the low seven bits of the first `k` bytes of `s`,
/// least significant group first.
pub open spec fn varint_value(s: Seq<u8>, k: nat) -> nat
    decreases k,
{
    if k == 0 || s.len() == 0 {
        0
    } else {
        (s[0] % 128) as nat + 128 * varint_value(s.drop_first(), (k - 1) as nat)
    }
}

/// What reading a varint at the start of `s` gives: the value and the number of
/// bytes it takes, or the reason it fails.
pub open spec fn spec_read(s: Seq<u8>) -> Result<(nat, nat), VarintError> {
    match varint_end(s, 0) {
        Ok(k) => Ok((varint_value(s, k), k)),
        Err(e) => Err(e),
    }
}

/// `128` to the power `k`.
pub open spec fn pow128(k: nat) -> nat
    decreases k,
{
    if k == 0 {
        1
    } else {
        128 * pow128((k - 1) as nat)
    }
}

/// Adding one byte at the end of a prefix adds its low seven bits at the top.
proof fn lemma_value_snoc(s: Seq<u8>, k: nat)
    requires
        k < s.len(),
    ensures
        varint_value(s, k + 1) == varint_value(s, k) + (s[k as int] % 128) as nat * pow128(k),
    decreases k,
{
    if k > 0 {
        lemma_value_snoc(s.drop_first(), (k - 1) as nat);
        let a = varint_value(s.drop_first(), (k - 1) as nat);
        let b = (s[k as int] % 128) as nat;
        let p = pow128((k - 1) as nat);
        assert(s.drop_first()[k - 1] == s[k as int]);
        assert(128 * (a + b * p) == 128 * a + b * (128 * p)) by (nonlinear_arith);
        assert(varint_value(s, k + 1) == (s[0] % 128) as nat + 128 * varint_value(s.drop_first(), k));
        assert(varint_value(s, k) == (s[0] % 128) as nat + 128 * a);
        assert(pow128(k) == 128 * p);
    } else {
        assert(varint_value(s, 1) == (s[0] % 128) as nat + 128 * varint_value(s.drop_first(), 0));
        assert(pow128(0) == 1);
    }
}

/// Reads the varint at the start of `r`, giving its value and the number of bytes
/// it takes.
pub fn read(r: &[u8]) -> (res: Result<(u32, usize), VarintError>)
    ensures
        match res {
            Ok((v, k)) => spec_read(r@) == Ok::<(nat, nat), VarintError>((v as nat, k as nat))
                && 1 <= k <= r.len(),
            Err(e) => spec_read(r@) == Err::<(nat, nat), VarintError>(e),
        },
{
    let mut out: u32 = 0;
    let mut i: usize = 0;
    loop
        invariant
            i <= 4,
            i <= r.len(),
            forall|j: int| 0 <= j < i ==> r@[j] >= 128,
            varint_end(r@, 0) == varint_end(r@, i as nat),
            out as nat == varint_value(r@, i as nat),
            out < pow128(i as nat),
        decreases 4 - i,
    {
        assert(pow128(1) == 128 && pow128(2) == 16384 && pow128(3) == 2097152 && pow128(4)
            == 268435456) by {
            reveal_with_fuel(pow128, 5);
        }
        if i >= r.len() {
            return Err(VarintError::UnexpectedEof);
        }
        let byte = r[i];
        if i == 4 && byte & 0xf0 != 0 {
            assert(byte & 0xf0 != 0 ==> byte >= 16) by (bit_vector);
            return Err(VarintError::Overflow);
        }
        let low = byte & 0x7f;
        assert(low == byte % 128) by (bit_vector)
            requires
                low == byte & 0x7f,
        ;
        let ghost old_out = out;
        proof {
            lemma_value_snoc(r@, i as nat);
        }
        if i == 4 {
            assert(byte & 0xf0 == 0 ==> byte < 16) by (bit_vector);
        }
        let low32 = low as u32;
        let shift: u32 = i as u32 * 7;
        out |= low32 << shift;
        proof {
            if i == 0 {
                assert(out == old_out + low32) by (bit_vector)
                    requires
                        shift == 0,
                        old_out < 1,
                        out == old_out | (low32 << shift),
                ;
            } else if i == 1 {
                assert(out == old_out + low32 * 128) by (bit_vector)
                    requires
                        shift == 7,
                        old_out < 128,
                        low32 < 128,
                        out == old_out | (low32 << shift),
                ;
            } else if i == 2 {
                assert(out == old_out + low32 * 16384) by (bit_vector)
                    requires
                        shift == 14,
                        old_out < 16384,
                        low32 < 128,
                        out == old_out | (low32 << shift),
                ;
            } else if i == 3 {
                assert(out == old_out + low32 * 2097152) by (bit_vector)
                    requires
                        shift == 21,
                        old_out < 2097152,
                        low32 < 128,
                        out == old_out | (low32 << shift),
                ;
            } else {
                assert(out == old_out + low32 * 268435456) by (bit_vector)
                    requires
                        shift == 28,
                        old_out < 268435456,
                        low32 < 16,
                        out == old_out | (low32 << shift),
                ;
            }
        }
        if byte & 0x80 == 0 {
            assert(byte & 0x80 == 0 ==> byte < 128) by (bit_vector);
            return Ok((out, i + 1));
        }
        assert(byte & 0x80 != 0 ==> byte >= 128) by (bit_vector);
        i = i + 1;
    }
}

/// Appends to `out` the varint that encodes `x`.
pub fn write(x: u32, out: &mut Vec<u8>)
    ensures
        final(out)@ == old(out)@ + varint_bytes(x as nat),
{
    let ghost target = old(out)@ + varint_bytes(x as nat);
    let mut x = x;
    loop
        invariant_except_break
            out@ + varint_bytes(x as nat) == target,
        ensures
            out@ == target,
        decreases x,
    {
        let low_bits = x & 0x7f;
        let high_bit: u8 = if x == low_bits {
            0
        } else {
            0x80
        };
        let byte: u8 = high_bit | (low_bits as u8);
        assert(low_bits == x % 128 && (x == low_bits <==> x < 128)) by (bit_vector)
            requires
                low_bits == x & 0x7f,
        ;
        assert(byte == if x < 128 { x as u8 } else { (x % 128 + 128) as u8 }) by (bit_vector)
            requires
                low_bits == x & 0x7f,
                high_bit == if x == low_bits { 0u8 } else { 0x80u8 },
                byte == high_bit | (low_bits as u8),
        ;
        let ghost before = out@;
        let ghost old_x = x;
        out.push(byte);
        assert(x >> 7 == x / 128) by (bit_vector);
        x = x >> 7;
        if x == 0 {
            assert(out@ =~= before + varint_bytes(old_x as nat));
            break;
        }
        assert(out@ + varint_bytes(x as nat) =~= before + (seq![byte] + varint_bytes(x as nat)));
    }
}

/// The low seven bits of the bytes of `varint_bytes(x)` give back `x`, whatever follows.
proof fn lemma_value_of_bytes(x: nat, rest: Seq<u8>)
    ensures
        varint_value(varint_bytes(x) + rest, varint_bytes(x).len()) == x,
        varint_bytes(x).len() >= 1,
    decreases x,
{
    let s = varint_bytes(x) + rest;
    if x < 128 {
        assert(s[0] == x as u8);
        assert(varint_value(s.drop_first(), 0) == 0);
    } else {
        lemma_value_of_bytes(x / 128, rest);
        assert(s.drop_first() =~= varint_bytes(x / 128) + rest);
        assert(s[0] == (x % 128 + 128) as u8);
    }
}

/// Scanning `varint_bytes(y)` placed at index `i` ends just after it, provided
/// `y` shifted to that position fits in a `u32`.
proof fn lemma_end_of_bytes(s: Seq<u8>, i: nat, y: nat)
    requires
        i <= 4,
        i + varint_bytes(y).len() <= s.len(),
        s.subrange(i as int, (i + varint_bytes(y).len()) as int) == varint_bytes(y),
        y < pow128((4 - i) as nat) * 16,
    ensures
        varint_end(s, i) == Ok::<nat, VarintError>(i + varint_bytes(y).len()),
    decreases y,
{
    lemma_value_of_bytes(y, Seq::empty());
    let b = varint_bytes(y);
    assert(s[i as int] == s.subrange(i as int, (i + b.len()) as int)[0]);
    if y < 128 {
        if i == 4 {
            assert(pow128(0) == 1);
        }
    } else {
        if i == 4 {
            assert(pow128(0) == 1);
        }
        let b2 = varint_bytes(y / 128);
        lemma_value_of_bytes(y / 128, Seq::empty());
        assert(s.subrange((i + 1) as int, (i + 1 + b2.len()) as int) =~= b.subrange(1, b.len() as int));
        assert(b.subrange(1, b.len() as int) =~= b2);
        assert(pow128((4 - i) as nat) == 128 * pow128((4 - (i + 1)) as nat));
        lemma_end_of_bytes(s, i + 1, y / 128);
    }
}

/// Reading back what `write` wrote gives the same number and consumes exactly the
/// bytes written, whatever follows them.
pub proof fn lemma_read_write_roundtrip(x: u32, rest: Seq<u8>)
    ensures
        spec_read(varint_bytes(x as nat) + rest) == Ok::<(nat, nat), VarintError>(
            (x as nat, varint_bytes(x as nat).len()),
        ),
{
    let b = varint_bytes(x as nat);
    let s = b + rest;
    lemma_value_of_bytes(x as nat, rest);
    assert(s.subrange(0, b.len() as int) =~= b);
    assert(pow128(4) == 268435456) by {
        reveal_with_fuel(pow128, 5);
    }
    lemma_end_of_bytes(s, 0, x as nat);
}

/// How many bytes the varint of `x` takes: one below 2^7, then one more for each
/// further seven bits.
pub proof fn lemma_varint_len(x: nat)
    ensures
        varint_bytes(x).len() >= 1,
        x < 0x80 ==> varint_bytes(x).len() == 1,
        x < 0x4000 ==> varint_bytes(x).len() <= 2,
        x < 0x20_0000 ==> varint_bytes(x).len() <= 3,
        x < 0x1000_0000 ==> varint_bytes(x).len() <= 4,
        x <= u32::MAX ==> varint_bytes(x).len() <= 5,
    decreases x,
{
    if x >= 128 {
        lemma_varint_len(x / 128);
    }
}

/// The bytes `write` gives for each size of number: seven bits per byte, least
/// significant first, the high bit set on every byte but the last.
pub proof fn lemma_write_format(x: u32)
    ensures
        x < 0x80 ==> varint_bytes(x as nat) == seq![x as u8],
        0x80 <= x < 0x4000 ==> varint_bytes(x as nat) == seq![
            (x % 128 + 128) as u8,
            (x / 128) as u8,
        ],
        0x4000 <= x < 0x20_0000 ==> varint_bytes(x as nat) == seq![
            (x % 128 + 128) as u8,
            (x / 128 % 128 + 128) as u8,
            (x / 0x4000) as u8,
        ],
        0x20_0000 <= x < 0x1000_0000 ==> varint_bytes(x as nat) == seq![
            (x % 128 + 128) as u8,
            (x / 128 % 128 + 128) as u8,
            (x / 0x4000 % 128 + 128) as u8,
            (x / 0x20_0000) as u8,
        ],
        0x1000_0000 <= x ==> varint_bytes(x as nat) == seq![
            (x % 128 + 128) as u8,
            (x / 128 % 128 + 128) as u8,
            (x / 0x4000 % 128 + 128) as u8,
            (x / 0x20_0000 % 128 + 128) as u8,
            (x / 0x1000_0000) as u8,
        ],
{
    let x = x as nat;
    reveal_with_fuel(varint_bytes, 6);
    assert(x / 128 / 128 == x / 0x4000);
    assert(x / 0x4000 / 128 == x / 0x20_0000);
    assert(x / 0x20_0000 / 128 == x / 0x1000_0000);
    if x >= 0x80 {
        assert(varint_bytes(x) == seq![(x % 128 + 128) as u8] + varint_bytes(x / 128));
    }
    if x >= 0x4000 {
        assert(varint_bytes(x / 128) == seq![(x / 128 % 128 + 128) as u8] + varint_bytes(
            x / 0x4000,
        ));
    }
    if x >= 0x20_0000 {
        assert(varint_bytes(x / 0x4000) == seq![(x / 0x4000 % 128 + 128) as u8] + varint_bytes(
            x / 0x20_0000,
        ));
    }
    if x >= 0x1000_0000 {
        assert(varint_bytes(x / 0x20_0000) == seq![(x / 0x20_0000 % 128 + 128) as u8]
            + varint_bytes(x / 0x1000_0000));
    }
    assert(varint_bytes(x) =~= (if x < 0x80 {
        seq![x as u8]
    } else if x < 0x4000 {
        seq![(x % 128 + 128) as u8, (x / 128) as u8]
    } else if x < 0x20_0000 {
        seq![(x % 128 + 128) as u8, (x / 128 % 128 + 128) as u8, (x / 0x4000) as u8]
    } else if x < 0x1000_0000 {
        seq![
            (x % 128 + 128) as u8,
            (x / 128 % 128 + 128) as u8,
            (x / 0x4000 % 128 + 128) as u8,
            (x / 0x20_0000) as u8,
        ]
    } else {
        seq![
            (x % 128 + 128) as u8,
            (x / 128 % 128 + 128) as u8,
            (x / 0x4000 % 128 + 128) as u8,
            (x / 0x20_0000 % 128 + 128) as u8,
            (x / 0x1000_0000) as u8,
        ]
    }));
}

/// What `read` gives for each number of bytes: the value is the low seven bits of
/// each byte, least significant first, up to the first byte below 128; a fifth byte
/// must be below 16, and input that ends first is refused.
pub proof fn lemma_read_format(s: Seq<u8>)
    ensures
        s.len() == 0 ==> spec_read(s) == Err::<(nat, nat), VarintError>(
            VarintError::UnexpectedEof,
        ),
        s.len() >= 1 && s[0] < 128 ==> spec_read(s) == Ok::<(nat, nat), VarintError>(
            (s[0] as nat, 1),
        ),
        s.len() >= 1 && s[0] >= 128 ==> {
            &&& s.len() == 1 ==> spec_read(s) == Err::<(nat, nat), VarintError>(
                VarintError::UnexpectedEof,
            )
            &&& s.len() >= 2 && s[1] < 128 ==> spec_read(s) == Ok::<(nat, nat), VarintError>(
                (((s[0] - 128) + 128 * s[1]) as nat, 2),
            )
        },
        s.len() >= 2 && s[0] >= 128 && s[1] >= 128 ==> {
            &&& s.len() == 2 ==> spec_read(s) == Err::<(nat, nat), VarintError>(
                VarintError::UnexpectedEof,
            )
            &&& s.len() >= 3 && s[2] < 128 ==> spec_read(s) == Ok::<(nat, nat), VarintError>(
                (((s[0] - 128) + 128 * (s[1] - 128) + 0x4000 * s[2]) as nat, 3),
            )
        },
        s.len() >= 3 && s[0] >= 128 && s[1] >= 128 && s[2] >= 128 ==> {
            &&& s.len() == 3 ==> spec_read(s) == Err::<(nat, nat), VarintError>(
                VarintError::UnexpectedEof,
            )
            &&& s.len() >= 4 && s[3] < 128 ==> spec_read(s) == Ok::<(nat, nat), VarintError>(
                (((s[0] - 128) + 128 * (s[1] - 128) + 0x4000 * (s[2] - 128) + 0x20_0000 * s[3]) as nat, 4),
            )
        },
        s.len() >= 4 && s[0] >= 128 && s[1] >= 128 && s[2] >= 128 && s[3] >= 128 ==> {
            &&& s.len() == 4 ==> spec_read(s) == Err::<(nat, nat), VarintError>(
                VarintError::UnexpectedEof,
            )
            &&& s.len() >= 5 && s[4] < 16 ==> spec_read(s) == Ok::<(nat, nat), VarintError>(
                (
                    ((s[0] - 128) + 128 * (s[1] - 128) + 0x4000 * (s[2] - 128) + 0x20_0000 * (s[3]
                        - 128) + 0x1000_0000 * s[4]) as nat,
                    5,
                ),
            )
            &&& s.len() >= 5 && s[4] >= 16 ==> spec_read(s) == Err::<(nat, nat), VarintError>(
                VarintError::Overflow,
            )
        },
{
    reveal_with_fuel(varint_end, 6);
    reveal_with_fuel(varint_value, 6);
    if s.len() >= 2 {
        assert(s.drop_first()[0] == s[1]);
    }
    if s.len() >= 3 {
        assert(s.drop_first().drop_first()[0] == s[2]);
    }
    if s.len() >= 4 {
        assert(s.drop_first().drop_first().drop_first()[0] == s[3]);
    }
    if s.len() >= 5 {
        assert(s.drop_first().drop_first().drop_first().drop_first()[0] == s[4]);
    }
}

} // verus!
