//! The storage engine: reading and writing a run of bits that may start in
//! the middle of a byte and cross any number of byte boundaries.
//!
//! Absolute bit `p` of a buffer is bit `p % 8` (0 = least significant) of
//! byte `p / 8`. A field of width `w` at offset `o` holds bit `k` of its value
//! at absolute bit `o + k`.

use vstd::arithmetic::div_mod::{lemma_div_denominator, lemma_small_mod};
use vstd::arithmetic::power2::{lemma2_to64, lemma_pow2_adds, lemma_pow2_pos, pow2};
use vstd::bits::{
    lemma_u64_low_bits_mask_is_mod, lemma_u64_pow2_no_overflow, lemma_u64_shl_is_mul,
    lemma_u64_shr_is_div, low_bits_mask,
};
use vstd::prelude::*;

verus! {

/// Bit `p` of the buffer, as 0 or 1.
pub open spec fn bit_at(data: Seq<u8>, p: int) -> u64 {
    ((data[p / 8] as u64) >> ((p % 8) as u64)) & 1
}

/// Bit `k` of `value`, as 0 or 1.
pub open spec fn value_bit(value: u64, k: int) -> u64 {
    (value >> (k as u64)) & 1
}

/// The `n` low bits set, for `n < 64`.
spec fn low_bits(n: u64) -> u64 {
    ((1u64 << n) - 1) as u64
}

/// The low `width` bits of `value`, that is `value mod 2^width`: what a field
/// of that width keeps of a value written to it.
pub open spec fn truncated(value: u64, width: nat) -> u64 {
    (value as nat % pow2(width)) as u64
}

/// The value held by the `width` bits starting at bit `offset`, assembled
/// LSB first: bit `offset + k` of the buffer becomes bit `k` of the result.
pub open spec fn field_value(data: Seq<u8>, offset: int, width: nat) -> u64
    decreases width,
{
    if width == 0 {
        0
    } else {
        let k = (width - 1) as nat;
        field_value(data, offset, k) | (bit_at(data, offset + k) << (k as u64))
    }
}

/// `after` is `before` with the `width` bits at `offset` replaced by the low
/// `width` bits of `value`, and every other bit kept.
pub open spec fn writes(
    before: Seq<u8>,
    after: Seq<u8>,
    offset: int,
    width: nat,
    value: u64,
) -> bool {
    &&& after.len() == before.len()
    &&& forall|p: int|
        0 <= p < 8 * before.len() ==> #[trigger] bit_at(after, p) == if offset <= p < offset
            + width {
            value_bit(value, p - offset)
        } else {
            bit_at(before, p)
        }
}

proof fn lemma_shl_or(x: u64, z: u64, a: u64)
    by (bit_vector)
    ensures
        (x | z) << a == (x << a) | (z << a),
{
}

proof fn lemma_shl_shl(y: u64, a: u64, b: u64)
    by (bit_vector)
    requires
        a + b < 64,
    ensures
        (y << b) << a == y << ((a + b) as u64),
{
}

proof fn lemma_or_zero_shl(x: u64, a: u64)
    by (bit_vector)
    ensures
        x | (0u64 << a) == x,
{
}

proof fn lemma_or_assoc(x: u64, y: u64, z: u64)
    by (bit_vector)
    ensures
        (x | y) | z == x | (y | z),
{
}

/// Reading `a + b` bits is reading `a` bits, then `b` more placed above them.
proof fn lemma_field_split(data: Seq<u8>, offset: int, a: nat, b: nat)
    requires
        a + b <= 64,
    ensures
        field_value(data, offset, a + b) == field_value(data, offset, a) | (field_value(
            data,
            offset + a,
            b,
        ) << (a as u64)),
    decreases b,
{
    let lo = field_value(data, offset, a);
    if b == 0 {
        lemma_or_zero_shl(lo, a as u64);
    } else {
        lemma_field_split(data, offset, a, (b - 1) as nat);
        let mid = field_value(data, offset + a, (b - 1) as nat);
        let bit = bit_at(data, offset + a + b - 1);
        assert(offset + (a + b) - 1 == (offset + a) + b - 1);
        lemma_shl_or(mid, bit << ((b - 1) as u64), a as u64);
        lemma_shl_shl(bit, a as u64, (b - 1) as u64);
        lemma_or_assoc(lo, mid << (a as u64), bit << ((a + b - 1) as u64));
    }
}

proof fn lemma_byte_bits_step(x: u8, s: u64, n: u64)
    by (bit_vector)
    requires
        s + n < 8,
    ensures
        (((x as u64) >> s) & low_bits(n)) | ((((x as u64) >> ((s + n) as u64)) & 1) << n) == (
        (x as u64) >> s) & low_bits((n + 1) as u64),
{
}

proof fn lemma_div_mod_8(p: int, index: int, j: int)
    requires
        0 <= j < 8,
        p == 8 * index + j,
    ensures
        p / 8 == index,
        p % 8 == j,
{
}

/// `n` bits starting at bit `s` of byte `index` are that byte shifted right
/// by `s` and masked to `n` bits.
proof fn lemma_field_in_byte(data: Seq<u8>, index: int, s: u64, n: u64)
    requires
        0 <= index < data.len(),
        s + n <= 8,
    ensures
        field_value(data, 8 * index + s, n as nat) == ((data[index] as u64) >> s) & low_bits(n),
    decreases n,
{
    let x = data[index];
    if n == 0 {
        assert(((x as u64) >> s) & low_bits(0) == 0) by (bit_vector);
    } else {
        let m = (n - 1) as u64;
        lemma_field_in_byte(data, index, s, m);
        lemma_div_mod_8(8 * index + s + m, index, (s + m) as int);
        lemma_byte_bits_step(x, s, m);
    }
}

proof fn lemma_mask_nonzero(n: u64)
    by (bit_vector)
    requires
        1 <= n <= 8,
    ensures
        1u64 << n >= 1,
        low_bits(n) == (1u64 << n) - 1,
{
}

/// Reads the `width` bits that start at bit `offset`, LSB first, with no sign
/// extension.
pub fn read_bits(data: &Vec<u8>, offset: usize, width: usize) -> (r: u64)
    requires
        width <= 64,
        offset + width <= usize::MAX,
        offset + width <= 8 * data@.len(),
    ensures
        r == field_value(data@, offset as int, width as nat),
{
    let mut acc: u64 = 0;
    let mut done: usize = 0;
    while done < width
        invariant
            done <= width <= 64,
            offset + width <= usize::MAX,
            offset + width <= 8 * data@.len(),
            acc == field_value(data@, offset as int, done as nat),
        decreases width - done,
    {
        let pos = offset + done;
        let index = pos / 8;
        let shift = pos % 8;
        let mut count = 8 - shift;
        if count > width - done {
            count = width - done;
        }
        proof {
            lemma_mask_nonzero(count as u64);
        }
        let chunk = ((data[index] as u64) >> (shift as u64)) & ((1u64 << (count as u64)) - 1);
        proof {
            lemma_field_in_byte(data@, index as int, shift as u64, count as u64);
            lemma_field_split(data@, offset as int, done as nat, count as nat);
        }
        acc = acc | (chunk << (done as u64));
        done = done + count;
    }
    acc
}

proof fn lemma_merge_byte(b: u8, rest: u64, shift: u64, count: u64, j: u64)
    by (bit_vector)
    requires
        1 <= count,
        shift + count <= 8,
        j < 8,
    ensures
        (((b & !((low_bits(count) << shift) as u8)) | (((rest & low_bits(count)) << shift) as u8))
            as u64 >> j) & 1 == if shift <= j && j < shift + count {
            (rest >> ((j - shift) as u64)) & 1
        } else {
            ((b as u64) >> j) & 1
        },
{
}

proof fn lemma_shr_shr(v: u64, a: u64, b: u64)
    requires
        a + b < 64,
    ensures
        (v >> a) >> b == v >> ((a + b) as u64),
{
    let c = (a + b) as u64;
    lemma_u64_shr_is_div(v, a);
    lemma_u64_shr_is_div(v >> a, b);
    lemma_u64_shr_is_div(v, c);
    lemma_pow2_pos(a as nat);
    lemma_pow2_pos(b as nat);
    lemma_pow2_adds(a as nat, b as nat);
    lemma_div_denominator(v as int, pow2(a as nat) as int, pow2(b as nat) as int);
}

proof fn lemma_shr_zero(v: u64)
    by (bit_vector)
    ensures
        v >> 0u64 == v,
{
}

/// Replaces the `width` bits that start at bit `offset` with the low `width`
/// bits of `value`; higher bits of `value` are dropped, and every other bit of
/// the buffer is kept.
pub fn write_bits(data: &mut Vec<u8>, offset: usize, width: usize, value: u64)
    requires
        width <= 64,
        offset + width <= usize::MAX,
        offset + width <= 8 * old(data)@.len(),
    ensures
        writes(old(data)@, final(data)@, offset as int, width as nat, value),
{
    let ghost before = data@;
    proof {
        lemma_shr_zero(value);
    }
    let mut rest: u64 = value;
    let mut done: usize = 0;
    while done < width
        invariant
            done <= width <= 64,
            offset + width <= usize::MAX,
            offset + width <= 8 * before.len(),
            done < 64 ==> rest == value >> (done as u64),
            writes(before, data@, offset as int, done as nat, value),
        decreases width - done,
    {
        let pos = offset + done;
        let index = pos / 8;
        let shift = pos % 8;
        let mut count = 8 - shift;
        if count > width - done {
            count = width - done;
        }
        proof {
            lemma_mask_nonzero(count as u64);
        }
        let mask = (1u64 << (count as u64)) - 1;
        let old_byte = data[index];
        let new_byte = (old_byte & !(#[verifier::truncate] ((mask << (shift as u64)) as u8))) | (
        #[verifier::truncate] (((rest & mask) << (shift as u64)) as u8));
        let ghost current = data@;
        data.set(index, new_byte);
        proof {
            assert forall|p: int| 0 <= p < 8 * before.len() implies #[trigger] bit_at(data@, p)
                == if offset <= p < offset + done + count {
                value_bit(value, p - offset)
            } else {
                bit_at(before, p)
            } by {
                assert(bit_at(current, p) == if offset <= p < offset + done {
                    value_bit(value, p - offset)
                } else {
                    bit_at(before, p)
                });
                if p / 8 == index {
                    let j = p % 8;
                    lemma_merge_byte(old_byte, rest, shift as u64, count as u64, j as u64);
                    if shift <= j < shift + count {
                        lemma_shr_shr(value, done as u64, (j - shift) as u64);
                    }
                } else {
                    assert(data@[p / 8] == current[p / 8]);
                }
            }
        }
        rest = rest >> (count as u64);
        proof {
            if done + count < 64 {
                lemma_shr_shr(value, done as u64, count as u64);
            }
        }
        done = done + count;
    }
}

/// A mask of the `n` low bits, for any `n` up to 64.
spec fn width_mask(n: u64) -> u64 {
    if n >= 64 {
        0xffff_ffff_ffff_ffffu64
    } else {
        ((1u64 << n) - 1) as u64
    }
}

proof fn lemma_width_mask_step(v: u64, n: u64)
    by (bit_vector)
    requires
        n < 64,
    ensures
        (v & width_mask(n)) | (((v >> n) & 1) << n) == v & width_mask((n + 1) as u64),
{
}

/// Bits that spell out `value` bit by bit read back as `value` masked to the
/// width.
proof fn lemma_field_of_value_bits(data: Seq<u8>, offset: int, width: nat, value: u64)
    requires
        width <= 64,
        forall|k: int| 0 <= k < width ==> #[trigger] bit_at(data, offset + k) == value_bit(value, k),
    ensures
        field_value(data, offset, width) == value & width_mask(width as u64),
    decreases width,
{
    if width == 0 {
        assert(value & width_mask(0) == 0) by (bit_vector);
    } else {
        let n = (width - 1) as nat;
        lemma_field_of_value_bits(data, offset, n, value);
        assert(bit_at(data, offset + n) == value_bit(value, n as int));
        lemma_width_mask_step(value, n as u64);
    }
}

/// Masking to `width` bits is taking the value modulo `2^width`.
proof fn lemma_width_mask_is_truncation(value: u64, width: nat)
    requires
        width <= 64,
    ensures
        value & width_mask(width as u64) == truncated(value, width),
{
    lemma2_to64();
    if width == 64 {
        assert(value & width_mask(64) == value) by (bit_vector);
        lemma_small_mod(value as nat, pow2(64));
    } else {
        lemma_u64_pow2_no_overflow(width);
        lemma_u64_shl_is_mul(1, width as u64);
        assert(width_mask(width as u64) == low_bits_mask(width) as u64);
        lemma_u64_low_bits_mask_is_mod(value, width);
    }
}

proof fn lemma_width_mask_keeps_low_bit(value: u64, width: u64, k: u64)
    by (bit_vector)
    requires
        k < width <= 64,
    ensures
        ((value & width_mask(width)) >> k) & 1 == (value >> k) & 1,
{
}

proof fn lemma_byte_from_bits(x: u8, y: u8)
    by (bit_vector)
    requires
        ((x as u64) >> 0u64) & 1 == ((y as u64) >> 0u64) & 1,
        ((x as u64) >> 1u64) & 1 == ((y as u64) >> 1u64) & 1,
        ((x as u64) >> 2u64) & 1 == ((y as u64) >> 2u64) & 1,
        ((x as u64) >> 3u64) & 1 == ((y as u64) >> 3u64) & 1,
        ((x as u64) >> 4u64) & 1 == ((y as u64) >> 4u64) & 1,
        ((x as u64) >> 5u64) & 1 == ((y as u64) >> 5u64) & 1,
        ((x as u64) >> 6u64) & 1 == ((y as u64) >> 6u64) & 1,
        ((x as u64) >> 7u64) & 1 == ((y as u64) >> 7u64) & 1,
    ensures
        x == y,
{
}

/// Two buffers of one length that agree on every bit are equal.
proof fn lemma_equal_bits(a: Seq<u8>, b: Seq<u8>)
    requires
        a.len() == b.len(),
        forall|p: int| 0 <= p < 8 * a.len() ==> #[trigger] bit_at(a, p) == bit_at(b, p),
    ensures
        a == b,
{
    assert forall|i: int| 0 <= i < a.len() implies a[i] == b[i] by {
        assert(8 * i + 7 < 8 * a.len());
        lemma_div_mod_8(8 * i, i, 0);
        lemma_div_mod_8(8 * i + 1, i, 1);
        lemma_div_mod_8(8 * i + 2, i, 2);
        lemma_div_mod_8(8 * i + 3, i, 3);
        lemma_div_mod_8(8 * i + 4, i, 4);
        lemma_div_mod_8(8 * i + 5, i, 5);
        lemma_div_mod_8(8 * i + 6, i, 6);
        lemma_div_mod_8(8 * i + 7, i, 7);
        assert(bit_at(a, 8 * i) == bit_at(b, 8 * i));
        assert(bit_at(a, 8 * i + 1) == bit_at(b, 8 * i + 1));
        assert(bit_at(a, 8 * i + 2) == bit_at(b, 8 * i + 2));
        assert(bit_at(a, 8 * i + 3) == bit_at(b, 8 * i + 3));
        assert(bit_at(a, 8 * i + 4) == bit_at(b, 8 * i + 4));
        assert(bit_at(a, 8 * i + 5) == bit_at(b, 8 * i + 5));
        assert(bit_at(a, 8 * i + 6) == bit_at(b, 8 * i + 6));
        assert(bit_at(a, 8 * i + 7) == bit_at(b, 8 * i + 7));
        lemma_byte_from_bits(a[i], b[i]);
    }
    assert(a =~= b);
}

/// Reading a field back after writing `value` to it gives `value` modulo
/// `2^width`; in particular every value below `2^width` comes back unchanged.
pub proof fn lemma_round_trip(before: Seq<u8>, after: Seq<u8>, offset: int, width: nat, value: u64)
    requires
        width <= 64,
        0 <= offset,
        offset + width <= 8 * before.len(),
        writes(before, after, offset, width, value),
    ensures
        field_value(after, offset, width) == truncated(value, width),
        value < pow2(width) ==> field_value(after, offset, width) == value,
{
    assert forall|k: int| 0 <= k < width implies #[trigger] bit_at(after, offset + k) == value_bit(
        value,
        k,
    ) by {
        assert(bit_at(after, offset + k) == value_bit(value, offset + k - offset));
    }
    lemma_field_of_value_bits(after, offset, width, value);
    lemma_width_mask_is_truncation(value, width);
    if value < pow2(width) {
        lemma_small_mod(value as nat, pow2(width));
    }
}

/// A field depends only on the bits of its own span.
proof fn lemma_field_same_bits(a: Seq<u8>, b: Seq<u8>, offset: int, width: nat)
    requires
        forall|p: int| offset <= p < offset + width ==> #[trigger] bit_at(a, p) == bit_at(b, p),
    ensures
        field_value(a, offset, width) == field_value(b, offset, width),
    decreases width,
{
    if width > 0 {
        lemma_field_same_bits(a, b, offset, (width - 1) as nat);
        assert(bit_at(a, offset + width - 1) == bit_at(b, offset + width - 1));
    }
}

/// Writing one field leaves the value of any field whose span does not
/// overlap it unchanged.
pub proof fn lemma_non_interference(
    before: Seq<u8>,
    after: Seq<u8>,
    offset: int,
    width: nat,
    value: u64,
    other_offset: int,
    other_width: nat,
)
    requires
        0 <= other_offset,
        other_offset + other_width <= 8 * before.len(),
        offset + width <= other_offset || other_offset + other_width <= offset,
        writes(before, after, offset, width, value),
    ensures
        field_value(after, other_offset, other_width) == field_value(
            before,
            other_offset,
            other_width,
        ),
{
    assert forall|p: int| other_offset <= p < other_offset + other_width implies #[trigger] bit_at(
        after,
        p,
    ) == bit_at(before, p) by {
        assert(0 <= p < 8 * before.len());
    }
    lemma_field_same_bits(after, before, other_offset, other_width);
}

/// A write has one outcome: the buffer after it is fixed by the buffer
/// before it, the span and the value.
pub proof fn lemma_writes_unique(
    before: Seq<u8>,
    after: Seq<u8>,
    other_after: Seq<u8>,
    offset: int,
    width: nat,
    value: u64,
)
    requires
        writes(before, after, offset, width, value),
        writes(before, other_after, offset, width, value),
    ensures
        after == other_after,
{
    lemma_equal_bits(after, other_after);
}

/// Writing `value` to a field has exactly the effect of writing `value`
/// modulo `2^width`: the bits above the width are dropped.
pub proof fn lemma_truncation(
    before: Seq<u8>,
    after: Seq<u8>,
    after_truncated: Seq<u8>,
    offset: int,
    width: nat,
    value: u64,
)
    requires
        width <= 64,
        writes(before, after, offset, width, value),
        writes(before, after_truncated, offset, width, truncated(value, width)),
    ensures
        after == after_truncated,
{
    lemma_width_mask_is_truncation(value, width);
    assert forall|p: int| 0 <= p < 8 * before.len() implies #[trigger] bit_at(after_truncated, p)
        == if offset <= p < offset + width {
        value_bit(value, p - offset)
    } else {
        bit_at(before, p)
    } by {
        if offset <= p < offset + width {
            lemma_width_mask_keeps_low_bit(value, width as u64, (p - offset) as u64);
        }
    }
    lemma_writes_unique(before, after, after_truncated, offset, width, value);
}

/// A field of width zero holds no bits: it reads as zero, and writing to it
/// changes nothing.
pub proof fn lemma_zero_width(before: Seq<u8>, after: Seq<u8>, offset: int, value: u64)
    requires
        writes(before, after, offset, 0, value),
    ensures
        field_value(before, offset, 0) == 0,
        after == before,
{
    lemma_equal_bits(after, before);
}

} // verus!
