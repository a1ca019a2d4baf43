//! Packing of a byte sequence into symbols of a fixed bit width.
//!
//! The bytes are read as one stream of bits, the least significant bit of
//! each byte first. Consecutive runs of `width` bits form the symbols, the
//! first bit of a run being the least significant bit of its symbol. A last
//! run that the stream does not fill is completed with zero bits.

use vstd::prelude::*;
use vstd::arithmetic::div_mod::{lemma_fundamental_div_mod, lemma_fundamental_div_mod_converse};
use vstd::arithmetic::mul::{lemma_mul_basics, lemma_mul_is_distributive_add_other_way};
use vstd::arithmetic::power2::{
    lemma2_to64, lemma_pow2_adds, lemma_pow2_pos, lemma_pow2_strictly_increases, lemma_pow2_unfold,
    pow2,
};
use vstd::bits::{lemma_u32_pow2_no_overflow, lemma_u32_shl_is_mul, lemma_u32_shr_is_div};
use crate::error::EncodeError;

verus! {

/// The widest symbol, in bits.
pub const MAX_WIDTH: u32 = 32;

/// Bit `k` of the stream that `bytes` spell out, and zero past its end.
pub open spec fn stream_bit(bytes: Seq<u8>, k: int) -> nat {
    if 0 <= k < 8 * bytes.len() {
        (bytes[k / 8] as nat / pow2((k % 8) as nat)) % 2
    } else {
        0
    }
}

/// The number that the `count` stream bits from position `start` on spell
/// out, the first of them being the least significant.
pub open spec fn bits_value(bytes: Seq<u8>, start: int, count: nat) -> nat
    decreases count,
{
    if count == 0 {
        0
    } else {
        bits_value(bytes, start, (count - 1) as nat) + stream_bit(bytes, start + count - 1) * pow2(
            (count - 1) as nat,
        )
    }
}

/// How many symbols of `width` bits it takes to hold `len` bytes.
pub open spec fn unit_count(len: nat, width: nat) -> nat {
    ((8 * len + width - 1) / (width as int)) as nat
}

/// The symbols of `width` bits that `bytes` pack into.
pub open spec fn packed_units(bytes: Seq<u8>, width: nat) -> Seq<u32> {
    Seq::new(unit_count(bytes.len(), width), |j: int| bits_value(bytes, j * width, width) as u32)
}

/// A run of `count` bits spells out a number below `2^count`.
pub proof fn lemma_bits_value_bound(bytes: Seq<u8>, start: int, count: nat)
    ensures
        bits_value(bytes, start, count) < pow2(count),
    decreases count,
{
    if count == 0 {
        lemma2_to64();
    } else {
        lemma_bits_value_bound(bytes, start, (count - 1) as nat);
        lemma_pow2_unfold(count);
        let high = stream_bit(bytes, start + count - 1);
        let weight = pow2((count - 1) as nat);
        assert(high * weight <= weight) by (nonlinear_arith)
            requires
                high <= 1,
        ;
    }
}

/// Bits past the end of the stream add nothing to a run.
pub proof fn lemma_bits_value_past_end(bytes: Seq<u8>, start: int, count: nat, longer: nat)
    requires
        start + count >= 8 * bytes.len(),
        count <= longer,
    ensures
        bits_value(bytes, start, longer) == bits_value(bytes, start, count),
    decreases longer,
{
    if longer > count {
        lemma_bits_value_past_end(bytes, start, count, (longer - 1) as nat);
        assert(stream_bit(bytes, start + longer - 1) == 0);
        assert(0 * pow2((longer - 1) as nat) == 0);
    }
}

/// Bit `t` of the number that a run spells out is the stream bit at
/// position `t` of the run.
pub proof fn lemma_bits_value_bit(bytes: Seq<u8>, start: int, count: nat, t: nat)
    requires
        t < count,
    ensures
        (bits_value(bytes, start, count) / pow2(t)) % 2 == stream_bit(bytes, start + t),
    decreases count,
{
    let lower = bits_value(bytes, start, (count - 1) as nat);
    let high = stream_bit(bytes, start + count - 1);
    let top = (count - 1) as nat;
    lemma_bits_value_bound(bytes, start, top);
    lemma_pow2_pos(t);
    if t == top {
        // lower < 2^t, so dividing by 2^t leaves the high bit alone.
        lemma_fundamental_div_mod_converse(
            (high * pow2(t) + lower) as int,
            pow2(t) as int,
            high as int,
            lower as int,
        );
    } else {
        lemma_bits_value_bit(bytes, start, top, t);
        // 2^top == 2^t * 2 * 2^(top - t - 1), so the high bit lands on an
        // even multiple after the division.
        let gap = (top - t - 1) as nat;
        lemma_pow2_adds(t, gap + 1);
        lemma_pow2_unfold(gap + 1);
        let half = high * pow2(gap);
        let shifted = 2 * half;
        assert(high * pow2(top) == shifted * pow2(t)) by (nonlinear_arith)
            requires
                pow2(top) == pow2(t) * pow2(gap + 1),
                pow2(gap + 1) == 2 * pow2(gap),
                shifted == 2 * (high * pow2(gap)),
        ;
        lemma_fundamental_div_mod(lower as int, pow2(t) as int);
        let q = lower as int / pow2(t) as int;
        let r = lower as int % pow2(t) as int;
        assert((q + shifted) * pow2(t) + r == shifted * pow2(t) + lower) by (nonlinear_arith)
            requires
                lower == pow2(t) * q + r,
        ;
        lemma_fundamental_div_mod_converse(
            (shifted * pow2(t) + lower) as int,
            pow2(t) as int,
            q + shifted,
            r,
        );
        assert((q + shifted) % 2 == q % 2);
    }
}

/// Bit `k` of the stream that the symbols of `units` spell out, each symbol
/// giving `width` bits and its least significant bit first.
pub open spec fn unit_bit(units: Seq<u32>, width: nat, k: int) -> nat {
    (units[k / (width as int)] as nat / pow2((k % (width as int)) as nat)) % 2
}

/// The byte that bits `8 * i` to `8 * i + 7` of the symbol stream spell out.
pub open spec fn unpacked_byte(units: Seq<u32>, width: nat, i: int) -> nat {
    unit_bit(units, width, 8 * i) + 2 * unit_bit(units, width, 8 * i + 1) + 4 * unit_bit(
        units,
        width,
        8 * i + 2,
    ) + 8 * unit_bit(units, width, 8 * i + 3) + 16 * unit_bit(units, width, 8 * i + 4) + 32
        * unit_bit(units, width, 8 * i + 5) + 64 * unit_bit(units, width, 8 * i + 6) + 128
        * unit_bit(units, width, 8 * i + 7)
}

/// The first `len` bytes that the symbol stream spells out.
pub open spec fn unpacked_bytes(units: Seq<u32>, width: nat, len: nat) -> Seq<u8> {
    Seq::new(len, |i: int| unpacked_byte(units, width, i) as u8)
}

/// The symbols hold the stream bit for bit: bit `k % width` of symbol
/// `k / width` is stream bit `k`, for every position `k` that the symbols
/// cover. Positions past the end of the stream, which only the last symbol
/// can cover, hold zero.
pub proof fn lemma_packed_units_hold_stream(bytes: Seq<u8>, width: nat, k: int)
    requires
        1 <= width <= MAX_WIDTH,
        0 <= k < unit_count(bytes.len(), width) * width,
    ensures
        0 <= k / (width as int) < packed_units(bytes, width).len(),
        unit_bit(packed_units(bytes, width), width, k) == stream_bit(bytes, k),
{
    let j = k / (width as int);
    let t = k % (width as int);
    lemma_fundamental_div_mod(k, width as int);
    assert(0 <= j < unit_count(bytes.len(), width)) by (nonlinear_arith)
        requires
            k == width * j + t,
            0 <= t < width,
            0 <= k < unit_count(bytes.len(), width) * width,
    ;
    lemma_bits_value_bound(bytes, j * width, width);
    lemma2_to64();
    if width < MAX_WIDTH {
        lemma_pow2_strictly_increases(width, MAX_WIDTH as nat);
    }
    lemma_bits_value_bit(bytes, j * width, width, t as nat);
    assert(j * width + t == k) by (nonlinear_arith)
        requires
            k == width * j + t,
    ;
}

/// The symbols cover the whole stream, with fewer than `width` positions
/// to spare, and with none to spare when `width` divides the number of
/// stream bits.
pub proof fn lemma_unit_count_covers(len: nat, width: nat)
    requires
        width >= 1,
    ensures
        8 * len <= unit_count(len, width) * width < 8 * len + width,
        (8 * len) as int % (width as int) == 0 ==> unit_count(len, width) * width == 8 * len,
{
    let full = (8 * len) as int / (width as int);
    let left = (8 * len) as int % (width as int);
    lemma_fundamental_div_mod((8 * len) as int, width as int);
    assert(full >= 0) by (nonlinear_arith)
        requires
            8 * len == width * full + left,
            0 <= left < width,
            len >= 0,
    ;
    assert(8 * len == full * width + left) by (nonlinear_arith)
        requires
            8 * len == width * full + left,
    ;
    lemma_unit_count_split(len, width, full as nat, left as nat);
    assert((full + 1) * width == full * width + width) by (nonlinear_arith);
}

/// Bit `t` of byte `i`, read back from the symbols.
proof fn lemma_unit_bit_of_byte(bytes: Seq<u8>, width: nat, i: int, t: int, weight: nat)
    requires
        1 <= width <= MAX_WIDTH,
        0 <= i < bytes.len(),
        0 <= t < 8,
        weight == pow2(t as nat),
    ensures
        unit_bit(packed_units(bytes, width), width, 8 * i + t) == (bytes[i] as nat / weight) % 2,
{
    lemma_unit_count_covers(bytes.len(), width);
    lemma_packed_units_hold_stream(bytes, width, 8 * i + t);
    assert((8 * i + t) / 8 == i && (8 * i + t) % 8 == t);
}

/// A byte is the sum of its bits, each at its weight.
proof fn lemma_byte_from_bits(byte: u8)
    ensures
        byte == byte as nat % 2 + 2 * (byte as nat / 2 % 2) + 4 * (byte as nat / 4 % 2) + 8 * (
        byte as nat / 8 % 2) + 16 * (byte as nat / 16 % 2) + 32 * (byte as nat / 32 % 2) + 64 * (
        byte as nat / 64 % 2) + 128 * (byte as nat / 128 % 2),
{
    assert(byte == byte % 2 + 2 * (byte / 2 % 2) + 4 * (byte / 4 % 2) + 8 * (byte / 8 % 2) + 16 * (
    byte / 16 % 2) + 32 * (byte / 32 % 2) + 64 * (byte / 64 % 2) + 128 * (byte / 128 % 2))
        by (bit_vector);
}

/// Byte `i`, read back from the symbols.
pub proof fn lemma_unpacked_byte(bytes: Seq<u8>, width: nat, i: int)
    requires
        1 <= width <= MAX_WIDTH,
        0 <= i < bytes.len(),
    ensures
        unpacked_byte(packed_units(bytes, width), width, i) == bytes[i],
{
    lemma2_to64();
    lemma_unit_bit_of_byte(bytes, width, i, 0, 1);
    lemma_unit_bit_of_byte(bytes, width, i, 1, 2);
    lemma_unit_bit_of_byte(bytes, width, i, 2, 4);
    lemma_unit_bit_of_byte(bytes, width, i, 3, 8);
    lemma_unit_bit_of_byte(bytes, width, i, 4, 16);
    lemma_unit_bit_of_byte(bytes, width, i, 5, 32);
    lemma_unit_bit_of_byte(bytes, width, i, 6, 64);
    lemma_unit_bit_of_byte(bytes, width, i, 7, 128);
    lemma_byte_from_bits(bytes[i]);
}

/// Unpacking what was packed gives the bytes back, whatever the width.
pub proof fn lemma_unpack_packed(bytes: Seq<u8>, width: nat)
    requires
        1 <= width <= MAX_WIDTH,
    ensures
        unpacked_bytes(packed_units(bytes, width), width, bytes.len()) == bytes,
{
    let units = packed_units(bytes, width);
    assert forall|i: int| 0 <= i < bytes.len() implies unpacked_byte(units, width, i)
        == bytes[i] by {
        lemma_unpacked_byte(bytes, width, i);
    }
    assert(unpacked_bytes(units, width, bytes.len()) =~= bytes);
}

/// Shifting a byte right and masking reads one stream bit of it.
proof fn lemma_extract_bit(byte: u8, b: u32)
    requires
        b < 8,
    ensures
        ((byte as u32 >> b) & 1) == (byte as nat / pow2(b as nat)) % 2,
{
    let shifted: u32 = byte as u32 >> b;
    lemma_u32_shr_is_div(byte as u32, b);
    assert(shifted & 1 == shifted % 2) by (bit_vector);
}

/// Or-ing a bit in above the bits gathered so far adds its weight.
proof fn lemma_gather_bit(gathered: u32, bit: u32, pos: u32)
    requires
        pos < MAX_WIDTH,
        bit <= 1,
        gathered < pow2(pos as nat),
    ensures
        (gathered | (bit << pos)) == gathered + bit * pow2(pos as nat),
{
    lemma_u32_pow2_no_overflow(pos as nat);
    lemma_u32_shl_is_mul(1, pos);
    let weight: u32 = 1u32 << pos;
    assert(weight == pow2(pos as nat));
    if bit == 0 {
        assert(gathered | (0u32 << pos) == gathered) by (bit_vector);
    } else {
        assert(bit == 1);
        assert(gathered | (1u32 << pos) == gathered + (1u32 << pos)) by (bit_vector)
            requires
                pos < 32,
                gathered < (1u32 << pos),
        ;
    }
}

/// The number of symbols, given how the stream splits into full symbols
/// and left-over bits.
proof fn lemma_unit_count_split(len: nat, width: nat, full: nat, left: nat)
    requires
        width >= 1,
        left < width,
        8 * len == full * width + left,
    ensures
        unit_count(len, width) == if left > 0 {
            full + 1
        } else {
            full
        },
{
    if left > 0 {
        assert(8 * len + width - 1 == (full + 1) * width + (left - 1)) by (nonlinear_arith)
            requires
                8 * len == full * width + left,
        ;
        lemma_fundamental_div_mod_converse(
            8 * len + width - 1,
            width as int,
            (full + 1) as int,
            left - 1,
        );
    } else {
        lemma_fundamental_div_mod_converse(
            8 * len + width - 1,
            width as int,
            full as int,
            width - 1,
        );
    }
}

/// Packs `input` into symbols of `width` bits.
///
/// Fails when `width` is zero or exceeds `MAX_WIDTH`. An empty input packs
/// into no symbols.
pub fn pack_bits(input: &[u8], width: u32) -> (result: Result<Vec<u32>, EncodeError>)
    ensures
        result is Ok <==> 1 <= width <= MAX_WIDTH,
        result matches Ok(units) ==> units@ == packed_units(input@, width as nat) && forall|j: int|
            0 <= j < units.len() ==> units[j] < pow2(width as nat),
        result matches Err(e) ==> e == EncodeError::BitWidthOutOfRange,
{
    if width == 0 || width > MAX_WIDTH {
        return Err(EncodeError::BitWidthOutOfRange);
    }
    let mut output: Vec<u32> = Vec::new();
    let mut gathered: u32 = 0;
    let mut pos: u32 = 0;
    let mut i: usize = 0;
    // Where the symbol that is being gathered starts in the stream.
    let ghost mut start: int = 0;
    proof {
        lemma2_to64();
        lemma_mul_basics(width as int);
    }
    while i < input.len()
        invariant
            1 <= width <= MAX_WIDTH,
            i <= input.len(),
            pos < width,
            start == output.len() * width,
            8 * i == start + pos,
            gathered == bits_value(input@, start, pos as nat),
            forall|j: int|
                0 <= j < output.len() ==> output[j] == bits_value(
                    input@,
                    j * width,
                    width as nat,
                ),
        decreases input.len() - i,
    {
        let byte = input[i];
        let mut b: u32 = 0;
        while b < 8
            invariant
                1 <= width <= MAX_WIDTH,
                i < input.len(),
                byte == input@[i as int],
                b <= 8,
                pos < width,
                start == output.len() * width,
                8 * i + b == start + pos,
                gathered == bits_value(input@, start, pos as nat),
                forall|j: int|
                    0 <= j < output.len() ==> output[j] == bits_value(
                        input@,
                        j * width,
                        width as nat,
                    ),
            decreases 8 - b,
        {
            let bit: u32 = ((byte as u32) >> b) & 1;
            proof {
                lemma_extract_bit(byte, b);
                assert((8 * i + b) / 8 == i && (8 * i + b) % 8 == b);
                assert(bit == stream_bit(input@, start + pos));
                lemma_bits_value_bound(input@, start, pos as nat);
                lemma_gather_bit(gathered, bit, pos);
                lemma_bits_value_bound(input@, start, (pos + 1) as nat);
                if pos + 1 < MAX_WIDTH {
                    lemma_pow2_strictly_increases((pos + 1) as nat, MAX_WIDTH as nat);
                }
            }
            gathered = gathered | (bit << pos);
            pos = pos + 1;
            if pos == width {
                proof {
                    lemma_mul_is_distributive_add_other_way(width as int, output.len() as int, 1);
                    start = start + width;
                }
                output.push(gathered);
                gathered = 0;
                pos = 0;
            }
            b = b + 1;
        }
        i = i + 1;
    }
    proof {
        lemma_unit_count_split(input@.len(), width as nat, output.len() as nat, pos as nat);
        lemma_bits_value_past_end(input@, start, pos as nat, width as nat);
    }
    if pos > 0 {
        output.push(gathered);
    }
    proof {
        assert forall|j: int| 0 <= j < output.len() implies output[j] == packed_units(
            input@,
            width as nat,
        )[j] && output[j] < pow2(width as nat) by {
            lemma_bits_value_bound(input@, j * width, width as nat);
            if width < MAX_WIDTH {
                lemma_pow2_strictly_increases(width as nat, MAX_WIDTH as nat);
            }
        }
        assert(output@ =~= packed_units(input@, width as nat));
    }
    Ok(output)
}

} // verus!
