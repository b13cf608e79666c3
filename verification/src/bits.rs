//! Bit-level model of packed circular rows.
//!
//! A row of up to 63 cells lives in the low bits of a `u64`; three adjacent
//! cells starting at a position divisible by three form a *block*.  This
//! module defines what a block holds, what it means for a value to fit in a
//! row of a given width, and the two masked circular rotations that every
//! other part of the engine is specified with.

use vstd::prelude::*;

verus! {

/// The word with every bit set.
pub const ALL_ONES: u64 = 0xFFFF_FFFF_FFFF_FFFF;

/// Block value 0 repeated in every block position.
pub const PAT0: u64 = 0x0000_0000_0000_0000;

/// Block value 1 repeated in every block position.
pub const PAT1: u64 = 0x1249_2492_4924_9249;

/// Block value 2 repeated in every block position.
pub const PAT2: u64 = 0x2492_4924_9249_2492;

/// Block value 3 repeated in every block position.
pub const PAT3: u64 = 0x36db_6db6_db6d_b6db;

/// Block value 4 repeated in every block position.
pub const PAT4: u64 = 0x4924_9249_2492_4924;

/// Block value 5 repeated in every block position.
pub const PAT5: u64 = 0x5b6d_b6db_6db6_db6d;

/// Block value 6 repeated in every block position.
pub const PAT6: u64 = 0x6db6_db6d_b6db_6db6;

/// Block value 7 repeated in every block position: all 21 whole blocks set.
pub const PAT7: u64 = 0x7fff_ffff_ffff_ffff;

/// The three-bit block of `v` at block index `j` (bits `3j .. 3j + 3`).
pub open spec fn block3(v: u64, j: u64) -> u64 {
    (v >> (3 * j)) & 7
}

/// `v` has no set bits at position `s` or above.
pub open spec fn fits(v: u64, s: u64) -> bool {
    v & (ALL_ONES << s) == 0
}

/// Circular left rotation of the low `s` bits of `v` by `c < s` positions;
/// bits at position `s` and above of `v` may leak into the result between
/// positions `c` and `63 - s + c`, and are cleared from position `s` up.
pub open spec fn rot_left_raw(v: u64, s: u64, c: u64) -> u64 {
    ((v << c) | ((v >> ((s - c) as u64)) & (PAT7 >> ((s - c) as u64)))) & !(ALL_ONES << s)
}

/// Circular right rotation of the low `s` bits of `v` by `c < s` positions,
/// with the same treatment of stray high bits as [`rot_left_raw`].
pub open spec fn rot_right_raw(v: u64, s: u64, c: u64) -> u64 {
    ((v >> c) | ((v & (PAT7 >> ((s - c) as u64))) << ((s - c) as u64))) & !(ALL_ONES << s)
}

/// Left rotation by an arbitrary count, reduced modulo the row width.
pub open spec fn rot_left(v: u64, s: u64, c: u64) -> u64 {
    rot_left_raw(v, s, c % s)
}

/// Right rotation by an arbitrary count, reduced modulo the row width.
pub open spec fn rot_right(v: u64, s: u64, c: u64) -> u64 {
    rot_right_raw(v, s, c % s)
}

/// Signed rotation: negative counts rotate left, others right.
pub open spec fn rot_signed(v: u64, s: u64, c: int) -> u64 {
    if c < 0 {
        rot_left(v, s, (-c) as u64)
    } else {
        rot_right(v, s, c as u64)
    }
}

/// Left rotation by `k` whole blocks.
pub open spec fn rot_left_blocks(v: u64, s: u64, k: u64) -> u64 {
    rot_left(v, s, (3 * k) as u64)
}

/// Right rotation by `k` whole blocks.
pub open spec fn rot_right_blocks(v: u64, s: u64, k: u64) -> u64 {
    rot_right(v, s, (3 * k) as u64)
}

/// Fitting below `s` is the same as shifting away the low `s` bits leaving nothing.
pub proof fn lemma_fits_shr(v: u64, s: u64)
    by (bit_vector)
    requires
        s <= 63,
    ensures
        fits(v, s) <==> (v >> s == 0),
{
}

/// A value whose bits vanish from position `a` up also vanishes from any higher position.
pub proof fn lemma_shr_zero_mono(v: u64, a: u64, b: u64)
    by (bit_vector)
    requires
        v >> a == 0,
        a <= b,
        b <= 63,
    ensures
        v >> b == 0,
{
}

/// Masking cannot set bits outside the row.
pub proof fn lemma_fits_and(v: u64, z: u64, s: u64)
    by (bit_vector)
    requires
        fits(v, s),
        s <= 63,
    ensures
        fits(v & z, s),
{
}

/// Nothing has no bits outside any row.
pub proof fn lemma_fits_zero(s: u64)
    by (bit_vector)
    ensures
        fits(0, s),
{
}

/// A single bit inside the row fits, and joining fitting values fits.
pub proof fn lemma_fits_or_bit(a: u64, b: u64, i: u64, s: u64)
    by (bit_vector)
    requires
        fits(a, s),
        fits(b, s),
        i < s,
        s <= 63,
    ensures
        fits(a | b, s),
        fits(1u64 << i, s),
        fits(a | (1u64 << i), s),
{
}

/// Two words with equal blocks and equal bits 63 are equal.
pub proof fn lemma_eq_by_blocks(a: u64, b: u64)
    by (bit_vector)
    requires
        block3(a, 0) == block3(b, 0),
        block3(a, 1) == block3(b, 1),
        block3(a, 2) == block3(b, 2),
        block3(a, 3) == block3(b, 3),
        block3(a, 4) == block3(b, 4),
        block3(a, 5) == block3(b, 5),
        block3(a, 6) == block3(b, 6),
        block3(a, 7) == block3(b, 7),
        block3(a, 8) == block3(b, 8),
        block3(a, 9) == block3(b, 9),
        block3(a, 10) == block3(b, 10),
        block3(a, 11) == block3(b, 11),
        block3(a, 12) == block3(b, 12),
        block3(a, 13) == block3(b, 13),
        block3(a, 14) == block3(b, 14),
        block3(a, 15) == block3(b, 15),
        block3(a, 16) == block3(b, 16),
        block3(a, 17) == block3(b, 17),
        block3(a, 18) == block3(b, 18),
        block3(a, 19) == block3(b, 19),
        block3(a, 20) == block3(b, 20),
        a >> 63 == b >> 63,
    ensures
        a == b,
{
}

/// Rotations always produce a value that fits in the row.
pub proof fn lemma_rot_fits(v: u64, s: u64, c: u64)
    by (bit_vector)
    requires
        1 <= s <= 63,
    ensures
        fits(rot_left(v, s, c), s),
        fits(rot_right(v, s, c), s),
{
}

/// Rotating a fitting value by zero changes nothing.
pub proof fn lemma_rot_zero(v: u64, s: u64)
    by (bit_vector)
    requires
        1 <= s <= 63,
        fits(v, s),
    ensures
        rot_left(v, s, 0) == v,
        rot_right(v, s, 0) == v,
{
}

/// On a fitting value, opposite reduced rotations by the same count cancel.
#[verifier::rlimit(60)]
pub proof fn lemma_rot_round_trip_raw(v: u64, s: u64, c: u64)
    by (bit_vector)
    requires
        1 <= s <= 63,
        c < s,
        fits(v, s),
    ensures
        rot_right_raw(rot_left_raw(v, s, c), s, c) == v,
        rot_left_raw(rot_right_raw(v, s, c), s, c) == v,
{
}

/// On a fitting value, opposite rotations by the same count cancel.
pub proof fn lemma_rot_round_trip(v: u64, s: u64, c: u64)
    requires
        1 <= s <= 63,
        fits(v, s),
    ensures
        rot_right(rot_left(v, s, c), s, c) == v,
        rot_left(rot_right(v, s, c), s, c) == v,
{
    lemma_rot_round_trip_raw(v, s, c % s);
}

/// A reduced rotation also produces a value that fits in the row.
pub proof fn lemma_rot_fits_raw(v: u64, s: u64, c: u64)
    by (bit_vector)
    requires
        1 <= s <= 63,
    ensures
        fits(rot_left_raw(v, s, c), s),
{
}

/// Bit `i` of a reduced left rotation of a fitting value is the bit of the
/// source `c` positions below it, taken circularly within the row.
#[verifier::rlimit(60)]
pub proof fn lemma_rot_left_raw_bit(v: u64, s: u64, c: u64, i: u64)
    by (bit_vector)
    requires
        1 <= s <= 63,
        c < s,
        i < 64,
        fits(v, s),
    ensures
        c <= i < s ==> (rot_left_raw(v, s, c) >> i) & 1 == (v >> ((i - c) as u64)) & 1,
        i < c ==> (rot_left_raw(v, s, c) >> i) & 1 == (v >> ((i + s - c) as u64)) & 1,
        s <= i ==> (rot_left_raw(v, s, c) >> i) & 1 == 0,
{
}

/// A block of a word is determined by its three bits.
pub proof fn lemma_block_from_bits(x: u64, y: u64, j: u64)
    by (bit_vector)
    requires
        j < 21,
        (x >> ((3 * j) as u64)) & 1 == (y >> ((3 * j) as u64)) & 1,
        (x >> ((3 * j + 1) as u64)) & 1 == (y >> ((3 * j + 1) as u64)) & 1,
        (x >> ((3 * j + 2) as u64)) & 1 == (y >> ((3 * j + 2) as u64)) & 1,
    ensures
        block3(x, j) == block3(y, j),
{
}

/// Two words that agree on every bit are equal.
pub proof fn lemma_eq_by_bits(x: u64, y: u64)
    requires
        forall|i: u64| i < 64 ==> #[trigger] ((x >> i) & 1) == ((y >> i) & 1),
    ensures
        x == y,
{
    assert forall|j: u64| j < 21 implies #[trigger] block3(x, j) == block3(y, j) by {
        assert((x >> ((3 * j) as u64)) & 1 == (y >> ((3 * j) as u64)) & 1);
        assert((x >> ((3 * j + 1) as u64)) & 1 == (y >> ((3 * j + 1) as u64)) & 1);
        assert((x >> ((3 * j + 2) as u64)) & 1 == (y >> ((3 * j + 2) as u64)) & 1);
        lemma_block_from_bits(x, y, j);
    }
    assert((x >> 63u64) & 1 == (y >> 63u64) & 1);
    assert(x >> 63 == y >> 63) by (bit_vector)
        requires
            (x >> 63u64) & 1 == (y >> 63u64) & 1,
    ;
    lemma_eq_by_blocks(x, y);
}

/// On a fitting value, consecutive left rotations add their counts.
pub proof fn lemma_rot_left_compose(v: u64, s: u64, a: u64, b: u64)
    requires
        1 <= s <= 63,
        a < s,
        b < s,
        fits(v, s),
    ensures
        rot_left(rot_left(v, s, a), s, b) == rot_left(v, s, (a + b) as u64),
{
    let t: u64 = if a + b < s {
        (a + b) as u64
    } else {
        (a + b - s) as u64
    };
    let w = rot_left_raw(v, s, a);
    lemma_rot_fits_raw(v, s, a);
    assert(a % s == a && b % s == b && ((a + b) as u64) % s == t) by (bit_vector)
        requires
            1 <= s <= 63,
            a < s,
            b < s,
            t == (if a + b < s {
                (a + b) as u64
            } else {
                (a + b - s) as u64
            }),
    ;
    assert forall|i: u64| i < 64 implies #[trigger] ((rot_left_raw(w, s, b) >> i) & 1) == ((
    rot_left_raw(v, s, t) >> i) & 1) by {
        lemma_rot_left_raw_bit(w, s, b, i);
        lemma_rot_left_raw_bit(v, s, t, i);
        if i < s {
            let j: u64 = if b <= i {
                (i - b) as u64
            } else {
                (i + s - b) as u64
            };
            assert(j < s);
            lemma_rot_left_raw_bit(v, s, a, j);
        }
    }
    lemma_eq_by_bits(rot_left_raw(w, s, b), rot_left_raw(v, s, t));
}


/// The value that repeats the low `size` bits of `num` in every such
/// position that a whole group of `size` bits still fits in the word,
/// described group by group from the bottom.
pub open spec fn repeat_upto(num: u64, size: u8, n: int) -> u64
    decreases n,
{
    if n <= 0 {
        0
    } else {
        repeat_upto(num, size, n - 1) | (num << ((n - 1) * (size as int)))
    }
}

/// The low `size` bits of `num` repeated across the whole word.
pub open spec fn repeat64(num: u64, size: u8) -> u64 {
    repeat_upto(num, size, 64 as int / size as int)
}

/// Builds the word that repeats `num` in every group of `size` bits.
pub fn repeat(num: u64, size: u8) -> (r: u64)
    requires
        size >= 1,
    ensures
        r == repeat64(num, size),
{
    let max: u8 = 64 / size;
    let mut ans: u64 = 0;
    let mut i: u8 = 0;
    while i < max
        invariant
            size >= 1,
            max == 64u8 / size,
            i <= max,
            ans == repeat_upto(num, size, i as int),
        decreases max - i,
    {
        proof {
            assert(i * size + size <= 64) by (nonlinear_arith)
                requires
                    i < max,
                    max == 64u8 / size,
                    size >= 1,
            ;
        }
        ans = ans | (num << (i * size));
        i = i + 1;
    }
    ans
}

/// Builds the word that repeats `num` in every group of `size` bits.
pub fn repeat_bit(num: u64, size: u8) -> (r: u64)
    requires
        size >= 1,
    ensures
        r == repeat64(num, size),
{
    repeat(num, size)
}

} // verus!
