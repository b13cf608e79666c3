//! One generation of the automaton: a fixed-size circular row of cells
//! packed into the low bits of a word.

use vstd::prelude::*;

use crate::bits::{
    fits, lemma_fits_shr, lemma_rot_fits, lemma_rot_left_compose, lemma_rot_round_trip,
    lemma_rot_zero, rot_left, rot_left_blocks, rot_right, rot_signed, ALL_ONES, PAT7,
};

verus! {

/// Rejected construction: the width is not a whole number of blocks, the
/// width exceeds the word, or the value has cells outside the row.
#[derive(Clone, Copy, Debug, PartialEq, Eq, Structural)]
pub struct ConfigurationError;

/// A circular row of `size` cells packed into the low `size` bits of `val`.
///
/// The width is a multiple of the block width three and at most 63, so the
/// row always consists of whole blocks and leaves the top bit of the word
/// free.  Every operation returns a new field; none mutates in place.
#[derive(Clone, Copy, Debug, PartialEq, Eq, Structural)]
pub struct Field {
    pub val: u64,
    pub size: u32,
}

/// The number of whole bits counted by groups of three that are needed to
/// reach the highest set bit of `x`.
pub open spec fn occ3(x: u64) -> int
    decreases x,
{
    if x == 0 {
        0
    } else {
        3 + occ3((x / 8) as u64)
    }
}

/// The number of bits needed to reach the highest set bit of `x`.
pub open spec fn occ1(x: u64) -> int
    decreases x,
{
    if x == 0 {
        0
    } else {
        1 + occ1((x / 2) as u64)
    }
}

/// Basic shape of [`occ3`]: a multiple of three, at most 66, zero exactly
/// on zero, and pointing just past the highest set bit.
pub proof fn lemma_occ3_props(x: u64)
    ensures
        0 <= occ3(x) <= 66,
        occ3(x) % 3 == 0,
        (occ3(x) == 0 <==> x == 0),
        occ3(x) <= 63 ==> x >> (occ3(x) as u64) == 0,
        0 < occ3(x) ==> x >> ((occ3(x) - 3) as u64) != 0,
    decreases x,
{
    if x == 0 {
        assert(x >> 0u64 == x) by (bit_vector);
    } else {
        let y: u64 = (x / 8) as u64;
        assert(y == x >> 3u64 && y < x) by (bit_vector)
            requires
                y == (x / 8) as u64,
                x != 0,
        ;
        lemma_occ3_props(y);
        let ku: u64 = occ3(y) as u64;
        assert(occ3(x) == 3 + ku);
        if ku > 63 {
            assert(y >> ((ku - 3) as u64) == 0) by (bit_vector)
                requires
                    y == x >> 3u64,
                    63 < ku <= 66,
            ;
            assert(false);
        }
        assert((ku <= 60 ==> (x >> 3u64) >> ku == x >> ((ku + 3) as u64)) && (3 <= ku <= 63
            ==> (x >> 3u64) >> ((ku - 3) as u64) == x >> (ku as u64))) by (bit_vector)
            requires
                ku <= 66,
        ;
        if ku == 0 {
            assert(y == 0);
            assert(x >> ((occ3(x) - 3) as u64) == x >> 0u64);
            assert(x >> 0u64 == x) by (bit_vector);
        }
    }
}

/// A value that fits in a row of whole blocks occupies at most the row.
pub proof fn lemma_occ3_fits(v: u64, s: u64)
    requires
        s % 3 == 0,
        s <= 63,
        fits(v, s),
    ensures
        occ3(v) <= s,
    decreases v,
{
    if v == 0 {
    } else {
        lemma_fits_shr(v, s);
        if s == 0 {
            assert(v >> 0u64 == v) by (bit_vector);
        } else {
            let y: u64 = (v / 8) as u64;
            assert(y == v >> 3u64 && y < v && (v >> s == 0 ==> y >> ((s - 3) as u64) == 0))
                by (bit_vector)
                requires
                    y == (v / 8) as u64,
                    v != 0,
                    3 <= s <= 63,
            ;
            lemma_fits_shr(y, (s - 3) as u64);
            lemma_occ3_fits(y, (s - 3) as u64);
        }
    }
}

/// Basic shape of [`occ1`]: at most 64, zero exactly on zero, and pointing
/// just past the highest set bit.
pub proof fn lemma_occ1_props(x: u64)
    ensures
        0 <= occ1(x) <= 64,
        (occ1(x) == 0 <==> x == 0),
        occ1(x) <= 63 ==> x >> (occ1(x) as u64) == 0,
        0 < occ1(x) ==> x >> ((occ1(x) - 1) as u64) != 0,
    decreases x,
{
    if x == 0 {
        assert(x >> 0u64 == x) by (bit_vector);
    } else {
        let y: u64 = (x / 2) as u64;
        assert(y == x >> 1u64 && y < x) by (bit_vector)
            requires
                y == (x / 2) as u64,
                x != 0,
        ;
        lemma_occ1_props(y);
        let ku: u64 = occ1(y) as u64;
        assert(occ1(x) == 1 + ku);
        if ku > 63 {
            assert(y >> ((ku - 1) as u64) == 0) by (bit_vector)
                requires
                    y == x >> 1u64,
                    63 < ku <= 64,
            ;
            assert(false);
        }
        assert((ku <= 62 ==> (x >> 1u64) >> ku == x >> ((ku + 1) as u64)) && (1 <= ku <= 63
            ==> (x >> 1u64) >> ((ku - 1) as u64) == x >> (ku as u64))) by (bit_vector)
            requires
                ku <= 64,
        ;
        if ku == 0 {
            assert(x >> ((occ1(x) - 1) as u64) == x >> 0u64);
            assert(x >> 0u64 == x) by (bit_vector);
        }
    }
}

/// A value that fits in a row occupies at most the row's bits.
pub proof fn lemma_occ1_fits(v: u64, s: u64)
    requires
        s <= 63,
        fits(v, s),
    ensures
        occ1(v) <= s,
    decreases v,
{
    if v == 0 {
    } else {
        lemma_fits_shr(v, s);
        if s == 0 {
            assert(v >> 0u64 == v) by (bit_vector);
        } else {
            let y: u64 = (v / 2) as u64;
            assert(y == v >> 1u64 && y < v && (v >> s == 0 ==> y >> ((s - 1) as u64) == 0))
                by (bit_vector)
                requires
                    y == (v / 2) as u64,
                    v != 0,
                    1 <= s <= 63,
            ;
            lemma_fits_shr(y, (s - 1) as u64);
            lemma_occ1_fits(y, (s - 1) as u64);
        }
    }
}

/// The rotation that [`Field::centralize`] applies: half the unoccupied
/// width, rounded down to a block boundary.
pub open spec fn center_offset(v: u64, s: u64) -> u64 {
    let gap = (s - occ3(v)) / 2;
    (gap - gap % 3) as u64
}

/// `m` is the least value among all whole-block rotations of `v`.
pub open spec fn is_min_rotation(v: u64, s: u64, m: u64) -> bool {
    &&& exists|k: u64| k < s / 3 && m == #[trigger] rot_left_blocks(v, s, k)
    &&& forall|k: u64| k < s / 3 ==> m <= #[trigger] rot_left_blocks(v, s, k)
}

/// The least value among the left rotations of `v` by `0` to `k` blocks.
pub open spec fn min_rot_upto(v: u64, s: u64, k: int) -> u64
    decreases k,
{
    if k <= 0 {
        rot_left_blocks(v, s, 0)
    } else {
        let c = rot_left_blocks(v, s, k as u64);
        let m = min_rot_upto(v, s, k - 1);
        if c < m {
            c
        } else {
            m
        }
    }
}

/// The canonical rotation representative: the least value among all
/// whole-block rotations of `v`.
pub open spec fn min_rot(v: u64, s: u64) -> u64 {
    min_rot_upto(v, s, s as int / 3 - 1)
}

/// What [`min_rot_upto`] computes: the least candidate so far.
pub proof fn lemma_min_rot_upto_props(v: u64, s: u64, k: int)
    requires
        0 <= k < s / 3,
    ensures
        exists|k2: u64| k2 <= k && min_rot_upto(v, s, k) == #[trigger] rot_left_blocks(v, s, k2),
        forall|k2: u64| k2 <= k ==> min_rot_upto(v, s, k) <= #[trigger] rot_left_blocks(v, s, k2),
    decreases k,
{
    if k <= 0 {
        assert(min_rot_upto(v, s, k) == rot_left_blocks(v, s, 0));
    } else {
        lemma_min_rot_upto_props(v, s, k - 1);
    }
}

/// [`min_rot`] is the least whole-block rotation.
pub proof fn lemma_min_rot_is_min(v: u64, s: u64)
    requires
        s % 3 == 0,
        3 <= s <= 63,
    ensures
        is_min_rotation(v, s, min_rot(v, s)),
{
    lemma_min_rot_upto_props(v, s, s as int / 3 - 1);
}

/// The least whole-block rotation is unique.
pub proof fn lemma_min_rotation_unique(v: u64, s: u64, m1: u64, m2: u64)
    requires
        is_min_rotation(v, s, m1),
        is_min_rotation(v, s, m2),
    ensures
        m1 == m2,
{
}

impl Field {
    /// The width is a positive whole number of blocks that fits the word.
    pub open spec fn wf(self) -> bool {
        self.size % 3 == 0 && 3 <= self.size <= 63
    }

    /// Well-formed width and no cells outside the row.
    pub open spec fn valid(self) -> bool {
        self.wf() && fits(self.val, self.size as u64)
    }

    /// Builds a field from a value and a width.  The width must be a whole
    /// number of blocks no wider than the word, and the value must not have
    /// bits outside the row; [`Field::try_new`] reports these cases instead.
    pub fn new(val: u64, size: u32) -> (r: Field)
        requires
            size % 3 == 0,
            size <= 64,
            fits(val, size as u64),
        ensures
            r.val == val,
            r.size == size,
    {
        Field { val, size }
    }

    /// Builds a field, rejecting a width that is not a whole number of
    /// blocks or exceeds the word, and a value with cells outside the row.
    pub fn try_new(val: u64, size: u32) -> (r: Result<Field, ConfigurationError>)
        ensures
            match r {
                Ok(f) => {
                    &&& size % 3 == 0
                    &&& size <= 64
                    &&& fits(val, size as u64)
                    &&& f.val == val
                    &&& f.size == size
                },
                Err(_) => !(size % 3 == 0 && size <= 64 && fits(val, size as u64)),
            },
    {
        if size % 3 == 0 && size <= 64 && (val & (ALL_ONES << size)) == 0 {
            Ok(Field { val, size })
        } else {
            Err(ConfigurationError)
        }
    }

    /// Rotates the row left by `count` cells (reduced modulo the width).
    pub fn rotate_left(self, count: u32) -> (r: Field)
        requires
            self.wf(),
        ensures
            r.size == self.size,
            r.val == rot_left(self.val, self.size as u64, count as u64),
            fits(r.val, r.size as u64),
    {
        proof {
            lemma_rot_fits(self.val, self.size as u64, count as u64);
        }
        let count = count % self.size;
        let val = ((self.val << count) | ((self.val >> (self.size - count)) & (PAT7 >> (self.size
            - count)))) & !(ALL_ONES << self.size);
        Field { val, size: self.size }
    }

    /// Rotates the row right by `count` cells (reduced modulo the width).
    pub fn rotate_right(self, count: u32) -> (r: Field)
        requires
            self.wf(),
        ensures
            r.size == self.size,
            r.val == rot_right(self.val, self.size as u64, count as u64),
            fits(r.val, r.size as u64),
    {
        proof {
            lemma_rot_fits(self.val, self.size as u64, count as u64);
        }
        let count = count % self.size;
        let val = ((self.val >> count) | ((self.val & (PAT7 >> (self.size - count))) << (self.size
            - count))) & !(ALL_ONES << self.size);
        Field { val, size: self.size }
    }

    /// Rotates right by `count` cells, or left when `count` is negative.
    pub fn rotate(self, count: i32) -> (r: Field)
        requires
            self.wf(),
            count != i32::MIN,
        ensures
            r.size == self.size,
            r.val == rot_signed(self.val, self.size as u64, count as int),
            fits(r.val, r.size as u64),
    {
        if count < 0 {
            self.rotate_left((-count) as u32)
        } else {
            self.rotate_right(count as u32)
        }
    }

    /// The cells of the row from the highest position down, repeated
    /// `dupl` times.
    pub fn to_bools(&self, dupl: u64) -> (r: Vec<bool>)
        requires
            self.wf(),
        ensures
            r@.len() == dupl * self.size,
            forall|k: int|
                0 <= k < r@.len() ==> r@[k] == ((self.val >> ((self.size - 1 - (k % (
                self.size as int))) as u64)) & 1 != 0),
    {
        let size = self.size as usize;
        let mut row: Vec<bool> = Vec::new();
        let mut j: usize = 0;
        while j < size
            invariant
                self.wf(),
                size == self.size,
                j <= size,
                row@.len() == j,
                forall|k: int|
                    0 <= k < j ==> row@[k] == ((self.val >> ((self.size - 1 - k) as u64)) & 1
                        != 0),
            decreases size - j,
        {
            row.push((self.val >> (self.size - 1 - j as u32)) & 1 != 0);
            j = j + 1;
        }
        let mut out: Vec<bool> = Vec::new();
        let mut d: u64 = 0;
        while d < dupl
            invariant
                self.wf(),
                size == self.size,
                row@.len() == size,
                forall|k: int|
                    0 <= k < size ==> row@[k] == ((self.val >> ((self.size - 1 - k) as u64)) & 1
                        != 0),
                d <= dupl,
                out@.len() == d * size,
                forall|k: int|
                    0 <= k < out@.len() ==> out@[k] == row@[k % (self.size as int)],
            decreases dupl - d,
        {
            let mut j: usize = 0;
            while j < size
                invariant
                    self.wf(),
                    size == self.size,
                    row@.len() == size,
                    j <= size,
                    out@.len() == d * size + j,
                    forall|k: int|
                        0 <= k < out@.len() ==> out@[k] == row@[k % (self.size as int)],
                decreases size - j,
            {
                proof {
                    assert((d * size + j) % (size as int) == j) by (nonlinear_arith)
                        requires
                            0 <= j < size,
                            0 <= d,
                    ;
                }
                out.push(row[j]);
                j = j + 1;
            }
            proof {
                assert((d + 1) * (size as int) == d * (size as int) + size) by (nonlinear_arith);
            }
            d = d + 1;
        }
        out
    }

    /// The occupied span of the row in bits, counted by whole blocks.
    pub fn occupied_size3(&self) -> (r: u32)
        ensures
            r as int == occ3(self.val),
    {
        occupied_size3(self.val)
    }

    /// The canonical rotation representative: the least value among all
    /// whole-block rotations of the row.
    pub fn minimize(self) -> (r: Field)
        requires
            self.valid(),
        ensures
            r.size == self.size,
            is_min_rotation(self.val, self.size as u64, r.val),
            r.val == min_rot(self.val, self.size as u64),
            fits(r.val, r.size as u64),
    {
        let s = self.size as u64;
        let nb = self.size / 3;
        let mut my_min = self.val;
        proof {
            lemma_rot_zero(self.val, s);
            assert(rot_left_blocks(self.val, s, 0) == rot_left(self.val, s, 0));
        }
        let mut i: u32 = 0;
        while i <= nb
            invariant
                self.valid(),
                s == self.size,
                nb == self.size / 3,
                i <= nb + 1,
                exists|k: u64| k < nb as u64 && my_min == #[trigger] rot_left_blocks(self.val, s, k),
                forall|k: u64|
                    k < i && k < nb as u64 ==> my_min <= #[trigger] rot_left_blocks(self.val, s, k),
            decreases nb + 1 - i,
        {
            let c = self.rotate_left(i * 3);
            proof {
                assert(c.val == rot_left_blocks(self.val, s, i as u64));
                if i == nb {
                    assert((3 * (i as u64)) as u64 % s == 0) by (nonlinear_arith)
                        requires
                            s == self.size,
                            i == self.size / 3,
                            self.size % 3 == 0,
                            3 <= self.size <= 63,
                    ;
                    lemma_rot_zero(self.val, s);
                    assert(0u64 % s == 0);
                    assert(c.val == rot_left_blocks(self.val, s, 0));
                }
            }
            if c.val < my_min {
                my_min = c.val;
            }
            i = i + 1;
        }
        proof {
            let k0 = choose|k: u64| k < nb as u64 && my_min == #[trigger] rot_left_blocks(
                self.val,
                s,
                k,
            );
            lemma_rot_fits(self.val, s, (3 * k0) as u64);
            lemma_min_rot_is_min(self.val, s);
            lemma_min_rotation_unique(self.val, s, my_min, min_rot(self.val, s));
        }
        Field { val: my_min, size: self.size }
    }

    /// Rotates the row so its occupied span sits centered in the window,
    /// moved by a whole number of blocks.
    pub fn centralize(self) -> (r: Field)
        requires
            self.valid(),
        ensures
            r.size == self.size,
            r.val == rot_left(self.val, self.size as u64, center_offset(self.val, self.size as u64)),
            fits(r.val, r.size as u64),
    {
        proof {
            lemma_occ3_fits(self.val, self.size as u64);
            lemma_occ3_props(self.val);
        }
        let occupied = self.occupied_size3();
        let mut offset = (self.size - occupied) / 2;
        offset -= offset % 3;
        self.rotate_left(offset)
    }

    /// The cell at bit position `pos`.
    pub fn index(&self, pos: u32) -> (r: bool)
        requires
            pos < 64,
        ensures
            r == ((self.val >> pos) & 1 == 1),
    {
        let v = self.val;
        proof {
            assert(((v >> pos) & 1) == 0 || ((v >> pos) & 1) == 1) by (bit_vector);
        }
        ((v >> pos) & 1) != 0
    }
}

/// The occupied span of `x` in bits, counted by whole blocks of three.
pub fn occupied_size3(x: u64) -> (r: u32)
    ensures
        r as int == occ3(x),
{
    let mut cur = x;
    let mut count: u32 = 0;
    proof {
        lemma_occ3_props(x);
    }
    while cur != 0
        invariant
            count as int + occ3(cur) == occ3(x),
            0 <= occ3(cur) <= 66,
            0 <= occ3(x) <= 66,
            count <= 66,
        decreases cur,
    {
        proof {
            let y: u64 = (cur / 8) as u64;
            assert(y == cur >> 3u64 && y < cur) by (bit_vector)
                requires
                    y == (cur / 8) as u64,
                    cur != 0,
            ;
            lemma_occ3_props(y);
        }
        cur >>= 3;
        count += 3;
    }
    count
}

/// The occupied span of `x` in bits.
pub fn occupied_size(x: u64) -> (r: u32)
    ensures
        r as int == occ1(x),
{
    let mut cur = x;
    let mut count: u32 = 0;
    proof {
        lemma_occ1_props(x);
    }
    while cur != 0
        invariant
            count as int + occ1(cur) == occ1(x),
            0 <= occ1(cur) <= 64,
            0 <= occ1(x) <= 64,
            count <= 64,
        decreases cur,
    {
        proof {
            let y: u64 = (cur / 2) as u64;
            assert(y == cur >> 1u64 && y < cur) by (bit_vector)
                requires
                    y == (cur / 2) as u64,
                    cur != 0,
            ;
            lemma_occ1_props(y);
        }
        cur >>= 1;
        count += 1;
    }
    count
}

/// Rotates the low `size` bits of `x` left by `count` positions; bits of
/// `x` above the row may leak into the result as the word is wrapped.
pub fn rotate_left(x: u64, size: u32, count: u32) -> (r: u64)
    requires
        1 <= size <= 63,
    ensures
        r == rot_left(x, size as u64, count as u64),
{
    let count = count % size;
    ((x << count) | ((x >> (size - count)) & (PAT7 >> (size - count)))) & !(ALL_ONES << size)
}

/// Rotates the low `size` bits of `x` right by `count` positions, with the
/// same treatment of stray high bits as [`rotate_left`].
pub fn rotate_right(x: u64, size: u32, count: u32) -> (r: u64)
    requires
        1 <= size <= 63,
    ensures
        r == rot_right(x, size as u64, count as u64),
{
    let count = count % size;
    ((x >> count) | ((x & (PAT7 >> (size - count))) << (size - count))) & !(ALL_ONES << size)
}

/// Law: rotating a field left then right by the same count restores it,
/// as does rotating right then left.
pub proof fn lemma_rotation_round_trip(f: Field, n: u32)
    requires
        f.valid(),
    ensures
        rot_right(rot_left(f.val, f.size as u64, n as u64), f.size as u64, n as u64) == f.val,
        rot_left(rot_right(f.val, f.size as u64, n as u64), f.size as u64, n as u64) == f.val,
{
    lemma_rot_round_trip(f.val, f.size as u64, n as u64);
}

/// Law: minimizing is idempotent.  Any value that is minimal among the
/// whole-block rotations of a minimal rotation of `v` is that minimal
/// rotation itself.
pub proof fn lemma_minimize_idempotent(v: u64, s: u64, m1: u64, m2: u64)
    requires
        s % 3 == 0,
        3 <= s <= 63,
        fits(v, s),
        is_min_rotation(v, s, m1),
        is_min_rotation(m1, s, m2),
    ensures
        m2 == m1,
{
    let nb = s / 3;
    let k1 = choose|k: u64| k < nb && m1 == #[trigger] rot_left_blocks(v, s, k);
    lemma_rot_fits(v, s, (3 * k1) as u64);
    assert(m2 <= rot_left_blocks(m1, s, 0));
    lemma_rot_zero(m1, s);
    assert(rot_left_blocks(m1, s, 0) == m1);
    let k2 = choose|k: u64| k < nb && m2 == #[trigger] rot_left_blocks(m1, s, k);
    assert(3 * k1 < s && 3 * k2 < s) by (nonlinear_arith)
        requires
            k1 < s / 3,
            k2 < s / 3,
            s % 3 == 0,
            3 <= s <= 63,
    ;
    lemma_rot_left_compose(v, s, (3 * k1) as u64, (3 * k2) as u64);
    let c: u64 = (3 * k1 + 3 * k2) as u64;
    assert(m2 == rot_left(v, s, c));
    let k3: u64 = if k1 + k2 < nb {
        (k1 + k2) as u64
    } else {
        (k1 + k2 - nb) as u64
    };
    assert(c % s == 3 * k3 && k3 < nb && (3 * k3) as u64 % s == 3 * k3) by (nonlinear_arith)
        requires
            k1 < nb,
            k2 < nb,
            nb == s / 3,
            s % 3 == 0,
            3 <= s <= 63,
            c == 3 * k1 + 3 * k2,
            k3 == (if k1 + k2 < nb {
                (k1 + k2) as u64
            } else {
                (k1 + k2 - nb) as u64
            }),
    ;
    assert(m2 == rot_left_blocks(v, s, k3));
    assert(m1 <= rot_left_blocks(v, s, k3));
    assert(m2 <= m1);
    assert(m1 <= m2);
}

} // verus!
