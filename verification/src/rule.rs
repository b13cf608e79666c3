//! Bijective block-substitution rules and the multi-phase stepping protocol
//! that composes them into one reversible full generation.

use vstd::prelude::*;

use crate::bits::{
    block3, fits, lemma_eq_by_blocks, rot_left, rot_right, ALL_ONES, PAT0, PAT1, PAT2, PAT3, PAT4,
    PAT5, PAT6, PAT7,
};
use crate::field::Field;
use crate::perm::{decode_permutation, perm_of_index};

verus! {

/// Relies on std's `String::push`: appends the character to the string.
pub assume_specification[ String::push ](s: &mut String, ch: char)
    ensures
        final (s)@ == old(s)@.push(ch),
;

/// Every block of `w` holds the same three-bit value, and the top bit is clear.
pub open spec fn is_uniform(w: u64) -> bool {
    &&& forall|j: u64| j < 21 ==> #[trigger] block3(w, j) == w & 7
    &&& w >> 63 == 0
}

/// A substitution rule: for each of the eight block values, the output
/// value repeated in every block position of a word.
#[derive(Clone, Copy, Debug, PartialEq, Eq)]
pub struct Rule(pub [u64; 8]);

impl Rule {
    /// The output block value for input block value `k`.
    pub open spec fn out(self, k: int) -> u64 {
        self.0@[k] & 7
    }

    /// The rule read as a table from block value to block value.
    pub open spec fn tbl(self) -> Seq<u64> {
        Seq::new(8, |k: int| self.0@[k] & 7)
    }

    /// Every entry is a repeated block pattern.
    pub open spec fn wf(self) -> bool {
        forall|k: int| 0 <= k < 8 ==> #[trigger] is_uniform(self.0@[k])
    }

    /// The table is a bijection on block values, which is what makes the
    /// induced full generation reversible.
    pub open spec fn bijective(self) -> bool {
        forall|k1: int, k2: int|
            0 <= k1 < 8 && 0 <= k2 < 8 && k1 != k2 ==> #[trigger] self.out(k1) != #[trigger] self.out(
                k2,
            )
    }
}

/// Blocks are three-bit values.
pub proof fn lemma_block3_lt8(v: u64, j: u64)
    by (bit_vector)
    ensures
        block3(v, j) < 8,
{
}

/// The eight pattern constants repeat their block value in every block.
pub proof fn lemma_pats_uniform()
    by (bit_vector)
    ensures
        forall|j: u64| j < 21 ==> #[trigger] block3(PAT0, j) == PAT0 & 7,
        forall|j: u64| j < 21 ==> #[trigger] block3(PAT1, j) == PAT1 & 7,
        forall|j: u64| j < 21 ==> #[trigger] block3(PAT2, j) == PAT2 & 7,
        forall|j: u64| j < 21 ==> #[trigger] block3(PAT3, j) == PAT3 & 7,
        forall|j: u64| j < 21 ==> #[trigger] block3(PAT4, j) == PAT4 & 7,
        forall|j: u64| j < 21 ==> #[trigger] block3(PAT5, j) == PAT5 & 7,
        forall|j: u64| j < 21 ==> #[trigger] block3(PAT6, j) == PAT6 & 7,
        forall|j: u64| j < 21 ==> #[trigger] block3(PAT7, j) == PAT7 & 7,
        PAT0 >> 63 == 0 && PAT1 >> 63 == 0 && PAT2 >> 63 == 0 && PAT3 >> 63 == 0,
        PAT4 >> 63 == 0 && PAT5 >> 63 == 0 && PAT6 >> 63 == 0 && PAT7 >> 63 == 0,
        PAT0 & 7 == 0 && PAT1 & 7 == 1 && PAT2 & 7 == 2 && PAT3 & 7 == 3,
        PAT4 & 7 == 4 && PAT5 & 7 == 5 && PAT6 & 7 == 6 && PAT7 & 7 == 7,
{
}

/// The word whose blocks below `n` hold the table's outputs for the
/// corresponding blocks of `v`, and whose blocks from `n` up are clear.
pub open spec fn subst_upto(v: u64, t: Seq<u64>, n: int) -> u64
    decreases n,
{
    if n <= 0 {
        0
    } else {
        subst_upto(v, t, n - 1) | ((t[block3(v, (n - 1) as u64) as int] & 7) << (3 * (n - 1)))
    }
}

/// The parallel block substitution: every block of `v` replaced by the
/// table's output for its value.  The top bit of the result is clear.
pub open spec fn subst3(v: u64, t: Seq<u64>) -> u64 {
    subst_upto(v, t, 21)
}

/// Setting one clear block of a word changes that block and no other.
pub proof fn lemma_or_block(a: u64, q: u64, m: u64, j: u64)
    by (bit_vector)
    requires
        m < 21,
        j < 21,
        q < 8,
        a >> ((3 * m) as u64) == 0,
    ensures
        block3(a | (q << ((3 * m) as u64)), j) == (if j == m {
            q
        } else {
            block3(a, j)
        }),
        (a | (q << ((3 * m) as u64))) >> ((3 * m + 3) as u64) == 0,
        (a | (q << ((3 * m) as u64))) >> 63 == 0,
{
}

/// Block `j` of a bitwise OR is the OR of the blocks.
pub proof fn lemma_block_or(a: u64, b: u64, j: u64)
    by (bit_vector)
    ensures
        block3(a | b, j) == block3(a, j) | block3(b, j),
{
}

/// What [`subst_upto`] builds, block by block.
pub proof fn lemma_subst_upto_blocks(v: u64, t: Seq<u64>, n: int)
    requires
        0 <= n <= 21,
    ensures
        forall|j: u64|
            j < n ==> #[trigger] block3(subst_upto(v, t, n), j) == t[block3(v, j) as int] & 7,
        subst_upto(v, t, n) >> ((3 * n) as u64) == 0,
        subst_upto(v, t, n) >> 63 == 0,
    decreases n,
{
    if n == 0 {
        assert(0u64 >> 0u64 == 0 && 0u64 >> 63u64 == 0) by (bit_vector);
    } else {
        lemma_subst_upto_blocks(v, t, n - 1);
        let a = subst_upto(v, t, n - 1);
        let m: u64 = (n - 1) as u64;
        let q: u64 = t[block3(v, m) as int] & 7;
        assert(q < 8) by {
            let z = t[block3(v, m) as int];
            assert(z & 7 < 8) by (bit_vector);
        }
        lemma_or_block(a, q, m, m);
        assert(subst_upto(v, t, n) == a | (q << ((3 * m) as u64)));
        assert forall|j: u64|
            j < n implies #[trigger] block3(subst_upto(v, t, n), j) == t[block3(v, j) as int]
            & 7 by {
            lemma_or_block(a, q, m, j);
        }
        assert((a | (q << ((3 * m) as u64))) >> ((3 * m + 3) as u64) == 0) by {
            lemma_or_block(a, q, m, 0);
        }
    }
}

/// The parallel substitution, block by block: block `j` of the result is
/// the table's output for block `j` of the input.
pub proof fn lemma_subst3_blocks(v: u64, t: Seq<u64>)
    ensures
        forall|j: u64| j < 21 ==> #[trigger] block3(subst3(v, t), j) == t[block3(v, j) as int] & 7,
        subst3(v, t) >> 63 == 0,
{
    lemma_subst_upto_blocks(v, t, 21);
}

/// The whole-word trick behind the parallel substitution: matches every
/// block of `x` that equals the block value of `pat1` and produces the
/// block value of `pat2` there, with every other block clear.
pub fn replace(x: u64, pat1: u64, pat2: u64) -> (r: u64)
    requires
        is_uniform(pat1),
        is_uniform(pat2),
    ensures
        forall|j: u64|
            j < 21 ==> #[trigger] block3(r, j) == (if block3(x, j) == pat1 & 7 {
                pat2 & 7
            } else {
                0
            }),
        r >> 63 == 0,
{
    let x1 = !(x ^ pat1);
    let x2 = x1 & (x1 >> 1u64) & (x1 >> 2u64) & PAT1;
    let x3 = x2 | (x2 << 1u64) | (x2 << 2u64);
    let r = x3 & pat2;
    proof {
        assert forall|j: u64|
            j < 21 implies #[trigger] block3(r, j) == (if block3(x, j) == pat1 & 7 {
            pat2 & 7
        } else {
            0
        }) by {
            lemma_replace_block(x, pat1, pat2, j);
        }
        lemma_replace_block(x, pat1, pat2, 0);
    }
    r
}

/// One block of the matching trick: all-ones where the block of `x` equals
/// the block of `p1`, then collapsed to the low bit, spread back over the
/// block and masked by `p2`.
pub proof fn lemma_replace_block(x: u64, p1: u64, p2: u64, j: u64)
    by (bit_vector)
    requires
        j < 21,
        block3(p1, j) == p1 & 7,
        block3(p2, j) == p2 & 7,
        p2 >> 63 == 0,
    ensures
        ({
            let x1 = !(x ^ p1);
            let x2 = x1 & (x1 >> 1u64) & (x1 >> 2u64) & PAT1;
            let x3 = x2 | (x2 << 1u64) | (x2 << 2u64);
            block3(x3 & p2, j) == (if block3(x, j) == p1 & 7 {
                p2 & 7
            } else {
                0
            })
        }),
        ({
            let x1 = !(x ^ p1);
            let x2 = x1 & (x1 >> 1u64) & (x1 >> 2u64) & PAT1;
            let x3 = x2 | (x2 << 1u64) | (x2 << 2u64);
            (x3 & p2) >> 63 == 0
        }),
{
}

/// One phase with the partition aligned to the word: the bare substitution.
pub open spec fn phase0(v: u64, t: Seq<u64>) -> u64 {
    subst3(v, t)
}

/// One phase with the partition shifted by one cell.
pub open spec fn phase1(v: u64, s: u64, t: Seq<u64>) -> u64 {
    rot_left(subst3(rot_right(v, s, 1), t), s, 1)
}

/// One phase with the partition shifted by two cells.
pub open spec fn phase2(v: u64, s: u64, t: Seq<u64>) -> u64 {
    rot_left(rot_left(subst3(rot_right(rot_right(v, s, 1), s, 1), t), s, 1), s, 1)
}

/// One full generation as [`Rule::steps`] computes it: three substitutions
/// at the three partition alignments, with the realigning rotations fused.
pub open spec fn generation(v: u64, s: u64, t: Seq<u64>) -> u64 {
    let a1 = subst3(v, t);
    let a2 = rot_right(a1, s, 1);
    let a3 = subst3(a2, t);
    let a4 = rot_right(a3, s, 1);
    let a5 = subst3(a4, t);
    rot_left(rot_left(a5, s, 1), s, 1)
}

/// `n` full generations.
pub open spec fn generation_n(v: u64, s: u64, t: Seq<u64>, n: int) -> u64
    decreases n,
{
    if n <= 0 {
        v
    } else {
        generation(generation_n(v, s, t, n - 1), s, t)
    }
}

impl Rule {
    /// Builds a rule from eight repeated block patterns whose block values
    /// form a bijection.
    pub fn new(x: [u64; 8]) -> (r: Rule)
        requires
            forall|k: int| 0 <= k < 8 ==> #[trigger] is_uniform(x@[k]),
            forall|k1: int, k2: int|
                0 <= k1 < 8 && 0 <= k2 < 8 && k1 != k2 ==> (x@[k1] & 7) != (x@[k2] & 7),
        ensures
            r.0@ == x@,
            r.wf(),
            r.bijective(),
    {
        Rule(x)
    }

    /// Builds the rule named by index `ni`: the identity rule's patterns
    /// rearranged by the permutation that the index decodes to.
    #[verifier::rlimit(100)]
    #[verifier::spinoff_prover]
    pub fn num_to_rule(ni: u64) -> (r: Rule)
        requires
            ni < 40320,
        ensures
            r.wf(),
            r.bijective(),
            forall|k: int| 0 <= k < 8 ==> #[trigger] r.out(k) == perm_of_index(ni)[k],
    {
        let p = decode_permutation(ni);
        let a0 = pattern_of(p[0]);
        let a1 = pattern_of(p[1]);
        let a2 = pattern_of(p[2]);
        let a3 = pattern_of(p[3]);
        let a4 = pattern_of(p[4]);
        let a5 = pattern_of(p[5]);
        let a6 = pattern_of(p[6]);
        let a7 = pattern_of(p[7]);
        let arr: [u64; 8] = [a0, a1, a2, a3, a4, a5, a6, a7];
        proof {
            assert(arr@[0] == a0 && arr@[1] == a1 && arr@[2] == a2 && arr@[3] == a3 && arr@[4]
                == a4 && arr@[5] == a5 && arr@[6] == a6 && arr@[7] == a7);
            assert forall|k1: int, k2: int|
                0 <= k1 < 8 && 0 <= k2 < 8 && k1 != k2 implies (arr@[k1] & 7) != (arr@[k2]
                & 7) by {
                assert(p@[k1] != p@[k2]);
            }
        }
        Rule::new(arr)
    }

    /// The rule's name: the decoded permutation written as eight digits.
    pub fn num_to_rule_name(ni: u64) -> (r: String)
        requires
            ni < 40320,
        ensures
            r@.len() == 8,
            forall|i: int| 0 <= i < 8 ==> r@[i] == digit_char(perm_of_index(ni)[i]),
    {
        let p = decode_permutation(ni);
        let mut res = String::new();
        let mut i: usize = 0;
        while i < 8
            invariant
                i <= 8,
                p@.len() == 8,
                p@ == perm_of_index(ni),
                res@.len() == i,
                forall|k: int| 0 <= k < i ==> res@[k] == digit_char(perm_of_index(ni)[k]),
            decreases 8 - i,
        {
            let d = p[i];
            let c: char = if d == 0 {
                '0'
            } else if d == 1 {
                '1'
            } else if d == 2 {
                '2'
            } else if d == 3 {
                '3'
            } else if d == 4 {
                '4'
            } else if d == 5 {
                '5'
            } else if d == 6 {
                '6'
            } else {
                '7'
            };
            res.push(c);
            i = i + 1;
        }
        res
    }

    /// Applies the parallel block substitution to the field's word in
    /// place: every block replaced by the rule's output for its value.
    /// Where the rule does not map the empty block to itself, blocks of
    /// the word beyond the field's row are filled too.
    pub fn replace_all(&self, x: &mut Field)
        requires
            self.wf(),
            old(x).wf(),
        ensures
            final (x).size == old(x).size,
            final (x).val == subst3(old(x).val, self.tbl()),
    {
        let v = x.val;
        proof {
            lemma_pats_uniform();
        }
        let r0 = replace(v, PAT0, self.0[0]);
        let r1 = replace(v, PAT1, self.0[1]);
        let r2 = replace(v, PAT2, self.0[2]);
        let r3 = replace(v, PAT3, self.0[3]);
        let r4 = replace(v, PAT4, self.0[4]);
        let r5 = replace(v, PAT5, self.0[5]);
        let r6 = replace(v, PAT6, self.0[6]);
        let r7 = replace(v, PAT7, self.0[7]);
        let r = r0 | r1 | r2 | r3 | r4 | r5 | r6 | r7;
        proof {
            let t = self.tbl();
            lemma_subst3_blocks(v, t);
            assert forall|j: u64| j < 21 implies #[trigger] block3(r, j) == block3(
                subst3(v, t),
                j,
            ) by {
                lemma_block_or(r0, r1, j);
                lemma_block_or(r0 | r1, r2, j);
                lemma_block_or(r0 | r1 | r2, r3, j);
                lemma_block_or(r0 | r1 | r2 | r3, r4, j);
                lemma_block_or(r0 | r1 | r2 | r3 | r4, r5, j);
                lemma_block_or(r0 | r1 | r2 | r3 | r4 | r5, r6, j);
                lemma_block_or(r0 | r1 | r2 | r3 | r4 | r5 | r6, r7, j);
                let b = block3(v, j);
                lemma_block3_lt8(v, j);
                let z = self.0@[b as int];
                assert((z & 7) & 7 == z & 7) by (bit_vector);
                assert(t[b as int] & 7 == t[b as int]);
                lemma_or_select8(
                    block3(r0, j),
                    block3(r1, j),
                    block3(r2, j),
                    block3(r3, j),
                    block3(r4, j),
                    block3(r5, j),
                    block3(r6, j),
                    block3(r7, j),
                    t[b as int],
                    b,
                );
            }
            assert(r >> 63 == 0) by (bit_vector)
                requires
                    r == r0 | r1 | r2 | r3 | r4 | r5 | r6 | r7,
                    r0 >> 63 == 0,
                    r1 >> 63 == 0,
                    r2 >> 63 == 0,
                    r3 >> 63 == 0,
                    r4 >> 63 == 0,
                    r5 >> 63 == 0,
                    r6 >> 63 == 0,
                    r7 >> 63 == 0,
            ;
            lemma_eq_by_blocks(r, subst3(v, t));
        }
        x.val = r;
    }

    /// The phase step aligned to the word.
    pub fn step0(&self, x: &mut Field)
        requires
            self.wf(),
            old(x).wf(),
        ensures
            final (x).size == old(x).size,
            final (x).val == phase0(old(x).val, self.tbl()),
    {
        self.replace_all(x);
    }

    /// The phase step with the partition shifted by one cell.
    pub fn step1(&self, x: &mut Field)
        requires
            self.wf(),
            old(x).wf(),
        ensures
            final (x).size == old(x).size,
            final (x).val == phase1(old(x).val, old(x).size as u64, self.tbl()),
            fits(final (x).val, final (x).size as u64),
    {
        *x = x.rotate_right(1);
        self.replace_all(x);
        *x = x.rotate_left(1);
    }

    /// The phase step with the partition shifted by two cells.
    pub fn step2(&self, x: &mut Field)
        requires
            self.wf(),
            old(x).wf(),
        ensures
            final (x).size == old(x).size,
            final (x).val == phase2(old(x).val, old(x).size as u64, self.tbl()),
            fits(final (x).val, final (x).size as u64),
    {
        *x = x.rotate_right(1);
        *x = x.rotate_right(1);
        self.replace_all(x);
        *x = x.rotate_left(1);
        *x = x.rotate_left(1);
    }

    /// One full generation: the three phase substitutions composed, with
    /// the realigning rotations fused together.
    pub fn steps(&self, x: &mut Field)
        requires
            self.wf(),
            old(x).wf(),
        ensures
            final (x).size == old(x).size,
            final (x).val == generation(old(x).val, old(x).size as u64, self.tbl()),
            fits(final (x).val, final (x).size as u64),
    {
        self.replace_all(x);
        *x = x.rotate_right(1);
        self.replace_all(x);
        *x = x.rotate_right(1);
        self.replace_all(x);
        *x = x.rotate_left(1);
        *x = x.rotate_left(1);
    }

    /// `count` full generations.
    pub fn steps_count(&self, x: &mut Field, count: u64)
        requires
            self.wf(),
            old(x).wf(),
        ensures
            final (x).size == old(x).size,
            final (x).val == generation_n(old(x).val, old(x).size as u64, self.tbl(), count as int),
            count >= 1 ==> fits(final (x).val, final (x).size as u64),
    {
        let ghost v0 = x.val;
        let ghost s = x.size as u64;
        let mut i: u64 = 0;
        while i < count
            invariant
                self.wf(),
                x.wf(),
                x.size as u64 == s,
                i <= count,
                x.val == generation_n(v0, s, self.tbl(), i as int),
                i >= 1 ==> fits(x.val, s),
            decreases count - i,
        {
            self.steps(x);
            i = i + 1;
        }
    }
}

/// The digit character naming block value `d`.
pub open spec fn digit_char(d: u64) -> char {
    if d == 0 {
        '0'
    } else if d == 1 {
        '1'
    } else if d == 2 {
        '2'
    } else if d == 3 {
        '3'
    } else if d == 4 {
        '4'
    } else if d == 5 {
        '5'
    } else if d == 6 {
        '6'
    } else {
        '7'
    }
}

/// The repeated block pattern for block value `d`.
pub fn pattern_of(d: u64) -> (r: u64)
    requires
        d < 8,
    ensures
        is_uniform(r),
        r & 7 == d,
{
    proof {
        lemma_pats_uniform();
    }
    if d == 0 {
        PAT0
    } else if d == 1 {
        PAT1
    } else if d == 2 {
        PAT2
    } else if d == 3 {
        PAT3
    } else if d == 4 {
        PAT4
    } else if d == 5 {
        PAT5
    } else if d == 6 {
        PAT6
    } else {
        PAT7
    }
}

/// The OR of eight values of which all but the selected one are clear is
/// the selected value.
pub proof fn lemma_or_select8(
    c0: u64,
    c1: u64,
    c2: u64,
    c3: u64,
    c4: u64,
    c5: u64,
    c6: u64,
    c7: u64,
    q: u64,
    k: u64,
)
    by (bit_vector)
    requires
        k < 8,
        c0 == (if k == 0 {
            q
        } else {
            0
        }),
        c1 == (if k == 1 {
            q
        } else {
            0
        }),
        c2 == (if k == 2 {
            q
        } else {
            0
        }),
        c3 == (if k == 3 {
            q
        } else {
            0
        }),
        c4 == (if k == 4 {
            q
        } else {
            0
        }),
        c5 == (if k == 5 {
            q
        } else {
            0
        }),
        c6 == (if k == 6 {
            q
        } else {
            0
        }),
        c7 == (if k == 7 {
            q
        } else {
            0
        }),
    ensures
        c0 | c1 | c2 | c3 | c4 | c5 | c6 | c7 == q,
{
}


/// Every entry of the table is a block value.
pub open spec fn table_wf(t: Seq<u64>) -> bool {
    t.len() == 8 && forall|b: int| 0 <= b < 8 ==> #[trigger] t[b] < 8
}

/// `ti` undoes `t` on block values.
pub open spec fn tables_inverse(t: Seq<u64>, ti: Seq<u64>) -> bool {
    &&& table_wf(t)
    &&& table_wf(ti)
    &&& forall|b: int| 0 <= b < 8 ==> #[trigger] ti[t[b] as int] == b
}

/// Substituting by a table and then by its inverse restores the word.
pub proof fn lemma_subst_inverse(v: u64, t: Seq<u64>, ti: Seq<u64>)
    requires
        tables_inverse(t, ti),
        v >> 63 == 0,
    ensures
        subst3(subst3(v, t), ti) == v,
{
    let w = subst3(v, t);
    let w2 = subst3(w, ti);
    lemma_subst3_blocks(v, t);
    lemma_subst3_blocks(w, ti);
    assert forall|j: u64| j < 21 implies #[trigger] block3(w2, j) == block3(v, j) by {
        let b = block3(v, j);
        lemma_block3_lt8(v, j);
        let z = t[b as int];
        assert(z < 8);
        assert(z & 7 == z) by (bit_vector)
            requires
                z < 8,
        ;
        assert(block3(w, j) == z);
        let z2 = ti[z as int];
        assert(z2 & 7 == z2) by (bit_vector)
            requires
                z2 < 8,
        ;
        assert(block3(w2, j) == z2);
        assert(z2 == b);
    }
    lemma_eq_by_blocks(w2, v);
}

/// A block of a fitting value that lies wholly outside the row is clear.
pub proof fn lemma_fits_block_zero(v: u64, s: u64, m: u64)
    by (bit_vector)
    requires
        fits(v, s),
        s <= 63,
        m < 21,
        s <= 3 * m,
    ensures
        block3(v, m) == 0,
{
}

/// Substitution by a table that keeps the empty block empty keeps the
/// value inside its row.
pub proof fn lemma_subst_upto_fits(v: u64, t: Seq<u64>, s: u64, n: int)
    requires
        0 <= n <= 21,
        s % 3 == 0,
        s <= 63,
        fits(v, s),
        t[0] & 7 == 0,
    ensures
        subst_upto(v, t, n) & (ALL_ONES << s) == 0,
    decreases n,
{
    if n == 0 {
        assert(0u64 & (ALL_ONES << s) == 0) by (bit_vector)
            requires
                s <= 63,
        ;
    } else {
        lemma_subst_upto_fits(v, t, s, n - 1);
        let a = subst_upto(v, t, n - 1);
        let m: u64 = (n - 1) as u64;
        let q: u64 = t[block3(v, m) as int] & 7;
        assert(q < 8) by {
            let z = t[block3(v, m) as int];
            assert(z & 7 < 8) by (bit_vector);
        }
        if 3 * m >= s {
            lemma_fits_block_zero(v, s, m);
            assert(q == t[0] & 7);
            assert(q == 0);
            assert((a | (0u64 << ((3 * m) as u64))) & (ALL_ONES << s) == 0) by (bit_vector)
                requires
                    a & (ALL_ONES << s) == 0,
                    s <= 63,
                    m < 21,
            ;
        } else {
            assert(3 * m + 3 <= s);
            assert((a | (q << ((3 * m) as u64))) & (ALL_ONES << s) == 0) by (bit_vector)
                requires
                    a & (ALL_ONES << s) == 0,
                    q < 8,
                    m < 21,
                    3 * m + 3 <= s,
                    s <= 63,
            ;
        }
    }
}

/// Substitution by a table that keeps the empty block empty keeps a
/// fitting value fitting.
pub proof fn lemma_subst3_fits(v: u64, t: Seq<u64>, s: u64)
    requires
        s % 3 == 0,
        3 <= s <= 63,
        fits(v, s),
        s == 63 || t[0] & 7 == 0,
    ensures
        fits(subst3(v, t), s),
{
    if s == 63 {
        lemma_subst3_blocks(v, t);
        crate::bits::lemma_fits_shr(subst3(v, t), 63);
    } else {
        lemma_subst_upto_fits(v, t, s, 21);
    }
}

/// One full generation of the inverse rule with its phases run in reverse
/// order: the undoing counterpart of [`generation`].
pub open spec fn generation_rev(v: u64, s: u64, ti: Seq<u64>) -> u64 {
    phase0(phase1(phase2(v, s, ti), s, ti), ti)
}

/// Law: the full generation is reversible.  Running one generation of a
/// rule and then one generation of its inverse rule, with the phases in
/// reverse order, restores every field of the row — for the full-word row,
/// or under any rule that keeps the empty block empty.
pub proof fn lemma_generation_reversible(v: u64, s: u64, t: Seq<u64>, ti: Seq<u64>)
    requires
        s % 3 == 0,
        3 <= s <= 63,
        fits(v, s),
        tables_inverse(t, ti),
        s == 63 || t[0] & 7 == 0,
    ensures
        generation_rev(generation(v, s, t), s, ti) == v,
{
    let a1 = subst3(v, t);
    let a2 = rot_right(a1, s, 1);
    let a3 = subst3(a2, t);
    let a4 = rot_right(a3, s, 1);
    let a5 = subst3(a4, t);
    let a6 = rot_left(a5, s, 1);
    let a7 = rot_left(a6, s, 1);
    assert(generation(v, s, t) == a7);
    lemma_subst3_fits(v, t, s);
    crate::bits::lemma_rot_fits(a1, s, 1);
    lemma_subst3_fits(a2, t, s);
    crate::bits::lemma_rot_fits(a3, s, 1);
    lemma_subst3_fits(a4, t, s);
    crate::bits::lemma_rot_fits(a5, s, 1);
    crate::bits::lemma_rot_fits(a6, s, 1);
    crate::bits::lemma_rot_round_trip(a6, s, 1);
    crate::bits::lemma_rot_round_trip(a5, s, 1);
    crate::bits::lemma_rot_round_trip(a3, s, 1);
    crate::bits::lemma_rot_round_trip(a1, s, 1);
    crate::bits::lemma_fits_shr(v, s);
    crate::bits::lemma_shr_zero_mono(v, s, 63);
    crate::bits::lemma_fits_shr(a2, s);
    crate::bits::lemma_shr_zero_mono(a2, s, 63);
    crate::bits::lemma_fits_shr(a4, s);
    crate::bits::lemma_shr_zero_mono(a4, s, 63);
    lemma_subst_inverse(a4, t, ti);
    lemma_subst_inverse(a2, t, ti);
    lemma_subst_inverse(v, t, ti);
    assert(rot_right(rot_right(a7, s, 1), s, 1) == a5);
    assert(phase2(a7, s, ti) == rot_left(rot_left(subst3(a5, ti), s, 1), s, 1));
    assert(subst3(a5, ti) == a4);
    assert(rot_left(a4, s, 1) == a3);
    let p2out = phase2(a7, s, ti);
    assert(p2out == rot_left(a3, s, 1));
    assert(rot_right(p2out, s, 1) == a3);
    assert(phase1(p2out, s, ti) == rot_left(subst3(a3, ti), s, 1));
    assert(subst3(a3, ti) == a2);
    assert(rot_left(a2, s, 1) == a1);
    assert(phase0(a1, ti) == subst3(a1, ti));
    assert(subst3(a1, ti) == v);
}

} // verus!
