//! The classification algorithms built on the engine: period and offset
//! detection, the canonical minimum over a period, and the locator for
//! where a pattern starts in its circular window.

use vstd::prelude::*;

use std::collections::HashMap;

use crate::bits::{
    fits, lemma_rot_zero, rot_left, rot_left_blocks, rot_right_blocks, rot_signed, ALL_ONES, PAT7,
};
use crate::field::{min_rot, occ1, occ3, occupied_size, occupied_size3, Field};
use crate::rule::{generation, generation_n, phase0, phase1, phase2, Rule};

verus! {

/// The first generation count in `[1, 60)` at which the stepped field,
/// rotated by at most three blocks either way, equals the start field —
/// scanning offsets from zero up, left rotation before right.
pub open spec fn period_scan_off(v0: u64, s: u64, xp: u64, p: int, off: int) -> Option<(u64, i32)>
    decreases 4 - off,
{
    if off >= 4 {
        None
    } else if rot_left_blocks(xp, s, off as u64) == v0 {
        Some((p as u64, (-off) as i32))
    } else if rot_right_blocks(xp, s, off as u64) == v0 {
        Some((p as u64, off as i32))
    } else {
        period_scan_off(v0, s, xp, p, off + 1)
    }
}

/// Scans candidate periods from `p` up to the search bound.
pub open spec fn period_scan(v0: u64, s: u64, t: Seq<u64>, p: int) -> Option<(u64, i32)>
    decreases 60 - p,
{
    if p >= 60 {
        None
    } else {
        match period_scan_off(v0, s, generation_n(v0, s, t, p), p, 0) {
            Some(r) => Some(r),
            None => period_scan(v0, s, t, p + 1),
        }
    }
}

/// The period and offset that the bounded search finds for a start field,
/// or nothing within the bounds.
pub open spec fn period_fn(v0: u64, s: u64, t: Seq<u64>) -> Option<(u64, i32)> {
    period_scan(v0, s, t, 1)
}

/// After `p` generations, no rotation by fewer than four blocks in either
/// direction restores the start field.
pub open spec fn no_period_match(v0: u64, s: u64, t: Seq<u64>, p: int) -> bool {
    forall|off: u64|
        off < 4 ==> #[trigger] rot_left_blocks(generation_n(v0, s, t, p), s, off) != v0
            && rot_right_blocks(generation_n(v0, s, t, p), s, off) != v0
}

/// What a result of the period search means: `None` exactly when no period
/// below the bound matches; a hit names the least matching period, with
/// the first matching offset in scan order (left before right, negative
/// for left).
pub open spec fn period_post(v0: u64, s: u64, t: Seq<u64>, r: Option<(u64, i32)>) -> bool {
    match r {
        None => forall|p: int| 1 <= p < 60 ==> no_period_match(v0, s, t, p),
        Some((p, o)) => {
            let xp = generation_n(v0, s, t, p as int);
            &&& 1 <= p < 60
            &&& forall|q: int| 1 <= q < p ==> no_period_match(v0, s, t, q)
            &&& -3 <= o <= 3
            &&& (o <= 0 ==> rot_left_blocks(xp, s, (-o) as u64) == v0)
            &&& (o > 0 ==> rot_right_blocks(xp, s, o as u64) == v0 && rot_left_blocks(
                xp,
                s,
                o as u64,
            ) != v0)
            &&& forall|off: u64|
                off < (if o < 0 {
                    (-o) as u64
                } else {
                    o as u64
                }) ==> #[trigger] rot_left_blocks(xp, s, off) != v0 && rot_right_blocks(xp, s, off)
                    != v0
        },
    }
}

/// What the offset scan's result means: a hit reports the first matching
/// offset at this period with every earlier offset failing, and a miss
/// means every offset from `off` up fails.
#[verifier::spinoff_prover]
#[verifier::rlimit(30)]
pub proof fn lemma_scan_off_post(v0: u64, s: u64, xp: u64, p: int, off: int)
    requires
        0 <= off <= 4,
        0 <= p < 60,
        1 <= s <= 63,
        fits(xp, s),
    ensures
        match period_scan_off(v0, s, xp, p, off) {
            None => forall|o2: u64|
                off <= o2 < 4 ==> #[trigger] rot_left_blocks(xp, s, o2) != v0 && rot_right_blocks(
                    xp,
                    s,
                    o2,
                ) != v0,
            Some((pp, o)) => {
                &&& pp == p
                &&& -3 <= o <= 3
                &&& (o <= 0 ==> rot_left_blocks(xp, s, (-o) as u64) == v0 && off <= -o)
                &&& (o > 0 ==> rot_right_blocks(xp, s, o as u64) == v0 && rot_left_blocks(
                    xp,
                    s,
                    o as u64,
                ) != v0 && off <= o)
                &&& forall|o2: u64|
                    off <= o2 < (if o < 0 {
                        (-o) as u64
                    } else {
                        o as u64
                    }) ==> #[trigger] rot_left_blocks(xp, s, o2) != v0 && rot_right_blocks(
                        xp,
                        s,
                        o2,
                    ) != v0
            },
        },
    decreases 4 - off,
{
    if off >= 4 {
    } else if rot_left_blocks(xp, s, off as u64) == v0 {
    } else if rot_right_blocks(xp, s, off as u64) == v0 {
        if off == 0 {
            lemma_rot_zero(xp, s);
        }
    } else {
        lemma_scan_off_post(v0, s, xp, p, off + 1);
        match period_scan_off(v0, s, xp, p, off + 1) {
            None => {
                assert forall|o2: u64|
                    off <= o2 < 4 implies #[trigger] rot_left_blocks(xp, s, o2) != v0
                    && rot_right_blocks(xp, s, o2) != v0 by {
                    let l2 = rot_left_blocks(xp, s, o2);
                    let r2 = rot_right_blocks(xp, s, o2);
                    if o2 == off {
                        assert(o2 as int == off);
                        assert(l2 == rot_left_blocks(xp, s, off as u64));
                        assert(r2 == rot_right_blocks(xp, s, off as u64));
                    } else {
                        assert(off + 1 <= o2 < 4);
                    }
                }
            },
            Some((pp, o)) => {
                let bound: u64 = if o < 0 {
                    (-o) as u64
                } else {
                    o as u64
                };
                assert forall|o2: u64|
                    off <= o2 < bound implies #[trigger] rot_left_blocks(xp, s, o2) != v0
                    && rot_right_blocks(xp, s, o2) != v0 by {
                    let l2 = rot_left_blocks(xp, s, o2);
                    let r2 = rot_right_blocks(xp, s, o2);
                    if o2 == off {
                        assert(o2 as int == off);
                        assert(l2 == rot_left_blocks(xp, s, off as u64));
                        assert(r2 == rot_right_blocks(xp, s, off as u64));
                    } else {
                        assert(off + 1 <= o2 < bound);
                    }
                }
            },
        }
    }
}

/// Finds the period and offset of a glider, an oscillator or a still
/// pattern: steps the field one generation at a time and looks for a
/// rotation of the start field, up to the search bounds.
pub fn period(x: Field, rule: &Rule) -> (r: Option<(u64, i32)>)
    requires
        x.valid(),
        rule.wf(),
    ensures
        r == period_fn(x.val, x.size as u64, rule.tbl()),
        period_post(x.val, x.size as u64, rule.tbl(), r),
{
    let ghost v0 = x.val;
    let ghost s = x.size as u64;
    let ghost t = rule.tbl();
    let mut cur = x;
    let mut p: u64 = 1;
    while p < 60
        invariant
            cur.wf(),
            x.valid(),
            rule.wf(),
            v0 == x.val,
            s == x.size as u64,
            t == rule.tbl(),
            cur.size == x.size,
            1 <= p <= 60,
            cur.val == generation_n(v0, s, t, p as int - 1),
            period_fn(v0, s, t) == period_scan(v0, s, t, p as int),
            forall|q: int| 1 <= q < p ==> no_period_match(v0, s, t, q),
        decreases 60 - p,
    {
        rule.steps(&mut cur);
        let ghost xp = cur.val;
        proof {
            assert(xp == generation_n(v0, s, t, p as int));
        }
        let mut off: u32 = 0;
        while off < 4
            invariant
                cur.wf(),
                x.valid(),
                rule.wf(),
                v0 == x.val,
                s == x.size as u64,
                t == rule.tbl(),
                cur.size == x.size,
                1 <= p < 60,
                off <= 4,
                xp == cur.val,
                fits(xp, s),
                xp == generation_n(v0, s, t, p as int),
                period_fn(v0, s, t) == period_scan(v0, s, t, p as int),
                forall|q: int| 1 <= q < p ==> no_period_match(v0, s, t, q),
                period_scan_off(v0, s, xp, p as int, 0) == period_scan_off(
                    v0,
                    s,
                    xp,
                    p as int,
                    off as int,
                ),
            decreases 4 - off,
        {
            if cur.rotate_left(off * 3) == x {
                proof {
                    assert(rot_left_blocks(xp, s, off as u64) == v0);
                    assert(period_scan_off(v0, s, xp, p as int, off as int) == Some(
                        (p, ((-(off as int)) as i32)),
                    ));
                    assert(period_scan(v0, s, t, p as int) == Some((p, ((-(off as int)) as i32))));
                    lemma_scan_off_post(v0, s, xp, p as int, 0);
                }
                return Some((p, -(off as i32)));
            }
            if cur.rotate_right(off * 3) == x {
                proof {
                    assert(rot_right_blocks(xp, s, off as u64) == v0);
                    if off == 0 {
                        lemma_rot_zero(xp, s);
                    }
                    assert(period_scan_off(v0, s, xp, p as int, off as int) == Some(
                        (p, off as i32),
                    ));
                    assert(period_scan(v0, s, t, p as int) == Some((p, off as i32)));
                    lemma_scan_off_post(v0, s, xp, p as int, 0);
                }
                return Some((p, off as i32));
            }
            off = off + 1;
        }
        proof {
            assert(period_scan_off(v0, s, xp, p as int, 4) == None::<(u64, i32)>);
            lemma_scan_off_post(v0, s, xp, p as int, 0);
            assert(no_period_match(v0, s, t, p as int));
        }
        p = p + 1;
    }
    None
}

/// Whether stepping the field `steps` generations and rotating by `offset`
/// blocks (right when positive) restores it.
pub fn is_same_after(x: Field, rule: &Rule, steps: u64, offset: i32) -> (r: bool)
    requires
        x.valid(),
        rule.wf(),
        -536870912 <= offset <= 536870912,
    ensures
        r == (rot_signed(
            generation_n(x.val, x.size as u64, rule.tbl(), steps as int),
            x.size as u64,
            3 * (offset as int),
        ) == x.val),
{
    let y = x;
    let mut x = x;
    rule.steps_count(&mut x, steps);
    x.rotate(offset * 3) == y
}

/// The field after `n` rounds of stepping one generation and taking the
/// canonical rotation representative.
pub open spec fn m2_x(v: u64, s: u64, t: Seq<u64>, n: int) -> u64
    decreases n,
{
    if n <= 0 {
        v
    } else {
        min_rot(generation(m2_x(v, s, t, n - 1), s, t), s)
    }
}

/// The least value seen along `n` rounds of stepping and canonicalizing,
/// starting from the raw start value.
pub open spec fn m2_min(v: u64, s: u64, t: Seq<u64>, n: int) -> u64
    decreases n,
{
    if n <= 0 {
        v
    } else {
        let xv = m2_x(v, s, t, n);
        let m = m2_min(v, s, t, n - 1);
        if xv < m {
            xv
        } else {
            m
        }
    }
}

/// The canonical signature of a periodic pattern: the least canonical
/// value seen while simulating `period` generations.
pub fn minimize2(x: Field, rule: &Rule, period: u64) -> (r: Field)
    requires
        x.valid(),
        rule.wf(),
    ensures
        r.size == x.size,
        r.val == m2_min(x.val, x.size as u64, rule.tbl(), period as int),
        fits(r.val, r.size as u64),
{
    let ghost v0 = x.val;
    let ghost s = x.size as u64;
    let ghost t = rule.tbl();
    let mut cur = x;
    let mut my_min = x.val;
    let mut i: u64 = 0;
    while i < period
        invariant
            x.valid(),
            rule.wf(),
            v0 == x.val,
            s == x.size as u64,
            t == rule.tbl(),
            cur.size == x.size,
            i <= period,
            cur.val == m2_x(v0, s, t, i as int),
            cur.valid(),
            my_min == m2_min(v0, s, t, i as int),
            fits(my_min, s),
        decreases period - i,
    {
        rule.steps(&mut cur);
        cur = cur.minimize();
        if cur.val < my_min {
            my_min = cur.val;
        }
        i = i + 1;
    }
    Field::new(my_min, cur.size)
}

/// `x / 3` rounded up.
pub fn size_round3(x: u32) -> (r: u32)
    ensures
        r == x / 3 + (if x % 3 != 0 {
            1u32
        } else {
            0u32
        }),
{
    x / 3 + (if x % 3 != 0 {
        1
    } else {
        0
    })
}

/// `x / 2` rounded up.
pub fn size_round2(x: u32) -> (r: u32)
    ensures
        r == x / 2 + (if x % 2 != 0 {
            1u32
        } else {
            0u32
        }),
{
    x / 2 + (if x % 2 != 0 {
        1
    } else {
        0
    })
}

/// How many block offsets either way the pattern-start scan tries: half
/// the number of blocks, rounded up.
pub open spec fn half_blocks(s: u64) -> int {
    let nb = s / 3;
    (nb / 2 + if nb % 2 != 0 {
        1u64
    } else {
        0u64
    }) as int
}

/// The least value reached by rotating `v` up to `k` blocks either way,
/// scanned outward with the left candidate tried before the right one.
pub open spec fn fps_val(v: u64, s: u64, k: int) -> u64
    decreases k,
{
    if k <= 0 {
        v
    } else {
        let m = fps_val(v, s, k - 1);
        let l = rot_left_blocks(v, s, k as u64);
        let m1 = if l < m {
            l
        } else {
            m
        };
        let r = rot_right_blocks(v, s, k as u64);
        if r < m1 {
            r
        } else {
            m1
        }
    }
}

/// The signed block offset at which the scan of [`fps_val`] found its
/// least value: negative when a left rotation won.
pub open spec fn fps_off(v: u64, s: u64, k: int) -> int
    decreases k,
{
    if k <= 0 {
        0
    } else {
        let m = fps_val(v, s, k - 1);
        let o = fps_off(v, s, k - 1);
        let l = rot_left_blocks(v, s, k as u64);
        let m1 = if l < m {
            l
        } else {
            m
        };
        let o1 = if l < m {
            -k
        } else {
            o
        };
        let r = rot_right_blocks(v, s, k as u64);
        if r < m1 {
            k
        } else {
            o1
        }
    }
}

/// Finds where the circular pattern starts: the signed block rotation,
/// within half the window either way, that makes the value least — taking
/// the longest run of empty cells as the pattern's far edge.
pub fn find_pattern_start(x: Field) -> (r: i32)
    requires
        x.valid(),
    ensures
        r as int == fps_off(x.val, x.size as u64, half_blocks(x.size as u64)),
        -half_blocks(x.size as u64) <= r as int <= half_blocks(x.size as u64),
{
    let ghost v0 = x.val;
    let ghost s = x.size as u64;
    let mut my_min = x.val;
    let mut min_offset: i32 = 0;
    let k_max = size_round2(x.size / 3);
    proof {
        assert(k_max as int == half_blocks(s));
    }
    let mut i: u32 = 1;
    while i <= k_max
        invariant
            x.valid(),
            v0 == x.val,
            s == x.size as u64,
            k_max as int == half_blocks(s),
            k_max <= 11,
            1 <= i <= k_max + 1,
            my_min == fps_val(v0, s, i as int - 1),
            min_offset as int == fps_off(v0, s, i as int - 1),
            -(i as int - 1) <= min_offset as int <= i as int - 1,
        decreases k_max + 1 - i,
    {
        let new = x.rotate_left(i * 3);
        if new.val < my_min {
            my_min = new.val;
            min_offset = -(i as i32);
        }
        let new2 = x.rotate_right(i * 3);
        if new2.val < my_min {
            my_min = new2.val;
            min_offset = i as i32;
        }
        i = i + 1;
    }
    min_offset
}


/// The memo table of known elementary components: a canonical value maps
/// to its period, the canonical value one generation later, and the drift
/// of the pattern start over that generation.
pub open spec fn used_inv(m: Map<u64, (u64, u64, i32)>) -> bool {
    forall|k: u64|
        #[trigger] m.contains_key(k) ==> 1 <= m[k].0 && m.contains_key(m[k].1) && m[k].1 >> 63 == 0
            && -64 <= m[k].2 <= 64
}

/// Like [`used_inv`], but one outstanding link may still point at the key
/// that the table is about to receive.
pub open spec fn used_almost_inv(m: Map<u64, (u64, u64, i32)>, pending: u64) -> bool {
    forall|k: u64|
        #[trigger] m.contains_key(k) ==> 1 <= m[k].0 && (m.contains_key(m[k].1) || m[k].1
            == pending) && m[k].1 >> 63 == 0 && -64 <= m[k].2 <= 64
}

/// The entries that registering a component adds: starting from `x`, one
/// entry per generation for `n` generations, keyed by the canonical value
/// and carrying the period, the next canonical value and the drift of the
/// pattern start.
pub open spec fn used_extend(
    m: Map<u64, (u64, u64, i32)>,
    x: u64,
    s: u64,
    t: Seq<u64>,
    p: u64,
    n: int,
) -> Map<u64, (u64, u64, i32)>
    decreases n,
{
    if n <= 0 {
        m
    } else {
        let x1 = generation(x, s, t);
        let drift = fps_off(x1, s, half_blocks(s)) - fps_off(x, s, half_blocks(s));
        used_extend(
            m.insert(min_rot(x, s), (p, min_rot(x1, s), drift as i32)),
            x1,
            s,
            t,
            p,
            n - 1,
        )
    }
}

/// Registers a confirmed elementary component: replays its period and
/// records, for each generation, the canonical value, the canonical value
/// one generation later, and the drift of the pattern start.
pub fn add_used(x: Field, period: u64, rule: &Rule, used: &mut HashMap<u64, (u64, u64, i32)>)
    requires
        x.valid(),
        rule.wf(),
        1 <= period < 0xFFFF_FFFF_FFFF_FFFF,
        used_inv(old(used)@),
        min_rot(
            generation_n(x.val, x.size as u64, rule.tbl(), period as int + 1),
            x.size as u64,
        ) == min_rot(generation_n(x.val, x.size as u64, rule.tbl(), 1), x.size as u64),
    ensures
        final (used)@ == used_extend(
            old(used)@,
            x.val,
            x.size as u64,
            rule.tbl(),
            period,
            period as int + 1,
        ),
        used_inv(final (used)@),
{
    broadcast use vstd::std_specs::hash::group_hash_axioms;

    let ghost s = x.size as u64;
    let ghost t = rule.tbl();
    let ghost m0 = used@;
    let mut cur = x;
    let mut i: u64 = 0;
    while i <= period
        invariant
            x.valid(),
            rule.wf(),
            s == x.size as u64,
            t == rule.tbl(),
            1 <= period < 0xFFFF_FFFF_FFFF_FFFF,
            i <= period + 1,
            cur.size == x.size,
            cur.valid(),
            cur.val == generation_n(x.val, s, t, i as int),
            used_extend(m0, x.val, s, t, period, period as int + 1) == used_extend(
                used@,
                cur.val,
                s,
                t,
                period,
                period as int + 1 - i,
            ),
            used_almost_inv(used@, min_rot(cur.val, s)),
            i == 0 ==> used_inv(used@),
            i >= 2 ==> used@.contains_key(min_rot(generation_n(x.val, s, t, 1), s)),
            i >= 1 ==> used@.contains_key(min_rot(generation_n(x.val, s, t, i as int - 1), s)),
            min_rot(generation_n(x.val, s, t, period as int + 1), s) == min_rot(
                generation_n(x.val, s, t, 1),
                s,
            ),
        decreases period + 1 - i,
    {
        let start_offset = find_pattern_start(cur);
        let prev = cur;
        rule.steps(&mut cur);
        let drift = find_pattern_start(cur) - start_offset;
        let key = prev.minimize().val;
        let nxt = cur.minimize().val;
        proof {
            crate::bits::lemma_fits_shr(nxt, s);
            crate::bits::lemma_shr_zero_mono(nxt, s, 63);
        }
        let ghost before = used@;
        used.insert(key, (period, nxt, drift));
        proof {
            assert(key == min_rot(prev.val, s));
            assert(nxt == min_rot(cur.val, s));
            assert forall|kk: u64| #[trigger] used@.contains_key(kk) implies 1 <= used@[kk].0 && (
            used@.contains_key(used@[kk].1) || used@[kk].1 == min_rot(cur.val, s))
                && used@[kk].1 >> 63 == 0 && -64 <= used@[kk].2 <= 64 by {
                if kk == key {
                } else {
                    assert(before.contains_key(kk));
                    assert(before[kk] == used@[kk]);
                    if before.contains_key(before[kk].1) {
                        assert(used@.contains_key(used@[kk].1));
                    } else {
                        assert(before[kk].1 == min_rot(prev.val, s));
                        assert(used@.contains_key(key));
                    }
                }
            }
        }
        i = i + 1;
    }
    proof {
        assert(used_extend(used@, cur.val, s, t, period, 0) == used@);
        assert(used@.contains_key(min_rot(generation_n(x.val, s, t, 1), s)));
    }
}

/// One step of checking a truncated window against a registered
/// component's expected trajectory: the candidate advances a generation,
/// the window tracked at the accumulated drift must show the expected
/// canonical value, and the expectation advances through the table.
pub open spec fn replay(
    m: Map<u64, (u64, u64, i32)>,
    s: u64,
    t: Seq<u64>,
    x: u64,
    nxt: u64,
    off: int,
    n: int,
) -> bool
    decreases n,
{
    if n <= 0 {
        true
    } else {
        let x1 = generation(x, s, t);
        let pat = PAT7 >> ((63 - occ1(nxt)) as u64);
        let sub = rot_signed(x1, s, 3 * off) & pat;
        if sub != nxt {
            false
        } else {
            replay(m, s, t, x1, m[nxt].1, off + m[nxt].2, n - 1)
        }
    }
}

/// The candidate's low `i` bits name a registered component whose period
/// divides the candidate's, and the component's trajectory is tracked for
/// the candidate's whole period.
pub open spec fn used_match_at(
    m: Map<u64, (u64, u64, i32)>,
    s: u64,
    t: Seq<u64>,
    v: u64,
    p: u64,
    i: int,
) -> bool {
    let key = v & (PAT7 >> ((63 - i) as u64));
    &&& m.contains_key(key)
    &&& p % m[key].0 == 0
    &&& replay(m, s, t, v, m[key].1, m[key].2 as int, p as int)
}

/// Some left-anchored truncation of the candidate matches a registered
/// component through the candidate's whole period.
pub open spec fn used_composite(
    m: Map<u64, (u64, u64, i32)>,
    s: u64,
    t: Seq<u64>,
    v: u64,
    p: u64,
) -> bool {
    exists|i: int| 1 <= i <= occ1(v) && #[trigger] used_match_at(m, s, t, v, p, i)
}

/// Decides whether a minimized candidate is a composite of components
/// already in the table: tries every left-anchored truncation of its
/// pattern and replays the candidate's period against the stored
/// trajectory.
pub fn check_used(
    x: Field,
    period: u64,
    rule: &Rule,
    used: &HashMap<u64, (u64, u64, i32)>,
) -> (r: bool)
    requires
        x.valid(),
        rule.wf(),
        used_inv(used@),
        period <= 10_000_000,
    ensures
        r == used_composite(used@, x.size as u64, rule.tbl(), x.val, period),
{
    broadcast use vstd::std_specs::hash::group_hash_axioms;

    let ghost s = x.size as u64;
    let ghost t = rule.tbl();
    let ghost m = used@;
    let size_occ = occupied_size(x.val);
    proof {
        crate::field::lemma_occ1_props(x.val);
        crate::field::lemma_occ1_fits(x.val, x.size as u64);
    }
    let mut i: u32 = 1;
    while i <= size_occ
        invariant
            x.valid(),
            rule.wf(),
            s == x.size as u64,
            t == rule.tbl(),
            m == used@,
            used_inv(m),
            period <= 10_000_000,
            size_occ as int == occ1(x.val),
            0 <= occ1(x.val) <= 63,
            1 <= i <= size_occ + 1,
            forall|i2: int| 1 <= i2 < i ==> !#[trigger] used_match_at(m, s, t, x.val, period, i2),
        decreases size_occ + 1 - i,
    {
        let pat = PAT7 >> (63 - i);
        let possible_glider = x.val & pat;
        let looked = used.get(&possible_glider);
        if let Some(entry) = looked {
            let (period_local, next0, offset_local0) = *entry;
            if period % period_local == 0 {
                let ghost nxt0 = next0;
                let ghost off0 = offset_local0 as int;
                let mut curf = x;
                let mut nxt = next0;
                let mut off: i32 = offset_local0;
                let mut k: u64 = 0;
                let mut failed = false;
                while k < period && !failed
                    invariant
                        x.valid(),
                        rule.wf(),
                        s == x.size as u64,
                        t == rule.tbl(),
                        m == used@,
                        used_inv(m),
                        period <= 10_000_000,
                        k <= period,
                        curf.size == x.size,
                        curf.valid(),
                        m.contains_key(nxt),
                        nxt >> 63 == 0,
                        -64 * (k as int + 1) <= off as int <= 64 * (k as int + 1),
                        replay(m, s, t, x.val, nxt0, off0, period as int) == (if failed {
                            false
                        } else {
                            replay(m, s, t, curf.val, nxt, off as int, period as int - k)
                        }),
                    decreases period - k + (if failed {
                        0int
                    } else {
                        1int
                    }),
                {
                    rule.steps(&mut curf);
                    proof {
                        crate::bits::lemma_fits_shr(nxt, 63);
                        crate::field::lemma_occ1_fits(nxt, 63);
                        crate::field::lemma_occ1_props(nxt);
                    }
                    let patn = PAT7 >> (63 - occupied_size(nxt));
                    let now_sub = curf.rotate(off * 3).val & patn;
                    if now_sub != nxt {
                        failed = true;
                    } else {
                        let looked2 = used.get(&nxt);
                        if let Some(entry2) = looked2 {
                            let (_pl2, b, c) = *entry2;
                            nxt = b;
                            off = off + c;
                        } else {
                            proof {
                                assert(false);
                            }
                        }
                        k = k + 1;
                    }
                }
                if !failed {
                    proof {
                        assert(replay(m, s, t, curf.val, nxt, off as int, 0));
                        assert(used_match_at(m, s, t, x.val, period, i as int));
                    }
                    return true;
                }
                proof {
                    assert(!used_match_at(m, s, t, x.val, period, i as int));
                }
            } else {
                proof {
                    assert(!used_match_at(m, s, t, x.val, period, i as int));
                }
            }
        } else {
            proof {
                assert(!m.contains_key(x.val & (PAT7 >> ((63 - i as int) as u64))));
                assert(!used_match_at(m, s, t, x.val, period, i as int));
            }
        }
        i = i + 1;
    }
    false
}


/// Stepping `p` generations and rotating by `o` blocks (right when
/// positive) restores the value.
pub open spec fn same_after(v: u64, s: u64, t: Seq<u64>, p: u64, o: i32) -> bool {
    rot_signed(generation_n(v, s, t, p as int), s, 3 * (o as int)) == v
}

/// What the elementary-object test finds for a raw pattern: nothing when
/// the pattern is too wide, shows no period in the baseline window, or
/// changes its period or offset under any of the larger margins; otherwise
/// the canonical signature over the confirmed period with the period and
/// offset.
pub open spec fn glider_fn(x: u64, t: Seq<u64>) -> Option<(u64, u64, i32)> {
    let nbq = occ3(x) / 3;
    if (nbq + 9) * 3 > 63 {
        None
    } else {
        match period_fn(x, ((nbq + 3) * 3) as u64, t) {
            None => None,
            Some((p, o)) => {
                if same_after(x, ((nbq + 4) * 3) as u64, t, p, o) && same_after(
                    x,
                    ((nbq + 5) * 3) as u64,
                    t,
                    p,
                    o,
                ) && same_after(x, ((nbq + 6) * 3) as u64, t, p, o) && same_after(
                    x,
                    ((nbq + 9) * 3) as u64,
                    t,
                    p,
                    o,
                ) {
                    Some((m2_min(x, ((nbq + 5) * 3) as u64, t, p as int), p, o))
                } else {
                    None
                }
            },
        }
    }
}

/// Decides whether a raw pattern is a genuine self-contained glider or
/// oscillator: detects a period in a window with a baseline margin, then
/// demands the identical period and offset under several larger margins,
/// and on success returns the canonical signature over the period.
pub fn is_this_glider(x: u64, rule: &Rule) -> (r: Option<(Field, u64, i32)>)
    requires
        rule.wf(),
    ensures
        match r {
            None => glider_fn(x, rule.tbl()) is None,
            Some((f, p, o)) => glider_fn(x, rule.tbl()) == Some((f.val, p, o)) && f.size as int == (
            occ3(x) / 3 + 5) * 3 && f.valid(),
        },
{
    let ghost t = rule.tbl();
    let size = size_round3(occupied_size3(x));
    proof {
        crate::field::lemma_occ3_props(x);
        assert(size as int == occ3(x) / 3);
    }
    if (size + 9) * 3 > 63 {
        return None;
    }
    proof {
        crate::bits::lemma_shr_zero_mono(x, (occ3(x)) as u64, (3 * (size + 3)) as u64);
        crate::bits::lemma_fits_shr(x, ((size + 3) * 3) as u64);
        crate::bits::lemma_shr_zero_mono(x, (occ3(x)) as u64, (3 * (size + 4)) as u64);
        crate::bits::lemma_fits_shr(x, ((size + 4) * 3) as u64);
        crate::bits::lemma_shr_zero_mono(x, (occ3(x)) as u64, (3 * (size + 5)) as u64);
        crate::bits::lemma_fits_shr(x, ((size + 5) * 3) as u64);
        crate::bits::lemma_shr_zero_mono(x, (occ3(x)) as u64, (3 * (size + 6)) as u64);
        crate::bits::lemma_fits_shr(x, ((size + 6) * 3) as u64);
        crate::bits::lemma_shr_zero_mono(x, (occ3(x)) as u64, (3 * (size + 9)) as u64);
        crate::bits::lemma_fits_shr(x, ((size + 9) * 3) as u64);
    }
    let po = period(Field::new(x, (size + 3) * 3), rule);
    match po {
        None => None,
        Some((p, o)) => {
            if !is_same_after(Field::new(x, (size + 4) * 3), rule, p, o) {
                return None;
            }
            if !is_same_after(Field::new(x, (size + 5) * 3), rule, p, o) {
                return None;
            }
            if !is_same_after(Field::new(x, (size + 6) * 3), rule, p, o) {
                return None;
            }
            if !is_same_after(Field::new(x, (size + 9) * 3), rule, p, o) {
                return None;
            }
            let m = minimize2(Field::new(x, (size + 5) * 3), rule, p);
            Some((m, p, o))
        },
    }
}

/// The mask covering the occupied span of a gun candidate.
pub open spec fn gun_mask(val: u64) -> u64 {
    ALL_ONES >> ((64 - occ3(val)) as u64)
}

/// The gun test succeeds at generation `c`: a fixed left window still
/// holds exactly the original value while something new lies beyond it,
/// the same holds another `c` generations later, and both remainders
/// classify as the same travelling elementary glider whose period is at
/// most `c`.
pub open spec fn gun_hit(val: u64, t: Seq<u64>, c: int) -> bool {
    let pat = gun_mask(val);
    let w = generation_n(val, 60, t, c);
    let w2 = generation_n(w, 60, t, c);
    &&& w & pat == val
    &&& w & !pat != 0
    &&& w2 & pat == val
    &&& w2 & !pat != 0
    &&& match (glider_fn(min_rot(w & !pat, 60), t), glider_fn(min_rot(w2 & !pat, 60), t)) {
        (Some((m1, p, o)), Some((m2, p2, o2))) => p == p2 && o == o2 && o != 0 && p as int <= c,
        _ => false,
    }
}

/// A gun hit at generation `c` whose emitted glider has canonical value
/// `gval`, period `p` and offset `o`.
pub open spec fn gun_found(val: u64, t: Seq<u64>, c: int, gval: u64, p: u64, o: i32) -> bool {
    &&& gun_hit(val, t, c)
    &&& glider_fn(min_rot(generation_n(val, 60, t, c) & !gun_mask(val), 60), t) == Some(
        (gval, p, o),
    )
}

/// What a result of the gun search means: a hit reports the first
/// generation at which the candidate re-emits its own window plus a
/// travelling elementary glider, twice in a row; nothing means the
/// candidate repeated itself or the bound ran out with no such generation.
pub open spec fn gun_post(val: u64, t: Seq<u64>, r: Option<(u64, u64, u64, i32)>) -> bool {
    match r {
        Some((c, gval, p, o)) => {
            &&& 1 <= c < 15
            &&& forall|c2: int|
                #![trigger gun_hit(val, t, c2)]
                #![trigger generation_n(val, 60, t, c2)]
                1 <= c2 < c ==> generation_n(val, 60, t, c2) != val && !gun_hit(val, t, c2)
            &&& generation_n(val, 60, t, c as int) != val
            &&& gun_found(val, t, c as int, gval, p, o)
        },
        None => exists|e: int|
            1 <= e <= 15 && (forall|c2: int|
                #![trigger gun_hit(val, t, c2)]
                #![trigger generation_n(val, 60, t, c2)]
                1 <= c2 < e ==> generation_n(val, 60, t, c2) != val && !gun_hit(val, t, c2)) && (e
                == 15 || #[trigger] generation_n(val, 60, t, e) == val),
    }
}

/// The no-hit prefix of the gun search extends by one generation that
/// neither repeats the start value nor hits.
pub proof fn lemma_gun_prefix_extend(val: u64, t: Seq<u64>, c: int)
    requires
        1 <= c,
        forall|c2: int|
            #![trigger gun_hit(val, t, c2)]
            #![trigger generation_n(val, 60, t, c2)]
            1 <= c2 < c ==> generation_n(val, 60, t, c2) != val && !gun_hit(val, t, c2),
        generation_n(val, 60, t, c) != val,
        !gun_hit(val, t, c),
    ensures
        forall|c2: int|
            #![trigger gun_hit(val, t, c2)]
            #![trigger generation_n(val, 60, t, c2)]
            1 <= c2 < c + 1 ==> generation_n(val, 60, t, c2) != val && !gun_hit(val, t, c2),
{
}

/// Decides whether a candidate is a glider gun: simulates forward up to
/// the bound, and at each generation where the candidate's own window has
/// recohered with something extra beyond it, classifies the remainder (and
/// the remainder another period later) as one and the same travelling
/// elementary glider.
pub fn is_this_glider_gun(val: u64, rule: &Rule) -> (r: Option<(u64, u64, u64, i32)>)
    requires
        rule.wf(),
        val != 0,
        fits(val, 60),
    ensures
        gun_post(val, rule.tbl(), r),
{
    let ghost t = rule.tbl();
    let size = occupied_size3(val);
    proof {
        crate::field::lemma_occ3_props(val);
        crate::field::lemma_occ3_fits(val, 60);
    }
    let pat = ALL_ONES >> (64 - size);
    let mut x = Field::new(val, 60);
    rule.steps(&mut x);
    proof {
        assert(generation_n(val, 60, t, 1) == generation(generation_n(val, 60, t, 0), 60, t));
        assert(generation_n(val, 60, t, 0) == val);
    }
    let mut count: u64 = 1;
    while x.val != val && count < 15
        invariant
            rule.wf(),
            t == rule.tbl(),
            val != 0,
            fits(val, 60),
            3 <= size <= 60,
            size as int == occ3(val),
            pat == gun_mask(val),
            x.size == 60,
            x.valid(),
            1 <= count <= 15,
            x.val == generation_n(val, 60, t, count as int),
            forall|c2: int|
                #![trigger gun_hit(val, t, c2)]
                #![trigger generation_n(val, 60, t, c2)]
                1 <= c2 < count ==> generation_n(val, 60, t, c2) != val && !gun_hit(val, t, c2),
        decreases 15 - count,
    {
        let ghost w = x.val;
        if (x.val & pat) == val && (x.val & !pat) != 0 {
            proof {
                crate::bits::lemma_fits_and(x.val, !pat, 60);
            }
            let x_without_gun = Field::new(x.val & !pat, x.size).minimize();
            let mut x0 = Field::new(x.val, 60);
            rule.steps_count(&mut x0, count);
            if (x0.val & pat) == val && (x0.val & !pat) != 0 {
                proof {
                    crate::bits::lemma_fits_and(x0.val, !pat, 60);
                }
                let x0_without_gun = Field::new(x0.val & !pat, x0.size).minimize();
                let g = is_this_glider(x_without_gun.val, rule);
                let g0 = is_this_glider(x0_without_gun.val, rule);
                match (g, g0) {
                    (Some((minf, p, o)), Some((_f0, p0, o0))) => {
                        if p == p0 && o == o0 && o != 0 && p <= count {
                            proof {
                                assert(gun_found(val, t, count as int, minf.val, p, o));
                            }
                            return Some((count, minf.val, p, o));
                        }
                        proof {
                            assert(!gun_hit(val, t, count as int));
                        }
                    },
                    _ => {
                        proof {
                            assert(!gun_hit(val, t, count as int));
                        }
                    },
                }
            } else {
                proof {
                    assert(!gun_hit(val, t, count as int));
                }
            }
        } else {
            proof {
                assert(!gun_hit(val, t, count as int));
            }
        }
        proof {
            assert(!gun_hit(val, t, count as int));
            assert(generation_n(val, 60, t, count as int) != val);
            lemma_gun_prefix_extend(val, t, count as int);
        }
        rule.steps(&mut x);
        count = count + 1;
    }
    proof {
        if x.val == val {
            assert(generation_n(val, 60, t, count as int) == val);
            assert(1 <= count as int <= 15);
        } else {
            assert(count == 15);
        }
    }
    None
}


/// The position of the first live cell at or above `i`, or `s` if none.
pub open spec fn first_set_from(v: u64, s: u64, i: int) -> int
    decreases s - i,
{
    if i < 0 || i >= s {
        s as int
    } else if (v >> (i as u64)) & 1 == 1 {
        i
    } else {
        first_set_from(v, s, i + 1)
    }
}

/// The position of the first dead cell at or above `i`, or `s` if none.
pub open spec fn first_clear_from(v: u64, s: u64, i: int) -> int
    decreases s - i,
{
    if i < 0 || i >= s {
        s as int
    } else if (v >> (i as u64)) & 1 == 0 {
        i
    } else {
        first_clear_from(v, s, i + 1)
    }
}

/// The first live cell from `i` lies no later than any live cell from `i`.
pub proof fn lemma_first_set_le(v: u64, s: u64, i: int, iw: int)
    requires
        0 <= i <= iw < s,
        (v >> (iw as u64)) & 1 == 1,
    ensures
        first_set_from(v, s, i) <= iw,
    decreases iw - i,
{
    if i < iw && (v >> (i as u64)) & 1 != 1 {
        lemma_first_set_le(v, s, i + 1, iw);
    }
}

/// The first dead cell from `i` lies no later than any dead cell from `i`.
pub proof fn lemma_first_clear_le(v: u64, s: u64, i: int, iw: int)
    requires
        0 <= i <= iw < s,
        (v >> (iw as u64)) & 1 == 0,
    ensures
        first_clear_from(v, s, i) <= iw,
    decreases iw - i,
{
    if i < iw && (v >> (i as u64)) & 1 != 0 {
        lemma_first_clear_le(v, s, i + 1, iw);
    }
}

/// Some cell below `s` is live.
pub open spec fn has_live(v: u64, s: u64) -> bool {
    exists|i: u64| i < s && #[trigger] ((v >> i) & 1) == 1
}

/// Some cell below `s` is dead.
pub open spec fn has_dead(v: u64, s: u64) -> bool {
    exists|i: u64| i < s && #[trigger] ((v >> i) & 1) == 0
}

/// The running state of the reachability scan: whether the scan stands
/// inside a run of live cells, the cells of the current (or most recent)
/// run, whether that run touched an already-reachable cell, and the
/// reachable cells gathered so far.
pub struct ReachScan {
    pub inside: bool,
    pub current: u64,
    pub found: bool,
    pub out: u64,
}

/// One cell of the reachability scan: a live cell starts or extends the
/// current run and notes whether it was already reachable; a dead cell
/// closes the run; and as long as the current run has touched a reachable
/// cell, its cells are added to the output.
pub open spec fn scan_step(x: u64, reached: u64, st: ReachScan, i: u64) -> ReachScan {
    let live = (x >> i) & 1 == 1;
    let st1 = if live {
        if !st.inside {
            ReachScan {
                inside: true,
                current: 1u64 << i,
                found: (reached >> i) & 1 == 1,
                out: st.out,
            }
        } else {
            ReachScan {
                inside: true,
                current: st.current | (1u64 << i),
                found: st.found || ((reached >> i) & 1 == 1),
                out: st.out,
            }
        }
    } else {
        ReachScan { inside: false, current: st.current, found: st.found, out: st.out }
    };
    if st1.found {
        ReachScan { inside: st1.inside, current: st1.current, found: st1.found, out: st1.out | st1.current }
    } else {
        st1
    }
}

/// The scan state after visiting `j` cells in circular order from `d`.
pub open spec fn scan_from(x: u64, s: u64, reached: u64, d: int, j: int) -> ReachScan
    decreases j,
{
    if j <= 0 {
        ReachScan { inside: false, current: 0, found: false, out: 0 }
    } else {
        scan_step(
            x,
            reached,
            scan_from(x, s, reached, d, j - 1),
            (((d + j - 1) % (s as int)) as u64),
        )
    }
}

/// One propagation step of the reachability set: the union of every run of
/// live cells of `x` that contains an already-reachable cell, gathered by
/// scanning the row once from its first dead cell.
pub open spec fn propagate(x: u64, s: u64, reached: u64) -> u64 {
    scan_from(x, s, reached, first_clear_from(x, s, 0), s as int).out
}

/// The phase step applied at position `k` of the phase cycle.
pub open spec fn phase_at(v: u64, s: u64, t: Seq<u64>, k: int) -> u64 {
    if k == 0 {
        phase0(v, t)
    } else if k == 1 {
        phase1(v, s, t)
    } else {
        phase2(v, s, t)
    }
}

/// The field after `k` individual phase steps, the phases cycling.
pub open spec fn reach_x(v: u64, s: u64, t: Seq<u64>, k: int) -> u64
    decreases k,
{
    if k <= 0 {
        v
    } else {
        phase_at(reach_x(v, s, t, k - 1), s, t, (k - 1) % 3)
    }
}

/// The reachable set after `k` propagation steps, starting from the first
/// live cell of the start field and propagating through each phase step.
pub open spec fn reach_r(v: u64, s: u64, t: Seq<u64>, k: int) -> u64
    decreases k,
{
    if k <= 0 {
        1u64 << (first_set_from(v, s, 0) as u64)
    } else {
        propagate(reach_x(v, s, t, k - 1), s, reach_r(v, s, t, k - 1))
    }
}

/// Checks causal coverage of a confirmed oscillator: propagates the set of
/// cells reachable from the first run of live cells through every phase
/// step of a full period, and requires the reachable set to end up equal
/// to the entire live set.  The field must hold a live cell, and every
/// intermediate generation must keep a dead cell, as the callers ensure.
pub fn check_reach_everything(x: Field, rule: &Rule, period: u64) -> (r: bool)
    requires
        x.valid(),
        rule.wf(),
        period <= 1_000_000_000,
        has_live(x.val, x.size as u64),
        forall|k: int|
            0 <= k <= 3 * (period as int) ==> has_dead(
                #[trigger] reach_x(x.val, x.size as u64, rule.tbl(), k),
                x.size as u64,
            ),
    ensures
        r == (reach_r(x.val, x.size as u64, rule.tbl(), 3 * (period as int) + 1) == reach_x(
            x.val,
            x.size as u64,
            rule.tbl(),
            3 * (period as int),
        )),
{
    let ghost v0 = x.val;
    let ghost s = x.size as u64;
    let ghost t = rule.tbl();
    let size = x.size;
    let mut pos_start: u32 = 0;
    while pos_start < size && !x.index(pos_start)
        invariant
            x.valid(),
            s == x.size as u64,
            size == x.size,
            pos_start <= size,
            first_set_from(x.val, s, 0) == first_set_from(x.val, s, pos_start as int),
        decreases size - pos_start,
    {
        pos_start = pos_start + 1;
    }
    proof {
        if pos_start == size {
            let iw = choose|i: u64| i < s && #[trigger] ((x.val >> i) & 1) == 1;
            lemma_first_set_le(x.val, s, 0, iw as int);
            assert(false);
        }
        assert(pos_start as int == first_set_from(v0, s, 0));
        crate::bits::lemma_fits_zero(s);
        crate::bits::lemma_fits_or_bit(0, 0, pos_start as u64, s);
    }
    let mut reached = Field::new(1u64 << pos_start, size);
    let mut cur = x;
    let mut prev = x;
    let mut step: u64 = 0;
    while step <= period * 3
        invariant
            x.valid(),
            rule.wf(),
            v0 == x.val,
            s == x.size as u64,
            t == rule.tbl(),
            size == x.size,
            period <= 1_000_000_000,
            step <= period * 3 + 1,
            cur.size == size,
            cur.wf(),
            prev.size == size,
            cur.val == reach_x(v0, s, t, step as int),
            reached.size == size,
            fits(reached.val, s),
            reached.val == reach_r(v0, s, t, step as int),
            step >= 1 ==> prev.val == reach_x(v0, s, t, step as int - 1),
            forall|k: int| 0 <= k <= 3 * (period as int) ==> has_dead(#[trigger] reach_x(v0, s, t, k), s),
        decreases period * 3 + 1 - step,
    {
        let mut pos_dead: u32 = 0;
        while pos_dead < size && cur.index(pos_dead)
            invariant
                cur.wf(),
                size == cur.size,
                pos_dead <= size,
                first_clear_from(cur.val, s, 0) == first_clear_from(cur.val, s, pos_dead as int),
                s == size,
            decreases size - pos_dead,
        {
            pos_dead = pos_dead + 1;
        }
        proof {
            assert(has_dead(reach_x(v0, s, t, step as int), s));
            if pos_dead == size {
                let iw = choose|i: u64| i < s && #[trigger] ((cur.val >> i) & 1) == 0;
                lemma_first_clear_le(cur.val, s, 0, iw as int);
                assert(false);
            }
            let cv = cur.val;
            assert(((cv >> (pos_dead as u64)) & 1) == 0 || ((cv >> (pos_dead as u64)) & 1) == 1)
                by (bit_vector);
            assert(pos_dead as int == first_clear_from(cur.val, s, 0));
            crate::bits::lemma_fits_zero(s);
        }
        let mut out_val: u64 = 0;
        let mut current: u64 = 0;
        let mut inside = false;
        let mut found = false;
        let mut j: u32 = 0;
        while j < size
            invariant
                cur.wf(),
                size == cur.size,
                s == size,
                reached.size == size,
                fits(reached.val, s),
                pos_dead < size,
                j <= size,
                fits(current, s),
                fits(out_val, s),
                inside == scan_from(cur.val, s, reached.val, pos_dead as int, j as int).inside,
                current == scan_from(cur.val, s, reached.val, pos_dead as int, j as int).current,
                found == scan_from(cur.val, s, reached.val, pos_dead as int, j as int).found,
                out_val == scan_from(cur.val, s, reached.val, pos_dead as int, j as int).out,
            decreases size - j,
        {
            let i = (pos_dead + j) % size;
            proof {
                assert(i as int == (pos_dead as int + j as int) % (s as int));
                crate::bits::lemma_fits_or_bit(current, out_val, i as u64, s);
            }
            if cur.index(i) {
                if !inside {
                    inside = true;
                    found = reached.index(i);
                    current = 1u64 << i;
                } else {
                    found = found || reached.index(i);
                    current = current | (1u64 << i);
                }
            } else if inside {
                inside = false;
            }
            if found {
                proof {
                    crate::bits::lemma_fits_or_bit(out_val, current, 0, s);
                }
                out_val = out_val | current;
            }
            j = j + 1;
        }
        reached = Field::new(out_val, size);
        prev = cur;
        if step % 3 == 0 {
            rule.step0(&mut cur);
        } else if step % 3 == 1 {
            rule.step1(&mut cur);
        } else {
            rule.step2(&mut cur);
        }
        proof {
            assert(reached.val == reach_r(v0, s, t, step as int + 1));
            assert(cur.val == reach_x(v0, s, t, step as int + 1));
        }
        step = step + 1;
    }
    reached.val == prev.val
}

} // verus!
