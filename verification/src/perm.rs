//! The rule-index codec: a bijection between integers below `8!` and
//! permutations of the eight block values, by the factorial number system.

use vstd::prelude::*;

verus! {

/// `n` factorial.
pub open spec fn fact(n: int) -> int
    decreases n,
{
    if n <= 0 {
        1
    } else {
        n * fact(n - 1)
    }
}

/// Factorials are positive.
pub proof fn lemma_fact_pos(n: int)
    ensures
        fact(n) >= 1,
    decreases n,
{
    if n > 0 {
        lemma_fact_pos(n - 1);
        assert(n * fact(n - 1) >= 1) by (nonlinear_arith)
            requires
                n >= 1,
                fact(n - 1) >= 1,
        ;
    }
}

/// Decodes `v` against the pool `rem`: the leading factorial-base digit
/// `v / (len - 1)!` picks the next element out of the pool, and the rest of
/// the permutation is decoded from the remainder.
pub open spec fn lehmer_pick(rem: Seq<u64>, v: int) -> Seq<u64>
    decreases rem.len(),
{
    if rem.len() == 0 {
        Seq::empty()
    } else {
        let f = fact(rem.len() - 1);
        let d = if 0 <= v / f < rem.len() {
            v / f
        } else {
            0
        };
        seq![rem[d]] + lehmer_pick(rem.remove(d), v % f)
    }
}

/// The permutation of the eight block values named by rule index `ni`.
pub open spec fn perm_of_index(ni: u64) -> Seq<u64> {
    lehmer_pick(seq![0u64, 1u64, 2u64, 3u64, 4u64, 5u64, 6u64, 7u64], ni as int)
}

/// Decoding keeps the pool's length and its elements: the result is a
/// rearrangement of the pool, without duplicates if the pool had none.
pub proof fn lemma_lehmer_pick_props(rem: Seq<u64>, v: int)
    requires
        0 <= v < fact(rem.len() as int),
        rem.no_duplicates(),
    ensures
        lehmer_pick(rem, v).len() == rem.len(),
        lehmer_pick(rem, v).no_duplicates(),
        forall|x: u64| lehmer_pick(rem, v).contains(x) <==> rem.contains(x),
    decreases rem.len(),
{
    if rem.len() == 0 {
        assert(lehmer_pick(rem, v) =~= Seq::<u64>::empty());
    } else {
        let len = rem.len() as int;
        let f = fact(len - 1);
        lemma_fact_pos(len - 1);
        let d = v / f;
        assert(fact(len) == len * f);
        assert(0 <= d < len) by (nonlinear_arith)
            requires
                f >= 1,
                len >= 1,
                0 <= v < len * f,
                d == v / f,
        ;
        assert(0 <= v % f < f) by (nonlinear_arith)
            requires
                f >= 1,
        ;
        let rest_pool = rem.remove(d);
        assert(rest_pool.no_duplicates()) by {
            assert(forall|i: int, j: int|
                0 <= i < j < rest_pool.len() ==> rest_pool[i] != rest_pool[j]) by {
                assert(forall|i: int|
                    0 <= i < rest_pool.len() ==> rest_pool[i] == (if i < d {
                        rem[i]
                    } else {
                        rem[i + 1]
                    }));
            }
        }
        lemma_lehmer_pick_props(rest_pool, v % f);
        let rest = lehmer_pick(rest_pool, v % f);
        let whole = lehmer_pick(rem, v);
        assert(whole == seq![rem[d]] + rest);
        assert(whole.len() == rem.len());
        assert forall|x: u64| whole.contains(x) implies rem.contains(x) by {
            if x == rem[d] {
                assert(rem.contains(x));
            } else {
                let i = choose|i: int| 0 <= i < whole.len() && whole[i] == x;
                if i > 0 {
                    assert(rest[i - 1] == x);
                    assert(rest_pool.contains(x));
                    let ii = choose|ii: int| 0 <= ii < rest_pool.len() && rest_pool[ii] == x;
                    if ii < d {
                        assert(rem[ii] == x);
                    } else {
                        assert(rem[ii + 1] == x);
                    }
                }
            }
        }
        assert forall|x: u64| rem.contains(x) implies whole.contains(x) by {
            let i = choose|i: int| 0 <= i < rem.len() && rem[i] == x;
            if i == d {
                assert(whole[0] == x);
            } else if i < d {
                assert(rest_pool[i] == x);
                assert(rest_pool.contains(x));
                let jj = choose|jj: int| 0 <= jj < rest.len() && rest[jj] == x;
                assert(whole[jj + 1] == x);
            } else {
                assert(rest_pool[i - 1] == x);
                assert(rest_pool.contains(x));
                let jj = choose|jj: int| 0 <= jj < rest.len() && rest[jj] == x;
                assert(whole[jj + 1] == x);
            }
        }
        assert(whole.no_duplicates()) by {
            assert(!rest_pool.contains(rem[d])) by {
                if rest_pool.contains(rem[d]) {
                    let ii = choose|ii: int|
                        0 <= ii < rest_pool.len() && rest_pool[ii] == rem[d];
                    if ii < d {
                        assert(rem[ii] == rem[d]);
                    } else {
                        assert(rem[ii + 1] == rem[d]);
                    }
                }
            }
            assert(!rest.contains(rem[d]));
            assert(forall|i: int, j: int| 0 <= i < j < whole.len() ==> whole[i] != whole[j]) by {
                assert(forall|j: int| 1 <= j < whole.len() ==> whole[j] == rest[j - 1]);
                assert(forall|j: int|
                    1 <= j < whole.len() ==> whole[0] != #[trigger] whole[j]) by {
                    assert(forall|jj: int| 0 <= jj < rest.len() ==> #[trigger] rest[jj] != rem[d]);
                }
            }
        }
    }
}

/// Computes `n` factorial.
pub fn factorial(n: u64) -> (r: u64)
    requires
        n <= 7,
    ensures
        r as int == fact(n as int),
{
    proof {
        reveal_with_fuel(fact, 9);
        assert(fact(0) == 1 && fact(1) == 1 && fact(2) == 2 && fact(3) == 6 && fact(4) == 24
            && fact(5) == 120 && fact(6) == 720 && fact(7) == 5040);
    }
    if n == 0 {
        1
    } else if n == 1 {
        1
    } else if n == 2 {
        2
    } else if n == 3 {
        6
    } else if n == 4 {
        24
    } else if n == 5 {
        120
    } else if n == 6 {
        720
    } else {
        5040
    }
}

/// Decodes a rule index below `8!` into the permutation of the eight block
/// values that it names.
pub fn decode_permutation(ni: u64) -> (r: Vec<u64>)
    requires
        ni < 40320,
    ensures
        r@ == perm_of_index(ni),
        r@.len() == 8,
        r@.no_duplicates(),
        forall|i: int| 0 <= i < 8 ==> r@[i] < 8,
{
    proof {
        reveal_with_fuel(fact, 10);
        assert(fact(8) == 40320);
    }
    let mut rem: Vec<u64> = Vec::new();
    rem.push(0);
    rem.push(1);
    rem.push(2);
    rem.push(3);
    rem.push(4);
    rem.push(5);
    rem.push(6);
    rem.push(7);
    proof {
        assert(rem@ =~= seq![0u64, 1u64, 2u64, 3u64, 4u64, 5u64, 6u64, 7u64]);
    }
    let mut out: Vec<u64> = Vec::new();
    let mut v: u64 = ni;
    let mut i: usize = 0;
    while i < 8
        invariant
            i <= 8,
            out@.len() == i,
            rem@.len() == 8 - i,
            0 <= v < fact(rem@.len() as int),
            perm_of_index(ni) == out@ + lehmer_pick(rem@, v as int),
        decreases 8 - i,
    {
        let f = factorial(7 - i as u64);
        proof {
            lemma_fact_pos(rem@.len() as int - 1);
            assert(fact(rem@.len() as int) == rem@.len() * fact(rem@.len() as int - 1));
            assert(v / f < rem@.len()) by (nonlinear_arith)
                requires
                    f >= 1,
                    rem@.len() >= 1,
                    v < rem@.len() * f,
                    f == fact(rem@.len() as int - 1),
            ;
            assert(0 <= v % f < f) by (nonlinear_arith)
                requires
                    f >= 1,
            ;
        }
        let d = (v / f) as usize;
        proof {
            assert(lehmer_pick(rem@, v as int) == seq![rem@[d as int]] + lehmer_pick(
                rem@.remove(d as int),
                (v as int) % (f as int),
            ));
        }
        let ghost old_out = out@;
        let ghost old_rem = rem@;
        let picked = rem[d];
        out.push(picked);
        rem.remove(d);
        proof {
            let rest = lehmer_pick(old_rem.remove(d as int), (v as int) % (f as int));
            assert((old_out + seq![picked]) + rest =~= old_out + (seq![picked] + rest));
        }
        v = v % f;
        i = i + 1;
    }
    proof {
        assert(lehmer_pick(rem@, v as int) =~= Seq::<u64>::empty());
        assert(perm_of_index(ni) =~= out@);
        lemma_lehmer_pick_props(
            seq![0u64, 1u64, 2u64, 3u64, 4u64, 5u64, 6u64, 7u64],
            ni as int,
        );
        assert forall|i2: int| 0 <= i2 < 8 implies out@[i2] < 8 by {
            assert(out@.contains(out@[i2]));
            assert(seq![0u64, 1u64, 2u64, 3u64, 4u64, 5u64, 6u64, 7u64].contains(out@[i2]));
        }
    }
    out
}

} // verus!
