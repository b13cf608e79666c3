use time_2d_inversible_automata::bits::{repeat, ALL_ONES, PAT7};
use time_2d_inversible_automata::classify::{find_pattern_start, is_this_glider, minimize2, period,
    size_round2, size_round3};
use time_2d_inversible_automata::field::{occupied_size, occupied_size3, Field};
use time_2d_inversible_automata::perm::{decode_permutation, factorial};
use time_2d_inversible_automata::random::Random;
use time_2d_inversible_automata::rule::{pattern_of, Rule};

fn inverse_rule(ni: u64) -> Rule {
    let p = decode_permutation(ni);
    let mut q: [u64; 8] = [0; 8];
    let mut k: usize = 0;
    while k < 8 {
        q[p[k] as usize] = k as u64;
        k += 1;
    }
    Rule::new([
        pattern_of(q[0]),
        pattern_of(q[1]),
        pattern_of(q[2]),
        pattern_of(q[3]),
        pattern_of(q[4]),
        pattern_of(q[5]),
        pattern_of(q[6]),
        pattern_of(q[7]),
    ])
}

fn steps_reversed(rule_back: &Rule, x: &mut Field) {
    rule_back.step2(x);
    rule_back.step1(x);
    rule_back.step0(x);
}

#[test]
fn rotation_round_trip_values() {
    for val in [0u64, 0b101, 0b001_101_100, 0x155_5555] {
        for n in [0u32, 1, 2, 3, 7, 29, 30, 31, 100] {
            let f = Field::new(val, 30);
            assert_eq!(f.rotate_left(n).rotate_right(n), f);
            assert_eq!(f.rotate_right(n).rotate_left(n), f);
        }
    }
}

#[test]
fn full_generation_reversibility() {
    let mut random = Random::new(25025069121927896);
    for ni in [633u64, 194, 173, 876, 18] {
        let forward = Rule::num_to_rule(ni);
        let back = inverse_rule(ni);
        for _ in 0..8 {
            let start = Field::new(random.get() & !(ALL_ONES << 63), 63);
            let mut x = start;
            forward.steps(&mut x);
            steps_reversed(&back, &mut x);
            assert_eq!(x, start);
        }
    }
    // a rule that keeps the empty block empty is reversible on narrower rows too
    let forward = Rule::num_to_rule(633);
    let back = inverse_rule(633);
    for (val, size) in [(5u64, 30u32), (490, 30), (45, 15), (1, 9)] {
        let start = Field::new(val, size);
        let mut x = start;
        forward.steps(&mut x);
        steps_reversed(&back, &mut x);
        assert_eq!(x, start);
    }
}

#[test]
fn block_substitution_matches_naive() {
    let mut random = Random::new(77477747774747);
    for ni in [633u64, 194, 18, 876, 4999] {
        let rule = Rule::num_to_rule(ni);
        for _ in 0..16 {
            let word = random.get() & PAT7;
            let mut naive: u64 = 0;
            for j in 0..21u32 {
                let b = ((word >> (3 * j)) & 7) as usize;
                naive |= (rule.0[b] & 7) << (3 * j);
            }
            let mut f = Field::new(word, 63);
            rule.replace_all(&mut f);
            assert_eq!(f.val, naive);
        }
    }
}

#[test]
fn canonicalization_idempotence() {
    let mut random = Random::new(987654321);
    for _ in 0..32 {
        let f = Field::new(random.get() & !(ALL_ONES << 30), 30);
        let once = f.minimize();
        assert_eq!(once.minimize(), once);
        for k in 0..10u32 {
            assert!(once.val <= f.rotate_left(3 * k).val);
        }
    }
    assert_eq!(Field::new(0b101_000_001, 30).minimize().val, 321);
}

#[test]
fn construction_is_checked() {
    assert!(Field::try_new(1, 4).is_err());
    assert!(Field::try_new(0, 66).is_err());
    assert!(Field::try_new(8, 3).is_err());
    let f = Field::try_new(5, 3).unwrap();
    assert_eq!(f.val, 5);
    assert_eq!(f.size, 3);
    assert_eq!(Field::try_new(0, 0).unwrap().val, 0);
}

#[test]
fn rule_names_and_codec() {
    assert_eq!(decode_permutation(633), vec![0, 1, 7, 3, 4, 5, 6, 2]);
    assert_eq!(decode_permutation(0), vec![0, 1, 2, 3, 4, 5, 6, 7]);
    assert_eq!(Rule::num_to_rule_name(633), "01734562");
    assert_eq!(Rule::num_to_rule_name(0), "01234567");
    assert_eq!(factorial(7), 5040);
    assert_eq!(factorial(0), 1);
}

#[test]
fn sizes_and_spans() {
    assert_eq!(occupied_size3(0b101_000), 6);
    assert_eq!(occupied_size(0b101_000), 6);
    assert_eq!(occupied_size3(0), 0);
    assert_eq!(occupied_size(0), 0);
    assert_eq!(occupied_size3(1), 3);
    assert_eq!(occupied_size(1), 1);
    assert_eq!(size_round3(7), 3);
    assert_eq!(size_round3(6), 2);
    assert_eq!(size_round2(5), 3);
    assert_eq!(size_round2(4), 2);
    assert_eq!(Field::new(0b101, 30).centralize().val, 20480);
    assert_eq!(repeat(0b1, 1), ALL_ONES);
    let f = Field::new(0b101, 9);
    assert!(f.index(0));
    assert!(!f.index(1));
    assert!(f.index(2));
    let rows = f.to_bools(2);
    assert_eq!(rows.len(), 18);
    assert_eq!(rows[8], true);
    assert_eq!(rows[6], true);
    assert_eq!(rows[7], false);
    assert_eq!(rows[17], true);
}

#[test]
fn classifier_basics() {
    let rule = Rule::num_to_rule(633);
    assert_eq!(period(Field::new(5, 30), &rule), Some((4, 1)));
    assert_eq!(period(Field::new(490, 30), &rule), Some((2, -1)));
    let g = is_this_glider(5, &rule).unwrap();
    assert_eq!((g.0.val, g.0.size, g.1, g.2), (5, 18, 4, 1));
    let g = is_this_glider(1, &rule).unwrap();
    assert_eq!((g.0.val, g.0.size, g.1, g.2), (1, 18, 2, 0));
    assert_eq!(minimize2(Field::new(5, 12), &rule, 4).val, 5);
    assert_eq!(find_pattern_start(Field::new(0b111_100_000_000, 12)), -2);
}

#[test]
fn random_stream() {
    let mut r = Random::new(25025069121927896);
    assert_eq!(r.get(), 519180958153619245);
    let mut r2 = Random::new(42);
    for _ in 0..100 {
        let v = r2.next_in_range(10, 17);
        assert!(10 <= v && v < 17);
    }
}
