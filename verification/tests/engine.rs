use std::collections::HashMap;

use time_2d_inversible_automata::bits::{repeat, repeat_bit, ALL_ONES, PAT0, PAT1, PAT2, PAT3,
    PAT4, PAT5, PAT6, PAT7};
use time_2d_inversible_automata::classify::{add_used, check_reach_everything, check_used,
    find_pattern_start, is_this_glider_gun};
use time_2d_inversible_automata::field::{rotate_left, rotate_right, Field};
use time_2d_inversible_automata::random::Random;
use time_2d_inversible_automata::rule::Rule;

#[test]
fn examine_window_3_test() {
    let rule1 = Rule::new([PAT0, PAT1, PAT2, PAT3, PAT4, PAT5, PAT7, PAT6]);
    let mut f = Field::new(0b001_110_111, 63);
    rule1.replace_all(&mut f);
    assert_eq!(f.val, 0b001_111_110);

    let rule2 = Rule::new([PAT0, PAT2, PAT1, PAT4, PAT3, PAT6, PAT5, PAT7]);
    let mut f = Field::new(0b001_010_011_100_101_110_111, 63);
    rule2.replace_all(&mut f);
    assert_eq!(f.val, 0b010_001_100_011_110_101_111);

    let x = repeat(0b01, 2);
    assert_eq!(x, rotate_right(rotate_left(x, 63, 1), 63, 1));
    assert_eq!(x, rotate_left(rotate_right(x, 63, 1), 63, 1));

    let mut random = Random::new(25025069121927896);
    let start = random.get();
    for i in 0..100 {
        assert_eq!(rotate_left(start, 63, i), {
            let mut x = start;
            for _ in 0..i {
                x = rotate_left(x, 63, 1);
            }
            x
        });
        assert_eq!(rotate_right(start, 63, i), {
            let mut x = start;
            for _ in 0..i {
                x = rotate_right(x, 63, 1);
            }
            x
        });
    }

    assert_eq!(rotate_left(0b0101, 4, 0), 0b0101);
    assert_eq!(rotate_left(0b0101, 4, 1), 0b1010);
    assert_eq!(rotate_left(0b0101, 4, 2), 0b0101);
    assert_eq!(rotate_left(0b0101, 4, 3), 0b1010);
    assert_eq!(rotate_left(0b0101, 4, 4), 0b0101);

    assert_eq!(rotate_left(0b1110, 4, 0), 0b1110);
    assert_eq!(rotate_left(0b1110, 4, 1), 0b1101);
    assert_eq!(rotate_left(0b1110, 4, 2), 0b1011);
    assert_eq!(rotate_left(0b1110, 4, 3), 0b0111);
    assert_eq!(rotate_left(0b1110, 4, 4), 0b1110);
}

#[test]
fn new_3_test() {
    let rule1 = Rule::new([PAT0, PAT1, PAT2, PAT3, PAT4, PAT5, PAT7, PAT6]);

    let mut x = Field::new(0b001_110_111, 63);
    rule1.replace_all(&mut x);
    assert_eq!(x, Field::new(0b001_111_110, 63));

    let rule2 = Rule::new([PAT0, PAT2, PAT1, PAT4, PAT3, PAT6, PAT5, PAT7]);
    let mut x = Field::new(0b001_010_011_100_101_110_111, 63);
    rule2.replace_all(&mut x);
    assert_eq!(x, Field::new(0b010_001_100_011_110_101_111, 63));

    let x = Field::new(repeat_bit(0b01, 2), 63);
    assert_eq!(x, x.rotate_right(1).rotate_left(1));
    assert_eq!(x, x.rotate_left(1).rotate_right(1));

    let mut random = Random::new(25025069121927896);
    let start = Field::new(random.get() & !(ALL_ONES << 45), 45);
    for i in 0..100 {
        assert_eq!(start.rotate_left(i), {
            let mut x = start;
            for _ in 0..i {
                x = x.rotate_left(1);
            }
            x
        });
        assert_eq!(start.rotate_right(i), {
            let mut x = start;
            for _ in 0..i {
                x = x.rotate_right(1);
            }
            x
        });
    }

    let rule = Rule::num_to_rule(633);
    assert!(check_reach_everything(Field::new(5, 30), &rule, 4));
    assert!(check_reach_everything(Field::new(10, 30), &rule, 2));
    assert!(check_reach_everything(Field::new(45, 30), &rule, 13));
    assert!(!check_reach_everything(Field::new(165, 30), &rule, 4));
    assert!(!check_reach_everything(Field::new(175, 30), &rule, 4));
    assert!(!check_reach_everything(Field::new(325, 30), &rule, 4));
    assert!(!check_reach_everything(Field::new(490, 30), &rule, 2));
    assert!(!check_reach_everything(Field::new(650, 30), &rule, 2));
    assert!(check_reach_everything(Field::new(765, 30), &rule, 13));
    assert!(!check_reach_everything(Field::new(965, 30), &rule, 4));
    assert!(check_reach_everything(Field::new(1215, 30), &rule, 28));
    assert!(!check_reach_everything(Field::new(1285, 30), &rule, 4));
    assert!(!check_reach_everything(Field::new(2565, 30), &rule, 4));
    assert!(!check_reach_everything(Field::new(5610, 30), &rule, 2));
    assert!(check_reach_everything(Field::new(6125, 30), &rule, 13));
    assert!(check_reach_everything(Field::new(11755, 30), &rule, 43));
    assert!(check_reach_everything(Field::new(13805, 30), &rule, 43));
    assert!(!check_reach_everything(Field::new(23275, 30), &rule, 13));
    assert!(!check_reach_everything(Field::new(390650, 30), &rule, 13));
}

#[test]
fn test1() {
    let rule = Rule::num_to_rule(633);
    let mut used: HashMap<u64, (u64, u64, i32)> = HashMap::new();

    add_used(Field::new(1, 9), 2, &rule, &mut used);
    add_used(Field::new(2, 9), 2, &rule, &mut used);
    add_used(Field::new(4, 9), 2, &rule, &mut used);
    assert!(!check_used(Field::new(3, 30), 13, &rule, &used));
    assert!(!check_used(Field::new(5, 30), 13, &rule, &used));
    assert!(!check_used(Field::new(10, 30), 13, &rule, &used));
    assert!(!check_used(Field::new(45, 30), 13, &rule, &used));
    assert!(!check_used(Field::new(765, 30), 13, &rule, &used));
    assert!(!check_used(Field::new(1215, 30), 28, &rule, &used));
    assert!(!check_used(Field::new(6125, 30), 13, &rule, &used));
    assert!(check_used(Field::new(4, 30), 4, &rule, &used));
    assert!(check_used(Field::new(17, 30), 4, &rule, &used));
    assert!(check_used(Field::new(23, 30), 4, &rule, &used));

    add_used(Field::new(3, 9), 2, &rule, &mut used);
    add_used(Field::new(6, 9), 2, &rule, &mut used);
    add_used(Field::new(12, 9), 2, &rule, &mut used);
    assert!(!check_used(Field::new(5, 30), 13, &rule, &used));
    assert!(!check_used(Field::new(10, 30), 13, &rule, &used));
    assert!(!check_used(Field::new(45, 30), 13, &rule, &used));
    assert!(!check_used(Field::new(765, 30), 13, &rule, &used));
    assert!(!check_used(Field::new(1215, 30), 28, &rule, &used));
    assert!(!check_used(Field::new(6125, 30), 13, &rule, &used));
    assert!(check_used(Field::new(12, 30), 4, &rule, &used));
    assert!(check_used(Field::new(19, 30), 4, &rule, &used));
    assert!(check_used(Field::new(27, 30), 4, &rule, &used));

    add_used(Field::new(5, 12), 4, &rule, &mut used);
    assert!(!check_used(Field::new(45, 30), 13, &rule, &used));
    assert!(!check_used(Field::new(765, 30), 13, &rule, &used));
    assert!(!check_used(Field::new(1215, 30), 28, &rule, &used));
    assert!(!check_used(Field::new(6125, 30), 13, &rule, &used));
    assert!(check_used(Field::new(2565, 30), 4, &rule, &used));
    assert!(check_used(Field::new(2805, 30), 4, &rule, &used));
    assert!(check_used(Field::new(10405, 30), 4, &rule, &used));
    assert!(check_used(Field::new(89775, 30), 4, &rule, &used));

    add_used(Field::new(10, 12), 2, &rule, &mut used);
    assert!(!check_used(Field::new(45, 30), 13, &rule, &used));
    assert!(!check_used(Field::new(765, 30), 13, &rule, &used));
    assert!(!check_used(Field::new(1215, 30), 28, &rule, &used));
    assert!(!check_used(Field::new(6125, 30), 13, &rule, &used));
    assert!(check_used(Field::new(490, 30), 2, &rule, &used));
    assert!(check_used(Field::new(650, 30), 2, &rule, &used));
    assert!(check_used(Field::new(3850, 30), 2, &rule, &used));

    add_used(Field::new(45, 15), 13, &rule, &mut used);
    assert!(!check_used(Field::new(765, 30), 13, &rule, &used));
    assert!(!check_used(Field::new(1215, 30), 28, &rule, &used));
    assert!(!check_used(Field::new(6125, 30), 13, &rule, &used));
    assert!(check_used(Field::new(23085, 30), 13, &rule, &used));
    assert!(check_used(Field::new(23275, 30), 13, &rule, &used));
    assert!(check_used(Field::new(92255, 30), 13, &rule, &used));
}

#[test]
fn glider_guns() {
    let rule = Rule::num_to_rule(116);
    assert_eq!(is_this_glider_gun(7, &rule), None);

    let rule = Rule::num_to_rule(160);
    assert_eq!(is_this_glider_gun(1, &rule), None);
    assert_eq!(is_this_glider_gun(305, &rule), None);
    assert_eq!(is_this_glider_gun(437, &rule), None);
    assert_eq!(is_this_glider_gun(601, &rule), None);

    let rule = Rule::num_to_rule(170);
    assert_eq!(is_this_glider_gun(16781, &rule), None);

    let rule = Rule::num_to_rule(173);
    assert_eq!(is_this_glider_gun(7, &rule), None);
    assert_eq!(is_this_glider_gun(59, &rule), None);
    assert_eq!(is_this_glider_gun(484, &rule), None);
    assert_eq!(is_this_glider_gun(9403, &rule), None);
    assert_eq!(is_this_glider_gun(1250, &rule), Some((5, 33, 2, -1)));
    assert_eq!(is_this_glider_gun(3813, &rule), Some((5, 33, 2, -1)));
    assert_eq!(is_this_glider_gun(3911, &rule), Some((5, 33, 2, -1)));

    let rule = Rule::num_to_rule(194);
    assert_eq!(is_this_glider_gun(2, &rule), Some((2, 1, 2, -1)));
    assert_eq!(is_this_glider_gun(5, &rule), Some((2, 1, 2, -1)));
    assert_eq!(is_this_glider_gun(6, &rule), Some((2, 1, 2, -1)));
    assert_eq!(is_this_glider_gun(12, &rule), Some((2, 1, 2, -1)));
    assert_eq!(is_this_glider_gun(13, &rule), Some((2, 1, 2, -1)));
    assert_eq!(is_this_glider_gun(13, &rule), Some((2, 1, 2, -1)));
    assert_eq!(is_this_glider_gun(18, &rule), Some((2, 1, 2, -1)));
    assert_eq!(is_this_glider_gun(50, &rule), Some((2, 1, 2, -1)));
    assert_eq!(is_this_glider_gun(146, &rule), Some((2, 1, 2, -1)));
    assert_eq!(is_this_glider_gun(1170, &rule), Some((2, 1, 2, -1)));
    assert_eq!(is_this_glider_gun(9362, &rule), Some((2, 1, 2, -1)));

    let rule = Rule::num_to_rule(207);
    assert_eq!(is_this_glider_gun(52, &rule), None);
    assert_eq!(is_this_glider_gun(244, &rule), None);
    assert_eq!(is_this_glider_gun(3328, &rule), None);
    assert_eq!(is_this_glider_gun(14068, &rule), None);

    let rule = Rule::num_to_rule(208);
    assert_eq!(is_this_glider_gun(505, &rule), None);
    assert_eq!(is_this_glider_gun(862, &rule), None);
    assert_eq!(is_this_glider_gun(3328, &rule), None);
    assert_eq!(is_this_glider_gun(14068, &rule), None);

    let rule = Rule::num_to_rule(214);
    assert_eq!(is_this_glider_gun(32, &rule), None);
    assert_eq!(is_this_glider_gun(220, &rule), None);

    let rule = Rule::num_to_rule(218);
    assert_eq!(is_this_glider_gun(2, &rule), Some((2, 1, 2, -1)));

    let rule = Rule::num_to_rule(219);
    assert_eq!(is_this_glider_gun(99, &rule), Some((2, 1, 2, -1)));

    let rule = Rule::num_to_rule(268);
    assert_eq!(is_this_glider_gun(3, &rule), Some((2, 1, 2, -1)));

    let rule = Rule::num_to_rule(275);
    assert_eq!(is_this_glider_gun(81920, &rule), None);

    let rule = Rule::num_to_rule(369);
    assert_eq!(is_this_glider_gun(6, &rule), None);

    let rule = Rule::num_to_rule(627);
    assert_eq!(is_this_glider_gun(1699, &rule), Some((5, 33, 2, -1)));
    assert_eq!(is_this_glider_gun(3237, &rule), Some((5, 33, 2, -1)));

    let rule = Rule::num_to_rule(876);
    assert_eq!(is_this_glider_gun(2, &rule), Some((1, 1, 1, 1)));
    assert_eq!(is_this_glider_gun(3, &rule), Some((1, 1, 1, 1)));
    assert_eq!(is_this_glider_gun(4, &rule), Some((1, 1, 1, 1)));
    assert_eq!(is_this_glider_gun(10, &rule), Some((1, 1, 1, 1)));
    assert_eq!(is_this_glider_gun(11, &rule), Some((1, 1, 1, 1)));
}

#[test]
fn find_pattern_start_test() {
    assert_eq!(find_pattern_start(Field::new(0b111_100_000_000, 12)), -2);

    assert_eq!(
        find_pattern_start(Field::new(0b001_101_100, 10 * 3).rotate_left(3 * 3)),
        3
    );
    assert_eq!(
        find_pattern_start(Field::new(0b001_101_100, 10 * 3).rotate_left(3 * 2)),
        2
    );
    assert_eq!(
        find_pattern_start(Field::new(0b001_101_100, 10 * 3).rotate_left(3)),
        1
    );
    assert_eq!(
        find_pattern_start(Field::new(0b001_101_100, 10 * 3).rotate_right(3)),
        -1
    );
    assert_eq!(
        find_pattern_start(Field::new(0b001_101_100, 10 * 3).rotate_right(3 * 2)),
        -2
    );
    assert_eq!(
        find_pattern_start(Field::new(0b001_101_100, 10 * 3).rotate_right(3 * 3)),
        -3
    );

    assert_eq!(
        find_pattern_start(Field::new(0b001_101_100, 4 * 3).rotate_left(3)),
        1
    );
    assert_eq!(
        find_pattern_start(Field::new(0b001_101_100, 4 * 3).rotate_right(3)),
        -1
    );
}
