use spiderdb::bio::{calc_life_score, life_score_of};
use spiderdb::ranking::calculate_bio_score;
use spiderdb::root::floor_root_bounded;
use spiderdb::storage::NodeHeader;
use spiderdb::wide::Wide;

fn header(access_count: u32, significance: u8, last_access_ts: u64) -> NodeHeader {
    NodeHeader { id: 0, data_offset: 0, data_len: 0, last_access_ts, access_count, significance }
}

#[test]
fn life_score_exact_values() {
    // 100 / 2^1.8
    assert_eq!(life_score_of(0, 10, 1000, 1000), 28_717_458);
    // 2100 / 2^1.8
    assert_eq!(life_score_of(50, 200, 1000, 1000), 603_066_636);
    // 12 / 3^1.8, one hour after the last access
    assert_eq!(life_score_of(1, 1, 0, 3600), 1_660_974);
    // 2 / 12^1.8, ten hours after
    assert_eq!(life_score_of(1, 0, 0, 36_000), 22_829);
}

#[test]
fn life_score_of_an_unused_node_is_zero() {
    assert_eq!(life_score_of(0, 0, 5, 9), 0);
}

#[test]
fn life_score_at_the_ends_of_the_range() {
    assert_eq!(life_score_of(u32::MAX, 255, 0, 0), 2_466_811_665_561_483);
    assert_eq!(life_score_of(u32::MAX, 255, 0, u64::MAX), 0);
}

#[test]
fn life_score_with_a_clock_before_the_last_access() {
    // no time has gone by: 100 / 2^1.8, with usage 2 * 3 + 10 * 7 = 76
    assert_eq!(life_score_of(3, 7, 100, 50), 21_825_268);
    assert_eq!(life_score_of(3, 7, 100, 50), life_score_of(3, 7, 100, 100));
}

#[test]
fn life_score_does_not_rise_with_time() {
    let mut previous = life_score_of(7, 90, 1_000, 1_000);
    let mut now: u64 = 1_000;
    while now < 2_000_000 {
        now = now + now / 3 + 17;
        let current = life_score_of(7, 90, 1_000, now);
        assert!(current <= previous);
        previous = current;
    }
}

#[test]
fn life_score_does_not_fall_with_usage() {
    let base = life_score_of(4, 20, 0, 50_000);
    assert!(life_score_of(5, 20, 0, 50_000) >= base);
    assert!(life_score_of(4, 21, 0, 50_000) >= base);
    assert!(life_score_of(400, 200, 0, 50_000) >= base);
}

#[test]
fn calc_life_score_reads_the_header() {
    let h = header(50, 200, 1000);
    assert_eq!(calc_life_score(&h, 1000), 603_066_636);
    assert_eq!(calc_life_score(&h, 1000), life_score_of(50, 200, 1000, 1000));
}

#[test]
fn bio_score_exact_values() {
    // 10 / 255 * 0.4 + min(28.717 / 10, 1) * 0.3 + 0
    assert_eq!(calculate_bio_score(&header(0, 10, 1000), 1000), 315_686);
    // 200 / 255 * 0.4 + 0.3 + 50 / 100 * 0.3
    assert_eq!(calculate_bio_score(&header(50, 200, 1000), 1000), 763_725);
    // every part at its most
    assert_eq!(calculate_bio_score(&header(500, 255, 0), 0), 1_000_000);
    assert_eq!(calculate_bio_score(&header(0, 0, 0), 0), 0);
}

#[test]
fn floor_root_of_small_ratios() {
    let one = Wide::one();
    // the square root of 10 / 1
    assert_eq!(floor_root_bounded(2, &one.mul_small(10), &one, 10), 3);
    // the square root of 16 / 1 and of 15 / 1
    assert_eq!(floor_root_bounded(2, &one.mul_small(16), &one, 16), 4);
    assert_eq!(floor_root_bounded(2, &one.mul_small(15), &one, 16), 3);
    // the cube root of 1000 / 8
    assert_eq!(floor_root_bounded(3, &one.mul_small(1000), &one.mul_small(8), 1000), 5);
    // the fifth root of zero
    assert_eq!(floor_root_bounded(5, &one.mul_small(0), &one, 0), 0);
}

#[test]
fn wide_numbers_compare_by_value() {
    let one = Wide::one();
    let big = one.mul_small(1 << 90).mul_small(1 << 90);
    let bigger = big.mul_small(3);
    assert!(big.le(&bigger));
    assert!(!bigger.le(&big));
    assert!(big.le(&big.duplicate()));
    // 2^180 * 3 against 3 * 2^90 * 2^90
    let other = one.mul_small(3).mul_small(1 << 90).mul_small(1 << 90);
    assert!(other.le(&bigger) && bigger.le(&other));
    assert!(one.mul_small(0).le(&one));
    assert!(!one.le(&one.mul_small(0)));
}
