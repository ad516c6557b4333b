use algorithms::fast_digit_count;
use algorithms::fast_log10;
use algorithms::fast_log10_u128;
use algorithms::fast_log10_u64;
use algorithms::fast_log2;
use algorithms::fast_log2_u128;
use algorithms::fast_log2_u64;
use algorithms::DigitCount;

#[test]
fn log2_values() {
    assert_eq!(fast_log2(0), 0);
    assert_eq!(fast_log2(1), 0);
    assert_eq!(fast_log2(2), 1);
    assert_eq!(fast_log2(3), 1);
    assert_eq!(fast_log2(4), 2);
    assert_eq!(fast_log2(255), 7);
    assert_eq!(fast_log2(256), 8);
    assert_eq!(fast_log2(u32::MAX), 31);
    assert_eq!(fast_log2_u64(0), 0);
    assert_eq!(fast_log2_u64(1024), 10);
    assert_eq!(fast_log2_u64(u64::MAX), 63);
    assert_eq!(fast_log2_u128(0), 0);
    assert_eq!(fast_log2_u128(1 << 70), 70);
    assert_eq!(fast_log2_u128(u128::MAX), 127);
}

#[test]
fn log10_estimates_never_overshoot() {
    for value in [0u32, 1, 9, 10, 99, 100, 1023, 1024, 99999, 1000000, u32::MAX] {
        let est = fast_log10(value);
        if value >= 1 {
            assert!(10u64.pow(est as u32) <= value as u64, "overshot on {}", value);
        }
        assert!((value as u64) < 10u64.pow(est as u32 + 2), "too low on {}", value);
    }
    assert_eq!(fast_log10_u64(u64::MAX), 18);
    assert_eq!(fast_log10_u128(u128::MAX), 38);
}

#[test]
fn fast_digit_count_exact_on_boundaries() {
    assert_eq!(fast_digit_count(0), 1);
    assert_eq!(fast_digit_count(9), 1);
    assert_eq!(fast_digit_count(10), 2);
    assert_eq!(fast_digit_count(99), 2);
    assert_eq!(fast_digit_count(100), 3);
    let mut p: u64 = 10;
    while p <= u32::MAX as u64 {
        assert_eq!(fast_digit_count((p - 1) as u32), p.to_string().len() - 1);
        assert_eq!(fast_digit_count(p as u32), p.to_string().len());
        p *= 10;
    }
    assert_eq!(fast_digit_count(u32::MAX), 10);
}

#[test]
fn fast_digit_count_matches_to_string() {
    for value in 0u32..200000 {
        assert_eq!(fast_digit_count(value), value.to_string().len());
    }
}

#[test]
fn digit_count_trait_all_widths() {
    assert_eq!(0u8.digit_count(), 1);
    assert_eq!(255u8.digit_count(), 3);
    assert_eq!(65535u16.digit_count(), 5);
    assert_eq!(9999u16.digit_count(), 4);
    assert_eq!(4294967295u32.digit_count(), 10);
    assert_eq!(0u64.digit_count(), 1);
    assert_eq!(9u64.digit_count(), 1);
    assert_eq!(10u64.digit_count(), 2);
    assert_eq!(18446744073709551615u64.digit_count(), 20);
    assert_eq!(0u128.digit_count(), 1);
    assert_eq!(340282366920938463463374607431768211455u128.digit_count(), 39);
    let mut p: u128 = 10;
    loop {
        assert_eq!((p - 1).digit_count(), (p - 1).to_string().len());
        assert_eq!(p.digit_count(), p.to_string().len());
        if p > u128::MAX / 10 {
            break;
        }
        p *= 10;
    }
    let mut q: u64 = 10;
    loop {
        assert_eq!((q - 1).digit_count(), (q - 1).to_string().len());
        assert_eq!(q.digit_count(), q.to_string().len());
        if q > u64::MAX / 10 {
            break;
        }
        q *= 10;
    }
}
