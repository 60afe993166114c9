use pprint::DigitCount;
use rand::distributions::uniform::SampleUniform;
use rand::Rng;
use std::fmt::Display;

// Generic test function for a range of values with stochastic sampling
fn test_range<T>(start: T, end: T, n_samples: usize)
where
    T: DigitCount + Display + PartialOrd + Copy + SampleUniform,
    rand::distributions::Standard: rand::distributions::Distribution<T>,
{
    let mut rng = rand::thread_rng();

    // Always test the start and end of the range
    assert_eq!(start.len(), start.to_string().len(), "Start: {}", start);
    assert_eq!(end.len(), end.to_string().len(), "End: {}", end);

    // Stochastically sample the range
    for _ in 0..n_samples {
        let sample: T = rng.gen_range(start..=end);
        assert_eq!(sample.len(), sample.to_string().len(), "Sample: {}", sample);
    }
}

#[test]
fn test_i8_range() {
    test_range(i8::MIN, i8::MAX, 100);
}

#[test]
fn test_u8_range() {
    test_range(u8::MIN, u8::MAX, 100);
}

#[test]
fn test_i16_range() {
    test_range(i16::MIN, i16::MAX, 1000);
}

#[test]
fn test_u16_range() {
    test_range(u16::MIN, u16::MAX, 1000);
}

#[test]
fn test_i32_range() {
    test_range(i32::MIN, i32::MAX, 10000);
}

#[test]
fn test_u32_range() {
    test_range(u32::MIN, u32::MAX, 10000);
}

#[test]
fn test_i64_range() {
    test_range(i64::MIN, i64::MAX, 100000);
}

#[test]
fn test_u64_range() {
    test_range(u64::MIN, u64::MAX, 100000);
}

#[test]
fn test_isize_range() {
    test_range(isize::MIN, isize::MAX, 100000);
}

#[test]
fn test_usize_range() {
    test_range(usize::MIN, usize::MAX, 100000);
}

#[test]
fn test_i128_range() {
    test_range(i128::MIN, i128::MAX, 1000000);
}

#[test]
fn test_u128_range() {
    test_range(u128::MIN, u128::MAX, 1000000);
}

#[test]
fn test_digit_count_edges() {
    assert_eq!(0u64.len(), 1);
    assert_eq!(9u64.len(), 1);
    assert_eq!(10u64.len(), 2);
    assert_eq!(u64::MAX.len(), 20);
    assert_eq!((-1i8).len(), 2);
    assert_eq!(i8::MIN.len(), 4);
    assert_eq!(u128::MAX.len(), 39);
    assert_eq!(i128::MIN.len(), 40);
    assert_eq!(10_000_000_000_000_000_000u128.len(), 20);
    assert_eq!(100_000_000_000_000_000_000_000_000_000_000_000_000u128.len(), 39);
    assert!(!0u8.is_empty());
}

#[test]
fn test_udivmod_1e19() {
    assert_eq!(pprint::udivmod_1e19(0), (0, 0));
    assert_eq!(pprint::udivmod_1e19(123), (0, 123));
    assert_eq!(
        pprint::udivmod_1e19(10_000_000_000_000_000_000),
        (1, 0)
    );
    assert_eq!(
        pprint::udivmod_1e19(u128::MAX),
        (
            u128::MAX / 10_000_000_000_000_000_000,
            (u128::MAX % 10_000_000_000_000_000_000) as u64
        )
    );
    assert_eq!(
        pprint::udivmod_1e19(9_671_406_556_917_033_397_649_408),
        (967_140, 6_556_917_033_397_649_408)
    );
}

#[test]
fn test_u128_mulhi() {
    assert_eq!(pprint::u128_mulhi(0, u128::MAX), 0);
    assert_eq!(pprint::u128_mulhi(1 << 64, 1 << 64), 1);
    assert_eq!(pprint::u128_mulhi(u128::MAX, u128::MAX), u128::MAX - 1);
    assert_eq!(pprint::u128_mulhi(u128::MAX, 2), 1);
}
