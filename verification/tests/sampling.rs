use jaali::sampling::{lcg_advance, LCG_MULTIPLIER};

#[test]
fn lcg_advances_with_wrapping_arithmetic() {
    let mut seed = 123456789u64;
    let bits = lcg_advance(&mut seed);
    let expected = 123456789u64.wrapping_mul(6364136223846793005).wrapping_add(1);
    assert_eq!(seed, expected);
    assert_eq!(bits, expected >> 33);
    assert!(bits < (1u64 << 31));
}

#[test]
fn lcg_exact_values() {
    let mut seed = 0u64;
    assert_eq!(lcg_advance(&mut seed), 0);
    assert_eq!(seed, 1);
    assert_eq!(lcg_advance(&mut seed), LCG_MULTIPLIER >> 33);
    assert_eq!(seed, LCG_MULTIPLIER + 1);
    let mut top = u64::MAX;
    lcg_advance(&mut top);
    assert_eq!(top, 0u64.wrapping_sub(LCG_MULTIPLIER).wrapping_add(1));
}
