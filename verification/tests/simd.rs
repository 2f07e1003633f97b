use rs_calcg::{simd_and, simd_and_fallback, simd_eq, simd_eq_fallback, simd_is_zero};

#[test]
fn check_simd_eq_fallback() {
    let mut a = [0xFFFFFFFF_FFFFFFFFu64; 32];
    let mut b = [0u64; 32];

    a[0] = 0b11100011_11111111_11111111_10000000_11111111_11111111_10001101_11111111u64;
    a[1] = 0b11110000_11111111_11111111_11111111_11111111_11111111_11111111_11110000u64;
    b[0] = 0b11100011_11111111_11111111_10000000_11111111_11111111_10001101_11111111u64;
    b[1] = 0b00001111_11111111_11111111_11111111_11111111_11111111_11111111_11110000u64;

    assert_eq!(simd_eq_fallback(a, b, 84), true);

    a[0] = 0b11100011_11111111_11111111_10000000_11111111_11111111_10001101_11111110u64;

    assert_eq!(simd_eq_fallback(a, b, 84), false);
}

#[test]
fn check_trivial_simd_eq_fallback() {
    let mut a = [0u64; 32];
    let mut b = [0u64; 32];

    a[0] = 0b111;
    b[0] = 0b101;

    assert_eq!(simd_eq_fallback(a, b, 3), false);
}

#[test]
fn check_simd_and_fallback() {
    let mut a = [0u64; 32];
    let mut b = [0u64; 32];

    a[0] = 0b111;
    b[0] = 0b101;

    a = simd_and_fallback(a, b, 3);

    assert_eq!(a[0], 0b101);
}

#[test]
fn check_simd_eq() {
    let mut a = [0xFFFFFFFF_FFFFFFFFu64; 32];
    let mut b = [0u64; 32];

    a[0] = 0b11100011_11111111_11111111_10000000_11111111_11111111_10001101_11111111u64;
    a[1] = 0b11110000_11111111_11111111_11111111_11111111_11111111_11111111_11110000u64;
    b[0] = 0b11100011_11111111_11111111_10000000_11111111_11111111_10001101_11111111u64;
    b[1] = 0b00001111_11111111_11111111_11111111_11111111_11111111_11111111_11110000u64;

    assert_eq!(simd_eq(a, b, 84), true);

    a[0] = 0b11100011_11111111_11111111_10000000_11111111_11111111_10001101_11111110u64;

    assert_eq!(simd_eq(a, b, 84), false);
}

#[test]
fn check_trivial_simd_eq() {
    let mut a = [0u64; 32];
    let mut b = [0u64; 32];

    a[0] = 0b111;
    b[0] = 0b101;

    assert_eq!(simd_eq(a, b, 3), false);

    a[0] = 0b101;
    b[0] = 0b101;

    assert_eq!(simd_eq(a, b, 3), true);
}

#[test]
fn check_simd_and() {
    let mut a = [0u64; 32];
    let mut b = [0u64; 32];

    a[0] = 0b111;
    b[0] = 0b101;

    a = simd_and(a, b, 3);

    assert_eq!(a[0], 0b101);

    b[0] = 0b010;

    a = simd_and(a, b, 3);

    assert_eq!(a[0], 0b000);
}

#[test]
fn check_weird_simd_eq() {
    let a = [0b1011_11000u64; 32];
    let b = [0b1011_11001u64; 32];

    assert!(!simd_eq(a, b, 5));
}

#[test]
fn check_simd_zero() {
    let mut a = [0; 32];

    a[0] = 0b110000;

    assert!(!simd_eq(a, [0; 32], 6));
    assert!(!simd_is_zero(a, 6));
    assert!(simd_is_zero(a, 4));
}

fn set(words: &mut [u64; 32], bit: usize) {
    words[bit / 64] |= 1u64 << (bit % 64);
}

const WIDTHS: [usize; 14] = [0, 1, 2, 63, 64, 65, 84, 127, 128, 129, 1000, 1984, 2047, 2048];

#[test]
fn eq_of_all_zero_and_all_one() {
    let zero = [0u64; 32];
    let ones = [u64::MAX; 32];
    for v in WIDTHS {
        assert!(simd_eq(zero, zero, v));
        assert!(simd_eq(ones, ones, v));
        assert!(simd_eq_fallback(zero, zero, v));
        assert!(simd_eq_fallback(ones, ones, v));
        assert_eq!(simd_eq(zero, ones, v), v == 0);
        assert_eq!(simd_eq_fallback(zero, ones, v), v == 0);
        assert!(simd_is_zero(zero, v));
        assert_eq!(simd_is_zero(ones, v), v == 0);
    }
}

#[test]
fn eq_sees_one_bit_exactly_below_the_width() {
    for v in WIDTHS {
        let from = if v > 70 { v - 70 } else { 0 };
        let to = if v + 70 < 2048 { v + 70 } else { 2048 };
        for bit in from..to {
            let a = [u64::MAX; 32];
            let mut b = [u64::MAX; 32];
            b[bit / 64] &= !(1u64 << (bit % 64));
            let mut z = [0u64; 32];
            set(&mut z, bit);
            let expected = bit >= v;
            assert_eq!(simd_eq(a, b, v), expected, "width {} bit {}", v, bit);
            assert_eq!(simd_eq_fallback(a, b, v), expected, "width {} bit {}", v, bit);
            assert_eq!(simd_eq(z, [0; 32], v), expected, "width {} bit {}", v, bit);
            assert_eq!(simd_is_zero(z, v), expected, "width {} bit {}", v, bit);
        }
    }
}

#[test]
fn eq_sees_every_single_bit_under_the_full_width() {
    for bit in 0..2048 {
        let mut z = [0u64; 32];
        set(&mut z, bit);
        assert!(!simd_eq(z, [0; 32], 2048));
        assert!(!simd_is_zero(z, 2048));
        assert!(!simd_eq_fallback([0; 32], z, 2048));
    }
}

#[test]
fn and_agrees_with_the_fallback_word_for_word() {
    let mut a = [0u64; 32];
    let mut b = [0u64; 32];
    let mut x: u64 = 0x9E37_79B9_7F4A_7C15;
    for i in 0..32 {
        x ^= x << 13;
        x ^= x >> 7;
        x ^= x << 17;
        a[i] = x;
        x ^= x << 13;
        x ^= x >> 7;
        x ^= x << 17;
        b[i] = x;
    }
    for v in WIDTHS {
        let fast = simd_and(a, b, v);
        let slow = simd_and_fallback(a, b, v);
        for i in 0..32 {
            assert_eq!(slow[i], a[i] & b[i]);
        }
        assert!(simd_eq(fast, slow, v));
    }
    assert_eq!(simd_and([0; 32], [u64::MAX; 32], 2048), [0; 32]);
    assert_eq!(simd_and([u64::MAX; 32], [u64::MAX; 32], 2048), [u64::MAX; 32]);
}

#[test]
fn and_is_not_one_of_its_arguments() {
    let mut a = [0u64; 32];
    let mut b = [0u64; 32];
    a[3] = 0b1100;
    b[3] = 0b1010;
    let r = simd_and(a, b, 2048);
    assert_eq!(r[3], 0b1000);
    assert!(r != a);
    assert!(r != b);
}
