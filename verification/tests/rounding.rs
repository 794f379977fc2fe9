use dice::humanized::preformat;
use dice::rounding::{div_round_half_even, round_to_double, spacing, ONE};
use dice::text::{digit_char, push_decimal, push_spaces};

#[test]
fn halves_go_to_the_even_neighbour() {
    assert_eq!(div_round_half_even(0, 4), 0);
    assert_eq!(div_round_half_even(1, 4), 0);
    assert_eq!(div_round_half_even(2, 4), 0);
    assert_eq!(div_round_half_even(3, 4), 1);
    assert_eq!(div_round_half_even(6, 4), 2);
    assert_eq!(div_round_half_even(10, 4), 2);
    assert_eq!(div_round_half_even(14, 4), 4);
    assert_eq!(div_round_half_even(7, 1), 7);
}

#[test]
fn the_spacing_doubles_with_each_bit_beyond_53() {
    assert_eq!(spacing(0), 1);
    assert_eq!(spacing((1 << 53) - 1), 1);
    assert_eq!(spacing(1 << 53), 2);
    assert_eq!(spacing((1 << 54) - 1), 2);
    assert_eq!(spacing(1 << 54), 4);
    assert_eq!(spacing(1 << 63), 1 << 11);
}

#[test]
fn rounding_to_a_double_keeps_53_bits() {
    // Exact below 2^53.
    assert_eq!(round_to_double(12345, 1), 12345);
    assert_eq!(round_to_double((1 << 53) - 1, 1), (1 << 53) - 1);
    // Above, odd numbers go to the nearest even mantissa.
    assert_eq!(round_to_double((1 << 53) + 1, 1), 1 << 53);
    assert_eq!(round_to_double((1 << 53) + 3, 1), (1 << 53) + 4);
    assert_eq!(round_to_double(u64::MAX as u128, 1), 1 << 64);
    assert_eq!(round_to_double(u64::MAX as u128, 1) as f64, u64::MAX as f64);
    // A thousandth of 1050, in units of 2^-52: the double nearest to 1.05.
    assert_eq!(round_to_double(1050 * ONE, 1000), 1.05f64.to_bits() as u128 & (2 * ONE - 1) | ONE);
    assert_eq!(round_to_double(4096 * ONE, 1024), 4 * ONE);
}

#[test]
fn rounding_agrees_with_double_division() {
    let mut x: u64 = 0x2545_F491_4F6C_DD1D;
    for _ in 0..20_000 {
        x ^= x << 13;
        x ^= x >> 7;
        x ^= x << 17;
        let value = x >> (x & 63);
        let double = value as f64;
        let whole = round_to_double(value as u128, 1);
        assert_eq!(whole as f64, double);
        assert_eq!(whole, double as u128);
        if double >= 1000.0 {
            let quotient = double / 1000.0;
            let counted = round_to_double(whole * ONE, 1000);
            // Both sides are whole multiples of 2^-52 with 53 bits.
            assert_eq!(counted as f64 / ONE as f64, quotient, "{}", value);
        }
    }
}

#[test]
fn values_are_scaled_to_their_unit() {
    let labels = ["KiB", "MiB", "GiB"];
    let p = preformat(0, 1024, "B", &labels);
    assert_eq!((p.val, p.label, p.point), (0, "B", false));
    let p = preformat(999, 1024, "B", &labels);
    assert_eq!((p.val, p.label, p.point), (999 * ONE, "B", false));
    let p = preformat(1000, 1024, "B", &labels);
    assert_eq!((p.val, p.label, p.point), (ONE, "KiB", true));
    let p = preformat(1536, 1024, "B", &labels);
    assert_eq!((p.val, p.label, p.point), (ONE + ONE / 2, "KiB", true));
    let p = preformat(10 * 1024, 1024, "B", &labels);
    assert_eq!((p.val, p.label, p.point), (10 * ONE, "KiB", false));
    let p = preformat(5 << 40, 1024, "B", &labels);
    assert_eq!((p.val, p.label, p.point), (5120 * ONE, "GiB", false));
    let p = preformat(5000, 1000, "", &[]);
    assert_eq!((p.val, p.label, p.point), (5000 * ONE, "", false));
    let p = preformat(2_000_000, 1000, "", &["K"]);
    assert_eq!((p.val, p.label, p.point), (2000 * ONE, "K", false));
}

#[test]
fn digits_and_spaces_are_appended() {
    assert_eq!(digit_char(0), '0');
    assert_eq!(digit_char(7), '7');
    assert_eq!(digit_char(9), '9');
    let mut s = String::from("n=");
    push_decimal(&mut s, 0);
    push_spaces(&mut s, 2);
    push_decimal(&mut s, 1234567890);
    push_spaces(&mut s, 0);
    push_decimal(&mut s, u128::MAX);
    assert_eq!(s, "n=0  1234567890340282366920938463463374607431768211455");
}
