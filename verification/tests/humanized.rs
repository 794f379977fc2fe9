use dice::humanized::{HumanizedBytes, HumanizedBytesPerSecond, HumanizedCount};

#[allow(clippy::identity_op)]
#[test]
fn test_humanized() {
    fn t(value: u64, expected: &str, expected_fixed_width: &str) {
        assert_eq!(HumanizedBytes::new(value).to_string(), expected);
        if value <= (1 << 9) {
            assert_eq!(HumanizedBytes::FIXED_WIDTH_WIDTH, expected_fixed_width.len());
        }
        assert_eq!(HumanizedBytes::fixed_width(value).to_string(), expected_fixed_width);
    }

    t(0, "0B", "  0B  ");
    t(1, "1B", "  1B  ");
    t(10, "10B", " 10B  ");
    t(345, "345B", "345B  ");
    t(1023, "1.0KiB", "1.0KiB");
    t(1024, "1.0KiB", "1.0KiB");
    t(1536, "1.5KiB", "1.5KiB");
    t(10 * 1024 - 1, "10KiB", " 10KiB");
    t(10 * 1024 + 0, "10KiB", " 10KiB");
    t(654 * 1024 + 0, "654KiB", "654KiB");
    t(1024 * 1024 - 1, "1.0MiB", "1.0MiB");
    t(1024 * 1024 + 0, "1.0MiB", "1.0MiB");
    t(1024 * 1024 * 1024 - 1, "1.0GiB", "1.0GiB");
    t(2034 * 1024 * 1024 + 0, "2.0GiB", "2.0GiB");
    t(100500 * 1024 * 1024 * 1024, "100500GiB", "100500GiB");
}

#[test]
fn test_humanized_bytes_per_second() {
    fn t(value: u64, expected: &str, expected_fixed_width: &str) {
        assert_eq!(HumanizedBytesPerSecond::new(value).to_string(), expected);
        if value <= (1 << 9) {
            assert_eq!(
                HumanizedBytesPerSecond::FIXED_WIDTH_WIDTH,
                expected_fixed_width.len()
            );
        }
        assert_eq!(
            HumanizedBytesPerSecond::fixed_width(value).to_string(),
            expected_fixed_width
        );
    }

    t(0, "0B/s", "  0B/s  ");
    t(22, "22B/s", " 22B/s  ");
    t(1024 * 1024, "1.0MiB/s", "1.0MiB/s");
}

#[test]
fn test_humanized_count() {
    fn t(value: u64, expected: &str, expected_fixed_width: &str) {
        assert_eq!(HumanizedCount::new(value).to_string(), expected);
        assert_eq!(HumanizedCount::fixed_width(value).to_string(), expected_fixed_width);
    }

    t(0, "0", "  0 ");
    t(22, "22", " 22 ");
    t(1000000, "1.0M", "1.0M");
}

/// The double precision computation that the renderings stand for.
fn in_doubles(value: u64, factor: f64, one_label: &str, labels: &[&str], width: usize, fixed: bool) -> String {
    let mut val = value as f64;
    let mut label = one_label;
    let mut rest = labels.iter();
    loop {
        if val < factor {
            break;
        }
        let next = match rest.next() {
            Some(l) => l,
            None => break,
        };
        val /= factor;
        label = next;
    }
    if f64::round(val) >= 1000.0 {
        if let Some(next) = rest.next() {
            val = 1.0;
            label = next;
        }
    }
    let point = value >= 1000 && f64::round(val) < 10.0;
    match (point, fixed) {
        (false, false) => format!("{:.0}{}", val, label),
        (true, false) => format!("{:.1}{}", val, label),
        (false, true) => format!("{:>3.0}{:<w$}", val, label, w = width),
        (true, true) => format!("{:>3.1}{:<w$}", val, label, w = width),
    }
}

fn sample_values() -> Vec<u64> {
    let mut values: Vec<u64> = Vec::new();
    for v in 0..20_000u64 {
        values.push(v);
    }
    let mut scale: u64 = 1;
    for _ in 0..20 {
        for m in 0..2_000u64 {
            values.push(scale.wrapping_mul(m));
            values.push(scale.wrapping_mul(m).wrapping_add(scale / 2));
            values.push(scale.wrapping_mul(m).wrapping_sub(1));
        }
        scale = scale.wrapping_mul(10);
    }
    let mut bit: u64 = 1;
    for _ in 0..64 {
        for d in 0..40u64 {
            values.push(bit.wrapping_add(d));
            values.push(bit.wrapping_sub(d));
            values.push(bit.wrapping_mul(3).wrapping_add(d));
            values.push((bit / 2).wrapping_mul(3).wrapping_add(d * (bit / 2048)));
        }
        bit = bit.wrapping_mul(2);
    }
    let mut x: u64 = 0x9E37_79B9_7F4A_7C15;
    for _ in 0..50_000 {
        x ^= x << 13;
        x ^= x >> 7;
        x ^= x << 17;
        values.push(x);
        values.push(x >> (x & 63));
    }
    values.push(u64::MAX);
    values.push(u64::MAX - 1);
    values
}

#[test]
fn bytes_agree_with_doubles() {
    for v in sample_values() {
        assert_eq!(
            HumanizedBytes::new(v).to_string(),
            in_doubles(v, 1024.0, "B", &["KiB", "MiB", "GiB"], 3, false),
            "{}", v
        );
        assert_eq!(
            HumanizedBytes::fixed_width(v).to_string(),
            in_doubles(v, 1024.0, "B", &["KiB", "MiB", "GiB"], 3, true),
            "{}", v
        );
    }
}

#[test]
fn rates_agree_with_doubles() {
    for v in sample_values() {
        assert_eq!(
            HumanizedBytesPerSecond::new(v).to_string(),
            in_doubles(v, 1024.0, "B/s", &["KiB/s", "MiB/s", "GiB/s"], 5, false),
            "{}", v
        );
        assert_eq!(
            HumanizedBytesPerSecond::fixed_width(v).to_string(),
            in_doubles(v, 1024.0, "B/s", &["KiB/s", "MiB/s", "GiB/s"], 5, true),
            "{}", v
        );
    }
}

#[test]
fn counts_agree_with_doubles() {
    for v in sample_values() {
        assert_eq!(
            HumanizedCount::new(v).to_string(),
            in_doubles(v, 1000.0, "", &["K", "M", "B"], 1, false),
            "{}", v
        );
        assert_eq!(
            HumanizedCount::fixed_width(v).to_string(),
            in_doubles(v, 1000.0, "", &["K", "M", "B"], 1, true),
            "{}", v
        );
    }
}

#[test]
fn ties_go_to_the_even_digit() {
    assert_eq!(HumanizedBytes::new(10 * 1024 + 512).to_string(), "10KiB");
    assert_eq!(HumanizedBytes::new(11 * 1024 + 512).to_string(), "12KiB");
    assert_eq!(HumanizedCount::new(1250).to_string(), "1.2K");
    assert_eq!(HumanizedCount::new(1750).to_string(), "1.8K");
    assert_eq!(HumanizedCount::new(12_500).to_string(), "12K");
}

#[test]
fn decimal_quotients_round_as_doubles() {
    assert_eq!(HumanizedCount::new(1050).to_string(), "1.1K");
    assert_eq!(HumanizedCount::new(1150).to_string(), "1.1K");
    assert_eq!(HumanizedCount::new(1350).to_string(), "1.4K");
}

#[test]
fn nearly_thousand_moves_to_the_next_unit() {
    assert_eq!(HumanizedCount::new(999).to_string(), "999");
    assert_eq!(HumanizedCount::new(999_499).to_string(), "999K");
    assert_eq!(HumanizedCount::new(999_500).to_string(), "1.0M");
    assert_eq!(HumanizedBytes::new(999).to_string(), "999B");
    assert_eq!(HumanizedBytes::new(1000).to_string(), "1.0KiB");
    assert_eq!(HumanizedCount::new(u64::MAX).to_string(), "18446744074B");
    assert_eq!(HumanizedBytes::new(u64::MAX).to_string(), "17179869184GiB");
}
