use nulnet::rounding::{
    gb_hundredths, percent_hundredths, round_half_even, size_hundredths, thousandths, to_double,
};

/// Numbers of all magnitudes.
fn numbers() -> Vec<u64> {
    let mut all = vec![0, 1, 2, 3, 1000, 1023, 1024, 1025, u64::MAX, u64::MAX - 1];
    for k in 0..64 {
        all.push(1 << k);
        all.push((1u64 << k).wrapping_add(1));
        all.push((1u64 << k).wrapping_sub(1));
    }
    let mut seed: u64 = 7;
    for k in 0..3000u32 {
        seed = seed.wrapping_mul(6364136223846793005).wrapping_add(1442695040888963407);
        all.push(seed >> (k % 64));
    }
    all
}

#[test]
fn whole_numbers_become_doubles() {
    for n in numbers() {
        assert_eq!(to_double(n as u128), n as f64 as u128);
        let large = (n as u128) << 20;
        assert_eq!(to_double(large), large as f64 as u128);
    }
    assert_eq!(to_double((1 << 53) + 1), 1 << 53);
    assert_eq!(to_double((1 << 53) + 3), (1 << 53) + 4);
}

#[test]
fn percentages_are_those_of_doubles() {
    let all = numbers();
    for (i, &used) in all.iter().enumerate() {
        for step in [1usize, 7, 64, 501] {
            let total = all[(i * step + step) % all.len()];
            if total == 0 {
                continue;
            }
            let expected = ((used as f64 / total as f64) * 100.0 * 100.0).round();
            assert_eq!(percent_hundredths(used, total), expected as u128, "{} {}", used, total);
        }
    }
    assert_eq!(percent_hundredths(4844, 16384), 2957);
    assert_eq!(percent_hundredths(0, 5), 0);
    assert_eq!(percent_hundredths(1, 3), 3333);
    assert_eq!(percent_hundredths(2, 3), 6667);
}

#[test]
fn a_share_is_at_most_the_whole() {
    for total in numbers() {
        if total > 0 {
            assert_eq!(percent_hundredths(total, total), 10000);
            assert!(percent_hundredths(total - 1, total) <= 10000);
            assert!(percent_hundredths(total / 2, total) <= 10000);
        }
    }
}

#[test]
fn gigabytes_are_those_of_doubles() {
    for n in numbers() {
        let expected = (n as f64 / 1_073_741_824.0 * 100.0).round();
        assert_eq!(gb_hundredths(n), expected as u128, "{}", n);
    }
    assert_eq!(gb_hundredths(17_169_973_580), 1599);
}

#[test]
fn thousandths_are_written_as_doubles_are() {
    for n in numbers() {
        let t = thousandths(n);
        let text = format!("{}.{:03}", t / 1000, t % 1000);
        assert_eq!(text, format!("{:.3}", n as f64 / 1000.0));
    }
    assert_eq!(thousandths(2397), 2397);
}

#[test]
fn sizes_are_written_as_doubles_are() {
    for n in numbers() {
        for unit in [1u64 << 10, 1 << 20, 1 << 30, 1 << 40] {
            let h = size_hundredths(n as u128, unit);
            let text = format!("{}.{:02}", h / 100, h % 100);
            assert_eq!(text, format!("{:.2}", n as f64 / unit as f64));
        }
    }
}

#[test]
fn halves_go_to_the_even_number() {
    assert_eq!(round_half_even(1, 2), 0);
    assert_eq!(round_half_even(3, 2), 2);
    assert_eq!(round_half_even(5, 2), 2);
    assert_eq!(round_half_even(7, 4), 2);
}
