use nulnet::number::{parse_u64, to_decimal, to_decimal_padded};
use nulnet::text::{
    contains, join, lines, remove_all, same, same_ignoring_case, split, splitn, strip_prefix,
    to_lower, trim, trim_end_of, trim_of, trim_start_of, words, CharClass,
};

/// Texts of up to five characters out of a small alphabet that has the
/// characters that matter.
fn samples() -> Vec<String> {
    let alphabet = ['a', 'R', '(', ')', ' ', '\t', '\n', '\r', ',', '"', '\u{a0}', 'é'];
    let mut all = vec![String::new()];
    let mut seed: u64 = 1;
    for _ in 0..4000 {
        let mut s = String::new();
        seed = seed.wrapping_mul(6364136223846793005).wrapping_add(1442695040888963407);
        let n = (seed >> 60) as usize % 8;
        for _ in 0..n {
            seed = seed.wrapping_mul(6364136223846793005).wrapping_add(1442695040888963407);
            s.push(alphabet[(seed >> 33) as usize % alphabet.len()]);
        }
        all.push(s);
    }
    all
}

#[test]
fn white_space_is_the_unicode_property() {
    for n in 0..=0x10ffffu32 {
        if let Some(c) = char::from_u32(n) {
            assert_eq!(CharClass::White.contains(c), c.is_whitespace(), "{:x}", n);
        }
    }
}

#[test]
fn cutting_agrees_with_std() {
    for s in samples() {
        assert_eq!(trim(&s), s.trim());
        assert_eq!(trim_of(&s, CharClass::Just('"')), s.trim_matches('"'));
        assert_eq!(trim_start_of(&s, CharClass::Just('a')), s.trim_start_matches('a'));
        assert_eq!(trim_end_of(&s, CharClass::Just(',')), s.trim_end_matches(','));
        assert_eq!(split(&s, ','), s.split(',').collect::<Vec<_>>());
        for n in 0..4 {
            assert_eq!(splitn(&s, n, ','), s.splitn(n, ',').collect::<Vec<_>>());
        }
        assert_eq!(lines(&s), s.lines().collect::<Vec<_>>());
        assert_eq!(words(&s), s.split_whitespace().collect::<Vec<_>>());
        assert_eq!(join(&words(&s), "; "), s.split_whitespace().collect::<Vec<_>>().join("; "));
    }
}

#[test]
fn searching_agrees_with_std() {
    for s in samples() {
        for pat in ["a", "(R)", ", ", "aa", "aRa", "é"] {
            assert_eq!(contains(&s, pat), s.contains(pat));
            assert_eq!(strip_prefix(&s, pat).as_deref(), s.strip_prefix(pat));
            assert_eq!(remove_all(&s, pat), s.replace(pat, ""));
        }
        assert!(contains(&s, ""));
        assert_eq!(to_lower(&s), s.to_ascii_lowercase());
        assert!(same(&s, s.as_str()));
        assert!(same_ignoring_case(&s, &s.to_ascii_uppercase()));
    }
    assert!(!same("a", "b"));
    assert!(!same("a", "ab"));
    assert!(!same_ignoring_case("é", "É"));
}

#[test]
fn occurrences_are_removed_from_the_left() {
    assert_eq!(remove_all("aaa", "aa"), "a");
    assert_eq!(remove_all("(R(R))", "(R)"), "(R)");
}

#[test]
fn numbers_are_read_as_std_reads_them() {
    for s in [
        "", "0", "7", "+7", "-7", "++7", "+", "007", " 7", "7 ", "1_0", "18446744073709551615",
        "18446744073709551616", "99999999999999999999", "٣", "1a",
    ] {
        assert_eq!(parse_u64(s), s.parse::<u64>().ok(), "{:?}", s);
    }
}

#[test]
fn numbers_are_read_back() {
    for n in [0u64, 9, 10, 99, 100, 12345, 1 << 53, u64::MAX] {
        assert_eq!(to_decimal(n as u128), n.to_string());
        assert_eq!(parse_u64(&to_decimal(n as u128)), Some(n));
    }
    assert_eq!(to_decimal(u128::MAX), u128::MAX.to_string());
    assert_eq!(to_decimal_padded(7, 3), "007");
    assert_eq!(to_decimal_padded(1234, 3), "234");
    assert_eq!(to_decimal_padded(5, 0), "");
}
