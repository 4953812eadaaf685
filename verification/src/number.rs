//! Whole numbers in decimal: writing them and reading them back.

use crate::text::{chars_of, comes_before, lemma_same_code, lemma_text_less_total, text_less};
use vstd::prelude::*;

verus! {

pub open spec fn is_digit(c: char) -> bool {
    '0' as u32 <= c as u32 <= '9' as u32
}

/// The number that one digit stands for.
pub open spec fn digit_value(c: char) -> nat {
    (c as u32 - '0' as u32) as nat
}

/// The digit for a number below ten.
pub open spec fn digit_char(n: nat) -> char {
    (n + 48) as char
}

/// The number that a run of digits spells.
pub open spec fn digits_value(s: Seq<char>) -> nat
    decreases s.len(),
{
    if s.len() == 0 {
        0
    } else {
        digits_value(s.drop_last()) * 10 + digit_value(s.last())
    }
}

pub open spec fn all_digits(s: Seq<char>) -> bool {
    forall|i: int| 0 <= i < s.len() ==> is_digit(#[trigger] s[i])
}

/// `n` in decimal, without leading zeros.
pub open spec fn decimal(n: nat) -> Seq<char>
    decreases n,
{
    if n < 10 {
        seq![digit_char(n)]
    } else {
        decimal(n / 10).push(digit_char(n % 10))
    }
}

/// `n` in decimal with exactly `width` digits; digits above those are lost.
pub open spec fn decimal_padded(n: nat, width: nat) -> Seq<char>
    decreases width,
{
    if width == 0 {
        seq![]
    } else {
        decimal_padded(n / 10, (width - 1) as nat).push(digit_char(n % 10))
    }
}

/// What a text means as a 64-bit number: digits, with or without a plus sign
/// before them, that spell a number in range.
pub open spec fn parse_u64_spec(s: Seq<char>) -> Option<u64> {
    let digits = if s.len() > 0 && s[0] == '+' {
        s.drop_first()
    } else {
        s
    };
    if digits.len() > 0 && all_digits(digits) && digits_value(digits) <= u64::MAX {
        Some(digits_value(digits) as u64)
    } else {
        None
    }
}

proof fn lemma_digits_value_monotone(s: Seq<char>, i: int)
    requires
        0 <= i <= s.len(),
    ensures
        digits_value(s.take(i)) <= digits_value(s),
    decreases s.len() - i,
{
    if i < s.len() {
        assert(s.take(i + 1).drop_last() =~= s.take(i));
        lemma_digits_value_monotone(s, i + 1);
    } else {
        assert(s.take(i) =~= s);
    }
}

/// Reads a number that is written in decimal.
pub fn parse_u64(s: &str) -> (res: Option<u64>)
    ensures
        res == parse_u64_spec(s@),
{
    let chars = chars_of(s);
    let start: usize = if chars.len() > 0 && chars[0] == '+' {
        1
    } else {
        0
    };
    let ghost digits = s@.skip(start as int);
    assert(start == 0 ==> digits =~= s@);
    assert(start == 1 ==> digits =~= s@.drop_first());
    if chars.len() == start {
        return None;
    }
    let mut value: u64 = 0;
    let mut i: usize = start;
    assert(digits.take(0) =~= Seq::<char>::empty());
    while i < chars.len()
        invariant
            start <= i <= chars@.len(),
            chars@ == s@,
            start <= s@.len(),
            digits == s@.skip(start as int),
            digits.len() > 0,
            start == 0 ==> digits == s@ && s@[0] != '+',
            start == 1 ==> digits == s@.drop_first() && s@[0] == '+',
            start <= 1,
            forall|j: int| 0 <= j < i - start ==> is_digit(#[trigger] digits[j]),
            value == digits_value(digits.take(i - start)),
        decreases chars@.len() - i,
    {
        let c: char = chars[i];
        assert(c == digits[i - start]);
        let n: u32 = c as u32;
        if n < 48 || n > 57 {
            assert(!is_digit(digits[i - start]));
            return None;
        }
        let d: u64 = (n - 48) as u64;
        proof {
            let more = digits.take(i - start + 1);
            assert(more.drop_last() =~= digits.take(i - start));
            assert(more.last() == c);
            lemma_digits_value_monotone(digits, i - start + 1);
        }
        if value > (u64::MAX - d) / 10 {
            return None;
        }
        value = value * 10 + d;
        i += 1;
    }
    assert(digits.take(i - start) =~= digits);
    Some(value)
}

/// The digit for a number below ten.
fn digit(n: u128) -> (c: char)
    requires
        n < 10,
    ensures
        c == digit_char(n as nat),
{
    (n as u8 + 48) as char
}

/// `n` in decimal.
pub fn to_decimal(n: u128) -> (res: String)
    ensures
        res@ == decimal(n as nat),
    decreases n,
{
    let mut res = if n < 10 {
        String::new()
    } else {
        to_decimal(n / 10)
    };
    res.push(digit(n % 10));
    assert(n < 10 ==> res@ =~= seq![digit_char(n as nat)]);
    res
}

/// `n` in decimal with exactly `width` digits.
pub fn to_decimal_padded(n: u128, width: usize) -> (res: String)
    ensures
        res@ == decimal_padded(n as nat, width as nat),
    decreases width,
{
    if width == 0 {
        return String::new();
    }
    let mut res = to_decimal_padded(n / 10, width - 1);
    res.push(digit(n % 10));
    res
}

/// Decimal text is made of digits, at least one, and spells the number it
/// was written for.
pub proof fn decimal_reads_back(n: nat)
    ensures
        decimal(n).len() > 0,
        all_digits(decimal(n)),
        digits_value(decimal(n)) == n,
    decreases n,
{
    if n < 10 {
        assert(decimal(n).drop_last() =~= Seq::<char>::empty());
        reveal_with_fuel(digits_value, 2);
    } else {
        decimal_reads_back(n / 10);
        assert(decimal(n).drop_last() =~= decimal(n / 10));
        assert forall|i: int| 0 <= i < decimal(n).len() implies is_digit(
            #[trigger] decimal(n)[i],
        ) by {
            if i < decimal(n / 10).len() {
                assert(is_digit(decimal(n / 10)[i]));
            }
        }
    }
}

/// A number that is written in decimal is read back as itself.
pub proof fn parse_reads_back_decimal(n: u64)
    ensures
        parse_u64_spec(decimal(n as nat)) == Some(n),
{
    decimal_reads_back(n as nat);
    assert(is_digit(decimal(n as nat)[0]));
}

/// Ten to the power of `n`.
pub open spec fn power_of_ten(n: nat) -> nat
    decreases n,
{
    if n == 0 {
        1
    } else {
        10 * power_of_ten((n - 1) as nat)
    }
}

/// A number lies below the power of ten that its digits allow; where its first
/// digit is no zero, it is at least the power of ten below that.
proof fn lemma_magnitude(s: Seq<char>)
    requires
        all_digits(s),
    ensures
        digits_value(s) < power_of_ten(s.len()),
        s.len() > 0 && s[0] != '0' ==> digits_value(s) >= power_of_ten((s.len() - 1) as nat),
    decreases s.len(),
{
    if s.len() > 0 {
        lemma_magnitude(s.drop_last());
        assert(is_digit(s.last()));
        if s.len() == 1 {
            assert(s.last() == s[0]);
            assert(digits_value(s.drop_last()) == 0);
            lemma_same_code(s[0], '0');
        } else {
            assert(s.drop_last()[0] == s[0]);
        }
    }
}

proof fn lemma_power_monotone(m: nat, n: nat)
    requires
        m <= n,
    ensures
        power_of_ten(m) <= power_of_ten(n),
    decreases n - m,
{
    if m < n {
        lemma_power_monotone(m, (n - 1) as nat);
    }
}

/// The first digit counts as often as the power of ten behind it.
proof fn lemma_first_digit(s: Seq<char>)
    requires
        s.len() > 0,
        all_digits(s),
    ensures
        digits_value(s) == digit_value(s[0]) * power_of_ten((s.len() - 1) as nat) + digits_value(
            s.drop_first(),
        ),
    decreases s.len(),
{
    assert(is_digit(s[0]));
    let d = digit_value(s[0]);
    if s.len() == 1 {
        assert(s.drop_last() =~= Seq::<char>::empty());
        assert(s.drop_first() =~= Seq::<char>::empty());
        reveal_with_fuel(digits_value, 2);
        assert(d * power_of_ten(0) == d) by (nonlinear_arith)
            requires
                power_of_ten(0) == 1,
        ;
    } else {
        let fewer = s.drop_last();
        lemma_first_digit(fewer);
        assert(fewer.drop_first() =~= s.drop_first().drop_last());
        let p = power_of_ten((s.len() - 2) as nat);
        assert(d * (10 * p) == (d * p) * 10) by (nonlinear_arith);
    }
}

/// Numbers of as many digits are ordered as their digits are.
proof fn lemma_same_length(a: Seq<char>, b: Seq<char>)
    requires
        all_digits(a),
        all_digits(b),
        a.len() == b.len(),
        text_less(a, b),
    ensures
        digits_value(a) < digits_value(b),
    decreases a.len(),
{
    lemma_first_digit(a);
    lemma_first_digit(b);
    let x = a.drop_first();
    let y = b.drop_first();
    let p = power_of_ten((a.len() - 1) as nat);
    assert(is_digit(a[0]) && is_digit(b[0]));
    assert(all_digits(x)) by {
        assert(forall|i: int| 0 <= i < x.len() ==> x[i] == a[i + 1]);
    }
    assert(all_digits(y)) by {
        assert(forall|i: int| 0 <= i < y.len() ==> y[i] == b[i + 1]);
    }
    if a[0] == b[0] {
        lemma_same_length(x, y);
    } else {
        lemma_magnitude(x);
        let d = digit_value(a[0]);
        let e = digit_value(b[0]);
        assert(d * p + p <= e * p) by (nonlinear_arith)
            requires
                d + 1 <= e,
        ;
    }
}

/// The first index that no zero stands at.
fn skip_zeros(chars: &Vec<char>) -> (res: usize)
    requires
        all_digits(chars@),
    ensures
        res <= chars@.len(),
        all_digits(chars@.skip(res as int)),
        digits_value(chars@.skip(res as int)) == digits_value(chars@),
        res < chars@.len() ==> chars@[res as int] != '0',
{
    let mut i: usize = 0;
    assert(chars@.skip(0) =~= chars@);
    while i < chars.len() && chars[i] == '0'
        invariant
            i <= chars@.len(),
            all_digits(chars@),
            digits_value(chars@.skip(i as int)) == digits_value(chars@),
        decreases chars@.len() - i,
    {
        proof {
            let rest = chars@.skip(i as int);
            assert(forall|j: int| 0 <= j < rest.len() ==> rest[j] == chars@[i + j]);
            lemma_first_digit(rest);
            assert(rest.drop_first() =~= chars@.skip(i + 1));
            let p = power_of_ten((rest.len() - 1) as nat);
            assert(0 * p == 0) by (nonlinear_arith);
        }
        i += 1;
    }
    proof {
        let rest = chars@.skip(i as int);
        assert(forall|j: int| 0 <= j < rest.len() ==> rest[j] == chars@[i + j]);
    }
    i
}

/// Whether the number that the digits `a` spell is less than the one that `b`
/// spells, however long they are.
pub fn digits_less(a: &str, b: &str) -> (res: bool)
    requires
        all_digits(a@),
        all_digits(b@),
    ensures
        res == (digits_value(a@) < digits_value(b@)),
{
    let x = chars_of(a);
    let y = chars_of(b);
    let i: usize = skip_zeros(&x);
    let j: usize = skip_zeros(&y);
    let ghost u = x@.skip(i as int);
    let ghost v = y@.skip(j as int);
    proof {
        lemma_magnitude(u);
        lemma_magnitude(v);
        assert(u.len() > 0 ==> u[0] == x@[i as int]);
        assert(v.len() > 0 ==> v[0] == y@[j as int]);
    }
    if x.len() - i != y.len() - j {
        proof {
            if u.len() < v.len() {
                lemma_power_monotone(u.len(), (v.len() - 1) as nat);
            } else {
                lemma_power_monotone(v.len(), (u.len() - 1) as nat);
            }
        }
        x.len() - i < y.len() - j
    } else {
        proof {
            lemma_text_less_total(u, v);
            if text_less(u, v) {
                lemma_same_length(u, v);
            } else if text_less(v, u) {
                lemma_same_length(v, u);
            }
        }
        comes_before(&x, i, &y, j)
    }
}

/// Whether a text is a run of digits, at least one.
pub open spec fn is_numeric(s: Seq<char>) -> bool {
    s.len() > 0 && all_digits(s)
}

/// Whether a text is a run of digits.
pub fn numeric(s: &str) -> (res: bool)
    ensures
        res == is_numeric(s@),
{
    let chars = chars_of(s);
    let mut i: usize = 0;
    while i < chars.len()
        invariant
            i <= chars@.len(),
            chars@ == s@,
            forall|j: int| 0 <= j < i ==> is_digit(#[trigger] s@[j]),
        decreases chars@.len() - i,
    {
        let n: u32 = chars[i] as u32;
        if n < 48 || n > 57 {
            assert(!is_digit(s@[i as int]));
            return false;
        }
        i += 1;
    }
    chars.len() > 0
}

// ─── What holds of numbers ───────────────────────────────────────────────────

/// Each digit counts ten times what the next one does, and a digit is one of
/// the ten ASCII ones.
pub proof fn digits_count_tenfold(s: Seq<char>, c: char)
    ensures
        digits_value(seq![]) == 0,
        is_digit(c) <==> 48 <= c as u32 <= 57,
        is_digit(c) ==> digits_value(s.push(c)) == 10 * digits_value(s) + (c as u32 - 48),
        is_numeric(s) <==> s.len() > 0 && forall|i: int|
            0 <= i < s.len() ==> 48 <= (#[trigger] s[i]) as u32 <= 57,
{
    assert(s.push(c).drop_last() =~= s);
    assert forall|i: int| 0 <= i < s.len() implies (is_digit(#[trigger] s[i]) <==> 48
        <= s[i] as u32 <= 57) by {}
}

/// A number is written without leading zeros.
pub proof fn decimal_has_no_leading_zeros(n: nat)
    ensures
        decimal(n).len() > 0,
        decimal(n)[0] == '0' ==> n == 0 && decimal(n).len() == 1,
    decreases n,
{
    if n >= 10 {
        decimal_has_no_leading_zeros(n / 10);
    }
}

/// A number that has room in a width is written with exactly that many digits,
/// and they spell it.
pub proof fn padded_decimal_reads_back(n: nat, width: nat)
    ensures
        decimal_padded(n, width).len() == width,
        all_digits(decimal_padded(n, width)),
        n < power_of_ten(width) ==> digits_value(decimal_padded(n, width)) == n,
    decreases width,
{
    if width > 0 {
        padded_decimal_reads_back(n / 10, (width - 1) as nat);
        let s = decimal_padded(n, width);
        assert(s.drop_last() =~= decimal_padded(n / 10, (width - 1) as nat));
        assert forall|i: int| 0 <= i < s.len() implies is_digit(#[trigger] s[i]) by {
            if i < width - 1 {
                assert(is_digit(decimal_padded(n / 10, (width - 1) as nat)[i]));
            }
        }
    }
}

/// What is read as a number: digits, with or without one plus sign before
/// them, that spell one in range; nothing else.
pub proof fn only_digits_are_read(s: Seq<char>)
    ensures
        is_numeric(s) && digits_value(s) <= u64::MAX ==> {
            &&& parse_u64_spec(s) == Some(digits_value(s) as u64)
            &&& parse_u64_spec(seq!['+'] + s) == Some(digits_value(s) as u64)
        },
        !is_numeric(s) ==> parse_u64_spec(seq!['+'] + s) is None,
        !is_numeric(s) && (s.len() == 0 || s[0] != '+') ==> parse_u64_spec(s) is None,
        digits_value(s) > u64::MAX ==> parse_u64_spec(seq!['+'] + s) is None,
        is_numeric(s) && digits_value(s) > u64::MAX ==> parse_u64_spec(s) is None,
{
    assert((seq!['+'] + s).drop_first() =~= s);
    if is_numeric(s) {
        assert(is_digit(s[0]));
    }
}

} // verus!
