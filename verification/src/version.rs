//! Versions and their precedence: three numbers, then what comes before a
//! release.

use crate::number::{
    all_digits, decimal, decimal_reads_back, digits_less, digits_value, is_digit, is_numeric,
    numeric, parse_reads_back_decimal, parse_u64, parse_u64_spec, to_decimal,
};
use crate::text::{
    chars_of, comes_before, cutting_is_at_each_separator, cutting_undoes_joining, find, find_from,
    is_white_space, join_spec, lemma_find, lemma_find_is, lemma_text_less_total,
    lemma_text_less_transitive, split, split_spec, splitn, splitn_spec, string_of, text_less, trim,
    trim_end, trim_start, trim_start_of, trimmed, trimming_leaves_the_middle, views, CharClass,
};
use vstd::prelude::*;

verus! {

/// What comes before the first `c`.
pub open spec fn before_first(s: Seq<char>, c: char) -> Seq<char> {
    s.take(find(s, CharClass::Just(c)) as int)
}

/// What comes after the first `c`, if there is one.
pub open spec fn after_first(s: Seq<char>, c: char) -> Option<Seq<char>> {
    let i = find(s, CharClass::Just(c)) as int;
    if i < s.len() {
        Some(s.skip(i + 1))
    } else {
        None
    }
}

/// A version without white space around it and letters `v` before it.
pub open spec fn bare(text: Seq<char>) -> Seq<char> {
    trim_start(trimmed(text), CharClass::Just('v'))
}

/// A number as semver writes it: in decimal, without leading zeros.
pub open spec fn is_plain_number(s: Seq<char>) -> bool {
    is_numeric(s) && (s[0] == '0' ==> s.len() == 1)
}

/// The characters of an identifier: ASCII letters, digits and the dash.
pub open spec fn is_identifier_char(c: char) -> bool {
    let n = c as u32;
    ||| n == '-' as u32
    ||| '0' as u32 <= n <= '9' as u32
    ||| 'A' as u32 <= n <= 'Z' as u32
    ||| 'a' as u32 <= n <= 'z' as u32
}

/// An identifier of build metadata.
pub open spec fn is_identifier(s: Seq<char>) -> bool {
    s.len() > 0 && forall|i: int| 0 <= i < s.len() ==> is_identifier_char(#[trigger] s[i])
}

/// An identifier of a pre-release: one that is a number has no leading zeros.
pub open spec fn is_prerelease_identifier(s: Seq<char>) -> bool {
    is_identifier(s) && (is_numeric(s) ==> is_plain_number(s))
}

/// The numbers of a version: major, minor and patch, with dots between them.
/// The patch number may be missing.
pub open spec fn is_core(s: Seq<char>) -> bool {
    let parts = split_spec(s, '.');
    &&& parts.len() == 2 || parts.len() == 3
    &&& forall|i: int| 0 <= i < parts.len() ==> is_plain_number(#[trigger] parts[i])
}

/// A pre-release: identifiers with dots between them.
pub open spec fn is_prerelease(s: Seq<char>) -> bool {
    let parts = split_spec(s, '.');
    forall|i: int| 0 <= i < parts.len() ==> is_prerelease_identifier(#[trigger] parts[i])
}

/// Build metadata: identifiers with dots between them.
pub open spec fn is_metadata(s: Seq<char>) -> bool {
    let parts = split_spec(s, '.');
    forall|i: int| 0 <= i < parts.len() ==> is_identifier(#[trigger] parts[i])
}

/// What comes before the build metadata: it alone decides.
pub open spec fn deciding_part(b: Seq<char>) -> Seq<char> {
    before_first(b, '+')
}

/// Whether a bare version is one by semver, but that the patch number may be
/// missing: numbers, a pre-release after a dash, build metadata after a plus
/// sign.
pub open spec fn is_semver(b: Seq<char>) -> bool {
    let d = deciding_part(b);
    &&& is_core(before_first(d, '-'))
    &&& after_first(d, '-') matches Some(prerelease) ==> is_prerelease(prerelease)
    &&& after_first(b, '+') matches Some(metadata) ==> is_metadata(metadata)
}

/// The numbers of a bare version by semver; a missing patch number is zero.
pub open spec fn semver_numbers(b: Seq<char>) -> (nat, nat, nat) {
    let parts = split_spec(before_first(deciding_part(b), '-'), '.');
    (
        digits_value(parts[0]),
        digits_value(parts[1]),
        if parts.len() > 2 {
            digits_value(parts[2])
        } else {
            0
        },
    )
}

/// The number that a part of any other text gives; zero where there is none.
pub open spec fn number_in(parts: Seq<Seq<char>>, i: int) -> nat {
    if i < parts.len() {
        match parse_u64_spec(parts[i]) {
            Some(n) => n as nat,
            None => 0,
        }
    } else {
        0
    }
}

/// The numbers that any other text gives: it is cut at its first two dots, and
/// what follows a dash in the third part does not count.
pub open spec fn loose_numbers(b: Seq<char>) -> (nat, nat, nat) {
    let parts = splitn_spec(b, 3, '.');
    (
        number_in(parts, 0),
        number_in(parts, 1),
        if parts.len() > 2 {
            number_in(seq![before_first(parts[2], '-')], 0)
        } else {
            0
        },
    )
}

/// Major, minor and patch number of a version. Text that is no version by
/// semver is read for what numbers it has.
pub open spec fn version_of(text: Seq<char>) -> (nat, nat, nat) {
    if is_semver(bare(text)) {
        semver_numbers(bare(text))
    } else {
        loose_numbers(bare(text))
    }
}

/// The identifiers of the pre-release that a version is. A release has none,
/// nor has text that is no version by semver.
pub open spec fn prerelease_of(text: Seq<char>) -> Seq<Seq<char>> {
    if is_semver(bare(text)) {
        match after_first(deciding_part(bare(text)), '-') {
            Some(prerelease) => split_spec(prerelease, '.'),
            None => seq![],
        }
    } else {
        seq![]
    }
}

/// Major numbers decide first, minor ones next, patch numbers last.
pub open spec fn is_greater(a: (nat, nat, nat), b: (nat, nat, nat)) -> bool {
    a.0 > b.0 || (a.0 == b.0 && (a.1 > b.1 || (a.1 == b.1 && a.2 > b.2)))
}

/// Whether one identifier comes before another: numbers by their value and
/// before all others, the others by their characters.
pub open spec fn identifier_less(a: Seq<char>, b: Seq<char>) -> bool {
    if is_numeric(a) && is_numeric(b) {
        digits_value(a) < digits_value(b)
    } else if is_numeric(a) || is_numeric(b) {
        is_numeric(a)
    } else {
        text_less(a, b)
    }
}

/// Whether a list of identifiers comes before another: by the first in which
/// they differ, or as a beginning of it.
pub open spec fn identifiers_less(a: Seq<Seq<char>>, b: Seq<Seq<char>>) -> bool
    decreases a.len(),
{
    if b.len() == 0 {
        false
    } else if a.len() == 0 {
        true
    } else if identifier_less(a[0], b[0]) {
        true
    } else if identifier_less(b[0], a[0]) {
        false
    } else {
        identifiers_less(a.drop_first(), b.drop_first())
    }
}

/// Whether, of two versions with the same numbers, the one with the
/// identifiers `a` outranks the one with `b`: a release outranks every
/// pre-release, and a pre-release those that come before it.
pub open spec fn outranks(a: Seq<Seq<char>>, b: Seq<Seq<char>>) -> bool {
    if b.len() == 0 {
        false
    } else if a.len() == 0 {
        true
    } else {
        identifiers_less(b, a)
    }
}

/// Whether the version `candidate` is strictly newer than `current`: by its
/// numbers, or, where both are versions by semver with the same numbers, by
/// its rank among those.
pub open spec fn is_newer(candidate: Seq<char>, current: Seq<char>) -> bool {
    ||| is_greater(version_of(candidate), version_of(current))
    ||| {
        &&& version_of(candidate) == version_of(current)
        &&& is_semver(bare(candidate)) && is_semver(bare(current))
        &&& outranks(prerelease_of(candidate), prerelease_of(current))
    }
}

/// What comes before the first `c`, and what comes after it.
fn cut_at(text: &str, c: char) -> (res: (String, Option<String>))
    ensures
        res.0@ == before_first(text@, c),
        match res.1 {
            Some(rest) => after_first(text@, c) == Some(rest@),
            None => after_first(text@, c) is None,
        },
{
    let chars = chars_of(text);
    let end: usize = find_from(&chars, 0, CharClass::Just(c));
    assert(chars@.skip(0) =~= chars@);
    assert(chars@.subrange(0, end as int) =~= chars@.take(end as int));
    let before = string_of(&chars, 0, end);
    if end < chars.len() {
        assert(chars@.subrange(end + 1, chars@.len() as int) =~= chars@.skip(end + 1));
        (before, Some(string_of(&chars, end + 1, chars.len())))
    } else {
        (before, None)
    }
}

fn plain_number(s: &str) -> (res: bool)
    ensures
        res == is_plain_number(s@),
{
    let chars = chars_of(s);
    numeric(s) && (chars[0] != '0' || chars.len() == 1)
}

fn identifier(s: &str) -> (res: bool)
    ensures
        res == is_identifier(s@),
{
    let chars = chars_of(s);
    let mut i: usize = 0;
    while i < chars.len()
        invariant
            i <= chars@.len(),
            chars@ == s@,
            forall|j: int| 0 <= j < i ==> is_identifier_char(#[trigger] s@[j]),
        decreases chars@.len() - i,
    {
        let n: u32 = chars[i] as u32;
        let fits = n == 45 || (48 <= n && n <= 57) || (65 <= n && n <= 90) || (97 <= n && n
            <= 122);
        if !fits {
            assert(!is_identifier_char(s@[i as int]));
            return false;
        }
        i += 1;
    }
    chars.len() > 0
}

fn all_plain_numbers(parts: &Vec<String>) -> (res: bool)
    ensures
        res == forall|i: int|
            0 <= i < views(parts@).len() ==> is_plain_number(#[trigger] views(parts@)[i]),
{
    let mut i: usize = 0;
    while i < parts.len()
        invariant
            i <= parts@.len(),
            forall|j: int| 0 <= j < i ==> is_plain_number(#[trigger] views(parts@)[j]),
        decreases parts@.len() - i,
    {
        assert(views(parts@)[i as int] == parts@[i as int]@);
        if !plain_number(parts[i].as_str()) {
            assert(!is_plain_number(views(parts@)[i as int]));
            return false;
        }
        i += 1;
    }
    true
}

fn all_prerelease_identifiers(parts: &Vec<String>) -> (res: bool)
    ensures
        res == forall|i: int|
            0 <= i < views(parts@).len() ==> is_prerelease_identifier(#[trigger] views(parts@)[i]),
{
    let mut i: usize = 0;
    while i < parts.len()
        invariant
            i <= parts@.len(),
            forall|j: int| 0 <= j < i ==> is_prerelease_identifier(#[trigger] views(parts@)[j]),
        decreases parts@.len() - i,
    {
        let part = parts[i].as_str();
        assert(views(parts@)[i as int] == part@);
        if !identifier(part) || (numeric(part) && !plain_number(part)) {
            assert(!is_prerelease_identifier(views(parts@)[i as int]));
            return false;
        }
        i += 1;
    }
    true
}

fn all_identifiers(parts: &Vec<String>) -> (res: bool)
    ensures
        res == forall|i: int|
            0 <= i < views(parts@).len() ==> is_identifier(#[trigger] views(parts@)[i]),
{
    let mut i: usize = 0;
    while i < parts.len()
        invariant
            i <= parts@.len(),
            forall|j: int| 0 <= j < i ==> is_identifier(#[trigger] views(parts@)[j]),
        decreases parts@.len() - i,
    {
        assert(views(parts@)[i as int] == parts@[i as int]@);
        if !identifier(parts[i].as_str()) {
            assert(!is_identifier(views(parts@)[i as int]));
            return false;
        }
        i += 1;
    }
    true
}

/// A version, taken apart. Its numbers are runs of digits.
struct Version {
    semver: bool,
    major: String,
    minor: String,
    patch: String,
    prerelease: Vec<String>,
}

impl Version {
    /// Whether the numbers are these.
    spec fn has_numbers(self, numbers: (nat, nat, nat)) -> bool {
        &&& all_digits(self.major@) && digits_value(self.major@) == numbers.0
        &&& all_digits(self.minor@) && digits_value(self.minor@) == numbers.1
        &&& all_digits(self.patch@) && digits_value(self.patch@) == numbers.2
    }

    /// Whether this is what `text` says.
    spec fn is_of(self, text: Seq<char>) -> bool {
        &&& self.semver == is_semver(bare(text))
        &&& self.has_numbers(version_of(text))
        &&& views(self.prerelease@) == prerelease_of(text)
    }
}

/// Takes a bare version apart if it is one by semver.
fn read_semver(b: &str) -> (res: Option<Version>)
    ensures
        match res {
            Some(version) => {
                &&& is_semver(b@)
                &&& version.semver
                &&& version.has_numbers(semver_numbers(b@))
                &&& views(version.prerelease@) == match after_first(deciding_part(b@), '-') {
                    Some(prerelease) => split_spec(prerelease, '.'),
                    None => seq![],
                }
            },
            None => !is_semver(b@),
        },
{
    let (deciding, metadata) = cut_at(b, '+');
    let (core, rest) = cut_at(deciding.as_str(), '-');
    let parts = split(core.as_str(), '.');
    let ghost numbers = split_spec(core@, '.');
    assert(views(parts@).len() == parts@.len());
    if (parts.len() != 2 && parts.len() != 3) || !all_plain_numbers(&parts) {
        return None;
    }
    if let Some(metadata) = metadata {
        if !all_identifiers(&split(metadata.as_str(), '.')) {
            return None;
        }
    }
    let prerelease: Vec<String> = match &rest {
        Some(rest) => split(rest.as_str(), '.'),
        None => Vec::new(),
    };
    if !all_prerelease_identifiers(&prerelease) {
        return None;
    }
    assert(rest is None ==> views(prerelease@) =~= seq![]);
    assert forall|i: int| 0 <= i < parts@.len() implies is_plain_number(
        (#[trigger] parts@[i])@,
    ) by {
        assert(views(parts@)[i] == parts@[i]@);
        assert(is_plain_number(numbers[i]));
    }
    assert(forall|i: int| 0 <= i < parts@.len() ==> numbers[i] == (#[trigger] parts@[i])@);
    Some(
        Version {
            semver: true,
            major: parts[0].clone(),
            minor: parts[1].clone(),
            patch: if parts.len() == 3 {
                parts[2].clone()
            } else {
                String::new()
            },
            prerelease,
        },
    )
}

/// The digits of the number that a text gives.
fn digits_in(text: &str) -> (res: String)
    ensures
        all_digits(res@),
        digits_value(res@) == number_in(seq![text@], 0),
{
    let n: u64 = match parse_u64(text) {
        Some(n) => n,
        None => 0,
    };
    proof {
        decimal_reads_back(n as nat);
    }
    to_decimal(n as u128)
}

/// Reads what numbers any other text has.
fn read_loose(b: &str) -> (res: Version)
    ensures
        !res.semver,
        res.has_numbers(loose_numbers(b@)),
        views(res.prerelease@) == Seq::<Seq<char>>::empty(),
{
    let parts = splitn(b, 3, '.');
    let ghost spec_parts = splitn_spec(b@, 3, '.');
    assert(views(parts@).len() == parts@.len());
    assert(forall|i: int| 0 <= i < parts@.len() ==> spec_parts[i] == (#[trigger] parts@[i])@);
    let major = if parts.len() > 0 {
        digits_in(parts[0].as_str())
    } else {
        String::new()
    };
    let minor = if parts.len() > 1 {
        digits_in(parts[1].as_str())
    } else {
        String::new()
    };
    let patch = if parts.len() > 2 {
        digits_in(cut_at(parts[2].as_str(), '-').0.as_str())
    } else {
        String::new()
    };
    let prerelease: Vec<String> = Vec::new();
    assert(views(prerelease@) =~= Seq::<Seq<char>>::empty());
    Version { semver: false, major, minor, patch, prerelease }
}

fn read_version(text: &str) -> (res: Version)
    ensures
        res.is_of(text@),
{
    let b = trim_start_of(trim(text).as_str(), CharClass::Just('v'));
    match read_semver(b.as_str()) {
        Some(version) => version,
        None => read_loose(b.as_str()),
    }
}

fn identifier_before(a: &str, b: &str) -> (res: bool)
    ensures
        res == identifier_less(a@, b@),
{
    let a_numeric = numeric(a);
    let b_numeric = numeric(b);
    if a_numeric && b_numeric {
        digits_less(a, b)
    } else if a_numeric || b_numeric {
        a_numeric
    } else {
        let x = chars_of(a);
        let y = chars_of(b);
        assert(x@.skip(0) =~= a@);
        assert(y@.skip(0) =~= b@);
        comes_before(&x, 0, &y, 0)
    }
}

fn identifiers_before(a: &Vec<String>, b: &Vec<String>) -> (res: bool)
    ensures
        res == identifiers_less(views(a@), views(b@)),
{
    let mut i: usize = 0;
    assert(views(a@).skip(0) =~= views(a@));
    assert(views(b@).skip(0) =~= views(b@));
    while i < a.len() && i < b.len()
        invariant
            i <= a@.len(),
            i <= b@.len(),
            identifiers_less(views(a@), views(b@)) == identifiers_less(
                views(a@).skip(i as int),
                views(b@).skip(i as int),
            ),
        decreases a@.len() - i,
    {
        let ghost x = views(a@).skip(i as int);
        let ghost y = views(b@).skip(i as int);
        assert(x[0] == a@[i as int]@ && y[0] == b@[i as int]@);
        assert(x.drop_first() =~= views(a@).skip(i + 1));
        assert(y.drop_first() =~= views(b@).skip(i + 1));
        if identifier_before(a[i].as_str(), b[i].as_str()) {
            return true;
        }
        if identifier_before(b[i].as_str(), a[i].as_str()) {
            return false;
        }
        i += 1;
    }
    i < b.len()
}

/// Whether the version `candidate` is strictly newer than `current`.
pub(crate) fn newer(candidate: &str, current: &str) -> (res: bool)
    ensures
        res == is_newer(candidate@, current@),
{
    let a = read_version(candidate);
    let b = read_version(current);
    assert(views(a.prerelease@).len() == a.prerelease@.len());
    assert(views(b.prerelease@).len() == b.prerelease@.len());
    if digits_less(b.major.as_str(), a.major.as_str()) {
        true
    } else if digits_less(a.major.as_str(), b.major.as_str()) {
        false
    } else if digits_less(b.minor.as_str(), a.minor.as_str()) {
        true
    } else if digits_less(a.minor.as_str(), b.minor.as_str()) {
        false
    } else if digits_less(b.patch.as_str(), a.patch.as_str()) {
        true
    } else if digits_less(a.patch.as_str(), b.patch.as_str()) {
        false
    } else if !a.semver || !b.semver || b.prerelease.len() == 0 {
        false
    } else if a.prerelease.len() == 0 {
        true
    } else {
        identifiers_before(&b.prerelease, &a.prerelease)
    }
}

// ─── What holds of versions ──────────────────────────────────────────────────

/// Identifiers are ordered, where those that are numbers of the same value
/// stand in the same place.
proof fn lemma_identifier_order(a: Seq<char>, b: Seq<char>, c: Seq<char>)
    ensures
        !identifier_less(a, a),
        identifier_less(a, b) ==> !identifier_less(b, a),
        identifier_less(a, b) && !identifier_less(c, b) ==> identifier_less(a, c),
        !identifier_less(b, a) && identifier_less(b, c) ==> identifier_less(a, c),
{
    lemma_text_less_total(a, a);
    lemma_text_less_total(a, b);
    lemma_text_less_total(b, c);
    if text_less(a, b) && text_less(b, c) {
        lemma_text_less_transitive(a, b, c);
    }
}

proof fn lemma_identifiers_order(a: Seq<Seq<char>>, b: Seq<Seq<char>>, c: Seq<Seq<char>>)
    ensures
        !identifiers_less(a, a),
        identifiers_less(a, b) ==> !identifiers_less(b, a),
        identifiers_less(a, b) && identifiers_less(b, c) ==> identifiers_less(a, c),
    decreases a.len(),
{
    if a.len() > 0 {
        lemma_identifier_order(a[0], a[0], a[0]);
        lemma_identifiers_order(a.drop_first(), a.drop_first(), a.drop_first());
        if b.len() > 0 {
            lemma_identifier_order(a[0], b[0], a[0]);
            lemma_identifiers_order(a.drop_first(), b.drop_first(), c.drop_first());
            if c.len() > 0 {
                lemma_identifier_order(a[0], b[0], c[0]);
                lemma_identifier_order(c[0], b[0], a[0]);
                lemma_identifier_order(b[0], c[0], a[0]);
                lemma_identifier_order(b[0], a[0], c[0]);
                lemma_identifier_order(a[0], c[0], b[0]);
                lemma_identifier_order(c[0], a[0], b[0]);
            }
        }
    }
}

/// No version is newer than itself; of two versions at most one is newer; and
/// what is newer than a newer version is newer.
pub proof fn newer_is_a_strict_order(a: Seq<char>, b: Seq<char>, c: Seq<char>)
    ensures
        !is_newer(a, a),
        is_newer(a, b) ==> !is_newer(b, a),
        is_newer(a, b) && is_newer(b, c) ==> is_newer(a, c),
{
    let (x, y, z) = (prerelease_of(a), prerelease_of(b), prerelease_of(c));
    lemma_identifiers_order(x, x, x);
    lemma_identifiers_order(y, x, x);
    lemma_identifiers_order(z, y, x);
}

/// Where no `c` stands in `w`, the first `c` of `w + s` is the first of `s`.
proof fn lemma_cut_behind(w: Seq<char>, s: Seq<char>, c: char)
    requires
        forall|i: int| 0 <= i < w.len() ==> #[trigger] w[i] != c,
    ensures
        before_first(w + s, c) == w + before_first(s, c),
        after_first(w + s, c) == after_first(s, c),
{
    let k = CharClass::Just(c);
    let t = w + s;
    let f = find(s, k) as int;
    lemma_find(s, k);
    assert forall|j: int| 0 <= j < w.len() + f implies !k.holds(#[trigger] t[j]) by {
        if j < w.len() {
            assert(t[j] == w[j]);
        } else {
            assert(t[j] == s[j - w.len()]);
        }
    }
    assert(f < s.len() ==> t[w.len() + f] == s[f]);
    lemma_find_is(t, k, w.len() + f);
    assert(t.take(w.len() + f) =~= w + s.take(f));
    assert(f < s.len() ==> t.skip(w.len() + f + 1) =~= s.skip(f + 1));
}

proof fn lemma_trim_end_append(p: Seq<char>, s: Seq<char>)
    requires
        p.len() > 0,
        !CharClass::White.holds(p.last()),
    ensures
        trim_end(p + s, CharClass::White) == p + trim_end(s, CharClass::White),
    decreases s.len(),
{
    let t = p + s;
    if s.len() > 0 && CharClass::White.holds(s.last()) {
        assert(t.last() == s.last());
        assert(t.drop_last() =~= p + s.drop_last());
        lemma_trim_end_append(p, s.drop_last());
    } else if s.len() == 0 {
        assert(t =~= p);
    } else {
        assert(t.last() == s.last());
    }
}

proof fn lemma_trim_end_start(s: Seq<char>)
    ensures
        trim_end(s, CharClass::White).len() > 0 ==> s.len() > 0 && trim_end(
            s,
            CharClass::White,
        )[0] == s[0],
    decreases s.len(),
{
    if s.len() > 0 && CharClass::White.holds(s.last()) {
        lemma_trim_end_start(s.drop_last());
    }
}

/// A letter `v` before a version makes no difference.
pub proof fn leading_v_makes_no_difference(s: Seq<char>)
    requires
        s.len() > 0 ==> !CharClass::White.holds(s[0]),
    ensures
        bare(seq!['v'] + s) == bare(s),
        version_of(seq!['v'] + s) == version_of(s),
        prerelease_of(seq!['v'] + s) == prerelease_of(s),
{
    let t = seq!['v'] + s;
    lemma_trim_end_append(seq!['v'], s);
    assert(trim_start(t, CharClass::White) == t);
    assert(trim_start(s, CharClass::White) == s);
    let u = trimmed(t);
    assert(u == seq!['v'] + trimmed(s));
    assert(u.drop_first() =~= trimmed(s));
    assert(bare(t) == bare(s));
}

/// `first`, a dot, and `rest` are cut at that dot.
proof fn lemma_cut(first: Seq<char>, rest: Seq<char>, n: nat)
    requires
        forall|i: int| 0 <= i < first.len() ==> #[trigger] first[i] != '.',
    ensures
        n > 1 ==> splitn_spec(first + seq!['.'] + rest, n, '.') == seq![first] + splitn_spec(
            rest,
            (n - 1) as nat,
            '.',
        ),
        split_spec(first + seq!['.'] + rest, '.') == seq![first] + split_spec(rest, '.'),
{
    let s = first + seq!['.'] + rest;
    let i = first.len() as int;
    assert forall|j: int| 0 <= j < i implies !CharClass::Just('.').holds(#[trigger] s[j]) by {
        assert(s[j] == first[j]);
    }
    lemma_find_is(s, CharClass::Just('.'), i);
    assert(s.take(i) =~= first);
    assert(s.skip(i + 1) =~= rest);
}

/// What has no dot is not cut.
proof fn lemma_whole(s: Seq<char>)
    requires
        forall|i: int| 0 <= i < s.len() ==> #[trigger] s[i] != '.',
    ensures
        split_spec(s, '.') == seq![s],
{
    assert forall|j: int| 0 <= j < s.len() implies !CharClass::Just('.').holds(#[trigger] s[j]) by {
        assert(s[j] != '.');
    }
    lemma_find_is(s, CharClass::Just('.'), s.len() as int);
}

/// A number in decimal is written as semver writes it, and holds neither white
/// space, nor a letter, a dot or a sign.
proof fn lemma_decimal(n: nat)
    ensures
        is_plain_number(decimal(n)),
        digits_value(decimal(n)) == n,
        forall|i: int|
            0 <= i < decimal(n).len() ==> {
                let c = #[trigger] decimal(n)[i];
                !CharClass::White.holds(c) && c != 'v' && c != '.' && c != '-' && c != '+'
            },
{
    decimal_reads_back(n);
    lemma_first_digit_of(n);
    assert forall|i: int| 0 <= i < decimal(n).len() implies {
        let c = #[trigger] decimal(n)[i];
        !CharClass::White.holds(c) && c != 'v' && c != '.' && c != '-' && c != '+'
    } by {
        assert(is_digit(decimal(n)[i]));
    }
}

proof fn lemma_first_digit_of(n: nat)
    ensures
        decimal(n).len() > 0,
        decimal(n)[0] == '0' ==> n == 0 && decimal(n).len() == 1,
    decreases n,
{
    if n >= 10 {
        lemma_first_digit_of(n / 10);
    }
}

/// Three numbers, with dots between them.
pub open spec fn written(major: nat, minor: nat, patch: nat) -> Seq<char> {
    decimal(major) + seq!['.'] + (decimal(minor) + seq!['.'] + decimal(patch))
}

/// Whether a text can stand before a dash or a plus sign: it has neither, and
/// neither white space nor a letter `v` at its ends.
spec fn is_stem(w: Seq<char>) -> bool {
    &&& w.len() > 0
    &&& !CharClass::White.holds(w[0])
    &&& w[0] != 'v'
    &&& !CharClass::White.holds(w.last())
    &&& forall|i: int| 0 <= i < w.len() ==> #[trigger] w[i] != '-' && w[i] != '+'
}

proof fn lemma_written(major: nat, minor: nat, patch: nat)
    ensures
        is_stem(written(major, minor, patch)),
        is_core(written(major, minor, patch)),
        split_spec(written(major, minor, patch), '.') == seq![
            decimal(major),
            decimal(minor),
            decimal(patch),
        ],
{
    let a = decimal(major);
    let b = decimal(minor);
    let c = decimal(patch);
    lemma_decimal(major);
    lemma_decimal(minor);
    lemma_decimal(patch);
    let w = written(major, minor, patch);
    assert(w[0] == a[0]);
    assert(w.last() == c.last());
    assert forall|i: int| 0 <= i < w.len() implies #[trigger] w[i] != '-' && w[i] != '+' by {
        if i < a.len() {
            assert(w[i] == a[i]);
        } else if a.len() < i < a.len() + 1 + b.len() {
            assert(w[i] == b[i - a.len() - 1]);
        } else if i > a.len() + 1 + b.len() {
            assert(w[i] == c[i - a.len() - b.len() - 2]);
        }
    }
    lemma_cut(a, b + seq!['.'] + c, 3);
    lemma_cut(b, c, 2);
    lemma_whole(c);
    assert(split_spec(w, '.') =~= seq![a, b, c]);
}

/// How a bare text begins with `w`, and goes on with a dash or a plus sign.
proof fn lemma_stem(w: Seq<char>, suffix: Seq<char>)
    requires
        is_stem(w),
        suffix.len() > 0 ==> suffix[0] == '-' || suffix[0] == '+',
    ensures
        bare(w + suffix) == w + trim_end(suffix, CharClass::White),
        ({
            let kept = trim_end(suffix, CharClass::White);
            let tail = before_first(kept, '+');
            &&& deciding_part(w + kept) == w + tail
            &&& after_first(w + kept, '+') == after_first(kept, '+')
            &&& before_first(w + tail, '-') == w
            &&& after_first(w + tail, '-') == after_first(tail, '-')
            &&& tail.len() > 0 ==> tail[0] == '-'
        }),
{
    let white = CharClass::White;
    let t = w + suffix;
    let kept = trim_end(suffix, white);
    lemma_trim_end_start(suffix);
    assert(t[0] == w[0]);
    assert(trim_start(t, white) == t);
    lemma_trim_end_append(w, suffix);
    let u = w + kept;
    assert(trimmed(t) == u);
    assert(u[0] == w[0]);
    assert(trim_start(u, CharClass::Just('v')) == u);
    lemma_cut_behind(w, kept, '+');
    let tail = before_first(kept, '+');
    lemma_find(kept, CharClass::Just('+'));
    assert(tail.len() > 0 ==> tail[0] == kept[0] && tail[0] == '-');
    lemma_cut_behind(w, tail, '-');
    lemma_find_is(tail, CharClass::Just('-'), 0);
    assert(before_first(tail, '-') =~= seq![]);
    assert(w + before_first(tail, '-') =~= w);
}

/// A text of identifiers holds neither white space nor a plus sign.
proof fn lemma_identifier_text(s: Seq<char>)
    requires
        is_metadata(s),
    ensures
        s.len() > 0,
        forall|i: int| 0 <= i < s.len() ==> (#[trigger] s[i]) != '+' && !is_white_space(s[i]),
    decreases s.len(),
{
    let parts = split_spec(s, '.');
    let dot = CharClass::Just('.');
    let i = find(s, dot) as int;
    lemma_find(s, dot);
    if i < s.len() {
        let rest = s.skip(i + 1);
        assert(is_metadata(rest)) by {
            let more = split_spec(rest, '.');
            assert forall|k: int| 0 <= k < more.len() implies is_identifier(#[trigger] more[k]) by {
                assert(parts[k + 1] == more[k]);
            }
        }
        lemma_identifier_text(rest);
        assert(is_identifier(parts[0]));
        assert forall|k: int| 0 <= k < s.len() implies (#[trigger] s[k]) != '+' && !is_white_space(
            s[k],
        ) by {
            if k < i {
                assert(is_identifier_char(parts[0][k]));
            } else if k > i {
                assert(s[k] == rest[k - i - 1]);
            }
        }
    } else {
        assert(parts[0] == s);
        assert(is_identifier(parts[0]));
        assert forall|k: int| 0 <= k < s.len() implies (#[trigger] s[k]) != '+' && !is_white_space(
            s[k],
        ) by {
            assert(is_identifier_char(parts[0][k]));
        }
    }
}

/// What may follow the numbers of a version by semver: a pre-release after a
/// dash, or build metadata after a plus sign, or both, or nothing.
pub open spec fn tail_of(prerelease: Option<Seq<char>>, metadata: Option<Seq<char>>) -> Seq<char> {
    let first = match prerelease {
        Some(p) => seq!['-'] + p,
        None => seq![],
    };
    match metadata {
        Some(m) => first + (seq!['+'] + m),
        None => first,
    }
}

/// Whether these are a pre-release and build metadata by semver, as far as they
/// are there.
pub open spec fn is_tail(prerelease: Option<Seq<char>>, metadata: Option<Seq<char>>) -> bool {
    &&& prerelease matches Some(p) ==> is_prerelease(p)
    &&& metadata matches Some(m) ==> is_metadata(m)
}

proof fn lemma_prerelease_is_metadata(p: Seq<char>)
    requires
        is_prerelease(p),
    ensures
        is_metadata(p),
{
    let parts = split_spec(p, '.');
    assert forall|i: int| 0 <= i < parts.len() implies is_identifier(#[trigger] parts[i]) by {
        assert(is_prerelease_identifier(parts[i]));
    }
}

/// The parts of a tail are found again.
proof fn lemma_tail(prerelease: Option<Seq<char>>, metadata: Option<Seq<char>>)
    requires
        is_tail(prerelease, metadata),
    ensures
        ({
            let tail = tail_of(prerelease, metadata);
            &&& trim_end(tail, CharClass::White) == tail
            &&& before_first(tail, '+') == tail_of(prerelease, None)
            &&& after_first(tail, '+') == metadata
            &&& after_first(tail_of(prerelease, None), '-') == prerelease
            &&& tail.len() > 0 ==> tail[0] == '-' || tail[0] == '+'
        }),
{
    let tail = tail_of(prerelease, metadata);
    let first = tail_of(prerelease, None);
    let plus = CharClass::Just('+');
    let dash = CharClass::Just('-');
    if let Some(p) = prerelease {
        lemma_prerelease_is_metadata(p);
        lemma_identifier_text(p);
        assert(first[0] == '-');
        assert(first.last() == p.last());
        lemma_find_is(first, dash, 0);
        assert(first.skip(1) =~= p);
        assert forall|i: int| 0 <= i < first.len() implies #[trigger] first[i] != '+' by {
            if i > 0 {
                assert(first[i] == p[i - 1]);
            }
        }
    } else {
        lemma_find_is(first, dash, 0);
    }
    let last = match metadata {
        Some(m) => seq!['+'] + m,
        None => seq![],
    };
    assert(tail =~= first + last);
    if let Some(m) = metadata {
        lemma_identifier_text(m);
        assert(last[0] == '+');
        assert(tail.last() == m.last());
    }
    lemma_find_is(last, plus, 0);
    lemma_cut_behind(first, last, '+');
    assert(before_first(last, '+') =~= seq![]);
    assert(first + before_first(last, '+') =~= first);
    if let Some(m) = metadata {
        assert(last.skip(1) =~= m);
    }
}

/// A version by semver is read as it is written: its numbers, however large,
/// and its pre-release.
pub proof fn semver_reads_back(
    major: nat,
    minor: nat,
    patch: nat,
    prerelease: Option<Seq<char>>,
    metadata: Option<Seq<char>>,
)
    requires
        is_tail(prerelease, metadata),
    ensures
        ({
            let text = written(major, minor, patch) + tail_of(prerelease, metadata);
            &&& is_semver(bare(text))
            &&& version_of(text) == (major, minor, patch)
            &&& prerelease_of(text) == match prerelease {
                Some(p) => split_spec(p, '.'),
                None => seq![],
            }
        }),
{
    let w = written(major, minor, patch);
    lemma_written(major, minor, patch);
    lemma_tail(prerelease, metadata);
    lemma_stem(w, tail_of(prerelease, metadata));
    lemma_decimal(major);
    lemma_decimal(minor);
    lemma_decimal(patch);
}

/// Build metadata makes no difference.
pub proof fn build_metadata_makes_no_difference(
    major: nat,
    minor: nat,
    patch: nat,
    prerelease: Option<Seq<char>>,
    metadata: Seq<char>,
    other: Seq<char>,
)
    requires
        is_tail(prerelease, Some(metadata)),
    ensures
        ({
            let plain = written(major, minor, patch) + tail_of(prerelease, None);
            let built = written(major, minor, patch) + tail_of(prerelease, Some(metadata));
            &&& is_newer(built, other) == is_newer(plain, other)
            &&& is_newer(other, built) == is_newer(other, plain)
        }),
{
    semver_reads_back(major, minor, patch, prerelease, None);
    semver_reads_back(major, minor, patch, prerelease, Some(metadata));
}

/// A release is newer than each of its own pre-releases, and none of them is
/// newer than it.
pub proof fn release_outranks_its_prereleases(
    major: nat,
    minor: nat,
    patch: nat,
    prerelease: Seq<char>,
    metadata: Option<Seq<char>>,
)
    requires
        is_tail(Some(prerelease), metadata),
    ensures
        ({
            let release = written(major, minor, patch) + tail_of(None, metadata);
            let early = written(major, minor, patch) + tail_of(Some(prerelease), metadata);
            &&& is_newer(release, early)
            &&& !is_newer(early, release)
        }),
{
    semver_reads_back(major, minor, patch, None, metadata);
    semver_reads_back(major, minor, patch, Some(prerelease), metadata);
    assert(split_spec(prerelease, '.').len() > 0);
}

/// A version that is written without its patch number has the patch number
/// zero.
pub proof fn missing_patch_is_zero(
    major: nat,
    minor: nat,
    prerelease: Option<Seq<char>>,
    metadata: Option<Seq<char>>,
)
    requires
        is_tail(prerelease, metadata),
    ensures
        version_of(
            decimal(major) + seq!['.'] + decimal(minor) + tail_of(prerelease, metadata),
        ) == (major, minor, 0nat),
{
    let a = decimal(major);
    let b = decimal(minor);
    let s = a + seq!['.'] + b;
    lemma_decimal(major);
    lemma_decimal(minor);
    assert(s[0] == a[0]);
    assert(s.last() == b.last());
    assert forall|i: int| 0 <= i < s.len() implies #[trigger] s[i] != '-' && s[i] != '+' by {
        if i < a.len() {
            assert(s[i] == a[i]);
        } else if i > a.len() {
            assert(s[i] == b[i - a.len() - 1]);
        }
    }
    lemma_cut(a, b, 3);
    lemma_whole(b);
    assert(split_spec(s, '.') =~= seq![a, b]);
    lemma_tail(prerelease, metadata);
    lemma_stem(s, tail_of(prerelease, metadata));
}

/// Whatever follows the patch number after a dash, a version is read as the
/// numbers it is written with.
pub proof fn version_reads_back(major: u64, minor: u64, patch: u64, suffix: Seq<char>)
    requires
        suffix.len() > 0 ==> suffix[0] == '-',
    ensures
        version_of(written(major as nat, minor as nat, patch as nat) + suffix) == (
            major as nat,
            minor as nat,
            patch as nat,
        ),
{
    let a = decimal(major as nat);
    let b = decimal(minor as nat);
    let c = decimal(patch as nat);
    let w = written(major as nat, minor as nat, patch as nat);
    let kept = trim_end(suffix, CharClass::White);
    lemma_decimal(major as nat);
    lemma_decimal(minor as nat);
    lemma_decimal(patch as nat);
    lemma_written(major as nat, minor as nat, patch as nat);
    lemma_stem(w, suffix);
    lemma_trim_end_start(suffix);
    let t = w + kept;
    assert(loose_numbers(t) == (major as nat, minor as nat, patch as nat)) by {
        let last = c + kept;
        assert(t =~= a + seq!['.'] + (b + seq!['.'] + last));
        lemma_cut(a, b + seq!['.'] + last, 3);
        lemma_cut(b, last, 2);
        assert(splitn_spec(last, 1, '.') == seq![last]);
        assert(splitn_spec(t, 3, '.') =~= seq![a, b, last]);
        lemma_cut_behind(c, kept, '-');
        lemma_find_is(kept, CharClass::Just('-'), 0);
        assert(before_first(kept, '-') =~= seq![]);
        assert(c + before_first(kept, '-') =~= c);
        parse_reads_back_decimal(major);
        parse_reads_back_decimal(minor);
        parse_reads_back_decimal(patch);
    }
}

/// White space around a version and letters `v` before it do not count, and
/// nothing else is lost of it.
pub proof fn bare_version_is_what_is_between(
    left: Seq<char>,
    letters: Seq<char>,
    version: Seq<char>,
    right: Seq<char>,
)
    requires
        forall|i: int| 0 <= i < left.len() ==> is_white_space(#[trigger] left[i]),
        forall|i: int| 0 <= i < letters.len() ==> #[trigger] letters[i] == 'v',
        forall|i: int| 0 <= i < right.len() ==> is_white_space(#[trigger] right[i]),
        version.len() > 0,
        !is_white_space(version[0]) && version[0] != 'v',
        !is_white_space(version.last()),
    ensures
        bare(left + (letters + version) + right) == version,
{
    let middle = letters + version;
    assert(middle[0] == if letters.len() > 0 {
        letters[0]
    } else {
        version[0]
    });
    assert(middle.last() == version.last());
    trimming_leaves_the_middle(left, middle, right, CharClass::White);
    lemma_without_letters(letters, version);
}

proof fn lemma_without_letters(letters: Seq<char>, version: Seq<char>)
    requires
        forall|i: int| 0 <= i < letters.len() ==> #[trigger] letters[i] == 'v',
        version.len() > 0,
        version[0] != 'v',
    ensures
        trim_start(letters + version, CharClass::Just('v')) == version,
    decreases letters.len(),
{
    let s = letters + version;
    if letters.len() > 0 {
        assert(s[0] == letters[0]);
        assert(s.drop_first() =~= letters.drop_first() + version);
        assert forall|i: int| 0 <= i < letters.drop_first().len() implies (
        #[trigger] letters.drop_first()[i]) == 'v' by {
            assert(letters[i + 1] == 'v');
        }
        lemma_without_letters(letters.drop_first(), version);
    } else {
        assert(s =~= version);
    }
}

/// Numbers decide first: major ones, then minor ones, then patch numbers,
/// whatever follows them.
pub proof fn numbers_decide_first(
    a: (nat, nat, nat),
    p: Option<Seq<char>>,
    m: Option<Seq<char>>,
    b: (nat, nat, nat),
    q: Option<Seq<char>>,
    n: Option<Seq<char>>,
)
    requires
        is_tail(p, m),
        is_tail(q, n),
    ensures
        ({
            let x = written(a.0, a.1, a.2) + tail_of(p, m);
            let y = written(b.0, b.1, b.2) + tail_of(q, n);
            &&& a.0 > b.0 ==> is_newer(x, y) && !is_newer(y, x)
            &&& a.0 == b.0 && a.1 > b.1 ==> is_newer(x, y) && !is_newer(y, x)
            &&& a.0 == b.0 && a.1 == b.1 && a.2 > b.2 ==> is_newer(x, y) && !is_newer(y, x)
            &&& a == b && p is None && q is None ==> !is_newer(x, y)
        }),
{
    semver_reads_back(a.0, a.1, a.2, p, m);
    semver_reads_back(b.0, b.1, b.2, q, n);
}

/// Of two pre-releases of the same version, the one whose identifiers come
/// later is newer.
pub proof fn later_prerelease_is_newer(
    major: nat,
    minor: nat,
    patch: nat,
    p: Seq<char>,
    q: Seq<char>,
    m: Option<Seq<char>>,
    n: Option<Seq<char>>,
)
    requires
        is_tail(Some(p), m),
        is_tail(Some(q), n),
    ensures
        is_newer(
            written(major, minor, patch) + tail_of(Some(p), m),
            written(major, minor, patch) + tail_of(Some(q), n),
        ) <==> identifiers_less(split_spec(q, '.'), split_spec(p, '.')),
{
    semver_reads_back(major, minor, patch, Some(p), m);
    semver_reads_back(major, minor, patch, Some(q), n);
}

/// Identifiers are compared one by one: the first that differ decide, and where
/// none does, more of them come later.
pub proof fn first_different_identifier_decides(
    common: Seq<Seq<char>>,
    x: Seq<char>,
    more: Seq<Seq<char>>,
    y: Seq<char>,
    others: Seq<Seq<char>>,
)
    ensures
        identifier_less(x, y) ==> identifiers_less(
            common + seq![x] + more,
            common + seq![y] + others,
        ),
        identifier_less(y, x) ==> !identifiers_less(
            common + seq![x] + more,
            common + seq![y] + others,
        ),
        identifiers_less(common, common + seq![x] + more),
        !identifiers_less(common + seq![x] + more, common),
        !identifiers_less(common, common),
    decreases common.len(),
{
    let a = common + seq![x] + more;
    let b = common + seq![y] + others;
    lemma_identifier_order(x, y, x);
    if common.len() > 0 {
        let rest = common.drop_first();
        assert(a[0] == common[0] && b[0] == common[0]);
        assert(a.drop_first() =~= rest + seq![x] + more);
        assert(b.drop_first() =~= rest + seq![y] + others);
        lemma_identifier_order(common[0], common[0], common[0]);
        first_different_identifier_decides(rest, x, more, y, others);
    } else {
        assert(a[0] == x && b[0] == y);
    }
}

/// Identifiers that are numbers are ordered by their values, and come before
/// all others; the others are ordered as texts.
pub proof fn identifiers_are_numbers_or_texts(
    m: nat,
    n: nat,
    text: Seq<char>,
    other: Seq<char>,
)
    requires
        !is_numeric(text),
        !is_numeric(other),
    ensures
        identifier_less(decimal(m), decimal(n)) <==> m < n,
        identifier_less(decimal(m), text),
        !identifier_less(text, decimal(m)),
        identifier_less(text, other) <==> text_less(text, other),
{
    decimal_reads_back(m);
    decimal_reads_back(n);
}

/// What is a version by semver: numbers; then, after a dash, a pre-release; and,
/// after a plus sign, build metadata. Each part has to be what it should.
pub proof fn semver_has_three_parts(
    numbers: Seq<char>,
    prerelease: Option<Seq<char>>,
    metadata: Option<Seq<char>>,
)
    requires
        forall|i: int| 0 <= i < numbers.len() ==> #[trigger] numbers[i] != '-' && numbers[i] != '+',
        prerelease matches Some(p) ==> forall|i: int| 0 <= i < p.len() ==> #[trigger] p[i] != '+',
    ensures
        is_semver(numbers + tail_of(prerelease, metadata)) <==> {
            &&& is_core(numbers)
            &&& prerelease matches Some(p) ==> is_prerelease(p)
            &&& metadata matches Some(m) ==> is_metadata(m)
        },
{
    let first = tail_of(prerelease, None);
    let last = match metadata {
        Some(m) => seq!['+'] + m,
        None => seq![],
    };
    let tail = tail_of(prerelease, metadata);
    assert(tail =~= first + last);
    lemma_cut_behind(numbers, tail, '+');
    assert forall|i: int| 0 <= i < first.len() implies #[trigger] first[i] != '+' by {
        if i > 0 {
            assert(first[i] == prerelease->0[i - 1]);
        }
    }
    lemma_cut_behind(first, last, '+');
    lemma_find_is(last, CharClass::Just('+'), 0);
    assert(before_first(last, '+') =~= seq![]);
    assert(first + before_first(last, '+') =~= first);
    if let Some(m) = metadata {
        assert(last.skip(1) =~= m);
    }
    lemma_cut_behind(numbers, first, '-');
    lemma_find_is(first, CharClass::Just('-'), 0);
    assert(before_first(first, '-') =~= seq![]);
    assert(numbers + before_first(first, '-') =~= numbers);
    if let Some(p) = prerelease {
        assert(first.skip(1) =~= p);
    }
}

/// Whether no zero stands before other characters at the start of a text.
pub open spec fn has_no_leading_zeros(s: Seq<char>) -> bool {
    s.len() > 1 ==> s[0] != '0'
}

/// Two or three numbers without leading zeros are the numbers of a version. The
/// identifiers of a pre-release and of build metadata are not empty and made of
/// ASCII letters, digits and dashes; those of a pre-release that are numbers
/// have no leading zeros.
pub proof fn parts_of_a_version_are_checked(parts: Seq<Seq<char>>)
    requires
        parts.len() > 0,
        forall|i: int, j: int|
            0 <= i < parts.len() && 0 <= j < parts[i].len() ==> #[trigger] parts[i][j] != '.',
    ensures
        ({
            let s = join_spec(parts, seq!['.']);
            &&& is_core(s) <==> (parts.len() == 2 || parts.len() == 3) && forall|i: int|
                0 <= i < parts.len() ==> is_numeric(#[trigger] parts[i]) && has_no_leading_zeros(
                    parts[i],
                )
            &&& is_prerelease(s) <==> forall|i: int|
                0 <= i < parts.len() ==> is_identifier(#[trigger] parts[i]) && (is_numeric(parts[i])
                    ==> has_no_leading_zeros(parts[i]))
            &&& is_metadata(s) <==> forall|i: int|
                0 <= i < parts.len() ==> is_identifier(#[trigger] parts[i])
        }),
{
    cutting_undoes_joining(parts, '.');
    let s = join_spec(parts, seq!['.']);
    assert forall|i: int| 0 <= i < parts.len() implies (is_plain_number(#[trigger] parts[i]) <==> (
    is_numeric(parts[i]) && has_no_leading_zeros(parts[i]))) by {}
    assert forall|i: int| 0 <= i < parts.len() implies (is_prerelease_identifier(
        #[trigger] parts[i],
    ) <==> (is_identifier(parts[i]) && (is_numeric(parts[i]) ==> has_no_leading_zeros(
        parts[i],
    )))) by {}
}

/// An identifier is not empty, and made of ASCII letters, digits and dashes.
pub proof fn identifiers_are_made_of_these(s: Seq<char>)
    ensures
        is_identifier(s) <==> s.len() > 0 && forall|i: int|
            0 <= i < s.len() ==> {
                let c = (#[trigger] s[i]) as u32;
                c == 45 || 48 <= c <= 57 || 65 <= c <= 90 || 97 <= c <= 122
            },
{
    assert forall|i: int| 0 <= i < s.len() implies (is_identifier_char(#[trigger] s[i]) <==> {
        let c = s[i] as u32;
        c == 45 || 48 <= c <= 57 || 65 <= c <= 90 || 97 <= c <= 122
    }) by {}
}

/// Text that is no version by semver is read for the numbers between its first
/// two dots; what is no number counts as zero, and so does what is missing.
/// What follows a dash behind the second dot does not count.
pub proof fn other_text_is_read_for_its_numbers(
    a: Seq<char>,
    b: Seq<char>,
    c: Seq<char>,
    rest: Seq<char>,
)
    requires
        forall|i: int| 0 <= i < a.len() ==> #[trigger] a[i] != '.',
        forall|i: int| 0 <= i < b.len() ==> #[trigger] b[i] != '.',
        forall|i: int| 0 <= i < c.len() ==> #[trigger] c[i] != '-',
    ensures
        ({
            let number = |s: Seq<char>|
                match parse_u64_spec(s) {
                    Some(n) => n as nat,
                    None => 0nat,
                };
            let dot = seq!['.'];
            &&& loose_numbers(a) == (number(a), 0nat, 0nat)
            &&& loose_numbers(a + dot + b) == (number(a), number(b), 0nat)
            &&& loose_numbers(a + dot + (b + dot + c)) == (number(a), number(b), number(c))
            &&& loose_numbers(a + dot + (b + dot + (c + seq!['-'] + rest))) == (
                number(a),
                number(b),
                number(c),
            )
        }),
{
    let dot = seq!['.'];
    let dash = CharClass::Just('-');
    let more = c + seq!['-'] + rest;
    cutting_is_at_each_separator(a, b, '.', 3);
    cutting_is_at_each_separator(a, b, '.', 1);
    cutting_is_at_each_separator(b, c, '.', 2);
    cutting_is_at_each_separator(b, c, '.', 0);
    cutting_is_at_each_separator(b, more, '.', 0);
    cutting_is_at_each_separator(a, b + dot + c, '.', 1);
    cutting_is_at_each_separator(a, b + dot + more, '.', 1);
    assert(splitn_spec(b, 2, '.') == seq![b]);
    assert(splitn_spec(a + dot + b, 3, '.') =~= seq![a, b]);
    assert(splitn_spec(b + dot + c, 2, '.') =~= seq![b, c]);
    assert(splitn_spec(a + dot + (b + dot + c), 3, '.') =~= seq![a, b, c]);
    assert(splitn_spec(b + dot + more, 2, '.') =~= seq![b, more]);
    assert(splitn_spec(a + dot + (b + dot + more), 3, '.') =~= seq![a, b, more]);
    assert forall|i: int| 0 <= i < c.len() implies !dash.holds(#[trigger] c[i]) by {}
    lemma_find_is(c, dash, c.len() as int);
    assert(c.take(c.len() as int) =~= c);
    let tail = seq!['-'] + rest;
    assert(more =~= c + tail);
    lemma_cut_behind(c, tail, '-');
    lemma_find_is(tail, dash, 0);
    assert(before_first(tail, '-') =~= seq![]);
    assert(c + before_first(tail, '-') =~= c);
}

/// Where one of two texts is no version by semver, their numbers alone decide.
pub proof fn numbers_decide_among_other_texts(a: Seq<char>, b: Seq<char>)
    requires
        !is_semver(bare(a)) || !is_semver(bare(b)),
    ensures
        ({
            let (x, y) = (version_of(a), version_of(b));
            is_newer(a, b) <==> x.0 > y.0 || (x.0 == y.0 && x.1 > y.1) || (x.0 == y.0 && x.1 == y.1
                && x.2 > y.2)
        }),
        !is_semver(bare(a)) ==> version_of(a) == loose_numbers(bare(a)),
        !is_semver(bare(b)) ==> version_of(b) == loose_numbers(bare(b)),
{
}

} // verus!
