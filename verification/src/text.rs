//! Text as sequences of characters: trimming, splitting and searching.

use vstd::prelude::*;

verus! {

/// `String::push` puts one character at the end of the string.
pub assume_specification[ String::push ](s: &mut String, c: char)
    ensures
        final(s)@ == old(s)@.push(c),
;

/// The characters with the Unicode property `White_Space`.
pub open spec fn is_white_space(c: char) -> bool {
    let n = c as u32;
    ||| 0x9 <= n <= 0xd
    ||| n == 0x20
    ||| n == 0x85
    ||| n == 0xa0
    ||| n == 0x1680
    ||| 0x2000 <= n <= 0x200a
    ||| n == 0x2028
    ||| n == 0x2029
    ||| n == 0x202f
    ||| n == 0x205f
    ||| n == 0x3000
}

/// A set of characters that text is cut at.
#[derive(Clone, Copy)]
pub enum CharClass {
    /// White space.
    White,
    /// One character.
    Just(char),
}

impl CharClass {
    pub open spec fn holds(self, c: char) -> bool {
        match self {
            CharClass::White => is_white_space(c),
            CharClass::Just(d) => c == d,
        }
    }

    /// Whether `c` is in the class.
    pub fn contains(&self, c: char) -> (res: bool)
        ensures
            res == self.holds(c),
    {
        match self {
            CharClass::White => {
                let n: u32 = c as u32;
                (0x9 <= n && n <= 0xd) || n == 0x20 || n == 0x85 || n == 0xa0 || n == 0x1680 || (0x2000
                    <= n && n <= 0x200a) || n == 0x2028 || n == 0x2029 || n == 0x202f || n == 0x205f
                    || n == 0x3000
            },
            CharClass::Just(d) => c == *d,
        }
    }
}

/// The characters of a string.
pub fn chars_of(s: &str) -> (res: Vec<char>)
    ensures
        res@ == s@,
{
    let mut res: Vec<char> = Vec::new();
    for c in it: s.chars()
        invariant
            it.seq() == s@,
            res@ == s@.take(it.index() as int),
    {
        res.push(c);
    }
    res
}

/// The string that `chars[from..to]` spells.
pub fn string_of(chars: &Vec<char>, from: usize, to: usize) -> (res: String)
    requires
        from <= to <= chars@.len(),
    ensures
        res@ == chars@.subrange(from as int, to as int),
{
    let mut res: String = String::new();
    let mut i: usize = from;
    while i < to
        invariant
            from <= i <= to <= chars@.len(),
            res@ == chars@.subrange(from as int, i as int),
        decreases to - i,
    {
        res.push(chars[i]);
        i += 1;
    }
    res
}

/// Where the first character of the class stands, or the length of `s`.
pub open spec fn find(s: Seq<char>, k: CharClass) -> nat
    decreases s.len(),
{
    if s.len() == 0 || k.holds(s[0]) {
        0
    } else {
        1 + find(s.drop_first(), k)
    }
}

/// `s` without the characters of the class at its start.
pub open spec fn trim_start(s: Seq<char>, k: CharClass) -> Seq<char>
    decreases s.len(),
{
    if s.len() > 0 && k.holds(s[0]) {
        trim_start(s.drop_first(), k)
    } else {
        s
    }
}

/// `s` without the characters of the class at its end.
pub open spec fn trim_end(s: Seq<char>, k: CharClass) -> Seq<char>
    decreases s.len(),
{
    if s.len() > 0 && k.holds(s.last()) {
        trim_end(s.drop_last(), k)
    } else {
        s
    }
}

/// `s` without the characters of the class at its start and its end.
pub open spec fn trim_both(s: Seq<char>, k: CharClass) -> Seq<char> {
    trim_end(trim_start(s, k), k)
}

/// `s` without the white space around it.
pub open spec fn trimmed(s: Seq<char>) -> Seq<char> {
    trim_both(s, CharClass::White)
}

/// The pieces of `s` between the occurrences of `sep`.
pub open spec fn split_spec(s: Seq<char>, sep: char) -> Seq<Seq<char>>
    decreases s.len(),
{
    let i = find(s, CharClass::Just(sep)) as int;
    if 0 <= i < s.len() {
        seq![s.take(i)] + split_spec(s.skip(i + 1), sep)
    } else {
        seq![s]
    }
}

/// At most `n` pieces: the last one holds what is left, separators included.
pub open spec fn splitn_spec(s: Seq<char>, n: nat, sep: char) -> Seq<Seq<char>>
    decreases n,
{
    let i = find(s, CharClass::Just(sep)) as int;
    if n == 0 {
        seq![]
    } else if n == 1 || i >= s.len() {
        seq![s]
    } else {
        seq![s.take(i)] + splitn_spec(s.skip(i + 1), (n - 1) as nat, sep)
    }
}

/// `s` without one carriage return at its end.
pub open spec fn without_cr(s: Seq<char>) -> Seq<char> {
    if s.len() > 0 && s.last() == '\r' {
        s.drop_last()
    } else {
        s
    }
}

/// The lines of `s`: each ends at a line feed, with or without a carriage
/// return before it; the end of the last one is optional.
pub open spec fn lines_spec(s: Seq<char>) -> Seq<Seq<char>>
    decreases s.len(),
{
    let i = find(s, CharClass::Just('\n')) as int;
    if s.len() == 0 {
        seq![]
    } else if i >= s.len() {
        seq![s]
    } else {
        seq![without_cr(s.take(i))] + lines_spec(s.skip(i + 1))
    }
}

/// The strings that a list holds, as sequences of characters.
pub open spec fn views(v: Seq<String>) -> Seq<Seq<char>> {
    Seq::new(v.len(), |i: int| v[i]@)
}

/// Puts `more` behind `list`.
pub fn put(list: &mut Vec<String>, more: &str)
    ensures
        views(final(list)@) == views(old(list)@).push(more@),
{
    list.push(more.to_string());
    assert(views(list@) =~= views(old(list)@).push(more@));
}

/// Before the first character of a class there is none of that class.
pub proof fn lemma_find(s: Seq<char>, k: CharClass)
    ensures
        find(s, k) <= s.len(),
        forall|i: int| 0 <= i < find(s, k) ==> !k.holds(#[trigger] s[i]),
        find(s, k) < s.len() ==> k.holds(s[find(s, k) as int]),
    decreases s.len(),
{
    if s.len() == 0 || k.holds(s[0]) {
    } else {
        lemma_find(s.drop_first(), k);
        assert forall|i: int| 0 <= i < find(s, k) implies !k.holds(#[trigger] s[i]) by {
            if i > 0 {
                assert(s[i] == s.drop_first()[i - 1]);
            }
        }
    }
}

/// An index that no earlier hit precedes, and that is a hit or the end, is
/// where `find` points.
pub proof fn lemma_find_is(s: Seq<char>, k: CharClass, i: int)
    requires
        0 <= i <= s.len(),
        forall|j: int| 0 <= j < i ==> !k.holds(#[trigger] s[j]),
        i < s.len() ==> k.holds(s[i]),
    ensures
        find(s, k) == i,
{
    lemma_find(s, k);
    let f = find(s, k) as int;
    if f < i {
        assert(!k.holds(s[f]));
    }
    if i < f {
        assert(!k.holds(s[i]));
    }
}

/// The first index, from `from` on, of a character of the class; the length
/// of `chars` where there is none.
pub fn find_from(chars: &Vec<char>, from: usize, k: CharClass) -> (res: usize)
    requires
        from <= chars@.len(),
    ensures
        from <= res <= chars@.len(),
        res - from == find(chars@.skip(from as int), k),
{
    let mut i: usize = from;
    while i < chars.len() && !k.contains(chars[i])
        invariant
            from <= i <= chars@.len(),
            forall|j: int| from <= j < i ==> !k.holds(#[trigger] chars@[j]),
        decreases chars@.len() - i,
    {
        i += 1;
    }
    proof {
        let s = chars@.skip(from as int);
        assert forall|j: int| 0 <= j < i - from implies !k.holds(#[trigger] s[j]) by {
            assert(s[j] == chars@[from + j]);
        }
        lemma_find_is(s, k, i - from);
    }
    i
}

/// Where `trim_start` leaves off.
fn skip_start(chars: &Vec<char>, k: CharClass) -> (res: usize)
    ensures
        res <= chars@.len(),
        trim_start(chars@, k) == chars@.skip(res as int),
{
    let mut i: usize = 0;
    assert(chars@.skip(0) =~= chars@);
    while i < chars.len() && k.contains(chars[i])
        invariant
            i <= chars@.len(),
            trim_start(chars@, k) == trim_start(chars@.skip(i as int), k),
        decreases chars@.len() - i,
    {
        assert(chars@.skip(i as int).drop_first() =~= chars@.skip(i + 1));
        i += 1;
    }
    i
}

/// Where `trim_end` leaves off, in the part of `chars` that starts at `from`.
fn skip_end(chars: &Vec<char>, from: usize, k: CharClass) -> (res: usize)
    requires
        from <= chars@.len(),
    ensures
        from <= res <= chars@.len(),
        trim_end(chars@.skip(from as int), k) == chars@.subrange(from as int, res as int),
{
    let mut j: usize = chars.len();
    assert(chars@.subrange(from as int, j as int) =~= chars@.skip(from as int));
    while j > from && k.contains(chars[j - 1])
        invariant
            from <= j <= chars@.len(),
            trim_end(chars@.skip(from as int), k) == trim_end(
                chars@.subrange(from as int, j as int),
                k,
            ),
        decreases j,
    {
        assert(chars@.subrange(from as int, j as int).drop_last() =~= chars@.subrange(
            from as int,
            j - 1,
        ));
        assert(chars@.subrange(from as int, j as int).last() == chars@[j - 1]);
        j -= 1;
    }
    proof {
        if j > from {
            assert(chars@.subrange(from as int, j as int).last() == chars@[j - 1]);
        }
    }
    j
}

/// Text without the characters of the class at its start.
pub fn trim_start_of(s: &str, k: CharClass) -> (res: String)
    ensures
        res@ == trim_start(s@, k),
{
    let chars = chars_of(s);
    let i: usize = skip_start(&chars, k);
    assert(chars@.subrange(i as int, chars@.len() as int) =~= chars@.skip(i as int));
    string_of(&chars, i, chars.len())
}

/// Text without the characters of the class at its end.
pub fn trim_end_of(s: &str, k: CharClass) -> (res: String)
    ensures
        res@ == trim_end(s@, k),
{
    let chars = chars_of(s);
    let j: usize = skip_end(&chars, 0, k);
    assert(chars@.skip(0) =~= chars@);
    string_of(&chars, 0, j)
}

/// Text without the characters of the class around it.
pub fn trim_of(s: &str, k: CharClass) -> (res: String)
    ensures
        res@ == trim_both(s@, k),
{
    let chars = chars_of(s);
    let i: usize = skip_start(&chars, k);
    let j: usize = skip_end(&chars, i, k);
    string_of(&chars, i, j)
}

/// Text without the white space around it.
pub fn trim(s: &str) -> (res: String)
    ensures
        res@ == trimmed(s@),
{
    trim_of(s, CharClass::White)
}

/// The pieces of `s` between the occurrences of `sep`.
pub fn split(s: &str, sep: char) -> (res: Vec<String>)
    ensures
        views(res@) == split_spec(s@, sep),
{
    let chars = chars_of(s);
    let mut res: Vec<String> = Vec::new();
    let mut from: usize = 0;
    assert(chars@.skip(0) =~= chars@);
    assert(views(res@) + split_spec(chars@, sep) =~= split_spec(chars@, sep));
    loop
        invariant
            from <= chars@.len(),
            views(res@) + split_spec(chars@.skip(from as int), sep) == split_spec(chars@, sep),
            chars@ == s@,
        decreases chars@.len() - from,
    {
        let ghost rest = chars@.skip(from as int);
        let ghost before = res@;
        let i: usize = find_from(&chars, from, CharClass::Just(sep));
        res.push(string_of(&chars, from, i));
        assert(chars@.subrange(from as int, i as int) =~= rest.take(i - from));
        assert(views(res@) =~= views(before).push(rest.take(i - from)));
        if i >= chars.len() {
            assert(rest.take(i - from) =~= rest);
            assert(views(res@) =~= views(before) + seq![rest]);
            return res;
        }
        assert(rest.skip(i - from + 1) =~= chars@.skip(i + 1));
        assert(views(res@) + split_spec(chars@.skip(i + 1), sep) =~= views(before)
            + split_spec(rest, sep));
        from = i + 1;
    }
}

/// At most `n` pieces of `s`, cut at the first occurrences of `sep`.
pub fn splitn(s: &str, n: usize, sep: char) -> (res: Vec<String>)
    ensures
        views(res@) == splitn_spec(s@, n as nat, sep),
{
    let chars = chars_of(s);
    let mut res: Vec<String> = Vec::new();
    if n == 0 {
        assert(views(res@) =~= seq![]);
        return res;
    }
    let mut from: usize = 0;
    let mut left: usize = n;
    assert(chars@.skip(0) =~= chars@);
    assert(views(res@) + splitn_spec(chars@, n as nat, sep) =~= splitn_spec(chars@, n as nat, sep));
    loop
        invariant
            from <= chars@.len(),
            1 <= left <= n,
            views(res@) + splitn_spec(chars@.skip(from as int), left as nat, sep) == splitn_spec(
                chars@,
                n as nat,
                sep,
            ),
            chars@ == s@,
        decreases left,
    {
        let ghost rest = chars@.skip(from as int);
        let ghost before = res@;
        let i: usize = if left == 1 {
            chars.len()
        } else {
            find_from(&chars, from, CharClass::Just(sep))
        };
        res.push(string_of(&chars, from, i));
        assert(chars@.subrange(from as int, i as int) =~= rest.take(i - from));
        assert(views(res@) =~= views(before).push(rest.take(i - from)));
        if i >= chars.len() {
            assert(rest.take(i - from) =~= rest);
            assert(views(res@) =~= views(before) + seq![rest]);
            return res;
        }
        assert(rest.skip(i - from + 1) =~= chars@.skip(i + 1));
        assert(views(res@) + splitn_spec(chars@.skip(i + 1), (left - 1) as nat, sep) =~= views(
            before,
        ) + splitn_spec(rest, left as nat, sep));
        from = i + 1;
        left -= 1;
    }
}

/// The lines of `s`, without their ends.
pub fn lines(s: &str) -> (res: Vec<String>)
    ensures
        views(res@) == lines_spec(s@),
{
    let chars = chars_of(s);
    let mut res: Vec<String> = Vec::new();
    let mut from: usize = 0;
    assert(chars@.skip(0) =~= chars@);
    assert(views(res@) + lines_spec(chars@) =~= lines_spec(chars@));
    while from < chars.len()
        invariant
            from <= chars@.len(),
            views(res@) + lines_spec(chars@.skip(from as int)) == lines_spec(chars@),
            chars@ == s@,
        decreases chars@.len() - from,
    {
        let ghost rest = chars@.skip(from as int);
        let ghost before = res@;
        let i: usize = find_from(&chars, from, CharClass::Just('\n'));
        if i >= chars.len() {
            res.push(string_of(&chars, from, i));
            assert(chars@.subrange(from as int, i as int) =~= rest);
            assert(views(res@) =~= views(before) + seq![rest]);
            return res;
        }
        assert(chars@.subrange(from as int, i as int) =~= rest.take(i - from));
        let end: usize = if i > from && chars[i - 1] == '\r' {
            i - 1
        } else {
            i
        };
        res.push(string_of(&chars, from, end));
        assert(chars@.subrange(from as int, end as int) =~= without_cr(rest.take(i - from)));
        assert(views(res@) =~= views(before).push(without_cr(rest.take(i - from))));
        assert(rest.skip(i - from + 1) =~= chars@.skip(i + 1));
        assert(views(res@) + lines_spec(chars@.skip(i + 1)) =~= views(before) + lines_spec(rest));
        from = i + 1;
    }
    proof {
        assert(chars@.skip(from as int) =~= Seq::<char>::empty());
        assert(views(res@) + lines_spec(chars@.skip(from as int)) =~= views(res@));
    }
    res
}

/// The longest runs of `s` that hold no white space.
pub open spec fn words_spec(s: Seq<char>) -> Seq<Seq<char>>
    decreases s.len(),
{
    if s.len() == 0 {
        seq![]
    } else if is_white_space(s[0]) {
        words_spec(s.drop_first())
    } else {
        let i = find(s, CharClass::White) as int;
        if 0 < i <= s.len() {
            seq![s.take(i)] + words_spec(s.skip(i))
        } else {
            seq![]
        }
    }
}

/// `parts` one after another, with `sep` between each two.
pub open spec fn join_spec(parts: Seq<Seq<char>>, sep: Seq<char>) -> Seq<char>
    decreases parts.len(),
{
    if parts.len() == 0 {
        seq![]
    } else if parts.len() == 1 {
        parts[0]
    } else {
        join_spec(parts.drop_last(), sep) + sep + parts.last()
    }
}

/// Whether `pat` stands in `s` at `i`.
pub open spec fn occurs_at(s: Seq<char>, pat: Seq<char>, i: int) -> bool {
    0 <= i && i + pat.len() <= s.len() && s.subrange(i, i + pat.len()) == pat
}

/// Whether `pat` stands somewhere in `s`.
pub open spec fn contains_spec(s: Seq<char>, pat: Seq<char>) -> bool {
    exists|i: int| occurs_at(s, pat, i)
}

/// `s` with every occurrence of `pat` taken out, read from the left.
pub open spec fn remove_all_spec(s: Seq<char>, pat: Seq<char>) -> Seq<char>
    decreases s.len(),
{
    if s.len() == 0 {
        s
    } else if pat.len() > 0 && occurs_at(s, pat, 0) {
        remove_all_spec(s.skip(pat.len() as int), pat)
    } else {
        seq![s[0]] + remove_all_spec(s.drop_first(), pat)
    }
}

/// The words of `s`.
pub fn words(s: &str) -> (res: Vec<String>)
    ensures
        views(res@) == words_spec(s@),
{
    let chars = chars_of(s);
    let mut res: Vec<String> = Vec::new();
    let mut from: usize = 0;
    assert(chars@.skip(0) =~= chars@);
    assert(views(res@) + words_spec(chars@) =~= words_spec(chars@));
    while from < chars.len()
        invariant
            from <= chars@.len(),
            views(res@) + words_spec(chars@.skip(from as int)) == words_spec(chars@),
            chars@ == s@,
        decreases chars@.len() - from,
    {
        let ghost rest = chars@.skip(from as int);
        let ghost before = res@;
        if CharClass::White.contains(chars[from]) {
            assert(rest.drop_first() =~= chars@.skip(from + 1));
            from += 1;
        } else {
            let i: usize = find_from(&chars, from, CharClass::White);
            proof {
                lemma_find(rest, CharClass::White);
            }
            res.push(string_of(&chars, from, i));
            assert(chars@.subrange(from as int, i as int) =~= rest.take(i - from));
            assert(views(res@) =~= views(before).push(rest.take(i - from)));
            assert(rest.skip(i - from) =~= chars@.skip(i as int));
            assert(views(res@) + words_spec(chars@.skip(i as int)) =~= views(before) + words_spec(
                rest,
            ));
            from = i;
        }
    }
    proof {
        assert(chars@.skip(from as int) =~= Seq::<char>::empty());
        assert(views(res@) + words_spec(chars@.skip(from as int)) =~= views(res@));
    }
    res
}

/// The strings of a list one after another, with `sep` between each two.
pub fn join(parts: &Vec<String>, sep: &str) -> (res: String)
    ensures
        res@ == join_spec(views(parts@), sep@),
{
    let mut res: String = String::new();
    let mut i: usize = 0;
    let ghost all = views(parts@);
    assert(all.take(0) =~= Seq::<Seq<char>>::empty());
    while i < parts.len()
        invariant
            i <= parts@.len(),
            all == views(parts@),
            res@ == join_spec(all.take(i as int), sep@),
        decreases parts@.len() - i,
    {
        if i > 0 {
            res.append(sep);
        }
        res.append(parts[i].as_str());
        proof {
            let more = all.take(i + 1);
            assert(more.drop_last() =~= all.take(i as int));
            assert(more.last() == all[i as int]);
            if i == 0 {
                assert(res@ =~= all[0]);
            }
        }
        i += 1;
    }
    assert(all.take(i as int) =~= all);
    res
}

/// Whether `pat` stands in `chars` at `from`.
fn stands_at(chars: &Vec<char>, pat: &Vec<char>, from: usize) -> (res: bool)
    requires
        from <= chars@.len(),
    ensures
        res == occurs_at(chars@, pat@, from as int),
{
    let end: usize = chars.len();
    if end - from < pat.len() {
        return false;
    }
    let mut j: usize = 0;
    while j < pat.len()
        invariant
            j <= pat@.len(),
            from + pat@.len() <= chars@.len() == end,
            forall|m: int| 0 <= m < j ==> chars@[from + m] == #[trigger] pat@[m],
        decreases pat@.len() - j,
    {
        if chars[from + j] != pat[j] {
            assert(chars@.subrange(from as int, from + pat@.len())[j as int] != pat@[j as int]);
            return false;
        }
        j += 1;
    }
    assert(chars@.subrange(from as int, from + pat@.len()) =~= pat@);
    true
}

/// Whether `pat` stands somewhere in `s`.
pub fn contains(s: &str, pat: &str) -> (res: bool)
    ensures
        res == contains_spec(s@, pat@),
{
    let chars = chars_of(s);
    let wanted = chars_of(pat);
    let mut i: usize = 0;
    loop
        invariant
            i <= chars@.len(),
            chars@ == s@,
            wanted@ == pat@,
            forall|j: int| 0 <= j < i ==> !occurs_at(s@, pat@, j),
        decreases chars@.len() - i,
    {
        if stands_at(&chars, &wanted, i) {
            return true;
        }
        if i == chars.len() {
            assert forall|j: int| !occurs_at(s@, pat@, j) by {}
            return false;
        }
        i += 1;
    }
}

/// What follows `prefix` in `s`, where `s` starts with it.
pub fn strip_prefix(s: &str, prefix: &str) -> (res: Option<String>)
    ensures
        res is Some <==> occurs_at(s@, prefix@, 0),
        res matches Some(rest) ==> rest@ == s@.skip(prefix@.len() as int),
{
    let chars = chars_of(s);
    let wanted = chars_of(prefix);
    if stands_at(&chars, &wanted, 0) {
        let rest = string_of(&chars, wanted.len(), chars.len());
        assert(chars@.subrange(wanted@.len() as int, chars@.len() as int) =~= s@.skip(
            prefix@.len() as int,
        ));
        Some(rest)
    } else {
        None
    }
}

/// `s` with every occurrence of `pat` taken out.
pub fn remove_all(s: &str, pat: &str) -> (res: String)
    requires
        pat@.len() > 0,
    ensures
        res@ == remove_all_spec(s@, pat@),
{
    let chars = chars_of(s);
    let wanted = chars_of(pat);
    let mut res: String = String::new();
    let mut i: usize = 0;
    assert(chars@.skip(0) =~= chars@);
    assert(res@ + remove_all_spec(chars@, pat@) =~= remove_all_spec(chars@, pat@));
    while i < chars.len()
        invariant
            i <= chars@.len(),
            chars@ == s@,
            wanted@ == pat@,
            pat@.len() > 0,
            res@ + remove_all_spec(chars@.skip(i as int), pat@) == remove_all_spec(chars@, pat@),
        decreases chars@.len() - i,
    {
        let ghost rest = chars@.skip(i as int);
        assert(occurs_at(rest, pat@, 0) == occurs_at(chars@, pat@, i as int)) by {
            if i + pat@.len() <= chars@.len() {
                assert(rest.subrange(0, pat@.len() as int) =~= chars@.subrange(
                    i as int,
                    i + pat@.len(),
                ));
            }
        }
        if stands_at(&chars, &wanted, i) {
            assert(rest.skip(pat@.len() as int) =~= chars@.skip(i + pat@.len()));
            i += wanted.len();
        } else {
            let ghost before = res@;
            res.push(chars[i]);
            assert(rest.drop_first() =~= chars@.skip(i + 1));
            assert(before.push(rest[0]) + remove_all_spec(rest.drop_first(), pat@) =~= before + (
            seq![rest[0]] + remove_all_spec(rest.drop_first(), pat@)));
            i += 1;
        }
    }
    assert(chars@.skip(i as int) =~= Seq::<char>::empty());
    assert(res@ + Seq::<char>::empty() =~= res@);
    res
}

/// Whether two texts are the same.
pub fn same(a: &str, b: &str) -> (res: bool)
    ensures
        res == (a@ == b@),
{
    let x = chars_of(a);
    let y = chars_of(b);
    proof {
        if x@.len() == y@.len() {
            assert(x@.subrange(0, y@.len() as int) =~= x@);
        }
    }
    x.len() == y.len() && stands_at(&x, &y, 0)
}

/// The small letter of an ASCII capital; any other character as it is.
pub open spec fn ascii_lower(c: char) -> char {
    if 'A' as u32 <= c as u32 <= 'Z' as u32 {
        (c as u32 + 32) as char
    } else {
        c
    }
}

/// `s` with small letters in place of ASCII capitals.
pub open spec fn lowered(s: Seq<char>) -> Seq<char> {
    Seq::new(s.len(), |i: int| ascii_lower(s[i]))
}

/// Whether two texts are the same but for the case of ASCII letters.
pub open spec fn same_ignoring_case_spec(a: Seq<char>, b: Seq<char>) -> bool {
    lowered(a) == lowered(b)
}

/// `s` with small letters in place of ASCII capitals.
pub fn to_lower(s: &str) -> (res: String)
    ensures
        res@ == lowered(s@),
{
    let chars = chars_of(s);
    let mut res: String = String::new();
    let mut i: usize = 0;
    while i < chars.len()
        invariant
            i <= chars@.len(),
            chars@ == s@,
            res@ == lowered(s@).take(i as int),
        decreases chars@.len() - i,
    {
        let n: u32 = chars[i] as u32;
        let small: char = if 65 <= n && n <= 90 {
            (n + 32) as u8 as char
        } else {
            chars[i]
        };
        assert(small == lowered(s@)[i as int]);
        res.push(small);
        assert(lowered(s@).take(i as int).push(small) =~= lowered(s@).take(i + 1));
        i += 1;
    }
    assert(lowered(s@).take(i as int) =~= lowered(s@));
    res
}

/// Whether two texts are the same but for the case of ASCII letters.
pub fn same_ignoring_case(a: &str, b: &str) -> (res: bool)
    ensures
        res == same_ignoring_case_spec(a@, b@),
{
    same(to_lower(a).as_str(), to_lower(b).as_str())
}

proof fn lemma_trim_start_part(s: Seq<char>, k: CharClass)
    ensures
        exists|i: int| 0 <= i <= s.len() && trim_start(s, k) == #[trigger] s.skip(i),
        trim_start(s, k).len() > 0 ==> !k.holds(trim_start(s, k)[0]),
    decreases s.len(),
{
    if s.len() > 0 && k.holds(s[0]) {
        lemma_trim_start_part(s.drop_first(), k);
        let i = choose|i: int|
            0 <= i <= s.drop_first().len() && trim_start(s.drop_first(), k)
                == #[trigger] s.drop_first().skip(i);
        assert(s.drop_first().skip(i) =~= s.skip(i + 1));
    } else {
        assert(s.skip(0) =~= s);
    }
}

proof fn lemma_trim_end_part(s: Seq<char>, k: CharClass)
    ensures
        exists|i: int| 0 <= i <= s.len() && trim_end(s, k) == #[trigger] s.take(i),
        trim_end(s, k).len() > 0 ==> !k.holds(trim_end(s, k).last()),
    decreases s.len(),
{
    if s.len() > 0 && k.holds(s.last()) {
        lemma_trim_end_part(s.drop_last(), k);
        let i = choose|i: int|
            0 <= i <= s.drop_last().len() && trim_end(s.drop_last(), k)
                == #[trigger] s.drop_last().take(i);
        assert(s.drop_last().take(i) =~= s.take(i));
    } else {
        assert(s.take(s.len() as int) =~= s);
    }
}

/// Trimming leaves a part of the text that neither begins nor ends with a
/// character of the class.
pub proof fn lemma_trim_both(s: Seq<char>, k: CharClass)
    ensures
        exists|i: int, j: int|
            0 <= i <= j <= s.len() && trim_both(s, k) == #[trigger] s.subrange(i, j),
        trim_both(s, k).len() > 0 ==> !k.holds(trim_both(s, k)[0]) && !k.holds(
            trim_both(s, k).last(),
        ),
{
    lemma_trim_start_part(s, k);
    let u = trim_start(s, k);
    let i = choose|i: int| 0 <= i <= s.len() && u == #[trigger] s.skip(i);
    lemma_trim_end_part(u, k);
    let n = choose|n: int| 0 <= n <= u.len() && trim_end(u, k) == #[trigger] u.take(n);
    assert(u.take(n) =~= s.subrange(i, i + n));
}

/// Whether `a` comes before `b`: by the first character in which they differ,
/// or as a beginning of it.
pub open spec fn text_less(a: Seq<char>, b: Seq<char>) -> bool
    decreases a.len(),
{
    if b.len() == 0 {
        false
    } else if a.len() == 0 {
        true
    } else if a[0] != b[0] {
        (a[0] as u32) < (b[0] as u32)
    } else {
        text_less(a.drop_first(), b.drop_first())
    }
}

/// Whether the rest of `x`, from `i` on, comes before the rest of `y`, from
/// `j` on.
pub fn comes_before(x: &Vec<char>, i: usize, y: &Vec<char>, j: usize) -> (res: bool)
    requires
        i <= x@.len(),
        j <= y@.len(),
    ensures
        res == text_less(x@.skip(i as int), y@.skip(j as int)),
{
    let mut k: usize = i;
    let mut l: usize = j;
    while k < x.len() && l < y.len() && x[k] == y[l]
        invariant
            i <= k <= x@.len(),
            j <= l <= y@.len(),
            text_less(x@.skip(i as int), y@.skip(j as int)) == text_less(
                x@.skip(k as int),
                y@.skip(l as int),
            ),
        decreases x@.len() - k,
    {
        assert(x@.skip(k as int).drop_first() =~= x@.skip(k + 1));
        assert(y@.skip(l as int).drop_first() =~= y@.skip(l + 1));
        k += 1;
        l += 1;
    }
    if l == y.len() {
        false
    } else if k == x.len() {
        true
    } else {
        (x[k] as u32) < (y[l] as u32)
    }
}

/// Characters with the same code are the same.
pub proof fn lemma_same_code(a: char, b: char)
    ensures
        a as u32 == b as u32 ==> a == b,
{
}

/// Of two texts one comes before the other, or they are the same.
pub proof fn lemma_text_less_total(a: Seq<char>, b: Seq<char>)
    ensures
        !(text_less(a, b) && text_less(b, a)),
        text_less(a, b) || text_less(b, a) || a == b,
        !text_less(a, a),
    decreases a.len(),
{
    if a.len() > 0 {
        lemma_text_less_total(a.drop_first(), a.drop_first());
        if b.len() > 0 {
            lemma_text_less_total(a.drop_first(), b.drop_first());
            assert(a =~= seq![a[0]] + a.drop_first());
            assert(b =~= seq![b[0]] + b.drop_first());
            lemma_same_code(a[0], b[0]);
        }
    } else if b.len() == 0 {
        assert(a =~= b);
    }
}

/// What comes before an earlier text comes before a later one.
pub proof fn lemma_text_less_transitive(a: Seq<char>, b: Seq<char>, c: Seq<char>)
    requires
        text_less(a, b),
        text_less(b, c),
    ensures
        text_less(a, c),
    decreases a.len(),
{
    if a.len() > 0 && b.len() > 0 && c.len() > 0 && a[0] == b[0] && b[0] == c[0] {
        lemma_text_less_transitive(a.drop_first(), b.drop_first(), c.drop_first());
    }
}

// ─── What holds of texts ─────────────────────────────────────────────────────

proof fn lemma_trim_start_is(p: Seq<char>, s: Seq<char>, k: CharClass)
    requires
        forall|i: int| 0 <= i < p.len() ==> k.holds(#[trigger] p[i]),
        s.len() > 0 ==> !k.holds(s[0]),
    ensures
        trim_start(p + s, k) == s,
    decreases p.len(),
{
    if p.len() > 0 {
        assert((p + s)[0] == p[0]);
        assert((p + s).drop_first() =~= p.drop_first() + s);
        assert forall|i: int| 0 <= i < p.drop_first().len() implies k.holds(
            #[trigger] p.drop_first()[i],
        ) by {
            assert(p.drop_first()[i] == p[i + 1]);
        }
        lemma_trim_start_is(p.drop_first(), s, k);
    } else {
        assert(p + s =~= s);
    }
}

/// Trimming the end takes off what is of the class, and leaves the rest.
pub proof fn trimming_end_leaves_the_rest(s: Seq<char>, p: Seq<char>, k: CharClass)
    requires
        forall|i: int| 0 <= i < p.len() ==> k.holds(#[trigger] p[i]),
        s.len() > 0 ==> !k.holds(s.last()),
    ensures
        trim_end(s + p, k) == s,
    decreases p.len(),
{
    if p.len() > 0 {
        assert((s + p).last() == p.last());
        assert((s + p).drop_last() =~= s + p.drop_last());
        trimming_end_leaves_the_rest(s, p.drop_last(), k);
    } else {
        assert(s + p =~= s);
    }
}

/// Trimming takes off what is of the class at both ends, and leaves what is
/// between.
pub proof fn trimming_leaves_the_middle(
    left: Seq<char>,
    middle: Seq<char>,
    right: Seq<char>,
    k: CharClass,
)
    requires
        forall|i: int| 0 <= i < left.len() ==> k.holds(#[trigger] left[i]),
        forall|i: int| 0 <= i < right.len() ==> k.holds(#[trigger] right[i]),
        middle.len() > 0,
        !k.holds(middle[0]),
        !k.holds(middle.last()),
    ensures
        trim_both(left + middle + right, k) == middle,
        k == CharClass::White ==> trimmed(left + middle + right) == middle,
{
    assert(left + middle + right =~= left + (middle + right));
    assert((middle + right)[0] == middle[0]);
    lemma_trim_start_is(left, middle + right, k);
    trimming_end_leaves_the_rest(middle, right, k);
}

/// Nothing is left of a text exactly where it is all of the class.
pub proof fn trimming_takes_the_class_off(s: Seq<char>, k: CharClass)
    ensures
        trim_both(s, k).len() > 0 <==> exists|i: int| 0 <= i < s.len() && !k.holds(#[trigger] s[i]),
        k == CharClass::White ==> trimmed(s) == trim_both(s, k),
{
    lemma_trim_both(s, k);
    if trim_both(s, k).len() > 0 {
        let (i, j) = choose|i: int, j: int|
            0 <= i <= j <= s.len() && trim_both(s, k) == #[trigger] s.subrange(i, j);
        assert(s[i] == trim_both(s, k)[0]);
    } else if exists|i: int| 0 <= i < s.len() && !k.holds(#[trigger] s[i]) {
        lemma_ends(s, k);
        let (i, j) = choose|i: int, j: int|
            #![trigger s[i], s[j]]
            0 <= i <= j < s.len() && !k.holds(s[i]) && !k.holds(s[j]) && (forall|n: int|
                0 <= n < i ==> k.holds(#[trigger] s[n])) && (forall|n: int|
                j < n < s.len() ==> k.holds(#[trigger] s[n]));
        let middle = s.subrange(i, j + 1);
        assert(s =~= s.take(i) + middle + s.skip(j + 1));
        trimming_leaves_the_middle(s.take(i), middle, s.skip(j + 1), k);
    }
}

/// A text that is not all of a class has a first and a last character that are
/// not of it.
proof fn lemma_ends(s: Seq<char>, k: CharClass)
    requires
        exists|i: int| 0 <= i < s.len() && !k.holds(#[trigger] s[i]),
    ensures
        exists|i: int, j: int|
            #![trigger s[i], s[j]]
            0 <= i <= j < s.len() && !k.holds(s[i]) && !k.holds(s[j]) && (forall|n: int|
                0 <= n < i ==> k.holds(#[trigger] s[n])) && (forall|n: int|
                j < n < s.len() ==> k.holds(#[trigger] s[n])),
    decreases s.len(),
{
    if k.holds(s[0]) {
        let rest = s.drop_first();
        assert(forall|n: int| 0 <= n < rest.len() ==> rest[n] == s[n + 1]);
        let w = choose|i: int| 0 <= i < s.len() && !k.holds(#[trigger] s[i]);
        assert(rest[w - 1] == s[w]);
        lemma_ends(rest, k);
        let (i, j) = choose|i: int, j: int|
            #![trigger rest[i], rest[j]]
            0 <= i <= j < rest.len() && !k.holds(rest[i]) && !k.holds(rest[j]) && (forall|n: int|
                0 <= n < i ==> k.holds(#[trigger] rest[n])) && (forall|n: int|
                j < n < rest.len() ==> k.holds(#[trigger] rest[n]));
        assert(s[i + 1] == rest[i] && s[j + 1] == rest[j]);
        assert forall|n: int| 0 <= n < i + 1 implies k.holds(#[trigger] s[n]) by {
            if n > 0 {
                assert(rest[n - 1] == s[n]);
            }
        }
        assert forall|n: int| j + 1 < n < s.len() implies k.holds(#[trigger] s[n]) by {
            assert(rest[n - 1] == s[n]);
        }
    } else if k.holds(s.last()) {
        let rest = s.drop_last();
        assert(rest[0] == s[0]);
        lemma_ends(rest, k);
        let (i, j) = choose|i: int, j: int|
            #![trigger rest[i], rest[j]]
            0 <= i <= j < rest.len() && !k.holds(rest[i]) && !k.holds(rest[j]) && (forall|n: int|
                0 <= n < i ==> k.holds(#[trigger] rest[n])) && (forall|n: int|
                j < n < rest.len() ==> k.holds(#[trigger] rest[n]));
        assert(s[i] == rest[i] && s[j] == rest[j]);
        assert forall|n: int| 0 <= n < i implies k.holds(#[trigger] s[n]) by {
            assert(rest[n] == s[n]);
        }
        assert forall|n: int| j < n < s.len() implies k.holds(#[trigger] s[n]) by {
            if n < rest.len() {
                assert(rest[n] == s[n]);
            }
        }
    } else {
        assert(s[0] == s[0] && s[s.len() - 1] == s.last());
    }
}

/// Cutting at a character: what stands before the first one is the first part,
/// and the rest is cut in turn; a text without it is one part.
pub proof fn cutting_is_at_each_separator(part: Seq<char>, rest: Seq<char>, sep: char, n: nat)
    requires
        forall|i: int| 0 <= i < part.len() ==> #[trigger] part[i] != sep,
    ensures
        split_spec(part, sep) == seq![part],
        split_spec(part + seq![sep] + rest, sep) == seq![part] + split_spec(rest, sep),
        n > 0 ==> splitn_spec(part, n, sep) == seq![part],
        splitn_spec(rest, 1, sep) == seq![rest],
        splitn_spec(part + seq![sep] + rest, n + 2, sep) == seq![part] + splitn_spec(
            rest,
            n + 1,
            sep,
        ),
{
    let k = CharClass::Just(sep);
    let s = part + seq![sep] + rest;
    let i = part.len() as int;
    assert forall|j: int| 0 <= j < i implies !k.holds(#[trigger] part[j]) by {}
    lemma_find_is(part, k, i);
    assert forall|j: int| 0 <= j < i implies !k.holds(#[trigger] s[j]) by {
        assert(s[j] == part[j]);
    }
    lemma_find_is(s, k, i);
    assert(s.take(i) =~= part);
    assert(s.skip(i + 1) =~= rest);
}

/// Lines end at line feeds, with or without a carriage return before them; a
/// last line need not end.
pub proof fn lines_end_at_line_feeds(line: Seq<char>, rest: Seq<char>)
    requires
        forall|i: int| 0 <= i < line.len() ==> #[trigger] line[i] != '\n',
    ensures
        lines_spec(seq![]) == Seq::<Seq<char>>::empty(),
        line.len() > 0 ==> lines_spec(line) == seq![line],
        line.len() == 0 || line.last() != '\r' ==> lines_spec(line + seq!['\n'] + rest)
            == seq![line] + lines_spec(rest),
        lines_spec(line + seq!['\r', '\n'] + rest) == seq![line] + lines_spec(rest),
{
    let k = CharClass::Just('\n');
    let i = line.len() as int;
    assert forall|j: int| 0 <= j < i implies !k.holds(#[trigger] line[j]) by {}
    lemma_find_is(line, k, i);
    let s = line + seq!['\n'] + rest;
    assert forall|j: int| 0 <= j < i implies !k.holds(#[trigger] s[j]) by {
        assert(s[j] == line[j]);
    }
    lemma_find_is(s, k, i);
    assert(s.take(i) =~= line);
    assert(s.skip(i + 1) =~= rest);
    let t = line + seq!['\r', '\n'] + rest;
    assert forall|j: int| 0 <= j < i + 1 implies !k.holds(#[trigger] t[j]) by {
        if j < i {
            assert(t[j] == line[j]);
        }
    }
    assert(t[i + 1] == '\n');
    lemma_find_is(t, k, i + 1);
    assert(t.take(i + 1) =~= line.push('\r'));
    assert(line.push('\r').drop_last() =~= line);
    assert(t.skip(i + 2) =~= rest);
}

/// White space parts words, and nothing else does.
pub proof fn words_are_parted_by_white_space(word: Seq<char>, gap: char, rest: Seq<char>)
    requires
        forall|i: int| 0 <= i < word.len() ==> !is_white_space(#[trigger] word[i]),
        is_white_space(gap),
    ensures
        words_spec(seq![]) == Seq::<Seq<char>>::empty(),
        words_spec(seq![gap] + rest) == words_spec(rest),
        word.len() > 0 ==> words_spec(word) == seq![word],
        word.len() > 0 ==> words_spec(word + seq![gap] + rest) == seq![word] + words_spec(rest),
{
    let k = CharClass::White;
    let t = seq![gap] + rest;
    assert(t[0] == gap);
    assert(t.drop_first() =~= rest);
    let i = word.len() as int;
    if i > 0 {
        assert forall|j: int| 0 <= j < i implies !k.holds(#[trigger] word[j]) by {}
        lemma_find_is(word, k, i);
        assert(word.take(i) =~= word);
        assert(word.skip(i) =~= seq![]);
        assert(words_spec(word.skip(i)) == Seq::<Seq<char>>::empty());
        assert(words_spec(word) == seq![word] + words_spec(word.skip(i)));
        assert(words_spec(word) =~= seq![word]);
        let s = word + seq![gap] + rest;
        assert(s[0] == word[0]);
        assert forall|j: int| 0 <= j < i implies !k.holds(#[trigger] s[j]) by {
            assert(s[j] == word[j]);
        }
        assert(s[i] == gap);
        lemma_find_is(s, k, i);
        assert(s.take(i) =~= word);
        assert(s.skip(i) =~= t);
    }
}

/// Joined parts stand in their order, with the separator between each two.
pub proof fn joined_parts_keep_their_order(
    parts: Seq<Seq<char>>,
    part: Seq<char>,
    sep: Seq<char>,
)
    ensures
        join_spec(seq![], sep) == Seq::<char>::empty(),
        join_spec(seq![part], sep) == part,
        parts.len() > 0 ==> join_spec(parts.push(part), sep) == join_spec(parts, sep) + sep + part,
{
    assert(parts.push(part).drop_last() =~= parts);
}

/// A pattern is found where it stands, and only there.
pub proof fn pattern_is_found_where_it_stands(a: Seq<char>, pat: Seq<char>, b: Seq<char>)
    ensures
        contains_spec(a + pat + b, pat),
        occurs_at(a + pat + b, pat, a.len() as int),
        forall|s: Seq<char>, i: int| #[trigger]
            occurs_at(s, pat, i) ==> 0 <= i && i + pat.len() <= s.len() && forall|j: int|
                0 <= j < pat.len() ==> s[i + j] == #[trigger] pat[j],
        forall|s: Seq<char>| #[trigger]
            contains_spec(s, pat) ==> exists|i: int| occurs_at(s, pat, i),
{
    let s = a + pat + b;
    assert(s.subrange(a.len() as int, (a.len() + pat.len()) as int) =~= pat);
    assert(occurs_at(s, pat, a.len() as int));
    assert forall|s: Seq<char>, i: int| #[trigger] occurs_at(s, pat, i) implies 0 <= i && i
        + pat.len() <= s.len() && forall|j: int|
        0 <= j < pat.len() ==> s[i + j] == #[trigger] pat[j] by {
        assert forall|j: int| 0 <= j < pat.len() implies s[i + j] == #[trigger] pat[j] by {
            assert(s.subrange(i, i + pat.len())[j] == s[i + j]);
        }
    }
}

/// Taking a pattern out leaves what stands before its first occurrence, and
/// goes on behind it; a text without it stays as it is.
pub proof fn pattern_is_taken_out(s: Seq<char>, pat: Seq<char>, i: int)
    requires
        pat.len() > 0,
        0 <= i <= s.len(),
        forall|j: int| 0 <= j < i ==> !(#[trigger] occurs_at(s, pat, j)),
        i < s.len() ==> occurs_at(s, pat, i),
    ensures
        i == s.len() ==> remove_all_spec(s, pat) == s,
        i < s.len() ==> remove_all_spec(s, pat) == s.take(i) + remove_all_spec(
            s.skip(i + pat.len()),
            pat,
        ),
    decreases s.len(),
{
    if s.len() > 0 && i > 0 {
        let rest = s.drop_first();
        assert(!occurs_at(s, pat, 0));
        assert forall|j: int| 0 <= j < i - 1 implies !(#[trigger] occurs_at(rest, pat, j)) by {
            assert(!occurs_at(s, pat, j + 1));
            if occurs_at(rest, pat, j) {
                assert(rest.subrange(j, j + pat.len()) =~= s.subrange(j + 1, j + 1 + pat.len()));
            }
        }
        if i < s.len() {
            assert(rest.subrange(i - 1, i - 1 + pat.len()) =~= s.subrange(i, i + pat.len()));
        }
        pattern_is_taken_out(rest, pat, i - 1);
        assert(seq![s[0]] + rest =~= s);
        if i < s.len() {
            assert(rest.skip(i - 1 + pat.len()) =~= s.skip(i + pat.len()));
            assert(seq![s[0]] + rest.take(i - 1) =~= s.take(i));
            let more = remove_all_spec(s.skip(i + pat.len()), pat);
            assert(seq![s[0]] + (rest.take(i - 1) + more) =~= s.take(i) + more);
        }
    } else if s.len() > 0 {
        assert(s.take(0) =~= seq![]);
        let more = remove_all_spec(s.skip(pat.len() as int), pat);
        assert(Seq::<char>::empty() + more =~= more);
    }
}

/// Small letters replace ASCII capitals, one for one, and nothing else changes.
pub proof fn lowering_is_letter_by_letter(s: Seq<char>)
    ensures
        lowered(s).len() == s.len(),
        forall|i: int|
            0 <= i < s.len() ==> if 65 <= s[i] as u32 <= 90 {
                (#[trigger] lowered(s)[i]) as u32 == s[i] as u32 + 32
            } else {
                lowered(s)[i] == s[i]
            },
        forall|t: Seq<char>| #[trigger]
            same_ignoring_case_spec(s, t) <==> lowered(s) == lowered(t),
{
}

/// Texts are ordered by the first character in which they differ; a beginning
/// comes before what it begins.
pub proof fn first_difference_decides(p: Seq<char>, c: char, x: Seq<char>, d: char, y: Seq<char>)
    ensures
        c as u32 != d as u32 ==> (text_less(p + seq![c] + x, p + seq![d] + y) <==> (c as u32) < (
        d as u32)),
        text_less(p, p + seq![c] + x),
        !text_less(p + seq![c] + x, p),
        !text_less(p, p),
    decreases p.len(),
{
    let a = p + seq![c] + x;
    let b = p + seq![d] + y;
    if p.len() > 0 {
        let q = p.drop_first();
        assert(a.drop_first() =~= q + seq![c] + x);
        assert(b.drop_first() =~= q + seq![d] + y);
        assert(a[0] == p[0] && b[0] == p[0]);
        first_difference_decides(q, c, x, d, y);
    } else {
        assert(a[0] == c && b[0] == d);
    }
}

/// The texts of a list are those of its strings, in their order.
pub proof fn views_are_those_of_the_strings(v: Seq<String>)
    ensures
        views(v).len() == v.len(),
        forall|i: int| 0 <= i < v.len() ==> #[trigger] views(v)[i] == v[i]@,
{
}

/// White space is what Unicode calls by that name: twenty-five characters.
pub proof fn white_space_is_that_of_unicode(c: char)
    ensures
        is_white_space(c) <==> seq![
            9u32,
            10u32,
            11u32,
            12u32,
            13u32,
            32u32,
            133u32,
            160u32,
            5760u32,
            8192u32,
            8193u32,
            8194u32,
            8195u32,
            8196u32,
            8197u32,
            8198u32,
            8199u32,
            8200u32,
            8201u32,
            8202u32,
            8232u32,
            8233u32,
            8239u32,
            8287u32,
            12288u32,
        ].contains(c as u32),
        CharClass::White.holds(c) <==> is_white_space(c),
        forall|d: char| #[trigger] CharClass::Just(d).holds(c) <==> c == d,
{
    let n = c as u32;
    let all = seq![
        9u32,
        10u32,
        11u32,
        12u32,
        13u32,
        32u32,
        133u32,
        160u32,
        5760u32,
        8192u32,
        8193u32,
        8194u32,
        8195u32,
        8196u32,
        8197u32,
        8198u32,
        8199u32,
        8200u32,
        8201u32,
        8202u32,
        8232u32,
        8233u32,
        8239u32,
        8287u32,
        12288u32,
    ];
    if is_white_space(c) {
        assert(all[0] == 9 && all[1] == 10 && all[2] == 11 && all[3] == 12 && all[4] == 13);
        assert(all[5] == 32 && all[6] == 133 && all[7] == 160 && all[8] == 5760);
        assert(all[9] == 8192 && all[10] == 8193 && all[11] == 8194 && all[12] == 8195);
        assert(all[13] == 8196 && all[14] == 8197 && all[15] == 8198 && all[16] == 8199);
        assert(all[17] == 8200 && all[18] == 8201 && all[19] == 8202 && all[20] == 8232);
        assert(all[21] == 8233 && all[22] == 8239 && all[23] == 8287 && all[24] == 12288);
    }
}

proof fn lemma_join_first(parts: Seq<Seq<char>>, sep: Seq<char>)
    requires
        parts.len() > 1,
    ensures
        join_spec(parts, sep) == parts[0] + sep + join_spec(parts.drop_first(), sep),
    decreases parts.len(),
{
    let rest = parts.drop_first();
    if parts.len() == 2 {
        assert(parts.drop_last() =~= seq![parts[0]]);
        assert(join_spec(seq![parts[0]], sep) == parts[0]);
        assert(rest =~= seq![parts[1]]);
        assert(join_spec(seq![parts[1]], sep) == parts[1]);
    } else {
        let fewer = parts.drop_last();
        lemma_join_first(fewer, sep);
        assert(fewer.drop_first() =~= rest.drop_last());
        assert(rest.last() == parts.last());
        let middle = join_spec(rest.drop_last(), sep);
        assert(parts[0] + sep + middle + sep + parts.last() =~= parts[0] + sep + (middle + sep
            + parts.last()));
    }
}

/// Parts that are joined by a character that none of them holds are found again
/// by cutting at it.
pub proof fn cutting_undoes_joining(parts: Seq<Seq<char>>, sep: char)
    requires
        parts.len() > 0,
        forall|i: int, j: int|
            0 <= i < parts.len() && 0 <= j < parts[i].len() ==> #[trigger] parts[i][j] != sep,
    ensures
        split_spec(join_spec(parts, seq![sep]), sep) == parts,
    decreases parts.len(),
{
    let first = parts[0];
    assert forall|j: int| 0 <= j < first.len() implies #[trigger] first[j] != sep by {
        assert(parts[0][j] != sep);
    }
    if parts.len() == 1 {
        cutting_is_at_each_separator(first, seq![], sep, 0);
        assert(parts =~= seq![first]);
    } else {
        let rest = parts.drop_first();
        assert forall|i: int, j: int|
            0 <= i < rest.len() && 0 <= j < rest[i].len() implies #[trigger] rest[i][j] != sep by {
            assert(parts[i + 1][j] != sep);
        }
        cutting_undoes_joining(rest, sep);
        lemma_join_first(parts, seq![sep]);
        cutting_is_at_each_separator(first, join_spec(rest, seq![sep]), sep, 0);
        assert(seq![first] + rest =~= parts);
    }
}

/// Words that are joined by single spaces are found again.
pub proof fn words_of_joined_words(words: Seq<Seq<char>>, space: char)
    requires
        is_white_space(space),
        forall|i: int| 0 <= i < words.len() ==> (#[trigger] words[i]).len() > 0,
        forall|i: int, j: int|
            0 <= i < words.len() && 0 <= j < words[i].len() ==> !is_white_space(
                #[trigger] words[i][j],
            ),
    ensures
        words_spec(join_spec(words, seq![space])) == words,
    decreases words.len(),
{
    if words.len() > 0 {
        let first = words[0];
        assert forall|j: int| 0 <= j < first.len() implies !is_white_space(#[trigger] first[j]) by {
            assert(!is_white_space(words[0][j]));
        }
        if words.len() == 1 {
            words_are_parted_by_white_space(first, space, seq![]);
            assert(words =~= seq![first]);
        } else {
            let rest = words.drop_first();
            assert forall|i: int, j: int|
                0 <= i < rest.len() && 0 <= j < rest[i].len() implies !is_white_space(
                #[trigger] rest[i][j],
            ) by {
                assert(!is_white_space(words[i + 1][j]));
            }
            assert forall|i: int| 0 <= i < rest.len() implies (#[trigger] rest[i]).len() > 0 by {
                assert(words[i + 1].len() > 0);
            }
            words_of_joined_words(rest, space);
            lemma_join_first(words, seq![space]);
            words_are_parted_by_white_space(first, space, join_spec(rest, seq![space]));
            assert(seq![first] + rest =~= words);
        }
    } else {
        words_are_parted_by_white_space(seq![], space, seq![]);
    }
}

} // verus!
