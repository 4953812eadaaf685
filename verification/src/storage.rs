//! Which files are snapshots, and which of them are asked for: the newest, a
//! range, those that have outlived their time.

use crate::number::{
    decimal, decimal_has_no_leading_zeros, decimal_reads_back, digits_value, is_numeric,
    parse_reads_back_decimal, parse_u64, parse_u64_spec, to_decimal,
};
use crate::text::{chars_of, same, string_of, views};
use vstd::prelude::*;

verus! {

/// Where the last `c` stands in `s`, or -1.
pub open spec fn find_last(s: Seq<char>, c: char) -> int
    decreases s.len(),
{
    if s.len() == 0 {
        -1
    } else if s.last() == c {
        s.len() - 1
    } else {
        find_last(s.drop_last(), c)
    }
}

/// Whether a file's name ends in `.json`, with something before it.
pub open spec fn is_json_file(name: Seq<char>) -> bool {
    let dot = find_last(name, '.');
    dot > 0 && name.skip(dot + 1) == "json"@
}

/// When the snapshot in a file was taken: the number before `.json`. Files
/// with other names are no snapshots.
pub open spec fn timestamp_of(name: Seq<char>) -> Option<u64> {
    if is_json_file(name) {
        parse_u64_spec(name.take(find_last(name, '.')))
    } else {
        None
    }
}

proof fn lemma_find_last(s: Seq<char>, c: char)
    ensures
        -1 <= find_last(s, c) < s.len(),
        find_last(s, c) >= 0 ==> s[find_last(s, c)] == c,
        forall|i: int| find_last(s, c) < i < s.len() ==> s[i] != c,
    decreases s.len(),
{
    if s.len() > 0 && s.last() != c {
        lemma_find_last(s.drop_last(), c);
        assert forall|i: int| find_last(s, c) < i < s.len() implies s[i] != c by {
            if i < s.len() - 1 {
                assert(s[i] == s.drop_last()[i]);
            }
        }
    }
}

proof fn lemma_find_last_is(s: Seq<char>, c: char, i: int)
    requires
        0 <= i < s.len(),
        s[i] == c,
        forall|j: int| i < j < s.len() ==> s[j] != c,
    ensures
        find_last(s, c) == i,
{
    lemma_find_last(s, c);
}

/// The part of a file's name before `.json`, if it ends so.
fn json_stem(name: &str) -> (res: Option<String>)
    ensures
        match res {
            Some(stem) => is_json_file(name@) && stem@ == name@.take(find_last(name@, '.')),
            None => !is_json_file(name@),
        },
{
    let chars = chars_of(name);
    let mut i: usize = chars.len();
    while i > 0 && chars[i - 1] != '.'
        invariant
            i <= chars@.len(),
            chars@ == name@,
            forall|j: int| i <= j < chars@.len() ==> chars@[j] != '.',
        decreases i,
    {
        i -= 1;
    }
    proof {
        lemma_find_last(name@, '.');
        if i > 0 {
            lemma_find_last_is(name@, '.', i - 1);
        }
    }
    if i <= 1 {
        return None;
    }
    let extension = string_of(&chars, i, chars.len());
    assert(chars@.subrange(i as int, chars@.len() as int) =~= name@.skip(i as int));
    if same(extension.as_str(), "json") {
        assert(chars@.subrange(0, i - 1) =~= name@.take(i - 1));
        Some(string_of(&chars, 0, i - 1))
    } else {
        None
    }
}

/// When the snapshot in a file was taken.
pub fn snapshot_timestamp(name: &str) -> (res: Option<u64>)
    ensures
        res == timestamp_of(name@),
{
    match json_stem(name) {
        Some(stem) => parse_u64(stem.as_str()),
        None => None,
    }
}

/// The name of the file that a snapshot is saved in.
pub open spec fn file_name(timestamp: u64) -> Seq<char> {
    decimal(timestamp as nat) + ".json"@
}

/// The name of the file that a snapshot is saved in.
pub fn snapshot_file_name(timestamp: u64) -> (res: String)
    ensures
        res@ == file_name(timestamp),
        timestamp_of(res@) == Some(timestamp),
{
    let mut name = to_decimal(timestamp as u128);
    name.append(".json");
    proof {
        saved_snapshot_is_found(timestamp);
    }
    name
}

/// The file that a snapshot is saved in is recognised as a snapshot of that
/// time.
pub proof fn saved_snapshot_is_found(timestamp: u64)
    ensures
        timestamp_of(file_name(timestamp)) == Some(timestamp),
{
    let digits = decimal(timestamp as nat);
    let name = file_name(timestamp);
    reveal_strlit(".json");
    reveal_strlit("json");
    decimal_reads_back(timestamp as nat);
    let dot = digits.len() as int;
    assert(name[dot] == '.');
    lemma_find_last_is(name, '.', dot);
    assert(name.skip(dot + 1) =~= "json"@);
    assert(name.take(dot) =~= digits);
    parse_reads_back_decimal(timestamp);
}

/// Two snapshots of different times are saved in different files.
pub proof fn different_times_different_files(a: u64, b: u64)
    requires
        a != b,
    ensures
        file_name(a) != file_name(b),
{
    saved_snapshot_is_found(a);
    saved_snapshot_is_found(b);
}

/// The oldest and the newest snapshot, and how many there are.
#[derive(Debug, Clone, Copy, PartialEq, Eq, Structural)]
pub struct SnapshotBounds {
    pub oldest: Option<u64>,
    pub newest: Option<u64>,
    pub count: u64,
}

/// The files of the data directory, as they were listed.
pub struct SnapshotStore {
    pub names: Vec<String>,
}

impl View for SnapshotStore {
    type V = Seq<Seq<char>>;

    open spec fn view(&self) -> Seq<Seq<char>> {
        views(self.names@)
    }
}

/// The times of the snapshots among some files, in their order.
pub open spec fn timestamps(names: Seq<Seq<char>>) -> Seq<u64>
    decreases names.len(),
{
    if names.len() == 0 {
        seq![]
    } else {
        let earlier = timestamps(names.drop_last());
        match timestamp_of(names.last()) {
            Some(t) => earlier.push(t),
            None => earlier,
        }
    }
}

/// `t` is the least of some numbers.
pub open spec fn is_least(t: u64, all: Seq<u64>) -> bool {
    all.contains(t) && forall|i: int| 0 <= i < all.len() ==> t <= #[trigger] all[i]
}

/// `t` is the greatest of some numbers.
pub open spec fn is_greatest(t: u64, all: Seq<u64>) -> bool {
    all.contains(t) && forall|i: int| 0 <= i < all.len() ==> #[trigger] all[i] <= t
}

/// What the bounds of some snapshots are.
pub open spec fn bounds_of(all: Seq<u64>, bounds: SnapshotBounds) -> bool {
    &&& bounds.count == all.len()
    &&& match bounds.oldest {
        Some(t) => is_least(t, all),
        None => all.len() == 0,
    }
    &&& match bounds.newest {
        Some(t) => is_greatest(t, all),
        None => all.len() == 0,
    }
}

proof fn lemma_bounds_push(all: Seq<u64>, before: SnapshotBounds, t: u64, after: SnapshotBounds)
    requires
        bounds_of(all, before),
        after.count == before.count + 1,
        after.oldest == match before.oldest {
            Some(o) if o <= t => Some(o),
            _ => Some(t),
        },
        after.newest == match before.newest {
            Some(n) if n >= t => Some(n),
            _ => Some(t),
        },
    ensures
        bounds_of(all.push(t), after),
{
    let more = all.push(t);
    assert(more[all.len() as int] == t);
    assert forall|x: u64| all.contains(x) implies more.contains(x) by {
        let i = choose|i: int| 0 <= i < all.len() && all[i] == x;
        assert(more[i] == x);
    }
    assert forall|i: int| 0 <= i < more.len() implies after.oldest->0 <= #[trigger] more[i]
        && more[i] <= after.newest->0 by {
        if i < all.len() {
            assert(more[i] == all[i]);
        }
    }
}

/// `latest` is the first file that holds the most recent snapshot; there is
/// none only where there is no snapshot.
pub open spec fn is_latest(names: Seq<Seq<char>>, latest: Option<usize>) -> bool {
    match latest {
        Some(i) => {
            &&& i < names.len()
            &&& timestamp_of(names[i as int]) matches Some(t)
            &&& forall|j: int|
                0 <= j < names.len() ==> (timestamp_of(#[trigger] names[j]) matches Some(u) ==> u
                    <= t && (j < i ==> u < t))
        },
        None => forall|j: int|
            0 <= j < names.len() ==> timestamp_of(#[trigger] names[j]) is None,
    }
}

/// The indices, in order, of the files that hold snapshots of the times from
/// `low` to `high`.
pub open spec fn selects(
    names: Seq<Seq<char>>,
    low: int,
    high: int,
    selected: Seq<usize>,
) -> bool {
    &&& forall|a: int, b: int| 0 <= a < b < selected.len() ==> selected[a] < selected[b]
    &&& forall|a: int| 0 <= a < selected.len() ==> #[trigger] selected[a] < names.len()
    &&& forall|i: usize|
        i < names.len() ==> (#[trigger] selected.contains(i) <==> in_window(
            names[i as int],
            low,
            high,
        ))
}

/// Whether a file holds a snapshot of the times from `low` to `high`.
pub open spec fn in_window(name: Seq<char>, low: int, high: int) -> bool {
    timestamp_of(name) matches Some(t) && low <= t <= high
}

/// The total size of the `.json` files among some files, as far as it is
/// known.
pub open spec fn total_size(names: Seq<Seq<char>>, sizes: Seq<Option<u64>>) -> nat
    decreases names.len(),
{
    if names.len() == 0 || sizes.len() == 0 {
        0
    } else {
        let earlier = total_size(names.drop_last(), sizes.drop_last());
        match sizes.last() {
            Some(size) if is_json_file(names.last()) => earlier + size as nat,
            _ => earlier,
        }
    }
}

/// The time before which snapshots have outlived their retention.
pub open spec fn cutoff(now: u64, retention_days: u64) -> int {
    if now >= retention_days * 86400 {
        now - retention_days * 86400
    } else {
        0
    }
}

impl SnapshotStore {
    /// The data directory, of which these are the files.
    pub fn new(names: Vec<String>) -> (res: SnapshotStore)
        ensures
            res@ == views(names@),
    {
        SnapshotStore { names }
    }

    /// The oldest and the newest snapshot, and how many there are.
    pub fn get_bounds(&self) -> (res: SnapshotBounds)
        ensures
            bounds_of(timestamps(self@), res),
    {
        let mut bounds = SnapshotBounds { oldest: None, newest: None, count: 0 };
        let mut i: usize = 0;
        assert(self@.take(0) =~= Seq::<Seq<char>>::empty());
        while i < self.names.len()
            invariant
                i <= self.names@.len(),
                self@ == views(self.names@),
                bounds_of(timestamps(self@.take(i as int)), bounds),
                bounds.count <= i,
            decreases self.names@.len() - i,
        {
            let ghost before = bounds;
            let ghost all = timestamps(self@.take(i as int));
            proof {
                assert(self@.take(i + 1).drop_last() =~= self@.take(i as int));
                assert(self@.take(i + 1).last() == self@[i as int]);
            }
            if let Some(t) = snapshot_timestamp(self.names[i].as_str()) {
                let oldest: u64 = match bounds.oldest {
                    Some(o) => if o <= t {
                        o
                    } else {
                        t
                    },
                    None => t,
                };
                let newest: u64 = match bounds.newest {
                    Some(n) => if n >= t {
                        n
                    } else {
                        t
                    },
                    None => t,
                };
                bounds = SnapshotBounds {
                    oldest: Some(oldest),
                    newest: Some(newest),
                    count: bounds.count + 1,
                };
                proof {
                    lemma_bounds_push(all, before, t, bounds);
                }
            }
            i += 1;
        }
        assert(self@.take(i as int) =~= self@);
        bounds
    }

    /// Which file holds the most recent snapshot, the first of them if there
    /// are several.
    pub fn get_latest(&self) -> (res: Option<usize>)
        ensures
            is_latest(self@, res),
    {
        let mut latest: Option<usize> = None;
        let mut latest_ts: u64 = 0;
        let mut i: usize = 0;
        while i < self.names.len()
            invariant
                i <= self.names@.len(),
                self@ == views(self.names@),
                match latest {
                    Some(l) => {
                        &&& l < i
                        &&& timestamp_of(self@[l as int]) == Some(latest_ts)
                        &&& forall|j: int|
                            0 <= j < i ==> (timestamp_of(#[trigger] self@[j]) matches Some(u) ==> u
                                <= latest_ts && (j < l ==> u < latest_ts))
                    },
                    None => forall|j: int|
                        0 <= j < i ==> timestamp_of(#[trigger] self@[j]) is None,
                },
            decreases self.names@.len() - i,
        {
            assert(self@[i as int] == self.names@[i as int]@);
            if let Some(t) = snapshot_timestamp(self.names[i].as_str()) {
                if latest.is_none() || t > latest_ts {
                    latest_ts = t;
                    latest = Some(i);
                }
            }
            i += 1;
        }
        latest
    }

    /// Which files hold snapshots of the times from `low` to `high`.
    fn select(&self, low: u64, high: u64) -> (res: Vec<usize>)
        ensures
            selects(self@, low as int, high as int, res@),
    {
        let mut selected: Vec<usize> = Vec::new();
        let mut i: usize = 0;
        while i < self.names.len()
            invariant
                i <= self.names@.len(),
                self@ == views(self.names@),
                forall|a: int, b: int|
                    0 <= a < b < selected@.len() ==> selected@[a] < selected@[b],
                forall|a: int| 0 <= a < selected@.len() ==> #[trigger] selected@[a] < i,
                forall|j: usize|
                    j < i ==> (#[trigger] selected@.contains(j) <==> in_window(
                        self@[j as int],
                        low as int,
                        high as int,
                    )),
            decreases self.names@.len() - i,
        {
            assert(self@[i as int] == self.names@[i as int]@);
            let ghost before = selected@;
            let chosen = match snapshot_timestamp(self.names[i].as_str()) {
                Some(t) => low <= t && t <= high,
                None => false,
            };
            if chosen {
                selected.push(i);
            }
            proof {
                assert(!before.contains(i));
                assert forall|j: usize| j < i + 1 implies (#[trigger] selected@.contains(j)
                    <==> in_window(self@[j as int], low as int, high as int)) by {
                    if chosen {
                        assert(selected@[before.len() as int] == i);
                        if before.contains(j) {
                            let a = choose|a: int| 0 <= a < before.len() && before[a] == j;
                            assert(selected@[a] == j);
                        }
                        if selected@.contains(j) && j != i {
                            let a = choose|a: int| 0 <= a < selected@.len() && selected@[a] == j;
                            assert(before[a] == j);
                        }
                    }
                }
            }
            i += 1;
        }
        selected
    }

    /// Which files hold snapshots from `since` to `until`.
    pub fn get_range(&self, since: u64, until: u64) -> (res: Vec<usize>)
        ensures
            selects(self@, since as int, until as int, res@),
    {
        self.select(since, until)
    }

    /// Which files hold snapshots that have outlived their retention.
    pub fn rotate(&self, now: u64, retention_days: u64) -> (res: Vec<usize>)
        ensures
            selects(self@, 0, cutoff(now, retention_days) - 1, res@),
    {
        let first_kept: u64 = match retention_days.checked_mul(86400) {
            Some(retention) => now.saturating_sub(retention),
            None => 0,
        };
        if first_kept == 0 {
            let none: Vec<usize> = Vec::new();
            assert(forall|i: usize| !none@.contains(i));
            none
        } else {
            self.select(0, first_kept - 1)
        }
    }

    /// Sum of the byte sizes of all `*.json` files, as far as they are known.
    pub fn snapshots_disk_bytes(&self, sizes: &Vec<Option<u64>>) -> (res: u64)
        requires
            sizes@.len() == self@.len(),
        ensures
            res == if total_size(self@, sizes@) <= u64::MAX {
                total_size(self@, sizes@)
            } else {
                u64::MAX as nat
            },
    {
        let mut total: u64 = 0;
        let mut i: usize = 0;
        assert(self@.take(0) =~= Seq::<Seq<char>>::empty());
        while i < self.names.len()
            invariant
                i <= self.names@.len(),
                self@ == views(self.names@),
                sizes@.len() == self@.len(),
                total == if total_size(self@.take(i as int), sizes@.take(i as int)) <= u64::MAX {
                    total_size(self@.take(i as int), sizes@.take(i as int))
                } else {
                    u64::MAX as nat
                },
            decreases self.names@.len() - i,
        {
            proof {
                assert(self@.take(i + 1).drop_last() =~= self@.take(i as int));
                assert(sizes@.take(i + 1).drop_last() =~= sizes@.take(i as int));
                assert(self@.take(i + 1).last() == self@[i as int]);
                assert(sizes@.take(i + 1).last() == sizes@[i as int]);
            }
            if json_stem(self.names[i].as_str()).is_some() {
                if let Some(size) = sizes[i] {
                    total = total.saturating_add(size);
                }
            }
            i += 1;
        }
        assert(self@.take(i as int) =~= self@);
        assert(sizes@.take(i as int) =~= sizes@);
        total
    }
}

/// Whether snapshot `a` comes before snapshot `b`: it is older, or as old and
/// listed first.
pub open spec fn before(times: Seq<u64>, a: int, b: int) -> bool {
    times[a] < times[b] || (times[a] == times[b] && a < b)
}

/// `order` names snapshots by their index, each before the next.
pub open spec fn is_ordered(times: Seq<u64>, order: Seq<usize>) -> bool {
    &&& forall|a: int| 0 <= a < order.len() ==> #[trigger] order[a] < times.len()
    &&& forall|a: int, b: int|
        0 <= a < b < order.len() ==> before(times, order[a] as int, order[b] as int)
}

/// `order` holds the last `count` snapshots, each before the next: whichever
/// it leaves out comes before all of them.
pub open spec fn is_last_in_order(times: Seq<u64>, count: nat, order: Seq<usize>) -> bool {
    &&& is_ordered(times, order)
    &&& order.len() == count
    &&& forall|i: usize, a: int|
        i < times.len() && !(#[trigger] order.contains(i)) && 0 <= a < order.len() ==> before(
            times,
            i as int,
            #[trigger] order[a] as int,
        )
}

/// Puts two ordered lists together into one.
fn merge(times: &Vec<u64>, x: &Vec<usize>, y: &Vec<usize>) -> (res: Vec<usize>)
    requires
        is_ordered(times@, x@),
        is_ordered(times@, y@),
        x@.len() + y@.len() <= times@.len(),
        forall|a: int, b: int| 0 <= a < x@.len() && 0 <= b < y@.len() ==> x@[a] != y@[b],
    ensures
        is_ordered(times@, res@),
        res@.len() == x@.len() + y@.len(),
        forall|i: usize| #[trigger] x@.contains(i) ==> res@.contains(i),
        forall|i: usize| #[trigger] y@.contains(i) ==> res@.contains(i),
        forall|i: usize| #[trigger] res@.contains(i) ==> x@.contains(i) || y@.contains(i),
{
    let mut res: Vec<usize> = Vec::new();
    let mut i: usize = 0;
    let mut j: usize = 0;
    let n: usize = times.len();
    while i < x.len() || j < y.len()
        invariant
            is_ordered(times@, x@),
            is_ordered(times@, y@),
            n == times@.len(),
            x@.len() + y@.len() <= times@.len(),
            forall|a: int, b: int| 0 <= a < x@.len() && 0 <= b < y@.len() ==> x@[a] != y@[b],
            i <= x@.len(),
            j <= y@.len(),
            res@.len() == i + j,
            is_ordered(times@, res@),
            forall|a: int, b: int|
                #![trigger res@[a], x@[b]]
                0 <= a < res@.len() && i <= b < x@.len() ==> before(
                    times@,
                    res@[a] as int,
                    x@[b] as int,
                ),
            forall|a: int, b: int|
                #![trigger res@[a], y@[b]]
                0 <= a < res@.len() && j <= b < y@.len() ==> before(
                    times@,
                    res@[a] as int,
                    y@[b] as int,
                ),
            forall|b: int| 0 <= b < i ==> res@.contains(#[trigger] x@[b]),
            forall|b: int| 0 <= b < j ==> res@.contains(#[trigger] y@[b]),
            forall|a: int|
                0 <= a < res@.len() ==> x@.contains(#[trigger] res@[a]) || y@.contains(res@[a]),
        decreases x@.len() - i + y@.len() - j,
    {
        let from_x = if i >= x.len() {
            false
        } else if j >= y.len() {
            true
        } else {
            let a: usize = x[i];
            let b: usize = y[j];
            times[a] < times[b] || (times[a] == times[b] && a < b)
        };
        let ghost earlier = res@;
        if from_x {
            res.push(x[i]);
            proof {
                assert forall|b: int| j <= b < y@.len() implies before(
                    times@,
                    x@[i as int] as int,
                    #[trigger] y@[b] as int,
                ) by {
                    assert(before(times@, x@[i as int] as int, y@[j as int] as int));
                    assert(j < b ==> before(times@, y@[j as int] as int, y@[b] as int));
                }
                assert(res@[earlier.len() as int] == x@[i as int]);
                assert forall|b: int| 0 <= b < i + 1 implies res@.contains(#[trigger] x@[b]) by {
                    if b < i {
                        let a = choose|a: int| 0 <= a < earlier.len() && earlier[a] == x@[b];
                        assert(res@[a] == x@[b]);
                    }
                }
                assert forall|b: int| 0 <= b < j implies res@.contains(#[trigger] y@[b]) by {
                    let a = choose|a: int| 0 <= a < earlier.len() && earlier[a] == y@[b];
                    assert(res@[a] == y@[b]);
                }
            }
            i += 1;
        } else {
            res.push(y[j]);
            proof {
                assert forall|b: int| i <= b < x@.len() implies before(
                    times@,
                    y@[j as int] as int,
                    #[trigger] x@[b] as int,
                ) by {
                    assert(x@[i as int] != y@[j as int]);
                    assert(before(times@, y@[j as int] as int, x@[i as int] as int));
                    assert(i < b ==> before(times@, x@[i as int] as int, x@[b] as int));
                }
                assert(res@[earlier.len() as int] == y@[j as int]);
                assert forall|b: int| 0 <= b < j + 1 implies res@.contains(#[trigger] y@[b]) by {
                    if b < j {
                        let a = choose|a: int| 0 <= a < earlier.len() && earlier[a] == y@[b];
                        assert(res@[a] == y@[b]);
                    }
                }
                assert forall|b: int| 0 <= b < i implies res@.contains(#[trigger] x@[b]) by {
                    let a = choose|a: int| 0 <= a < earlier.len() && earlier[a] == x@[b];
                    assert(res@[a] == x@[b]);
                }
            }
            j += 1;
        }
    }
    res
}

/// The snapshots from index `from` to `to`, ordered.
fn sort(times: &Vec<u64>, from: usize, to: usize) -> (res: Vec<usize>)
    requires
        from <= to <= times@.len(),
    ensures
        is_ordered(times@, res@),
        res@.len() == to - from,
        forall|i: usize| #[trigger] res@.contains(i) <==> from <= i < to,
    decreases to - from,
{
    if to - from <= 1 {
        let mut res: Vec<usize> = Vec::new();
        if from < to {
            res.push(from);
            assert(res@[0] == from);
        }
        return res;
    }
    let middle: usize = from + (to - from) / 2;
    let x = sort(times, from, middle);
    let y = sort(times, middle, to);
    assert forall|a: int, b: int| 0 <= a < x@.len() && 0 <= b < y@.len() implies x@[a]
        != y@[b] by {
        assert(x@.contains(x@[a]));
        assert(y@.contains(y@[b]));
    }
    let res = merge(times, &x, &y);
    assert forall|i: usize| #[trigger] res@.contains(i) <==> from <= i < to by {
        assert(x@.contains(i) <==> from <= i < middle);
        assert(y@.contains(i) <==> middle <= i < to);
    }
    res
}

/// How many of `n` snapshots are wanted.
pub open spec fn wanted(n: nat, limit: Option<usize>) -> nat {
    match limit {
        Some(max) if max < n => max as nat,
        _ => n,
    }
}

/// Puts snapshots in the order of their times, and keeps the last `limit` of
/// them.
pub fn order_range(times: &Vec<u64>, limit: Option<usize>) -> (res: Vec<usize>)
    ensures
        is_last_in_order(times@, wanted(times@.len(), limit), res@),
{
    let all = sort(times, 0, times.len());
    let start: usize = match limit {
        Some(max) => if all.len() > max {
            all.len() - max
        } else {
            0
        },
        None => 0,
    };
    let mut res: Vec<usize> = Vec::new();
    let mut k: usize = start;
    while k < all.len()
        invariant
            start <= k <= all@.len(),
            res@ == all@.subrange(start as int, k as int),
        decreases all@.len() - k,
    {
        res.push(all[k]);
        k += 1;
    }
    proof {
        assert forall|i: usize, a: int|
            i < times@.len() && !(#[trigger] res@.contains(i)) && 0 <= a < res@.len() implies before(
            times@,
            i as int,
            #[trigger] res@[a] as int,
        ) by {
            assert(all@.contains(i));
            let b = choose|b: int| 0 <= b < all@.len() && all@[b] == i;
            if b >= start {
                assert(res@[b - start] == i);
            }
            assert(res@[a] == all@[start + a]);
        }
    }
    res
}

/// How many of some files could be read.
pub open spec fn count_read(read: Seq<Option<u64>>) -> nat
    decreases read.len(),
{
    if read.len() == 0 {
        0
    } else {
        count_read(read.drop_last()) + if read.last() is Some {
            1nat
        } else {
            0nat
        }
    }
}

/// Whether file `a` comes before file `b`: its snapshot is older, or as old
/// and listed first.
pub open spec fn read_before(read: Seq<Option<u64>>, a: int, b: int) -> bool {
    read[a]->0 < read[b]->0 || (read[a]->0 == read[b]->0 && a < b)
}

/// `order` holds the last `limit` of the files that could be read, each before
/// the next: whichever of them it leaves out comes before all of it.
pub open spec fn is_answer(
    read: Seq<Option<u64>>,
    limit: Option<usize>,
    order: Seq<usize>,
) -> bool {
    &&& order.len() == wanted(count_read(read), limit)
    &&& forall|a: int|
        0 <= a < order.len() ==> #[trigger] order[a] < read.len() && read[order[a] as int] is Some
    &&& forall|a: int, b: int|
        0 <= a < b < order.len() ==> read_before(read, order[a] as int, order[b] as int)
    &&& forall|i: usize, a: int|
        i < read.len() && read[i as int] is Some && !(#[trigger] order.contains(i)) && 0 <= a
            < order.len() ==> read_before(read, i as int, #[trigger] order[a] as int)
}

/// Which of the files that a range holds are answered with, and in what order.
/// `read` gives for each of them the time of the snapshot in it, if it could
/// be read; a file that could not is passed over.
#[verifier::spinoff_prover]
pub fn answer_range(read: &Vec<Option<u64>>, limit: Option<usize>) -> (res: Vec<usize>)
    ensures
        is_answer(read@, limit, res@),
{
    let mut indices: Vec<usize> = Vec::new();
    let mut times: Vec<u64> = Vec::new();
    let mut i: usize = 0;
    assert(read@.take(0) =~= Seq::<Option<u64>>::empty());
    while i < read.len()
        invariant
            i <= read@.len(),
            indices@.len() == times@.len() == count_read(read@.take(i as int)),
            forall|a: int, b: int| 0 <= a < b < indices@.len() ==> indices@[a] < indices@[b],
            forall|a: int|
                0 <= a < indices@.len() ==> #[trigger] indices@[a] < i
                    && read@[indices@[a] as int] == Some(times@[a]),
            forall|j: usize| j < i && read@[j as int] is Some ==> #[trigger] indices@.contains(j),
        decreases read@.len() - i,
    {
        let ghost seen = indices@;
        assert(read@.take(i + 1).drop_last() =~= read@.take(i as int));
        if let Some(t) = read[i] {
            indices.push(i);
            times.push(t);
            assert(indices@[seen.len() as int] == i);
            assert forall|j: usize| j < i + 1 && read@[j as int] is Some implies (
            #[trigger] indices@.contains(j)) by {
                if j < i {
                    assert(seen.contains(j));
                    let a = choose|a: int| 0 <= a < seen.len() && seen[a] == j;
                    assert(indices@[a] == j);
                }
            }
        }
        i += 1;
    }
    assert(read@.take(i as int) =~= read@);
    let order = order_range(&times, limit);
    let mut res: Vec<usize> = Vec::new();
    let mut k: usize = 0;
    while k < order.len()
        invariant
            k <= order@.len(),
            is_ordered(times@, order@),
            indices@.len() == times@.len(),
            res@.len() == k,
            forall|a: int| 0 <= a < k ==> #[trigger] res@[a] == indices@[order@[a] as int],
        decreases order@.len() - k,
    {
        res.push(indices[order[k]]);
        k += 1;
    }
    proof {
        assert forall|a: int, b: int| 0 <= a < b < res@.len() implies read_before(
            read@,
            res@[a] as int,
            res@[b] as int,
        ) by {
            assert(before(times@, order@[a] as int, order@[b] as int));
        }
        assert forall|i: usize, a: int|
            i < read@.len() && read@[i as int] is Some && !(#[trigger] res@.contains(i)) && 0 <= a
                < res@.len() implies read_before(read@, i as int, #[trigger] res@[a] as int) by {
            assert(indices@.contains(i));
            let k = choose|k: int| 0 <= k < indices@.len() && indices@[k] == i;
            if order@.contains(k as usize) {
                let b = choose|b: int| 0 <= b < order@.len() && order@[b] == k as usize;
                assert(order@[b] as int == k);
                assert(res@[b] == indices@[order@[b] as int]);
                assert(res@.contains(i));
            }
            assert(before(times@, k, order@[a] as int));
            assert(res@[a] == indices@[order@[a] as int]);
        }
    }
    res
}

proof fn lemma_timestamps_contains(names: Seq<Seq<char>>, t: u64)
    ensures
        timestamps(names).contains(t) <==> exists|j: int|
            0 <= j < names.len() && timestamp_of(#[trigger] names[j]) == Some(t),
    decreases names.len(),
{
    if names.len() > 0 {
        let fewer = names.drop_last();
        let earlier = timestamps(fewer);
        lemma_timestamps_contains(fewer, t);
        if timestamps(names).contains(t) {
            let k = choose|k: int| 0 <= k < timestamps(names).len() && timestamps(names)[k] == t;
            if k < earlier.len() {
                assert(earlier[k] == t);
                let j = choose|j: int|
                    0 <= j < fewer.len() && timestamp_of(#[trigger] fewer[j]) == Some(t);
                assert(names[j] == fewer[j]);
            } else {
                assert(timestamp_of(names[names.len() - 1]) == Some(t));
            }
        }
        if exists|j: int| 0 <= j < names.len() && timestamp_of(#[trigger] names[j]) == Some(t) {
            let j = choose|j: int|
                0 <= j < names.len() && timestamp_of(#[trigger] names[j]) == Some(t);
            if j < fewer.len() {
                assert(fewer[j] == names[j]);
                let k = choose|k: int| 0 <= k < earlier.len() && earlier[k] == t;
                assert(timestamps(names)[k] == t);
            } else {
                assert(timestamps(names)[earlier.len() as int] == t);
            }
        }
    }
}

/// The most recent snapshot is the newest one: the two agree on its time.
pub proof fn latest_is_newest(
    names: Seq<Seq<char>>,
    latest: Option<usize>,
    bounds: SnapshotBounds,
)
    requires
        is_latest(names, latest),
        bounds_of(timestamps(names), bounds),
    ensures
        match latest {
            Some(i) => bounds.newest == timestamp_of(names[i as int]),
            None => bounds.newest is None,
        },
{
    let all = timestamps(names);
    if let Some(i) = latest {
        let t = timestamp_of(names[i as int])->0;
        lemma_timestamps_contains(names, t);
        assert(all.contains(t));
        let k = choose|k: int| 0 <= k < all.len() && all[k] == t;
        assert(all[k] == t);
    }
    if let Some(newest) = bounds.newest {
        lemma_timestamps_contains(names, newest);
        let j = choose|j: int|
            0 <= j < names.len() && timestamp_of(#[trigger] names[j]) == Some(newest);
        assert(timestamp_of(names[j]) == Some(newest));
    }
}

/// A snapshot that is saved, and is younger than all others, is the most recent
/// one from then on.
pub proof fn youngest_snapshot_is_latest(
    names: Seq<Seq<char>>,
    timestamp: u64,
    latest: Option<usize>,
)
    requires
        forall|j: int|
            0 <= j < names.len() ==> (timestamp_of(#[trigger] names[j]) matches Some(u) ==> u
                < timestamp),
        is_latest(names.push(file_name(timestamp)), latest),
    ensures
        latest matches Some(i) && i == names.len(),
{
    let more = names.push(file_name(timestamp));
    saved_snapshot_is_found(timestamp);
    assert(timestamp_of(more[names.len() as int]) == Some(timestamp));
    if let Some(i) = latest {
        if i < names.len() {
            assert(more[i as int] == names[i as int]);
        }
    }
}

/// A snapshot that is saved is counted, and from then on the oldest is no
/// younger and the newest no older than it.
pub proof fn saved_snapshot_is_counted(
    names: Seq<Seq<char>>,
    timestamp: u64,
    earlier: SnapshotBounds,
    later: SnapshotBounds,
)
    requires
        bounds_of(timestamps(names), earlier),
        bounds_of(timestamps(names.push(file_name(timestamp))), later),
    ensures
        later.count == earlier.count + 1,
        later.oldest matches Some(o) && o <= timestamp,
        later.newest matches Some(n) && n >= timestamp,
{
    let more = names.push(file_name(timestamp));
    saved_snapshot_is_found(timestamp);
    assert(more.drop_last() =~= names);
    let all = timestamps(more);
    assert(all[all.len() - 1] == timestamp);
}

/// A snapshot that is saved is among those of every range that holds its time.
pub proof fn saved_snapshot_is_in_range(
    names: Seq<Seq<char>>,
    i: usize,
    timestamp: u64,
    since: u64,
    until: u64,
    selected: Seq<usize>,
)
    requires
        i < names.len(),
        names[i as int] == file_name(timestamp),
        selects(names, since as int, until as int, selected),
    ensures
        selected.contains(i) <==> since <= timestamp <= until,
{
    saved_snapshot_is_found(timestamp);
}

/// A saved snapshot is pruned when more than the retention has passed since its
/// time, and not before.
pub proof fn retention_is_kept(
    names: Seq<Seq<char>>,
    i: usize,
    timestamp: u64,
    now: u64,
    retention_days: u64,
    removed: Seq<usize>,
)
    requires
        i < names.len(),
        names[i as int] == file_name(timestamp),
        selects(names, 0, cutoff(now, retention_days) - 1, removed),
    ensures
        removed.contains(i) <==> timestamp + retention_days * 86400 < now,
{
    saved_snapshot_is_found(timestamp);
}

/// Pruning is complete: of the files that it leaves, it would take none again.
pub proof fn rotation_is_complete(
    names: Seq<Seq<char>>,
    now: u64,
    retention_days: u64,
    removed: Seq<usize>,
    rest: Seq<Seq<char>>,
    again: Seq<usize>,
)
    requires
        selects(names, 0, cutoff(now, retention_days) - 1, removed),
        forall|k: int|
            0 <= k < rest.len() ==> exists|i: usize|
                i < names.len() && !removed.contains(i) && names[i as int] == #[trigger] rest[k],
        selects(rest, 0, cutoff(now, retention_days) - 1, again),
    ensures
        again.len() == 0,
{
    if again.len() > 0 {
        let k = again[0];
        assert(again.contains(k));
        let name = rest[k as int];
        assert(in_window(name, 0, cutoff(now, retention_days) - 1));
        let i = choose|i: usize| i < names.len() && !removed.contains(i) && names[i as int] == name;
        assert(!removed.contains(i));
    }
}

// ─── What holds of every listing ─────────────────────────────────────────────

/// A file is a snapshot if its name is a number and `.json`, and its time is
/// that number; whatever else stands before `.json`, or in its place, makes it
/// none.
pub proof fn snapshots_are_numbered_json_files(stem: Seq<char>, name: Seq<char>)
    ensures
        is_json_file(stem + ".json"@) <==> stem.len() > 0,
        stem.len() > 0 ==> timestamp_of(stem + ".json"@) == parse_u64_spec(stem),
        timestamp_of(".json"@) is None,
        is_json_file(name) ==> exists|s: Seq<char>| s.len() > 0 && name == #[trigger] (s
            + ".json"@),
        timestamp_of(name) is Some ==> is_json_file(name),
{
    reveal_strlit(".json");
    reveal_strlit("json");
    let full = stem + ".json"@;
    let dot = stem.len() as int;
    assert(full[dot] == '.');
    lemma_find_last_is(full, '.', dot);
    assert(full.skip(dot + 1) =~= "json"@);
    assert(full.take(dot) =~= stem);
    lemma_find_last_is(".json"@, '.', 0);
    if is_json_file(name) {
        lemma_find_last(name, '.');
        let d = find_last(name, '.');
        let s = name.take(d);
        assert(name =~= s + ".json"@) by {
            assert forall|i: int| 0 <= i < name.len() implies name[i] == (s + ".json"@)[i] by {
                if i > d {
                    assert(name.skip(d + 1)[i - d - 1] == name[i]);
                }
            }
        }
    }
}

/// The times of a listing are those of its snapshots, in their order.
pub proof fn times_are_those_of_the_snapshots(a: Seq<Seq<char>>, name: Seq<char>, b: Seq<Seq<char>>)
    ensures
        timestamps(seq![]) == Seq::<u64>::empty(),
        timestamp_of(name) matches Some(t) ==> timestamps(seq![name]) == seq![t],
        timestamp_of(name) is None ==> timestamps(seq![name]) == Seq::<u64>::empty(),
        timestamps(a + b) == timestamps(a) + timestamps(b),
    decreases b.len(),
{
    let one = seq![name];
    assert(one.drop_last() =~= Seq::<Seq<char>>::empty());
    assert(timestamps(one.drop_last()) == Seq::<u64>::empty());
    assert(one.last() == name);
    if b.len() == 0 {
        assert(a + b =~= a);
        assert(timestamps(a) + timestamps(b) =~= timestamps(a));
    } else {
        times_are_those_of_the_snapshots(a, name, b.drop_last());
        assert((a + b).drop_last() =~= a + b.drop_last());
        assert((a + b).last() == b.last());
        assert(timestamps(a + b) =~= timestamps(a) + timestamps(b));
    }
}

/// The bounds are those of the files: no snapshot is older than the oldest or
/// newer than the newest, each of the two is the time of a file, and both are
/// missing only where there is no snapshot.
pub proof fn bounds_are_those_of_the_files(names: Seq<Seq<char>>, bounds: SnapshotBounds)
    requires
        bounds_of(timestamps(names), bounds),
    ensures
        bounds.count == timestamps(names).len(),
        forall|j: int|
            0 <= j < names.len() ==> (timestamp_of(#[trigger] names[j]) matches Some(t)
                ==> bounds.oldest is Some && bounds.newest is Some && bounds.oldest->0 <= t
                <= bounds.newest->0),
        bounds.oldest matches Some(t) ==> exists|j: int|
            0 <= j < names.len() && timestamp_of(#[trigger] names[j]) == Some(t),
        bounds.newest matches Some(t) ==> exists|j: int|
            0 <= j < names.len() && timestamp_of(#[trigger] names[j]) == Some(t),
{
    let all = timestamps(names);
    assert forall|j: int| 0 <= j < names.len() implies (timestamp_of(#[trigger] names[j]) matches
        Some(t) ==> bounds.oldest is Some && bounds.newest is Some && bounds.oldest->0 <= t
        <= bounds.newest->0) by {
        if let Some(t) = timestamp_of(names[j]) {
            lemma_timestamps_contains(names, t);
            assert(all.contains(t));
            let k = choose|k: int| 0 <= k < all.len() && all[k] == t;
            assert(all[k] == t);
        }
    }
    if let Some(t) = bounds.oldest {
        lemma_timestamps_contains(names, t);
    }
    if let Some(t) = bounds.newest {
        lemma_timestamps_contains(names, t);
    }
}

/// The most recent snapshot is a file of the listing that no other snapshot is
/// newer than, and that none before it is as new as; there is none only where
/// there is no snapshot.
pub proof fn latest_is_the_first_of_the_newest(names: Seq<Seq<char>>, latest: Option<usize>, j: int)
    requires
        is_latest(names, latest),
        0 <= j < names.len(),
        timestamp_of(names[j]) is Some,
    ensures
        ({
            &&& latest matches Some(i)
            &&& i < names.len()
            &&& timestamp_of(names[i as int]) matches Some(t)
            &&& timestamp_of(names[j])->0 <= t
            &&& j < i ==> timestamp_of(names[j])->0 < t
        }),
{
    assert(names[j] == names[j]);
}

/// A range holds the snapshots of the listing whose time lies in it, both ends
/// included, each once and in the order of the listing.
pub proof fn range_holds_what_lies_in_it(
    names: Seq<Seq<char>>,
    since: u64,
    until: u64,
    selected: Seq<usize>,
    i: usize,
)
    requires
        selects(names, since as int, until as int, selected),
        i < names.len(),
    ensures
        selected.contains(i) <==> (timestamp_of(names[i as int]) matches Some(t) && since <= t
            && t <= until),
        forall|a: int| 0 <= a < selected.len() ==> #[trigger] selected[a] < names.len(),
        forall|a: int, b: int| 0 <= a < b < selected.len() ==> selected[a] < selected[b],
{
}

/// Pruning takes the snapshots whose time is more than the retention ago, and
/// no other file.
pub proof fn pruning_takes_the_old(
    names: Seq<Seq<char>>,
    now: u64,
    retention_days: u64,
    removed: Seq<usize>,
    i: usize,
)
    requires
        selects(names, 0, cutoff(now, retention_days) - 1, removed),
        i < names.len(),
    ensures
        removed.contains(i) <==> (timestamp_of(names[i as int]) matches Some(t) && t + 86400
            * retention_days < now),
{
}

/// The size of a listing is the sum of the sizes of its `.json` files, as far
/// as they are known.
pub proof fn size_is_the_sum_of_the_json_files(
    names: Seq<Seq<char>>,
    sizes: Seq<Option<u64>>,
    name: Seq<char>,
    size: Option<u64>,
)
    requires
        names.len() == sizes.len(),
    ensures
        total_size(seq![], seq![]) == 0,
        total_size(names.push(name), sizes.push(size)) == total_size(names, sizes) + match size {
            Some(n) => if is_json_file(name) {
                n as nat
            } else {
                0
            },
            None => 0,
        },
{
    assert(names.push(name).drop_last() =~= names);
    assert(sizes.push(size).drop_last() =~= sizes);
}

/// An answer holds snapshots that were read, from the oldest to the newest, no
/// more than the limit; one that is left out is no newer than any of those
/// that are not, and none is left out below the limit.
pub proof fn answer_holds_the_newest(
    read: Seq<Option<u64>>,
    limit: Option<usize>,
    order: Seq<usize>,
    i: usize,
)
    requires
        is_answer(read, limit, order),
        i < read.len(),
        read[i as int] is Some,
    ensures
        limit matches Some(max) ==> order.len() <= max,
        forall|a: int|
            0 <= a < order.len() ==> #[trigger] order[a] < read.len() && read[order[a] as int] is Some,
        forall|a: int, b: int|
            0 <= a < b < order.len() ==> order[a] != order[b] && read[order[a] as int]->0
                <= read[order[b] as int]->0,
        forall|a: int, b: int|
            0 <= a < b < order.len() && read[order[a] as int]->0 == read[order[b] as int]->0
                ==> order[a] < order[b],
        !order.contains(i) ==> (limit matches Some(max) && order.len() == max) && forall|a: int|
            0 <= a < order.len() ==> read[i as int]->0 <= read[(#[trigger] order[a]) as int]->0,
{
    assert forall|a: int, b: int| 0 <= a < b < order.len() implies order[a] != order[b]
        && read[order[a] as int]->0 <= read[order[b] as int]->0 by {
        assert(read_before(read, order[a] as int, order[b] as int));
    }
    assert forall|a: int, b: int|
        0 <= a < b < order.len() && read[order[a] as int]->0
            == read[order[b] as int]->0 implies order[a] < order[b] by {
        assert(read_before(read, order[a] as int, order[b] as int));
    }
    if !order.contains(i) {
        assert forall|a: int| 0 <= a < order.len() implies read[i as int]->0 <= read[(
        #[trigger] order[a]) as int]->0 by {
            assert(read_before(read, i as int, order[a] as int));
        }
        lemma_all_counted(read, order, i);
    }
}

/// As many different indices as there are files that were read leave none of
/// them out.
proof fn lemma_all_counted(read: Seq<Option<u64>>, order: Seq<usize>, i: usize)
    requires
        forall|a: int|
            0 <= a < order.len() ==> #[trigger] order[a] < read.len() && read[order[a] as int] is Some,
        forall|a: int, b: int| 0 <= a < b < order.len() ==> order[a] != order[b],
        i < read.len(),
        read[i as int] is Some,
        !order.contains(i),
    ensures
        order.len() < count_read(read),
    decreases read.len(),
{
    let n = read.len() - 1;
    let fewer = read.drop_last();
    if i == n {
        lemma_count_bound(fewer, order);
    } else if exists|k: int| 0 <= k < order.len() && (#[trigger] order[k]) as int == n {
        let k = choose|k: int| 0 <= k < order.len() && (#[trigger] order[k]) as int == n;
        assert(read[n] is Some);
        let rest = order.remove(k);
        assert forall|a: int| 0 <= a < rest.len() implies #[trigger] rest[a] < fewer.len()
            && fewer[rest[a] as int] is Some by {
            if a < k {
                assert(rest[a] == order[a]);
            } else {
                assert(rest[a] == order[a + 1]);
            }
        }
        assert(!rest.contains(i)) by {
            if rest.contains(i) {
                let a = choose|a: int| 0 <= a < rest.len() && rest[a] == i;
                assert(order[if a < k { a } else { a + 1 }] == i);
            }
        }
        lemma_all_counted(fewer, rest, i);
    } else {
        assert forall|a: int| 0 <= a < order.len() implies #[trigger] order[a] < fewer.len()
            && fewer[order[a] as int] is Some by {
            assert(order[a] as int != n);
        }
        lemma_all_counted(fewer, order, i);
    }
}

proof fn lemma_count_bound(read: Seq<Option<u64>>, order: Seq<usize>)
    requires
        forall|a: int|
            0 <= a < order.len() ==> #[trigger] order[a] < read.len() && read[order[a] as int] is Some,
        forall|a: int, b: int| 0 <= a < b < order.len() ==> order[a] != order[b],
    ensures
        order.len() <= count_read(read),
    decreases read.len(),
{
    if read.len() == 0 {
        if order.len() > 0 {
            assert(order[0] < read.len());
        }
    } else {
        let n = read.len() - 1;
        let fewer = read.drop_last();
        if exists|k: int| 0 <= k < order.len() && (#[trigger] order[k]) as int == n {
            let k = choose|k: int| 0 <= k < order.len() && (#[trigger] order[k]) as int == n;
            assert(read[n] is Some);
            let rest = order.remove(k);
            assert forall|a: int| 0 <= a < rest.len() implies #[trigger] rest[a] < fewer.len()
                && fewer[rest[a] as int] is Some by {
                if a < k {
                    assert(rest[a] == order[a]);
                } else {
                    assert(rest[a] == order[a + 1]);
                }
            }
            lemma_count_bound(fewer, rest);
        } else {
            assert forall|a: int| 0 <= a < order.len() implies #[trigger] order[a] < fewer.len()
                && fewer[order[a] as int] is Some by {
                assert(order[a] as int != n);
            }
            lemma_count_bound(fewer, order);
        }
    }
}

/// A snapshot is saved under its time, in digits without leading zeros, and
/// `.json`.
pub proof fn snapshot_is_saved_under_its_time(timestamp: u64)
    ensures
        ({
            let name = file_name(timestamp);
            let n = name.len() - 5;
            &&& n > 0
            &&& name.skip(n) == ".json"@
            &&& is_numeric(name.take(n))
            &&& digits_value(name.take(n)) == timestamp
            &&& name[0] == '0' ==> timestamp == 0 && n == 1
        }),
{
    reveal_strlit(".json");
    let name = file_name(timestamp);
    let digits = decimal(timestamp as nat);
    decimal_reads_back(timestamp as nat);
    decimal_has_no_leading_zeros(timestamp as nat);
    assert(name.take(digits.len() as int) =~= digits);
    assert(name.skip(digits.len() as int) =~= ".json"@);
    assert(name[0] == digits[0]);
}

/// Snapshots that are put in order are the last of them: no more than the
/// limit, all of them where that is enough, from the oldest to the newest,
/// those of the same time as they were listed.
pub proof fn ordered_snapshots_are_the_newest(
    times: Seq<u64>,
    limit: Option<usize>,
    order: Seq<usize>,
    i: usize,
    a: int,
    b: int,
)
    requires
        is_last_in_order(times, wanted(times.len(), limit), order),
        i < times.len(),
    ensures
        limit is None ==> order.len() == times.len(),
        limit matches Some(max) ==> order.len() == if max < times.len() {
            max as nat
        } else {
            times.len()
        },
        0 <= a < order.len() ==> order[a] < times.len(),
        0 <= a < b < order.len() ==> times[order[a] as int] <= times[order[b] as int],
        0 <= a < b < order.len() && times[order[a] as int] == times[order[b] as int] ==> order[a]
            < order[b],
        0 <= a < order.len() && !order.contains(i) ==> times[i as int] <= times[order[a] as int],
{
    if 0 <= a < b < order.len() {
        assert(before(times, order[a] as int, order[b] as int));
    }
    if 0 <= a < order.len() && !order.contains(i) {
        assert(before(times, i as int, order[a] as int));
    }
}

/// A store holds the files that it was made of.
pub proof fn store_holds_its_files(store: SnapshotStore)
    ensures
        store@.len() == store.names@.len(),
        forall|i: int| 0 <= i < store.names@.len() ==> #[trigger] store@[i] == store.names@[i]@,
{
}

} // verus!
