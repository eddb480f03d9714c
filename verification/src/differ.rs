//! The diff engine: compares two [`EnvMap`]s and sorts every key into one of
//! four buckets.
use vstd::prelude::*;

use crate::env_map::EnvMap;
use crate::text::{lemma_lex_total, lemma_lex_transitive, lex_lt, string_lt};

verus! {

/// How a key compares across the two maps.
#[derive(Debug, Clone, Copy, PartialEq, Eq, Structural)]
pub enum DiffStatus {
    /// In the right map only.
    Missing,
    /// In the left map only.
    Extra,
    /// In both, with different values.
    Changed,
    /// In both, with the same value.
    Match,
}

/// One key with its status and its value on each side, if it has one.
#[derive(Debug, Clone)]
pub struct DiffEntry {
    pub key: String,
    pub status: DiffStatus,
    pub left_val: Option<String>,
    pub right_val: Option<String>,
}

/// A [`DiffEntry`] taken by its characters.
pub struct EntryView {
    pub key: Seq<char>,
    pub status: DiffStatus,
    pub left: Option<Seq<char>>,
    pub right: Option<Seq<char>>,
}

/// The characters of an optional string.
pub open spec fn opt_chars(o: Option<String>) -> Option<Seq<char>> {
    match o {
        Some(s) => Some(s@),
        None => None,
    }
}

impl View for DiffEntry {
    type V = EntryView;

    open spec fn view(&self) -> EntryView {
        EntryView {
            key: self.key@,
            status: self.status,
            left: opt_chars(self.left_val),
            right: opt_chars(self.right_val),
        }
    }
}

/// The result of comparing two maps.
///
/// `entries` holds every key of either map, in ascending order; the other
/// vectors hold the entries of each status, in the same order.
#[derive(Debug)]
pub struct DiffResult {
    pub entries: Vec<DiffEntry>,
    pub missing: Vec<DiffEntry>,
    pub extra: Vec<DiffEntry>,
    pub changed: Vec<DiffEntry>,
    pub match_entries: Vec<DiffEntry>,
    pub ok: bool,
}

/// The status of a key whose left and right values are `left` and `right`.
pub open spec fn classify(left: Option<Seq<char>>, right: Option<Seq<char>>) -> DiffStatus {
    match (left, right) {
        (None, Some(_)) => DiffStatus::Missing,
        (Some(_), None) => DiffStatus::Extra,
        (Some(l), Some(r)) => if l != r {
            DiffStatus::Changed
        } else {
            DiffStatus::Match
        },
        (None, None) => DiffStatus::Match,
    }
}

/// The entry that the diff of `left` and `right` holds for `key`.
pub open spec fn expected_entry(
    left: Map<Seq<char>, Seq<char>>,
    right: Map<Seq<char>, Seq<char>>,
    key: Seq<char>,
) -> EntryView {
    EntryView {
        key: key,
        status: classify(left.get(key), right.get(key)),
        left: left.get(key),
        right: right.get(key),
    }
}

/// The entries, each taken by its characters.
pub open spec fn entry_views(entries: Seq<DiffEntry>) -> Seq<EntryView> {
    entries.map_values(|e: DiffEntry| e@)
}

/// Holds of an entry with the status `status`.
pub open spec fn has_status(status: DiffStatus) -> spec_fn(EntryView) -> bool {
    |e: EntryView| e.status == status
}

/// `entries` lists the keys of `left` and `right`, each once and in
/// ascending order, each with the entry that [`expected_entry`] gives.
pub open spec fn lists_all_keys(
    entries: Seq<EntryView>,
    left: Map<Seq<char>, Seq<char>>,
    right: Map<Seq<char>, Seq<char>>,
) -> bool {
    &&& keys_ascending(entries)
    &&& keys_cover(entries, left, right)
    &&& entries_expected(entries, left, right)
}

/// Each entry is the one that [`expected_entry`] gives for its key.
#[verifier::opaque]
pub open spec fn entries_expected(
    entries: Seq<EntryView>,
    left: Map<Seq<char>, Seq<char>>,
    right: Map<Seq<char>, Seq<char>>,
) -> bool {
    forall|i: int|
        0 <= i < entries.len() ==> #[trigger] entries[i] == expected_entry(left, right, entries[i].key)
}

/// The keys of `entries` are in strictly ascending order.
#[verifier::opaque]
pub open spec fn keys_ascending(entries: Seq<EntryView>) -> bool {
    forall|i: int, j: int|
        0 <= i < j < entries.len() ==> lex_lt(#[trigger] entries[i].key, #[trigger] entries[j].key)
}

/// The keys of `entries` are exactly the keys of `left` and `right`.
#[verifier::opaque]
pub open spec fn keys_cover(
    entries: Seq<EntryView>,
    left: Map<Seq<char>, Seq<char>>,
    right: Map<Seq<char>, Seq<char>>,
) -> bool {
    forall|k: Seq<char>|
        #![trigger left.contains_key(k)]
        #![trigger right.contains_key(k)]
        (left.contains_key(k) || right.contains_key(k)) <==> exists|i: int|
            0 <= i < entries.len() && #[trigger] entries[i].key == k
}

/// `result` is the diff of `left` and `right`.
pub open spec fn is_diff_of(
    result: DiffResult,
    left: Map<Seq<char>, Seq<char>>,
    right: Map<Seq<char>, Seq<char>>,
) -> bool {
    let all = entry_views(result.entries@);
    &&& lists_all_keys(all, left, right)
    &&& entry_views(result.missing@) == all.filter(has_status(DiffStatus::Missing))
    &&& entry_views(result.extra@) == all.filter(has_status(DiffStatus::Extra))
    &&& entry_views(result.changed@) == all.filter(has_status(DiffStatus::Changed))
    &&& entry_views(result.match_entries@) == all.filter(has_status(DiffStatus::Match))
    &&& result.ok == (result.missing.len() == 0 && result.extra.len() == 0 && result.changed.len()
        == 0)
}

/// The keys are in strictly ascending order.
pub open spec fn sorted_strictly(keys: Seq<String>) -> bool {
    forall|i: int, j: int| 0 <= i < j < keys.len() ==> lex_lt(#[trigger] keys[i]@, #[trigger] keys[j]@)
}

/// `k` is among `keys`.
pub open spec fn holds_key(keys: Seq<String>, k: Seq<char>) -> bool {
    exists|i: int| 0 <= i < keys.len() && #[trigger] keys[i]@ == k
}

/// Inserts `key` into strictly ascending `keys` unless it is there already.
fn insert_sorted(keys: &mut Vec<String>, key: &String)
    requires
        sorted_strictly(old(keys)@),
    ensures
        sorted_strictly(final(keys)@),
        forall|k: Seq<char>| holds_key(final(keys)@, k) <==> (holds_key(old(keys)@, k) || k == key@),
{
    let n = keys.len();
    let mut p: usize = 0;
    while p < n && string_lt(&keys[p], key)
        invariant
            p <= n == keys.len(),
            keys@ == old(keys)@,
            forall|j: int| 0 <= j < p ==> lex_lt(#[trigger] keys@[j]@, key@),
        decreases n - p,
    {
        p = p + 1;
    }
    if p < n && keys[p] == *key {
        proof {
            assert(holds_key(keys@, key@)) by {
                assert(keys@[p as int]@ == key@);
            }
        }
        return ;
    }
    let ghost old_keys = keys@;
    proof {
        if p < n {
            lemma_lex_total(old_keys[p as int]@, key@);
            assert(lex_lt(key@, old_keys[p as int]@));
        }
    }
    keys.insert(p, key.clone());
    proof {
        let new_keys = keys@;
        assert(new_keys =~= old_keys.insert(p as int, *key));
        assert forall|i: int, j: int| 0 <= i < j < new_keys.len() implies lex_lt(
            #[trigger] new_keys[i]@,
            #[trigger] new_keys[j]@,
        ) by {
            if j < p {
                assert(lex_lt(old_keys[i]@, old_keys[j]@));
            } else if j == p {
            } else if i < p {
                assert(lex_lt(old_keys[i]@, key@));
                assert(lex_lt(key@, old_keys[p as int]@));
                if j - 1 > p {
                    assert(lex_lt(old_keys[p as int]@, old_keys[j - 1]@));
                    lemma_lex_transitive(key@, old_keys[p as int]@, old_keys[j - 1]@);
                }
                lemma_lex_transitive(old_keys[i]@, key@, old_keys[j - 1]@);
            } else if i == p {
                if j - 1 > p {
                    assert(lex_lt(old_keys[p as int]@, old_keys[j - 1]@));
                    lemma_lex_transitive(key@, old_keys[p as int]@, old_keys[j - 1]@);
                }
            } else {
                assert(lex_lt(old_keys[i - 1]@, old_keys[j - 1]@));
            }
        }
        assert forall|k: Seq<char>| holds_key(new_keys, k) <==> (holds_key(old_keys, k) || k == key@) by {
            if holds_key(new_keys, k) {
                let i = choose|i: int| 0 <= i < new_keys.len() && #[trigger] new_keys[i]@ == k;
                if i < p {
                    assert(old_keys[i]@ == k);
                } else if i > p {
                    assert(old_keys[i - 1]@ == k);
                }
            }
            if holds_key(old_keys, k) {
                let i = choose|i: int| 0 <= i < old_keys.len() && #[trigger] old_keys[i]@ == k;
                if i < p {
                    assert(new_keys[i]@ == k);
                } else {
                    assert(new_keys[i + 1]@ == k);
                }
            }
            if k == key@ {
                assert(new_keys[p as int]@ == k);
            }
        }
    }
}

/// All keys of `left` and `right`, each once, in ascending order.
fn sorted_keys(left: &EnvMap, right: &EnvMap) -> (res: Vec<String>)
    ensures
        sorted_strictly(res@),
        forall|k: Seq<char>| holds_key(res@, k) <==> (left@.contains_key(k) || right@.contains_key(k)),
{
    let lk = left.keys();
    let rk = right.keys();
    let mut keys: Vec<String> = Vec::new();
    let mut i: usize = 0;
    while i < lk.len()
        invariant
            i <= lk.len(),
            sorted_strictly(keys@),
            forall|k: Seq<char>|
                holds_key(keys@, k) <==> exists|j: int| 0 <= j < i && #[trigger] lk@[j]@ == k,
        decreases lk.len() - i,
    {
        insert_sorted(&mut keys, &lk[i]);
        proof {
            assert forall|k: Seq<char>|
                holds_key(keys@, k) <==> exists|j: int| 0 <= j < i + 1 && #[trigger] lk@[j]@ == k by {
                if k == lk@[i as int]@ {
                    assert(lk@[i as int]@ == k);
                }
            }
        }
        i = i + 1;
    }
    let mut i: usize = 0;
    while i < rk.len()
        invariant
            i <= rk.len(),
            sorted_strictly(keys@),
            forall|k: Seq<char>|
                holds_key(keys@, k) <==> (left@.contains_key(k) || exists|j: int|
                    0 <= j < i && #[trigger] rk@[j]@ == k),
        decreases rk.len() - i,
    {
        insert_sorted(&mut keys, &rk[i]);
        proof {
            assert forall|k: Seq<char>|
                holds_key(keys@, k) <==> (left@.contains_key(k) || exists|j: int|
                    0 <= j < i + 1 && #[trigger] rk@[j]@ == k) by {
                if k == rk@[i as int]@ {
                    assert(rk@[i as int]@ == k);
                }
            }
        }
        i = i + 1;
    }
    keys
}

/// A copy of an optional string.
fn copy_opt(o: &Option<String>) -> (res: Option<String>)
    ensures
        opt_chars(res) == opt_chars(*o),
{
    match o {
        Some(s) => Some(s.clone()),
        None => None,
    }
}

/// A copy of an entry.
fn copy_entry(e: &DiffEntry) -> (res: DiffEntry)
    ensures
        res@ == e@,
{
    DiffEntry {
        key: e.key.clone(),
        status: e.status,
        left_val: copy_opt(&e.left_val),
        right_val: copy_opt(&e.right_val),
    }
}

/// The value of `key` in `map`, copied.
fn lookup(map: &EnvMap, key: &String) -> (res: Option<String>)
    ensures
        opt_chars(res) == map@.get(key@),
{
    match map.get(key.as_str()) {
        Some(v) => Some(v.clone()),
        None => None,
    }
}

/// Adds a copy of `entry` to `bucket` when it has the status `status`, so
/// that `bucket` keeps holding the entries of that status.
fn push_if_status(
    bucket: &mut Vec<DiffEntry>,
    entry: &DiffEntry,
    status: DiffStatus,
    Ghost(before): Ghost<Seq<EntryView>>,
)
    requires
        entry_views(old(bucket)@) == before.filter(has_status(status)),
    ensures
        entry_views(final(bucket)@) == before.push(entry@).filter(has_status(status)),
{
    proof {
        before.lemma_filter_push(entry@, has_status(status));
    }
    let ghost old_views = entry_views(bucket@);
    if entry.status == status {
        bucket.push(copy_entry(entry));
        proof {
            assert(entry_views(bucket@) =~= old_views.push(entry@));
        }
    }
}

/// Entries that follow strictly ascending keys are in ascending order.
proof fn lemma_entries_ascending(keys: Seq<String>, all: Seq<EntryView>)
    requires
        sorted_strictly(keys),
        all.len() == keys.len(),
        forall|j: int| 0 <= j < keys.len() ==> (#[trigger] all[j]).key == keys[j]@,
    ensures
        keys_ascending(all),
{
    reveal(keys_ascending);
    assert forall|i: int, j: int| 0 <= i < j < all.len() implies lex_lt(
        #[trigger] all[i].key,
        #[trigger] all[j].key,
    ) by {
        assert(all[i].key == keys[i]@);
        assert(all[j].key == keys[j]@);
    }
}

/// Entries that follow the keys of either map hold each of those keys.
proof fn lemma_entries_cover(
    keys: Seq<String>,
    all: Seq<EntryView>,
    left: Map<Seq<char>, Seq<char>>,
    right: Map<Seq<char>, Seq<char>>,
)
    requires
        forall|k: Seq<char>| #[trigger] holds_key(keys, k) <==> (left.contains_key(k) || right.contains_key(k)),
        all.len() == keys.len(),
        forall|j: int| 0 <= j < keys.len() ==> (#[trigger] all[j]).key == keys[j]@,
    ensures
        keys_cover(all, left, right),
{
    reveal(keys_cover);
    assert forall|k: Seq<char>|
        #![trigger left.contains_key(k)]
        #![trigger right.contains_key(k)]
        (left.contains_key(k) || right.contains_key(k)) <==> exists|i: int|
            0 <= i < all.len() && #[trigger] all[i].key == k by {
        if left.contains_key(k) || right.contains_key(k) {
            assert(holds_key(keys, k));
            let i = choose|i: int| 0 <= i < keys.len() && #[trigger] keys[i]@ == k;
            assert(all[i].key == k);
        }
        if exists|i: int| 0 <= i < all.len() && #[trigger] all[i].key == k {
            let i = choose|i: int| 0 <= i < all.len() && #[trigger] all[i].key == k;
            assert(keys[i]@ == k);
            assert(holds_key(keys, k));
        }
    }
}

/// The entry of `key`, with its values in `left` and `right`.
fn make_entry(left: &EnvMap, right: &EnvMap, key: &String) -> (res: DiffEntry)
    ensures
        res@ == expected_entry(left@, right@, key@),
{
    let left_val = lookup(left, key);
    let right_val = lookup(right, key);
    let status = match (&left_val, &right_val) {
        (None, Some(_)) => DiffStatus::Missing,
        (Some(_), None) => DiffStatus::Extra,
        (Some(l), Some(r)) => if !l.eq(r) {
            DiffStatus::Changed
        } else {
            DiffStatus::Match
        },
        _ => DiffStatus::Match,
    };
    DiffEntry { key: key.clone(), status, left_val, right_val }
}

/// Diffs two maps:
/// - missing: in `right` but not in `left`;
/// - extra: in `left` but not in `right`;
/// - changed: in both, with different values;
/// - match: in both, with the same value.
///
/// `ok` holds exactly when the two maps are equal.
pub fn diff_env_maps(left: &EnvMap, right: &EnvMap) -> (res: DiffResult)
    ensures
        is_diff_of(res, left@, right@),
        res.ok == (left@ == right@),
{
    let keys = sorted_keys(left, right);
    let mut entries: Vec<DiffEntry> = Vec::new();
    let mut missing: Vec<DiffEntry> = Vec::new();
    let mut extra: Vec<DiffEntry> = Vec::new();
    let mut changed: Vec<DiffEntry> = Vec::new();
    let mut match_entries: Vec<DiffEntry> = Vec::new();
    let n = keys.len();
    let mut i: usize = 0;
    proof {
        reveal(Seq::filter);
        assert(entry_views(entries@) =~= Seq::<EntryView>::empty());
        assert(entry_views(missing@) =~= Seq::<EntryView>::empty());
        assert(entry_views(extra@) =~= Seq::<EntryView>::empty());
        assert(entry_views(changed@) =~= Seq::<EntryView>::empty());
        assert(entry_views(match_entries@) =~= Seq::<EntryView>::empty());
    }
    while i < n
        invariant
            i <= n == keys.len(),
            entries.len() == i,
            forall|j: int|
                0 <= j < i ==> #[trigger] entry_views(entries@)[j] == expected_entry(
                    left@,
                    right@,
                    keys@[j]@,
                ),
            entry_views(missing@) == entry_views(entries@).filter(has_status(DiffStatus::Missing)),
            entry_views(extra@) == entry_views(entries@).filter(has_status(DiffStatus::Extra)),
            entry_views(changed@) == entry_views(entries@).filter(has_status(DiffStatus::Changed)),
            entry_views(match_entries@) == entry_views(entries@).filter(
                has_status(DiffStatus::Match),
            ),
        decreases n - i,
    {
        let entry = make_entry(left, right, &keys[i]);
        let ghost before = entry_views(entries@);
        push_if_status(&mut missing, &entry, DiffStatus::Missing, Ghost(before));
        push_if_status(&mut extra, &entry, DiffStatus::Extra, Ghost(before));
        push_if_status(&mut changed, &entry, DiffStatus::Changed, Ghost(before));
        push_if_status(&mut match_entries, &entry, DiffStatus::Match, Ghost(before));
        let ghost e = entry@;
        entries.push(entry);
        proof {
            assert(entry_views(entries@) =~= before.push(e));
        }
        i = i + 1;
    }
    let ok = missing.len() == 0 && extra.len() == 0 && changed.len() == 0;
    let res = DiffResult { entries, missing, extra, changed, match_entries, ok };
    proof {
        let all = entry_views(res.entries@);
        assert forall|j: int| 0 <= j < keys@.len() implies (#[trigger] all[j]).key == keys@[j]@ by {
            assert(all[j] == expected_entry(left@, right@, keys@[j]@));
        }
        lemma_entries_ascending(keys@, all);
        lemma_entries_cover(keys@, all, left@, right@);
        assert(entries_expected(all, left@, right@)) by {
            reveal(entries_expected);
            assert forall|i: int| 0 <= i < all.len() implies #[trigger] all[i] == expected_entry(
                left@,
                right@,
                all[i].key,
            ) by {
                assert(all[i] == expected_entry(left@, right@, keys@[i]@));
            }
        }
        lemma_ok_iff_equal(res, left@, right@);
    }
    res
}

/// No entry has the status `status` exactly when filtering for it leaves
/// nothing.
proof fn lemma_filter_empty(all: Seq<EntryView>, status: DiffStatus)
    ensures
        all.filter(has_status(status)).len() == 0 <==> forall|i: int|
            0 <= i < all.len() ==> (#[trigger] all[i]).status != status,
{
    let p = has_status(status);
    if all.filter(p).len() > 0 {
        all.lemma_filter_pred(p, 0);
        let x = all.filter(p)[0];
        assert(all.filter(p).contains(x));
        all.lemma_filter_contains_rev(p, x);
        let i = choose|i: int| 0 <= i < all.len() && all[i] == x;
        assert(all[i].status == status);
    } else {
        assert forall|i: int| 0 <= i < all.len() implies (#[trigger] all[i]).status != status by {
            if all[i].status == status {
                all.lemma_filter_contains(p, i);
            }
        }
    }
}

/// The exit status of a comparison: 0 when the files match, 1 when they
/// differ. (Status 2, for an error, belongs to the command-line front end.)
pub open spec fn spec_exit_code(ok: bool) -> i32 {
    if ok {
        0
    } else {
        1
    }
}

/// The exit status for a finished comparison.
pub fn exit_code(diff: &DiffResult) -> (res: i32)
    ensures
        res == spec_exit_code(diff.ok),
{
    if diff.ok {
        0
    } else {
        1
    }
}

/// The exit status is 0 exactly when the two maps are equal.
pub proof fn lemma_exit_code_zero_iff_equal(
    result: DiffResult,
    left: Map<Seq<char>, Seq<char>>,
    right: Map<Seq<char>, Seq<char>>,
)
    requires
        is_diff_of(result, left, right),
    ensures
        (spec_exit_code(result.ok) == 0) == (left == right),
{
    lemma_ok_iff_equal(result, left, right);
}

/// The diff is `ok` exactly when the two maps are equal: no key is missing,
/// extra or changed.
pub proof fn lemma_ok_iff_equal(
    result: DiffResult,
    left: Map<Seq<char>, Seq<char>>,
    right: Map<Seq<char>, Seq<char>>,
)
    requires
        is_diff_of(result, left, right),
    ensures
        result.ok == (left == right),
{
    reveal(keys_cover);
    reveal(entries_expected);
    let all = entry_views(result.entries@);
    lemma_filter_empty(all, DiffStatus::Missing);
    lemma_filter_empty(all, DiffStatus::Extra);
    lemma_filter_empty(all, DiffStatus::Changed);
    assert(result.missing.len() == entry_views(result.missing@).len());
    assert(result.extra.len() == entry_views(result.extra@).len());
    assert(result.changed.len() == entry_views(result.changed@).len());
    if result.ok {
        assert forall|k: Seq<char>| #[trigger] left.contains_key(k) == right.contains_key(k) && (
        left.contains_key(k) ==> left[k] == right[k]) by {
            if left.contains_key(k) || right.contains_key(k) {
                let i = choose|i: int| 0 <= i < all.len() && #[trigger] all[i].key == k;
                assert(all[i] == expected_entry(left, right, k));
                assert(all[i].status != DiffStatus::Missing);
                assert(all[i].status != DiffStatus::Extra);
                assert(all[i].status != DiffStatus::Changed);
            }
        }
        assert(left =~= right);
    } else if left == right {
        assert forall|i: int| 0 <= i < all.len() implies (#[trigger] all[i]).status == DiffStatus::Match by {
            let k = all[i].key;
            assert(all[i] == expected_entry(left, right, k));
            if !left.contains_key(k) {
                assert(exists|j: int| 0 <= j < all.len() && #[trigger] all[j].key == k);
            }
        }
    }
}

} // verus!
