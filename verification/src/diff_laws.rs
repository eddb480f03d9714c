//! Laws of the diff: what holds of every result of [`diff_env_maps`].
//!
//! [`diff_env_maps`]: crate::differ::diff_env_maps
use vstd::prelude::*;

use crate::differ::{
    classify, entries_expected, entry_views, expected_entry, has_status, is_diff_of, keys_ascending, keys_cover, DiffResult,
    DiffStatus, EntryView,
};
use crate::text::{lemma_lex_irreflexive, lemma_lex_total, lex_lt};

verus! {

/// The four buckets together hold as many entries as `all`.
proof fn lemma_filters_partition(all: Seq<EntryView>)
    ensures
        all.filter(has_status(DiffStatus::Missing)).len() + all.filter(has_status(DiffStatus::Extra)).len()
            + all.filter(has_status(DiffStatus::Changed)).len() + all.filter(
            has_status(DiffStatus::Match),
        ).len() == all.len(),
    decreases all.len(),
{
    if all.len() == 0 {
        reveal(Seq::filter);
    } else {
        let init = all.drop_last();
        lemma_filters_partition(init);
        assert(all =~= init.push(all.last()));
        init.lemma_filter_push(all.last(), has_status(DiffStatus::Missing));
        init.lemma_filter_push(all.last(), has_status(DiffStatus::Extra));
        init.lemma_filter_push(all.last(), has_status(DiffStatus::Changed));
        init.lemma_filter_push(all.last(), has_status(DiffStatus::Match));
    }
}

/// Every key lands in exactly one bucket: the four buckets together hold
/// as many entries as the diff lists.
pub proof fn lemma_buckets_partition_entries(
    result: DiffResult,
    left: Map<Seq<char>, Seq<char>>,
    right: Map<Seq<char>, Seq<char>>,
)
    requires
        is_diff_of(result, left, right),
    ensures
        result.missing.len() + result.extra.len() + result.changed.len() + result.match_entries.len()
            == result.entries.len(),
{
    let all = entry_views(result.entries@);
    lemma_filters_partition(all);
    assert(entry_views(result.missing@).len() == result.missing.len());
    assert(entry_views(result.extra@).len() == result.extra.len());
    assert(entry_views(result.changed@).len() == result.changed.len());
    assert(entry_views(result.match_entries@).len() == result.match_entries.len());
}

/// The keys of the entries.
pub open spec fn entry_keys(entries: Seq<EntryView>) -> Seq<Seq<char>> {
    entries.map_values(|e: EntryView| e.key)
}

/// The diff lists each key of either map once: as many entries as the two
/// maps have keys together.
pub proof fn lemma_entries_count_keys(
    result: DiffResult,
    left: Map<Seq<char>, Seq<char>>,
    right: Map<Seq<char>, Seq<char>>,
)
    requires
        is_diff_of(result, left, right),
    ensures
        left.dom().union(right.dom()).finite(),
        result.entries.len() == left.dom().union(right.dom()).len(),
{
    reveal(keys_ascending);
    reveal(keys_cover);
    let all = entry_views(result.entries@);
    let keys = entry_keys(all);
    assert(keys.no_duplicates()) by {
        assert forall|i: int, j: int| 0 <= i < keys.len() && 0 <= j < keys.len() && i != j implies keys[i]
            != keys[j] by {
            lemma_lex_irreflexive(keys[i]);
            if i < j {
                assert(lex_lt(all[i].key, all[j].key));
            } else {
                assert(lex_lt(all[j].key, all[i].key));
            }
        }
    }
    assert(keys.to_set() =~= left.dom().union(right.dom())) by {
        assert forall|k: Seq<char>| keys.to_set().contains(k) <==> left.dom().union(right.dom()).contains(k) by {
            if keys.to_set().contains(k) {
                let i = choose|i: int| 0 <= i < keys.len() && keys[i] == k;
                assert(all[i].key == k);
            }
            if left.contains_key(k) || right.contains_key(k) {
                let i = choose|i: int| 0 <= i < all.len() && #[trigger] all[i].key == k;
                assert(keys[i] == k);
            }
        }
    }
    keys.unique_seq_to_set();
    vstd::seq_lib::seq_to_set_is_finite(keys);
}

/// Comparing a map with itself: the diff is `ok`, every key matches, and
/// each key of the map is counted as a match once.
pub proof fn lemma_diff_with_itself(result: DiffResult, map: Map<Seq<char>, Seq<char>>)
    requires
        is_diff_of(result, map, map),
    ensures
        result.ok,
        result.missing.len() == 0,
        result.extra.len() == 0,
        result.changed.len() == 0,
        map.dom().finite(),
        result.match_entries.len() == map.len(),
{
    crate::differ::lemma_ok_iff_equal(result, map, map);
    lemma_buckets_partition_entries(result, map, map);
    lemma_entries_count_keys(result, map, map);
    assert(map.dom().union(map.dom()) =~= map.dom());
}


/// The status a key has when the two maps trade places.
pub open spec fn swapped_status(status: DiffStatus) -> DiffStatus {
    match status {
        DiffStatus::Missing => DiffStatus::Extra,
        DiffStatus::Extra => DiffStatus::Missing,
        DiffStatus::Changed => DiffStatus::Changed,
        DiffStatus::Match => DiffStatus::Match,
    }
}

/// Two strictly ascending sequences with the same elements are equal.
proof fn lemma_ascending_unique(a: Seq<Seq<char>>, b: Seq<Seq<char>>)
    requires
        forall|i: int, j: int| 0 <= i < j < a.len() ==> lex_lt(#[trigger] a[i], #[trigger] a[j]),
        forall|i: int, j: int| 0 <= i < j < b.len() ==> lex_lt(#[trigger] b[i], #[trigger] b[j]),
        forall|x: Seq<char>| a.contains(x) <==> b.contains(x),
    ensures
        a == b,
    decreases a.len(),
{
    if a.len() == 0 {
        if b.len() > 0 {
            assert(b.contains(b[0]));
        }
        assert(a =~= b);
    } else {
        assert(a.contains(a[0]));
        let j = choose|j: int| 0 <= j < b.len() && b[j] == a[0];
        assert(b.contains(b[0]));
        let i = choose|i: int| 0 <= i < a.len() && a[i] == b[0];
        if j > 0 {
            assert(lex_lt(b[0], b[j]));
            if i > 0 {
                assert(lex_lt(a[0], a[i]));
                lemma_lex_total(a[0], b[0]);
            } else {
                lemma_lex_irreflexive(a[0]);
            }
        }
        assert(a[0] == b[0]);
        let a2 = a.drop_first();
        let b2 = b.drop_first();
        assert forall|x: Seq<char>| a2.contains(x) <==> b2.contains(x) by {
            if a2.contains(x) {
                let k = choose|k: int| 0 <= k < a2.len() && a2[k] == x;
                assert(lex_lt(a[0], a[k + 1]));
                lemma_lex_irreflexive(a[0]);
                assert(a.contains(x));
                let m = choose|m: int| 0 <= m < b.len() && b[m] == x;
                assert(m != 0);
                assert(b2[m - 1] == x);
            }
            if b2.contains(x) {
                let k = choose|k: int| 0 <= k < b2.len() && b2[k] == x;
                assert(lex_lt(b[0], b[k + 1]));
                lemma_lex_irreflexive(b[0]);
                assert(b.contains(x));
                let m = choose|m: int| 0 <= m < a.len() && a[m] == x;
                assert(m != 0);
                assert(a2[m - 1] == x);
            }
        }
        assert forall|i: int, j: int| 0 <= i < j < a2.len() implies lex_lt(#[trigger] a2[i], #[trigger] a2[j]) by {
            assert(lex_lt(a[i + 1], a[j + 1]));
        }
        assert forall|i: int, j: int| 0 <= i < j < b2.len() implies lex_lt(#[trigger] b2[i], #[trigger] b2[j]) by {
            assert(lex_lt(b[i + 1], b[j + 1]));
        }
        lemma_ascending_unique(a2, b2);
        assert(a =~= seq![a[0]] + a2);
        assert(b =~= seq![b[0]] + b2);
    }
}

/// Entries whose statuses are swapped fill swapped buckets.
proof fn lemma_swapped_filters(a: Seq<EntryView>, b: Seq<EntryView>, status: DiffStatus)
    requires
        a.len() == b.len(),
        forall|i: int| 0 <= i < a.len() ==> (#[trigger] b[i]).status == swapped_status(a[i].status),
    ensures
        b.filter(has_status(swapped_status(status))).len() == a.filter(has_status(status)).len(),
    decreases a.len(),
{
    if a.len() == 0 {
        reveal(Seq::filter);
    } else {
        let a2 = a.drop_last();
        let b2 = b.drop_last();
        assert forall|i: int| 0 <= i < a2.len() implies (#[trigger] b2[i]).status == swapped_status(a2[i].status) by {
            assert(b[i].status == swapped_status(a[i].status));
        }
        lemma_swapped_filters(a2, b2, status);
        assert(a =~= a2.push(a.last()));
        assert(b =~= b2.push(b.last()));
        assert(b[b.len() - 1].status == swapped_status(a[a.len() - 1].status));
        a2.lemma_filter_push(a.last(), has_status(status));
        b2.lemma_filter_push(b.last(), has_status(swapped_status(status)));
    }
}

/// Swapping the two maps leaves the listed keys and their order as they are.
proof fn lemma_swap_keys(
    forward: DiffResult,
    backward: DiffResult,
    left: Map<Seq<char>, Seq<char>>,
    right: Map<Seq<char>, Seq<char>>,
)
    requires
        is_diff_of(forward, left, right),
        is_diff_of(backward, right, left),
    ensures
        entry_keys(entry_views(forward.entries@)) == entry_keys(entry_views(backward.entries@)),
{
    reveal(keys_ascending);
    reveal(keys_cover);
    let fa = entry_views(forward.entries@);
    let ba = entry_views(backward.entries@);
    let fk = entry_keys(fa);
    let bk = entry_keys(ba);
    assert forall|i: int, j: int| 0 <= i < j < fk.len() implies lex_lt(#[trigger] fk[i], #[trigger] fk[j]) by {
        assert(lex_lt(fa[i].key, fa[j].key));
    }
    assert forall|i: int, j: int| 0 <= i < j < bk.len() implies lex_lt(#[trigger] bk[i], #[trigger] bk[j]) by {
        assert(lex_lt(ba[i].key, ba[j].key));
    }
    assert forall|x: Seq<char>| fk.contains(x) <==> bk.contains(x) by {
        if fk.contains(x) {
            let i = choose|i: int| 0 <= i < fk.len() && fk[i] == x;
            assert(fa[i].key == x);
            assert(left.contains_key(x) || right.contains_key(x));
            let j = choose|j: int| 0 <= j < ba.len() && #[trigger] ba[j].key == x;
            assert(bk[j] == x);
        }
        if bk.contains(x) {
            let i = choose|i: int| 0 <= i < bk.len() && bk[i] == x;
            assert(ba[i].key == x);
            assert(left.contains_key(x) || right.contains_key(x));
            let j = choose|j: int| 0 <= j < fa.len() && #[trigger] fa[j].key == x;
            assert(fk[j] == x);
        }
    }
    lemma_ascending_unique(fk, bk);
}

/// With the same keys in the same order, each entry of the swapped diff
/// trades the values of the other.
proof fn lemma_swap_entries(
    forward: DiffResult,
    backward: DiffResult,
    left: Map<Seq<char>, Seq<char>>,
    right: Map<Seq<char>, Seq<char>>,
)
    requires
        is_diff_of(forward, left, right),
        is_diff_of(backward, right, left),
        entry_keys(entry_views(forward.entries@)) == entry_keys(entry_views(backward.entries@)),
    ensures
        backward.entries.len() == forward.entries.len(),
        forall|i: int|
            0 <= i < forward.entries.len() ==> {
                let f = #[trigger] forward.entries@[i]@;
                let b = backward.entries@[i]@;
                &&& b.key == f.key
                &&& b.left == f.right
                &&& b.right == f.left
                &&& b.status == swapped_status(f.status)
            },
{
    reveal(crate::differ::entries_expected);
    let fa = entry_views(forward.entries@);
    let ba = entry_views(backward.entries@);
    assert(entry_keys(fa).len() == entry_keys(ba).len());
    assert forall|i: int| 0 <= i < forward.entries.len() implies {
        let f = #[trigger] forward.entries@[i]@;
        let b = backward.entries@[i]@;
        &&& b.key == f.key
        &&& b.left == f.right
        &&& b.right == f.left
        &&& b.status == swapped_status(f.status)
    } by {
        assert(entry_keys(fa)[i] == entry_keys(ba)[i]);
        assert(fa[i] == expected_entry(left, right, fa[i].key));
        assert(ba[i] == expected_entry(right, left, ba[i].key));
    }
}

/// Swapping the two maps swaps the roles of their values: the diff lists
/// the same keys in the same order, each with its left and right values
/// traded, missing keys become extra and extra keys missing, and changed and
/// matching keys stay as they are.
pub proof fn lemma_diff_swap(
    forward: DiffResult,
    backward: DiffResult,
    left: Map<Seq<char>, Seq<char>>,
    right: Map<Seq<char>, Seq<char>>,
)
    requires
        is_diff_of(forward, left, right),
        is_diff_of(backward, right, left),
    ensures
        backward.entries.len() == forward.entries.len(),
        forall|i: int|
            0 <= i < forward.entries.len() ==> {
                let f = #[trigger] forward.entries@[i]@;
                let b = backward.entries@[i]@;
                &&& b.key == f.key
                &&& b.left == f.right
                &&& b.right == f.left
                &&& b.status == swapped_status(f.status)
            },
        backward.missing.len() == forward.extra.len(),
        backward.extra.len() == forward.missing.len(),
        backward.changed.len() == forward.changed.len(),
        backward.match_entries.len() == forward.match_entries.len(),
{
    lemma_swap_keys(forward, backward, left, right);
    lemma_swap_entries(forward, backward, left, right);
    let fa = entry_views(forward.entries@);
    let ba = entry_views(backward.entries@);
    assert forall|i: int| 0 <= i < fa.len() implies (#[trigger] ba[i]).status == swapped_status(fa[i].status) by {
        assert(fa[i] == forward.entries@[i]@);
        assert(ba[i] == backward.entries@[i]@);
    }
    lemma_swapped_filters(fa, ba, DiffStatus::Missing);
    lemma_swapped_filters(fa, ba, DiffStatus::Extra);
    lemma_swapped_filters(fa, ba, DiffStatus::Changed);
    lemma_swapped_filters(fa, ba, DiffStatus::Match);
    assert(entry_views(forward.missing@).len() == forward.missing.len());
    assert(entry_views(forward.extra@).len() == forward.extra.len());
    assert(entry_views(forward.changed@).len() == forward.changed.len());
    assert(entry_views(forward.match_entries@).len() == forward.match_entries.len());
    assert(entry_views(backward.missing@).len() == backward.missing.len());
    assert(entry_views(backward.extra@).len() == backward.extra.len());
    assert(entry_views(backward.changed@).len() == backward.changed.len());
    assert(entry_views(backward.match_entries@).len() == backward.match_entries.len());
}


/// The keys of either map whose status is `status`.
pub open spec fn keys_with_status(
    left: Map<Seq<char>, Seq<char>>,
    right: Map<Seq<char>, Seq<char>>,
    status: DiffStatus,
) -> Set<Seq<char>> {
    Set::new(
        |k: Seq<char>|
            (left.contains_key(k) || right.contains_key(k)) && classify(left.get(k), right.get(k))
                == status,
    )
}

/// Keeping some of strictly ascending entries keeps them strictly ascending.
proof fn lemma_filter_ascending(all: Seq<EntryView>, p: spec_fn(EntryView) -> bool)
    requires
        forall|i: int, j: int| 0 <= i < j < all.len() ==> lex_lt(#[trigger] all[i].key, #[trigger] all[j].key),
    ensures
        forall|i: int, j: int|
            0 <= i < j < all.filter(p).len() ==> lex_lt(
                #[trigger] all.filter(p)[i].key,
                #[trigger] all.filter(p)[j].key,
            ),
    decreases all.len(),
{
    if all.len() == 0 {
        reveal(Seq::filter);
    } else {
        let init = all.drop_last();
        let last = all.last();
        assert forall|i: int, j: int| 0 <= i < j < init.len() implies lex_lt(
            #[trigger] init[i].key,
            #[trigger] init[j].key,
        ) by {
            assert(lex_lt(all[i].key, all[j].key));
        }
        lemma_filter_ascending(init, p);
        assert(all =~= init.push(last));
        init.lemma_filter_push(last, p);
        let f0 = init.filter(p);
        if p(last) {
            let f = f0.push(last);
            assert forall|i: int, j: int| 0 <= i < j < f.len() implies lex_lt(
                #[trigger] f[i].key,
                #[trigger] f[j].key,
            ) by {
                if j < f0.len() {
                    assert(lex_lt(f0[i].key, f0[j].key));
                } else {
                    assert(f0.contains(f0[i]));
                    init.lemma_filter_contains_rev(p, f0[i]);
                    let m = choose|m: int| 0 <= m < init.len() && init[m] == f0[i];
                    assert(lex_lt(all[m].key, all[all.len() - 1].key));
                }
            }
        }
    }
}

/// The keys of the entries that a filter keeps are distinct.
proof fn lemma_filter_keys_distinct(all: Seq<EntryView>, p: spec_fn(EntryView) -> bool)
    requires
        keys_ascending(all),
    ensures
        entry_keys(all.filter(p)).no_duplicates(),
{
    reveal(keys_ascending);
    let f = all.filter(p);
    let keys = entry_keys(f);
    lemma_filter_ascending(all, p);
    assert forall|i: int, j: int| 0 <= i < keys.len() && 0 <= j < keys.len() && i != j implies keys[i]
        != keys[j] by {
        lemma_lex_irreflexive(keys[i]);
        if i < j {
            assert(lex_lt(f[i].key, f[j].key));
        } else {
            assert(lex_lt(f[j].key, f[i].key));
        }
    }
}

/// The keys of a bucket are the keys of its status.
proof fn lemma_bucket_keys(
    all: Seq<EntryView>,
    left: Map<Seq<char>, Seq<char>>,
    right: Map<Seq<char>, Seq<char>>,
    status: DiffStatus,
)
    requires
        keys_cover(all, left, right),
        entries_expected(all, left, right),
    ensures
        entry_keys(all.filter(has_status(status))).to_set() == keys_with_status(left, right, status),
{
    reveal(keys_cover);
    reveal(entries_expected);
    let p = has_status(status);
    let f = all.filter(p);
    let keys = entry_keys(f);
    let target = keys_with_status(left, right, status);
    assert forall|k: Seq<char>| keys.to_set().contains(k) <==> target.contains(k) by {
        if keys.to_set().contains(k) {
            let j = choose|j: int| 0 <= j < keys.len() && keys[j] == k;
            all.lemma_filter_pred(p, j);
            assert(f.contains(f[j]));
            all.lemma_filter_contains_rev(p, f[j]);
            let i = choose|i: int| 0 <= i < all.len() && all[i] == f[j];
            assert(all[i] == expected_entry(left, right, all[i].key));
            assert(all[i].key == k);
            assert(left.contains_key(k) || right.contains_key(k));
        }
        if target.contains(k) {
            assert(left.contains_key(k) || right.contains_key(k));
            let i = choose|i: int| 0 <= i < all.len() && #[trigger] all[i].key == k;
            assert(all[i] == expected_entry(left, right, all[i].key));
            all.lemma_filter_contains(p, i);
            let j = choose|j: int| 0 <= j < f.len() && f[j] == all[i];
            assert(keys[j] == k);
        }
    }
    assert(keys.to_set() =~= target);
}

/// A bucket holds one entry for each key of its status.
proof fn lemma_bucket_count(
    all: Seq<EntryView>,
    left: Map<Seq<char>, Seq<char>>,
    right: Map<Seq<char>, Seq<char>>,
    status: DiffStatus,
)
    requires
        keys_ascending(all),
        keys_cover(all, left, right),
        entries_expected(all, left, right),
    ensures
        keys_with_status(left, right, status).finite(),
        all.filter(has_status(status)).len() == keys_with_status(left, right, status).len(),
{
    let keys = entry_keys(all.filter(has_status(status)));
    lemma_filter_keys_distinct(all, has_status(status));
    lemma_bucket_keys(all, left, right, status);
    keys.unique_seq_to_set();
    vstd::seq_lib::seq_to_set_is_finite(keys);
}

/// Each bucket counts the keys of its status: missing counts the keys only
/// the right map has, extra those only the left map has, changed those that
/// both have with different values, and match those that both have with the
/// same value.
pub proof fn lemma_bucket_counts(
    result: DiffResult,
    left: Map<Seq<char>, Seq<char>>,
    right: Map<Seq<char>, Seq<char>>,
)
    requires
        is_diff_of(result, left, right),
    ensures
        keys_with_status(left, right, DiffStatus::Missing) == left.dom().complement().intersect(right.dom()),
        keys_with_status(left, right, DiffStatus::Extra) == left.dom().intersect(right.dom().complement()),
        keys_with_status(left, right, DiffStatus::Changed) == Set::new(
            |k: Seq<char>| left.contains_key(k) && right.contains_key(k) && left[k] != right[k],
        ),
        keys_with_status(left, right, DiffStatus::Match) == Set::new(
            |k: Seq<char>| left.contains_key(k) && right.contains_key(k) && left[k] == right[k],
        ),
        result.missing.len() == keys_with_status(left, right, DiffStatus::Missing).len(),
        result.extra.len() == keys_with_status(left, right, DiffStatus::Extra).len(),
        result.changed.len() == keys_with_status(left, right, DiffStatus::Changed).len(),
        result.match_entries.len() == keys_with_status(left, right, DiffStatus::Match).len(),
{
    let all = entry_views(result.entries@);
    lemma_bucket_count(all, left, right, DiffStatus::Missing);
    lemma_bucket_count(all, left, right, DiffStatus::Extra);
    lemma_bucket_count(all, left, right, DiffStatus::Changed);
    lemma_bucket_count(all, left, right, DiffStatus::Match);
    assert(entry_views(result.missing@).len() == result.missing.len());
    assert(entry_views(result.extra@).len() == result.extra.len());
    assert(entry_views(result.changed@).len() == result.changed.len());
    assert(entry_views(result.match_entries@).len() == result.match_entries.len());
    assert(keys_with_status(left, right, DiffStatus::Missing) =~= left.dom().complement().intersect(
        right.dom(),
    ));
    assert(keys_with_status(left, right, DiffStatus::Extra) =~= left.dom().intersect(
        right.dom().complement(),
    ));
    assert(keys_with_status(left, right, DiffStatus::Changed) =~= Set::new(
        |k: Seq<char>| left.contains_key(k) && right.contains_key(k) && left[k] != right[k],
    ));
    assert(keys_with_status(left, right, DiffStatus::Match) =~= Set::new(
        |k: Seq<char>| left.contains_key(k) && right.contains_key(k) && left[k] == right[k],
    ));
}


/// The entries of one bucket are entries of the diff with that status.
proof fn lemma_bucket_member_views(
    all: Seq<EntryView>,
    bucket: Seq<EntryView>,
    left: Map<Seq<char>, Seq<char>>,
    right: Map<Seq<char>, Seq<char>>,
    status: DiffStatus,
)
    requires
        keys_cover(all, left, right),
        entries_expected(all, left, right),
        bucket == all.filter(has_status(status)),
    ensures
        forall|i: int|
            0 <= i < bucket.len() ==> {
                &&& (#[trigger] bucket[i]) == expected_entry(left, right, bucket[i].key)
                &&& bucket[i].status == status
                &&& (left.contains_key(bucket[i].key) || right.contains_key(bucket[i].key))
            },
{
    reveal(keys_cover);
    reveal(entries_expected);
    assert forall|i: int| 0 <= i < bucket.len() implies {
        &&& (#[trigger] bucket[i]) == expected_entry(left, right, bucket[i].key)
        &&& bucket[i].status == status
        &&& (left.contains_key(bucket[i].key) || right.contains_key(bucket[i].key))
    } by {
        all.lemma_filter_pred(has_status(status), i);
        assert(bucket.contains(bucket[i]));
        all.lemma_filter_contains_rev(has_status(status), bucket[i]);
        let m = choose|m: int| 0 <= m < all.len() && all[m] == bucket[i];
        assert(all[m] == expected_entry(left, right, all[m].key));
        let k = all[m].key;
        assert(exists|j: int| 0 <= j < all.len() && #[trigger] all[j].key == k);
    }
}

/// Each bucket holds only keys of its kind, with their values from the two
/// maps: a missing key is only in the right map, an extra key only in the
/// left one, a changed key is in both with different values, and a matching
/// key is in both with the same value.
pub proof fn lemma_bucket_members(
    result: DiffResult,
    left: Map<Seq<char>, Seq<char>>,
    right: Map<Seq<char>, Seq<char>>,
)
    requires
        is_diff_of(result, left, right),
    ensures
        forall|i: int|
            0 <= i < result.missing.len() ==> {
                let e = #[trigger] result.missing@[i]@;
                &&& !left.contains_key(e.key) && right.contains_key(e.key)
                &&& e.left is None && e.right == Some(right[e.key])
            },
        forall|i: int|
            0 <= i < result.extra.len() ==> {
                let e = #[trigger] result.extra@[i]@;
                &&& left.contains_key(e.key) && !right.contains_key(e.key)
                &&& e.left == Some(left[e.key]) && e.right is None
            },
        forall|i: int|
            0 <= i < result.changed.len() ==> {
                let e = #[trigger] result.changed@[i]@;
                &&& left.contains_key(e.key) && right.contains_key(e.key)
                &&& left[e.key] != right[e.key]
                &&& e.left == Some(left[e.key]) && e.right == Some(right[e.key])
            },
        forall|i: int|
            0 <= i < result.match_entries.len() ==> {
                let e = #[trigger] result.match_entries@[i]@;
                &&& left.contains_key(e.key) && right.contains_key(e.key)
                &&& left[e.key] == right[e.key]
                &&& e.left == Some(left[e.key]) && e.right == Some(right[e.key])
            },
{
    let all = entry_views(result.entries@);
    let mv = entry_views(result.missing@);
    let ev = entry_views(result.extra@);
    let cv = entry_views(result.changed@);
    let tv = entry_views(result.match_entries@);
    lemma_bucket_member_views(all, mv, left, right, DiffStatus::Missing);
    lemma_bucket_member_views(all, ev, left, right, DiffStatus::Extra);
    lemma_bucket_member_views(all, cv, left, right, DiffStatus::Changed);
    lemma_bucket_member_views(all, tv, left, right, DiffStatus::Match);
    assert forall|i: int| 0 <= i < result.missing.len() implies {
        let e = #[trigger] result.missing@[i]@;
        &&& !left.contains_key(e.key) && right.contains_key(e.key)
        &&& e.left is None && e.right == Some(right[e.key])
    } by {
        assert(mv[i] == result.missing@[i]@);
    }
    assert forall|i: int| 0 <= i < result.extra.len() implies {
        let e = #[trigger] result.extra@[i]@;
        &&& left.contains_key(e.key) && !right.contains_key(e.key)
        &&& e.left == Some(left[e.key]) && e.right is None
    } by {
        assert(ev[i] == result.extra@[i]@);
    }
    assert forall|i: int| 0 <= i < result.changed.len() implies {
        let e = #[trigger] result.changed@[i]@;
        &&& left.contains_key(e.key) && right.contains_key(e.key)
        &&& left[e.key] != right[e.key]
        &&& e.left == Some(left[e.key]) && e.right == Some(right[e.key])
    } by {
        assert(cv[i] == result.changed@[i]@);
    }
    assert forall|i: int| 0 <= i < result.match_entries.len() implies {
        let e = #[trigger] result.match_entries@[i]@;
        &&& left.contains_key(e.key) && right.contains_key(e.key)
        &&& left[e.key] == right[e.key]
        &&& e.left == Some(left[e.key]) && e.right == Some(right[e.key])
    } by {
        assert(tv[i] == result.match_entries@[i]@);
    }
}

} // verus!
