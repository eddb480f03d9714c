//! What the terminal table shows of a diff: which rows, with which values,
//! how wide the key column is, and what the summary says. Colours and
//! padding are left to the terminal front end.
use vstd::prelude::*;
use vstd::utf8::encode_utf8;

use crate::differ::{
    entries_expected, entry_views, expected_entry, has_status, is_diff_of, keys_cover,
    lemma_ok_iff_equal, DiffEntry, DiffResult, DiffStatus, EntryView,
};
use crate::diff_laws::lemma_bucket_counts;
use crate::formatter::json::{or_empty, value_or_empty};
use crate::masker::{maybe_mask, spec_maybe_mask};

verus! {

/// One table row. A value of `None` shows as a dash: the key has no value on
/// that side.
pub struct ConsoleRow {
    pub status: DiffStatus,
    pub key: String,
    pub left: Option<String>,
    pub right: Option<String>,
}

/// A [`ConsoleRow`] taken by its characters.
pub struct RowView {
    pub status: DiffStatus,
    pub key: Seq<char>,
    pub left: Option<Seq<char>>,
    pub right: Option<Seq<char>>,
}

impl View for ConsoleRow {
    type V = RowView;

    open spec fn view(&self) -> RowView {
        RowView {
            status: self.status,
            key: self.key@,
            left: crate::differ::opt_chars(self.left),
            right: crate::differ::opt_chars(self.right),
        }
    }
}

/// The rows, each taken by its characters.
pub open spec fn row_views(rows: Seq<ConsoleRow>) -> Seq<RowView> {
    rows.map_values(|r: ConsoleRow| r@)
}

/// Holds of the entries that the table shows: all of them with `show_all`,
/// else all but the matching ones.
pub open spec fn is_visible(show_all: bool) -> spec_fn(EntryView) -> bool {
    |e: EntryView| e.status != DiffStatus::Match || show_all
}

/// The row of an entry: a missing key shows no left value, an extra key no
/// right value, and every value shown is masked unless `reveal`.
pub open spec fn row_of(e: EntryView, reveal: bool) -> RowView {
    RowView {
        status: e.status,
        key: e.key,
        left: if e.status == DiffStatus::Missing {
            None
        } else {
            Some(spec_maybe_mask(or_empty(e.left), reveal))
        },
        right: if e.status == DiffStatus::Extra {
            None
        } else {
            Some(spec_maybe_mask(or_empty(e.right), reveal))
        },
    }
}

/// The rows of the table, in the order of the diff's entries.
pub open spec fn spec_rows(entries: Seq<EntryView>, reveal: bool, show_all: bool) -> Seq<RowView> {
    entries.filter(is_visible(show_all)).map_values(|e: EntryView| row_of(e, reveal))
}

fn row_for(e: &DiffEntry, reveal: bool) -> (res: ConsoleRow)
    ensures
        res@ == row_of(e@, reveal),
{
    let left = match e.status {
        DiffStatus::Missing => None,
        _ => Some(maybe_mask(value_or_empty(&e.left_val), reveal)),
    };
    let right = match e.status {
        DiffStatus::Extra => None,
        _ => Some(maybe_mask(value_or_empty(&e.right_val), reveal)),
    };
    ConsoleRow { status: e.status, key: e.key.clone(), left, right }
}

/// The rows that the table shows for `diff`.
pub fn console_rows(diff: &DiffResult, reveal: bool, show_all: bool) -> (res: Vec<ConsoleRow>)
    ensures
        row_views(res@) == spec_rows(entry_views(diff.entries@), reveal, show_all),
{
    let ghost all = entry_views(diff.entries@);
    let mut rows: Vec<ConsoleRow> = Vec::new();
    let n = diff.entries.len();
    let mut i: usize = 0;
    proof {
        reveal(Seq::filter);
        assert(row_views(rows@) =~= spec_rows(all.take(0), reveal, show_all));
    }
    while i < n
        invariant
            i <= n == diff.entries.len(),
            all == entry_views(diff.entries@),
            row_views(rows@) == spec_rows(all.take(i as int), reveal, show_all),
        decreases n - i,
    {
        let e = &diff.entries[i];
        let ghost before = row_views(rows@);
        proof {
            assert(all.take(i + 1) =~= all.take(i as int).push(e@));
            all.take(i as int).lemma_filter_push(e@, is_visible(show_all));
        }
        if e.status != DiffStatus::Match || show_all {
            rows.push(row_for(e, reveal));
            proof {
                assert(row_views(rows@) =~= before.push(row_of(e@, reveal)));
                assert(spec_rows(all.take(i + 1), reveal, show_all) =~= spec_rows(
                    all.take(i as int),
                    reveal,
                    show_all,
                ).push(row_of(e@, reveal)));
            }
        }
        i = i + 1;
    }
    proof {
        assert(all.take(n as int) =~= all);
    }
    rows
}

proof fn lemma_visible_count(all: Seq<EntryView>)
    ensures
        all.filter(is_visible(true)).len() == all.len(),
        all.filter(is_visible(false)).len() + all.filter(has_status(DiffStatus::Match)).len()
            == all.len(),
    decreases all.len(),
{
    if all.len() == 0 {
        reveal(Seq::filter);
    } else {
        let init = all.drop_last();
        lemma_visible_count(init);
        assert(all =~= init.push(all.last()));
        init.lemma_filter_push(all.last(), is_visible(true));
        init.lemma_filter_push(all.last(), is_visible(false));
        init.lemma_filter_push(all.last(), has_status(DiffStatus::Match));
    }
}

/// With `show_all` the table has a row for every key; without it, a row for
/// every key that is missing, extra or changed.
pub proof fn lemma_row_count(
    diff: DiffResult,
    left: Map<Seq<char>, Seq<char>>,
    right: Map<Seq<char>, Seq<char>>,
    reveal: bool,
)
    requires
        is_diff_of(diff, left, right),
    ensures
        spec_rows(entry_views(diff.entries@), reveal, true).len() == diff.entries.len(),
        spec_rows(entry_views(diff.entries@), reveal, false).len() + diff.match_entries.len()
            == diff.entries.len(),
{
    lemma_visible_count(entry_views(diff.entries@));
    assert(entry_views(diff.match_entries@).len() == diff.match_entries.len());
}

/// Number of bytes that the UTF-8 encoding of `s` takes.
pub open spec fn byte_len(s: Seq<char>) -> nat {
    encode_utf8(s).len()
}

/// The widest key among `rows`, in bytes.
pub open spec fn widest_key(rows: Seq<RowView>) -> nat
    decreases rows.len(),
{
    if rows.len() == 0 {
        0
    } else {
        let w = byte_len(rows.last().key);
        let rest = widest_key(rows.drop_last());
        if w > rest {
            w
        } else {
            rest
        }
    }
}

/// Width of the key column: the widest key, in bytes, and at least 3;
/// 10 when there is no row.
pub fn key_column_width(rows: &Vec<ConsoleRow>) -> (res: usize)
    ensures
        res == (if rows.len() == 0 {
            10
        } else if widest_key(row_views(rows@)) < 3 {
            3
        } else {
            widest_key(row_views(rows@))
        }),
{
    let ghost views = row_views(rows@);
    let mut widest: usize = 0;
    let mut i: usize = 0;
    proof {
        assert(views.take(0) =~= Seq::<RowView>::empty());
    }
    while i < rows.len()
        invariant
            i <= rows.len(),
            views == row_views(rows@),
            widest == widest_key(views.take(i as int)),
        decreases rows.len() - i,
    {
        let w = rows[i].key.as_str().as_bytes().len();
        proof {
            assert(views.take(i + 1).drop_last() =~= views.take(i as int));
            assert(views.take(i + 1).last() == views[i as int]);
        }
        if w > widest {
            widest = w;
        }
        i = i + 1;
    }
    proof {
        assert(views.take(rows.len() as int) =~= views);
    }
    if rows.len() == 0 {
        10
    } else if widest < 3 {
        3
    } else {
        widest
    }
}

/// Width of a value column: its header, in bytes, and at least 20.
pub fn header_width(header: &str) -> (res: usize)
    ensures
        res == (if byte_len(header@) < 20 {
            20
        } else {
            byte_len(header@)
        }),
{
    let w = header.as_bytes().len();
    if w < 20 {
        20
    } else {
        w
    }
}

/// One part of the summary line under the table.
#[derive(Debug, Clone, Copy, PartialEq, Eq, Structural)]
pub enum SummaryPart {
    /// So many keys are missing.
    Missing(usize),
    /// So many keys are extra.
    Extra(usize),
    /// So many keys changed.
    Changed(usize),
    /// So many keys match, and their rows are shown.
    Matching(usize),
    /// So many keys match, and their rows are hidden.
    MatchingHidden(usize),
}

/// The parts of the summary line: one for each non-empty bucket, in the
/// order missing, extra, changed, matching.
pub open spec fn spec_summary_parts(
    missing: usize,
    extra: usize,
    changed: usize,
    matching: usize,
    show_all: bool,
) -> Seq<SummaryPart> {
    (if missing > 0 { seq![SummaryPart::Missing(missing)] } else { seq![] }) + (if extra > 0 {
        seq![SummaryPart::Extra(extra)]
    } else {
        seq![]
    }) + (if changed > 0 { seq![SummaryPart::Changed(changed)] } else { seq![] }) + (if matching
        == 0 {
        seq![]
    } else if show_all {
        seq![SummaryPart::Matching(matching)]
    } else {
        seq![SummaryPart::MatchingHidden(matching)]
    })
}

/// The parts of the summary line under the table.
pub fn summary_parts(diff: &DiffResult, show_all: bool) -> (res: Vec<SummaryPart>)
    ensures
        res@ == spec_summary_parts(
            diff.missing.len(),
            diff.extra.len(),
            diff.changed.len(),
            diff.match_entries.len(),
            show_all,
        ),
{
    let mut parts: Vec<SummaryPart> = Vec::new();
    if diff.missing.len() > 0 {
        parts.push(SummaryPart::Missing(diff.missing.len()));
    }
    if diff.extra.len() > 0 {
        parts.push(SummaryPart::Extra(diff.extra.len()));
    }
    if diff.changed.len() > 0 {
        parts.push(SummaryPart::Changed(diff.changed.len()));
    }
    if show_all && diff.match_entries.len() > 0 {
        parts.push(SummaryPart::Matching(diff.match_entries.len()));
    } else if !show_all && diff.match_entries.len() > 0 {
        parts.push(SummaryPart::MatchingHidden(diff.match_entries.len()));
    }
    proof {
        assert(parts@ =~= spec_summary_parts(
            diff.missing.len(),
            diff.extra.len(),
            diff.changed.len(),
            diff.match_entries.len(),
            show_all,
        ));
    }
    parts
}

/// The closing line under the summary.
#[derive(Debug, Clone, Copy, PartialEq, Eq, Structural)]
pub enum ClosingNote {
    /// The files match.
    FilesMatch,
    /// So many keys are missing, which may break the application.
    MissingKeys(usize),
    /// Differences other than missing keys: no closing line.
    Nothing,
}

/// The closing line: the files match when the diff is `ok`; else a warning
/// when keys are missing; else nothing.
pub fn closing_note(diff: &DiffResult) -> (res: ClosingNote)
    ensures
        res == (if diff.ok {
            ClosingNote::FilesMatch
        } else if diff.missing.len() > 0 {
            ClosingNote::MissingKeys(diff.missing.len())
        } else {
            ClosingNote::Nothing
        }),
{
    if diff.ok {
        ClosingNote::FilesMatch
    } else if diff.missing.len() > 0 {
        ClosingNote::MissingKeys(diff.missing.len())
    } else {
        ClosingNote::Nothing
    }
}


/// The table read against the two maps: each row is a key of either map,
/// and under each side it shows that side's value of the key (masked unless
/// `reveal`), or a dash exactly where that side lacks the key. Every key
/// whose values differ has a row, and with `show_all` every key has one;
/// without `show_all` no key with the same value on both sides has one.
pub proof fn lemma_rows_of_maps(
    diff: DiffResult,
    left: Map<Seq<char>, Seq<char>>,
    right: Map<Seq<char>, Seq<char>>,
    rows: Seq<RowView>,
    reveal: bool,
    show_all: bool,
)
    requires
        is_diff_of(diff, left, right),
        rows == spec_rows(entry_views(diff.entries@), reveal, show_all),
    ensures
        forall|i: int|
            0 <= i < rows.len() ==> {
                let k = (#[trigger] rows[i]).key;
                &&& left.contains_key(k) || right.contains_key(k)
                &&& rows[i].left == (if left.contains_key(k) {
                    Some(spec_maybe_mask(left[k], reveal))
                } else {
                    None
                })
                &&& rows[i].right == (if right.contains_key(k) {
                    Some(spec_maybe_mask(right[k], reveal))
                } else {
                    None
                })
                &&& show_all || left.get(k) != right.get(k)
            },
        forall|k: Seq<char>|
            (left.contains_key(k) || right.contains_key(k)) && (show_all || left.get(k) != right.get(
                k,
            )) ==> exists|i: int| 0 <= i < rows.len() && (#[trigger] rows[i]).key == k,
{
    reveal(keys_cover);
    reveal(entries_expected);
    let all = entry_views(diff.entries@);
    let p = is_visible(show_all);
    let f = all.filter(p);
    assert(rows.len() == f.len());
    assert forall|i: int| 0 <= i < rows.len() implies {
        let k = (#[trigger] rows[i]).key;
        &&& left.contains_key(k) || right.contains_key(k)
        &&& rows[i].left == (if left.contains_key(k) {
            Some(spec_maybe_mask(left[k], reveal))
        } else {
            None
        })
        &&& rows[i].right == (if right.contains_key(k) {
            Some(spec_maybe_mask(right[k], reveal))
        } else {
            None
        })
        &&& show_all || left.get(k) != right.get(k)
    } by {
        assert(rows[i] == row_of(f[i], reveal));
        all.lemma_filter_pred(p, i);
        assert(f.contains(f[i]));
        all.lemma_filter_contains_rev(p, f[i]);
        let m = choose|m: int| 0 <= m < all.len() && all[m] == f[i];
        assert(all[m] == expected_entry(left, right, all[m].key));
        let k = all[m].key;
        assert(exists|j: int| 0 <= j < all.len() && #[trigger] all[j].key == k);
    }
    assert forall|k: Seq<char>|
        (left.contains_key(k) || right.contains_key(k)) && (show_all || left.get(k) != right.get(
            k,
        )) implies exists|i: int| 0 <= i < rows.len() && (#[trigger] rows[i]).key == k by {
        let m = choose|m: int| 0 <= m < all.len() && #[trigger] all[m].key == k;
        assert(all[m] == expected_entry(left, right, k));
        assert(p(all[m]));
        all.lemma_filter_contains(p, m);
        let j = choose|j: int| 0 <= j < f.len() && f[j] == all[m];
        assert(rows[j] == row_of(f[j], reveal));
        assert(rows[j].key == k);
    }
}

/// What [`spec_summary_parts`] holds: a part for each non-zero count, with
/// that count.
proof fn lemma_summary_parts_contains(
    missing: usize,
    extra: usize,
    changed: usize,
    matching: usize,
    show_all: bool,
)
    ensures
        forall|n: usize|
            spec_summary_parts(missing, extra, changed, matching, show_all).contains(
                SummaryPart::Missing(n),
            ) <==> (n > 0 && n == missing),
        forall|n: usize|
            spec_summary_parts(missing, extra, changed, matching, show_all).contains(
                SummaryPart::Extra(n),
            ) <==> (n > 0 && n == extra),
        forall|n: usize|
            spec_summary_parts(missing, extra, changed, matching, show_all).contains(
                SummaryPart::Changed(n),
            ) <==> (n > 0 && n == changed),
        forall|n: usize|
            spec_summary_parts(missing, extra, changed, matching, show_all).contains(
                SummaryPart::Matching(n),
            ) <==> (show_all && n > 0 && n == matching),
        forall|n: usize|
            spec_summary_parts(missing, extra, changed, matching, show_all).contains(
                SummaryPart::MatchingHidden(n),
            ) <==> (!show_all && n > 0 && n == matching),
{
    let a: Seq<SummaryPart> = if missing > 0 { seq![SummaryPart::Missing(missing)] } else { seq![] };
    let b: Seq<SummaryPart> = if extra > 0 { seq![SummaryPart::Extra(extra)] } else { seq![] };
    let c: Seq<SummaryPart> = if changed > 0 { seq![SummaryPart::Changed(changed)] } else { seq![] };
    let d: Seq<SummaryPart> = if matching == 0 {
        seq![]
    } else if show_all {
        seq![SummaryPart::Matching(matching)]
    } else {
        seq![SummaryPart::MatchingHidden(matching)]
    };
    let parts = spec_summary_parts(missing, extra, changed, matching, show_all);
    assert(parts == a + b + c + d);
    assert forall|x: SummaryPart| a.contains(x) <==> (missing > 0 && x == SummaryPart::Missing(missing)) by {
        if a.contains(x) {
            let i = choose|i: int| 0 <= i < a.len() && a[i] == x;
        }
        if missing > 0 && x == SummaryPart::Missing(missing) {
            assert(a[0] == x);
        }
    }
    assert forall|x: SummaryPart| b.contains(x) <==> (extra > 0 && x == SummaryPart::Extra(extra)) by {
        if b.contains(x) {
            let i = choose|i: int| 0 <= i < b.len() && b[i] == x;
        }
        if extra > 0 && x == SummaryPart::Extra(extra) {
            assert(b[0] == x);
        }
    }
    assert forall|x: SummaryPart| c.contains(x) <==> (changed > 0 && x == SummaryPart::Changed(changed)) by {
        if c.contains(x) {
            let i = choose|i: int| 0 <= i < c.len() && c[i] == x;
        }
        if changed > 0 && x == SummaryPart::Changed(changed) {
            assert(c[0] == x);
        }
    }
    assert forall|x: SummaryPart|
        d.contains(x) <==> (matching > 0 && x == (if show_all {
            SummaryPart::Matching(matching)
        } else {
            SummaryPart::MatchingHidden(matching)
        })) by {
        if d.contains(x) {
            let i = choose|i: int| 0 <= i < d.len() && d[i] == x;
        }
        if matching > 0 {
            assert(d[0] == (if show_all {
                SummaryPart::Matching(matching)
            } else {
                SummaryPart::MatchingHidden(matching)
            }));
        }
    }
    assert forall|x: SummaryPart| parts.contains(x) <==> (a.contains(x) || b.contains(x) || c.contains(x) || d.contains(x)) by {
        if parts.contains(x) {
            let i = choose|i: int| 0 <= i < parts.len() && parts[i] == x;
            if i < a.len() {
                assert(a[i] == x);
            } else if i < a.len() + b.len() {
                assert(b[i - a.len()] == x);
            } else if i < a.len() + b.len() + c.len() {
                assert(c[i - a.len() - b.len()] == x);
            } else {
                assert(d[i - a.len() - b.len() - c.len()] == x);
            }
        }
        if a.contains(x) {
            let i = choose|i: int| 0 <= i < a.len() && a[i] == x;
            assert(parts[i] == x);
        }
        if b.contains(x) {
            let i = choose|i: int| 0 <= i < b.len() && b[i] == x;
            assert(parts[a.len() + i] == x);
        }
        if c.contains(x) {
            let i = choose|i: int| 0 <= i < c.len() && c[i] == x;
            assert(parts[a.len() + b.len() + i] == x);
        }
        if d.contains(x) {
            let i = choose|i: int| 0 <= i < d.len() && d[i] == x;
            assert(parts[a.len() + b.len() + c.len() + i] == x);
        }
    }
}

/// The summary line read against the two maps: it has a part for missing
/// keys exactly when some key is only in the right map, and then it counts
/// those keys; likewise extra keys (only in the left map), changed keys (in
/// both, values different), and matching keys (in both, same value), which
/// are counted as shown with `show_all` and as hidden without it.
pub proof fn lemma_summary_of_maps(
    diff: DiffResult,
    left: Map<Seq<char>, Seq<char>>,
    right: Map<Seq<char>, Seq<char>>,
    show_all: bool,
)
    requires
        is_diff_of(diff, left, right),
    ensures
        ({
            let parts = spec_summary_parts(
                diff.missing.len(),
                diff.extra.len(),
                diff.changed.len(),
                diff.match_entries.len(),
                show_all,
            );
            let missing = left.dom().complement().intersect(right.dom()).len();
            let extra = left.dom().intersect(right.dom().complement()).len();
            let changed = Set::new(
                |k: Seq<char>| left.contains_key(k) && right.contains_key(k) && left[k] != right[k],
            ).len();
            let matching = Set::new(
                |k: Seq<char>| left.contains_key(k) && right.contains_key(k) && left[k] == right[k],
            ).len();
            &&& forall|n: usize|
                parts.contains(SummaryPart::Missing(n)) <==> (n > 0 && n == missing)
            &&& forall|n: usize|
                parts.contains(SummaryPart::Extra(n)) <==> (n > 0 && n == extra)
            &&& forall|n: usize|
                parts.contains(SummaryPart::Changed(n)) <==> (n > 0 && n == changed)
            &&& forall|n: usize|
                parts.contains(SummaryPart::Matching(n)) <==> (show_all && n > 0 && n == matching)
            &&& forall|n: usize|
                parts.contains(SummaryPart::MatchingHidden(n)) <==> (!show_all && n > 0 && n
                    == matching)
        }),
{
    lemma_bucket_counts(diff, left, right);
    lemma_summary_parts_contains(
        diff.missing.len(),
        diff.extra.len(),
        diff.changed.len(),
        diff.match_entries.len(),
        show_all,
    );
}

/// The closing line read against the two maps: the files match exactly when
/// the maps are equal; otherwise it warns of the keys only the right map
/// has, with their count, when there are any.
pub proof fn lemma_closing_note_of_maps(
    diff: DiffResult,
    left: Map<Seq<char>, Seq<char>>,
    right: Map<Seq<char>, Seq<char>>,
)
    requires
        is_diff_of(diff, left, right),
    ensures
        ({
            let note = if diff.ok {
                ClosingNote::FilesMatch
            } else if diff.missing.len() > 0 {
                ClosingNote::MissingKeys(diff.missing.len())
            } else {
                ClosingNote::Nothing
            };
            let missing = left.dom().complement().intersect(right.dom()).len();
            &&& (note == ClosingNote::FilesMatch) == (left == right)
            &&& (note is MissingKeys) == (left != right && missing > 0)
            &&& note matches ClosingNote::MissingKeys(n) ==> n == missing
        }),
{
    lemma_bucket_counts(diff, left, right);
    lemma_ok_iff_equal(diff, left, right);
}

} // verus!
