//! Bot output: short keys, no nulls, and the matching keys only counted.
use vstd::prelude::*;

use crate::differ::{is_diff_of, lemma_ok_iff_equal, opt_chars, DiffEntry, DiffResult};
use crate::diff_laws::{lemma_bucket_counts, lemma_bucket_members};
use crate::masker::{lemma_mask_hides_all_but_tail, mask_prefix, maybe_mask, spec_maybe_mask};

verus! {

/// A key that the left file lacks.
pub struct BotMissingEntry {
    pub key: String,
}

/// A key that only the left file has, with its (masked) value.
pub struct BotExtraEntry {
    pub key: String,
    pub val: String,
}

/// A key whose value differs, with both (masked) values.
pub struct BotChangedEntry {
    pub key: String,
    pub left: String,
    pub right: String,
}

/// The whole bot report.
pub struct BotOutput {
    pub left: String,
    pub right: String,
    pub missing: Vec<BotMissingEntry>,
    pub extra: Vec<BotExtraEntry>,
    pub changed: Vec<BotChangedEntry>,
    pub match_count: usize,
    pub ok: bool,
}

/// The characters of an optional value, or none when it is absent.
pub open spec fn or_empty(o: Option<Seq<char>>) -> Seq<char> {
    match o {
        Some(s) => s,
        None => Seq::empty(),
    }
}

/// An optional value as a string slice, empty when it is absent.
pub fn value_or_empty(o: &Option<String>) -> (res: &str)
    ensures
        res@ == or_empty(opt_chars(*o)),
{
    match o {
        Some(s) => s.as_str(),
        None => {
            let e = "";
            proof {
                reveal_strlit("");
            }
            e
        },
    }
}

/// `out` is the bot report of `diff` for the two paths.
pub open spec fn is_bot_output_of(
    out: BotOutput,
    diff: DiffResult,
    left_path: Seq<char>,
    right_path: Seq<char>,
    reveal: bool,
) -> bool {
    &&& out.left@ == left_path
    &&& out.right@ == right_path
    &&& out.missing.len() == diff.missing.len()
    &&& forall|i: int| 0 <= i < out.missing.len() ==> #[trigger] out.missing@[i].key@ == diff.missing@[i].key@
    &&& out.extra.len() == diff.extra.len()
    &&& forall|i: int|
        0 <= i < out.extra.len() ==> {
            &&& #[trigger] out.extra@[i].key@ == diff.extra@[i].key@
            &&& out.extra@[i].val@ == spec_maybe_mask(or_empty(opt_chars(diff.extra@[i].left_val)), reveal)
        }
    &&& out.changed.len() == diff.changed.len()
    &&& forall|i: int|
        0 <= i < out.changed.len() ==> {
            &&& #[trigger] out.changed@[i].key@ == diff.changed@[i].key@
            &&& out.changed@[i].left@ == spec_maybe_mask(or_empty(opt_chars(diff.changed@[i].left_val)), reveal)
            &&& out.changed@[i].right@ == spec_maybe_mask(
                or_empty(opt_chars(diff.changed@[i].right_val)),
                reveal,
            )
        }
    &&& out.match_count == diff.match_entries.len()
    &&& out.ok == diff.ok
}

/// Formats a diff as the bot report: missing keys by name, extra and changed
/// keys with their values (masked unless `reveal`), matching keys counted.
pub fn format_json(diff: &DiffResult, left_path: &str, right_path: &str, reveal: bool) -> (res: BotOutput)
    ensures
        is_bot_output_of(res, *diff, left_path@, right_path@, reveal),
{
    let mut missing: Vec<BotMissingEntry> = Vec::new();
    let mut i: usize = 0;
    while i < diff.missing.len()
        invariant
            i <= diff.missing.len(),
            missing.len() == i,
            forall|j: int| 0 <= j < i ==> #[trigger] missing@[j].key@ == diff.missing@[j].key@,
        decreases diff.missing.len() - i,
    {
        missing.push(BotMissingEntry { key: diff.missing[i].key.clone() });
        i = i + 1;
    }
    let mut extra: Vec<BotExtraEntry> = Vec::new();
    let mut i: usize = 0;
    while i < diff.extra.len()
        invariant
            i <= diff.extra.len(),
            extra.len() == i,
            forall|j: int|
                0 <= j < i ==> {
                    &&& #[trigger] extra@[j].key@ == diff.extra@[j].key@
                    &&& extra@[j].val@ == spec_maybe_mask(or_empty(opt_chars(diff.extra@[j].left_val)), reveal)
                },
        decreases diff.extra.len() - i,
    {
        let e: &DiffEntry = &diff.extra[i];
        extra.push(
            BotExtraEntry { key: e.key.clone(), val: maybe_mask(value_or_empty(&e.left_val), reveal) },
        );
        i = i + 1;
    }
    let mut changed: Vec<BotChangedEntry> = Vec::new();
    let mut i: usize = 0;
    while i < diff.changed.len()
        invariant
            i <= diff.changed.len(),
            changed.len() == i,
            forall|j: int|
                0 <= j < i ==> {
                    &&& #[trigger] changed@[j].key@ == diff.changed@[j].key@
                    &&& changed@[j].left@ == spec_maybe_mask(or_empty(opt_chars(diff.changed@[j].left_val)), reveal)
                    &&& changed@[j].right@ == spec_maybe_mask(
                        or_empty(opt_chars(diff.changed@[j].right_val)),
                        reveal,
                    )
                },
        decreases diff.changed.len() - i,
    {
        let e: &DiffEntry = &diff.changed[i];
        changed.push(
            BotChangedEntry {
                key: e.key.clone(),
                left: maybe_mask(value_or_empty(&e.left_val), reveal),
                right: maybe_mask(value_or_empty(&e.right_val), reveal),
            },
        );
        i = i + 1;
    }
    let res = BotOutput {
        left: left_path.to_owned(),
        right: right_path.to_owned(),
        missing,
        extra,
        changed,
        match_count: diff.match_entries.len(),
        ok: diff.ok,
    };
    proof {
        assert forall|i: int| 0 <= i < res.missing.len() implies #[trigger] res.missing@[i].key@
            == diff.missing@[i].key@ by {
            assert(missing@[i] == res.missing@[i]);
        }
        assert forall|i: int| 0 <= i < res.extra.len() implies {
            &&& #[trigger] res.extra@[i].key@ == diff.extra@[i].key@
            &&& res.extra@[i].val@ == spec_maybe_mask(or_empty(opt_chars(diff.extra@[i].left_val)), reveal)
        } by {
            assert(extra@[i] == res.extra@[i]);
        }
        assert forall|i: int| 0 <= i < res.changed.len() implies {
            &&& #[trigger] res.changed@[i].key@ == diff.changed@[i].key@
            &&& res.changed@[i].left@ == spec_maybe_mask(or_empty(opt_chars(diff.changed@[i].left_val)), reveal)
            &&& res.changed@[i].right@ == spec_maybe_mask(or_empty(opt_chars(diff.changed@[i].right_val)), reveal)
        } by {
            assert(changed@[i] == res.changed@[i]);
        }
    }
    res
}


/// Without `reveal`, every value that the bot report shows is masked: it
/// starts with `****` and holds at most 8 characters.
pub proof fn lemma_bot_values_masked(
    out: BotOutput,
    diff: DiffResult,
    left_path: Seq<char>,
    right_path: Seq<char>,
)
    requires
        is_bot_output_of(out, diff, left_path, right_path, false),
    ensures
        forall|i: int|
            0 <= i < out.extra.len() ==> (#[trigger] out.extra@[i]).val@.take(4) == mask_prefix()
                && out.extra@[i].val@.len() <= 8,
        forall|i: int|
            0 <= i < out.changed.len() ==> {
                &&& (#[trigger] out.changed@[i]).left@.take(4) == mask_prefix()
                &&& out.changed@[i].left@.len() <= 8
                &&& out.changed@[i].right@.take(4) == mask_prefix()
                &&& out.changed@[i].right@.len() <= 8
            },
{
    assert forall|i: int| 0 <= i < out.extra.len() implies (#[trigger] out.extra@[i]).val@.take(4)
        == mask_prefix() && out.extra@[i].val@.len() <= 8 by {
        assert(out.extra@[i].key@ == diff.extra@[i].key@);
        lemma_mask_hides_all_but_tail(or_empty(opt_chars(diff.extra@[i].left_val)));
    }
    assert forall|i: int| 0 <= i < out.changed.len() implies {
        &&& (#[trigger] out.changed@[i]).left@.take(4) == mask_prefix()
        &&& out.changed@[i].left@.len() <= 8
        &&& out.changed@[i].right@.take(4) == mask_prefix()
        &&& out.changed@[i].right@.len() <= 8
    } by {
        assert(out.changed@[i].key@ == diff.changed@[i].key@);
        lemma_mask_hides_all_but_tail(or_empty(opt_chars(diff.changed@[i].left_val)));
        lemma_mask_hides_all_but_tail(or_empty(opt_chars(diff.changed@[i].right_val)));
    }
}

/// With `reveal`, the bot report shows each value whole.
pub proof fn lemma_bot_values_revealed(
    out: BotOutput,
    diff: DiffResult,
    left_path: Seq<char>,
    right_path: Seq<char>,
)
    requires
        is_bot_output_of(out, diff, left_path, right_path, true),
    ensures
        forall|i: int|
            0 <= i < out.extra.len() ==> (#[trigger] out.extra@[i]).val@ == or_empty(
                opt_chars(diff.extra@[i].left_val),
            ),
        forall|i: int|
            0 <= i < out.changed.len() ==> (#[trigger] out.changed@[i]).left@ == or_empty(
                opt_chars(diff.changed@[i].left_val),
            ) && out.changed@[i].right@ == or_empty(opt_chars(diff.changed@[i].right_val)),
{
    assert forall|i: int| 0 <= i < out.extra.len() implies (#[trigger] out.extra@[i]).val@ == or_empty(
        opt_chars(diff.extra@[i].left_val),
    ) by {
        assert(out.extra@[i].key@ == diff.extra@[i].key@);
    }
    assert forall|i: int| 0 <= i < out.changed.len() implies (#[trigger] out.changed@[i]).left@
        == or_empty(opt_chars(diff.changed@[i].left_val)) && out.changed@[i].right@ == or_empty(
        opt_chars(diff.changed@[i].right_val),
    ) by {
        assert(out.changed@[i].key@ == diff.changed@[i].key@);
    }
}


/// The bot report of the diff of two maps, read against the maps: each
/// missing key is only in the right map; each extra key is only in the left
/// one and shows its left value; each changed key is in both with different
/// values and shows its left and right values; `match` counts the keys that
/// both maps hold with the same value; and `ok` holds exactly when the maps
/// are equal. Shown values are masked unless `reveal`.
pub proof fn lemma_bot_report_of_maps(
    out: BotOutput,
    diff: DiffResult,
    left: Map<Seq<char>, Seq<char>>,
    right: Map<Seq<char>, Seq<char>>,
    left_path: Seq<char>,
    right_path: Seq<char>,
    reveal: bool,
)
    requires
        is_diff_of(diff, left, right),
        is_bot_output_of(out, diff, left_path, right_path, reveal),
    ensures
        out.match_count == Set::new(
            |k: Seq<char>| left.contains_key(k) && right.contains_key(k) && left[k] == right[k],
        ).len(),
        out.changed.len() == Set::new(
            |k: Seq<char>| left.contains_key(k) && right.contains_key(k) && left[k] != right[k],
        ).len(),
        out.missing.len() == left.dom().complement().intersect(right.dom()).len(),
        out.extra.len() == left.dom().intersect(right.dom().complement()).len(),
        out.ok == (left == right),
        forall|i: int|
            0 <= i < out.missing.len() ==> !left.contains_key((#[trigger] out.missing@[i]).key@)
                && right.contains_key(out.missing@[i].key@),
        forall|i: int|
            0 <= i < out.extra.len() ==> {
                let k = (#[trigger] out.extra@[i]).key@;
                &&& left.contains_key(k) && !right.contains_key(k)
                &&& out.extra@[i].val@ == spec_maybe_mask(left[k], reveal)
            },
        forall|i: int|
            0 <= i < out.changed.len() ==> {
                let k = (#[trigger] out.changed@[i]).key@;
                &&& left.contains_key(k) && right.contains_key(k) && left[k] != right[k]
                &&& out.changed@[i].left@ == spec_maybe_mask(left[k], reveal)
                &&& out.changed@[i].right@ == spec_maybe_mask(right[k], reveal)
            },
{
    lemma_bucket_counts(diff, left, right);
    lemma_bucket_members(diff, left, right);
    lemma_ok_iff_equal(diff, left, right);
    assert forall|i: int| 0 <= i < out.missing.len() implies !left.contains_key(
        (#[trigger] out.missing@[i]).key@,
    ) && right.contains_key(out.missing@[i].key@) by {
        assert(out.missing@[i].key@ == diff.missing@[i]@.key);
    }
    assert forall|i: int| 0 <= i < out.extra.len() implies {
        let k = (#[trigger] out.extra@[i]).key@;
        &&& left.contains_key(k) && !right.contains_key(k)
        &&& out.extra@[i].val@ == spec_maybe_mask(left[k], reveal)
    } by {
        assert(out.extra@[i].key@ == diff.extra@[i]@.key);
    }
    assert forall|i: int| 0 <= i < out.changed.len() implies {
        let k = (#[trigger] out.changed@[i]).key@;
        &&& left.contains_key(k) && right.contains_key(k) && left[k] != right[k]
        &&& out.changed@[i].left@ == spec_maybe_mask(left[k], reveal)
        &&& out.changed@[i].right@ == spec_maybe_mask(right[k], reveal)
    } by {
        assert(out.changed@[i].key@ == diff.changed@[i]@.key);
    }
}

} // verus!
