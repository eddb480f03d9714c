//! Value masking: secrets are masked by default and shown in full only on
//! explicit request.
use vstd::prelude::*;

verus! {

/// Number of characters that stay visible at the end of a masked value.
pub const TAIL_LENGTH: usize = 4;

/// What stands in front of the visible tail of a masked value.
pub open spec fn mask_prefix() -> Seq<char> {
    seq!['*', '*', '*', '*']
}

/// The masked form of `value`: its last [`TAIL_LENGTH`] characters behind
/// `****`, or `****` alone for a value of at most that many characters.
pub open spec fn spec_mask(value: Seq<char>) -> Seq<char> {
    if value.len() <= TAIL_LENGTH {
        mask_prefix()
    } else {
        mask_prefix() + value.skip(value.len() - TAIL_LENGTH)
    }
}

/// `value` itself when `reveal` is set, else its masked form.
pub open spec fn spec_maybe_mask(value: Seq<char>, reveal: bool) -> Seq<char> {
    if reveal {
        value
    } else {
        spec_mask(value)
    }
}

fn mask_prefix_string() -> (res: String)
    ensures
        res@ == mask_prefix(),
{
    let prefix = "****";
    proof {
        reveal_strlit("****");
        assert(prefix@ =~= mask_prefix());
    }
    prefix.to_owned()
}

/// Masks a value, showing only its last 4 characters. Values of at most 4
/// characters are fully masked.
///
/// `"sk-abc123def7f3a"` gives `"****7f3a"`; `"yes"` and `""` give `"****"`.
pub fn mask_value(value: &str) -> (res: String)
    ensures
        res@ == spec_mask(value@),
        value@.len() <= 4 ==> res@ == seq!['*', '*', '*', '*'],
        value@.len() > 4 ==> res@ == seq!['*', '*', '*', '*'] + value@.subrange(
            value@.len() - 4,
            value@.len() as int,
        ),
{
    let n = value.unicode_len();
    let mut res = mask_prefix_string();
    if n > TAIL_LENGTH {
        let tail = value.substring_char(n - TAIL_LENGTH, n);
        res.append(tail);
        proof {
            assert(value@.subrange((n - TAIL_LENGTH) as int, n as int) =~= value@.skip(n - TAIL_LENGTH));
        }
    }
    proof {
        lemma_mask_exact(value@);
    }
    res
}

/// Masks `value` unless `reveal` is set, in which case it is returned whole.
pub fn maybe_mask(value: &str, reveal: bool) -> (res: String)
    ensures
        res@ == spec_maybe_mask(value@, reveal),
{
    if reveal {
        value.to_owned()
    } else {
        mask_value(value)
    }
}

/// A value of at most 4 characters masks to `****` and shows none of its
/// characters; a longer one masks to `****` followed by its last 4
/// characters. Revealed, every value is shown whole.
pub proof fn lemma_mask_exact(value: Seq<char>)
    ensures
        value.len() <= 4 ==> spec_mask(value) == seq!['*', '*', '*', '*'],
        value.len() > 4 ==> spec_mask(value) == seq!['*', '*', '*', '*'] + value.subrange(
            value.len() - 4,
            value.len() as int,
        ),
        value.len() > 4 ==> spec_mask(value).len() == 8,
        spec_maybe_mask(value, true) == value,
        spec_maybe_mask(value, false) == spec_mask(value),
{
    assert(mask_prefix() =~= seq!['*', '*', '*', '*']);
    if value.len() > 4 {
        assert(value.skip(value.len() - 4) =~= value.subrange(value.len() - 4, value.len() as int));
    }
}

/// Every masked value starts with `****` and shows at most 4 characters of
/// the value, all taken from its end.
pub proof fn lemma_mask_hides_all_but_tail(value: Seq<char>)
    ensures
        spec_mask(value).take(4) == mask_prefix(),
        spec_mask(value).len() <= 8,
        spec_mask(value).len() - 4 <= value.len(),
        value.len() > 4 ==> spec_mask(value).len() == 8,
        forall|i: int|
            4 <= i < spec_mask(value).len() ==> #[trigger] spec_mask(value)[i] == value[value.len()
                - spec_mask(value).len() + i],
{
    assert(spec_mask(value).take(4) =~= mask_prefix());
}

} // verus!
