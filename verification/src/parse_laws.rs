//! Laws of the parser: what holds of [`spec_parse_env`] for every input.
//!
//! [`spec_parse_env`]: crate::parser::spec_parse_env
use vstd::prelude::*;

use crate::parser::{
    byte_order_mark, closing_quote, continue_quoted, ends_with_char, entry_at, env_lines,
    gather_quoted, lemma_entry_at_advances, line_assignment, normalize_newlines, parse_lines,
    spec_parse_env, split_lines, starts_with_char, strip_bom, lemma_split_after_line,
};
use crate::text::{find_char, is_whitespace, lemma_find_char, trim, trim_end, trim_start};

verus! {

/// `s` with each `\n` written as `\r\n`, as a Windows editor saves it.
pub open spec fn with_crlf(s: Seq<char>) -> Seq<char>
    decreases s.len(),
{
    if s.len() == 0 {
        s
    } else if s[0] == '\n' {
        seq!['\r', '\n'] + with_crlf(s.drop_first())
    } else {
        seq![s[0]] + with_crlf(s.drop_first())
    }
}

/// `s` holds no `\r`.
pub open spec fn has_no_cr(s: Seq<char>) -> bool {
    forall|i: int| 0 <= i < s.len() ==> s[i] != '\r'
}

proof fn lemma_normalize_no_cr(s: Seq<char>)
    requires
        has_no_cr(s),
    ensures
        normalize_newlines(s) == s,
        normalize_newlines(with_crlf(s)) == s,
    decreases s.len(),
{
    if s.len() > 0 {
        let rest = s.drop_first();
        assert(has_no_cr(rest)) by {
            assert forall|i: int| 0 <= i < rest.len() implies rest[i] != '\r' by {
                assert(rest[i] == s[i + 1]);
            }
        }
        lemma_normalize_no_cr(rest);
        let w = with_crlf(s);
        if s[0] == '\n' {
            assert(w.skip(2) =~= with_crlf(rest));
        } else {
            assert(w.drop_first() =~= with_crlf(rest));
        }
        assert(s =~= seq![s[0]] + rest);
    }
}

proof fn lemma_with_crlf_strip_bom(s: Seq<char>)
    ensures
        strip_bom(with_crlf(s)) == with_crlf(strip_bom(s)),
        has_no_cr(s) ==> has_no_cr(strip_bom(s)),
{
    if s.len() > 0 && s[0] == byte_order_mark() {
        assert(with_crlf(s).drop_first() =~= with_crlf(s.drop_first()));
    }
    if has_no_cr(s) && s.len() > 0 {
        assert forall|i: int| 0 <= i < strip_bom(s).len() implies strip_bom(s)[i] != '\r' by {
            if s[0] == byte_order_mark() {
                assert(strip_bom(s)[i] == s[i + 1]);
            }
        }
    }
}

/// Windows line endings change nothing: text whose lines end in `\r\n`
/// describes the same map as the same text with `\n`.
pub proof fn lemma_crlf_same_map(s: Seq<char>)
    requires
        has_no_cr(s),
    ensures
        spec_parse_env(with_crlf(s)) == spec_parse_env(s),
{
    lemma_with_crlf_strip_bom(s);
    lemma_normalize_no_cr(strip_bom(s));
}

/// A leading byte order mark changes nothing, for text that does not begin
/// with a second one.
pub proof fn lemma_bom_same_map(s: Seq<char>)
    requires
        !(s.len() > 0 && s[0] == byte_order_mark()),
    ensures
        spec_parse_env(seq![byte_order_mark()] + s) == spec_parse_env(s),
{
    assert((seq![byte_order_mark()] + s).drop_first() =~= s);
}


/// A key as the parser yields it: not empty, without `=`, and neither
/// starting nor ending with whitespace.
pub open spec fn well_formed_key(k: Seq<char>) -> bool {
    &&& k.len() > 0
    &&& !is_whitespace(k[0])
    &&& !is_whitespace(k.last())
    &&& forall|i: int| 0 <= i < k.len() ==> k[i] != '='
}

proof fn lemma_trim_start_suffix(s: Seq<char>) -> (a: int)
    ensures
        0 <= a <= s.len(),
        trim_start(s) == s.skip(a),
        trim_start(s).len() > 0 ==> !is_whitespace(trim_start(s)[0]),
    decreases s.len(),
{
    if s.len() > 0 && is_whitespace(s[0]) {
        let a = lemma_trim_start_suffix(s.drop_first());
        assert(s.drop_first().skip(a) =~= s.skip(a + 1));
        a + 1
    } else {
        assert(s.skip(0) =~= s);
        0
    }
}

proof fn lemma_trim_end_prefix(s: Seq<char>) -> (b: int)
    ensures
        0 <= b <= s.len(),
        trim_end(s) == s.take(b),
        trim_end(s).len() > 0 ==> !is_whitespace(trim_end(s).last()),
    decreases s.len(),
{
    if s.len() > 0 && is_whitespace(s.last()) {
        let b = lemma_trim_end_prefix(s.drop_last());
        assert(s.drop_last().take(b) =~= s.take(b));
        b
    } else {
        assert(s.take(s.len() as int) =~= s);
        s.len() as int
    }
}

/// `trim(s)` is a stretch of `s` that neither starts nor ends with
/// whitespace.
proof fn lemma_trim_shape(s: Seq<char>)
    ensures
        trim(s).len() > 0 ==> !is_whitespace(trim(s)[0]) && !is_whitespace(trim(s).last()),
        forall|c: char| trim(s).contains(c) ==> s.contains(c),
{
    let a = lemma_trim_start_suffix(s);
    let t = trim_start(s);
    let b = lemma_trim_end_prefix(t);
    if trim(s).len() > 0 {
        assert(trim(s)[0] == t[0]);
    }
    assert forall|c: char| trim(s).contains(c) implies s.contains(c) by {
        let i = choose|i: int| 0 <= i < trim(s).len() && trim(s)[i] == c;
        assert(s[a + i] == c);
    }
}

/// Each key that a line assigns is well formed.
proof fn lemma_line_key(line: Seq<char>)
    ensures
        line_assignment(line) matches Some((k, v)) ==> well_formed_key(k),
{
    let trimmed = trim(line);
    if trimmed.len() > 0 && trimmed[0] != '#' {
        let body = if trimmed.len() >= 7 && trimmed.take(7) == crate::parser::export_prefix() {
            trim_start(trimmed.skip(7))
        } else {
            trimmed
        };
        lemma_find_char(body, '=');
        if let Some(eq) = find_char(body, '=') {
            let head = body.take(eq);
            lemma_trim_shape(head);
            let key = trim(head);
            assert forall|i: int| 0 <= i < key.len() implies key[i] != '=' by {
                assert(key.contains(key[i]));
                assert(head.contains(key[i]));
            }
        }
    }
}

proof fn lemma_parse_lines_keys(lines: Seq<Seq<char>>, i: int, acc: Map<Seq<char>, Seq<char>>)
    requires
        forall|k: Seq<char>| acc.contains_key(k) ==> well_formed_key(k),
    ensures
        forall|k: Seq<char>| parse_lines(lines, i, acc).contains_key(k) ==> well_formed_key(k),
    decreases lines.len() - i,
{
    if 0 <= i < lines.len() {
        lemma_entry_at_advances(lines, i);
        lemma_line_key(lines[i]);
        let (entry, next) = entry_at(lines, i);
        let acc2 = match entry {
            Some((k, v)) => acc.insert(k, v),
            None => acc,
        };
        lemma_parse_lines_keys(lines, next, acc2);
    }
}

/// Every key of a parsed file is well formed: not empty, without `=`, and
/// neither starting nor ending with whitespace.
pub proof fn lemma_keys_well_formed(content: Seq<char>)
    ensures
        forall|k: Seq<char>| spec_parse_env(content).contains_key(k) ==> well_formed_key(k),
{
    lemma_parse_lines_keys(env_lines(content), 0, Map::empty());
}


/// Gathering a value opened with the quote `q` from line `j` on meets a line
/// that closes it.
pub open spec fn gather_closes(q: char, lines: Seq<Seq<char>>, j: int) -> bool
    decreases lines.len() - j,
{
    if j < 0 || j >= lines.len() {
        false
    } else if closing_quote(lines[j], q, 0) is Some {
        true
    } else {
        gather_closes(q, lines, j + 1)
    }
}

/// `value` opens the quote `q` and neither closes it on its line nor is a
/// lone quote, so that it goes on over the following lines.
pub open spec fn opens_block(value: Seq<char>, q: char) -> bool {
    starts_with_char(value, q) && closing_quote(value, q, 1) is None && !ends_with_char(value, q)
}

/// The assignment at line `i` does not run off the end of `lines` with a
/// quote still open.
pub open spec fn entry_closed(lines: Seq<Seq<char>>, i: int) -> bool {
    match line_assignment(lines[i]) {
        None => true,
        Some((key, raw)) => {
            let (v1, j1) = continue_quoted(raw, '"', lines, i + 1);
            &&& opens_block(raw, '"') ==> gather_closes('"', lines, i + 1)
            &&& opens_block(v1, '\'') ==> gather_closes('\'', lines, j1)
        },
    }
}

/// No assignment from line `i` on ends with a quote still open.
pub open spec fn quotes_closed(lines: Seq<Seq<char>>, i: int) -> bool
    decreases lines.len() - i,
{
    if i < 0 || i >= lines.len() {
        true
    } else {
        proof {
            lemma_entry_at_advances(lines, i);
        }
        entry_closed(lines, i) && quotes_closed(lines, entry_at(lines, i).1)
    }
}

proof fn lemma_gather_prefix(
    value: Seq<char>,
    q: char,
    lines: Seq<Seq<char>>,
    more: Seq<Seq<char>>,
    j: int,
)
    requires
        0 <= j,
        gather_closes(q, lines, j),
    ensures
        gather_quoted(value, q, lines + more, j) == gather_quoted(value, q, lines, j),
    decreases lines.len() - j,
{
    assert((lines + more)[j] == lines[j]);
    if closing_quote(lines[j], q, 0) is None {
        lemma_gather_prefix(value + seq!['\n'] + lines[j], q, lines, more, j + 1);
    }
}

proof fn lemma_gather_shift(
    value: Seq<char>,
    q: char,
    prefix: Seq<Seq<char>>,
    lines: Seq<Seq<char>>,
    j: int,
)
    requires
        0 <= j,
    ensures
        gather_quoted(value, q, prefix + lines, prefix.len() + j) == (
            gather_quoted(value, q, lines, j).0,
            gather_quoted(value, q, lines, j).1 + prefix.len(),
        ),
    decreases lines.len() - j,
{
    if j < lines.len() {
        assert((prefix + lines)[prefix.len() + j] == lines[j]);
        if closing_quote(lines[j], q, 0) is None {
            lemma_gather_shift(value + seq!['\n'] + lines[j], q, prefix, lines, j + 1);
            assert(prefix.len() + j + 1 == prefix.len() + (j + 1));
        }
    }
}

/// An assignment that closes its quotes reads the same with more lines after.
proof fn lemma_entry_prefix(lines: Seq<Seq<char>>, more: Seq<Seq<char>>, i: int)
    requires
        0 <= i < lines.len(),
        entry_closed(lines, i),
    ensures
        entry_at(lines + more, i) == entry_at(lines, i),
{
    assert((lines + more)[i] == lines[i]);
    match line_assignment(lines[i]) {
        None => {},
        Some((key, raw)) => {
            if opens_block(raw, '"') {
                lemma_gather_prefix(raw, '"', lines, more, i + 1);
            }
            let (v1, j1) = continue_quoted(raw, '"', lines, i + 1);
            lemma_entry_at_advances(lines, i);
            crate::parser::lemma_gather_bounds(raw, '"', lines, i + 1);
            if opens_block(v1, '\'') {
                lemma_gather_prefix(v1, '\'', lines, more, j1);
            }
        },
    }
}

/// An assignment reads the same after other lines, its next index moved on.
proof fn lemma_entry_shift(prefix: Seq<Seq<char>>, lines: Seq<Seq<char>>, t: int)
    requires
        0 <= t < lines.len(),
    ensures
        entry_at(prefix + lines, prefix.len() + t) == (
            entry_at(lines, t).0,
            entry_at(lines, t).1 + prefix.len(),
        ),
{
    assert((prefix + lines)[prefix.len() + t] == lines[t]);
    match line_assignment(lines[t]) {
        None => {},
        Some((key, raw)) => {
            lemma_gather_shift(raw, '"', prefix, lines, t + 1);
            assert(prefix.len() + t + 1 == prefix.len() + (t + 1));
            let (v1, j1) = continue_quoted(raw, '"', lines, t + 1);
            crate::parser::lemma_gather_bounds(raw, '"', lines, t + 1);
            lemma_gather_shift(v1, '\'', prefix, lines, j1);
        },
    }
}

proof fn lemma_parse_shift(
    prefix: Seq<Seq<char>>,
    lines: Seq<Seq<char>>,
    t: int,
    acc: Map<Seq<char>, Seq<char>>,
)
    requires
        0 <= t,
    ensures
        parse_lines(prefix + lines, prefix.len() + t, acc) == parse_lines(lines, t, acc),
    decreases lines.len() - t,
{
    if t < lines.len() {
        lemma_entry_shift(prefix, lines, t);
        lemma_entry_at_advances(lines, t);
        let (entry, next) = entry_at(lines, t);
        let acc2 = match entry {
            Some((k, v)) => acc.insert(k, v),
            None => acc,
        };
        lemma_parse_shift(prefix, lines, next, acc2);
    }
}

proof fn lemma_parse_prefix(
    lines: Seq<Seq<char>>,
    more: Seq<Seq<char>>,
    i: int,
    acc: Map<Seq<char>, Seq<char>>,
)
    requires
        0 <= i <= lines.len(),
        quotes_closed(lines, i),
    ensures
        parse_lines(lines + more, i, acc) == parse_lines(
            lines + more,
            lines.len() as int,
            parse_lines(lines, i, acc),
        ),
    decreases lines.len() - i,
{
    if i < lines.len() {
        lemma_entry_at_advances(lines, i);
        lemma_entry_prefix(lines, more, i);
        let (entry, next) = entry_at(lines, i);
        let acc2 = match entry {
            Some((k, v)) => acc.insert(k, v),
            None => acc,
        };
        lemma_parse_prefix(lines, more, next, acc2);
    }
}

/// Parsing on from a map gives that map overridden by what the lines assign.
proof fn lemma_parse_union(lines: Seq<Seq<char>>, i: int, acc: Map<Seq<char>, Seq<char>>)
    ensures
        parse_lines(lines, i, acc) == acc.union_prefer_right(parse_lines(lines, i, Map::empty())),
    decreases lines.len() - i,
{
    if i < 0 || i >= lines.len() {
        assert(acc.union_prefer_right(Map::empty()) =~= acc);
    } else {
        lemma_entry_at_advances(lines, i);
        let (entry, next) = entry_at(lines, i);
        let acc2 = match entry {
            Some((k, v)) => acc.insert(k, v),
            None => acc,
        };
        let e0 = match entry {
            Some((k, v)) => Map::<Seq<char>, Seq<char>>::empty().insert(k, v),
            None => Map::<Seq<char>, Seq<char>>::empty(),
        };
        lemma_parse_union(lines, next, acc2);
        lemma_parse_union(lines, next, e0);
        let rest = parse_lines(lines, next, Map::empty());
        assert(acc2.union_prefer_right(rest) =~= acc.union_prefer_right(e0.union_prefer_right(rest)));
    }
}

proof fn lemma_strip_bom_concat(a: Seq<char>, b: Seq<char>)
    requires
        a.len() > 0,
    ensures
        strip_bom(a + b) == strip_bom(a) + b,
{
    if a[0] == byte_order_mark() {
        assert((a + b).drop_first() =~= a.drop_first() + b);
    }
}

proof fn lemma_normalize_concat(a: Seq<char>, b: Seq<char>)
    requires
        a.len() == 0 || a.last() != '\r',
    ensures
        normalize_newlines(a + b) == normalize_newlines(a) + normalize_newlines(b),
    decreases a.len(),
{
    if a.len() == 0 {
        assert(a + b =~= b);
        assert(normalize_newlines(a) + normalize_newlines(b) =~= normalize_newlines(b));
    } else {
        let ab = a + b;
        if a[0] == '\r' && a.len() > 1 && a[1] == '\n' {
            assert(ab.skip(2) =~= a.skip(2) + b);
            lemma_normalize_concat(a.skip(2), b);
        } else {
            assert(ab.drop_first() =~= a.drop_first() + b);
            lemma_normalize_concat(a.drop_first(), b);
        }
    }
}

proof fn lemma_normalize_ends_newline(a: Seq<char>)
    requires
        a.len() > 0,
        a.last() == '\n',
    ensures
        normalize_newlines(a).len() > 0,
        normalize_newlines(a).last() == '\n',
    decreases a.len(),
{
    if a[0] == '\r' && a.len() > 1 && a[1] == '\n' {
        if a.len() > 2 {
            lemma_normalize_ends_newline(a.skip(2));
        } else {
            assert(a.skip(2) =~= Seq::<char>::empty());
        }
    } else if a.len() > 1 {
        lemma_normalize_ends_newline(a.drop_first());
    } else {
        assert(a.drop_first() =~= Seq::<char>::empty());
    }
}

proof fn lemma_split_concat(a: Seq<char>, b: Seq<char>)
    requires
        a.len() == 0 || a.last() == '\n',
    ensures
        split_lines(a + b) == split_lines(a) + split_lines(b),
    decreases a.len(),
{
    if a.len() == 0 {
        assert(a + b =~= b);
        assert(split_lines(a) + split_lines(b) =~= split_lines(b));
    } else {
        let ab = a + b;
        lemma_find_char(a, '\n');
        lemma_find_char(ab, '\n');
        assert(ab[a.len() - 1] == '\n');
        let i = find_char(a, '\n')->0;
        assert(a[a.len() - 1] == '\n');
        assert(find_char(ab, '\n') == Some(i)) by {
            match find_char(ab, '\n') {
                Some(k) => {
                    assert(ab[i] == a[i]);
                    if k < i {
                        assert(ab[k] == a[k]);
                    }
                },
                None => {},
            }
        }
        assert(ab.take(i) =~= a.take(i));
        assert(ab.skip(i + 1) =~= a.skip(i + 1) + b);
        lemma_split_concat(a.skip(i + 1), b);
        assert(split_lines(ab) =~= seq![a.take(i)] + split_lines(a.skip(i + 1) + b));
    }
}

/// Parsing two texts one after the other gives the first map overridden by
/// the second, when the first text is empty or ends with a line break and
/// closes each of its quoted values, and the second does not open with a
/// byte order mark.
pub proof fn lemma_concat_overrides(a: Seq<char>, b: Seq<char>)
    requires
        a.len() == 0 || a.last() == '\n',
        !(b.len() > 0 && b[0] == byte_order_mark()),
        quotes_closed(env_lines(a), 0),
    ensures
        spec_parse_env(a + b) == spec_parse_env(a).union_prefer_right(spec_parse_env(b)),
{
    let lb = env_lines(b);
    assert(strip_bom(b) == b);
    if a.len() == 0 {
        assert(a + b =~= b);
        assert(strip_bom(a) =~= a);
        assert(normalize_newlines(a) =~= a);
        assert(env_lines(a) =~= Seq::<Seq<char>>::empty());
        assert(spec_parse_env(a) == Map::<Seq<char>, Seq<char>>::empty());
        assert(Map::<Seq<char>, Seq<char>>::empty().union_prefer_right(spec_parse_env(b)) =~= spec_parse_env(b));
    } else {
        let a1 = strip_bom(a);
        lemma_strip_bom_concat(a, b);
        assert(a1.len() > 0 && a1.last() == '\n') by {
            if a[0] == byte_order_mark() {
                assert(a.len() > 1);
                assert(a1.last() == a.last());
            }
        }
        lemma_normalize_concat(a1, b);
        lemma_normalize_ends_newline(a1);
        let na = normalize_newlines(a1);
        let nb = normalize_newlines(b);
        lemma_split_concat(na, nb);
        let la = env_lines(a);
        assert(env_lines(a + b) == la + lb);
        lemma_parse_prefix(la, lb, 0, Map::empty());
        lemma_parse_shift(la, lb, 0, parse_lines(la, 0, Map::empty()));
        assert(la.len() + 0 == la.len());
        lemma_parse_union(lb, 0, parse_lines(la, 0, Map::empty()));
    }
}


proof fn lemma_trim_start_exact(s: Seq<char>, i: int)
    requires
        0 <= i < s.len(),
        forall|j: int| 0 <= j < i ==> is_whitespace(s[j]),
        !is_whitespace(s[i]),
    ensures
        trim_start(s) == s.skip(i),
    decreases i,
{
    if i == 0 {
        assert(s.skip(0) =~= s);
    } else {
        let r = s.drop_first();
        assert forall|j: int| 0 <= j < i - 1 implies is_whitespace(r[j]) by {
            assert(r[j] == s[j + 1]);
        }
        lemma_trim_start_exact(r, i - 1);
        assert(r.skip(i - 1) =~= s.skip(i));
    }
}

proof fn lemma_trim_end_keeps_first(s: Seq<char>)
    requires
        s.len() > 0,
        !is_whitespace(s[0]),
    ensures
        trim_end(s).len() > 0,
        trim_end(s)[0] == s[0],
    decreases s.len(),
{
    if is_whitespace(s.last()) {
        let r = s.drop_last();
        assert(r.len() > 0);
        lemma_trim_end_keeps_first(r);
    }
}

/// A line whose first character other than whitespace is `#` is a comment
/// and assigns nothing: such a line in front of any text leaves the map of
/// that text as it is.
pub proof fn lemma_comment_line_ignored(line: Seq<char>, s: Seq<char>, i: int)
    requires
        forall|j: int| 0 <= j < line.len() ==> line[j] != '\n' && line[j] != '\r',
        0 <= i < line.len(),
        line[i] == '#',
        forall|j: int| 0 <= j < i ==> is_whitespace(line[j]),
        !(s.len() > 0 && s[0] == byte_order_mark()),
    ensures
        spec_parse_env(line + seq!['\n'] + s) == spec_parse_env(s),
{
    let a = line + seq!['\n'];
    let t = a + s;
    assert(t[0] == line[0]);
    assert(line[0] != byte_order_mark());
    assert(strip_bom(t) == t);
    assert(strip_bom(s) == s);
    assert(has_no_cr(a)) by {
        assert forall|j: int| 0 <= j < a.len() implies a[j] != '\r' by {
            if j < line.len() {
                assert(a[j] == line[j]);
            }
        }
    }
    lemma_normalize_no_cr(a);
    lemma_normalize_concat(a, s);
    let n = normalize_newlines(s);
    assert(normalize_newlines(t) == line + seq!['\n'] + n);
    lemma_split_after_line(line, n);
    let rest = split_lines(n);
    let lines = seq![line] + rest;
    assert(env_lines(t) == lines);
    assert(env_lines(s) == rest);
    lemma_trim_start_exact(line, i);
    let t1 = line.skip(i);
    assert(t1[0] == '#');
    lemma_trim_end_keeps_first(t1);
    assert(trim(line)[0] == '#');
    assert(lines[0] == line);
    assert(line_assignment(line) is None);
    assert(entry_at(lines, 0) == (None::<(Seq<char>, Seq<char>)>, 1int));
    lemma_entry_at_advances(lines, 0);
    assert(parse_lines(lines, 0, Map::empty()) == parse_lines(lines, 1, Map::empty()));
    lemma_parse_shift(seq![line], rest, 0, Map::empty());
    assert(seq![line].len() + 0 == 1);
}

} // verus!
