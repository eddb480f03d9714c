//! Parsing of `.env` text into an [`EnvMap`].
//!
//! Handled: comments, empty lines, single- and double-quoted values, the
//! `export` prefix, quoted values over several lines, inline comments,
//! `KEY=value=with=equals`, duplicate keys (the last one wins), Windows line
//! endings and a leading UTF-8 byte order mark.
//!
//! A quoted value ends at its closing quote when only whitespace or a ` #`
//! comment follows it on that line; an unclosed one runs on over the
//! following lines until a line closes it.
use vstd::prelude::*;

use crate::env_map::EnvMap;
use crate::text::{
    chars_of, copy_range, find_char, find_char_vec, find_pair, find_pair_vec, is_whitespace,
    is_whitespace_char, lemma_find_char, string_of, trim, trim_start, trim_start_vec, trim_vec,
};

verus! {

/// The byte order mark that may open a UTF-8 file.
pub open spec fn byte_order_mark() -> char {
    '\u{feff}'
}

/// `s` without one leading byte order mark.
pub open spec fn strip_bom(s: Seq<char>) -> Seq<char> {
    if s.len() > 0 && s[0] == byte_order_mark() {
        s.drop_first()
    } else {
        s
    }
}

/// `s` with each `\r\n` and each other `\r` turned into `\n`.
pub open spec fn normalize_newlines(s: Seq<char>) -> Seq<char>
    decreases s.len(),
{
    if s.len() == 0 {
        s
    } else if s[0] == '\r' && s.len() > 1 && s[1] == '\n' {
        seq!['\n'] + normalize_newlines(s.skip(2))
    } else if s[0] == '\r' {
        seq!['\n'] + normalize_newlines(s.drop_first())
    } else {
        seq![s[0]] + normalize_newlines(s.drop_first())
    }
}

/// The lines of `s`, split at `\n`, as `str::lines` gives them for text
/// without `\r`: a final `\n` ends the last line and opens no new one.
pub open spec fn split_lines(s: Seq<char>) -> Seq<Seq<char>>
    decreases s.len(),
{
    if s.len() == 0 {
        seq![]
    } else {
        match find_char(s, '\n') {
            None => seq![s],
            Some(i) => {
                proof {
                    lemma_find_char(s, '\n');
                }
                seq![s.take(i)] + split_lines(s.skip(i + 1))
            },
        }
    }
}

/// `s` is non-empty and starts with `c`.
pub open spec fn starts_with_char(s: Seq<char>, c: char) -> bool {
    s.len() > 0 && s[0] == c
}

/// `s` is non-empty and ends with `c`.
pub open spec fn ends_with_char(s: Seq<char>, c: char) -> bool {
    s.len() > 0 && s.last() == c
}

/// The prefix `export ` that a line may carry before its key.
pub open spec fn export_prefix() -> Seq<char> {
    seq!['e', 'x', 'p', 'o', 'r', 't', ' ']
}

/// The key and the raw value that one line assigns, if it assigns one.
///
/// Blank lines and comment lines assign nothing, nor does a line without `=`
/// or with an empty key. The raw value is everything after the first `=`.
pub open spec fn line_assignment(line: Seq<char>) -> Option<(Seq<char>, Seq<char>)> {
    let trimmed = trim(line);
    if trimmed.len() == 0 || trimmed[0] == '#' {
        None
    } else {
        let body = if trimmed.len() >= 7 && trimmed.take(7) == export_prefix() {
            trim_start(trimmed.skip(7))
        } else {
            trimmed
        };
        match find_char(body, '=') {
            None => None,
            Some(eq) => {
                let key = trim(body.take(eq));
                if key.len() == 0 {
                    None
                } else {
                    Some((key, body.skip(eq + 1)))
                }
            },
        }
    }
}

/// What may follow a closing quote on its line: nothing but whitespace, or
/// whitespace and then a `#` comment.
pub open spec fn quote_tail_ok(rest: Seq<char>) -> bool {
    ||| trim_start(rest).len() == 0
    ||| (rest.len() > 0 && is_whitespace(rest[0]) && trim_start(rest)[0] == '#')
}

/// The first position from `i` on that holds the quote `q` with only
/// whitespace or a ` #` comment after it: where a quoted value closes.
pub open spec fn closing_quote(v: Seq<char>, q: char, i: int) -> Option<int>
    decreases v.len() - i,
{
    if i < 0 || i >= v.len() {
        None
    } else if v[i] == q && quote_tail_ok(v.skip(i + 1)) {
        Some(i)
    } else {
        closing_quote(v, q, i + 1)
    }
}

/// Where [`closing_quote`] finds a quote, it lies from `i` on.
pub proof fn lemma_closing_quote_bounds(v: Seq<char>, q: char, i: int)
    requires
        0 <= i,
    ensures
        closing_quote(v, q, i) matches Some(c) ==> i <= c < v.len() && v[c] == q,
    decreases v.len() - i,
{
    if i < v.len() && !(v[i] == q && quote_tail_ok(v.skip(i + 1))) {
        lemma_closing_quote_bounds(v, q, i + 1);
    }
}

/// Appends the lines from index `j` on to `value`, each after a `\n`, up to
/// the first line that closes the quote `q`; of that line only the part up
/// to and including the closing quote is taken. Returns the value and the
/// index of the first line not taken.
pub open spec fn gather_quoted(value: Seq<char>, q: char, lines: Seq<Seq<char>>, j: int) -> (Seq<char>, int)
    decreases lines.len() - j,
{
    if j < 0 || j >= lines.len() {
        (value, j)
    } else {
        match closing_quote(lines[j], q, 0) {
            Some(c) => (value + seq!['\n'] + lines[j].take(c + 1), j + 1),
            None => gather_quoted(value + seq!['\n'] + lines[j], q, lines, j + 1),
        }
    }
}

/// A value that opens the quote `q` ends at its closing quote when only
/// whitespace or a ` #` comment follows it on the line, and that rest is
/// dropped. A value that opens the quote without closing it continues on the
/// following lines. Any other value (a lone quote among them) stands as it
/// is.
pub open spec fn continue_quoted(value: Seq<char>, q: char, lines: Seq<Seq<char>>, j: int) -> (Seq<char>, int) {
    if starts_with_char(value, q) {
        match closing_quote(value, q, 1) {
            Some(c) => (value.take(c + 1), j),
            None => if !ends_with_char(value, q) {
                gather_quoted(value, q, lines, j)
            } else {
                (value, j)
            },
        }
    } else {
        (value, j)
    }
}

/// An unquoted value ends before the first ` #`.
pub open spec fn strip_inline_comment(value: Seq<char>) -> Seq<char> {
    if starts_with_char(value, '"') || starts_with_char(value, '\'') {
        value
    } else {
        match find_pair(value, ' ', '#') {
            Some(k) => value.take(k),
            None => value,
        }
    }
}

/// `s` without one pair of surrounding double or single quotes.
pub open spec fn spec_strip_quotes(s: Seq<char>) -> Seq<char> {
    if s.len() >= 2 && ((s[0] == '"' && s.last() == '"') || (s[0] == '\'' && s.last() == '\'')) {
        s.subrange(1, s.len() - 1)
    } else {
        s
    }
}

/// The assignment that starts at line `i`, with its final value, and the
/// index of the line after it.
pub open spec fn entry_at(lines: Seq<Seq<char>>, i: int) -> (Option<(Seq<char>, Seq<char>)>, int) {
    match line_assignment(lines[i]) {
        None => (None, i + 1),
        Some((key, raw)) => {
            let (v1, j1) = continue_quoted(raw, '"', lines, i + 1);
            let (v2, j2) = continue_quoted(v1, '\'', lines, j1);
            (Some((key, spec_strip_quotes(trim(strip_inline_comment(v2))))), j2)
        },
    }
}

/// Gathering never goes back and never goes past the last line.
pub proof fn lemma_gather_bounds(value: Seq<char>, q: char, lines: Seq<Seq<char>>, j: int)
    requires
        0 <= j <= lines.len(),
    ensures
        j <= gather_quoted(value, q, lines, j).1 <= lines.len(),
    decreases lines.len() - j,
{
    if j < lines.len() {
        let extended = value + seq!['\n'] + lines[j];
        if closing_quote(lines[j], q, 0) is None {
            lemma_gather_bounds(extended, q, lines, j + 1);
        }
    }
}

/// The entry at line `i` takes at least that line and no line past the end.
pub proof fn lemma_entry_at_advances(lines: Seq<Seq<char>>, i: int)
    requires
        0 <= i < lines.len(),
    ensures
        i < entry_at(lines, i).1 <= lines.len(),
{
    match line_assignment(lines[i]) {
        None => {},
        Some((key, raw)) => {
            let (v1, j1) = continue_quoted(raw, '"', lines, i + 1);
            lemma_gather_bounds(raw, '"', lines, i + 1);
            lemma_gather_bounds(v1, '\'', lines, j1);
        },
    }
}

/// Applies the assignments from line `i` on to `acc`, in order, so that a
/// later assignment of a key overwrites an earlier one.
pub open spec fn parse_lines(lines: Seq<Seq<char>>, i: int, acc: Map<Seq<char>, Seq<char>>) -> Map<Seq<char>, Seq<char>>
    decreases lines.len() - i,
{
    if i < 0 || i >= lines.len() {
        acc
    } else {
        proof {
            lemma_entry_at_advances(lines, i);
        }
        let (entry, next) = entry_at(lines, i);
        let acc2 = match entry {
            Some((k, v)) => acc.insert(k, v),
            None => acc,
        };
        parse_lines(lines, next, acc2)
    }
}

/// The lines of `.env` text, after the byte order mark is dropped and line
/// endings are made `\n`.
pub open spec fn env_lines(content: Seq<char>) -> Seq<Seq<char>> {
    split_lines(normalize_newlines(strip_bom(content)))
}

/// The map that `.env` text describes.
pub open spec fn spec_parse_env(content: Seq<char>) -> Map<Seq<char>, Seq<char>> {
    parse_lines(env_lines(content), 0, Map::empty())
}


/// The characters of each line.
pub open spec fn lines_view(lines: Seq<Vec<char>>) -> Seq<Seq<char>> {
    lines.map_values(|l: Vec<char>| l@)
}

/// Strips one pair of surrounding double or single quotes.
pub fn strip_quotes(value: &str) -> (res: &str)
    ensures
        res@ == spec_strip_quotes(value@),
{
    let n = value.unicode_len();
    if n >= 2 {
        let first = value.get_char(0);
        let last = value.get_char(n - 1);
        if (first == '"' && last == '"') || (first == '\'' && last == '\'') {
            return value.substring_char(1, n - 1);
        }
    }
    value
}

/// [`normalize_newlines`] of `v@`.
fn normalize_newlines_vec(v: &Vec<char>) -> (res: Vec<char>)
    ensures
        res@ == normalize_newlines(v@),
{
    let n = v.len();
    let mut out: Vec<char> = Vec::new();
    let mut i: usize = 0;
    proof {
        assert(v@.skip(0) =~= v@);
    }
    while i < n
        invariant
            i <= n == v.len(),
            normalize_newlines(v@) == out@ + normalize_newlines(v@.skip(i as int)),
        decreases n - i,
    {
        let ghost rest = v@.skip(i as int);
        let ghost before = out@;
        if v[i] == '\r' && i + 1 < n && v[i + 1] == '\n' {
            out.push('\n');
            proof {
                assert(rest.skip(2) =~= v@.skip(i + 2));
                assert(out@ =~= before + seq!['\n']);
            }
            i = i + 2;
        } else if v[i] == '\r' {
            out.push('\n');
            proof {
                assert(rest.drop_first() =~= v@.skip(i + 1));
                assert(out@ =~= before + seq!['\n']);
            }
            i = i + 1;
        } else {
            out.push(v[i]);
            proof {
                assert(rest.drop_first() =~= v@.skip(i + 1));
                assert(out@ =~= before + seq![v@[i as int]]);
            }
            i = i + 1;
        }
    }
    proof {
        assert(v@.skip(n as int) =~= Seq::<char>::empty());
        assert(out@ + Seq::<char>::empty() =~= out@);
    }
    out
}

/// A line without `\n` followed by `\n` splits off as one line.
pub proof fn lemma_split_after_line(cur: Seq<char>, rest: Seq<char>)
    requires
        forall|j: int| 0 <= j < cur.len() ==> cur[j] != '\n',
    ensures
        split_lines(cur + seq!['\n'] + rest) == seq![cur] + split_lines(rest),
{
    let s = cur + seq!['\n'] + rest;
    lemma_find_char(s, '\n');
    assert(s[cur.len() as int] == '\n');
    match find_char(s, '\n') {
        Some(i) => {
            assert(i == cur.len());
            assert(s.take(i) =~= cur);
            assert(s.skip(i + 1) =~= rest);
        },
        None => {},
    }
}

/// A last line without `\n`.
proof fn lemma_split_last_line(cur: Seq<char>)
    requires
        forall|j: int| 0 <= j < cur.len() ==> cur[j] != '\n',
    ensures
        split_lines(cur) == (if cur.len() == 0 { Seq::<Seq<char>>::empty() } else { seq![cur] }),
{
    lemma_find_char(cur, '\n');
}

/// [`split_lines`] of `v@`.
fn split_lines_vec(v: &Vec<char>) -> (res: Vec<Vec<char>>)
    ensures
        lines_view(res@) == split_lines(v@),
{
    let n = v.len();
    let mut out: Vec<Vec<char>> = Vec::new();
    let mut cur: Vec<char> = Vec::new();
    let mut i: usize = 0;
    proof {
        assert(cur@ + v@.skip(0) =~= v@);
        assert(lines_view(out@) =~= Seq::<Seq<char>>::empty());
    }
    while i < n
        invariant
            i <= n == v.len(),
            forall|j: int| 0 <= j < cur@.len() ==> cur@[j] != '\n',
            split_lines(v@) == lines_view(out@) + split_lines(cur@ + v@.skip(i as int)),
        decreases n - i,
    {
        if v[i] == '\n' {
            proof {
                assert(cur@ + v@.skip(i as int) =~= cur@ + seq!['\n'] + v@.skip(i + 1));
                lemma_split_after_line(cur@, v@.skip(i + 1));
            }
            let ghost before = out@;
            let mut line: Vec<char> = Vec::new();
            std::mem::swap(&mut line, &mut cur);
            out.push(line);
            proof {
                assert(lines_view(out@) =~= lines_view(before) + seq![out@.last()@]);
                assert(cur@ + v@.skip(i + 1) =~= v@.skip(i + 1));
            }
        } else {
            let ghost old_cur = cur@;
            cur.push(v[i]);
            proof {
                assert(cur@ + v@.skip(i + 1) =~= old_cur + v@.skip(i as int));
            }
        }
        i = i + 1;
    }
    proof {
        assert(cur@ + v@.skip(n as int) =~= cur@);
        lemma_split_last_line(cur@);
    }
    if cur.len() > 0 {
        let ghost before = out@;
        out.push(cur);
        proof {
            assert(lines_view(out@) =~= lines_view(before) + seq![out@.last()@]);
        }
    } else {
        proof {
            assert(lines_view(out@) + Seq::<Seq<char>>::empty() =~= lines_view(out@));
        }
    }
    out
}


/// Whether `v` starts with `export `.
fn has_export_prefix(v: &Vec<char>) -> (res: bool)
    ensures
        res == (v@.len() >= 7 && v@.take(7) == export_prefix()),
{
    let res = v.len() >= 7 && v[0] == 'e' && v[1] == 'x' && v[2] == 'p' && v[3] == 'o' && v[4] == 'r'
        && v[5] == 't' && v[6] == ' ';
    proof {
        if v@.len() >= 7 && v@.take(7) == export_prefix() {
            assert(v@.take(7)[0] == 'e');
            assert(v@.take(7)[1] == 'x');
            assert(v@.take(7)[2] == 'p');
            assert(v@.take(7)[3] == 'o');
            assert(v@.take(7)[4] == 'r');
            assert(v@.take(7)[5] == 't');
            assert(v@.take(7)[6] == ' ');
        }
        if res {
            assert(v@.take(7) =~= export_prefix());
        }
    }
    res
}

/// [`line_assignment`] of `line@`.
fn line_assignment_vec(line: &Vec<char>) -> (res: Option<(Vec<char>, Vec<char>)>)
    ensures
        match res {
            Some((k, v)) => line_assignment(line@) == Some((k@, v@)),
            None => line_assignment(line@) is None,
        },
{
    let trimmed = trim_vec(line);
    if trimmed.len() == 0 || trimmed[0] == '#' {
        return None;
    }
    let body = if has_export_prefix(&trimmed) {
        let rest = copy_range(&trimmed, 7, trimmed.len());
        proof {
            assert(rest@ =~= trimmed@.skip(7));
        }
        trim_start_vec(&rest)
    } else {
        trimmed
    };
    match find_char_vec(&body, '=') {
        None => None,
        Some(eq) => {
            proof {
                lemma_find_char(body@, '=');
                assert(eq < body@.len());
            }
            let head = copy_range(&body, 0, eq);
            let key = trim_vec(&head);
            if key.len() == 0 {
                proof {
                    assert(head@ =~= body@.take(eq as int));
                }
                return None;
            }
            let raw = copy_range(&body, eq + 1, body.len());
            proof {
                assert(head@ =~= body@.take(eq as int));
                assert(raw@ =~= body@.skip(eq + 1));
            }
            Some((key, raw))
        },
    }
}

/// [`quote_tail_ok`] of `v[start..]`.
fn quote_tail_ok_vec(v: &Vec<char>, start: usize) -> (res: bool)
    requires
        start <= v.len(),
    ensures
        res == quote_tail_ok(v@.skip(start as int)),
{
    let rest = copy_range(v, start, v.len());
    proof {
        assert(rest@ =~= v@.skip(start as int));
    }
    let t = trim_start_vec(&rest);
    t.len() == 0 || (rest.len() > 0 && is_whitespace_char(rest[0]) && t[0] == '#')
}

/// [`closing_quote`] of `v@` with the quote `q`, from `from` on.
fn closing_quote_vec(v: &Vec<char>, q: char, from: usize) -> (res: Option<usize>)
    ensures
        match res {
            Some(c) => closing_quote(v@, q, from as int) == Some(c as int) && c < v.len(),
            None => closing_quote(v@, q, from as int) is None,
        },
{
    let n = v.len();
    let mut i = from;
    if i > n {
        return None;
    }
    while i < n
        invariant
            from <= i <= n == v.len(),
            closing_quote(v@, q, from as int) == closing_quote(v@, q, i as int),
        decreases n - i,
    {
        if v[i] == q && quote_tail_ok_vec(v, i + 1) {
            return Some(i);
        }
        i = i + 1;
    }
    None
}

/// Appends `'\n'` and then `line[..end]` to `v`.
fn push_line_part(v: &mut Vec<char>, line: &Vec<char>, end: usize)
    requires
        end <= line.len(),
    ensures
        final(v)@ == old(v)@ + seq!['\n'] + line@.take(end as int),
{
    let ghost before = v@;
    v.push('\n');
    let mut t: usize = 0;
    while t < end
        invariant
            t <= end <= line.len(),
            v@ == before + seq!['\n'] + line@.take(t as int),
        decreases end - t,
    {
        v.push(line[t]);
        proof {
            assert(line@.take(t + 1) =~= line@.take(t as int).push(line@[t as int]));
            assert(v@ =~= before + seq!['\n'] + line@.take(t + 1));
        }
        t = t + 1;
    }
}

/// [`continue_quoted`] of `value@` with the quote `q`, from line `j` on.
fn continue_quoted_vec(value: Vec<char>, q: char, lines: &Vec<Vec<char>>, j: usize) -> (res: (Vec<char>, usize))
    requires
        j <= lines.len(),
    ensures
        (res.0@, res.1 as int) == continue_quoted(value@, q, lines_view(lines@), j as int),
{
    let ghost view = lines_view(lines@);
    let n = value.len();
    if !(n > 0 && value[0] == q) {
        return (value, j);
    }
    match closing_quote_vec(&value, q, 1) {
        Some(c) => {
            let closed = copy_range(&value, 0, c + 1);
            proof {
                assert(closed@ =~= value@.take(c + 1));
            }
            return (closed, j);
        },
        None => {
            if value[n - 1] == q {
                return (value, j);
            }
        },
    }
    let ghost start = value@;
    let mut v = value;
    let mut k = j;
    let mut done = false;
    while !done && k < lines.len()
        invariant
            k <= lines.len(),
            view == lines_view(lines@),
            !done ==> gather_quoted(start, q, view, j as int) == gather_quoted(v@, q, view, k as int),
            done ==> gather_quoted(start, q, view, j as int) == (v@, k as int),
        decreases lines.len() - k, (if done { 0int } else { 1int }),
    {
        let line = &lines[k];
        proof {
            assert(view[k as int] == line@);
        }
        match closing_quote_vec(line, q, 0) {
            Some(c) => {
                push_line_part(&mut v, line, c + 1);
                done = true;
            },
            None => {
                push_line_part(&mut v, line, line.len());
                proof {
                    assert(line@.take(line.len() as int) =~= line@);
                }
            },
        }
        k = k + 1;
    }
    (v, k)
}

/// [`strip_inline_comment`] of `v@`.
fn strip_inline_comment_vec(v: Vec<char>) -> (res: Vec<char>)
    ensures
        res@ == strip_inline_comment(v@),
{
    if v.len() > 0 && (v[0] == '"' || v[0] == '\'') {
        return v;
    }
    match find_pair_vec(&v, ' ', '#') {
        Some(k) => {
            proof {
                crate::text::lemma_find_pair(v@, ' ', '#');
            }
            let r = copy_range(&v, 0, k);
            proof {
                assert(r@ =~= v@.take(k as int));
            }
            r
        },
        None => v,
    }
}

/// The assignment that starts at line `i` and the index of the line after it.
fn entry_at_vec(lines: &Vec<Vec<char>>, i: usize) -> (res: (Option<(String, String)>, usize))
    requires
        i < lines.len(),
    ensures
        res.1 == entry_at(lines_view(lines@), i as int).1,
        match res.0 {
            Some((k, v)) => entry_at(lines_view(lines@), i as int).0 == Some((k@, v@)),
            None => entry_at(lines_view(lines@), i as int).0 is None,
        },
{
    let ghost view = lines_view(lines@);
    proof {
        assert(view[i as int] == lines@[i as int]@);
    }
    match line_assignment_vec(&lines[i]) {
        None => (None, i + 1),
        Some((key, raw)) => {
            let (v1, j1) = continue_quoted_vec(raw, '"', lines, i + 1);
            proof {
                lemma_gather_bounds(raw@, '"', view, i + 1);
            }
            let (v2, j2) = continue_quoted_vec(v1, '\'', lines, j1);
            let v3 = strip_inline_comment_vec(v2);
            let v4 = trim_vec(&v3);
            let value_string = string_of(&v4);
            let value = strip_quotes(value_string.as_str()).to_owned();
            (Some((string_of(&key), value)), j2)
        },
    }
}

/// Parses `.env` text into a map. A key assigned more than once keeps the
/// last value.
pub fn parse_env(content: &str) -> (res: EnvMap)
    ensures
        res@ == spec_parse_env(content@),
{
    let chars = chars_of(content);
    let body = if chars.len() > 0 && chars[0] == '\u{feff}' {
        copy_range(&chars, 1, chars.len())
    } else {
        chars
    };
    proof {
        assert(body@ =~= strip_bom(content@));
    }
    let normalized = normalize_newlines_vec(&body);
    let lines = split_lines_vec(&normalized);
    let ghost view = lines_view(lines@);
    let mut map = EnvMap::new();
    let mut i: usize = 0;
    while i < lines.len()
        invariant
            i <= lines.len(),
            view == lines_view(lines@),
            view == env_lines(content@),
            spec_parse_env(content@) == parse_lines(view, i as int, map@),
        decreases lines.len() - i,
    {
        proof {
            lemma_entry_at_advances(view, i as int);
        }
        let (entry, next) = entry_at_vec(&lines, i);
        match entry {
            Some((k, v)) => {
                map.insert(k, v);
            },
            None => {},
        }
        i = next;
    }
    map
}

} // verus!
