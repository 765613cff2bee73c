//! The parsing rules: what counts as a line, what counts as an entry, and
//! the mapping that a configuration text denotes.

use vstd::prelude::*;
use vstd::string::StrSliceExecFns;
use vstd::string::StringExecFns;

use crate::env_map::EnvMap;

verus! {

/// The separator that splits a line into key and value: one space, an
/// equals sign, one space.
pub open spec fn sep() -> Seq<char> {
    seq![' ', '=', ' ']
}

/// The separator occurs in `s` at index `i`.
pub open spec fn sep_at(s: Seq<char>, i: int) -> bool {
    &&& 0 <= i
    &&& i + 3 <= s.len()
    &&& s[i] == ' '
    &&& s[i + 1] == '='
    &&& s[i + 2] == ' '
}

/// The index of the leftmost separator occurrence in `s`, if any.
pub open spec fn find_sep(s: Seq<char>) -> Option<int>
    decreases s.len(),
{
    if s.len() < 3 {
        None
    } else if s[0] == ' ' && s[1] == '=' && s[2] == ' ' {
        Some(0int)
    } else {
        match find_sep(s.skip(1)) {
            None => None,
            Some(i) => Some(i + 1),
        }
    }
}

/// The separator occurs in `s.skip(n)` at `i` exactly when it occurs in `s`
/// at `n + i`.
pub proof fn lemma_sep_at_skip(s: Seq<char>, n: int, i: int)
    requires
        0 <= n <= s.len(),
    ensures
        sep_at(s.skip(n), i) <==> (0 <= i && sep_at(s, n + i)),
{
    if 0 <= i && i + 3 <= s.len() - n {
        assert(s.skip(n)[i] == s[n + i]);
        assert(s.skip(n)[i + 1] == s[n + i + 1]);
        assert(s.skip(n)[i + 2] == s[n + i + 2]);
    }
}

/// What a found index means: it is a separator occurrence, and the leftmost
/// one.
pub proof fn lemma_find_sep_some(s: Seq<char>, i: int)
    requires
        find_sep(s) == Some(i),
    ensures
        sep_at(s, i),
        forall|j: int| j < i ==> !sep_at(s, j),
    decreases s.len(),
{
    if s.len() < 3 {
    } else if s[0] == ' ' && s[1] == '=' && s[2] == ' ' {
    } else {
        match find_sep(s.skip(1)) {
            None => {},
            Some(i1) => {
                lemma_find_sep_some(s.skip(1), i1);
                lemma_sep_at_skip(s, 1, i1);
                assert forall|j: int| j < i implies !sep_at(s, j) by {
                    if 1 <= j {
                        lemma_sep_at_skip(s, 1, j - 1);
                        assert(!sep_at(s.skip(1), j - 1));
                    }
                }
            },
        }
    }
}

/// When nothing was found, no separator occurs anywhere in `s`.
pub proof fn lemma_find_sep_none(s: Seq<char>)
    requires
        find_sep(s) is None,
    ensures
        forall|j: int| !sep_at(s, j),
    decreases s.len(),
{
    if s.len() < 3 {
    } else if s[0] == ' ' && s[1] == '=' && s[2] == ' ' {
    } else {
        lemma_find_sep_none(s.skip(1));
        assert forall|j: int| !sep_at(s, j) by {
            if 1 <= j {
                lemma_sep_at_skip(s, 1, j - 1);
                assert(!sep_at(s.skip(1), j - 1));
            }
        }
    }
}

/// The converse: a leftmost occurrence is what `find_sep` returns.
pub proof fn lemma_find_sep_from_first(s: Seq<char>, i: int)
    requires
        sep_at(s, i),
        forall|j: int| j < i ==> !sep_at(s, j),
    ensures
        find_sep(s) == Some(i),
    decreases s.len(),
{
    if s[0] == ' ' && s[1] == '=' && s[2] == ' ' && s.len() >= 3 {
        assert(sep_at(s, 0));
        assert(i == 0);
    } else {
        lemma_sep_at_skip(s, 1, i - 1);
        assert(sep_at(s.skip(1), i - 1));
        assert forall|j: int| j < i - 1 implies !sep_at(s.skip(1), j) by {
            lemma_sep_at_skip(s, 1, j);
        }
        lemma_find_sep_from_first(s.skip(1), i - 1);
    }
}

/// The converse: where no separator occurs, `find_sep` finds none.
pub proof fn lemma_find_sep_from_no_sep(s: Seq<char>)
    requires
        forall|j: int| !sep_at(s, j),
    ensures
        find_sep(s) is None,
    decreases s.len(),
{
    if s.len() < 3 {
    } else if s[0] == ' ' && s[1] == '=' && s[2] == ' ' {
        assert(sep_at(s, 0));
    } else {
        assert forall|j: int| !sep_at(s.skip(1), j) by {
            lemma_sep_at_skip(s, 1, j);
        }
        lemma_find_sep_from_no_sep(s.skip(1));
    }
}

/// The key/value pair of a line, if the line splits on the separator into
/// exactly two parts: everything before the leftmost separator occurrence is
/// the key, everything after it the value, and no further occurrence may
/// follow. Otherwise the line denotes no entry.
pub open spec fn line_entry(line: Seq<char>) -> Option<(Seq<char>, Seq<char>)> {
    match find_sep(line) {
        None => None,
        Some(i) => {
            if find_sep(line.skip(i + 3)) is None {
                Some((line.take(i), line.skip(i + 3)))
            } else {
                None
            }
        },
    }
}

/// One trailing carriage return removed: the form a line takes when its
/// newline terminator was preceded by `'\r'`.
pub open spec fn strip_cr(line: Seq<char>) -> Seq<char> {
    if line.len() > 0 && line.last() == '\r' {
        line.drop_last()
    } else {
        line
    }
}

/// The lines of `text`: pieces terminated by `'\n'` or by `"\r\n"` (the
/// terminator itself excluded), plus a final unterminated piece if the text
/// does not end in a terminator. Empty text has no lines, and a carriage
/// return not followed by a newline is an ordinary character.
pub open spec fn spec_lines(text: Seq<char>) -> Seq<Seq<char>>
    decreases text.len(),
{
    if text.len() == 0 {
        Seq::empty()
    } else if text[0] == '\n' {
        seq![Seq::<char>::empty()] + spec_lines(text.skip(1))
    } else if text.len() >= 2 && text[0] == '\r' && text[1] == '\n' {
        seq![Seq::<char>::empty()] + spec_lines(text.skip(2))
    } else {
        let rest = spec_lines(text.skip(1));
        if rest.len() == 0 {
            seq![seq![text[0]]]
        } else {
            seq![seq![text[0]] + rest[0]] + rest.skip(1)
        }
    }
}

/// Text without a newline is a single line, kept whole: a trailing carriage
/// return is not stripped where no newline follows it.
pub proof fn lemma_lines_no_newline(text: Seq<char>)
    requires
        text.len() > 0,
        forall|i: int| 0 <= i < text.len() ==> text[i] != '\n',
    ensures
        spec_lines(text) =~= seq![text],
    decreases text.len(),
{
    assert(text[0] != '\n');
    if text.len() >= 2 && text[0] == '\r' && text[1] == '\n' {
        assert(false);
    }
    let tail = text.skip(1);
    if tail.len() == 0 {
        assert(spec_lines(tail).len() == 0);
        assert(spec_lines(text) == seq![seq![text[0]]]);
        assert(seq![text[0]] =~= text);
    } else {
        assert(spec_lines(text) == seq![seq![text[0]] + spec_lines(tail)[0]] + spec_lines(tail).skip(1));
        assert forall|i: int| 0 <= i < tail.len() implies tail[i] != '\n' by {
            assert(tail[i] == text[i + 1]);
        }
        lemma_lines_no_newline(tail);
        let rest = spec_lines(tail);
        assert(rest[0] == tail);
        assert(rest.skip(1) =~= Seq::<Seq<char>>::empty());
        assert(seq![seq![text[0]] + tail] + rest.skip(1) =~= seq![seq![text[0]] + tail]);
        assert(seq![text[0]] + tail =~= text);
    }
}

/// Splitting at the first newline: the piece before it, with one trailing
/// carriage return stripped, is the first line, and the lines of the rest
/// follow.
pub proof fn lemma_lines_split_first(text: Seq<char>, i: int)
    requires
        0 <= i < text.len(),
        text[i] == '\n',
        forall|j: int| 0 <= j < i ==> text[j] != '\n',
    ensures
        spec_lines(text) =~= seq![strip_cr(text.take(i))] + spec_lines(text.skip(i + 1)),
    decreases i,
{
    if i == 0 {
        assert(strip_cr(text.take(0)) =~= Seq::<char>::empty());
    } else if i == 1 && text[0] == '\r' {
        assert(strip_cr(text.take(1)) =~= Seq::<char>::empty());
        assert(text.skip(2) =~= text.skip(i + 1));
    } else {
        assert(text[0] != '\n');
        if text.len() >= 2 && text[0] == '\r' && text[1] == '\n' {
            assert(i == 1 && text[0] == '\r');
            assert(false);
        }
        let tail = text.skip(1);
        assert(tail[i - 1] == text[i]);
        assert forall|j: int| 0 <= j < i - 1 implies tail[j] != '\n' by {
            assert(tail[j] == text[j + 1]);
        }
        lemma_lines_split_first(tail, i - 1);
        let rest = spec_lines(tail);
        assert(rest == seq![strip_cr(tail.take(i - 1))] + spec_lines(tail.skip(i)));
        assert(rest.len() > 0);
        assert(rest[0] == strip_cr(tail.take(i - 1)));
        assert(rest.skip(1) =~= spec_lines(tail.skip(i)));
        assert(tail.skip(i) =~= text.skip(i + 1));
        // Prepending the first character commutes with stripping the final
        // carriage return, because the first character is not the last one.
        let u = tail.take(i - 1);
        assert(text.take(i) =~= seq![text[0]] + u);
        if u.len() > 0 && u.last() == '\r' {
            assert(text.take(i).last() == u.last());
            assert(seq![text[0]] + u.drop_last() =~= (seq![text[0]] + u).drop_last());
            assert(seq![text[0]] + strip_cr(u) =~= strip_cr(text.take(i)));
        } else {
            if i == 1 {
                assert(text.take(1).len() == 1);
                assert(text.take(1)[0] == text[0]);
                assert(text[0] != '\r' || text[1] != '\n');
                assert(text[1] == '\n');
                assert(text[0] != '\r');
                assert(strip_cr(text.take(i)) =~= seq![text[0]] + u);
            } else {
                assert(text.take(i).last() == u.last());
                assert(strip_cr(text.take(i)) =~= seq![text[0]] + u);
            }
        }
        assert(spec_lines(text) == seq![seq![text[0]] + rest[0]] + rest.skip(1));
    }
}

/// The mapping contributed by one line: a well-formed line binds its key to
/// its value, any other line contributes nothing.
pub open spec fn line_insert(
    m: Map<Seq<char>, Seq<char>>,
    line: Seq<char>,
) -> Map<Seq<char>, Seq<char>> {
    match line_entry(line) {
        None => m,
        Some(kv) => m.insert(kv.0, kv.1),
    }
}

/// The mapping denoted by a sequence of lines, folded in order: a later
/// line overwrites an earlier one with the same key.
pub open spec fn parse_lines(lines: Seq<Seq<char>>) -> Map<Seq<char>, Seq<char>>
    decreases lines.len(),
{
    if lines.len() == 0 {
        Map::empty()
    } else {
        line_insert(parse_lines(lines.drop_last()), lines.last())
    }
}

/// Folding one more line applies its contribution to the fold so far.
pub proof fn lemma_parse_lines_push(lines: Seq<Seq<char>>, line: Seq<char>)
    ensures
        parse_lines(lines.push(line)) == line_insert(parse_lines(lines), line),
{
    assert(lines.push(line).drop_last() =~= lines);
    assert(lines.push(line).last() == line);
}

/// The mapping denoted by a configuration text: its lines, folded in order.
pub open spec fn parse_env(text: Seq<char>) -> Map<Seq<char>, Seq<char>> {
    parse_lines(spec_lines(text))
}

/// The file the loader reads: the given path, or `./.env` when none is
/// given.
pub fn config_path(env_path: Option<String>) -> (p: String)
    ensures
        (match env_path {
            Some(s) => p@ == s@,
            None => p@ == "./.env"@,
        }),
{
    match env_path {
        None => String::from_str("./.env"),
        Some(s) => s,
    }
}

/// The leftmost separator occurrence in `line` at or after `from`, if any.
fn scan_sep_from(line: &str, from: usize) -> (r: Option<usize>)
    requires
        from <= line@.len(),
    ensures
        (match r {
            Some(i) => from <= i && sep_at(line@, i as int) && (forall|j: int|
                from <= j < i ==> !sep_at(line@, j)),
            None => forall|j: int| from <= j ==> !sep_at(line@, j),
        }),
{
    let n = line.unicode_len();
    let mut i: usize = from;
    while n - i >= 3
        invariant
            from <= i <= n,
            n == line@.len(),
            forall|j: int| from <= j < i ==> !sep_at(line@, j),
        decreases n - i,
    {
        if line.get_char(i) == ' ' && line.get_char(i + 1) == '=' && line.get_char(i + 2) == ' ' {
            return Some(i);
        }
        i = i + 1;
    }
    None
}

/// The key/value entry of one line, if the line splits on the separator
/// into exactly two parts; otherwise nothing.
pub fn parse_line(line: &str) -> (r: Option<(String, String)>)
    ensures
        (match r {
            Some(kv) => line_entry(line@) == Some((kv.0@, kv.1@)),
            None => line_entry(line@) is None,
        }),
{
    let n = line.unicode_len();
    match scan_sep_from(line, 0) {
        None => {
            proof {
                lemma_find_sep_from_no_sep(line@);
            }
            None
        },
        Some(i) => {
            match scan_sep_from(line, i + 3) {
                Some(second) => {
                    proof {
                        lemma_find_sep_from_first(line@, i as int);
                        lemma_sep_at_skip(line@, i as int + 3, second - (i as int + 3));
                        if find_sep(line@.skip(i as int + 3)) is None {
                            lemma_find_sep_none(line@.skip(i as int + 3));
                        }
                    }
                    None
                },
                None => {
                    proof {
                        lemma_find_sep_from_first(line@, i as int);
                        assert forall|j: int| !(#[trigger] sep_at(line@.skip(i as int + 3), j)) by {
                            lemma_sep_at_skip(line@, i as int + 3, j);
                        }
                        lemma_find_sep_from_no_sep(line@.skip(i as int + 3));
                    }
                    let key = line.substring_char(0, i);
                    let value = line.substring_char(i + 3, n);
                    proof {
                        assert(key@ =~= line@.take(i as int));
                        assert(value@ =~= line@.skip(i as int + 3));
                    }
                    Some((String::from_str(key), String::from_str(value)))
                },
            }
        },
    }
}

/// Fold one line into the mapping built so far.
fn apply_line(vars: &mut EnvMap, line: &str)
    ensures
        final(vars)@ == line_insert(old(vars)@, line@),
{
    match parse_line(line) {
        None => {},
        Some(kv) => {
            vars.insert(kv.0, kv.1);
        },
    }
}

/// Parse a whole configuration text. Every line that splits on `" = "`
/// into exactly two parts binds its key to its value, a later line
/// overwrites an earlier one with the same key, and every other line is
/// dropped silently: parsing never fails, whatever the text holds.
pub fn parse_env_file(env_file: String) -> (vars: EnvMap)
    ensures
        vars@ == parse_env(env_file@),
{
    let text: &str = env_file.as_str();
    let n = text.unicode_len();
    let mut vars = EnvMap::new();
    let ghost mut handled: Seq<Seq<char>> = Seq::empty();
    let mut start: usize = 0;
    let mut i: usize = 0;
    proof {
        assert(text@.skip(0) =~= text@);
        assert(handled + spec_lines(text@) =~= spec_lines(text@));
    }
    while i < n
        invariant
            start <= i <= n,
            n == text@.len(),
            text@ == env_file@,
            vars@ == parse_lines(handled),
            spec_lines(text@) == handled + spec_lines(text@.skip(start as int)),
            forall|j: int| start <= j < i ==> text@[j] != '\n',
        decreases n - i,
    {
        if text.get_char(i) == '\n' {
            let line_end = if i > start && text.get_char(i - 1) == '\r' {
                i - 1
            } else {
                i
            };
            let line = text.substring_char(start, line_end);
            proof {
                let suffix = text@.skip(start as int);
                assert(suffix[i - start as int] == text@[i as int]);
                assert forall|j: int| 0 <= j < i - start as int implies suffix[j] != '\n' by {
                    assert(suffix[j] == text@[j + start as int]);
                }
                lemma_lines_split_first(suffix, i - start as int);
                assert(suffix.take(i - start as int) =~= text@.subrange(
                    start as int,
                    i as int,
                ));
                assert(suffix.skip(i - start as int + 1) =~= text@.skip(i as int + 1));
                let piece = text@.subrange(start as int, i as int);
                if i > start && text@[i as int - 1] == '\r' {
                    assert(piece.last() == '\r');
                    assert(line@ =~= piece.drop_last());
                } else {
                    assert(line@ =~= strip_cr(piece));
                }
                assert(handled + spec_lines(suffix) =~= (handled + seq![line@]) + spec_lines(
                    text@.skip(i as int + 1),
                ));
                assert(handled + seq![line@] =~= handled.push(line@));
                lemma_parse_lines_push(handled, line@);
            }
            apply_line(&mut vars, line);
            proof {
                handled = handled.push(line@);
            }
            start = i + 1;
        }
        i = i + 1;
    }
    if start < n {
        let line = text.substring_char(start, n);
        proof {
            let suffix = text@.skip(start as int);
            assert forall|j: int| 0 <= j < suffix.len() implies suffix[j] != '\n' by {
                assert(suffix[j] == text@[j + start as int]);
            }
            lemma_lines_no_newline(suffix);
            assert(line@ =~= suffix);
            assert(handled + spec_lines(suffix) =~= handled.push(line@));
            lemma_parse_lines_push(handled, line@);
        }
        apply_line(&mut vars, line);
        proof {
            handled = handled.push(line@);
        }
    } else {
        proof {
            assert(spec_lines(text@.skip(start as int)).len() == 0);
            assert(handled + spec_lines(text@.skip(start as int)) =~= handled);
        }
    }
    vars
}

} // verus!
