//! General properties of the parser, stated and proved once for all inputs.

use vstd::prelude::*;

use crate::parse::find_sep;
use crate::parse::lemma_find_sep_from_first;
use crate::parse::lemma_find_sep_from_no_sep;
use crate::parse::lemma_find_sep_none;
use crate::parse::lemma_find_sep_some;
use crate::parse::lemma_lines_no_newline;
use crate::parse::lemma_sep_at_skip;
use crate::parse::line_entry;
use crate::parse::line_insert;
use crate::parse::parse_env;
use crate::parse::parse_lines;
use crate::parse::sep;
use crate::parse::sep_at;
use crate::parse::spec_lines;

verus! {

/// Text with no newline in it is one single line, and parsing it yields
/// exactly that line's contribution.
pub proof fn lemma_parse_single_line(line: Seq<char>)
    requires
        line.len() > 0,
        forall|i: int| 0 <= i < line.len() ==> line[i] != '\n',
    ensures
        parse_env(line) == line_insert(Map::<Seq<char>, Seq<char>>::empty(), line),
{
    lemma_lines_no_newline(line);
    assert(seq![line].drop_last() =~= Seq::<Seq<char>>::empty());
    assert(parse_lines(Seq::<Seq<char>>::empty()) == Map::<Seq<char>, Seq<char>>::empty());
    assert(parse_lines(seq![line]) == line_insert(Map::<Seq<char>, Seq<char>>::empty(), line));
}

/// Round trip for a well-formed line: the text built from a key, the
/// separator and a value — with no newline anywhere, no separator
/// occurrence inside the key or the value, and a key that does not end in
/// a space and an equals sign — parses to the mapping that binds exactly
/// that key to that value.
pub proof fn lemma_round_trip(k: Seq<char>, v: Seq<char>)
    requires
        forall|i: int| 0 <= i < k.len() ==> k[i] != '\n',
        forall|i: int| 0 <= i < v.len() ==> v[i] != '\n',
        forall|i: int| !sep_at(k, i),
        forall|i: int| !sep_at(v, i),
        !(k.len() >= 2 && k[k.len() - 2] == ' ' && k[k.len() - 1] == '='),
    ensures
        parse_env(k + sep() + v) == Map::<Seq<char>, Seq<char>>::empty().insert(k, v),
{
    let line = k + sep() + v;
    assert(line.len() == k.len() + 3 + v.len());
    assert forall|i: int| 0 <= i < line.len() implies line[i] != '\n' by {
        if i < k.len() {
            assert(line[i] == k[i]);
        } else if i < k.len() + 3 {
            assert(line[i] == sep()[i - k.len()]);
        } else {
            assert(line[i] == v[i - k.len() - 3]);
        }
    }
    lemma_parse_single_line(line);
    assert(line[k.len() as int] == ' ');
    assert(line[k.len() as int + 1] == '=');
    assert(line[k.len() as int + 2] == ' ');
    assert(sep_at(line, k.len() as int));
    assert forall|j: int| j < k.len() implies !sep_at(line, j) by {
        if 0 <= j {
            if j + 3 <= k.len() {
                assert(line[j] == k[j]);
                assert(line[j + 1] == k[j + 1]);
                assert(line[j + 2] == k[j + 2]);
                assert(!sep_at(k, j));
            } else if j == k.len() - 2 {
                assert(line[j] == k[j]);
                assert(line[j + 1] == k[j + 1]);
            } else {
                assert(j == k.len() - 1);
                assert(line[j + 1] == sep()[0]);
            }
        }
    }
    lemma_find_sep_from_first(line, k.len() as int);
    assert(line.skip(k.len() as int + 3) =~= v);
    lemma_find_sep_from_no_sep(v);
    assert(line.take(k.len() as int) =~= k);
    assert(line_entry(line) == Some((k, v)));
}

/// A line in which the separator never occurs has no entry.
pub proof fn lemma_no_sep_no_entry(line: Seq<char>)
    requires
        forall|i: int| !sep_at(line, i),
    ensures
        line_entry(line) is None,
{
    lemma_find_sep_from_no_sep(line);
}

/// A line with two separator occurrences that do not overlap has no entry.
pub proof fn lemma_two_seps_no_entry(line: Seq<char>, i: int, j: int)
    requires
        sep_at(line, i),
        sep_at(line, j),
        i + 3 <= j,
    ensures
        line_entry(line) is None,
{
    match find_sep(line) {
        None => {
            lemma_find_sep_none(line);
            assert(false);
        },
        Some(f) => {
            lemma_find_sep_some(line, f);
            assert(f <= i);
            lemma_sep_at_skip(line, f + 3, j - (f + 3));
            assert(sep_at(line.skip(f + 3), j - (f + 3)));
            if find_sep(line.skip(f + 3)) is None {
                lemma_find_sep_none(line.skip(f + 3));
                assert(false);
            }
        },
    }
}

/// Malformed lines are inert: text consisting of one line that does not
/// split on the separator into exactly two parts parses to the empty
/// mapping — and to no error, since parsing is total.
pub proof fn lemma_malformed_inert(line: Seq<char>)
    requires
        forall|i: int| 0 <= i < line.len() ==> line[i] != '\n',
        line_entry(line) is None,
    ensures
        parse_env(line) == Map::<Seq<char>, Seq<char>>::empty(),
{
    if line.len() == 0 {
        assert(spec_lines(line).len() == 0);
    } else {
        lemma_parse_single_line(line);
    }
}

/// A line with no entry can stand anywhere among other lines without
/// affecting what they denote: dropping it changes nothing.
pub proof fn lemma_inert_line_removed(
    before: Seq<Seq<char>>,
    line: Seq<char>,
    after: Seq<Seq<char>>,
)
    requires
        line_entry(line) is None,
    ensures
        parse_lines(before + seq![line] + after) == parse_lines(before + after),
    decreases after.len(),
{
    if after.len() == 0 {
        assert((before + seq![line] + after) =~= before.push(line));
        assert(before.push(line).drop_last() =~= before);
        assert(before.push(line).last() == line);
        assert(before + after =~= before);
    } else {
        let l = after.last();
        assert((before + seq![line] + after).drop_last() =~= before + seq![line]
            + after.drop_last());
        assert((before + seq![line] + after).last() == l);
        assert((before + after).drop_last() =~= before + after.drop_last());
        assert((before + after).last() == l);
        lemma_inert_line_removed(before, line, after.drop_last());
    }
}

/// Empty text parses to the empty mapping.
pub proof fn lemma_parse_empty()
    ensures
        parse_env(Seq::<char>::empty()) == Map::<Seq<char>, Seq<char>>::empty(),
{
    assert(spec_lines(Seq::<char>::empty()).len() == 0);
}

} // verus!
