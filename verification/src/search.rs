//! Searching the lines of one text source.
//!
//! Lines are numbered from 1 by their place in the source.  A line whose
//! bytes are no valid UTF-8 cannot match, but it keeps its number: the
//! lines after it are numbered as if it had been text.

use crate::lines::{lemma_deep_view_of_lines, lines_of, split_lines};
use crate::matcher::{match_line, search_line_impl, LineMatch};
use vstd::prelude::*;
use vstd::string::StringSliceAdditionalSpecFns;
use vstd::utf8::*;

verus! {

/// A matching line: its number in the source, from 1, and where the needle
/// stands in it.
#[derive(Debug, Clone, Copy, PartialEq, Eq)]
pub struct Match {
    pub line: usize,
    pub line_match: LineMatch,
}

/// The text of a raw line, where its bytes are valid UTF-8.
pub open spec fn decode_line(raw: Seq<u8>) -> Option<Seq<char>> {
    if valid_utf8(raw) {
        Some(decode_utf8(raw))
    } else {
        None
    }
}

/// Lines that are all text, as a source of lines.
pub open spec fn text_lines(lines: Seq<Seq<char>>) -> Seq<Option<Seq<char>>> {
    Seq::new(lines.len(), |i: int| Some(lines[i]))
}

/// Raw lines as a source of lines: each one decoded where it can be.
pub open spec fn raw_lines(lines: Seq<Seq<u8>>) -> Seq<Option<Seq<char>>> {
    Seq::new(lines.len(), |i: int| decode_line(lines[i]))
}

/// What the line of index `i` gives when matched against `needle`; nothing
/// where it is no text.
pub open spec fn match_in_line(lines: Seq<Option<Seq<char>>>, needle: Seq<char>, i: int) -> Option<
    LineMatch,
> {
    match lines[i] {
        Some(text) => match_line(text, needle),
        None => None,
    }
}

/// The records of a search: one for each line that matches, in the order of
/// the lines, numbered by the line's place among all lines.
pub open spec fn matches_in(lines: Seq<Option<Seq<char>>>, needle: Seq<char>) -> Seq<Match>
    decreases lines.len(),
{
    if lines.len() == 0 {
        Seq::empty()
    } else {
        let earlier = matches_in(lines.drop_last(), needle);
        match match_in_line(lines, needle, lines.len() - 1) {
            Some(line_match) => earlier.push(Match { line: lines.len() as usize, line_match }),
            None => earlier,
        }
    }
}

/// One more line at the end adds its record, if it matches, after the
/// records of the lines before it.
proof fn lemma_matches_in_next(lines: Seq<Option<Seq<char>>>, needle: Seq<char>, i: int)
    requires
        0 <= i < lines.len(),
    ensures
        matches_in(lines.take(i + 1), needle) == match match_in_line(lines, needle, i) {
            Some(line_match) => matches_in(lines.take(i), needle).push(
                Match { line: (i + 1) as usize, line_match },
            ),
            None => matches_in(lines.take(i), needle),
        },
{
    assert(lines.take(i + 1).drop_last() =~= lines.take(i));
    assert(lines.take(i + 1)[i] == lines[i]);
}

/// The records of a search name each matching line once, by its number from
/// 1 among all lines, in rising order, and name no other line.
pub proof fn lemma_matches_in_numbering(lines: Seq<Option<Seq<char>>>, needle: Seq<char>)
    requires
        lines.len() <= usize::MAX,
    ensures
        forall|k: int|
            0 <= k < matches_in(lines, needle).len() ==> {
                let m = #[trigger] matches_in(lines, needle)[k];
                &&& 1 <= m.line <= lines.len()
                &&& match_in_line(lines, needle, m.line - 1) == Some(m.line_match)
            },
        forall|j: int, k: int|
            0 <= j < k < matches_in(lines, needle).len() ==> (#[trigger] matches_in(
                lines,
                needle,
            )[j]).line < (#[trigger] matches_in(lines, needle)[k]).line,
        forall|i: int|
            0 <= i < lines.len() && (#[trigger] match_in_line(lines, needle, i)) is Some
                ==> exists|k: int|
                0 <= k < matches_in(lines, needle).len() && (#[trigger] matches_in(
                    lines,
                    needle,
                )[k]).line == i + 1,
    decreases lines.len(),
{
    if lines.len() > 0 {
        let before = lines.drop_last();
        let earlier = matches_in(before, needle);
        let all = matches_in(lines, needle);
        let last = lines.len() - 1;
        lemma_matches_in_numbering(before, needle);
        assert forall|k: int| 0 <= k < earlier.len() implies {
            let m = #[trigger] all[k];
            &&& m == earlier[k]
            &&& 1 <= m.line <= before.len()
            &&& match_in_line(lines, needle, m.line - 1) == Some(m.line_match)
        } by {
            let m = earlier[k];
            assert(before[m.line - 1] == lines[m.line - 1]);
        }
        assert forall|i: int|
            0 <= i < lines.len() && (#[trigger] match_in_line(lines, needle, i)) is Some implies exists|
            k: int,
        |
            0 <= k < all.len() && (#[trigger] all[k]).line == i + 1 by {
            if i < last {
                assert(before[i] == lines[i]);
                assert(match_in_line(before, needle, i) is Some);
                let k = choose|k: int| 0 <= k < earlier.len() && (#[trigger] earlier[k]).line == i + 1;
                assert(all[k].line == i + 1);
            } else {
                assert(all[all.len() - 1].line == i + 1);
            }
        }
    }
}

/// `core::str::from_utf8`.  Its documentation gives the bytes as a string
/// slice where they are valid UTF-8, and an error where they are not.
#[verifier::external_body]
fn decode(raw: &[u8]) -> (text: Option<&str>)
    ensures
        text is Some <==> valid_utf8(raw@),
        text matches Some(s) ==> s.spec_bytes() == raw@,
{
    match core::str::from_utf8(raw) {
        Ok(text) => Some(text),
        Err(_) => None,
    }
}

/// Searches lines of text for `needle`.
pub fn search_impl(lines: Vec<String>, needle: &str) -> (matches: Vec<Match>)
    ensures
        matches@ == matches_in(text_lines(lines.deep_view()), needle@),
        lines@.len() == 0 ==> matches@.len() == 0,
        forall|k: int|
            0 <= k < matches@.len() ==> {
                let m = #[trigger] matches@[k];
                &&& 1 <= m.line <= lines@.len()
                &&& match_line(lines@[m.line - 1]@, needle@) == Some(m.line_match)
            },
{
    let ghost source = text_lines(lines.deep_view());
    let mut matches: Vec<Match> = Vec::new();
    let mut line_index: usize = 0;
    while line_index < lines.len()
        invariant
            line_index <= lines.len(),
            source == text_lines(lines.deep_view()),
            matches@ == matches_in(source.take(line_index as int), needle@),
        decreases lines.len() - line_index,
    {
        let maybe_line_match = search_line_impl(lines[line_index].as_str(), needle);
        proof {
            lemma_matches_in_next(source, needle@, line_index as int);
        }
        match maybe_line_match {
            Some(line_match) => {
                matches.push(Match { line: line_index + 1, line_match });
            },
            None => {},
        }
        line_index += 1;
    }
    proof {
        assert(source.take(line_index as int) =~= source);
        lemma_matches_in_numbering(source, needle@);
    }
    matches
}

/// Searches raw lines for `needle`.  A line that is no valid UTF-8 gives no
/// record and keeps its number.
pub fn search_lines(lines: &Vec<Vec<u8>>, needle: &str) -> (matches: Vec<Match>)
    ensures
        matches@ == matches_in(raw_lines(lines.deep_view()), needle@),
        lines@.len() == 0 ==> matches@.len() == 0,
        forall|k: int|
            0 <= k < matches@.len() ==> {
                let m = #[trigger] matches@[k];
                &&& 1 <= m.line <= lines@.len()
                &&& decode_line(lines@[m.line - 1]@) matches Some(text) && match_line(text, needle@)
                    == Some(m.line_match)
            },
{
    let ghost source = raw_lines(lines.deep_view());
    let mut matches: Vec<Match> = Vec::new();
    let mut line_index: usize = 0;
    while line_index < lines.len()
        invariant
            line_index <= lines.len(),
            source == raw_lines(lines.deep_view()),
            matches@ == matches_in(source.take(line_index as int), needle@),
        decreases lines.len() - line_index,
    {
        proof {
            lemma_matches_in_next(source, needle@, line_index as int);
            lemma_deep_view_of_lines(lines);
        }
        match decode(lines[line_index].as_slice()) {
            Some(text) => {
                proof {
                    encode_utf8_decode_utf8(text@);
                }
                match search_line_impl(text, needle) {
                    Some(line_match) => {
                        matches.push(Match { line: line_index + 1, line_match });
                    },
                    None => {},
                }
            },
            None => {},
        }
        line_index += 1;
    }
    proof {
        assert(source.take(line_index as int) =~= source);
        lemma_matches_in_numbering(source, needle@);
        lemma_deep_view_of_lines(lines);
    }
    matches
}

/// Searches the content of a text source for `needle`: splits it into lines
/// and searches those.
pub fn search_bytes(content: &[u8], needle: &str) -> (matches: Vec<Match>)
    ensures
        matches@ == matches_in(raw_lines(lines_of(content@)), needle@),
{
    let lines = split_lines(content);
    search_lines(&lines, needle)
}

} // verus!
