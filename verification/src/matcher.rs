//! Matching a needle against one line of text.
//!
//! A match is reported as two spans over the same run of text: one counted
//! in bytes of the line's UTF-8 encoding, one counted in characters.  Only
//! the first occurrence in a line is reported.  The empty needle stands at
//! the start of every line, so it matches every line with both spans
//! `(0, 0)`.

use crate::occurrence::{contains, first_occurrence, lemma_first_occurrence_unique, occurs_at};
use crate::offsets::{
    byte_offset, chars_before, lemma_boundary_in_range, lemma_boundary_is_byte_offset,
    lemma_byte_offset_is_boundary, lemma_char_occurrence_in_bytes, lemma_encode_concat,
    lemma_encoded_len, lemma_first_byte_occurrence, lemma_no_byte_occurrence,
    lemma_starts_before_boundary, starts_before,
};
use vstd::prelude::*;
use vstd::string::StringSliceAdditionalSpecFns;
use vstd::utf8::*;

verus! {

/// Where a needle stands in a line: `(start, end)` in bytes and in
/// characters, `end` exclusive.
#[derive(Debug, Clone, Copy, PartialEq, Eq)]
pub struct LineMatch {
    pub span_bytes: (usize, usize),
    pub span_chars: (usize, usize),
}

/// Index of the first character of `line` at which `needle` stands.
pub open spec fn first_index(line: Seq<char>, needle: Seq<char>) -> int {
    choose|c: int| first_occurrence(line, needle, c)
}

/// The record of `needle` standing in `line` at the character of index `c`.
pub open spec fn match_at(line: Seq<char>, needle: Seq<char>, c: int) -> LineMatch {
    LineMatch {
        span_bytes: (
            byte_offset(line, c) as usize,
            (byte_offset(line, c) + encode_utf8(needle).len()) as usize,
        ),
        span_chars: (c as usize, (c + needle.len()) as usize),
    }
}

/// What matching `needle` against `line` gives: nothing where the needle
/// stands nowhere in the line, else the record of its first occurrence.
pub open spec fn match_line(line: Seq<char>, needle: Seq<char>) -> Option<LineMatch> {
    if contains(line, needle) {
        Some(match_at(line, needle, first_index(line, needle)))
    } else {
        None
    }
}

/// A needle that stands in a line has a first occurrence there.
pub proof fn lemma_first_index(line: Seq<char>, needle: Seq<char>)
    requires
        contains(line, needle),
    ensures
        first_occurrence(line, needle, first_index(line, needle)),
{
    let some = choose|c: int| occurs_at(line, needle, c);
    lemma_lowest_occurrence(line, needle, some);
}

/// Below any occurrence there is a first one.
proof fn lemma_lowest_occurrence(line: Seq<char>, needle: Seq<char>, c: int)
    requires
        occurs_at(line, needle, c),
    ensures
        exists|f: int| first_occurrence(line, needle, f),
    decreases c,
{
    if exists|j: int| 0 <= j < c && occurs_at(line, needle, j) {
        let j = choose|j: int| 0 <= j < c && occurs_at(line, needle, j);
        lemma_lowest_occurrence(line, needle, j);
    } else {
        assert(first_occurrence(line, needle, c));
    }
}

/// `str::find` with a string as the pattern.  Its documentation gives the
/// byte index of the first match of the pattern in the string slice, and
/// `None` where the pattern does not match; a string pattern matches where
/// its bytes stand in the slice's bytes.
#[verifier::external_body]
fn find(haystack: &str, needle: &str) -> (found: Option<usize>)
    ensures
        match found {
            Some(start) => first_occurrence(
                haystack.spec_bytes(),
                needle.spec_bytes(),
                start as int,
            ),
            None => !contains(haystack.spec_bytes(), needle.spec_bytes()),
        },
{
    haystack.find(needle)
}

/// Turns byte offsets into `haystack` into character indices by scanning
/// the line once, counting the characters that start before each offset.
///
/// The first offset has to lie on a character boundary.  The second is
/// answered with the line's character count where it lies on none.
pub fn determine_needle_char_bounds(haystack: &str, needle_byte_bounds: (usize, usize)) -> (bounds:
    (usize, usize))
    requires
        is_char_boundary(haystack.spec_bytes(), needle_byte_bounds.0 as int),
    ensures
        bounds.0 == chars_before(haystack@, needle_byte_bounds.0 as int),
        bounds.1 == if is_char_boundary(haystack.spec_bytes(), needle_byte_bounds.1 as int) {
            chars_before(haystack@, needle_byte_bounds.1 as int)
        } else {
            haystack@.len() as int
        },
{
    let (needle_start, needle_end) = needle_byte_bounds;
    let bytes = haystack.as_bytes();
    let len: usize = bytes.len();
    let ghost line = haystack@;
    let mut needle_start_char_index: Option<usize> = None;
    let mut needle_end_char_index: Option<usize> = None;
    let mut char_index: usize = 0;
    let mut byte_index: usize = 0;
    proof {
        encode_utf8_valid_utf8(line);
        lemma_boundary_in_range(bytes@, needle_start as int);
    }
    while byte_index < len
        invariant
            bytes@ == encode_utf8(line),
            valid_utf8(bytes@),
            len == bytes@.len(),
            byte_index <= len,
            needle_start <= len,
            is_char_boundary(bytes@, needle_start as int),
            char_index == starts_before(bytes@, byte_index as int),
            char_index <= byte_index,
            needle_start_char_index is Some <==> needle_start < byte_index,
            needle_start_char_index matches Some(index) ==> index == starts_before(
                bytes@,
                needle_start as int,
            ),
            needle_end_char_index is Some <==> needle_end < byte_index && !is_continuation_byte(
                bytes@[needle_end as int],
            ),
            needle_end_char_index matches Some(index) ==> index == starts_before(
                bytes@,
                needle_end as int,
            ),
        decreases len - byte_index,
    {
        let byte: u8 = bytes[byte_index];
        if byte < 0x80u8 || byte > 0xBFu8 {
            if byte_index == needle_start {
                needle_start_char_index = Some(char_index);
            }
            if byte_index == needle_end {
                needle_end_char_index = Some(char_index);
            }
            char_index += 1;
        } else {
            proof {
                is_char_boundary_iff_not_is_continuation_byte(bytes@, byte_index as int);
            }
        }
        byte_index += 1;
    }
    proof {
        lemma_starts_before_boundary(line, needle_start as int);
        is_char_boundary_start_end_of_seq(bytes@);
        lemma_starts_before_boundary(line, len as int);
        lemma_byte_offset_is_boundary(line, line.len() as int);
        assert(line.take(line.len() as int) =~= line);
        if is_char_boundary(bytes@, needle_end as int) {
            lemma_boundary_in_range(bytes@, needle_end as int);
            lemma_starts_before_boundary(line, needle_end as int);
            if needle_end < len {
                is_char_boundary_iff_not_is_continuation_byte(bytes@, needle_end as int);
            }
        } else if needle_end < len {
            is_char_boundary_iff_not_is_continuation_byte(bytes@, needle_end as int);
        }
    }
    let start: usize = match needle_start_char_index {
        Some(index) => index,
        None => char_index,
    };
    let end: usize = match needle_end_char_index {
        Some(index) => index,
        None => char_index,
    };
    (start, end)
}

/// Matches `needle` against the line `haystack`.
pub fn search_line_impl(haystack: &str, needle: &str) -> (found: Option<LineMatch>)
    ensures
        found == match_line(haystack@, needle@),
        !contains(haystack@, needle@) ==> found is None,
        found matches Some(m) ==> {
            &&& first_occurrence(haystack@, needle@, m.span_chars.0 as int)
            &&& m.span_chars.1 == m.span_chars.0 + needle@.len()
            &&& m.span_bytes.0 == byte_offset(haystack@, m.span_chars.0 as int)
            &&& m.span_bytes.1 == m.span_bytes.0 + needle.spec_bytes().len()
            &&& m.span_chars.0 <= m.span_bytes.0
            &&& m.span_chars.1 <= m.span_bytes.1
            &&& is_ascii_chars(haystack@) ==> m.span_chars == m.span_bytes
        },
{
    let ghost line = haystack@;
    let ghost pat = needle@;
    let needle_start: usize = match find(haystack, needle) {
        Some(start) => start,
        None => {
            proof {
                lemma_no_byte_occurrence(line, pat);
            }
            return None;
        },
    };
    proof {
        lemma_first_byte_occurrence(line, pat, needle_start as int);
    }
    // the occurrence lies within the line's bytes, a slice, whose length fits `usize`
    let haystack_len: usize = haystack.as_bytes().len();
    assert(needle_start + needle.spec_bytes().len() <= haystack_len);
    let needle_end: usize = needle_start + needle.len();
    let needle_char_bounds = determine_needle_char_bounds(haystack, (needle_start, needle_end));
    proof {
        let c = chars_before(line, needle_start as int);
        lemma_boundary_is_byte_offset(line, needle_start as int);
        lemma_first_index(line, pat);
        lemma_first_occurrence_unique(line, pat, c, first_index(line, pat));
        lemma_span_units(line, pat);
    }
    Some(LineMatch { span_bytes: (needle_start, needle_end), span_chars: needle_char_bounds })
}

/// A needle that stands in a line behind `prefix`, and at no character
/// before the end of `prefix`, is reported there: its byte span starts after
/// the bytes of `prefix` and its character span after the characters of
/// `prefix`, and each is as long as the needle is in that unit.
pub proof fn lemma_match_behind_prefix(prefix: Seq<char>, needle: Seq<char>, suffix: Seq<char>)
    requires
        encode_utf8(prefix + needle + suffix).len() <= usize::MAX,
        forall|j: int| 0 <= j < prefix.len() ==> !occurs_at(prefix + needle + suffix, needle, j),
    ensures
        match_line(prefix + needle + suffix, needle) matches Some(m) && {
            &&& m.span_bytes.0 == encode_utf8(prefix).len()
            &&& m.span_bytes.1 == encode_utf8(prefix).len() + encode_utf8(needle).len()
            &&& m.span_chars.0 == prefix.len()
            &&& m.span_chars.1 == prefix.len() + needle.len()
        },
{
    let line = prefix + needle + suffix;
    let c = prefix.len() as int;
    assert(line.subrange(c, c + needle.len()) =~= needle);
    assert(first_occurrence(line, needle, c));
    lemma_first_index(line, needle);
    lemma_first_occurrence_unique(line, needle, c, first_index(line, needle));
    assert(line.take(c) =~= prefix);
    lemma_char_occurrence_in_bytes(line, needle, c);
    lemma_encoded_len(line);
}

/// In a reported match each span starts no later than it ends, and the
/// character span lies no further into the line than the byte span.  Its
/// start is the byte start exactly where only ASCII stands before the
/// needle, and its end is the byte end exactly where only ASCII stands up to
/// the needle's end: in a line of ASCII the two spans are the same.
pub proof fn lemma_span_units(line: Seq<char>, needle: Seq<char>)
    requires
        encode_utf8(line).len() <= usize::MAX,
    ensures
        match_line(line, needle) matches Some(m) ==> {
            &&& m.span_bytes.0 <= m.span_bytes.1 <= encode_utf8(line).len()
            &&& m.span_chars.0 <= m.span_chars.1 <= line.len()
            &&& m.span_chars.0 <= m.span_bytes.0
            &&& m.span_chars.1 <= m.span_bytes.1
            &&& m.span_chars.0 == m.span_bytes.0 <==> is_ascii_chars(line.take(m.span_chars.0 as int))
            &&& m.span_chars.1 == m.span_bytes.1 <==> is_ascii_chars(line.take(m.span_chars.1 as int))
            &&& is_ascii_chars(line) ==> m.span_chars == m.span_bytes
        },
{
    if contains(line, needle) {
        lemma_first_index(line, needle);
        let c = first_index(line, needle);
        let head = line.take(c);
        let through = line.take(c + needle.len());
        lemma_char_occurrence_in_bytes(line, needle, c);
        lemma_encoded_len(line);
        lemma_encoded_len(head);
        lemma_encoded_len(through);
        assert(through =~= head + needle) by {
            assert forall|k: int| 0 <= k < needle.len() implies line[c + k] == needle[k] by {
                assert(line.subrange(c, c + needle.len())[k] == line[c + k]);
            }
        }
        lemma_encode_concat(head, needle);
        if is_ascii_chars(line) {
            assert(is_ascii_chars(head));
            assert(is_ascii_chars(through));
        }
    }
}

} // verus!
