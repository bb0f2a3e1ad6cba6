//! Splitting the bytes of a text source into lines.
//!
//! A line ends at a line feed, at a carriage return, or at a carriage return
//! with a line feed right behind it, whichever the source uses; the
//! terminator is no part of the line.  The last line needs no terminator,
//! and a terminator at the very end starts no further line.

use vstd::prelude::*;

verus! {

pub const LINE_FEED: u8 = 0x0A;

pub const CARRIAGE_RETURN: u8 = 0x0D;

/// The byte ends a line.
pub open spec fn is_line_break(byte: u8) -> bool {
    byte == LINE_FEED || byte == CARRIAGE_RETURN
}

/// Number of bytes before the first line break, or before the end where
/// there is no line break.
pub open spec fn line_len(bytes: Seq<u8>) -> int
    decreases bytes.len(),
{
    if bytes.len() == 0 || is_line_break(bytes[0]) {
        0
    } else {
        1 + line_len(bytes.drop_first())
    }
}

/// Number of bytes of the terminator that starts at index `at`: two for a
/// carriage return with a line feed behind it, else one.
pub open spec fn terminator_len(bytes: Seq<u8>, at: int) -> int {
    if bytes[at] == CARRIAGE_RETURN && at + 1 < bytes.len() && bytes[at + 1] == LINE_FEED {
        2
    } else {
        1
    }
}

/// The lines of a text source.
pub open spec fn lines_of(bytes: Seq<u8>) -> Seq<Seq<u8>>
    decreases bytes.len(),
{
    if bytes.len() == 0 {
        Seq::empty()
    } else {
        let len = line_len(bytes);
        if 0 <= len < bytes.len() {
            seq![bytes.take(len)] + lines_of(bytes.skip(len + terminator_len(bytes, len)))
        } else {
            seq![bytes]
        }
    }
}

/// `line_len` is the one index up to which no byte is a line break and at
/// which the text ends or a line break stands.
pub proof fn lemma_line_len(bytes: Seq<u8>, len: int)
    requires
        0 <= len <= bytes.len(),
        forall|k: int| 0 <= k < len ==> !is_line_break(#[trigger] bytes[k]),
        len == bytes.len() || is_line_break(bytes[len]),
    ensures
        line_len(bytes) == len,
    decreases len,
{
    if len > 0 {
        let rest = bytes.drop_first();
        assert forall|k: int| 0 <= k < len - 1 implies !is_line_break(#[trigger] rest[k]) by {
            assert(rest[k] == bytes[k + 1]);
        }
        if len < bytes.len() {
            assert(rest[len - 1] == bytes[len]);
        }
        lemma_line_len(rest, len - 1);
    }
}

/// No line holds a line break.
pub proof fn lemma_lines_hold_no_break(bytes: Seq<u8>)
    ensures
        forall|i: int, k: int|
            0 <= i < lines_of(bytes).len() && 0 <= k < lines_of(bytes)[i].len()
                ==> !is_line_break(#[trigger] lines_of(bytes)[i][k]),
    decreases bytes.len(),
{
    if bytes.len() > 0 {
        let len = line_len(bytes);
        lemma_line_len_is_first_break(bytes);
        if len < bytes.len() {
            let rest = bytes.skip(len + terminator_len(bytes, len));
            lemma_lines_hold_no_break(rest);
            let lines = lines_of(bytes);
            assert forall|i: int, k: int|
                0 <= i < lines.len() && 0 <= k < lines[i].len() implies !is_line_break(
                #[trigger] lines[i][k],
            ) by {
                if i > 0 {
                    assert(lines[i] == lines_of(rest)[i - 1]);
                }
            }
        }
    }
}

/// `line_len` lies within the text, no byte before it is a line break, and
/// a line break stands at it unless it is the end.
pub proof fn lemma_line_len_is_first_break(bytes: Seq<u8>)
    ensures
        0 <= line_len(bytes) <= bytes.len(),
        forall|k: int| 0 <= k < line_len(bytes) ==> !is_line_break(#[trigger] bytes[k]),
        line_len(bytes) < bytes.len() ==> is_line_break(bytes[line_len(bytes)]),
    decreases bytes.len(),
{
    if bytes.len() == 0 || is_line_break(bytes[0]) {
    } else {
        let rest = bytes.drop_first();
        lemma_line_len_is_first_break(rest);
        assert forall|k: int| 0 <= k < line_len(bytes) implies !is_line_break(
            #[trigger] bytes[k],
        ) by {
            if k > 0 {
                assert(bytes[k] == rest[k - 1]);
            }
        }
    }
}

/// The deep view of a vector of byte vectors holds the view of each.
pub proof fn lemma_deep_view_of_lines(lines: &Vec<Vec<u8>>)
    ensures
        lines.deep_view().len() == lines@.len(),
        forall|i: int| 0 <= i < lines@.len() ==> #[trigger] lines.deep_view()[i] == lines@[i]@,
{
    assert forall|i: int| 0 <= i < lines@.len() implies #[trigger] lines.deep_view()[i]
        == lines@[i]@ by {
        assert(lines@[i].deep_view() =~= lines@[i]@);
    }
}

/// Splits the bytes of a text source into its lines.
pub fn split_lines(content: &[u8]) -> (lines: Vec<Vec<u8>>)
    ensures
        lines.deep_view() == lines_of(content@),
{
    let mut lines: Vec<Vec<u8>> = Vec::new();
    let mut line: Vec<u8> = Vec::new();
    let len: usize = content.len();
    let mut at: usize = 0;
    let ghost mut start: int = 0;
    proof {
        lemma_deep_view_of_lines(&lines);
        assert(lines.deep_view() + lines_of(content@.skip(0)) =~= lines_of(
            content@.skip(0),
        ));
        assert(content@.skip(0) =~= content@);
    }
    while at < len
        invariant
            len == content@.len(),
            0 <= start <= at <= len,
            line@ == content@.subrange(start, at as int),
            forall|k: int| start <= k < at ==> !is_line_break(#[trigger] content@[k]),
            lines.deep_view() + lines_of(content@.skip(start)) == lines_of(
                content@,
            ),
        decreases len - at,
    {
        let byte: u8 = content[at];
        if byte == LINE_FEED || byte == CARRIAGE_RETURN {
            let ghost rest = content@.skip(start);
            let ghost before = lines.deep_view();
            proof {
                assert forall|k: int| 0 <= k < at - start implies !is_line_break(
                    #[trigger] rest[k],
                ) by {
                    assert(rest[k] == content@[start + k]);
                }
                lemma_line_len(rest, at - start);
                assert(rest.take(at - start) =~= line@);
                lemma_deep_view_of_lines(&lines);
            }
            lines.push(line);
            line = Vec::new();
            at += 1;
            if byte == CARRIAGE_RETURN && at < len && content[at] == LINE_FEED {
                at += 1;
            }
            proof {
                assert(rest.skip(at - start) =~= content@.skip(at as int));
                lemma_deep_view_of_lines(&lines);
                assert(lines.deep_view() =~= before + seq![rest.take(line_len(rest))]);
                assert(before + (seq![rest.take(line_len(rest))] + lines_of(
                    content@.skip(at as int),
                )) =~= lines.deep_view() + lines_of(content@.skip(at as int)));
                start = at as int;
            }
        } else {
            line.push(byte);
            at += 1;
        }
    }
    proof {
        let rest = content@.skip(start);
        if start < len {
            assert forall|k: int| 0 <= k < len - start implies !is_line_break(
                #[trigger] rest[k],
            ) by {
                assert(rest[k] == content@[start + k]);
            }
            lemma_line_len(rest, len - start);
            assert(rest =~= line@);
        }
    }
    if line.len() > 0 {
        let ghost before = lines.deep_view();
        let ghost last = line@;
        proof {
            lemma_deep_view_of_lines(&lines);
        }
        lines.push(line);
        proof {
            lemma_deep_view_of_lines(&lines);
            assert(lines.deep_view() =~= before + seq![last]);
        }
    } else {
        proof {
            assert(lines.deep_view() + Seq::<Seq<u8>>::empty() =~= lines.deep_view());
        }
    }
    lines
}

} // verus!
