//! Byte offsets and character indices in UTF-8 text.
//!
//! A line is modelled as its sequence of characters; its bytes are
//! `encode_utf8` of that sequence.  This module relates positions counted in
//! characters to positions counted in bytes.

use crate::occurrence::{contains, first_occurrence, occurs_at};
use vstd::prelude::*;
use vstd::utf8::*;

verus! {

/// Byte offset at which the character of index `c` starts in the encoding of
/// `line` (the length of the whole encoding for `c == line.len()`).
pub open spec fn byte_offset(line: Seq<char>, c: int) -> int {
    encode_utf8(line.take(c)).len() as int
}

/// Number of characters that the first `b` bytes of the encoding of `line`
/// hold, for `b` on a character boundary.
pub open spec fn chars_before(line: Seq<char>, b: int) -> int {
    decode_utf8(encode_utf8(line).subrange(0, b)).len() as int
}

/// Number of bytes among the first `b` of `bytes` that start a character,
/// that is, that are no continuation bytes.
pub open spec fn starts_before(bytes: Seq<u8>, b: int) -> int
    decreases b,
{
    if b <= 0 {
        0
    } else if is_continuation_byte(bytes[b - 1]) {
        starts_before(bytes, b - 1)
    } else {
        starts_before(bytes, b - 1) + 1
    }
}

/// Encoding distributes over concatenation.
pub proof fn lemma_encode_concat(a: Seq<char>, b: Seq<char>)
    ensures
        encode_utf8(a + b) == encode_utf8(a) + encode_utf8(b),
    decreases a.len(),
{
    if a.len() == 0 {
        assert(a + b =~= b);
        assert(encode_utf8(a) + encode_utf8(b) =~= encode_utf8(b));
    } else {
        lemma_encode_concat(a.drop_first(), b);
        assert((a + b).drop_first() =~= a.drop_first() + b);
        assert((a + b)[0] == a[0]);
        assert(encode_utf8(a + b) =~= encode_utf8(a) + encode_utf8(b));
    }
}

/// Every character takes between one and four bytes.
pub proof fn lemma_scalar_len(c: char)
    ensures
        1 <= encode_scalar(c as u32).len() <= 4,
        encode_scalar(c as u32).len() == 1 <==> '\0' <= c <= '\u{7f}',
{
}

/// An encoding is at least as long as the text, and exactly as long when
/// every character is ASCII.
pub proof fn lemma_encoded_len(s: Seq<char>)
    ensures
        s.len() <= encode_utf8(s).len(),
        s.len() == encode_utf8(s).len() <==> is_ascii_chars(s),
    decreases s.len(),
{
    if s.len() == 0 {
    } else {
        let rest = s.drop_first();
        lemma_encoded_len(rest);
        lemma_scalar_len(s[0]);
        if is_ascii_chars(s) {
            assert forall|i: int| 0 <= i < rest.len() implies '\0' <= #[trigger] rest[i]
                <= '\u{7f}' by {
                assert(rest[i] == s[i + 1]);
            }
        }
        if is_ascii_chars(rest) && '\0' <= s[0] <= '\u{7f}' {
            assert forall|i: int| 0 <= i < s.len() implies '\0' <= #[trigger] s[i] <= '\u{7f}' by {
                if i > 0 {
                    assert(s[i] == rest[i - 1]);
                }
            }
        }
    }
}

/// Later characters start at later bytes.
pub proof fn lemma_byte_offset_increasing(line: Seq<char>, i: int, j: int)
    requires
        0 <= i < j <= line.len(),
    ensures
        byte_offset(line, i) < byte_offset(line, j),
{
    let mid = line.subrange(i, j);
    assert(line.take(j) =~= line.take(i) + mid);
    lemma_encode_concat(line.take(i), mid);
    lemma_encoded_len(mid);
}

/// A valid encoding that opens another valid encoding ends on one of its
/// character boundaries.
pub proof fn lemma_prefix_ends_on_boundary(bytes: Seq<u8>, prefix: Seq<u8>)
    requires
        valid_utf8(bytes),
        valid_utf8(prefix),
        prefix.len() <= bytes.len(),
        bytes.subrange(0, prefix.len() as int) == prefix,
    ensures
        is_char_boundary(bytes, prefix.len() as int),
    decreases prefix.len(),
{
    if prefix.len() == 0 {
    } else {
        assert(bytes[0] == prefix[0]);
        let width = length_of_first_scalar(prefix);
        assert(width == length_of_first_scalar(bytes));
        let bytes_rest = pop_first_scalar(bytes);
        let prefix_rest = pop_first_scalar(prefix);
        assert(bytes_rest.subrange(0, prefix_rest.len() as int) =~= prefix_rest) by {
            assert forall|k: int| 0 <= k < prefix_rest.len() implies bytes_rest[k]
                == prefix_rest[k] by {
                assert(prefix[k + width] == bytes.subrange(0, prefix.len() as int)[k + width]);
            }
        }
        lemma_prefix_ends_on_boundary(bytes_rest, prefix_rest);
    }
}

/// A boundary of the text after a boundary is a boundary of the whole text.
pub proof fn lemma_boundary_after_boundary(bytes: Seq<u8>, b: int, k: int)
    requires
        valid_utf8(bytes),
        is_char_boundary(bytes, b),
        0 <= b <= bytes.len(),
        0 <= k,
        is_char_boundary(bytes.subrange(b, bytes.len() as int), k),
    ensures
        is_char_boundary(bytes, b + k),
{
    let rest = bytes.subrange(b, bytes.len() as int);
    valid_utf8_split(bytes, b);
    lemma_boundary_in_range(rest, k);
    if b + k == bytes.len() {
        is_char_boundary_start_end_of_seq(bytes);
    } else {
        is_char_boundary_iff_not_is_continuation_byte(rest, k);
        is_char_boundary_iff_not_is_continuation_byte(bytes, b + k);
        assert(rest[k] == bytes[b + k]);
    }
}

/// Character boundaries lie within the text.
pub proof fn lemma_boundary_in_range(bytes: Seq<u8>, b: int)
    requires
        valid_utf8(bytes),
        is_char_boundary(bytes, b),
    ensures
        0 <= b <= bytes.len(),
{
}

/// The start of the character of index `c` is a character boundary, and
/// `c` characters stand before it.
pub proof fn lemma_byte_offset_is_boundary(line: Seq<char>, c: int)
    requires
        0 <= c <= line.len(),
    ensures
        0 <= byte_offset(line, c) <= encode_utf8(line).len(),
        is_char_boundary(encode_utf8(line), byte_offset(line, c)),
        chars_before(line, byte_offset(line, c)) == c,
{
    let head = line.take(c);
    let tail = line.skip(c);
    assert(line =~= head + tail);
    lemma_encode_concat(head, tail);
    encode_utf8_valid_utf8(head);
    encode_utf8_valid_utf8(line);
    let bytes = encode_utf8(line);
    assert(bytes.subrange(0, encode_utf8(head).len() as int) =~= encode_utf8(head));
    lemma_prefix_ends_on_boundary(bytes, encode_utf8(head));
    encode_utf8_decode_utf8(head);
}

/// Splitting the text at a character boundary `b` of its encoding splits it
/// after `chars_before(line, b)` characters, which start at byte `b`.
pub proof fn lemma_boundary_is_byte_offset(line: Seq<char>, b: int)
    requires
        is_char_boundary(encode_utf8(line), b),
    ensures
        0 <= chars_before(line, b) <= line.len(),
        byte_offset(line, chars_before(line, b)) == b,
        line.take(chars_before(line, b)) == decode_utf8(encode_utf8(line).subrange(0, b)),
        line.skip(chars_before(line, b)) == decode_utf8(
            encode_utf8(line).subrange(b, encode_utf8(line).len() as int),
        ),
{
    let bytes = encode_utf8(line);
    encode_utf8_valid_utf8(line);
    lemma_boundary_in_range(bytes, b);
    valid_utf8_split(bytes, b);
    decode_utf8_split(bytes, b);
    encode_utf8_decode_utf8(line);
    let head = decode_utf8(bytes.subrange(0, b));
    let tail = decode_utf8(bytes.subrange(b, bytes.len() as int));
    assert(line =~= head + tail);
    assert(line.take(head.len() as int) =~= head);
    assert(line.skip(head.len() as int) =~= tail);
    decode_utf8_encode_utf8(bytes.subrange(0, b));
}

/// `starts_before` looks at the first `b` bytes only.
pub proof fn lemma_starts_before_local(x: Seq<u8>, y: Seq<u8>, b: int)
    requires
        0 <= b <= x.len(),
        b <= y.len(),
        forall|k: int| 0 <= k < b ==> x[k] == y[k],
    ensures
        starts_before(x, b) == starts_before(y, b),
    decreases b,
{
    if b > 0 {
        lemma_starts_before_local(x, y, b - 1);
    }
}

/// Character starts before `i + k` are those before `i` and the next `k`
/// bytes' own.
pub proof fn lemma_starts_before_split(bytes: Seq<u8>, i: int, k: int)
    requires
        0 <= i,
        0 <= k,
        i + k <= bytes.len(),
    ensures
        starts_before(bytes, i + k) == starts_before(bytes, i) + starts_before(bytes.skip(i), k),
    decreases k,
{
    if k > 0 {
        lemma_starts_before_split(bytes, i, k - 1);
        assert(bytes.skip(i)[k - 1] == bytes[i + k - 1]);
    }
}

/// A valid encoding holds as many characters as it has bytes that start one.
pub proof fn lemma_starts_of_valid(bytes: Seq<u8>)
    requires
        valid_utf8(bytes),
    ensures
        starts_before(bytes, bytes.len() as int) == decode_utf8(bytes).len(),
    decreases bytes.len(),
{
    if bytes.len() > 0 {
        let width = length_of_first_scalar(bytes);
        let rest = pop_first_scalar(bytes);
        assert(starts_before(bytes, width) == 1) by {
            reveal_with_fuel(starts_before, 5);
        }
        lemma_starts_before_split(bytes, width, bytes.len() - width);
        assert(bytes.skip(width) =~= rest);
        lemma_starts_of_valid(rest);
    }
}

/// Up to a character boundary, counting the bytes that start a character
/// counts the characters.
pub proof fn lemma_starts_before_boundary(line: Seq<char>, b: int)
    requires
        is_char_boundary(encode_utf8(line), b),
    ensures
        starts_before(encode_utf8(line), b) == chars_before(line, b),
{
    let bytes = encode_utf8(line);
    encode_utf8_valid_utf8(line);
    lemma_boundary_in_range(bytes, b);
    valid_utf8_split(bytes, b);
    let head = bytes.subrange(0, b);
    lemma_starts_before_local(bytes, head, b);
    lemma_starts_of_valid(head);
}

/// Where the needle stands in the text, its encoding stands in the text's
/// encoding, at the byte offset of that character.
pub proof fn lemma_char_occurrence_in_bytes(line: Seq<char>, needle: Seq<char>, c: int)
    requires
        occurs_at(line, needle, c),
    ensures
        occurs_at(encode_utf8(line), encode_utf8(needle), byte_offset(line, c)),
{
    let head = line.take(c);
    let tail = line.skip(c + needle.len());
    assert(line =~= head + needle + tail) by {
        assert(line.subrange(c, c + needle.len()) == needle);
        assert forall|k: int| 0 <= k < line.len() implies line[k] == (head + needle + tail)[k] by {
            if c <= k < c + needle.len() {
                assert(line.subrange(c, c + needle.len())[k - c] == line[k]);
            }
        }
    }
    lemma_encode_concat(head + needle, tail);
    lemma_encode_concat(head, needle);
    let start = encode_utf8(head).len() as int;
    assert(encode_utf8(line).subrange(start, start + encode_utf8(needle).len()) =~= encode_utf8(
        needle,
    ));
}

/// Where a non-empty needle's encoding stands in the text's encoding, it
/// starts and ends on character boundaries, and the needle stands in the
/// text at the character that starts there.
pub proof fn lemma_byte_occurrence_in_chars(line: Seq<char>, needle: Seq<char>, b: int)
    requires
        needle.len() > 0,
        occurs_at(encode_utf8(line), encode_utf8(needle), b),
    ensures
        is_char_boundary(encode_utf8(line), b),
        is_char_boundary(encode_utf8(line), b + encode_utf8(needle).len()),
        occurs_at(line, needle, chars_before(line, b)),
        chars_before(line, b + encode_utf8(needle).len()) == chars_before(line, b) + needle.len(),
{
    let bytes = encode_utf8(line);
    let pat = encode_utf8(needle);
    encode_utf8_valid_utf8(line);
    encode_utf8_valid_utf8(needle);
    lemma_encoded_len(needle);
    // the needle's first byte starts a character, in the needle and in the text
    assert(bytes[b] == pat[0]) by {
        assert(bytes.subrange(b, b + pat.len())[0] == bytes[b]);
    }
    is_char_boundary_start_end_of_seq(pat);
    is_char_boundary_iff_not_is_continuation_byte(pat, 0);
    is_char_boundary_iff_not_is_continuation_byte(bytes, b);
    // the text from there on opens with the needle's encoding
    let rest = bytes.subrange(b, bytes.len() as int);
    valid_utf8_split(bytes, b);
    assert(rest.subrange(0, pat.len() as int) =~= pat) by {
        assert forall|k: int| 0 <= k < pat.len() implies rest[k] == pat[k] by {
            assert(bytes.subrange(b, b + pat.len())[k] == bytes[b + k]);
        }
    }
    lemma_prefix_ends_on_boundary(rest, pat);
    lemma_boundary_after_boundary(bytes, b, pat.len() as int);
    // decode the three parts
    let c = chars_before(line, b);
    lemma_boundary_is_byte_offset(line, b);
    decode_utf8_split(rest, pat.len() as int);
    encode_utf8_decode_utf8(needle);
    let after = decode_utf8(rest.subrange(pat.len() as int, rest.len() as int));
    assert(line.skip(c) =~= needle + after);
    assert(line.subrange(c, c + needle.len()) =~= needle) by {
        assert forall|k: int| 0 <= k < needle.len() implies line[c + k] == needle[k] by {
            assert(line.skip(c)[k] == line[c + k]);
        }
    }
    // the end of the occurrence is where the character after the needle starts
    lemma_char_occurrence_in_bytes(line, needle, c);
    assert(line.take(c + needle.len()) =~= line.take(c) + needle);
    lemma_encode_concat(line.take(c), needle);
    lemma_byte_offset_is_boundary(line, c + needle.len());
}

/// The first place where the needle's encoding stands in the text's encoding
/// is the start of the first character at which the needle stands in the
/// text.
pub proof fn lemma_first_byte_occurrence(line: Seq<char>, needle: Seq<char>, b: int)
    requires
        first_occurrence(encode_utf8(line), encode_utf8(needle), b),
    ensures
        is_char_boundary(encode_utf8(line), b),
        is_char_boundary(encode_utf8(line), b + encode_utf8(needle).len()),
        first_occurrence(line, needle, chars_before(line, b)),
        byte_offset(line, chars_before(line, b)) == b,
        chars_before(line, b + encode_utf8(needle).len()) == chars_before(line, b) + needle.len(),
{
    let bytes = encode_utf8(line);
    let pat = encode_utf8(needle);
    encode_utf8_valid_utf8(line);
    if needle.len() == 0 {
        assert(pat.len() == 0);
        assert(occurs_at(bytes, pat, 0)) by {
            assert(bytes.subrange(0, 0) =~= pat);
        }
        assert(b == 0);
        is_char_boundary_start_end_of_seq(bytes);
        assert(bytes.subrange(0, 0) =~= Seq::<u8>::empty());
        assert(chars_before(line, 0) == 0);
        assert(line.subrange(0, 0) =~= needle);
        assert(line.take(0) =~= Seq::<char>::empty());
    } else {
        lemma_byte_occurrence_in_chars(line, needle, b);
        lemma_boundary_is_byte_offset(line, b);
        let c = chars_before(line, b);
        assert forall|j: int| 0 <= j < c implies !occurs_at(line, needle, j) by {
            if occurs_at(line, needle, j) {
                lemma_char_occurrence_in_bytes(line, needle, j);
                lemma_byte_offset_increasing(line, j, c);
            }
        }
    }
}

/// Where the needle's encoding stands nowhere in the text's encoding, the
/// needle stands nowhere in the text.
pub proof fn lemma_no_byte_occurrence(line: Seq<char>, needle: Seq<char>)
    requires
        !contains(encode_utf8(line), encode_utf8(needle)),
    ensures
        !contains(line, needle),
{
    assert forall|c: int| !occurs_at(line, needle, c) by {
        if occurs_at(line, needle, c) {
            lemma_char_occurrence_in_bytes(line, needle, c);
        }
    }
}

} // verus!
