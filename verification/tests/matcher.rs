use greprs::{determine_needle_char_bounds, search_line_impl, LineMatch};

fn spans(span_bytes: (usize, usize), span_chars: (usize, usize)) -> Option<LineMatch> {
    Some(LineMatch {
        span_bytes,
        span_chars,
    })
}

#[test]
fn absent_needle_gives_nothing() {
    assert_eq!(search_line_impl("bla", "zxc"), None);
    assert_eq!(search_line_impl("", "zxc"), None);
    assert_eq!(search_line_impl("zx", "zxc"), None);
    assert_eq!(search_line_impl("йцу", "ц у"), None);
}

#[test]
fn needle_that_is_the_whole_line() {
    assert_eq!(search_line_impl("zxc", "zxc"), spans((0, 3), (0, 3)));
    assert_eq!(search_line_impl("фыв", "фыв"), spans((0, 6), (0, 3)));
}

#[test]
fn needle_at_the_start_of_the_line() {
    assert_eq!(search_line_impl("zxc qwe", "zxc"), spans((0, 3), (0, 3)));
    assert_eq!(search_line_impl("фыв qwe", "фы"), spans((0, 4), (0, 2)));
}

#[test]
fn needle_at_the_end_of_the_line() {
    assert_eq!(search_line_impl("qwe zxc", "zxc"), spans((4, 7), (4, 7)));
    assert_eq!(search_line_impl("йцу фыв", "фыв"), spans((7, 13), (4, 7)));
}

#[test]
fn needle_after_multi_byte_text() {
    // 2, 3 and 4 bytes to a character
    assert_eq!(search_line_impl("й zxc!", "zxc"), spans((3, 6), (2, 5)));
    assert_eq!(search_line_impl("€ zxc!", "zxc"), spans((4, 7), (2, 5)));
    assert_eq!(search_line_impl("𝄞 zxc!", "zxc"), spans((5, 8), (2, 5)));
    assert_eq!(search_line_impl("й€𝄞zxc", "zxc"), spans((9, 12), (3, 6)));
}

#[test]
fn multi_byte_needle_after_ascii_text() {
    assert_eq!(search_line_impl("abc €𝄞 def", "€𝄞"), spans((4, 11), (4, 6)));
}

#[test]
fn only_the_first_occurrence_is_reported() {
    assert_eq!(search_line_impl("bla bla bla", "bla"), spans((0, 3), (0, 3)));
    assert_eq!(search_line_impl("ж bla bla", "bla"), spans((3, 6), (2, 5)));
    assert_eq!(search_line_impl("aaa", "aa"), spans((0, 2), (0, 2)));
}

#[test]
fn empty_needle_stands_at_the_start_of_every_line() {
    assert_eq!(search_line_impl("bla", ""), spans((0, 0), (0, 0)));
    assert_eq!(search_line_impl("йцу", ""), spans((0, 0), (0, 0)));
    assert_eq!(search_line_impl("", ""), spans((0, 0), (0, 0)));
}

#[test]
fn character_spans_equal_byte_spans_in_ascii_text() {
    let found = search_line_impl("one two three", "two").unwrap();
    assert_eq!(found.span_bytes, (4, 7));
    assert_eq!(found.span_chars, found.span_bytes);
}

#[test]
fn character_spans_stay_within_byte_spans() {
    let found = search_line_impl("один two три", "two").unwrap();
    assert_eq!(found.span_bytes, (9, 12));
    assert_eq!(found.span_chars, (5, 8));
    assert!(found.span_chars.0 < found.span_bytes.0);
    assert!(found.span_chars.1 < found.span_bytes.1);
    // the same width in both units where only the text before is multi-byte
    assert_eq!(
        found.span_chars.1 - found.span_chars.0,
        found.span_bytes.1 - found.span_bytes.0
    );
}

#[test]
fn char_bounds_of_byte_bounds() {
    assert_eq!(determine_needle_char_bounds("zxc", (0, 3)), (0, 3));
    assert_eq!(determine_needle_char_bounds("qwe zxc", (4, 7)), (4, 7));
    assert_eq!(determine_needle_char_bounds("йцуzxc", (6, 9)), (3, 6));
    assert_eq!(determine_needle_char_bounds("йцуzxc", (2, 4)), (1, 2));
    assert_eq!(determine_needle_char_bounds("й€𝄞z", (2, 5)), (1, 2));
    assert_eq!(determine_needle_char_bounds("й€𝄞z", (5, 9)), (2, 3));
    assert_eq!(determine_needle_char_bounds("й€𝄞z", (9, 10)), (3, 4));
}

#[test]
fn char_bounds_at_the_end_of_the_line() {
    assert_eq!(determine_needle_char_bounds("abc", (3, 3)), (3, 3));
    assert_eq!(determine_needle_char_bounds("йцу", (6, 6)), (3, 3));
    assert_eq!(determine_needle_char_bounds("", (0, 0)), (0, 0));
}

#[test]
fn char_bounds_with_an_end_on_no_boundary() {
    // an end inside a character, or past the line, counts the whole line
    assert_eq!(determine_needle_char_bounds("йцу", (0, 1)), (0, 3));
    assert_eq!(determine_needle_char_bounds("йцу", (2, 100)), (1, 3));
}

#[test]
fn char_bounds_with_an_end_before_the_start() {
    assert_eq!(determine_needle_char_bounds("йцуzxc", (6, 2)), (3, 1));
}
