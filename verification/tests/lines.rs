use greprs::split_lines;

fn lines_of(content: &[u8]) -> Vec<Vec<u8>> {
    split_lines(content)
}

fn expect(lines: &[&[u8]]) -> Vec<Vec<u8>> {
    lines.iter().map(|line| line.to_vec()).collect()
}

#[test]
fn no_content_has_no_lines() {
    assert_eq!(lines_of(b""), expect(&[]));
}

#[test]
fn a_last_line_needs_no_terminator() {
    assert_eq!(lines_of(b"bla"), expect(&[b"bla"]));
    assert_eq!(lines_of(b"bla\nzxc"), expect(&[b"bla", b"zxc"]));
}

#[test]
fn a_terminator_at_the_end_starts_no_line() {
    assert_eq!(lines_of(b"bla\n"), expect(&[b"bla"]));
    assert_eq!(lines_of(b"bla\r"), expect(&[b"bla"]));
    assert_eq!(lines_of(b"bla\r\n"), expect(&[b"bla"]));
    assert_eq!(lines_of(b"\n"), expect(&[b""]));
}

#[test]
fn each_kind_of_terminator_ends_a_line() {
    assert_eq!(
        lines_of(b"a\nb\r\nc\rd"),
        expect(&[b"a", b"b", b"c", b"d"])
    );
}

#[test]
fn empty_lines_are_lines() {
    assert_eq!(lines_of(b"\n\n"), expect(&[b"", b""]));
    assert_eq!(lines_of(b"a\r\n\r\nb"), expect(&[b"a", b"", b"b"]));
    assert_eq!(lines_of(b"a\n\nb\n"), expect(&[b"a", b"", b"b"]));
}

#[test]
fn carriage_return_joins_only_a_line_feed_right_behind_it() {
    assert_eq!(lines_of(b"a\r\rb"), expect(&[b"a", b"", b"b"]));
    assert_eq!(lines_of(b"a\n\rb"), expect(&[b"a", b"", b"b"]));
    assert_eq!(lines_of(b"a\r\n\nb"), expect(&[b"a", b"", b"b"]));
}

#[test]
fn bytes_that_are_no_text_stay_in_their_line() {
    assert_eq!(
        lines_of(&[0xff, b'\n', 0xc3, 0x28, b'\r', 0x00]),
        expect(&[&[0xff], &[0xc3, 0x28], &[0x00]])
    );
}
