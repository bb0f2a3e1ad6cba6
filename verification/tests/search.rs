use greprs::{search_bytes, search_impl, search_lines, LineMatch, Match};

fn record(line: usize, span_bytes: (usize, usize), span_chars: (usize, usize)) -> Match {
    Match {
        line,
        line_match: LineMatch {
            span_bytes,
            span_chars,
        },
    }
}

#[test]
fn search_one_entry() {
    // one entry in input
    let lines = vec![
        String::from("bla"),
        String::from("zxc"),
        String::from("qwe"),
    ];
    let matches = search_impl(lines, "zxc");
    assert_eq!(
        matches[0],
        Match {
            line: 2,
            line_match: LineMatch {
                span_bytes: (0, 3),
                span_chars: (0, 3),
            },
        }
    );
}

#[test]
fn search_empty_input() {
    // empty input
    let lines = Vec::new();
    let matches = search_impl(lines, "zxc");
    assert!(matches.is_empty());
}

#[test]
fn search_two_entries() {
    // two entries in input
    let lines = vec![
        String::from("bla"),
        String::from("zxc"),
        String::from("qwe"),
        String::from("bla"),
    ];
    let matches = search_impl(lines, "bla");
    assert_eq!(matches.len(), 2);
    assert_eq!(
        matches[0],
        Match {
            line: 1,
            line_match: LineMatch {
                span_bytes: (0, 3),
                span_chars: (0, 3),
            },
        }
    );
    assert_eq!(
        matches[1],
        Match {
            line: 4,
            line_match: LineMatch {
                span_bytes: (0, 3),
                span_chars: (0, 3),
            },
        }
    );
}

#[test]
fn search_no_entries() {
    // no entries in non-empty input
    let lines = vec![String::from("zxc"), String::from("asd")];
    let matches = search_impl(lines, "bla");
    assert!(matches.is_empty());
}

#[test]
fn search_cyrilic_entry() {
    // one cyrilic entry
    let lines = vec![
        String::from("йцу"),
        String::from("фыв"),
        String::from("ячс"),
    ];
    let matches = search_impl(lines, "фыв");
    assert_eq!(
        matches[0],
        Match {
            line: 2,
            line_match: LineMatch {
                span_bytes: (0, 6),
                span_chars: (0, 3),
            },
        }
    );
}

#[test]
fn search_one_entry_is_the_only_record() {
    let lines = vec![
        String::from("bla"),
        String::from("zxc"),
        String::from("qwe"),
    ];
    assert_eq!(search_impl(lines, "zxc"), vec![record(2, (0, 3), (0, 3))]);
}

#[test]
fn search_cyrilic_entry_is_the_only_record() {
    let lines = vec![
        String::from("йцу"),
        String::from("фыв"),
        String::from("ячс"),
    ];
    assert_eq!(search_impl(lines, "фыв"), vec![record(2, (0, 6), (0, 3))]);
}

#[test]
fn search_records_follow_the_order_of_the_lines() {
    let lines = vec![
        String::from("x needle"),
        String::from("nothing"),
        String::from("needle"),
        String::from("ж needle needle"),
    ];
    assert_eq!(
        search_impl(lines, "needle"),
        vec![
            record(1, (2, 8), (2, 8)),
            record(3, (0, 6), (0, 6)),
            record(4, (3, 9), (2, 8)),
        ]
    );
}

#[test]
fn search_lines_of_nothing_gives_nothing() {
    let lines: Vec<Vec<u8>> = Vec::new();
    assert!(search_lines(&lines, "zxc").is_empty());
}

#[test]
fn search_lines_matches_raw_text() {
    let lines = vec![b"bla".to_vec(), b"zxc".to_vec(), b"qwe".to_vec()];
    assert_eq!(search_lines(&lines, "zxc"), vec![record(2, (0, 3), (0, 3))]);
}

#[test]
fn search_lines_keeps_numbering_past_undecodable_lines() {
    let lines = vec![
        b"bla".to_vec(),
        vec![0xff, 0xfe, b'b', b'l', b'a'],
        b"qwe".to_vec(),
        vec![0xc3],
        b"a bla".to_vec(),
    ];
    assert_eq!(
        search_lines(&lines, "bla"),
        vec![record(1, (0, 3), (0, 3)), record(5, (2, 5), (2, 5))]
    );
}

#[test]
fn search_lines_drops_a_line_that_is_almost_text() {
    // an overlong encoding of '/' and a lone surrogate are no UTF-8
    let lines = vec![
        vec![0xc0, 0xaf, b'x'],
        vec![0xed, 0xa0, 0x80, b'x'],
        "ёx".as_bytes().to_vec(),
    ];
    assert_eq!(search_lines(&lines, "x"), vec![record(3, (2, 3), (1, 2))]);
}

#[test]
fn search_bytes_numbers_lines_of_mixed_terminators() {
    let content = b"bla\r\nzxc\nqwe\rbla";
    assert_eq!(
        search_bytes(content, "bla"),
        vec![record(1, (0, 3), (0, 3)), record(4, (0, 3), (0, 3))]
    );
}

#[test]
fn search_bytes_counts_empty_and_undecodable_lines() {
    let mut content = Vec::new();
    content.extend_from_slice(b"\n");
    content.extend_from_slice(&[0xff, b'z', b'x', b'c', b'\n']);
    content.extend_from_slice("йцу zxc\n".as_bytes());
    assert_eq!(search_bytes(&content, "zxc"), vec![record(3, (7, 10), (4, 7))]);
}

#[test]
fn search_bytes_of_nothing_gives_nothing() {
    assert!(search_bytes(b"", "zxc").is_empty());
}

#[test]
fn search_bytes_never_matches_across_lines() {
    assert!(search_bytes(b"zx\nc", "zxc").is_empty());
    assert!(search_bytes(b"a\nb", "\n").is_empty());
}
