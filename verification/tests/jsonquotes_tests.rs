use fstsed::jsonquotes::{jsonquotes_range_iter, JsonQuotes};

#[test]
fn empty_line_has_no_ranges() {
    assert_eq!(jsonquotes_range_iter(b""), Vec::<(usize, usize)>::new());
}

#[test]
fn line_without_quotes_has_no_ranges() {
    assert_eq!(jsonquotes_range_iter(b"{1: [2, 3]}\n"), Vec::<(usize, usize)>::new());
}

#[test]
fn ranges_include_both_quotes() {
    let line = b"{\"key\":\"abc\",\"v\":1}";
    let ranges = jsonquotes_range_iter(line);
    assert_eq!(ranges, vec![(1, 6), (7, 12), (13, 16)]);
    assert_eq!(&line[1..6], b"\"key\"");
    assert_eq!(&line[7..12], b"\"abc\"");
    assert_eq!(&line[13..16], b"\"v\"");
}

#[test]
fn escaped_quote_does_not_end_a_string() {
    let line = b"{\"t\":\"abc\\\" and abc\"}";
    let ranges = jsonquotes_range_iter(line);
    assert_eq!(ranges, vec![(1, 4), (5, 20)]);
    assert_eq!(&line[5..20], b"\"abc\\\" and abc\"");
}

#[test]
fn paired_backslashes_do_not_escape_a_quote() {
    // {"a":"x\\"}  the string is x followed by one backslash
    let line = b"{\"a\":\"x\\\\\"}";
    assert_eq!(jsonquotes_range_iter(line), vec![(1, 4), (5, 10)]);
}

#[test]
fn three_backslashes_escape_a_quote() {
    // {"a":"x\\\"y"}
    let line = b"{\"a\":\"x\\\\\\\"y\"}";
    assert_eq!(jsonquotes_range_iter(line), vec![(1, 4), (5, 13)]);
}

#[test]
fn unterminated_string_is_dropped() {
    assert_eq!(jsonquotes_range_iter(b"\"a\" \"bc"), vec![(0, 3)]);
    assert_eq!(jsonquotes_range_iter(b"\"abc"), Vec::<(usize, usize)>::new());
}

#[test]
fn adjacent_strings_are_kept_apart() {
    assert_eq!(jsonquotes_range_iter(b"\"\"\"\""), vec![(0, 2), (2, 4)]);
}

#[test]
fn backslash_at_the_very_start_escapes() {
    let mut cursor = JsonQuotes::new(b"\\\"");
    assert_eq!(cursor.next(), None);
    assert_eq!(jsonquotes_range_iter(b"\\\"a\""), Vec::<(usize, usize)>::new());
    assert_eq!(jsonquotes_range_iter(b"\\\"a\" \"b\""), vec![(3, 6)]);
}

#[test]
fn backslash_right_behind_an_opening_quote_at_the_start_escapes() {
    // the string whose content is one double quote
    assert_eq!(jsonquotes_range_iter(b"\"\\\"\""), vec![(0, 4)]);
    assert_eq!(jsonquotes_range_iter(b"\"\\\"x\""), vec![(0, 5)]);
    assert_eq!(jsonquotes_range_iter(b" \"\\\"x\""), vec![(1, 6)]);
    // two backslashes are a pair, the quote behind them ends the string
    assert_eq!(jsonquotes_range_iter(b"\"\\\\\" \"a\""), vec![(0, 4), (5, 8)]);
    let mut cursor = JsonQuotes::new(b"\"\\\"");
    assert_eq!(cursor.next(), Some(0));
    assert_eq!(cursor.next(), None);
}

#[test]
fn reported_quotes_have_an_even_run_of_backslashes_before_them() {
    let line: &[u8] = b"\\\"a\\\\\"b\\\\\\\"c\"\\";
    let mut cursor = JsonQuotes::new(line);
    let mut reported = Vec::new();
    while let Some(index) = cursor.next() {
        reported.push(index);
    }
    let mut expected = Vec::new();
    for (index, &byte) in line.iter().enumerate() {
        let run = line[..index].iter().rev().take_while(|&&b| b == b'\\').count();
        if byte == b'"' && run % 2 == 0 {
            expected.push(index);
        }
    }
    assert_eq!(reported, expected);
    assert_eq!(reported, vec![5, 12]);
}

#[test]
fn cursor_reports_each_structural_quote_once() {
    let line = b"a\"b\\\"c\"d";
    let mut cursor = JsonQuotes::new(line);
    assert_eq!(cursor.next(), Some(1));
    assert_eq!(cursor.next(), Some(6));
    assert_eq!(cursor.next(), None);
    assert_eq!(cursor.next(), None);
}

#[test]
fn ranges_agree_with_a_lexer_on_well_formed_lines() {
    // a small lexer of JSON strings, as a check on concrete lines
    fn lexer(line: &[u8]) -> Vec<(usize, usize)> {
        let mut ranges = Vec::new();
        let mut open: Option<usize> = None;
        let mut escaped = false;
        for (i, &byte) in line.iter().enumerate() {
            match open {
                None => {
                    if byte == b'"' {
                        open = Some(i);
                    }
                }
                Some(start) => {
                    if escaped {
                        escaped = false;
                    } else if byte == b'\\' {
                        escaped = true;
                    } else if byte == b'"' {
                        ranges.push((start, i + 1));
                        open = None;
                    }
                }
            }
        }
        ranges
    }
    let lines: Vec<&[u8]> = vec![
        b"{\"a\":\"b\"}",
        b"{\"a\":\"b\\\\\",\"c\":\"\\\"\"}",
        b"[\"\\u0041\", \"\\n\", \"x\\\\\\\\\"]",
        b"{\"k\":{\"n\":[\"a\",\"b\\\"c\"]}}\n",
        b"\"\\n\"",
        b"\"\\\"\"",
        b"\"\\\\\"",
        b"\"\\\\\\\"x\"",
    ];
    for line in lines {
        assert_eq!(jsonquotes_range_iter(line), lexer(line));
    }
}
