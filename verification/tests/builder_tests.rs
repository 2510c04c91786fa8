use fstsed::builder::{build_fstsed, make_record, BuildError, LineOutcome, Records};
use fstsed::driver::process_line;
use fstsed::fstsed::{ColorChoice, FstSed};

fn as_lines(lines: &[&str]) -> Vec<Vec<u8>> {
    lines.iter().map(|line| line.as_bytes().to_vec()).collect()
}

fn stored_keys(bytes: &[u8]) -> Vec<Vec<u8>> {
    let set = fst::Set::new(bytes.to_vec()).unwrap();
    let mut keys = Vec::new();
    let mut stream = fst::IntoStreamer::into_stream(&set);
    while let Some(key) = fst::Streamer::next(&mut stream) {
        keys.push(key.to_vec());
    }
    keys
}

#[test]
fn record_is_key_sentinel_and_compressed_line() {
    let line = b"{\"key\":\"abc\",\"v\":1}";
    let record = make_record(line, "key").unwrap();
    assert_eq!(&record[..4], b"abc\x00");
    assert_eq!(zstd::stream::decode_all(&record[4..]).unwrap(), line.to_vec());
    assert_eq!(&record[4..], &zstd::stream::encode_all(&line[..], 3).unwrap()[..]);
}

#[test]
fn record_needs_a_string_under_the_key() {
    assert!(make_record(b"{\"key\":1}", "key").is_none());
    assert!(make_record(b"{\"other\":\"abc\"}", "key").is_none());
    assert!(make_record(b"not json", "key").is_none());
    assert!(make_record(b"[\"abc\"]", "key").is_none());
    assert!(make_record(b"{\"key\":\"abc\"", "key").is_none());
    assert!(make_record(b"{\"key\":null}", "key").is_none());
}

#[test]
fn key_can_be_a_json_pointer() {
    let line = b"{\"a\":{\"b\":\"deep\"},\"/a/b\":\"flat\",\"list\":[\"zero\",\"one\"]}";
    assert_eq!(&make_record(line, "/a/b").unwrap()[..5], b"deep\x00");
    assert_eq!(&make_record(line, "/list/1").unwrap()[..4], b"one\x00");
    assert!(make_record(line, "/a").is_none());
    assert!(make_record(line, "/a/c").is_none());
    assert!(make_record(line, "a/b").is_none());
}

#[test]
fn key_with_the_sentinel_gives_no_record() {
    assert!(make_record(b"{\"key\":\"a\\u0000b\"}", "key").is_none());
    assert!(make_record(b"{\"key\":\"\\u0000\"}", "key").is_none());
    assert!(make_record(b"{\"key\":\"ab\",\"v\":\"\\u0000\"}", "key").is_some());
    let lines = as_lines(&["{\"key\":\"a\\u0000b\"}", "{\"key\":\"ab\"}"]);
    let built = build_fstsed(&lines, "key", false).unwrap();
    assert_eq!((built.accepted(), built.errors(), built.blanks()), (1, 1, 0));
    for key in stored_keys(built.bytes()) {
        let split = key.iter().position(|&byte| byte == 0).unwrap();
        assert_eq!(&key[..split], b"ab");
    }
}

#[test]
fn key_of_other_scripts_is_stored_as_utf8() {
    let line = "{\"key\":\"\u{fc}ber\"}";
    let record = make_record(line.as_bytes(), "key").unwrap();
    assert_eq!(&record[..6], b"\xc3\xbcber\x00");
}

#[test]
fn lines_are_counted() {
    let lines = as_lines(&[
        "{\"key\":\"b\"}",
        "",
        "garbage",
        "{\"key\":\"a\"}",
        "{\"nokey\":\"a\"}",
        "",
        "{\"key\":7}",
    ]);
    let built = build_fstsed(&lines, "key", false).unwrap();
    assert_eq!(built.accepted(), 2);
    assert_eq!(built.errors(), 3);
    assert_eq!(built.blanks(), 2);
    let keys = stored_keys(built.bytes());
    assert_eq!(keys.len(), 2);
    assert_eq!(&keys[0][..2], b"a\x00");
    assert_eq!(&keys[1][..2], b"b\x00");
}

#[test]
fn no_lines_give_an_empty_transducer() {
    let built = build_fstsed(&Vec::new(), "key", false).unwrap();
    assert_eq!((built.accepted(), built.errors(), built.blanks()), (0, 0, 0));
    assert_eq!(stored_keys(built.bytes()).len(), 0);
    let mut engine = FstSed::from_built(built, None, ColorChoice::Never).unwrap();
    assert_eq!(engine.longest_match(b"abc"), None);
}

#[test]
fn records_are_sorted_unless_the_caller_vouches() {
    let lines = as_lines(&["{\"key\":\"b\"}", "{\"key\":\"a\"}"]);
    assert!(build_fstsed(&lines, "key", false).is_ok());
    assert_eq!(build_fstsed(&lines, "key", true).err(), Some(BuildError::OutOfOrder));
    let lines = as_lines(&["{\"key\":\"a\"}", "{\"key\":\"b\"}"]);
    let sorted = build_fstsed(&lines, "key", true).unwrap();
    let unsorted = build_fstsed(&lines, "key", false).unwrap();
    assert_eq!(sorted.bytes(), unsorted.bytes());
}

#[test]
fn same_line_twice_is_one_record() {
    let lines = as_lines(&["{\"key\":\"a\"}", "{\"key\":\"a\"}"]);
    let built = build_fstsed(&lines, "key", false).unwrap();
    assert_eq!(built.accepted(), 2);
    assert_eq!(stored_keys(built.bytes()).len(), 1);
}

#[test]
fn building_twice_gives_the_same_bytes() {
    let lines = as_lines(&[
        "{\"key\":\"hello world\",\"v\":7}",
        "{\"key\":\"abc\",\"v\":1}",
        "",
        "{\"key\":\"abd\",\"v\":2}",
    ]);
    let first = build_fstsed(&lines, "key", false).unwrap();
    let second = build_fstsed(&lines, "key", false).unwrap();
    assert_eq!(first.bytes(), second.bytes());
    assert!(!first.bytes().is_empty());
}

#[test]
fn order_of_the_lines_does_not_matter_when_sorting() {
    let forward = as_lines(&["{\"key\":\"a\"}", "{\"key\":\"b\"}", "{\"key\":\"c\"}"]);
    let backward = as_lines(&["{\"key\":\"c\"}", "{\"key\":\"b\"}", "{\"key\":\"a\"}"]);
    assert_eq!(
        build_fstsed(&forward, "key", false).unwrap().into_bytes(),
        build_fstsed(&backward, "key", false).unwrap().into_bytes()
    );
}

#[test]
fn lines_can_be_added_one_by_one() {
    let mut records = Records::new("key");
    assert_eq!(records.add_line(b""), LineOutcome::Blank);
    assert_eq!(records.add_line(b"{\"key\":\"b\"}"), LineOutcome::Accepted);
    assert_eq!(records.add_line(b"{\"key\":3}"), LineOutcome::Rejected);
    assert_eq!(records.add_line(b"{\"key\":\"a\"}"), LineOutcome::Accepted);
    assert_eq!(records.accepted(), 2);
    assert_eq!(records.errors(), 1);
    assert_eq!(records.blanks(), 1);
    let built = records.finish(false).unwrap();
    assert_eq!((built.accepted(), built.errors(), built.blanks()), (2, 1, 1));
    let whole = build_fstsed(&as_lines(&["{\"key\":\"b\"}", "{\"key\":\"a\"}"]), "key", false);
    assert_eq!(built.into_bytes(), whole.unwrap().into_bytes());
}

#[test]
fn what_is_built_can_be_searched() {
    let source = [
        "{\"key\":\"hello world\",\"v\":\"seven\"}",
        "{\"key\":\"abc\",\"v\":\"one\"}",
        "{\"key\":\"\u{fc}ber\",\"v\":\"over\"}",
    ];
    let built = build_fstsed(&as_lines(&source), "key", false).unwrap();
    let mut engine =
        FstSed::from_built(built, Some("{value}".to_string()), ColorChoice::Never).unwrap();
    for line in source {
        let key: serde_json::Value = serde_json::from_str(line).unwrap();
        let key = key.get("key").unwrap().as_str().unwrap().to_string();
        let text = format!("see {} there", key);
        let mut out = Vec::new();
        process_line(text.as_bytes(), &mut engine, &mut out);
        assert_eq!(String::from_utf8(out).unwrap(), format!("see {} there", line));
    }
}
