use fstsed::builder::build_fstsed;
use fstsed::fstsed::{ColorChoice, FstSed, OpenError};

fn as_lines(lines: &[&str]) -> Vec<Vec<u8>> {
    lines.iter().map(|line| line.as_bytes().to_vec()).collect()
}

fn sample_lines() -> Vec<Vec<u8>> {
    as_lines(&["{\"key\":\"abc\",\"v\":1}", "{\"key\":\"hello world\",\"v\":7}"])
}

fn engine_over(lines: &[&str], template: Option<&str>) -> FstSed {
    let built = build_fstsed(&as_lines(lines), "key", false).unwrap();
    FstSed::from_built(built, template.map(String::from), ColorChoice::Never).unwrap()
}

fn sample_engine(template: Option<&str>) -> FstSed {
    let built = build_fstsed(&sample_lines(), "key", false).unwrap();
    FstSed::from_built(built, template.map(String::from), ColorChoice::Never).unwrap()
}

fn raw_engine(records: Vec<Vec<u8>>, template: &str) -> FstSed {
    let mut sorted = records;
    sorted.sort();
    let mut builder = fst::SetBuilder::memory();
    for record in &sorted {
        builder.insert(record).unwrap();
    }
    let bytes = builder.into_inner().unwrap();
    FstSed::new(bytes, Some(template.to_string()), ColorChoice::Never).unwrap()
}

fn all_starts(engine: &mut FstSed, text: &[u8]) -> Vec<(usize, usize)> {
    let mut scan = engine.find_iter(text);
    let mut found = Vec::new();
    while let Some(start) = scan.next(engine) {
        assert_eq!(engine.get_match_start(), start);
        found.push((start, engine.get_match_len()));
    }
    found
}

#[test]
fn match_at_the_start_of_a_line() {
    let mut engine = sample_engine(None);
    assert_eq!(engine.longest_match(b"abc"), Some(3));
    assert_eq!(engine.get_match_start(), 0);
    assert_eq!(engine.get_match_len(), 3);
    let found = engine.get_match();
    assert_eq!(found.get_field("key"), "abc");
    assert_eq!(found.get_field("value"), "{\"key\":\"abc\",\"v\":1}");
}

#[test]
fn match_needs_a_boundary_behind_it() {
    let mut engine = sample_engine(None);
    assert_eq!(engine.longest_match(b"abcfoo"), None);
    assert_eq!(engine.longest_match(b"abc_"), None);
    assert_eq!(engine.longest_match(b"abc9"), None);
    assert_eq!(engine.longest_match(b"abc:foo"), Some(3));
    assert_eq!(engine.longest_match(b"abc-foo"), Some(3));
    assert_eq!(engine.longest_match(b"abc\n"), Some(3));
    assert_eq!(engine.longest_match(b"abc\xc3\xa9"), Some(3));
}

#[test]
fn failed_match_clears_the_scratch() {
    let mut engine = sample_engine(None);
    assert_eq!(engine.longest_match_at(b"xx abc", 3), Some(3));
    assert_eq!(engine.get_match_start(), 3);
    assert_eq!(engine.longest_match(b"nothing"), None);
    assert_eq!(engine.get_match_len(), 0);
    assert_eq!(engine.get_match_start(), 0);
}

#[test]
fn match_at_the_end_of_the_text_is_none() {
    let mut engine = sample_engine(None);
    assert_eq!(engine.longest_match_at(b"abc", 3), None);
    assert_eq!(engine.longest_match(b""), None);
}

#[test]
fn longer_key_wins() {
    let mut engine = engine_over(&["{\"key\":\"ab\"}", "{\"key\":\"abc\"}"], Some("{value}"));
    assert_eq!(engine.longest_match(b"abc "), Some(3));
    assert_eq!(engine.get_match().render(), "{\"key\":\"abc\"}");
    assert_eq!(engine.longest_match(b"ab "), Some(2));
    assert_eq!(engine.get_match().render(), "{\"key\":\"ab\"}");
    // the longer key runs into a word byte, the shorter one does not match
    // either, because a word byte follows it too
    assert_eq!(engine.longest_match(b"abcd"), None);
    // the shorter key is kept where the longer one does not end on a boundary
    let mut engine = engine_over(&["{\"key\":\"a\"}", "{\"key\":\"a bc\"}"], None);
    assert_eq!(engine.longest_match(b"a bcd"), Some(1));
    assert_eq!(engine.get_match().get_field("key"), "a");
    assert_eq!(engine.longest_match(b"a bc d"), Some(4));
}

#[test]
fn key_with_a_space_matches_across_words() {
    let mut engine = sample_engine(None);
    assert_eq!(engine.longest_match_at(b"say hello world!", 4), Some(11));
    assert_eq!(engine.longest_match_at(b"say hello worlds", 4), None);
}

#[test]
fn no_match_inside_a_longer_word() {
    let mut engine = engine_over(&["{\"key\":\"foo\"}"], None);
    assert_eq!(engine.longest_match(b"foobar"), None);
    assert_eq!(all_starts(&mut engine, b"foobar"), vec![]);
    assert_eq!(all_starts(&mut engine, b"foo bar"), vec![(0, 3)]);
}

#[test]
fn scan_finds_matches_behind_seed_bytes() {
    let mut engine = sample_engine(None);
    assert_eq!(all_starts(&mut engine, b"xx abc yy"), vec![(3, 3)]);
    assert_eq!(all_starts(&mut engine, b"a,abc=abc\tabc\x07abc:abc\"abc\nabc"), vec![
        (2, 3),
        (6, 3),
        (10, 3),
        (14, 3),
        (18, 3),
        (22, 3),
        (26, 3),
    ]);
    assert_eq!(all_starts(&mut engine, b"x-abc"), vec![]);
    assert_eq!(all_starts(&mut engine, b",abc"), vec![(1, 3)]);
    assert_eq!(all_starts(&mut engine, b""), vec![]);
    assert_eq!(all_starts(&mut engine, b"abc\n"), vec![(0, 3)]);
}

#[test]
fn seed_right_behind_a_match_is_tried() {
    let mut engine = sample_engine(None);
    assert_eq!(all_starts(&mut engine, b"abc abc"), vec![(0, 3), (4, 3)]);
    assert_eq!(all_starts(&mut engine, b"abc  abc"), vec![(0, 3), (5, 3)]);
    assert_eq!(all_starts(&mut engine, b"abc and abc"), vec![(0, 3), (8, 3)]);
    assert_eq!(all_starts(&mut engine, b" abc abc  abc"), vec![(1, 3), (5, 3), (10, 3)]);
    assert_eq!(all_starts(&mut engine, b"abc,abc,abc"), vec![(0, 3), (4, 3), (8, 3)]);
    let mut scan = engine.find_iter(b"abc abc");
    assert_eq!(scan.next(&mut engine), Some(0));
    assert_eq!(engine.get_match_len(), 3);
    assert_eq!(scan.next(&mut engine), Some(4));
    assert_eq!(engine.get_match_len(), 3);
    assert_eq!(scan.next(&mut engine), None);
}

#[test]
fn seed_within_a_match_is_passed_over() {
    let mut engine = engine_over(&["{\"key\":\"a b\"}", "{\"key\":\"b\"}"], None);
    // the seed within "a b" is used up, so the "b" behind it is not a match
    // of its own
    assert_eq!(all_starts(&mut engine, b"a b b"), vec![(0, 3), (4, 1)]);
    assert_eq!(all_starts(&mut engine, b"x b b"), vec![(2, 1), (4, 1)]);
}

#[test]
fn matches_keep_to_boundaries_and_do_not_overlap() {
    let mut engine = engine_over(
        &["{\"key\":\"abc\"}", "{\"key\":\"abc abc\"}", "{\"key\":\"b\"}", "{\"key\":\"c,d\"}"],
        None,
    );
    let text = b"abc abc abc  b c,d:b=abc abcx,b\n";
    let found = all_starts(&mut engine, text);
    assert_eq!(found, vec![(0, 7), (8, 3), (13, 1), (15, 3), (19, 1), (21, 3), (30, 1)]);
    let seeds = b", \t\x07\n:=\"";
    for window in found.windows(2) {
        assert!(window[1].0 >= window[0].0 + window[0].1);
    }
    for &(start, len) in &found {
        assert!(start == 0 || seeds.contains(&text[start - 1]));
        let end = start + len;
        assert!(end == text.len() || !(text[end].is_ascii_alphanumeric() || text[end] == b'_'));
    }
}

#[test]
fn scan_leaves_an_empty_scratch_behind() {
    let mut engine = sample_engine(None);
    let mut scan = engine.find_iter(b"abc");
    assert_eq!(scan.next(&mut engine), Some(0));
    assert_eq!(engine.get_match_len(), 3);
    assert_eq!(scan.next(&mut engine), None);
    assert_eq!(engine.get_match_len(), 0);
    assert_eq!(scan.next(&mut engine), None);
}

#[test]
fn default_template_shows_key_and_value() {
    let mut engine = sample_engine(None);
    assert_eq!(engine.template(), "<{key}|{value}>");
    assert_eq!(engine.longest_match(b"abc"), Some(3));
    assert_eq!(engine.get_match().render(), "<abc|{\"key\":\"abc\",\"v\":1}>");
}

#[test]
fn color_always_wraps_the_template() {
    let built = build_fstsed(&sample_lines(), "key", false).unwrap();
    let mut engine = FstSed::from_built(built, None, ColorChoice::Always).unwrap();
    assert_eq!(engine.color(), ColorChoice::Always);
    assert_eq!(engine.template(), "\x1b[1;31m<{key}|{value}>\x1b[0;0m");
    assert_eq!(engine.longest_match(b"abc"), Some(3));
    assert_eq!(
        engine.get_match().render(),
        "\x1b[1;31m<abc|{\"key\":\"abc\",\"v\":1}>\x1b[0;0m"
    );
    let built = build_fstsed(&sample_lines(), "key", false).unwrap();
    let engine = FstSed::new(built.into_bytes(), Some("{key}".to_string()), ColorChoice::Auto)
        .unwrap();
    assert_eq!(engine.template(), "{key}");
    assert_eq!(engine.color(), ColorChoice::Auto);
}

#[test]
fn template_fields_come_from_the_stored_line() {
    let lines = ["{\"key\":\"abc\",\"name\":\"Alpha\",\"n\":5,\"in\":{\"er\":\"deep\",\"list\":[\"x\",\"y\"]}}"];
    let mut engine = engine_over(&lines, Some("{name}/{/in/er}/{/in/list/1}/{n}/{missing}/{/in}"));
    assert_eq!(engine.longest_match(b"abc"), Some(3));
    let found = engine.get_match();
    assert_eq!(found.get_field("name"), "Alpha");
    assert_eq!(found.get_field("/in/er"), "deep");
    assert_eq!(found.get_field("/in/list/0"), "x");
    assert_eq!(found.get_field("n"), "");
    assert_eq!(found.get_field("missing"), "");
    assert_eq!(found.get_field(""), "");
    assert_eq!(found.get_field("/"), "");
    assert_eq!(found.render(), "Alpha/deep/y///");
}

#[test]
fn fields_are_empty_where_the_template_asks_for_none() {
    let lines = ["{\"key\":\"abc\",\"name\":\"Alpha\"}"];
    let mut engine = engine_over(&lines, Some("{key}"));
    assert_eq!(engine.longest_match(b"abc"), Some(3));
    let found = engine.get_match();
    assert_eq!(found.get_field("name"), "");
    assert_eq!(found.get_field("key"), "abc");
}

#[test]
fn key_that_is_no_text_reads_as_an_error() {
    let mut record = vec![0xffu8, 0x00];
    record.extend(zstd::stream::encode_all(&b"plain"[..], 3).unwrap());
    let mut engine = raw_engine(vec![record], "{key}|{value}");
    assert_eq!(engine.longest_match(b"\xff"), Some(1));
    assert_eq!(engine.get_match().render(), "<keyerror>|plain");
}

#[test]
fn value_that_is_no_text_reads_as_an_error() {
    let mut record = b"k\x00".to_vec();
    record.extend(zstd::stream::encode_all(&b"\xff\xfe"[..], 3).unwrap());
    let mut engine = raw_engine(vec![record], "{key}|{value}|{x}");
    assert_eq!(engine.longest_match(b"k"), Some(1));
    assert_eq!(engine.get_match().render(), "k|<valueerror>|");
}

#[test]
fn value_that_cannot_be_decompressed_reads_as_an_error() {
    let mut engine = raw_engine(vec![b"k\x00not a frame".to_vec()], "{key}|{value}");
    assert_eq!(engine.longest_match(b"k"), Some(1));
    assert_eq!(engine.get_match().render(), "k|<decompressionerror>");
}

#[test]
fn value_is_read_up_to_the_first_end() {
    // two records under one key: the one that sorts first is the value
    let mut first = b"k\x00".to_vec();
    first.extend(zstd::stream::encode_all(&b"one"[..], 3).unwrap());
    let mut second = b"k\x00".to_vec();
    second.extend(zstd::stream::encode_all(&b"two, and longer than one"[..], 3).unwrap());
    let lower = if first < second { "one" } else { "two, and longer than one" };
    let mut engine = raw_engine(vec![first, second], "{value}");
    assert_eq!(engine.longest_match(b"k"), Some(1));
    assert_eq!(engine.get_match().render(), lower);
}

#[test]
fn bytes_that_are_no_transducer_are_refused() {
    assert_eq!(FstSed::new(Vec::new(), None, ColorChoice::Never).err(), Some(OpenError::Format));
    assert_eq!(
        FstSed::new(b"not a transducer".to_vec(), None, ColorChoice::Never).err(),
        Some(OpenError::Format)
    );
    assert_eq!(
        FstSed::new(vec![0u8; 64], None, ColorChoice::Never).err(),
        Some(OpenError::Format)
    );
}

#[test]
fn damaged_transducer_is_refused() {
    let built = build_fstsed(&sample_lines(), "key", false).unwrap();
    let mut bytes = built.into_bytes();
    let middle = bytes.len() / 2;
    bytes[middle] ^= 0x55;
    assert_eq!(FstSed::new(bytes, None, ColorChoice::Never).err(), Some(OpenError::Checksum));
}

#[test]
fn transducer_without_a_checksum_is_opened() {
    // the format before checksums: the same bytes under version 2, without
    // the four bytes of the checksum at their end
    let built = build_fstsed(&sample_lines(), "key", false).unwrap();
    let mut bytes = built.into_bytes();
    bytes[..8].copy_from_slice(&2u64.to_le_bytes());
    bytes.truncate(bytes.len() - 4);
    let mut engine = FstSed::new(bytes, Some("{key}".to_string()), ColorChoice::Never).unwrap();
    assert_eq!(engine.longest_match(b"abc"), Some(3));
    assert_eq!(engine.get_match().render(), "abc");
}

#[test]
fn clear_empties_the_scratch() {
    let mut engine = sample_engine(None);
    assert_eq!(engine.longest_match_at(b" abc", 1), Some(3));
    engine.clear();
    assert_eq!(engine.get_match_len(), 0);
    assert_eq!(engine.get_match_start(), 0);
    assert_eq!(engine.get_match().render(), "<|<decompressionerror>>");
}
