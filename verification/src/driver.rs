//! Rewrites one line at a time: as it is, match by match, or within the
//! string literals of a line of JSON.

use vstd::prelude::*;
use vstd::slice::slice_subrange;
use vstd::utf8::decode_utf8;
use vstd::utf8::encode_utf8;
use vstd::utf8::encode_utf8_decode_utf8;
use vstd::utf8::encode_utf8_valid_utf8;
use vstd::utf8::is_char_boundary_iff_not_is_continuation_byte;
use vstd::utf8::partial_valid_partial_invalid_utf8;
use vstd::utf8::partial_valid_utf8_extend_ascii_block;
use vstd::utf8::valid_utf8;
use vstd::utf8::valid_utf8_concat;
use vstd::utf8::valid_utf8_split;
use crate::codec::{
    json_string_decode, json_string_encode, read_json_string, text_of, write_json_string,
};
use crate::builder::{
    free_of_sentinel, law_record_parts_at_first_sentinel, record_of, records_upto,
};
use crate::fstsed::{FstSed, Setup};
use crate::matching::{is_candidate, lemma_longest_upto};
use crate::transducer::{
    accepts, lemma_no_dead_end, lemma_walk_push, stores_exactly, well_linked, SENTINEL,
};
use crate::codec::json_lookup;
use crate::jsonquotes::{
    as_ranges, jsonquotes_range_iter, lemma_quote_ranges_in_order, quote_ranges, ranges_in_order,
};
use crate::matching::{
    all_matches, lemma_all_matches, lemma_longest_match_bounds, orderly, seed_byte,
};

verus! {

/// The byte that ends a line.
pub const LINE_FEED: u8 = 10;

/// Where the match before the one with index `k` ends: the start of the
/// line for the first one.
pub open spec fn end_before(found: Seq<(int, int)>, k: int) -> int {
    if k <= 0 {
        0
    } else {
        found[k - 1].0 + found[k - 1].1
    }
}

/// The line up to the end of the match with index `k - 1`, with each match
/// written through the template and the text between the matches kept.
pub open spec fn written_upto(setup: Setup, text: Seq<u8>, found: Seq<(int, int)>, k: int) -> Seq<
    u8,
>
    decreases k,
{
    if k <= 0 {
        Seq::empty()
    } else {
        written_upto(setup, text, found, k - 1) + text.subrange(
            end_before(found, k - 1),
            found[k - 1].0,
        ) + setup.match_bytes(text, found[k - 1].0, found[k - 1].1)
    }
}

/// The line with every match that a scan finds written through the
/// template, and all else as it stands.
pub open spec fn plain_output(setup: Setup, text: Seq<u8>) -> Seq<u8> {
    let found = all_matches(setup.automaton, text);
    written_upto(setup, text, found, found.len() as int) + text.subrange(
        end_before(found, found.len() as int),
        text.len() as int,
    )
}

/// The first `k` matches, each written through the template and followed
/// by a line feed.
pub open spec fn listed_upto(setup: Setup, text: Seq<u8>, found: Seq<(int, int)>, k: int) -> Seq<
    u8,
>
    decreases k,
{
    if k <= 0 {
        Seq::empty()
    } else {
        listed_upto(setup, text, found, k - 1) + setup.match_bytes(
            text,
            found[k - 1].0,
            found[k - 1].1,
        ).push(LINE_FEED)
    }
}

/// Every match that a scan of the line finds, written through the template
/// and followed by a line feed, and nothing else of the line.
pub open spec fn only_matching_output(setup: Setup, text: Seq<u8>) -> Seq<u8> {
    let found = all_matches(setup.automaton, text);
    listed_upto(setup, text, found, found.len() as int)
}

/// Rewrites `input` onto the end of `out`: every match that a scan finds
/// is written through the template, and the rest of the line is kept.
pub fn process_line(input: &[u8], fsed: &mut FstSed, out: &mut Vec<u8>)
    ensures
        final(fsed).setup() == old(fsed).setup(),
        final(out)@ == old(out)@ + plain_output(old(fsed).setup(), input@),
{
    let ghost setup = fsed.setup();
    let ghost text = input@;
    let ghost found = all_matches(setup.automaton, text);
    let ghost mut k: int = 0;
    let n: usize = input.len();
    let mut lastpos: usize = 0;
    let mut scan = fsed.find_iter(input);
    let mut done: bool = false;
    proof {
        lemma_all_matches(setup.automaton, text);
        assert(found.skip(0) =~= found);
        assert(old(out)@ + written_upto(setup, text, found, 0) =~= old(out)@);
    }
    while !done
        invariant
            n == text.len(),
            text == input@,
            scan.text() == text,
            fsed.setup() == setup,
            found == all_matches(setup.automaton, text),
            orderly(setup.automaton, text, found, 0),
            0 <= k <= found.len(),
            !done ==> scan.pending(setup.automaton) == found.skip(k),
            done ==> k == found.len(),
            lastpos == end_before(found, k),
            lastpos <= n,
            out@ == old(out)@ + written_upto(setup, text, found, k),
        decreases found.len() - k + (if done { 0int } else { 1int }),
    {
        match scan.next(fsed) {
            None => {
                done = true;
            },
            Some(start) => {
                proof {
                    assert(found.skip(k)[0] == found[k]);
                    assert(found.skip(k).drop_first() =~= found.skip(k + 1));
                    lemma_longest_match_bounds(setup.automaton, text, found[k].0);
                    if k > 0 {
                        assert(found[k - 1].0 + found[k - 1].1 + 1 <= found[k].0);
                    }
                }
                let ghost earlier = out@;
                out.extend_from_slice(slice_subrange(input, lastpos, start));
                let rendered: String = fsed.get_match().render();
                out.extend_from_slice(rendered.as_str().as_bytes());
                lastpos = start + fsed.get_match_len();
                proof {
                    assert(out@ =~= earlier + text.subrange(end_before(found, k), found[k].0)
                        + setup.match_bytes(text, found[k].0, found[k].1));
                    k = k + 1;
                }
            },
        }
    }
    let ghost earlier = out@;
    out.extend_from_slice(slice_subrange(input, lastpos, n));
    proof {
        assert(out@ =~= old(out)@ + plain_output(setup, text));
    }
}

/// Writes every match that a scan of `input` finds onto the end of `out`,
/// each through the template and followed by a line feed.
pub fn process_line_only_matching(input: &[u8], fsed: &mut FstSed, out: &mut Vec<u8>)
    ensures
        final(fsed).setup() == old(fsed).setup(),
        final(out)@ == old(out)@ + only_matching_output(old(fsed).setup(), input@),
{
    let ghost setup = fsed.setup();
    let ghost text = input@;
    let ghost found = all_matches(setup.automaton, text);
    let ghost mut k: int = 0;
    let mut scan = fsed.find_iter(input);
    let mut done: bool = false;
    proof {
        assert(found.skip(0) =~= found);
        assert(old(out)@ + listed_upto(setup, text, found, 0) =~= old(out)@);
    }
    while !done
        invariant
            text == input@,
            scan.text() == text,
            fsed.setup() == setup,
            found == all_matches(setup.automaton, text),
            0 <= k <= found.len(),
            !done ==> scan.pending(setup.automaton) == found.skip(k),
            done ==> k == found.len(),
            out@ == old(out)@ + listed_upto(setup, text, found, k),
        decreases found.len() - k + (if done { 0int } else { 1int }),
    {
        match scan.next(fsed) {
            None => {
                done = true;
            },
            Some(start) => {
                proof {
                    assert(found.skip(k)[0] == found[k]);
                    assert(found.skip(k).drop_first() =~= found.skip(k + 1));
                }
                let ghost earlier = out@;
                let rendered: String = fsed.get_match().render();
                out.extend_from_slice(rendered.as_str().as_bytes());
                out.push(LINE_FEED);
                proof {
                    assert(out@ =~= earlier + setup.match_bytes(
                        text,
                        found[k].0,
                        found[k].1,
                    ).push(LINE_FEED));
                    k = k + 1;
                }
            },
        }
    }
}

/// What becomes of one string literal of a line of JSON.
///
/// The literal is read as JSON, the text it stands for is rewritten as a
/// line of its own, and the result is written as a JSON string literal
/// again. A literal that cannot be read, or whose rewritten text is no
/// UTF-8 or cannot be written, stays as it is.
pub open spec fn rewritten_literal(setup: Setup, literal: Seq<u8>) -> Seq<u8> {
    match json_string_decode(literal) {
        Some(text) => {
            let rewritten = plain_output(setup, encode_utf8(text));
            if valid_utf8(rewritten) {
                match json_string_encode(decode_utf8(rewritten)) {
                    Some(written) => written,
                    None => literal,
                }
            } else {
                literal
            }
        },
        None => literal,
    }
}

/// Whether the literal is rewritten safely. A literal that can be read,
/// and whose text is still UTF-8 when rewritten, is replaced by a JSON
/// string literal that stands for the rewritten text. Any other literal
/// stays as it is.
pub open spec fn safely_rewritten(setup: Setup, literal: Seq<u8>) -> bool {
    let written = rewritten_literal(setup, literal);
    match json_string_decode(literal) {
        Some(text) => {
            let rewritten = plain_output(setup, encode_utf8(text));
            if valid_utf8(rewritten) {
                json_string_decode(written) == Some(decode_utf8(rewritten))
            } else {
                written == literal
            }
        },
        None => written == literal,
    }
}

/// The string literals of a line, one for each range.
pub open spec fn literals(line: Seq<u8>, ranges: Seq<(int, int)>) -> Seq<Seq<u8>> {
    Seq::new(ranges.len(), |k: int| line.subrange(ranges[k].0, ranges[k].1))
}

/// The string literals of a line, each rewritten.
pub open spec fn rewritten_literals(setup: Setup, line: Seq<u8>, ranges: Seq<(int, int)>) -> Seq<
    Seq<u8>,
> {
    Seq::new(
        ranges.len(),
        |k: int| rewritten_literal(setup, line.subrange(ranges[k].0, ranges[k].1)),
    )
}

/// Where the range before the one with index `k` ends: the start of the
/// line for the first one.
pub open spec fn range_end_before(ranges: Seq<(int, int)>, k: int) -> int {
    if k <= 0 {
        0
    } else {
        ranges[k - 1].1
    }
}

/// The line up to the end of the range with index `k - 1`, with each range
/// replaced by the piece of the same index and all between them kept.
pub open spec fn woven_upto(
    line: Seq<u8>,
    ranges: Seq<(int, int)>,
    pieces: Seq<Seq<u8>>,
    k: int,
) -> Seq<u8>
    decreases k,
{
    if k <= 0 {
        Seq::empty()
    } else {
        woven_upto(line, ranges, pieces, k - 1) + line.subrange(
            range_end_before(ranges, k - 1),
            ranges[k - 1].0,
        ) + pieces[k - 1]
    }
}

/// The line with each range replaced by the piece of the same index, and
/// all outside the ranges kept byte for byte.
pub open spec fn woven(line: Seq<u8>, ranges: Seq<(int, int)>, pieces: Seq<Seq<u8>>) -> Seq<u8> {
    woven_upto(line, ranges, pieces, ranges.len() as int) + line.subrange(
        range_end_before(ranges, ranges.len() as int),
        line.len() as int,
    )
}

/// The line of JSON with each of its string literals rewritten, and all
/// outside the literals kept.
pub open spec fn json_output(setup: Setup, line: Seq<u8>) -> Seq<u8> {
    woven(line, quote_ranges(line), rewritten_literals(setup, line, quote_ranges(line)))
}

/// Writes what becomes of the string literal `literal` onto the end of
/// `out`.
pub fn rewrite_literal(literal: &[u8], fsed: &mut FstSed, out: &mut Vec<u8>)
    ensures
        final(fsed).setup() == old(fsed).setup(),
        final(out)@ == old(out)@ + rewritten_literal(old(fsed).setup(), literal@),
        safely_rewritten(old(fsed).setup(), literal@),
{
    match read_json_string(literal) {
        Some(text) => {
            let mut buffer: Vec<u8> = Vec::new();
            process_line(text.as_str().as_bytes(), fsed, &mut buffer);
            proof {
                assert(buffer@ =~= plain_output(old(fsed).setup(), encode_utf8(text@)));
            }
            match text_of(buffer.as_slice()) {
                Some(rewritten) => {
                    proof {
                        encode_utf8_decode_utf8(rewritten@);
                    }
                    match write_json_string(rewritten) {
                        Some(written) => {
                            out.extend_from_slice(written.as_slice());
                        },
                        None => {
                            out.extend_from_slice(literal);
                        },
                    }
                },
                None => {
                    out.extend_from_slice(literal);
                },
            }
        },
        None => {
            out.extend_from_slice(literal);
        },
    }
}

/// Rewrites the line of JSON `line` onto the end of `out`: each string
/// literal of the line is rewritten, and all outside the literals is kept
/// byte for byte. Each literal is rewritten safely.
pub fn process_json_line(line: &[u8], fsed: &mut FstSed, out: &mut Vec<u8>)
    ensures
        final(fsed).setup() == old(fsed).setup(),
        final(out)@ == old(out)@ + json_output(old(fsed).setup(), line@),
        forall|k: int|
            0 <= k < quote_ranges(line@).len() ==> safely_rewritten(
                old(fsed).setup(),
                #[trigger] literals(line@, quote_ranges(line@))[k],
            ),
{
    let ghost setup = fsed.setup();
    let ghost text = line@;
    let ghost spans = quote_ranges(text);
    let ghost pieces = rewritten_literals(setup, text, spans);
    let ranges: Vec<(usize, usize)> = jsonquotes_range_iter(line);
    let n: usize = line.len();
    let mut lastpos: usize = 0;
    let mut k: usize = 0;
    proof {
        lemma_quote_ranges_in_order(text);
        assert(old(out)@ + woven_upto(text, spans, pieces, 0) =~= old(out)@);
    }
    while k < ranges.len()
        invariant
            n == text.len(),
            text == line@,
            spans == quote_ranges(text),
            pieces == rewritten_literals(setup, text, spans),
            as_ranges(ranges@) == spans,
            ranges_in_order(spans, n as int),
            fsed.setup() == setup,
            k <= ranges@.len(),
            lastpos == range_end_before(spans, k as int),
            lastpos <= n,
            out@ == old(out)@ + woven_upto(text, spans, pieces, k as int),
            forall|j: int|
                0 <= j < k ==> safely_rewritten(setup, #[trigger] literals(text, spans)[j]),
        decreases ranges@.len() - k,
    {
        let (start, end) = ranges[k];
        proof {
            assert(spans[k as int] == (start as int, end as int));
            if k > 0 {
                assert(spans[k - 1].1 <= spans[k as int].0);
            }
        }
        let ghost earlier = out@;
        out.extend_from_slice(slice_subrange(line, lastpos, start));
        rewrite_literal(slice_subrange(line, start, end), fsed, out);
        proof {
            assert(pieces[k as int] == rewritten_literal(
                setup,
                text.subrange(start as int, end as int),
            ));
            assert(out@ =~= earlier + text.subrange(lastpos as int, start as int)
                + pieces[k as int]);
            assert(literals(text, spans)[k as int] == text.subrange(start as int, end as int));
        }
        lastpos = end;
        k += 1;
    }
    out.extend_from_slice(slice_subrange(line, lastpos, n));
    proof {
        assert(out@ =~= old(out)@ + json_output(setup, text));
    }
}

/// Outside its string literals a line of JSON comes through unchanged:
/// what is written for the line is the line with its literals replaced
/// one for one, and with the literals themselves as the replacements it
/// is the line again.
pub proof fn law_json_mode_keeps_the_rest(setup: Setup, line: Seq<u8>)
    ensures
        json_output(setup, line) == woven(
            line,
            quote_ranges(line),
            rewritten_literals(setup, line, quote_ranges(line)),
        ),
        woven(line, quote_ranges(line), literals(line, quote_ranges(line))) == line,
{
    let ranges = quote_ranges(line);
    lemma_quote_ranges_in_order(line);
    lemma_woven_literals(line, ranges, ranges.len() as int);
    assert(line.subrange(0, range_end_before(ranges, ranges.len() as int)) + line.subrange(
        range_end_before(ranges, ranges.len() as int),
        line.len() as int,
    ) =~= line);
}

/// With the literals themselves as pieces, the weaving gives back the line
/// up to where it has come.
proof fn lemma_woven_literals(line: Seq<u8>, ranges: Seq<(int, int)>, k: int)
    requires
        ranges_in_order(ranges, line.len() as int),
        0 <= k <= ranges.len(),
    ensures
        woven_upto(line, ranges, literals(line, ranges), k) == line.subrange(
            0,
            range_end_before(ranges, k),
        ),
        0 <= range_end_before(ranges, k) <= line.len(),
    decreases k,
{
    if k > 0 {
        lemma_woven_literals(line, ranges, k - 1);
        let last = ranges[k - 1];
        if k > 1 {
            assert(ranges[k - 2].1 <= ranges[k - 1].0);
        }
        assert(line.subrange(0, range_end_before(ranges, k - 1)) + line.subrange(
            range_end_before(ranges, k - 1),
            last.0,
        ) + line.subrange(last.0, last.1) =~= line.subrange(0, last.1));
    } else {
        assert(line.subrange(0, 0) =~= Seq::<u8>::empty());
    }
}

/// Whether every match that a scan of `text` finds is text itself: the
/// bytes of its key are UTF-8.
pub open spec fn matches_are_text(setup: Setup, text: Seq<u8>) -> bool {
    let found = all_matches(setup.automaton, text);
    forall|k: int|
        0 <= k < found.len() ==> valid_utf8(
            text.subrange((#[trigger] found[k]).0, found[k].0 + found[k].1),
        )
}

/// Text stays text up to where a match starts: the byte before is a seed
/// byte, and no character of more than one byte ends in one.
proof fn lemma_text_up_to_a_seed(text: Seq<u8>, start: int)
    requires
        valid_utf8(text),
        0 <= start <= text.len(),
        start == 0 || seed_byte(text[start - 1]),
    ensures
        valid_utf8(text.subrange(0, start)),
{
    if start == 0 {
        assert(text.subrange(0, 0) =~= Seq::<u8>::empty());
    } else {
        is_char_boundary_iff_not_is_continuation_byte(text, start - 1);
        valid_utf8_split(text, start - 1);
        partial_valid_utf8_extend_ascii_block(text, start - 1, start);
    }
}

/// Between two places up to which a line is text, the line is text.
proof fn lemma_text_between(text: Seq<u8>, from: int, to: int)
    requires
        0 <= from <= to <= text.len(),
        valid_utf8(text.subrange(0, from)),
        valid_utf8(text.subrange(0, to)),
    ensures
        valid_utf8(text.subrange(from, to)),
{
    let upto = text.subrange(0, to);
    assert(upto.subrange(0, from) =~= text.subrange(0, from));
    assert(upto.subrange(from, upto.len() as int) =~= text.subrange(from, to));
    if !valid_utf8(text.subrange(from, to)) {
        partial_valid_partial_invalid_utf8(upto, from);
    }
}

proof fn lemma_written_upto_is_text(setup: Setup, text: Seq<u8>, k: int)
    requires
        valid_utf8(text),
        matches_are_text(setup, text),
        0 <= k <= all_matches(setup.automaton, text).len(),
    ensures
        valid_utf8(written_upto(setup, text, all_matches(setup.automaton, text), k)),
        0 <= end_before(all_matches(setup.automaton, text), k) <= text.len(),
        valid_utf8(text.subrange(0, end_before(all_matches(setup.automaton, text), k))),
    decreases k,
{
    let found = all_matches(setup.automaton, text);
    if k == 0 {
        assert(text.subrange(0, 0) =~= Seq::<u8>::empty());
    } else {
        lemma_written_upto_is_text(setup, text, k - 1);
        lemma_all_matches(setup.automaton, text);
        let before = end_before(found, k - 1);
        let start = found[k - 1].0;
        let len = found[k - 1].1;
        lemma_longest_match_bounds(setup.automaton, text, start);
        if k > 1 {
            assert(found[k - 2].0 + found[k - 2].1 + 1 <= found[k - 1].0);
        }
        lemma_text_up_to_a_seed(text, start);
        lemma_text_between(text, before, start);
        let gap = text.subrange(before, start);
        let shown = setup.match_bytes(text, start, len);
        encode_utf8_valid_utf8(setup.match_text(text, start, len));
        let earlier = written_upto(setup, text, found, k - 1);
        valid_utf8_concat(earlier, gap);
        valid_utf8_concat(earlier + gap, shown);
        valid_utf8_concat(text.subrange(0, start), text.subrange(start, start + len));
        assert(text.subrange(0, start) + text.subrange(start, start + len) =~= text.subrange(
            0,
            start + len,
        ));
    }
}

/// A line of text is rewritten to text where every match in it is text:
/// what is written for it is UTF-8 again.
pub proof fn law_rewritten_text_stays_text(setup: Setup, text: Seq<u8>)
    requires
        valid_utf8(text),
        matches_are_text(setup, text),
    ensures
        valid_utf8(plain_output(setup, text)),
{
    let found = all_matches(setup.automaton, text);
    let n = found.len() as int;
    lemma_written_upto_is_text(setup, text, n);
    assert(text.subrange(0, text.len() as int) =~= text);
    lemma_text_between(text, end_before(found, n), text.len() as int);
    valid_utf8_concat(
        written_upto(setup, text, found, n),
        text.subrange(end_before(found, n), text.len() as int),
    );
}

/// A string literal that can be read, and in whose text every match is
/// text, does not stay as it is: what takes its place is a JSON string
/// literal that stands for the rewritten text.
pub proof fn law_literal_of_text_is_replaced(setup: Setup, literal: Seq<u8>)
    requires
        safely_rewritten(setup, literal),
        json_string_decode(literal) is Some,
        matches_are_text(setup, encode_utf8(json_string_decode(literal)->0)),
    ensures
        json_string_decode(rewritten_literal(setup, literal)) == Some(
            decode_utf8(plain_output(setup, encode_utf8(json_string_decode(literal)->0))),
        ),
{
    let text = encode_utf8(json_string_decode(literal)->0);
    encode_utf8_valid_utf8(json_string_decode(literal)->0);
    law_rewritten_text_stays_text(setup, text);
}

/// Whether the record starts with a key that is text and holds no
/// sentinel, and has its sentinel behind it.
pub open spec fn has_text_key(record: Seq<u8>) -> bool {
    exists|split: int|
        0 <= split < record.len() && #[trigger] record[split] == SENTINEL && free_of_sentinel(
            record.subrange(0, split),
        ) && valid_utf8(record.subrange(0, split))
}

/// Every record that lines give starts with a key that is text.
proof fn lemma_records_have_text_keys(lines: Seq<Seq<u8>>, key: Seq<char>, n: int, record: Seq<u8>)
    requires
        records_upto(lines, key, n).contains(record),
    ensures
        has_text_key(record),
    decreases n,
{
    if n > 0 {
        let line = lines[n - 1];
        let before = records_upto(lines, key, n - 1);
        if line.len() > 0 && record_of(line, key) is Some && record == record_of(line, key)->0 {
            law_record_parts_at_first_sentinel(line, key);
            let stored_key = encode_utf8(json_lookup(line, key)->0);
            encode_utf8_valid_utf8(json_lookup(line, key)->0);
            assert(record[stored_key.len() as int] == SENTINEL);
        } else {
            if line.len() > 0 && record_of(line, key) is Some {
                let i = choose|i: int|
                    0 <= i < before.push(record_of(line, key)->0).len() && before.push(
                        record_of(line, key)->0,
                    )[i] == record;
                assert(before[i] == record);
            }
            lemma_records_have_text_keys(lines, key, n - 1, record);
        }
    }
}

/// In a transducer built from lines, every match in a line that holds no
/// sentinel is the key of a record, and so is text.
pub proof fn law_matches_in_built_are_text(
    setup: Setup,
    lines: Seq<Seq<u8>>,
    key: Seq<char>,
    text: Seq<u8>,
)
    requires
        stores_exactly(setup.automaton, records_upto(lines, key, lines.len() as int)),
        well_linked(setup.automaton),
        free_of_sentinel(text),
    ensures
        matches_are_text(setup, text),
{
    let data = setup.automaton;
    let records = records_upto(lines, key, lines.len() as int);
    let found = all_matches(data, text);
    lemma_all_matches(data, text);
    assert forall|k: int| 0 <= k < found.len() implies valid_utf8(
        text.subrange((#[trigger] found[k]).0, found[k].0 + found[k].1),
    ) by {
        let start = found[k].0;
        let len = found[k].1;
        lemma_longest_upto(data, text, start, text.len() - start);
        assert(is_candidate(data, text, start, len));
        let matched = text.subrange(start, start + len);
        lemma_walk_push(data, matched, SENTINEL);
        let rest = lemma_no_dead_end(data, matched.push(SENTINEL));
        let whole = matched.push(SENTINEL) + rest;
        assert(records.contains(whole));
        lemma_records_have_text_keys(lines, key, lines.len() as int, whole);
        let split = choose|split: int|
            0 <= split < whole.len() && #[trigger] whole[split] == SENTINEL && free_of_sentinel(
                whole.subrange(0, split),
            ) && valid_utf8(whole.subrange(0, split));
        assert(whole[len] == SENTINEL);
        if split < len {
            assert(whole[split] == matched[split]);
            assert(matched[split] == text[start + split]);
        }
        if split > len {
            assert(whole.subrange(0, split)[len] == SENTINEL);
        }
        assert(whole.subrange(0, split) =~= matched);
    }
}

} // verus!
