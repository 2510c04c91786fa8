//! What counts as a match, and which matches a scan of a line finds.
//!
//! A key matches at a place in a line if the transducer stores a record
//! under it, the bytes of the line from that place on start with it, and
//! what follows it in the line is the end of the line or a byte that could
//! not continue a word. A scan tries the start of the line and the place
//! behind every seed byte, but for the seeds that lie within a match.

use vstd::prelude::*;
use crate::transducer::{
    holds_key, lemma_record_gives_key, lemma_walk_stuck, stores_exactly, walk, SENTINEL,
};

verus! {

/// The bytes that make up words: ASCII letters, digits and the underscore.
pub open spec fn word_byte(byte: u8) -> bool {
    ||| 48 <= byte <= 57
    ||| 65 <= byte <= 90
    ||| 97 <= byte <= 122
    ||| byte == 95
}

/// The bytes behind which a scan looks for a key: comma, space, tab, bell,
/// line feed, colon, equals sign and double quote.
pub open spec fn seed_byte(byte: u8) -> bool {
    ||| byte == 44
    ||| byte == 32
    ||| byte == 9
    ||| byte == 7
    ||| byte == 10
    ||| byte == 58
    ||| byte == 61
    ||| byte == 34
}

/// Whether `byte` is a letter, a digit or the underscore.
pub fn is_word_byte(byte: u8) -> (is_word: bool)
    ensures
        is_word == word_byte(byte),
{
    (48 <= byte && byte <= 57) || (65 <= byte && byte <= 90) || (97 <= byte && byte <= 122) || byte
        == 95
}

/// Whether a scan looks for a key behind `byte`.
pub fn is_seed_byte(byte: u8) -> (is_seed: bool)
    ensures
        is_seed == seed_byte(byte),
{
    byte == 44 || byte == 32 || byte == 9 || byte == 7 || byte == 10 || byte == 58 || byte == 61
        || byte == 34
}

/// Whether a match may end at `end`: the line ends there, or the byte there
/// is no word byte.
pub open spec fn right_boundary(text: Seq<u8>, end: int) -> bool {
    end == text.len() || (0 <= end < text.len() && !word_byte(text[end]))
}

/// Whether a scan looks for a match at `start`: the line starts there, or
/// the byte before is a seed byte.
pub open spec fn left_boundary(text: Seq<u8>, start: int) -> bool {
    start == 0 || (0 < start <= text.len() && seed_byte(text[start - 1]))
}

/// Whether a key of `len` bytes matches at `start`.
pub open spec fn is_candidate(data: Seq<u8>, text: Seq<u8>, start: int, len: int) -> bool {
    &&& 0 <= start
    &&& 1 <= len <= text.len() - start
    &&& holds_key(data, text.subrange(start, start + len))
    &&& right_boundary(text, start + len)
}

/// The length of the longest key that matches at `start` among those of at
/// most `limit` bytes.
pub open spec fn longest_upto(data: Seq<u8>, text: Seq<u8>, start: int, limit: int) -> Option<
    int,
>
    decreases limit,
{
    if limit <= 0 {
        None
    } else if is_candidate(data, text, start, limit) {
        Some(limit)
    } else {
        longest_upto(data, text, start, limit - 1)
    }
}

/// The length of the longest key that matches at `start`, if any does.
pub open spec fn longest_match(data: Seq<u8>, text: Seq<u8>, start: int) -> Option<int> {
    longest_upto(data, text, start, text.len() - start)
}

/// What `longest_upto` picks is a match within the limit, and no longer
/// match lies within the limit.
pub proof fn lemma_longest_upto(data: Seq<u8>, text: Seq<u8>, start: int, limit: int)
    ensures
        match longest_upto(data, text, start, limit) {
            Some(len) => {
                &&& len <= limit
                &&& is_candidate(data, text, start, len)
                &&& forall|other: int|
                    len < other <= limit ==> !is_candidate(data, text, start, other)
            },
            None => forall|other: int| other <= limit ==> !is_candidate(data, text, start, other),
        },
    decreases limit,
{
    if limit > 0 {
        lemma_longest_upto(data, text, start, limit - 1);
    }
}

/// A match has at least one byte and ends within the line.
pub proof fn lemma_longest_match_bounds(data: Seq<u8>, text: Seq<u8>, start: int)
    ensures
        longest_match(data, text, start) matches Some(len) ==> 1 <= len <= text.len() - start,
{
    lemma_longest_upto(data, text, start, text.len() - start);
}

/// Once the transducer cannot follow the line from `start` over `stuck`
/// bytes, no longer key matches there.
pub proof fn lemma_stuck_ends_search(
    data: Seq<u8>,
    text: Seq<u8>,
    start: int,
    stuck: int,
    limit: int,
)
    requires
        0 <= start,
        1 <= stuck <= limit <= text.len() - start,
        walk(data, text.subrange(start, start + stuck)) is None,
    ensures
        longest_upto(data, text, start, limit) == longest_upto(data, text, start, stuck - 1),
    decreases limit - stuck,
{
    let short = text.subrange(start, start + stuck);
    let long = text.subrange(start, start + limit);
    lemma_walk_stuck(data, short, text.subrange(start + stuck, start + limit));
    assert(long =~= short + text.subrange(start + stuck, start + limit));
    if stuck < limit {
        lemma_stuck_ends_search(data, text, start, stuck, limit - 1);
    }
}

/// The matches that a scan finds from the seed at `seed` on, each as its
/// start and length, in the order in which they stand in the line. A seed
/// that lies within a match is passed over; the seed right behind a match
/// is the next one tried.
pub open spec fn matches_after(data: Seq<u8>, text: Seq<u8>, seed: int) -> Seq<(int, int)>
    decreases text.len() - seed + 1,
{
    if seed < 0 || seed >= text.len() {
        Seq::empty()
    } else if !seed_byte(text[seed]) {
        matches_after(data, text, seed + 1)
    } else {
        match longest_match(data, text, seed + 1) {
            Some(len) => {
                proof {
                    lemma_longest_match_bounds(data, text, seed + 1);
                }
                seq![(seed + 1, len)] + matches_after(data, text, seed + len + 1)
            },
            None => matches_after(data, text, seed + 1),
        }
    }
}

/// The matches that a scan of the whole line finds.
pub open spec fn all_matches(data: Seq<u8>, text: Seq<u8>) -> Seq<(int, int)> {
    match longest_match(data, text, 0) {
        Some(len) => seq![(0int, len)] + matches_after(data, text, len),
        None => matches_after(data, text, 0),
    }
}

/// What holds of a list of matches that a scan found from `floor` on.
pub open spec fn orderly(data: Seq<u8>, text: Seq<u8>, found: Seq<(int, int)>, floor: int) -> bool {
    &&& forall|k: int|
        0 <= k < found.len() ==> {
            &&& floor <= (#[trigger] found[k]).0
            &&& left_boundary(text, found[k].0)
            &&& longest_match(data, text, found[k].0) == Some(found[k].1)
        }
    &&& forall|k: int|
        0 <= k < found.len() - 1 ==> (#[trigger] found[k]).0 + found[k].1 + 1 <= found[k + 1].0
}

/// The matches found from a seed on are orderly, and start behind the seed.
pub proof fn lemma_matches_after(data: Seq<u8>, text: Seq<u8>, seed: int)
    requires
        0 <= seed,
    ensures
        orderly(data, text, matches_after(data, text, seed), seed + 1),
    decreases text.len() - seed + 1,
{
    if seed >= text.len() {
    } else if !seed_byte(text[seed]) {
        lemma_matches_after(data, text, seed + 1);
    } else {
        match longest_match(data, text, seed + 1) {
            Some(len) => {
                lemma_longest_match_bounds(data, text, seed + 1);
                lemma_matches_after(data, text, seed + len + 1);
                let rest = matches_after(data, text, seed + len + 1);
                let found = matches_after(data, text, seed);
                assert(found == seq![(seed + 1, len)] + rest);
                assert forall|k: int| 0 <= k < found.len() implies {
                    &&& seed + 1 <= (#[trigger] found[k]).0
                    &&& left_boundary(text, found[k].0)
                    &&& longest_match(data, text, found[k].0) == Some(found[k].1)
                } by {
                    if k > 0 {
                        assert(found[k] == rest[k - 1]);
                    }
                }
                assert forall|k: int| 0 <= k < found.len() - 1 implies (#[trigger] found[k]).0
                    + found[k].1 + 1 <= found[k + 1].0 by {
                    assert(found[k + 1] == rest[k]);
                    if k > 0 {
                        assert(found[k] == rest[k - 1]);
                    }
                }
            },
            None => {
                lemma_matches_after(data, text, seed + 1);
            },
        }
    }
}

/// The matches of a whole line are orderly.
pub proof fn lemma_all_matches(data: Seq<u8>, text: Seq<u8>)
    ensures
        orderly(data, text, all_matches(data, text), 0),
{
    match longest_match(data, text, 0) {
        Some(len) => {
            lemma_longest_upto(data, text, 0, text.len() as int);
            lemma_matches_after(data, text, len);
            let rest = matches_after(data, text, len);
            let found = all_matches(data, text);
            assert(found == seq![(0int, len)] + rest);
            assert forall|k: int| 0 <= k < found.len() implies {
                &&& 0 <= (#[trigger] found[k]).0
                &&& left_boundary(text, found[k].0)
                &&& longest_match(data, text, found[k].0) == Some(found[k].1)
            } by {
                if k > 0 {
                    assert(found[k] == rest[k - 1]);
                }
            }
            assert forall|k: int| 0 <= k < found.len() - 1 implies (#[trigger] found[k]).0
                + found[k].1 + 1 <= found[k + 1].0 by {
                assert(found[k + 1] == rest[k]);
                if k > 0 {
                    assert(found[k] == rest[k - 1]);
                }
            }
        },
        None => {
            lemma_matches_after(data, text, 0);
        },
    }
}

/// Every match that a scan reports starts at the start of the line or
/// right behind a seed byte, and ends at the end of the line or right
/// before a byte that is no word byte.
pub proof fn law_boundary_discipline(data: Seq<u8>, text: Seq<u8>, k: int)
    requires
        0 <= k < all_matches(data, text).len(),
    ensures
        left_boundary(text, all_matches(data, text)[k].0),
        right_boundary(text, all_matches(data, text)[k].0 + all_matches(data, text)[k].1),
        0 <= all_matches(data, text)[k].0,
        1 <= all_matches(data, text)[k].1,
        all_matches(data, text)[k].0 + all_matches(data, text)[k].1 <= text.len(),
{
    lemma_all_matches(data, text);
    let found = all_matches(data, text)[k];
    lemma_longest_upto(data, text, found.0, text.len() - found.0);
}

/// Where two keys match at the same start, one a proper prefix of the
/// other, the longer one wins: no key that matches at the start of a
/// reported match is longer than that match.
pub proof fn law_longest_match(data: Seq<u8>, text: Seq<u8>, k: int, other: int)
    requires
        0 <= k < all_matches(data, text).len(),
        is_candidate(data, text, all_matches(data, text)[k].0, other),
    ensures
        other <= all_matches(data, text)[k].1,
        holds_key(
            data,
            text.subrange(
                all_matches(data, text)[k].0,
                all_matches(data, text)[k].0 + all_matches(data, text)[k].1,
            ),
        ),
{
    lemma_all_matches(data, text);
    let found = all_matches(data, text)[k];
    lemma_longest_upto(data, text, found.0, text.len() - found.0);
}

/// A key is no match where a word byte follows it: if every key that the
/// line starts with at `start` runs into a word byte, nothing matches
/// there, whatever the transducer stores.
pub proof fn law_no_interior_match(data: Seq<u8>, text: Seq<u8>, start: int)
    requires
        0 <= start <= text.len(),
        forall|len: int|
            1 <= len <= text.len() - start && holds_key(
                data,
                #[trigger] text.subrange(start, start + len),
            ) ==> start + len < text.len() && word_byte(text[start + len]),
    ensures
        longest_match(data, text, start) is None,
{
    lemma_longest_upto(data, text, start, text.len() - start);
    if longest_match(data, text, start) is Some {
        let len = longest_match(data, text, start)->0;
        assert(holds_key(data, text.subrange(start, start + len)));
    }
}

/// Two matches that a scan reports one after the other do not overlap: the
/// later one starts behind the end of the earlier one.
pub proof fn law_no_overlap(data: Seq<u8>, text: Seq<u8>, k: int)
    requires
        0 <= k < all_matches(data, text).len() - 1,
    ensures
        all_matches(data, text)[k].0 + all_matches(data, text)[k].1 <= all_matches(
            data,
            text,
        )[k + 1].0,
{
    lemma_all_matches(data, text);
}

/// Whether the list holds the match of `len` bytes at `start`.
pub open spec fn reports(found: Seq<(int, int)>, start: int, len: int) -> bool {
    exists|k: int| 0 <= k < found.len() && #[trigger] found[k] == (start, len)
}

/// Whether `place` lies within a match of the list or at its end: behind a
/// seed that the match has used, where a scan does not look.
pub open spec fn shadowed(found: Seq<(int, int)>, place: int) -> bool {
    exists|k: int|
        0 <= k < found.len() && (#[trigger] found[k]).0 < place <= found[k].0 + found[k].1
}

/// A scan from a seed on misses no match behind that seed or a later one,
/// but in the shadow of a match that it reports.
proof fn lemma_matches_after_complete(
    data: Seq<u8>,
    text: Seq<u8>,
    seed: int,
    place: int,
    len: int,
)
    requires
        0 <= seed < place <= text.len(),
        seed_byte(text[place - 1]),
        longest_match(data, text, place) == Some(len),
    ensures
        reports(matches_after(data, text, seed), place, len) || shadowed(
            matches_after(data, text, seed),
            place,
        ),
    decreases text.len() - seed + 1,
{
    let found = matches_after(data, text, seed);
    if !seed_byte(text[seed]) {
        lemma_matches_after_complete(data, text, seed + 1, place, len);
    } else {
        match longest_match(data, text, seed + 1) {
            Some(first) => {
                lemma_longest_match_bounds(data, text, seed + 1);
                let rest = matches_after(data, text, seed + first + 1);
                assert(found == seq![(seed + 1, first)] + rest);
                assert(found[0] == (seed + 1, first));
                if place == seed + 1 {
                } else if place <= seed + first + 1 {
                } else {
                    lemma_matches_after_complete(data, text, seed + first + 1, place, len);
                    if reports(rest, place, len) {
                        let k = choose|k: int| 0 <= k < rest.len() && #[trigger] rest[k] == (
                            place,
                            len,
                        );
                        assert(found[k + 1] == rest[k]);
                    } else {
                        let k = choose|k: int|
                            0 <= k < rest.len() && (#[trigger] rest[k]).0 < place <= rest[k].0
                                + rest[k].1;
                        assert(found[k + 1] == rest[k]);
                    }
                }
            },
            None => {
                lemma_matches_after_complete(data, text, seed + 1, place, len);
            },
        }
    }
}

/// A scan reports every match that stands at the start of the line or
/// behind a seed byte, but those in the shadow of a match that it reports:
/// behind a seed within that match. With `law_no_overlap` this makes one
/// reported match for each such place.
pub proof fn law_scan_misses_no_match(data: Seq<u8>, text: Seq<u8>, place: int, len: int)
    requires
        0 <= place <= text.len(),
        left_boundary(text, place),
        longest_match(data, text, place) == Some(len),
    ensures
        reports(all_matches(data, text), place, len) || shadowed(all_matches(data, text), place),
{
    let found = all_matches(data, text);
    match longest_match(data, text, 0) {
        Some(first) => {
            lemma_longest_match_bounds(data, text, 0);
            let rest = matches_after(data, text, first);
            assert(found == seq![(0int, first)] + rest);
            assert(found[0] == (0int, first));
            if place == 0 {
            } else if place <= first {
            } else {
                lemma_matches_after_complete(data, text, first, place, len);
                if reports(rest, place, len) {
                    let k = choose|k: int| 0 <= k < rest.len() && #[trigger] rest[k] == (
                        place,
                        len,
                    );
                    assert(found[k + 1] == rest[k]);
                } else {
                    let k = choose|k: int|
                        0 <= k < rest.len() && (#[trigger] rest[k]).0 < place <= rest[k].0
                            + rest[k].1;
                    assert(found[k + 1] == rest[k]);
                }
            }
        },
        None => {
            lemma_matches_after_complete(data, text, 0, place, len);
        },
    }
}

/// What is built can be searched: where a transducer stores exactly the
/// records it was built from, and a line holds the key of one of them
/// between a left and a right boundary, a key matches there that is at
/// least as long, and a scan reports that match unless it stands in the
/// shadow of an earlier one.
pub proof fn law_stored_keys_are_found(
    data: Seq<u8>,
    records: Seq<Seq<u8>>,
    key: Seq<u8>,
    value: Seq<u8>,
    text: Seq<u8>,
    place: int,
)
    requires
        stores_exactly(data, records),
        records.contains(key.push(SENTINEL) + value),
        key.len() >= 1,
        0 <= place,
        place + key.len() <= text.len(),
        text.subrange(place, place + key.len()) == key,
        left_boundary(text, place),
        right_boundary(text, place + key.len()),
    ensures
        longest_match(data, text, place) is Some,
        key.len() <= longest_match(data, text, place)->0,
        reports(all_matches(data, text), place, longest_match(data, text, place)->0) || shadowed(
            all_matches(data, text),
            place,
        ),
{
    lemma_record_gives_key(data, key, value);
    assert(is_candidate(data, text, place, key.len() as int));
    lemma_longest_upto(data, text, place, text.len() - place);
    law_scan_misses_no_match(data, text, place, longest_match(data, text, place)->0);
}

} // verus!
