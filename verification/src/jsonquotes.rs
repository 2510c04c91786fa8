//! Finds the string literals of a line of JSON without parsing the line.
//!
//! The scanner looks only at double quotes and backslashes. It keeps one
//! thing in mind, the escape mark, and decides from it whether a quote is
//! escaped or bounds a string.

use vstd::prelude::*;
use vstd::slice::slice_subrange;

verus! {

/// The byte `"`.
pub const QUOTE: u8 = 34;

/// The byte `\`.
pub const BACKSLASH: u8 = 92;

/// `memchr::memchr2`: the index of the first byte of `haystack` that equals
/// one of the two needles, and `None` exactly when no byte does.
pub assume_specification[ memchr::memchr2 ](needle1: u8, needle2: u8, haystack: &[u8]) -> (r:
    Option<usize>)
    ensures
        match r {
            Some(i) => {
                &&& i < haystack@.len()
                &&& haystack@[i as int] == needle1 || haystack@[i as int] == needle2
                &&& forall|j: int| 0 <= j < i ==> haystack@[j] != needle1 && haystack@[j] != needle2
            },
            None => forall|j: int|
                0 <= j < haystack@.len() ==> haystack@[j] != needle1 && haystack@[j] != needle2,
        },
;

/// The escape mark after the first `n` bytes of `text`: the index of the
/// last backslash that no later backslash has paired off, if there is one.
/// A quote clears it, and so does the backslash right behind the marked
/// one.
pub open spec fn escape_mark(text: Seq<u8>, n: int) -> Option<int>
    decreases n,
{
    if n <= 0 {
        None
    } else {
        let i = n - 1;
        let before = escape_mark(text, i);
        if text[i] == QUOTE {
            None
        } else if text[i] == BACKSLASH {
            if before == Some(i - 1) {
                None
            } else {
                Some(i)
            }
        } else {
            before
        }
    }
}

/// Whether the byte at `i` is a quote that the scanner reports: a quote
/// that does not directly follow a marked backslash.
pub open spec fn is_structural(text: Seq<u8>, i: int) -> bool {
    &&& 0 <= i < text.len()
    &&& text[i] == QUOTE
    &&& escape_mark(text, i) != Some(i - 1)
}

/// The reported quotes among the first `n` bytes, in increasing order.
pub open spec fn quotes_upto(text: Seq<u8>, n: int) -> Seq<int>
    decreases n,
{
    if n <= 0 {
        Seq::empty()
    } else if is_structural(text, n - 1) {
        quotes_upto(text, n - 1).push(n - 1)
    } else {
        quotes_upto(text, n - 1)
    }
}

/// Pairs the quotes off two by two, in order. Each pair becomes the range
/// from the first quote up to and including the second; a last quote
/// without a partner is dropped.
pub open spec fn pair_up(quotes: Seq<int>) -> Seq<(int, int)> {
    Seq::new(quotes.len() / 2, |k: int| (quotes[2 * k], quotes[2 * k + 1] + 1))
}

/// A list of ranges with its bounds as mathematical integers.
pub open spec fn as_ranges(pairs: Seq<(usize, usize)>) -> Seq<(int, int)> {
    Seq::new(pairs.len(), |k: int| (pairs[k].0 as int, pairs[k].1 as int))
}

/// The ranges of the string literals of `text` as the scanner sees them,
/// each with both of its quotes.
pub open spec fn quote_ranges(text: Seq<u8>) -> Seq<(int, int)> {
    pair_up(quotes_upto(text, text.len() as int))
}

/// Bytes that are neither quote nor backslash leave the escape mark alone
/// and are never reported.
pub proof fn lemma_plain_bytes(text: Seq<u8>, a: int, b: int)
    requires
        0 <= a <= b <= text.len(),
        forall|j: int| a <= j < b ==> text[j] != QUOTE && text[j] != BACKSLASH,
    ensures
        escape_mark(text, b) == escape_mark(text, a),
        quotes_upto(text, b) == quotes_upto(text, a),
        forall|j: int| a <= j < b ==> !is_structural(text, j),
    decreases b - a,
{
    if a < b {
        lemma_plain_bytes(text, a, b - 1);
    }
}

/// The escape mark after `n` bytes is the index of one of them.
pub proof fn lemma_mark_bound(text: Seq<u8>, n: int)
    requires
        0 <= n <= text.len(),
    ensures
        escape_mark(text, n) matches Some(marked) ==> 0 <= marked < n,
    decreases n,
{
    if n > 0 {
        lemma_mark_bound(text, n - 1);
    }
}

/// Every reported quote is below the bound it was collected under, and the
/// list is strictly increasing.
pub proof fn lemma_quotes_sorted(text: Seq<u8>, n: int)
    requires
        0 <= n <= text.len(),
    ensures
        forall|k: int|
            0 <= k < quotes_upto(text, n).len() ==> #[trigger] quotes_upto(text, n)[k] < n,
        forall|k: int, m: int|
            0 <= k < m < quotes_upto(text, n).len() ==> quotes_upto(text, n)[k] < quotes_upto(
                text,
                n,
            )[m],
        forall|k: int|
            0 <= k < quotes_upto(text, n).len() ==> is_structural(
                text,
                #[trigger] quotes_upto(text, n)[k],
            ),
    decreases n,
{
    if n > 0 {
        lemma_quotes_sorted(text, n - 1);
        let before = quotes_upto(text, n - 1);
        let now = quotes_upto(text, n);
        if is_structural(text, n - 1) {
            assert(now == before.push(n - 1));
            assert forall|k: int| 0 <= k < now.len() implies now[k] < n && is_structural(
                text,
                #[trigger] now[k],
            ) by {
                if k < before.len() {
                    assert(now[k] == before[k]);
                }
            }
            assert forall|k: int, m: int| 0 <= k < m < now.len() implies now[k] < now[m] by {
                assert(now[k] == before[k]);
                if m < before.len() {
                    assert(now[m] == before[m]);
                }
            }
        }
    }
}

/// One more quote completes a pair when an odd number came before it, and
/// waits for its partner otherwise.
pub proof fn lemma_pair_up_push(quotes: Seq<int>, q: int)
    ensures
        quotes.len() % 2 == 0 ==> pair_up(quotes.push(q)) == pair_up(quotes),
        quotes.len() % 2 == 1 ==> pair_up(quotes.push(q)) == pair_up(quotes).push(
            (quotes.last(), q + 1),
        ),
{
    let more = quotes.push(q);
    if quotes.len() % 2 == 0 {
        assert(pair_up(more) =~= pair_up(quotes));
    } else {
        assert(pair_up(more) =~= pair_up(quotes).push((quotes.last(), q + 1)));
    }
}

/// Whether the ranges lie within a line of `len` bytes, none is empty, and
/// each starts where the one before has ended, or further on.
pub open spec fn ranges_in_order(ranges: Seq<(int, int)>, len: int) -> bool {
    &&& forall|k: int|
        0 <= k < ranges.len() ==> 0 <= (#[trigger] ranges[k]).0 < ranges[k].1 <= len
    &&& forall|k: int| 0 <= k < ranges.len() - 1 ==> (#[trigger] ranges[k]).1 <= ranges[k + 1].0
}

/// The ranges that the scanner finds lie within the line, in order.
pub proof fn lemma_quote_ranges_in_order(text: Seq<u8>)
    ensures
        ranges_in_order(quote_ranges(text), text.len() as int),
{
    lemma_quotes_sorted(text, text.len() as int);
    let quotes = quotes_upto(text, text.len() as int);
    let ranges = quote_ranges(text);
    assert forall|k: int| 0 <= k < ranges.len() implies 0 <= (#[trigger] ranges[k]).0
        < ranges[k].1 <= text.len() by {
        assert(quotes[2 * k] < quotes[2 * k + 1]);
        assert(is_structural(text, quotes[2 * k]));
    }
    assert forall|k: int| 0 <= k < ranges.len() - 1 implies (#[trigger] ranges[k]).1 <= ranges[k
        + 1].0 by {
        assert(quotes[2 * k + 1] < quotes[2 * (k + 1)]);
    }
}

/// The escape mark with its index as a mathematical integer.
pub open spec fn mark_of(mark: Option<usize>) -> Option<int> {
    match mark {
        Some(marked) => Some(marked as int),
        None => None,
    }
}

/// A cursor over the quotes that bound the string literals of a line.
pub struct JsonQuotes<'a> {
    haystack: &'a [u8],
    pos: usize,
    lastescape: Option<usize>,
}

impl<'a> JsonQuotes<'a> {
    #[verifier::type_invariant]
    spec fn well_formed(self) -> bool {
        &&& self.pos <= self.haystack@.len()
        &&& mark_of(self.lastescape) == escape_mark(self.haystack@, self.pos as int)
    }

    /// The bytes under the cursor.
    pub closed spec fn text(self) -> Seq<u8> {
        self.haystack@
    }

    /// The number of bytes already examined.
    pub closed spec fn position(self) -> int {
        self.pos as int
    }

    /// A cursor at the start of `haystack`.
    pub fn new(haystack: &'a [u8]) -> (cursor: Self)
        ensures
            cursor.text() == haystack@,
            cursor.position() == 0,
    {
        JsonQuotes { haystack, pos: 0, lastescape: None }
    }

    /// The index of the next reported quote, or `None` when the rest of the
    /// line holds none. The cursor moves just past the quote, or to the end.
    pub fn next(&mut self) -> (r: Option<usize>)
        ensures
            final(self).text() == old(self).text(),
            old(self).position() <= final(self).position() <= old(self).text().len(),
            match r {
                Some(i) => {
                    &&& old(self).position() <= i < old(self).text().len()
                    &&& final(self).position() == i + 1
                    &&& is_structural(old(self).text(), i as int)
                    &&& forall|j: int|
                        old(self).position() <= j < i ==> !is_structural(old(self).text(), j)
                },
                None => {
                    &&& final(self).position() == old(self).text().len()
                    &&& forall|j: int|
                        old(self).position() <= j < old(self).text().len() ==> !is_structural(
                            old(self).text(),
                            j,
                        )
                },
            },
    {
        proof {
            use_type_invariant(&*self);
        }
        let hay: &'a [u8] = self.haystack;
        let n: usize = hay.len();
        let ghost first: int = self.pos as int;
        let mut pos: usize = self.pos;
        let mut mark: Option<usize> = self.lastescape;
        while pos < n
            invariant
                n == hay@.len(),
                hay@ == old(self).text(),
                first == old(self).position(),
                first <= pos <= n,
                mark_of(mark) == escape_mark(hay@, pos as int),
                forall|j: int| first <= j < pos ==> !is_structural(hay@, j),
            decreases n - pos,
        {
            let rest: &[u8] = slice_subrange(hay, pos, n);
            match memchr::memchr2(QUOTE, BACKSLASH, rest) {
                None => {
                    proof {
                        assert forall|j: int| pos <= j < n implies hay@[j] != QUOTE && hay@[j]
                            != BACKSLASH by {
                            assert(hay@[j] == rest@[j - pos]);
                        }
                        lemma_plain_bytes(hay@, pos as int, n as int);
                    }
                    pos = n;
                },
                Some(k) => {
                    let index: usize = pos + k;
                    proof {
                        assert(hay@[index as int] == rest@[k as int]);
                        assert forall|j: int| pos <= j < index implies hay@[j] != QUOTE && hay@[j]
                            != BACKSLASH by {
                            assert(hay@[j] == rest@[j - pos]);
                        }
                        lemma_plain_bytes(hay@, pos as int, index as int);
                    }
                    let armed: bool = match mark {
                        Some(marked) => index > 0 && marked == index - 1,
                        None => false,
                    };
                    pos = index + 1;
                    if hay[index] == QUOTE {
                        mark = None;
                        if !armed {
                            *self = JsonQuotes { haystack: hay, pos, lastescape: mark };
                            return Some(index);
                        }
                    } else if armed {
                        mark = None;
                    } else {
                        mark = Some(index);
                    }
                },
            }
        }
        *self = JsonQuotes { haystack: hay, pos, lastescape: mark };
        None
    }
}

/// The ranges of the string literals of `haystack`, in order. Each range
/// runs from an opening quote up to and including the closing one. An
/// opening quote that is never closed yields no range.
pub fn jsonquotes_range_iter(haystack: &[u8]) -> (ranges: Vec<(usize, usize)>)
    ensures
        as_ranges(ranges@) == quote_ranges(haystack@),
{
    let mut cursor = JsonQuotes::new(haystack);
    let mut ranges: Vec<(usize, usize)> = Vec::new();
    let ghost text = haystack@;
    let mut done: bool = false;
    while !done
        invariant
            cursor.text() == text,
            0 <= cursor.position() <= text.len(),
            done ==> cursor.position() == text.len(),
            !done ==> quotes_upto(text, cursor.position()).len() % 2 == 0,
            as_ranges(ranges@) == pair_up(quotes_upto(text, cursor.position())),
        decreases text.len() - cursor.position() + (if done { 0int } else { 1int }),
    {
        let ghost before_open = cursor.position();
        match cursor.next() {
            None => {
                proof {
                    lemma_no_quotes(text, before_open, text.len() as int);
                }
                done = true;
            },
            Some(open) => {
                proof {
                    lemma_no_quotes(text, before_open, open as int);
                    lemma_pair_up_push(quotes_upto(text, open as int), open as int);
                }
                let ghost before_close = cursor.position();
                match cursor.next() {
                    None => {
                        proof {
                            lemma_no_quotes(text, before_close, text.len() as int);
                        }
                        done = true;
                    },
                    Some(close) => {
                        proof {
                            lemma_no_quotes(text, before_close, close as int);
                            lemma_pair_up_push(quotes_upto(text, close as int), close as int);
                        }
                        let ghost shorter = ranges@;
                        ranges.push((open, close + 1));
                        proof {
                            assert(as_ranges(ranges@) =~= as_ranges(shorter).push(
                                (open as int, close + 1),
                            ));
                        }
                    },
                }
            },
        }
    }
    ranges
}

/// Where no byte of a stretch is reported, the list of reported quotes does
/// not grow over it.
pub proof fn lemma_no_quotes(text: Seq<u8>, a: int, b: int)
    requires
        0 <= a <= b <= text.len(),
        forall|j: int| a <= j < b ==> !is_structural(text, j),
    ensures
        quotes_upto(text, b) == quotes_upto(text, a),
    decreases b - a,
{
    if a < b {
        lemma_no_quotes(text, a, b - 1);
    }
}

/// Where a lexer of JSON stands between two bytes of a line: outside any
/// string, inside one, or inside one right after a backslash.
pub enum LexState {
    Outside,
    Inside,
    Escaped,
}

/// The state of a lexer of JSON after the first `n` bytes of `text`.
pub open spec fn lex_state(text: Seq<u8>, n: int) -> LexState
    decreases n,
{
    if n <= 0 {
        LexState::Outside
    } else {
        let byte = text[n - 1];
        match lex_state(text, n - 1) {
            LexState::Outside => if byte == QUOTE {
                LexState::Inside
            } else {
                LexState::Outside
            },
            LexState::Inside => if byte == QUOTE {
                LexState::Outside
            } else if byte == BACKSLASH {
                LexState::Escaped
            } else {
                LexState::Inside
            },
            LexState::Escaped => LexState::Inside,
        }
    }
}

/// The index of the quote that opened the string in which the lexer stands
/// after `n` bytes.
pub open spec fn string_start(text: Seq<u8>, n: int) -> int
    decreases n,
{
    if n <= 0 {
        0
    } else if lex_state(text, n - 1) is Outside && text[n - 1] == QUOTE {
        n - 1
    } else {
        string_start(text, n - 1)
    }
}

/// The string tokens that a lexer of JSON has closed within the first `n`
/// bytes, each as the range from its opening quote up to and including its
/// closing quote.
pub open spec fn tokens_upto(text: Seq<u8>, n: int) -> Seq<(int, int)>
    decreases n,
{
    if n <= 0 {
        Seq::empty()
    } else if lex_state(text, n - 1) is Inside && text[n - 1] == QUOTE {
        tokens_upto(text, n - 1).push((string_start(text, n - 1), n))
    } else {
        tokens_upto(text, n - 1)
    }
}

/// The string tokens of `text` as a lexer of JSON finds them.
pub open spec fn string_tokens(text: Seq<u8>) -> Seq<(int, int)> {
    tokens_upto(text, text.len() as int)
}

/// Every backslash of `text` stands inside a string, as in all well-formed
/// JSON.
pub open spec fn backslashes_inside_strings(text: Seq<u8>) -> bool {
    forall|i: int|
        0 <= i < text.len() && text[i] == BACKSLASH ==> !(#[trigger] lex_state(text, i)
            is Outside)
}

/// Whether the scanner would take a quote at `n` for an escaped one.
spec fn armed(text: Seq<u8>, n: int) -> bool {
    escape_mark(text, n) == Some(n - 1)
}

/// What the scanner and the lexer have in common after `n` bytes.
spec fn in_step(text: Seq<u8>, n: int) -> bool {
    let quotes = quotes_upto(text, n);
    &&& pair_up(quotes) == tokens_upto(text, n)
    &&& lex_state(text, n) is Outside ==> quotes.len() % 2 == 0
    &&& !(lex_state(text, n) is Outside) ==> quotes.len() % 2 == 1 && quotes.last()
        == string_start(text, n)
    &&& armed(text, n) == (lex_state(text, n) is Escaped)
}

proof fn lemma_in_step(text: Seq<u8>, n: int)
    requires
        0 <= n <= text.len(),
        backslashes_inside_strings(text),
    ensures
        in_step(text, n),
    decreases n,
{
    if n == 0 {
        assert(pair_up(quotes_upto(text, 0)) =~= tokens_upto(text, 0));
    } else {
        let m = n - 1;
        lemma_in_step(text, m);
        lemma_mark_bound(text, m);
        let quotes = quotes_upto(text, m);
        if text[m] == QUOTE {
            lemma_pair_up_push(quotes, m);
        } else if text[m] == BACKSLASH {
            assert(!(lex_state(text, m) is Outside));
        }
    }
}

/// On every line whose backslashes all stand inside strings, as in all
/// that JSON parsing accepts, the scanner finds exactly the string tokens
/// that a lexer of JSON finds, each with both of its quotes.
pub proof fn law_ranges_are_string_tokens(text: Seq<u8>)
    requires
        backslashes_inside_strings(text),
    ensures
        quote_ranges(text) == string_tokens(text),
{
    lemma_in_step(text, text.len() as int);
}

/// The number of backslashes that stand in a row right before `n`.
pub open spec fn backslashes_before(text: Seq<u8>, n: int) -> int
    decreases n,
{
    if n <= 0 || n > text.len() || text[n - 1] != BACKSLASH {
        0
    } else {
        1 + backslashes_before(text, n - 1)
    }
}

proof fn lemma_armed_by_parity(text: Seq<u8>, n: int)
    requires
        0 <= n <= text.len(),
    ensures
        armed(text, n) == (backslashes_before(text, n) % 2 == 1),
        backslashes_before(text, n) >= 0,
    decreases n,
{
    if n > 0 {
        lemma_armed_by_parity(text, n - 1);
        lemma_mark_bound(text, n - 1);
    }
}

/// The scanner reports exactly the quotes with an even number of
/// backslashes in a row right before them, none among them.
pub proof fn law_structural_by_parity(text: Seq<u8>, i: int)
    requires
        0 <= i < text.len(),
    ensures
        is_structural(text, i) == (text[i] == QUOTE && backslashes_before(text, i) % 2 == 0),
{
    lemma_armed_by_parity(text, i);
}

} // verus!
