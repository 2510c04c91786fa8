//! The template that a match is written through.
//!
//! A template is text with placeholders in it. A placeholder is a name
//! between braces, and stands for the field of that name. The text around
//! the placeholders is kept as it is.

use vstd::prelude::*;
use vstd::string::StrSliceExecFns;
use vstd::string::StringExecFns;
use crate::codec::{json_lookup, push_char};

verus! {

/// The name of the placeholder that stands for the matched key.
pub open spec fn key_name() -> Seq<char> {
    seq!['k', 'e', 'y']
}

/// The name of the placeholder that stands for the stored value.
pub open spec fn value_name() -> Seq<char> {
    seq!['v', 'a', 'l', 'u', 'e']
}

/// Whether the characters of `word` stand in `text` from `at` on.
pub open spec fn has_word_at(text: Seq<char>, at: int, word: Seq<char>) -> bool {
    &&& 0 <= at
    &&& at + word.len() <= text.len()
    &&& text.subrange(at, at + word.len()) == word
}

/// Whether a brace at `at - 1` opens the placeholder of the key or of the
/// value: `key}` or `value}` stands at `at`.
pub open spec fn plain_field_at(text: Seq<char>, at: int) -> bool {
    has_word_at(text, at, key_name().push('}')) || has_word_at(text, at, value_name().push('}'))
}

/// Whether the template asks for more than the key and the value: some
/// opening brace in it is followed by neither `key}` nor `value}`.
pub open spec fn asks_for_json(template: Seq<char>) -> bool {
    exists|i: int|
        0 <= i < template.len() && template[i] == '{' && !#[trigger] plain_field_at(
            template,
            i + 1,
        )
}

/// The first index from `from` on at which `text` holds `c`, or the length
/// of `text` where it holds none.
pub open spec fn find_char(text: Seq<char>, c: char, from: int) -> int
    decreases text.len() - from,
{
    if from < 0 || from >= text.len() {
        text.len() as int
    } else if text[from] == c {
        from
    } else {
        find_char(text, c, from + 1)
    }
}

/// What `find_char` gives lies between `from` and the end of the text. The
/// text holds `c` there unless it is the end, and does not hold `c` between
/// `from` and there.
pub proof fn lemma_find_char(text: Seq<char>, c: char, from: int)
    requires
        0 <= from <= text.len(),
    ensures
        from <= find_char(text, c, from) <= text.len(),
        find_char(text, c, from) < text.len() ==> text[find_char(text, c, from)] == c,
        forall|i: int| from <= i < find_char(text, c, from) ==> text[i] != c,
    decreases text.len() - from,
{
    if from < text.len() && text[from] != c {
        lemma_find_char(text, c, from + 1);
    }
}

/// What the placeholder of this name stands for in a match with this key
/// and value.
///
/// `key` stands for the key and `value` for the value. Any other name is
/// looked up in the value read as JSON, where the match carries it in
/// `doc`: as a JSON pointer if it starts with a slash, as a member of the
/// top-level object otherwise. What is not found, or is no string, stands
/// for nothing.
pub open spec fn field_text(
    key: Seq<char>,
    value: Seq<char>,
    doc: Option<Seq<u8>>,
    name: Seq<char>,
) -> Seq<char> {
    if name == key_name() {
        key
    } else if name == value_name() {
        value
    } else {
        match doc {
            Some(source) => match json_lookup(source, name) {
                Some(text) => text,
                None => Seq::empty(),
            },
            None => Seq::empty(),
        }
    }
}

/// The template from `from` on with each placeholder replaced by what it
/// stands for.
///
/// A placeholder runs from an opening brace to the next closing brace. An
/// opening brace that no closing brace follows ends the replacing: the text
/// before it is written, and then all that is left from `from` on, which
/// holds that text once more.
pub open spec fn expand(
    template: Seq<char>,
    from: int,
    key: Seq<char>,
    value: Seq<char>,
    doc: Option<Seq<u8>>,
) -> Seq<char>
    decreases template.len() - from,
{
    if from < 0 || from > template.len() {
        Seq::empty()
    } else {
        let open = find_char(template, '{', from);
        if open >= template.len() {
            template.subrange(from, template.len() as int)
        } else {
            let close = find_char(template, '}', open + 1);
            if close >= template.len() {
                template.subrange(from, open) + template.subrange(from, template.len() as int)
            } else {
                proof {
                    lemma_find_char(template, '{', from);
                    lemma_find_char(template, '}', open + 1);
                }
                template.subrange(from, open) + field_text(
                    key,
                    value,
                    doc,
                    template.subrange(open + 1, close),
                ) + expand(template, close + 1, key, value, doc)
            }
        }
    }
}

/// The characters of `text`, one by one.
pub(crate) fn chars_of(text: &str) -> (chars: Vec<char>)
    ensures
        chars@ == text@,
{
    let n: usize = text.unicode_len();
    let mut chars: Vec<char> = Vec::new();
    let mut i: usize = 0;
    while i < n
        invariant
            n == text@.len(),
            i <= n,
            chars@ == text@.subrange(0, i as int),
        decreases n - i,
    {
        chars.push(text.get_char(i));
        proof {
            assert(chars@ =~= text@.subrange(0, i + 1));
        }
        i += 1;
    }
    proof {
        assert(text@.subrange(0, n as int) =~= text@);
    }
    chars
}

/// The characters of `chars` from `from` up to `to`, as text.
pub(crate) fn text_of_chars(chars: &Vec<char>, from: usize, to: usize) -> (text: String)
    requires
        from <= to <= chars@.len(),
    ensures
        text@ == chars@.subrange(from as int, to as int),
{
    let mut text = String::new();
    append_chars(&mut text, chars, from, to);
    proof {
        assert(Seq::<char>::empty() + chars@.subrange(from as int, to as int) =~= chars@.subrange(
            from as int,
            to as int,
        ));
    }
    text
}

/// Appends the characters of `chars` from `from` up to `to` to `text`.
pub(crate) fn append_chars(text: &mut String, chars: &Vec<char>, from: usize, to: usize)
    requires
        from <= to <= chars@.len(),
    ensures
        final(text)@ == old(text)@ + chars@.subrange(from as int, to as int),
{
    let mut i: usize = from;
    proof {
        assert(old(text)@ + chars@.subrange(from as int, from as int) =~= old(text)@);
    }
    while i < to
        invariant
            from <= i <= to <= chars@.len(),
            text@ == old(text)@ + chars@.subrange(from as int, i as int),
        decreases to - i,
    {
        push_char(text, chars[i]);
        proof {
            assert(chars@.subrange(from as int, i + 1) =~= chars@.subrange(
                from as int,
                i as int,
            ).push(chars@[i as int]));
        }
        i += 1;
    }
}

/// The first index from `from` on at which `chars` holds `c`, or the
/// length of `chars`.
pub(crate) fn find_in(chars: &Vec<char>, c: char, from: usize) -> (at: usize)
    requires
        from <= chars@.len(),
    ensures
        at == find_char(chars@, c, from as int),
        from <= at <= chars@.len(),
{
    let mut i: usize = from;
    while i < chars.len() && chars[i] != c
        invariant
            from <= i <= chars@.len(),
            find_char(chars@, c, from as int) == find_char(chars@, c, i as int),
        decreases chars@.len() - i,
    {
        i += 1;
    }
    i
}

/// Whether `key}` or `value}` stands in `chars` at `at`.
pub(crate) fn is_plain_field_at(chars: &Vec<char>, at: usize) -> (plain: bool)
    requires
        at <= chars@.len(),
    ensures
        plain == plain_field_at(chars@, at as int),
{
    let n: usize = chars.len();
    let key: bool = n - at >= 4 && chars[at] == 'k' && chars[at + 1] == 'e' && chars[at + 2] == 'y'
        && chars[at + 3] == '}';
    let value: bool = n - at >= 6 && chars[at] == 'v' && chars[at + 1] == 'a' && chars[at + 2]
        == 'l' && chars[at + 3] == 'u' && chars[at + 4] == 'e' && chars[at + 5] == '}';
    proof {
        let k = key_name().push('}');
        let v = value_name().push('}');
        if key {
            assert(chars@.subrange(at as int, at + 4) =~= k);
        }
        if has_word_at(chars@, at as int, k) {
            let part = chars@.subrange(at as int, at + 4);
            assert(part[0] == 'k' && part[1] == 'e' && part[2] == 'y' && part[3] == '}');
        }
        if value {
            assert(chars@.subrange(at as int, at + 6) =~= v);
        }
        if has_word_at(chars@, at as int, v) {
            let part = chars@.subrange(at as int, at + 6);
            assert(part[0] == 'v' && part[1] == 'a' && part[2] == 'l' && part[3] == 'u' && part[4]
                == 'e' && part[5] == '}');
        }
    }
    key || value
}

/// Whether writing a match through `template` takes more than the key and
/// the value, so that the stored value has to be read as JSON.
pub fn test_for_json_keys(template: &str) -> (asks: bool)
    ensures
        asks == asks_for_json(template@),
{
    let chars = chars_of(template);
    let mut i: usize = 0;
    while i < chars.len()
        invariant
            i <= chars@.len(),
            chars@ == template@,
            forall|j: int|
                0 <= j < i ==> !(chars@[j] == '{' && !#[trigger] plain_field_at(chars@, j + 1)),
        decreases chars@.len() - i,
    {
        if chars[i] == '{' && !is_plain_field_at(&chars, i + 1) {
            return true;
        }
        i += 1;
    }
    false
}

/// Whether two pieces of text are the same.
pub(crate) fn same_text(a: &str, b: &str) -> (same: bool)
    ensures
        same == (a@ == b@),
{
    let n: usize = a.unicode_len();
    if n != b.unicode_len() {
        return false;
    }
    let mut i: usize = 0;
    while i < n
        invariant
            n == a@.len(),
            n == b@.len(),
            i <= n,
            forall|j: int| 0 <= j < i ==> a@[j] == b@[j],
        decreases n - i,
    {
        if a.get_char(i) != b.get_char(i) {
            return false;
        }
        i += 1;
    }
    proof {
        assert(a@ =~= b@);
    }
    true
}

} // verus!
