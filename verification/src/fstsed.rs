//! The match engine, the match it hands out, and the scan of a line.

use vstd::prelude::*;
use vstd::slice::slice_subrange;
use vstd::slice::slice_to_vec;
use vstd::string::StringExecFns;
use vstd::utf8::decode_utf8;
use vstd::utf8::encode_utf8;
use vstd::utf8::encode_utf8_decode_utf8;
use vstd::utf8::valid_utf8;
use crate::codec::{decompress, lookup_text, text_of, zstd_decode};
use crate::matching::{
    all_matches, is_candidate, is_seed_byte, is_word_byte, lemma_longest_match_bounds,
    lemma_stuck_ends_search, longest_match, longest_upto, matches_after,
};
use crate::template::{
    append_chars, asks_for_json, chars_of, expand, field_text, find_in, key_name, same_text,
    test_for_json_keys, text_of_chars, value_name,
};
use crate::builder::Built;
use crate::transducer::{
    lemma_value_is_rest_of_record, starts_with, stores_exactly, well_linked,
    checksum_state, first_path, first_transition, fst_checksum, fst_data, fst_format_ok,
    lemma_walk_push, next_node, node_is_final, root_of, stored_value, transducer_from_bytes, walk,
    written_by_builder, SENTINEL,
};

verus! {

/// When matches are written in colour.
#[derive(Clone, Copy, Debug, PartialEq, Eq, Structural)]
pub enum ColorChoice {
    Always,
    AlwaysAnsi,
    Auto,
    Never,
}

/// Why a transducer could not be opened.
#[derive(Clone, Copy, Debug, PartialEq, Eq, Structural)]
pub enum OpenError {
    /// The bytes are no transducer that this build can read.
    Format,
    /// The bytes do not add up to the checksum stored with them.
    Checksum,
}

/// The template that is used where the caller names none.
pub open spec fn default_template() -> Seq<char> {
    "<{key}|{value}>"@
}

/// The template that `chosen` stands for: itself, or the default one.
pub open spec fn chosen_template(chosen: Option<String>) -> Seq<char> {
    match chosen {
        Some(template) => template@,
        None => default_template(),
    }
}

/// The template as the engine keeps it: between the escape sequences for
/// bold red and for reset where colour is `Always`, as it is otherwise.
pub open spec fn shown_template(template: Seq<char>, color: ColorChoice) -> Seq<char> {
    if color == ColorChoice::Always {
        "\x1b[1;31m"@ + template + "\x1b[0;0m"@
    } else {
        template
    }
}

/// The text that stands for a key that is no UTF-8.
pub open spec fn key_error_text() -> Seq<char> {
    "<keyerror>"@
}

/// The text that stands for a value that is no UTF-8.
pub open spec fn value_error_text() -> Seq<char> {
    "<valueerror>"@
}

/// The text that stands for a value that could not be decompressed.
pub open spec fn decompression_error_text() -> Seq<char> {
    "<decompressionerror>"@
}

/// The bytes as text, or `fallback` where they are no UTF-8.
pub open spec fn text_or(bytes: Seq<u8>, fallback: Seq<char>) -> Seq<char> {
    if valid_utf8(bytes) {
        decode_utf8(bytes)
    } else {
        fallback
    }
}

/// What the stored bytes of a value decompress to, or the bytes of the
/// text that stands for a failed decompression.
pub open spec fn unpacked_value(stored: Seq<u8>) -> Seq<u8> {
    match zstd_decode(stored) {
        Some(bytes) => bytes,
        None => encode_utf8(decompression_error_text()),
    }
}

/// What an engine is made with, as contracts speak of it: the bytes of the
/// transducer, the template as the engine keeps it, the colour choice, and
/// whether stored values are read as JSON.
pub struct Setup {
    pub automaton: Seq<u8>,
    pub template: Seq<char>,
    pub color: ColorChoice,
    pub json: bool,
}

impl Setup {
    /// What the match of `len` bytes at `start` in `text` reads when
    /// written through the template.
    pub open spec fn match_text(self, text: Seq<u8>, start: int, len: int) -> Seq<char> {
        let key = text.subrange(start, start + len);
        let unpacked = unpacked_value(stored_value(self.automaton, key));
        expand(
            self.template,
            0,
            text_or(key, key_error_text()),
            text_or(unpacked, value_error_text()),
            if self.json {
                Some(unpacked)
            } else {
                None
            },
        )
    }

    /// The bytes of `match_text`.
    pub open spec fn match_bytes(self, text: Seq<u8>, start: int, len: int) -> Seq<u8> {
        encode_utf8(self.match_text(text, start, len))
    }
}

/// What an engine is made with and never changes: the transducer, which
/// the builder of the `fst` crate wrote, and the template.
struct Settings {
    fst: fst::raw::Fst<Vec<u8>>,
    color: ColorChoice,
    template: String,
    template_chars: Vec<char>,
    has_json_keys: bool,
}

impl Settings {
    #[verifier::type_invariant]
    spec fn well_formed(self) -> bool {
        &&& written_by_builder(fst_data(self.fst))
        &&& self.template_chars@ == self.template@
    }
}

/// The match engine: a transducer, the template to write matches through,
/// and the scratch that holds the last match.
pub struct FstSed {
    settings: Settings,
    keycache: Vec<u8>,
    valuecache: Vec<u8>,
    startcache: usize,
}

impl FstSed {
    /// The bytes of the transducer.
    pub closed spec fn automaton(self) -> Seq<u8> {
        fst_data(self.settings.fst)
    }

    /// The template that matches are written through.
    pub closed spec fn template_text(self) -> Seq<char> {
        self.settings.template@
    }

    /// The colour choice the engine was made with.
    pub closed spec fn color_choice(self) -> ColorChoice {
        self.settings.color
    }

    /// Whether the engine reads stored values as JSON.
    pub closed spec fn wants_json(self) -> bool {
        self.settings.has_json_keys
    }

    /// The bytes of the key of the last match.
    pub closed spec fn key_bytes(self) -> Seq<u8> {
        self.keycache@
    }

    /// The stored bytes of the value of the last match.
    pub closed spec fn value_bytes(self) -> Seq<u8> {
        self.valuecache@
    }

    /// Where in its line the last match started.
    pub closed spec fn match_start(self) -> int {
        self.startcache as int
    }

    /// What the engine was made with.
    pub open spec fn setup(self) -> Setup {
        Setup {
            automaton: self.automaton(),
            template: self.template_text(),
            color: self.color_choice(),
            json: self.wants_json(),
        }
    }

    /// Whether two engines differ in their scratch at most.
    pub open spec fn same_settings(self, other: FstSed) -> bool {
        self.setup() == other.setup()
    }

    /// Whether the scratch holds no match.
    pub open spec fn is_clear(self) -> bool {
        &&& self.key_bytes() == Seq::<u8>::empty()
        &&& self.value_bytes() == Seq::<u8>::empty()
        &&& self.match_start() == 0
    }

    /// Whether the scratch holds the match of `len` bytes at `start` in
    /// `text`: its key, the stored bytes of its value, and its start.
    pub open spec fn holds_match(self, text: Seq<u8>, start: int, len: int) -> bool {
        &&& self.key_bytes() == text.subrange(start, start + len)
        &&& self.value_bytes() == stored_value(self.automaton(), text.subrange(start, start + len))
        &&& self.match_start() == start
    }

    /// What an engine over these bytes is made with.
    pub open spec fn setup_for(
        data: Seq<u8>,
        user_template: Option<String>,
        color: ColorChoice,
    ) -> Setup {
        Setup {
            automaton: data,
            template: shown_template(chosen_template(user_template), color),
            color,
            json: asks_for_json(chosen_template(user_template)),
        }
    }

    /// An engine over the transducer in `data`.
    ///
    /// The engine trusts the bytes: they have to be a transducer that the
    /// builder of the `fst` crate wrote. Two things are still tested, and
    /// the bytes refused where they fail: that the `fst` crate takes them
    /// for a transducer, and that they add up to their checksum if they
    /// carry one.
    ///
    /// The template is `user_template`, or the default one; where colour is
    /// `Always` it is put between the escape sequences for bold red and for
    /// reset. Whether stored values are read as JSON is decided from the
    /// template as the caller gave it.
    pub fn new(data: Vec<u8>, user_template: Option<String>, color: ColorChoice) -> (r: Result<
        FstSed,
        OpenError,
    >)
        requires
            written_by_builder(data@),
        ensures
            match r {
                Ok(engine) => {
                    &&& usize::BITS == 64
                    &&& fst_format_ok(data@)
                    &&& fst_checksum(data@) != Some(false)
                    &&& engine.setup() == Self::setup_for(data@, user_template, color)
                    &&& engine.is_clear()
                },
                Err(OpenError::Format) => !(usize::BITS == 64 && fst_format_ok(data@)),
                Err(OpenError::Checksum) => usize::BITS == 64 && fst_format_ok(data@)
                    && fst_checksum(data@) == Some(false),
            },
    {
        if usize::BITS != 64 {
            return Err(OpenError::Format);
        }
        let fst = match transducer_from_bytes(data) {
            Ok(fst) => fst,
            Err(_) => {
                return Err(OpenError::Format);
            },
        };
        match checksum_state(&fst) {
            Some(false) => {
                return Err(OpenError::Checksum);
            },
            _ => {},
        }
        let plain: String = match user_template {
            Some(template) => template,
            None => String::from_str("<{key}|{value}>"),
        };
        let has_json_keys: bool = test_for_json_keys(plain.as_str());
        let template: String = if color == ColorChoice::Always {
            let mut shown = String::from_str("\x1b[1;31m");
            shown.append(plain.as_str());
            shown.append("\x1b[0;0m");
            shown
        } else {
            plain
        };
        let template_chars = chars_of(template.as_str());
        Ok(
            FstSed {
                settings: Settings { fst, color, template, template_chars, has_json_keys },
                keycache: Vec::with_capacity(256),
                valuecache: Vec::with_capacity(2048),
                startcache: 0,
            },
        )
    }

    /// An engine over a transducer that has just been built. It is made
    /// wherever addresses have 64 bits.
    pub fn from_built(built: Built, user_template: Option<String>, color: ColorChoice) -> (r:
        Result<FstSed, OpenError>)
        ensures
            match r {
                Ok(engine) => {
                    &&& usize::BITS == 64
                    &&& engine.setup() == Self::setup_for(built.data(), user_template, color)
                    &&& engine.is_clear()
                },
                Err(error) => usize::BITS != 64 && error == OpenError::Format,
            },
    {
        Self::new(built.into_bytes(), user_template, color)
    }

    /// The colour choice the engine was made with.
    pub fn color(&self) -> (color: ColorChoice)
        ensures
            color == self.color_choice(),
    {
        self.settings.color
    }

    /// The template that matches are written through.
    pub fn template(&self) -> (template: &str)
        ensures
            template@ == self.template_text(),
    {
        self.settings.template.as_str()
    }

    /// The length in bytes of the key of the last match, 0 where the
    /// scratch holds none.
    pub fn get_match_len(&self) -> (len: usize)
        ensures
            len == self.key_bytes().len(),
    {
        self.keycache.len()
    }

    /// Where in its line the last match started, 0 where the scratch holds
    /// none.
    pub fn get_match_start(&self) -> (start: usize)
        ensures
            start == self.match_start(),
    {
        self.startcache
    }

    /// Empties the scratch.
    pub fn clear(&mut self)
        ensures
            final(self).same_settings(*old(self)),
            final(self).is_clear(),
    {
        self.keycache.clear();
        self.valuecache.clear();
        self.startcache = 0;
    }

    /// Looks for the longest key that matches in `text` at `start`.
    ///
    /// A key matches if the transducer stores a record under it, `text`
    /// goes on with it from `start`, and behind it `text` ends or holds a
    /// byte that is no word byte. Where a key matches, the result is the
    /// length of the longest one, and the scratch holds that match. Where
    /// none does, the result is `None` and the scratch is empty.
    pub fn longest_match_at(&mut self, text: &[u8], start: usize) -> (found: Option<usize>)
        requires
            start <= text@.len(),
        ensures
            final(self).same_settings(*old(self)),
            match found {
                Some(len) => {
                    &&& longest_match(old(self).automaton(), text@, start as int) == Some(
                        len as int,
                    )
                    &&& final(self).holds_match(text@, start as int, len as int)
                },
                None => {
                    &&& longest_match(old(self).automaton(), text@, start as int) is None
                    &&& final(self).is_clear()
                },
            },
    {
        proof {
            use_type_invariant(&self.settings);
        }
        self.clear();
        let n: usize = text.len();
        let ghost data = fst_data(self.settings.fst);
        let mut node: usize = root_of(&self.settings.fst);
        let mut best: Option<usize> = None;
        let mut i: usize = start;
        proof {
            assert(text@.subrange(start as int, start as int) =~= Seq::<u8>::empty());
        }
        while i < n
            invariant
                start <= i <= n,
                n == text@.len(),
                fst_data(self.settings.fst) == data,
                written_by_builder(data),
                self.same_settings(*old(self)),
                walk(data, text@.subrange(start as int, i as int)) == Some(node),
                match best {
                    Some(len) => {
                        &&& longest_upto(data, text@, start as int, i - start) == Some(len as int)
                        &&& self.holds_match(text@, start as int, len as int)
                    },
                    None => {
                        &&& longest_upto(data, text@, start as int, i - start) is None
                        &&& self.is_clear()
                    },
                },
            decreases n - i,
        {
            let byte: u8 = text[i];
            let ghost sofar = text@.subrange(start as int, i as int);
            proof {
                lemma_walk_push(data, sofar, byte);
                assert(text@.subrange(start as int, i + 1) =~= sofar.push(byte));
            }
            match next_node(&self.settings.fst, node, byte) {
                None => {
                    proof {
                        lemma_stuck_ends_search(
                            data,
                            text@,
                            start as int,
                            i - start + 1,
                            n - start,
                        );
                    }
                    return best;
                },
                Some(target) => {
                    node = target;
                    i += 1;
                    let ghost key = text@.subrange(start as int, i as int);
                    match next_node(&self.settings.fst, node, SENTINEL) {
                        Some(value_node) => {
                            if i == n || !is_word_byte(text[i]) {
                                proof {
                                    lemma_walk_push(data, key, SENTINEL);
                                }
                                self.keycache.clear();
                                self.keycache.extend_from_slice(slice_subrange(text, start, i));
                                self.startcache = start;
                                proof {
                                    assert(self.keycache@ =~= key);
                                }
                                self.read_value(Ghost(key.push(SENTINEL)), value_node);
                                best = Some(i - start);
                                proof {
                                    assert(is_candidate(data, text@, start as int, i - start));
                                }
                            }
                        },
                        None => {},
                    }
                },
            }
        }
        best
    }

    /// Reads the stored value that starts at the node `from` into the
    /// scratch, in place of what it held.
    fn read_value(&mut self, Ghost(path): Ghost<Seq<u8>>, from: usize)
        requires
            walk(old(self).automaton(), path) == Some(from),
        ensures
            final(self).same_settings(*old(self)),
            final(self).key_bytes() == old(self).key_bytes(),
            final(self).match_start() == old(self).match_start(),
            final(self).value_bytes() == first_path(old(self).automaton(), from),
    {
        proof {
            use_type_invariant(&self.settings);
        }
        self.valuecache.clear();
        let ghost data = fst_data(self.settings.fst);
        let ghost mut reached = path;
        let mut node: usize = from;
        let mut done: bool = false;
        while !done
            invariant
                fst_data(self.settings.fst) == data,
                written_by_builder(data),
                self.same_settings(*old(self)),
                self.key_bytes() == old(self).key_bytes(),
                self.match_start() == old(self).match_start(),
                walk(data, reached) == Some(node),
                !done ==> self.valuecache@ + first_path(data, node) == first_path(data, from),
                done ==> self.valuecache@ == first_path(data, from),
            decreases node + (if done { 0int } else { 1int }),
        {
            if node_is_final(&self.settings.fst, node) {
                proof {
                    assert(self.valuecache@ + Seq::<u8>::empty() =~= self.valuecache@);
                }
                done = true;
            } else {
                match first_transition(&self.settings.fst, node) {
                    Some((input, target)) => {
                        if target < node {
                            let ghost before = self.valuecache@;
                            self.valuecache.push(input);
                            proof {
                                lemma_walk_push(data, reached, input);
                                reached = reached.push(input);
                                assert(before.push(input) + first_path(data, target) =~= before + (
                                seq![input] + first_path(data, target)));
                            }
                            node = target;
                        } else {
                            proof {
                                assert(self.valuecache@ + Seq::<u8>::empty() =~= self.valuecache@);
                            }
                            done = true;
                        }
                    },
                    None => {
                        proof {
                            assert(self.valuecache@ + Seq::<u8>::empty() =~= self.valuecache@);
                        }
                        done = true;
                    },
                }
            }
        }
    }

    /// Looks for the longest key that matches at the start of `text`.
    pub fn longest_match(&mut self, text: &[u8]) -> (found: Option<usize>)
        ensures
            final(self).same_settings(*old(self)),
            match found {
                Some(len) => {
                    &&& longest_match(old(self).automaton(), text@, 0) == Some(len as int)
                    &&& final(self).holds_match(text@, 0, len as int)
                },
                None => {
                    &&& longest_match(old(self).automaton(), text@, 0) is None
                    &&& final(self).is_clear()
                },
            },
    {
        self.longest_match_at(text, 0)
    }

    /// The last match, ready to be written: its key and its value as text.
    ///
    /// The value is the stored bytes decompressed. A key that is no UTF-8
    /// reads `<keyerror>`, a value that cannot be decompressed reads
    /// `<decompressionerror>`, and one that is no UTF-8 reads
    /// `<valueerror>`. The match carries the decompressed value as the
    /// source of its JSON fields where the template asks for any.
    pub fn get_match(&self) -> (found: FstMatch<'_>)
        ensures
            found.key_text() == text_or(self.key_bytes(), key_error_text()),
            found.value_text() == text_or(
                unpacked_value(self.value_bytes()),
                value_error_text(),
            ),
            found.template_text() == self.template_text(),
            found.json_source() == if self.wants_json() {
                Some(unpacked_value(self.value_bytes()))
            } else {
                None
            },
    {
        proof {
            use_type_invariant(&self.settings);
        }
        let unpacked: Vec<u8> = match decompress(self.valuecache.as_slice()) {
            Some(bytes) => bytes,
            None => slice_to_vec("<decompressionerror>".as_bytes()),
        };
        let key: String = match text_of(self.keycache.as_slice()) {
            Some(text) => {
                proof {
                    encode_utf8_decode_utf8(text@);
                }
                text.to_owned()
            },
            None => String::from_str("<keyerror>"),
        };
        let value: String = match text_of(unpacked.as_slice()) {
            Some(text) => {
                proof {
                    encode_utf8_decode_utf8(text@);
                }
                text.to_owned()
            },
            None => String::from_str("<valueerror>"),
        };
        let jsonvalue: Option<Vec<u8>> = if self.settings.has_json_keys {
            Some(unpacked)
        } else {
            None
        };
        FstMatch { key, value, template: &self.settings.template_chars, jsonvalue }
    }

    /// A scan of `text` that has not begun.
    pub fn find_iter<'a>(&self, text: &'a [u8]) -> (scan: FstMatches<'a>)
        ensures
            scan.text() == text@,
            scan.pending(self.automaton()) == all_matches(self.automaton(), text@),
    {
        FstMatches::new(text)
    }
}

/// One match, ready to be written through the template of its engine.
pub struct FstMatch<'f> {
    key: String,
    value: String,
    template: &'f Vec<char>,
    jsonvalue: Option<Vec<u8>>,
}

impl<'f> FstMatch<'f> {
    /// The key as text.
    pub closed spec fn key_text(self) -> Seq<char> {
        self.key@
    }

    /// The value as text.
    pub closed spec fn value_text(self) -> Seq<char> {
        self.value@
    }

    /// The template to write the match through.
    pub closed spec fn template_text(self) -> Seq<char> {
        self.template@
    }

    /// The JSON source that fields other than the key and the value are
    /// looked up in, where the match carries one.
    pub closed spec fn json_source(self) -> Option<Seq<u8>> {
        match self.jsonvalue {
            Some(source) => Some(source@),
            None => None,
        }
    }

    /// What the match reads when written through its template.
    pub open spec fn rendered(self) -> Seq<char> {
        expand(
            self.template_text(),
            0,
            self.key_text(),
            self.value_text(),
            self.json_source(),
        )
    }

    /// What the placeholder `field_name` stands for in this match.
    pub fn get_field(&self, field_name: &str) -> (text: String)
        ensures
            text@ == field_text(
                self.key_text(),
                self.value_text(),
                self.json_source(),
                field_name@,
            ),
    {
        proof {
            reveal_strlit("key");
            reveal_strlit("value");
            assert("key"@ =~= key_name());
            assert("value"@ =~= value_name());
        }
        if same_text(field_name, "key") {
            self.key.clone()
        } else if same_text(field_name, "value") {
            self.value.clone()
        } else {
            match &self.jsonvalue {
                Some(source) => match lookup_text(source.as_slice(), field_name) {
                    Some(text) => text,
                    None => String::new(),
                },
                None => String::new(),
            }
        }
    }

    /// The match written through its template.
    pub fn render(&self) -> (text: String)
        ensures
            text@ == self.rendered(),
    {
        let template: &Vec<char> = self.template;
        let n: usize = template.len();
        let ghost key = self.key_text();
        let ghost value = self.value_text();
        let ghost doc = self.json_source();
        let mut text = String::new();
        let mut from: usize = 0;
        let mut done: bool = false;
        proof {
            assert(text@ + expand(template@, 0, key, value, doc) =~= expand(
                template@,
                0,
                key,
                value,
                doc,
            ));
        }
        while !done
            invariant
                n == template@.len(),
                template@ == self.template_text(),
                key == self.key_text(),
                value == self.value_text(),
                doc == self.json_source(),
                from <= n,
                !done ==> text@ + expand(template@, from as int, key, value, doc) == expand(
                    template@,
                    0,
                    key,
                    value,
                    doc,
                ),
                done ==> text@ == expand(template@, 0, key, value, doc),
            decreases n - from + (if done { 0int } else { 1int }),
        {
            let ghost written = text@;
            let open: usize = find_in(template, '{', from);
            if open >= n {
                append_chars(&mut text, template, from, n);
                done = true;
            } else {
                let close: usize = find_in(template, '}', open + 1);
                if close >= n {
                    append_chars(&mut text, template, from, open);
                    append_chars(&mut text, template, from, n);
                    proof {
                        assert(text@ =~= written + (template@.subrange(from as int, open as int)
                            + template@.subrange(from as int, n as int)));
                    }
                    done = true;
                } else {
                    append_chars(&mut text, template, from, open);
                    let name: String = text_of_chars(template, open + 1, close);
                    let field: String = self.get_field(name.as_str());
                    text.append(field.as_str());
                    proof {
                        assert(text@ + expand(template@, close + 1, key, value, doc) =~= written
                            + (template@.subrange(from as int, open as int) + field@ + expand(
                            template@,
                            close + 1,
                            key,
                            value,
                            doc,
                        )));
                    }
                    from = close + 1;
                }
            }
        }
        text
    }
}

/// A scan of one line for matches.
///
/// The scan tries the start of the line first, and then the place behind
/// each seed byte, in order. It passes over the seeds that lie within a
/// match.
pub struct FstMatches<'a> {
    haystack: &'a [u8],
    cursor: usize,
    fresh: bool,
}

impl<'a> FstMatches<'a> {
    #[verifier::type_invariant]
    spec fn well_formed(self) -> bool {
        &&& self.cursor <= self.haystack@.len()
        &&& self.fresh ==> self.cursor == 0
    }

    /// The line under the scan.
    pub closed spec fn text(self) -> Seq<u8> {
        self.haystack@
    }

    /// The matches that the scan has yet to report, with the transducer in
    /// `data`.
    pub closed spec fn pending(self, data: Seq<u8>) -> Seq<(int, int)> {
        if self.fresh {
            all_matches(data, self.haystack@)
        } else {
            matches_after(data, self.haystack@, self.cursor as int)
        }
    }

    /// A scan of `haystack` that has not begun.
    pub fn new(haystack: &'a [u8]) -> (scan: Self)
        ensures
            scan.text() == haystack@,
            forall|data: Seq<u8>| #[trigger] scan.pending(data) == all_matches(data, haystack@),
    {
        FstMatches { haystack, cursor: 0, fresh: true }
    }

    /// The start of the next match, with the match itself in the scratch of
    /// `fstsed`; or `None` with an empty scratch, where the line holds no
    /// further match.
    pub fn next(&mut self, fstsed: &mut FstSed) -> (r: Option<usize>)
        ensures
            final(self).text() == old(self).text(),
            final(fstsed).same_settings(*old(fstsed)),
            match r {
                Some(start) => {
                    let pending = old(self).pending(old(fstsed).automaton());
                    &&& pending.len() > 0
                    &&& pending[0].0 == start
                    &&& final(self).pending(old(fstsed).automaton()) == pending.drop_first()
                    &&& final(fstsed).holds_match(old(self).text(), pending[0].0, pending[0].1)
                },
                None => {
                    &&& old(self).pending(old(fstsed).automaton()).len() == 0
                    &&& final(self).pending(old(fstsed).automaton()).len() == 0
                    &&& final(fstsed).is_clear()
                },
            },
    {
        proof {
            use_type_invariant(&*self);
        }
        let hay: &'a [u8] = self.haystack;
        let n: usize = hay.len();
        let ghost data = fstsed.automaton();
        let ghost before = self.pending(data);
        let mut seed: usize = self.cursor;
        if self.fresh {
            match fstsed.longest_match_at(hay, 0) {
                Some(len) => {
                    proof {
                        lemma_longest_match_bounds(data, hay@, 0);
                    }
                    *self = FstMatches { haystack: hay, cursor: len, fresh: false };
                    proof {
                        assert(before.drop_first() =~= matches_after(data, hay@, len as int));
                    }
                    return Some(0);
                },
                None => {},
            }
        }
        while seed < n
            invariant
                seed <= n,
                n == hay@.len(),
                hay@ == old(self).text(),
                data == old(fstsed).automaton(),
                fstsed.same_settings(*old(fstsed)),
                before == old(self).pending(data),
                before == matches_after(data, hay@, seed as int),
            decreases n - seed,
        {
            if is_seed_byte(hay[seed]) {
                match fstsed.longest_match_at(hay, seed + 1) {
                    Some(len) => {
                        proof {
                            lemma_longest_match_bounds(data, hay@, seed + 1);
                        }
                        *self = FstMatches {
                            haystack: hay,
                            cursor: seed + 1 + len,
                            fresh: false,
                        };
                        proof {
                            assert(before.drop_first() =~= matches_after(
                                data,
                                hay@,
                                seed + 1 + len,
                            ));
                        }
                        return Some(seed + 1);
                    },
                    None => {},
                }
            }
            seed += 1;
        }
        *self = FstMatches { haystack: hay, cursor: n, fresh: false };
        fstsed.clear();
        None
    }
}

/// A match renders the line it was built from. Where a transducer stores
/// exactly the records it was built from, with its nodes linked as the
/// builder links them, and one of the records stands alone under its key,
/// the value of a match of that key is what the record holds behind its
/// sentinel. Where that decompresses to the line, the match is written as
/// the template over the key and the line.
pub proof fn law_match_renders_its_line(
    setup: Setup,
    records: Seq<Seq<u8>>,
    key: Seq<u8>,
    packed: Seq<u8>,
    line: Seq<u8>,
    text: Seq<u8>,
    start: int,
)
    requires
        stores_exactly(setup.automaton, records),
        well_linked(setup.automaton),
        records.contains(key.push(SENTINEL) + packed),
        forall|record: Seq<u8>|
            records.contains(record) && #[trigger] starts_with(record, key.push(SENTINEL))
                ==> record == key.push(SENTINEL) + packed,
        zstd_decode(packed) == Some(line),
        0 <= start,
        start + key.len() <= text.len(),
        text.subrange(start, start + key.len()) == key,
    ensures
        stored_value(setup.automaton, key) == packed,
        unpacked_value(stored_value(setup.automaton, key)) == line,
        setup.match_text(text, start, key.len() as int) == expand(
            setup.template,
            0,
            text_or(key, key_error_text()),
            text_or(line, value_error_text()),
            if setup.json {
                Some(line)
            } else {
                None
            },
        ),
{
    let stem = key.push(SENTINEL);
    lemma_value_is_rest_of_record(setup.automaton, records, stem, packed, 0);
    assert(stem + packed.subrange(0, 0) =~= stem);
    assert(packed.subrange(0, packed.len() as int) =~= packed);
}

} // verus!
