//! Builds the transducer from lines of JSON.
//!
//! Each line that holds a string under the chosen key becomes a record: the
//! key, the sentinel byte, and the line itself, compressed. The records are
//! put in order and written as a set of the `fst` crate.

use vstd::prelude::*;
use vstd::pervasive::unreached;
use vstd::relations::sorted_by;
use vstd::seq_lib::lemma_sorted_unique;
use vstd::string::StringExecFns;
use vstd::utf8::encode_utf8;
use crate::codec::{compress, json_lookup, lookup_text, zstd_decode, zstd_encode};
use crate::order::{lemma_lex_order_is_total, lemma_lex_transitive, lex_le, lex_order};
use crate::transducer::{
    fst_checksum, fst_format_ok, fst_image, stores_exactly, well_linked, written_by_builder,
    SENTINEL,
};

verus! {

/// The level at which lines are compressed.
pub const COMPRESSION_LEVEL: i32 = 3;

#[verifier::external_type_specification]
#[verifier::external_body]
#[verifier::reject_recursive_types(W)]
pub struct ExSetBuilder<W>(fst::SetBuilder<W>);

/// The keys that have been put into a set builder, in the order in which
/// they were put.
pub uninterp spec fn builder_keys(builder: fst::SetBuilder<Vec<u8>>) -> Seq<Seq<u8>>;

/// The byte strings that the vectors hold.
pub open spec fn views(tuples: Seq<Vec<u8>>) -> Seq<Seq<u8>> {
    Seq::new(tuples.len(), |i: int| tuples[i]@)
}

/// `fst::SetBuilder::memory`: a builder that writes to memory and holds no
/// key yet.
#[verifier::external_body]
pub(crate) fn new_set_builder() -> (builder: fst::SetBuilder<Vec<u8>>)
    ensures
        builder_keys(builder) == Seq::<Seq<u8>>::empty(),
{
    fst::SetBuilder::memory()
}

/// `fst::SetBuilder::insert`: takes the key unless it comes before the key
/// that was put in last, and leaves the builder as it was where it refuses.
#[verifier::external_body]
pub(crate) fn insert_key(builder: &mut fst::SetBuilder<Vec<u8>>, key: &[u8]) -> (r: Result<
    (),
    fst::Error,
>)
    ensures
        r is Ok == (builder_keys(*old(builder)).len() == 0 || lex_le(
            builder_keys(*old(builder)).last(),
            key@,
        )),
        r is Ok ==> builder_keys(*final(builder)) == builder_keys(*old(builder)).push(key@),
        r is Err ==> builder_keys(*final(builder)) == builder_keys(*old(builder)),
{
    builder.insert(key)
}

/// `fst::SetBuilder::into_inner`: the bytes of the finished transducer.
/// A builder that writes to memory cannot fail to finish. The bytes close
/// with their checksum, `fst::raw::Fst::new` takes them, the set they make
/// holds the keys that were put in and no others, and its nodes hang
/// together as the builder makes them.
#[verifier::external_body]
pub(crate) fn finish_set(builder: fst::SetBuilder<Vec<u8>>) -> (r: Result<Vec<u8>, fst::Error>)
    ensures
        r is Ok,
        r matches Ok(bytes) ==> {
            &&& bytes@ == fst_image(builder_keys(builder))
            &&& fst_format_ok(bytes@)
            &&& fst_checksum(bytes@) == Some(true)
            &&& stores_exactly(bytes@, builder_keys(builder))
            &&& well_linked(bytes@)
        },
{
    builder.into_inner()
}

/// `<[Vec<u8>]>::sort_unstable`: puts the byte strings in order and keeps
/// each of them as often as it was there.
#[verifier::external_body]
pub(crate) fn sort_tuples(tuples: &mut Vec<Vec<u8>>)
    ensures
        sorted_by(views(final(tuples)@), lex_order()),
        views(final(tuples)@).to_multiset() == views(old(tuples)@).to_multiset(),
{
    tuples.sort_unstable()
}

/// Whether the bytes hold no sentinel.
pub open spec fn free_of_sentinel(bytes: Seq<u8>) -> bool {
    forall|i: int| 0 <= i < bytes.len() ==> bytes[i] != SENTINEL
}

/// The record that a line gives under this key: the string found in the
/// line under the key, the sentinel, and the line itself compressed.
/// `None` where the line holds no string under the key, where that string
/// holds the sentinel, and where the line cannot be compressed.
pub open spec fn record_of(line: Seq<u8>, key: Seq<char>) -> Option<Seq<u8>> {
    match json_lookup(line, key) {
        Some(found) => if free_of_sentinel(encode_utf8(found)) {
            match zstd_encode(line, COMPRESSION_LEVEL) {
                Some(packed) => Some(encode_utf8(found).push(SENTINEL) + packed),
                None => None,
            }
        } else {
            None
        },
        None => None,
    }
}

/// No stored key holds the sentinel: every record parts at its first
/// sentinel into the key before it and the compressed line behind it.
pub proof fn law_record_parts_at_first_sentinel(line: Seq<u8>, key: Seq<char>)
    requires
        record_of(line, key) is Some,
    ensures
        ({
            let record = record_of(line, key)->0;
            let stored_key = encode_utf8(json_lookup(line, key)->0);
            let split = stored_key.len() as int;
            &&& split < record.len()
            &&& record[split] == SENTINEL
            &&& forall|i: int| 0 <= i < split ==> record[i] != SENTINEL
            &&& record.subrange(0, split) == stored_key
            &&& Some(record.subrange(split + 1, record.len() as int)) == zstd_encode(
                line,
                COMPRESSION_LEVEL,
            )
        }),
{
    let record = record_of(line, key)->0;
    let stored_key = encode_utf8(json_lookup(line, key)->0);
    let packed = zstd_encode(line, COMPRESSION_LEVEL)->0;
    let split = stored_key.len() as int;
    assert(record.subrange(0, split) =~= stored_key);
    assert(record.subrange(split + 1, record.len() as int) =~= packed);
}

/// The records that the first `n` lines give, in the order of the lines.
pub open spec fn records_upto(lines: Seq<Seq<u8>>, key: Seq<char>, n: int) -> Seq<Seq<u8>>
    decreases n,
{
    if n <= 0 {
        Seq::empty()
    } else {
        let line = lines[n - 1];
        let before = records_upto(lines, key, n - 1);
        if line.len() > 0 && record_of(line, key) is Some {
            before.push(record_of(line, key)->0)
        } else {
            before
        }
    }
}

/// How many of the first `n` lines are empty.
pub open spec fn blanks_upto(lines: Seq<Seq<u8>>, n: int) -> int
    decreases n,
{
    if n <= 0 {
        0
    } else if lines[n - 1].len() == 0 {
        blanks_upto(lines, n - 1) + 1
    } else {
        blanks_upto(lines, n - 1)
    }
}

/// How many of the first `n` lines are not empty and give no record.
pub open spec fn errors_upto(lines: Seq<Seq<u8>>, key: Seq<char>, n: int) -> int
    decreases n,
{
    if n <= 0 {
        0
    } else if lines[n - 1].len() > 0 && record_of(lines[n - 1], key) is None {
        errors_upto(lines, key, n - 1) + 1
    } else {
        errors_upto(lines, key, n - 1)
    }
}

/// The records in the order in which they are written: as they are where
/// the caller has them in order already, sorted otherwise.
pub open spec fn write_order(records: Seq<Seq<u8>>, sorted: bool) -> Seq<Seq<u8>> {
    if sorted {
        records
    } else {
        records.sort_by(lex_order())
    }
}

/// The order in which records are written holds the records that were
/// given and no others.
pub proof fn lemma_write_order_keeps_records(records: Seq<Seq<u8>>, sorted: bool)
    ensures
        forall|record: Seq<u8>|
            #[trigger] write_order(records, sorted).contains(record) <==> records.contains(record),
{
    if !sorted {
        lemma_lex_order_is_total();
        records.lemma_sort_by_ensures(lex_order());
        let ordered = records.sort_by(lex_order());
        assert forall|record: Seq<u8>| #[trigger] ordered.contains(record) <==> records.contains(
            record,
        ) by {
            broadcast use vstd::seq_lib::group_to_multiset_ensures;

            assert(ordered.to_multiset().count(record) == records.to_multiset().count(record));
        }
    }
}

/// Why no transducer was built.
#[derive(Clone, Copy, Debug, PartialEq, Eq, Structural)]
pub enum BuildError {
    /// The caller took the records to be in order, and they are not.
    OutOfOrder,
}

/// What a line did to the records.
#[derive(Clone, Copy, Debug, PartialEq, Eq, Structural)]
pub enum LineOutcome {
    /// The line was empty.
    Blank,
    /// The line gave a record.
    Accepted,
    /// The line gave none.
    Rejected,
}

/// The records gathered so far, and the count of the lines that gave none.
pub struct Records {
    key: String,
    tuples: Vec<Vec<u8>>,
    errors: usize,
    blanks: usize,
}

impl Records {
    /// The key under which lines are looked up.
    pub closed spec fn key_text(self) -> Seq<char> {
        self.key@
    }

    /// The records, in the order in which their lines came.
    pub closed spec fn records(self) -> Seq<Seq<u8>> {
        views(self.tuples@)
    }

    /// The number of lines that were not empty and gave no record.
    pub closed spec fn error_count(self) -> int {
        self.errors as int
    }

    /// The number of empty lines.
    pub closed spec fn blank_count(self) -> int {
        self.blanks as int
    }

    /// No records yet, for lines to be looked up under `key`: a JSON
    /// pointer if it starts with a slash, the name of a member otherwise.
    pub fn new(key: &str) -> (gathered: Self)
        ensures
            gathered.key_text() == key@,
            gathered.records() == Seq::<Seq<u8>>::empty(),
            gathered.error_count() == 0,
            gathered.blank_count() == 0,
    {
        let gathered = Records {
            key: String::from_str(key),
            tuples: Vec::new(),
            errors: 0,
            blanks: 0,
        };
        proof {
            assert(views(gathered.tuples@) =~= Seq::<Seq<u8>>::empty());
        }
        gathered
    }

    /// The number of records.
    pub fn accepted(&self) -> (count: usize)
        ensures
            count == self.records().len(),
    {
        self.tuples.len()
    }

    /// The number of lines that were not empty and gave no record.
    pub fn errors(&self) -> (count: usize)
        ensures
            count == self.error_count(),
    {
        self.errors
    }

    /// The number of empty lines.
    pub fn blanks(&self) -> (count: usize)
        ensures
            count == self.blank_count(),
    {
        self.blanks
    }

    /// Takes one line, without its line ending. An empty line is counted
    /// as blank. A line that gives a record adds it. Any other line is
    /// counted as an error.
    pub fn add_line(&mut self, line: &[u8]) -> (outcome: LineOutcome)
        requires
            old(self).error_count() < usize::MAX,
            old(self).blank_count() < usize::MAX,
        ensures
            final(self).key_text() == old(self).key_text(),
            match outcome {
                LineOutcome::Blank => {
                    &&& line@.len() == 0
                    &&& final(self).records() == old(self).records()
                    &&& final(self).error_count() == old(self).error_count()
                    &&& final(self).blank_count() == old(self).blank_count() + 1
                },
                LineOutcome::Accepted => {
                    &&& line@.len() > 0
                    &&& record_of(line@, old(self).key_text()) matches Some(record)
                    &&& final(self).records() == old(self).records().push(record)
                    &&& final(self).error_count() == old(self).error_count()
                    &&& final(self).blank_count() == old(self).blank_count()
                },
                LineOutcome::Rejected => {
                    &&& line@.len() > 0
                    &&& record_of(line@, old(self).key_text()) is None
                    &&& final(self).records() == old(self).records()
                    &&& final(self).error_count() == old(self).error_count() + 1
                    &&& final(self).blank_count() == old(self).blank_count()
                },
            },
    {
        if line.len() == 0 {
            self.blanks = self.blanks + 1;
            return LineOutcome::Blank;
        }
        match make_record(line, self.key.as_str()) {
            Some(tuple) => {
                let ghost before = self.tuples@;
                self.tuples.push(tuple);
                proof {
                    assert(views(self.tuples@) =~= views(before).push(tuple@));
                }
                LineOutcome::Accepted
            },
            None => {
                self.errors = self.errors + 1;
                LineOutcome::Rejected
            },
        }
    }

    /// Writes the records as a transducer.
    ///
    /// With `sorted` the records are written in the order in which they
    /// came, and the writing fails if that is not the order of byte
    /// strings. Without it they are sorted first, and the writing succeeds.
    /// The bytes are those that the `fst` crate writes for the records in
    /// that order, and the transducer stores the records and nothing else.
    pub fn finish(self, sorted: bool) -> (r: Result<Built, BuildError>)
        ensures
            match r {
                Ok(built) => {
                    &&& sorted_by(write_order(self.records(), sorted), lex_order())
                    &&& built.data() == fst_image(write_order(self.records(), sorted))
                    &&& stores_exactly(built.data(), self.records())
                    &&& well_linked(built.data())
                    &&& built.accepted_count() == self.records().len()
                    &&& built.error_count() == self.error_count()
                    &&& built.blank_count() == self.blank_count()
                },
                Err(BuildError::OutOfOrder) => sorted && !sorted_by(self.records(), lex_order()),
            },
    {
        let ghost given = self.records();
        let errors: usize = self.errors;
        let blanks: usize = self.blanks;
        let mut tuples: Vec<Vec<u8>> = self.tuples;
        let accepted: usize = tuples.len();
        if !sorted {
            sort_tuples(&mut tuples);
            proof {
                lemma_sorting_leaves_no_choice(given, views(tuples@));
            }
        }
        let ghost ordered = views(tuples@);
        let mut builder = new_set_builder();
        let mut i: usize = 0;
        proof {
            assert(ordered.subrange(0, 0) =~= Seq::<Seq<u8>>::empty());
        }
        while i < tuples.len()
            invariant
                i <= tuples@.len(),
                given == self.records(),
                accepted == given.len(),
                errors == self.error_count(),
                blanks == self.blank_count(),
                ordered == views(tuples@),
                ordered == write_order(given, sorted),
                !sorted ==> sorted_by(ordered, lex_order()),
                builder_keys(builder) == ordered.subrange(0, i as int),
                sorted_by(ordered.subrange(0, i as int), lex_order()),
            decreases tuples@.len() - i,
        {
            let ghost before = builder_keys(builder);
            match insert_key(&mut builder, tuples[i].as_slice()) {
                Ok(_) => {
                    proof {
                        let longer = ordered.subrange(0, i + 1);
                        assert(longer =~= before.push(ordered[i as int]));
                        lemma_lex_order_is_total();
                        assert forall|a: int, b: int| 0 <= a < b < longer.len() implies (
                        #[trigger] lex_order()(longer[a], longer[b])) by {
                            if b < i {
                                assert(lex_order()(before[a], before[b]));
                            } else if a == i - 1 {
                            } else {
                                assert(lex_order()(before[a], before[i - 1]));
                                lemma_lex_transitive(longer[a], before[i - 1], longer[b]);
                            }
                        }
                    }
                },
                Err(_) => {
                    proof {
                        assert(before.last() == ordered[i - 1]);
                        assert(tuples@[i as int]@ == ordered[i as int]);
                        if sorted_by(ordered, lex_order()) {
                            assert(lex_order()(ordered[i - 1], ordered[i as int]));
                        }
                    }
                    return Err(BuildError::OutOfOrder);
                },
            }
            i += 1;
        }
        proof {
            assert(ordered.subrange(0, tuples@.len() as int) =~= ordered);
            lemma_write_order_keeps_records(given, sorted);
        }
        match finish_set(builder) {
            Ok(fst) => Ok(Built { fst, accepted, errors, blanks }),
            Err(_) => unreached(),
        }
    }
}

/// Whether `bytes` hold no sentinel.
pub fn holds_no_sentinel(bytes: &[u8]) -> (free: bool)
    ensures
        free == free_of_sentinel(bytes@),
{
    let mut i: usize = 0;
    while i < bytes.len()
        invariant
            i <= bytes@.len(),
            forall|j: int| 0 <= j < i ==> bytes@[j] != SENTINEL,
        decreases bytes@.len() - i,
    {
        if bytes[i] == SENTINEL {
            return false;
        }
        i += 1;
    }
    true
}

/// The record that `line` gives under `key`, if it gives one. What the
/// record holds behind its sentinel decompresses to the line.
pub fn make_record(line: &[u8], key: &str) -> (r: Option<Vec<u8>>)
    ensures
        match r {
            Some(tuple) => record_of(line@, key@) == Some(tuple@) && zstd_decode(
                zstd_encode(line@, COMPRESSION_LEVEL)->0,
            ) == Some(line@),
            None => record_of(line@, key@) is None,
        },
{
    match lookup_text(line, key) {
        Some(found) => {
            if !holds_no_sentinel(found.as_str().as_bytes()) {
                return None;
            }
            match compress(line, COMPRESSION_LEVEL) {
                Some(packed) => {
                    let mut tuple: Vec<u8> = Vec::new();
                    tuple.extend_from_slice(found.as_str().as_bytes());
                    tuple.push(SENTINEL);
                    tuple.extend_from_slice(packed.as_slice());
                    proof {
                        assert(tuple@ =~= encode_utf8(found@).push(SENTINEL) + packed@);
                    }
                    Some(tuple)
                },
                None => None,
            }
        },
        None => None,
    }
}

/// A finished transducer, and what became of the lines it was built from.
pub struct Built {
    fst: Vec<u8>,
    accepted: usize,
    errors: usize,
    blanks: usize,
}

impl Built {
    #[verifier::type_invariant]
    spec fn well_formed(self) -> bool {
        &&& written_by_builder(self.fst@)
        &&& fst_format_ok(self.fst@)
        &&& fst_checksum(self.fst@) == Some(true)
    }

    /// The bytes of the transducer.
    pub closed spec fn data(self) -> Seq<u8> {
        self.fst@
    }

    /// The number of lines that gave a record.
    pub closed spec fn accepted_count(self) -> int {
        self.accepted as int
    }

    /// The number of lines that were not empty and gave no record.
    pub closed spec fn error_count(self) -> int {
        self.errors as int
    }

    /// The number of empty lines.
    pub closed spec fn blank_count(self) -> int {
        self.blanks as int
    }

    /// The bytes of the transducer: bytes that the builder of the `fst`
    /// crate wrote, that it takes for a transducer, and whose checksum is
    /// in order.
    pub fn bytes(&self) -> (bytes: &Vec<u8>)
        ensures
            bytes@ == self.data(),
            written_by_builder(bytes@),
            fst_format_ok(bytes@),
            fst_checksum(bytes@) == Some(true),
    {
        proof {
            use_type_invariant(self);
        }
        &self.fst
    }

    /// The bytes of the transducer, without the counts.
    pub fn into_bytes(self) -> (bytes: Vec<u8>)
        ensures
            bytes@ == self.data(),
            written_by_builder(bytes@),
            fst_format_ok(bytes@),
            fst_checksum(bytes@) == Some(true),
    {
        proof {
            use_type_invariant(&self);
        }
        self.fst
    }

    /// The number of lines that gave a record.
    pub fn accepted(&self) -> (count: usize)
        ensures
            count == self.accepted_count(),
    {
        self.accepted
    }

    /// The number of lines that were not empty and gave no record.
    pub fn errors(&self) -> (count: usize)
        ensures
            count == self.error_count(),
    {
        self.errors
    }

    /// The number of empty lines.
    pub fn blanks(&self) -> (count: usize)
        ensures
            count == self.blank_count(),
    {
        self.blanks
    }
}

/// Builds a transducer from `lines`, each without its line ending.
///
/// Every line that is not empty and holds a string without a sentinel
/// under `key` gives a record. With `sorted` the caller vouches that the
/// records come in the order of byte strings, and the building fails if
/// they do not; without it they are sorted, and the building succeeds.
pub fn build_fstsed(lines: &Vec<Vec<u8>>, key: &str, sorted: bool) -> (r: Result<
    Built,
    BuildError,
>)
    ensures
        match r {
            Ok(built) => {
                let records = records_upto(views(lines@), key@, lines@.len() as int);
                &&& sorted_by(write_order(records, sorted), lex_order())
                &&& built.data() == built_bytes(views(lines@), key@, sorted)
                &&& stores_exactly(built.data(), records)
                &&& well_linked(built.data())
                &&& built.accepted_count() == records.len()
                &&& built.error_count() == errors_upto(views(lines@), key@, lines@.len() as int)
                &&& built.blank_count() == blanks_upto(views(lines@), lines@.len() as int)
            },
            Err(BuildError::OutOfOrder) => sorted && !sorted_by(
                records_upto(views(lines@), key@, lines@.len() as int),
                lex_order(),
            ),
        },
{
    let mut gathered = Records::new(key);
    let ghost all = views(lines@);
    let mut i: usize = 0;
    while i < lines.len()
        invariant
            i <= lines@.len(),
            all == views(lines@),
            gathered.key_text() == key@,
            gathered.records() == records_upto(all, key@, i as int),
            gathered.error_count() == errors_upto(all, key@, i as int),
            gathered.blank_count() == blanks_upto(all, i as int),
            gathered.error_count() + gathered.blank_count() <= i,
        decreases lines@.len() - i,
    {
        gathered.add_line(lines[i].as_slice());
        i += 1;
    }
    gathered.finish(sorted)
}

/// The bytes of the transducer that is built from these lines under this
/// key.
pub open spec fn built_bytes(lines: Seq<Seq<u8>>, key: Seq<char>, sorted: bool) -> Seq<u8> {
    fst_image(write_order(records_upto(lines, key, lines.len() as int), sorted))
}

/// Any way of putting the records in order gives the order in which they
/// are written: sorting leaves no choice, not even among equal records.
pub proof fn lemma_sorting_leaves_no_choice(records: Seq<Seq<u8>>, order: Seq<Seq<u8>>)
    requires
        sorted_by(order, lex_order()),
        order.to_multiset() == records.to_multiset(),
    ensures
        order == write_order(records, false),
{
    lemma_lex_order_is_total();
    records.lemma_sort_by_ensures(lex_order());
    lemma_sorted_unique(order, records.sort_by(lex_order()), lex_order());
}

/// Building twice from the same lines under the same key gives the same
/// bytes.
pub proof fn law_build_is_repeatable(
    lines: Seq<Seq<u8>>,
    key: Seq<char>,
    sorted: bool,
    first: Seq<u8>,
    second: Seq<u8>,
)
    requires
        first == built_bytes(lines, key, sorted),
        second == built_bytes(lines, key, sorted),
    ensures
        first == second,
{
}

} // verus!
