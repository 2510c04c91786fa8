//! The transducer that holds the records, and the questions the engine
//! asks of it.
//!
//! A record is a key, the sentinel byte and the compressed value, stored as
//! one byte string in a set built by the `fst` crate. The engine never
//! looks at the bytes of the transducer itself. It walks from node to node,
//! and everything it knows of a node comes through the functions below,
//! whose contracts are taken on trust from the `fst` crate.
//!
//! Nodes are known by their addresses. What a node holds is a function of
//! the bytes of the transducer and the address, and is given a name here
//! rather than spelled out. The `fst` crate reads a node without checking
//! it, and on bytes that its builder did not write it may fail in doing so.
//! So the functions that read a node ask for two things: that the builder
//! of the `fst` crate wrote the bytes, and that the address is one that a
//! walk from the root has reached. Whether the builder wrote some bytes
//! cannot be told from the bytes. It is known of what the builder has just
//! returned, and is taken on the caller's word of bytes that come from
//! elsewhere.

use vstd::prelude::*;
use vstd::relations::sorted_by;
use crate::order::lex_order;

verus! {

/// The byte that parts a key from its value within a record.
pub const SENTINEL: u8 = 0;

#[verifier::external_type_specification]
#[verifier::external_body]
#[verifier::reject_recursive_types(D)]
pub struct ExFst<D>(fst::raw::Fst<D>);

#[verifier::external_type_specification]
#[verifier::external_body]
pub struct ExFstError(fst::Error);

/// The bytes that a transducer was made of.
pub uninterp spec fn fst_data(fst: fst::raw::Fst<Vec<u8>>) -> Seq<u8>;

/// Whether `fst::raw::Fst::new` takes these bytes for a transducer.
pub uninterp spec fn fst_format_ok(data: Seq<u8>) -> bool;

/// What `fst::raw::Fst::verify` finds of the checksum of these bytes:
/// `Some(true)` where it is in order, `Some(false)` where it is not, and
/// `None` where the bytes carry no checksum.
pub uninterp spec fn fst_checksum(data: Seq<u8>) -> Option<bool>;

/// The bytes of the transducer that `fst::SetBuilder::into_inner` writes
/// for these keys, on machines of one address width.
pub uninterp spec fn fst_image(keys: Seq<Seq<u8>>) -> Seq<u8>;

/// Whether the bytes are a transducer that the builder of the `fst` crate
/// wrote: what it writes for some keys that came to it in order.
pub open spec fn written_by_builder(data: Seq<u8>) -> bool {
    exists|keys: Seq<Seq<u8>>| sorted_by(keys, lex_order()) && data == #[trigger] fst_image(keys)
}

/// The address of the root node.
pub uninterp spec fn fst_root(data: Seq<u8>) -> usize;

/// The index, within the node at `addr`, of the transition on `input`.
pub uninterp spec fn fst_find(data: Seq<u8>, addr: usize, input: u8) -> Option<usize>;

/// The address that the transition with this index leads to.
pub uninterp spec fn fst_target(data: Seq<u8>, addr: usize, index: usize) -> usize;

/// Whether the node at `addr` ends a stored byte string.
pub uninterp spec fn fst_final(data: Seq<u8>, addr: usize) -> bool;

/// The input byte and the target of the first transition of the node at
/// `addr`, if it has any.
pub uninterp spec fn fst_first(data: Seq<u8>, addr: usize) -> Option<(u8, usize)>;

/// The node that the transition on `input` leads to from the node at `addr`.
pub open spec fn fst_next(data: Seq<u8>, addr: usize, input: u8) -> Option<usize> {
    match fst_find(data, addr, input) {
        Some(index) => Some(fst_target(data, addr, index)),
        None => None,
    }
}

/// The node reached from the root along the bytes of `path`, if the
/// transducer has a transition for each of them.
pub open spec fn walk(data: Seq<u8>, path: Seq<u8>) -> Option<usize>
    decreases path.len(),
{
    if path.len() == 0 {
        Some(fst_root(data))
    } else {
        match walk(data, path.drop_last()) {
            Some(addr) => fst_next(data, addr, path.last()),
            None => None,
        }
    }
}

/// Whether `addr` is the address of a node that some path reaches.
pub open spec fn is_node(data: Seq<u8>, addr: usize) -> bool {
    exists|path: Seq<u8>| walk(data, path) == Some(addr)
}

/// Whether the transducer stores a record under `key`: the key leads to a
/// node that has a transition on the sentinel.
pub open spec fn holds_key(data: Seq<u8>, key: Seq<u8>) -> bool {
    match walk(data, key) {
        Some(addr) => fst_next(data, addr, SENTINEL) is Some,
        None => false,
    }
}

/// Whether the transducer stores the byte string `stored`: the walk along
/// it ends at a final node.
pub open spec fn accepts(data: Seq<u8>, stored: Seq<u8>) -> bool {
    match walk(data, stored) {
        Some(addr) => fst_final(data, addr),
        None => false,
    }
}

/// Whether the transducer stores the byte strings of `records` and no
/// others.
pub open spec fn stores_exactly(data: Seq<u8>, records: Seq<Seq<u8>>) -> bool {
    forall|stored: Seq<u8>| #[trigger] accepts(data, stored) <==> records.contains(stored)
}

/// Whether `whole` starts with `stem`.
pub open spec fn starts_with(whole: Seq<u8>, stem: Seq<u8>) -> bool {
    stem.len() <= whole.len() && whole.subrange(0, stem.len() as int) == stem
}

/// How the nodes of a transducer hang together when the builder of the
/// `fst` crate has made them. The builder makes transitions only along the
/// keys that it takes, so every path that can be followed starts a stored
/// byte string. It writes a node behind the nodes that it leads to, so a
/// transition leads to a lower address. And it keeps the transitions of a
/// node in the order of their input bytes, so the first transition is the
/// one on the lowest byte.
#[verifier::opaque]
pub open spec fn well_linked(data: Seq<u8>) -> bool {
    &&& forall|path: Seq<u8>|
        path.len() > 0 && #[trigger] walk(data, path) is Some ==> exists|rest: Seq<u8>| #[trigger]
            accepts(data, path + rest)
    &&& forall|addr: usize, input: u8|
        is_node(data, addr) && #[trigger] fst_next(data, addr, input) is Some ==> {
            &&& fst_next(data, addr, input)->0 < addr
            &&& fst_first(data, addr) matches Some((lowest, _)) && lowest <= input
        }
    &&& forall|addr: usize|
        is_node(data, addr) ==> (#[trigger] fst_first(data, addr) matches Some(
            (lowest, target),
        ) ==> fst_next(data, addr, lowest) == Some(target))
}

/// The bytes read off by following, from the node at `addr`, the first
/// transition of each node. The walk ends at a final node, at a node
/// without transitions, or where a transition does not lead to a lower
/// address, which it always does in a transducer that is intact.
pub open spec fn first_path(data: Seq<u8>, addr: usize) -> Seq<u8>
    decreases addr,
{
    if fst_final(data, addr) {
        Seq::empty()
    } else {
        match fst_first(data, addr) {
            Some((input, target)) => if target < addr {
                seq![input] + first_path(data, target)
            } else {
                Seq::empty()
            },
            None => Seq::empty(),
        }
    }
}

/// The bytes stored behind the sentinel of the record under `key`. Where
/// several records share the key, the one that sorts first.
pub open spec fn stored_value(data: Seq<u8>, key: Seq<u8>) -> Seq<u8> {
    match walk(data, key.push(SENTINEL)) {
        Some(addr) => first_path(data, addr),
        None => Seq::empty(),
    }
}

/// One byte more on a path is one transition more on the walk.
pub proof fn lemma_walk_push(data: Seq<u8>, path: Seq<u8>, input: u8)
    ensures
        walk(data, path.push(input)) == match walk(data, path) {
            Some(addr) => fst_next(data, addr, input),
            None => None,
        },
{
    assert(path.push(input).drop_last() =~= path);
}

/// A path that the transducer cannot follow is not the start of one that
/// it can.
pub proof fn lemma_walk_stuck(data: Seq<u8>, path: Seq<u8>, more: Seq<u8>)
    requires
        walk(data, path) is None,
    ensures
        walk(data, path + more) is None,
    decreases more.len(),
{
    if more.len() == 0 {
        assert(path + more =~= path);
    } else {
        lemma_walk_stuck(data, path, more.drop_last());
        assert((path + more).drop_last() =~= path + more.drop_last());
    }
}

/// A transducer that stores a record under a key holds that key.
pub proof fn lemma_record_gives_key(data: Seq<u8>, key: Seq<u8>, value: Seq<u8>)
    requires
        accepts(data, key.push(SENTINEL) + value),
    ensures
        holds_key(data, key),
{
    if walk(data, key.push(SENTINEL)) is None {
        lemma_walk_stuck(data, key.push(SENTINEL), value);
    }
    lemma_walk_push(data, key, SENTINEL);
}

/// What `well_linked` says of one node and one of its transitions.
pub proof fn lemma_links(data: Seq<u8>, path: Seq<u8>, input: u8)
    requires
        well_linked(data),
        walk(data, path) is Some,
        fst_next(data, walk(data, path)->0, input) is Some,
    ensures
        fst_next(data, walk(data, path)->0, input)->0 < walk(data, path)->0,
        fst_first(data, walk(data, path)->0) matches Some((lowest, target)) && lowest <= input
            && target < walk(data, path)->0 && fst_next(data, walk(data, path)->0, lowest) == Some(
            target,
        ),
{
    reveal(well_linked);
    let addr = walk(data, path)->0;
    assert(is_node(data, addr));
    let first = fst_first(data, addr)->0;
    assert(fst_next(data, addr, first.0) == Some(first.1));
}

/// What `well_linked` says of one path: it starts a stored byte string.
pub proof fn lemma_no_dead_end(data: Seq<u8>, path: Seq<u8>) -> (rest: Seq<u8>)
    requires
        well_linked(data),
        path.len() > 0,
        walk(data, path) is Some,
    ensures
        accepts(data, path + rest),
{
    reveal(well_linked);
    choose|rest: Seq<u8>| #[trigger] accepts(data, path + rest)
}

/// In a transducer that the builder made, the value stored under a key
/// that has one record is the rest of that record: the walk of first
/// transitions from anywhere within the value reads what is left of it.
pub proof fn lemma_value_is_rest_of_record(
    data: Seq<u8>,
    records: Seq<Seq<u8>>,
    stem: Seq<u8>,
    value: Seq<u8>,
    done: int,
)
    requires
        stores_exactly(data, records),
        well_linked(data),
        stem.len() > 0,
        records.contains(stem + value),
        forall|record: Seq<u8>|
            records.contains(record) && #[trigger] starts_with(record, stem) ==> record == stem
                + value,
        0 <= done <= value.len(),
    ensures
        walk(data, stem + value.subrange(0, done)) is Some,
        first_path(data, walk(data, stem + value.subrange(0, done))->0) == value.subrange(
            done,
            value.len() as int,
        ),
    decreases value.len() - done,
{
    let here = stem + value.subrange(0, done);
    let left = value.subrange(done, value.len() as int);
    assert(walk(data, here) is Some) by {
        assert(here + left =~= stem + value);
        assert(accepts(data, stem + value));
        if walk(data, here) is None {
            lemma_walk_stuck(data, here, left);
        }
    }
    let addr = walk(data, here)->0;
    if done == value.len() {
        assert(here =~= stem + value);
        assert(accepts(data, stem + value));
        assert(left =~= Seq::<u8>::empty());
    } else {
        assert(!fst_final(data, addr)) by {
            if fst_final(data, addr) {
                assert(accepts(data, here));
                assert(here.subrange(0, stem.len() as int) =~= stem);
                assert(starts_with(here, stem));
                assert(here.len() == (stem + value).len());
            }
        }
        let byte = value[done];
        let further = stem + value.subrange(0, done + 1);
        assert(further =~= here.push(byte));
        lemma_walk_push(data, here, byte);
        lemma_value_is_rest_of_record(data, records, stem, value, done + 1);
        lemma_links(data, here, byte);
        let first = fst_first(data, addr)->0;
        assert(first.0 == byte) by {
            if first.0 != byte {
                let aside = here.push(first.0);
                lemma_walk_push(data, here, first.0);
                let rest = lemma_no_dead_end(data, aside);
                let whole = aside + rest;
                assert(records.contains(whole));
                assert(whole.subrange(0, stem.len() as int) =~= stem);
                assert(starts_with(whole, stem));
                assert(whole[stem.len() + done] == first.0);
                assert((stem + value)[stem.len() + done] == byte);
            }
        }
        assert(left =~= seq![byte] + value.subrange(done + 1, value.len() as int));
    }
}

/// `fst::raw::Fst::new`: makes a transducer of the bytes, or refuses them.
/// It keeps the bytes as they are. On a machine whose addresses have fewer
/// than 64 bits it may give up on a transducer built on a larger one, so
/// such machines are left out.
#[verifier::external_body]
pub(crate) fn transducer_from_bytes(data: Vec<u8>) -> (r: Result<
    fst::raw::Fst<Vec<u8>>,
    fst::Error,
>)
    requires
        usize::BITS == 64,
    ensures
        r is Ok == fst_format_ok(data@),
        r matches Ok(fst) ==> fst_data(fst) == data@,
{
    fst::raw::Fst::new(data)
}

/// `fst::raw::Fst::verify`: recomputes the checksum over the bytes of the
/// transducer and compares it with the one stored at their end, if one is
/// stored there.
#[verifier::external_body]
pub(crate) fn checksum_state(fst: &fst::raw::Fst<Vec<u8>>) -> (state: Option<bool>)
    ensures
        state == fst_checksum(fst_data(*fst)),
{
    match fst.verify() {
        Ok(()) => Some(true),
        Err(fst::Error::Fst(fst::raw::Error::ChecksumMissing)) => None,
        Err(_) => Some(false),
    }
}

/// `fst::raw::Fst::root` and `Node::addr`: the address of the root node.
#[verifier::external_body]
pub(crate) fn root_of(fst: &fst::raw::Fst<Vec<u8>>) -> (addr: usize)
    requires
        written_by_builder(fst_data(*fst)),
    ensures
        addr == fst_root(fst_data(*fst)),
{
    fst.root().addr()
}

/// `Node::find_input` on the node at `addr`: the index of its transition on
/// `input`, if it has one.
#[verifier::external_body]
pub(crate) fn find_transition(fst: &fst::raw::Fst<Vec<u8>>, addr: usize, input: u8) -> (index:
    Option<usize>)
    requires
        written_by_builder(fst_data(*fst)),
        is_node(fst_data(*fst), addr),
    ensures
        index == fst_find(fst_data(*fst), addr, input),
{
    fst.node(addr).find_input(input)
}

/// `Node::transition_addr` on the node at `addr`: the address that the
/// transition with this index leads to. The index has to be one that
/// `Node::find_input` gave for this node.
#[verifier::external_body]
pub(crate) fn transition_target(fst: &fst::raw::Fst<Vec<u8>>, addr: usize, index: usize) -> (target:
    usize)
    requires
        written_by_builder(fst_data(*fst)),
        is_node(fst_data(*fst), addr),
        exists|input: u8| fst_find(fst_data(*fst), addr, input) == Some(index),
    ensures
        target == fst_target(fst_data(*fst), addr, index),
{
    fst.node(addr).transition_addr(index)
}

/// `Node::is_final` on the node at `addr`.
#[verifier::external_body]
pub(crate) fn node_is_final(fst: &fst::raw::Fst<Vec<u8>>, addr: usize) -> (is_final: bool)
    requires
        written_by_builder(fst_data(*fst)),
        is_node(fst_data(*fst), addr),
    ensures
        is_final == fst_final(fst_data(*fst), addr),
{
    fst.node(addr).is_final()
}

/// `Node::transitions` on the node at `addr`, and the first item of it: the
/// transition on the lowest input byte. It is the transition that
/// `Node::find_input` finds on that byte.
#[verifier::external_body]
pub(crate) fn first_transition(fst: &fst::raw::Fst<Vec<u8>>, addr: usize) -> (first: Option<
    (u8, usize),
>)
    requires
        written_by_builder(fst_data(*fst)),
        is_node(fst_data(*fst), addr),
    ensures
        first == fst_first(fst_data(*fst), addr),
        first matches Some((input, target)) ==> fst_next(fst_data(*fst), addr, input) == Some(
            target,
        ),
{
    fst.node(addr).transitions().next().map(|t| (t.inp, t.addr))
}

/// The node that the transition on `input` leads to from the node at
/// `addr`, if there is such a transition.
pub(crate) fn next_node(fst: &fst::raw::Fst<Vec<u8>>, addr: usize, input: u8) -> (next: Option<
    usize,
>)
    requires
        written_by_builder(fst_data(*fst)),
        is_node(fst_data(*fst), addr),
    ensures
        next == fst_next(fst_data(*fst), addr, input),
{
    match find_transition(fst, addr, input) {
        Some(index) => Some(transition_target(fst, addr, index)),
        None => None,
    }
}

} // verus!
