//! The finite state transducer of the `fst` crate: the outside functions that write and
//! read one, and what the library relies on of each.
use fst::{Automaton, IntoStreamer};
use vstd::prelude::*;
use vstd::utf8::encode_utf8;

use crate::bytes::{read_u64, u64_at};
use crate::order::bytes_before;

verus! {

/// A key and its value.
pub type Entry = (Seq<u8>, u64);

/// `Map` of the `fst` crate, a transducer opened over some bytes. Nothing is known of what is
/// inside.
#[verifier::external_type_specification]
#[verifier::external_body]
#[verifier::reject_recursive_types(D)]
pub struct ExMap<D>(fst::Map<D>);

/// `MapBuilder` of the `fst` crate, which writes a transducer. Nothing is known of what is
/// inside.
#[verifier::external_type_specification]
#[verifier::external_body]
#[verifier::reject_recursive_types(W)]
pub struct ExMapBuilder<W>(fst::MapBuilder<W>);

/// `Error` of the `fst` crate. It is mapped to an error of this library and not looked into.
#[verifier::external_type_specification]
#[verifier::external_body]
pub struct ExFstError(fst::Error);

/// The bytes that a `Map` of the `fst` crate was opened over.
pub uninterp spec fn map_bytes(map: fst::Map<&[u8]>) -> Seq<u8>;

/// What has been inserted into a `MapBuilder` of the `fst` crate, in order.
pub uninterp spec fn inserted(builder: fst::MapBuilder<Vec<u8>>) -> Seq<Entry>;

/// The bytes that `MapBuilder::into_inner` of the `fst` crate returns for the entries inserted,
/// on machines of the pointer width of this one.
pub uninterp spec fn fst_encoding(entries: Seq<Entry>) -> Seq<u8>;

/// The entries that a `Map` of the `fst` crate holds over some bytes, from the lowest key to the
/// highest, where the bytes are those of a transducer that a `MapBuilder` has written.
pub uninterp spec fn fst_entries(bytes: Seq<u8>) -> Option<Seq<Entry>>;

/// Where the trailer of a transducer ends: before the checksum, which the first two
/// versions of the format lack.
pub open spec fn trailer_end(bytes: Seq<u8>) -> int {
    if u64_at(bytes, 0)->Ok_0 <= 2 {
        bytes.len() as int
    } else {
        bytes.len() - 4
    }
}

/// Whether bytes have the length and the version of a transducer.
pub open spec fn has_fst_header(bytes: Seq<u8>) -> bool {
    bytes.len() >= 36 && 1 <= u64_at(bytes, 0)->Ok_0 <= 3
}

/// The address of the root node that the trailer gives.
pub open spec fn root_address(bytes: Seq<u8>) -> u64 {
    u64_at(bytes, trailer_end(bytes) - 8)->Ok_0
}

/// The number of keys that the trailer gives.
pub open spec fn key_count(bytes: Seq<u8>) -> u64 {
    u64_at(bytes, trailer_end(bytes) - 16)->Ok_0
}

/// Whether bytes are taken for a transducer: long enough, of a known version, and with
/// the address that marks an empty root only where nothing but the header and the
/// trailer is there. (The nodes are not looked at.)
pub open spec fn looks_like_fst(bytes: Seq<u8>) -> bool {
    &&& has_fst_header(bytes)
    &&& root_address(bytes) == 0 ==> bytes.len() == (if u64_at(bytes, 0)->Ok_0 <= 2 {
        32int
    } else {
        36int
    })
}

/// Whether the numbers in the trailer can be addresses and lengths on this machine.
pub open spec fn trailer_fits(bytes: Seq<u8>) -> bool {
    has_fst_header(bytes) ==> root_address(bytes) <= usize::MAX && key_count(bytes) <= usize::MAX
}

/// Keys and values of a vector of entries.
pub open spec fn entries_of(v: Seq<(Vec<u8>, u64)>) -> Seq<Entry> {
    v.map_values(|e: (Vec<u8>, u64)| (e.0@, e.1))
}

/// The entries whose keys start with a prefix, in the order in which they stand.
pub open spec fn starting_with(entries: Seq<Entry>, prefix: Seq<u8>) -> Seq<Entry> {
    entries.filter(|e: Entry| prefix.is_prefix_of(e.0))
}

/// Tests whether the numbers in the trailer can be addresses and lengths on this machine.
pub fn check_trailer(bytes: &[u8]) -> (r: bool)
    ensures
        r == trailer_fits(bytes@),
{
    let len = bytes.len();
    if len < 36 {
        return true;
    }
    let version: u64 = match read_u64(bytes, 0) {
        Ok(v) => v,
        Err(_) => 0,
    };
    if version == 0 || version > 3 {
        return true;
    }
    let end: usize = if version <= 2 { len } else { len - 4 };
    let root: u64 = match read_u64(bytes, (end - 8) as u128) {
        Ok(v) => v,
        Err(_) => 0,
    };
    let count: u64 = match read_u64(bytes, (end - 16) as u128) {
        Ok(v) => v,
        Err(_) => 0,
    };
    root <= usize::MAX as u64 && count <= usize::MAX as u64
}

/// `Map::new` of the `fst` crate: takes bytes for a transducer where their header and
/// trailer allow it, and reads those bytes from then on.
#[verifier::external_body]
pub(crate) fn open_map<'a>(bytes: &'a [u8]) -> (r: Result<fst::Map<&'a [u8]>, fst::Error>)
    requires
        trailer_fits(bytes@),
    ensures
        r is Ok <==> looks_like_fst(bytes@),
        r is Ok ==> map_bytes(r->Ok_0) == bytes@,
{
    fst::Map::new(bytes)
}

/// `Map::search` of the `fst` crate with `Str::starts_with`, collected: the entries whose
/// keys start with the bytes of `prefix`, from the lowest key to the highest. Only a
/// transducer that a map builder has written can be walked.
#[verifier::external_body]
pub(crate) fn scan_prefix(map: &fst::Map<&[u8]>, prefix: &str) -> (hits: Vec<(Vec<u8>, u64)>)
    requires
        fst_entries(map_bytes(*map)) is Some,
    ensures
        entries_of(hits@) == starting_with(
            fst_entries(map_bytes(*map))->Some_0,
            encode_utf8(prefix@),
        ),
{
    map.search(fst::automaton::Str::new(prefix).starts_with()).into_stream().into_byte_vec()
}

/// `MapBuilder::new` of the `fst` crate over an empty vector, which takes whatever is
/// written to it: a builder into which nothing has been inserted.
#[verifier::external_body]
pub(crate) fn new_map_builder() -> (r: Result<fst::MapBuilder<Vec<u8>>, fst::Error>)
    ensures
        r is Ok,
        inserted(r->Ok_0) == Seq::<Entry>::empty(),
{
    fst::MapBuilder::new(Vec::new())
}

/// `MapBuilder::insert` of the `fst` crate: takes an entry whose key comes after the last
/// one inserted, and refuses any other without a change.
#[verifier::external_body]
pub(crate) fn insert_entry(
    builder: &mut fst::MapBuilder<Vec<u8>>,
    key: &[u8],
    value: u64,
) -> (r: Result<(), fst::Error>)
    ensures
        r is Ok <==> inserted(*old(builder)).len() == 0 || bytes_before(
            inserted(*old(builder)).last().0,
            key@,
        ),
        r is Ok ==> inserted(*final(builder)) == inserted(*old(builder)).push((key@, value)),
        r is Err ==> inserted(*final(builder)) == inserted(*old(builder)),
{
    builder.insert(key, value)
}

/// `MapBuilder::into_inner` of the `fst` crate over a vector: the bytes of a transducer
/// that holds what has been inserted, and that `Map::new` takes. They depend on the entries
/// inserted and on nothing else but the pointer width of the machine, by which the builder
/// picks the nodes that it shares.
#[verifier::external_body]
pub(crate) fn finish_map(builder: fst::MapBuilder<Vec<u8>>) -> (r: Result<Vec<u8>, fst::Error>)
    ensures
        r is Ok,
        r->Ok_0@ == fst_encoding(inserted(builder)),
        fst_entries(r->Ok_0@) == Some(inserted(builder)),
        looks_like_fst(r->Ok_0@),
        trailer_fits(r->Ok_0@),
{
    builder.into_inner()
}

/// What is taken for a transducer: 36 bytes or more, a version from one to three in front, and
/// at the end, before the checksum of version three, the address of the root; zero is one only
/// where there is nothing but header and trailer.
pub proof fn law_what_is_taken_for_a_transducer(bytes: Seq<u8>)
    ensures
        looks_like_fst(bytes) <==> {
            let version = u64_at(bytes, 0)->Ok_0;
            &&& bytes.len() >= 36
            &&& 1 <= version <= 3
            &&& version <= 2 ==> u64_at(bytes, bytes.len() - 8)->Ok_0 != 0
            &&& version == 3 && u64_at(bytes, bytes.len() - 12)->Ok_0 == 0 ==> bytes.len() == 36
        },
{
}

} // verus!
