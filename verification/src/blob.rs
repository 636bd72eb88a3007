//! Writing `records.bin`, and what a store reads back of it.
use vstd::prelude::*;

use crate::bytes::{
    le_digits, lemma_le_bounds, lemma_le_digits_len, lemma_le_value_digits, push_bytes, push_count,
    push_long, push_u32, push_u64, slice_at, u32_at, u64_at,
};
use crate::error::IndexError;
use crate::ranking::views;
use crate::records::{
    header_fault, ids_at, n_postings_in, n_records_in, posting_at, record_at, triple_at, Record,
    RecordView, HEADER_LEN, MAGIC,
};

verus! {

/// Byte strings one behind the other.
pub open spec fn concat(pieces: Seq<Seq<u8>>) -> Seq<u8>
    decreases pieces.len(),
{
    if pieces.len() == 0 {
        Seq::empty()
    } else {
        concat(pieces.drop_last()) + pieces.last()
    }
}

/// Where piece `i` starts among the pieces put one behind the other.
pub open spec fn offset_of(pieces: Seq<Seq<u8>>, i: int) -> nat {
    concat(pieces.take(i)).len()
}

/// The table of offsets of some pieces: where each starts, and where the last one ends.
pub open spec fn offset_table(pieces: Seq<Seq<u8>>) -> Seq<u8> {
    concat(Seq::new(pieces.len() + 1, |i: int| le_digits(offset_of(pieces, i), 8)))
}

/// Record ids, four bytes each.
pub open spec fn id_bytes(ids: Seq<u32>) -> Seq<u8> {
    concat(ids.map_values(|id: u32| le_digits(id as nat, 4)))
}

/// A postings entry: a count, and the ids.
pub open spec fn posting_bytes(ids: Seq<u32>) -> Seq<u8> {
    le_digits(ids.len(), 4) + id_bytes(ids)
}

/// A record: its group, its rank in two's complement, the length of its payload, and the
/// payload.
pub open spec fn record_bytes(r: RecordView) -> Seq<u8> {
    le_digits(r.group as nat, 8) + le_digits((r.rank as u64) as nat, 8) + le_digits(
        r.payload.len(),
        4,
    ) + r.payload
}

/// The postings entries of some lists of ids.
pub open spec fn posting_pieces(postings: Seq<Seq<u32>>) -> Seq<Seq<u8>> {
    postings.map_values(|ids: Seq<u32>| posting_bytes(ids))
}

/// Some records, each as it is stored.
pub open spec fn record_pieces(records: Seq<RecordView>) -> Seq<Seq<u8>> {
    records.map_values(|r: RecordView| record_bytes(r))
}

/// Where the table of record offsets starts, behind the table of `n` postings.
pub open spec fn rec_idx_start(n: nat) -> nat {
    HEADER_LEN as nat + 8 * (n + 1)
}

/// Where the postings start, behind the table of `m` records.
pub open spec fn post_pay_start(n: nat, m: nat) -> nat {
    rec_idx_start(n) + 8 * (m + 1)
}

/// The header of `records.bin` for some postings entries and records.
pub open spec fn header(posts: Seq<Seq<u8>>, recs: Seq<Seq<u8>>) -> Seq<u8> {
    let post_pay = post_pay_start(posts.len(), recs.len());
    let rec_pay = post_pay + concat(posts).len();
    MAGIC@ + le_digits(posts.len(), 4) + le_digits(recs.len(), 4) + le_digits(
        HEADER_LEN as nat,
        8,
    ) + le_digits(rec_idx_start(posts.len()), 8) + le_digits(post_pay, 8) + le_digits(rec_pay, 8)
        + le_digits(rec_pay + concat(recs).len(), 8)
}

/// `records.bin` for some postings entries and records: the header, the two tables of
/// offsets, and the two payloads.
#[verifier::opaque]
pub open spec fn assembled(posts: Seq<Seq<u8>>, recs: Seq<Seq<u8>>) -> Seq<u8> {
    header(posts, recs) + offset_table(posts) + offset_table(recs) + concat(posts) + concat(recs)
}

/// `records.bin` for some lists of ids and some records.
pub open spec fn blob(postings: Seq<Seq<u32>>, records: Seq<RecordView>) -> Seq<u8> {
    assembled(posting_pieces(postings), record_pieces(records))
}

/// The lists of ids in a vector of vectors.
pub open spec fn id_lists(postings: Seq<Vec<u32>>) -> Seq<Seq<u32>> {
    postings.map_values(|ids: Vec<u32>| ids@)
}

/// One more piece goes behind the others.
pub proof fn lemma_concat_step(pieces: Seq<Seq<u8>>, i: int)
    requires
        0 <= i < pieces.len(),
    ensures
        concat(pieces.take(i + 1)) == concat(pieces.take(i)) + pieces[i],
{
    assert(pieces.take(i + 1).drop_last() =~= pieces.take(i));
}

/// Appends record ids, four bytes each.
fn push_ids(buf: &mut Vec<u8>, ids: &Vec<u32>)
    ensures
        final(buf)@ == old(buf)@ + id_bytes(ids@),
{
    let ghost before = buf@;
    let ghost pieces = ids@.map_values(|id: u32| le_digits(id as nat, 4));
    assert(buf@ =~= before + concat(pieces.take(0)));
    for i in 0..ids.len()
        invariant
            pieces == ids@.map_values(|id: u32| le_digits(id as nat, 4)),
            buf@ == before + concat(pieces.take(i as int)),
    {
        proof {
            lemma_concat_step(pieces, i as int);
        }
        push_u32(buf, ids[i]);
        assert(buf@ =~= before + concat(pieces.take(i + 1)));
    }
    assert(pieces.take(pieces.len() as int) =~= pieces);
}

/// Appends a table of offsets.
fn push_offsets(buf: &mut Vec<u8>, offsets: &Vec<u64>, Ghost(pieces): Ghost<Seq<Seq<u8>>>)
    requires
        offsets@.len() == pieces.len() + 1,
        forall|i: int| 0 <= i < offsets@.len() ==> #[trigger] offsets@[i] == offset_of(pieces, i),
    ensures
        final(buf)@ == old(buf)@ + offset_table(pieces),
{
    let ghost before = buf@;
    let ghost entries = Seq::new(pieces.len() + 1, |i: int| le_digits(offset_of(pieces, i), 8));
    assert(buf@ =~= before + concat(entries.take(0)));
    for i in 0..offsets.len()
        invariant
            entries == Seq::new(pieces.len() + 1, |i: int| le_digits(offset_of(pieces, i), 8)),
            offsets@.len() == pieces.len() + 1,
            forall|i: int|
                0 <= i < offsets@.len() ==> #[trigger] offsets@[i] == offset_of(pieces, i),
            buf@ == before + concat(entries.take(i as int)),
    {
        proof {
            lemma_concat_step(entries, i as int);
        }
        push_u64(buf, offsets[i]);
        assert(buf@ =~= before + concat(entries.take(i + 1)));
    }
    assert(entries.take(entries.len() as int) =~= entries);
}

/// Appends a record.
fn push_record(buf: &mut Vec<u8>, r: &Record)
    ensures
        final(buf)@ == old(buf)@ + record_bytes(r@),
{
    let ghost before = buf@;
    push_u64(buf, r.group);
    push_u64(buf, r.rank as u64);
    push_count(buf, r.payload.len());
    push_bytes(buf, r.payload.as_slice());
    assert(buf@ =~= before + record_bytes(r@));
}

/// Lays out lists of record ids and records as `records.bin`.
pub fn serialize_records(postings: &[Vec<u32>], records: &[Record]) -> (out: Vec<u8>)
    ensures
        out@ == blob(id_lists(postings@), views(records@)),
{
    let ghost posts = posting_pieces(id_lists(postings@));
    let ghost recs = record_pieces(views(records@));
    let mut post_pay: Vec<u8> = Vec::new();
    let mut post_idx: Vec<u64> = Vec::new();
    assert(concat(posts.take(0)) =~= Seq::<u8>::empty());
    for i in 0..postings.len()
        invariant
            posts == posting_pieces(id_lists(postings@)),
            post_pay@ == concat(posts.take(i as int)),
            post_idx@.len() == i,
            forall|j: int| 0 <= j < i ==> #[trigger] post_idx@[j] == offset_of(posts, j),
    {
        proof {
            lemma_concat_step(posts, i as int);
        }
        post_idx.push(post_pay.len() as u64);
        push_count(&mut post_pay, postings[i].len());
        push_ids(&mut post_pay, &postings[i]);
        assert(post_pay@ =~= concat(posts.take(i + 1)));
    }
    post_idx.push(post_pay.len() as u64);
    assert(posts.take(posts.len() as int) =~= posts);

    let mut rec_pay: Vec<u8> = Vec::new();
    let mut rec_idx: Vec<u64> = Vec::new();
    assert(concat(recs.take(0)) =~= Seq::<u8>::empty());
    for i in 0..records.len()
        invariant
            recs == record_pieces(views(records@)),
            rec_pay@ == concat(recs.take(i as int)),
            rec_idx@.len() == i,
            forall|j: int| 0 <= j < i ==> #[trigger] rec_idx@[j] == offset_of(recs, j),
    {
        proof {
            lemma_concat_step(recs, i as int);
        }
        rec_idx.push(rec_pay.len() as u64);
        push_record(&mut rec_pay, &records[i]);
        assert(rec_pay@ =~= concat(recs.take(i + 1)));
    }
    rec_idx.push(rec_pay.len() as u64);
    assert(recs.take(recs.len() as int) =~= recs);

    let rec_idx_off: u128 = HEADER_LEN as u128 + 8 * post_idx.len() as u128;
    let post_pay_off: u128 = rec_idx_off + 8 * rec_idx.len() as u128;
    let rec_pay_off: u128 = post_pay_off + post_pay.len() as u128;
    let total_len: u128 = rec_pay_off + rec_pay.len() as u128;

    let mut out: Vec<u8> = Vec::new();
    push_bytes(&mut out, MAGIC.as_slice());
    push_count(&mut out, postings.len());
    push_count(&mut out, records.len());
    push_long(&mut out, HEADER_LEN as u128);
    push_long(&mut out, rec_idx_off);
    push_long(&mut out, post_pay_off);
    push_long(&mut out, rec_pay_off);
    push_long(&mut out, total_len);
    assert(out@ =~= header(posts, recs));
    push_offsets(&mut out, &post_idx, Ghost(posts));
    push_offsets(&mut out, &rec_idx, Ghost(recs));
    push_bytes(&mut out, post_pay.as_slice());
    push_bytes(&mut out, rec_pay.as_slice());
    proof {
        reveal(assembled);
    }
    out
}

/// Whether lengths and offsets fit the fields that `records.bin` has for them.
pub open spec fn fits(postings: Seq<Seq<u32>>, records: Seq<RecordView>) -> bool {
    &&& postings.len() < 0x1_0000_0000
    &&& records.len() < 0x1_0000_0000
    &&& forall|i: int| 0 <= i < postings.len() ==> (#[trigger] postings[i]).len() < 0x1_0000_0000
    &&& forall|i: int|
        0 <= i < records.len() ==> (#[trigger] records[i]).payload.len() < 0x1_0000_0000
    &&& blob(postings, records).len() < 0x1_0000_0000_0000_0000
}

/// A piece lies where its offset says.
proof fn lemma_piece(pieces: Seq<Seq<u8>>, i: int)
    requires
        0 <= i < pieces.len(),
    ensures
        offset_of(pieces, i) + pieces[i].len() <= concat(pieces).len(),
        concat(pieces).subrange(
            offset_of(pieces, i) as int,
            (offset_of(pieces, i) + pieces[i].len()) as int,
        ) == pieces[i],
    decreases pieces.len(),
{
    let front = pieces.drop_last();
    if i < front.len() {
        lemma_piece(front, i);
        assert(front.take(i) =~= pieces.take(i));
        let at = offset_of(pieces, i) as int;
        assert(concat(pieces).subrange(at, at + pieces[i].len()) =~= concat(front).subrange(
            at,
            at + pieces[i].len(),
        ));
    } else {
        assert(pieces.take(i) =~= front);
        assert(concat(pieces).subrange(
            offset_of(pieces, i) as int,
            (offset_of(pieces, i) + pieces[i].len()) as int,
        ) =~= pieces[i]);
    }
}

/// Pieces of one length lie at its multiples.
proof fn lemma_even_pieces(pieces: Seq<Seq<u8>>, width: nat)
    requires
        forall|i: int| 0 <= i < pieces.len() ==> (#[trigger] pieces[i]).len() == width,
    ensures
        concat(pieces).len() == width * pieces.len(),
    decreases pieces.len(),
{
    if pieces.len() > 0 {
        lemma_even_pieces(pieces.drop_last(), width);
        assert(width * (pieces.len() - 1) + width == width * pieces.len()) by (nonlinear_arith);
    }
}

/// A piece of pieces of one length lies at its multiple of it.
proof fn lemma_even_piece(pieces: Seq<Seq<u8>>, width: nat, i: int)
    requires
        forall|i: int| 0 <= i < pieces.len() ==> (#[trigger] pieces[i]).len() == width,
        0 <= i < pieces.len(),
    ensures
        width * i + width <= concat(pieces).len(),
        concat(pieces).subrange(width * i, width * i + width) == pieces[i],
{
    lemma_even_pieces(pieces.take(i), width);
    assert(offset_of(pieces, i) == width * i);
    lemma_piece(pieces, i);
}

/// What is read within a part of a buffer is what is read of the part alone.
proof fn lemma_within(buf: Seq<u8>, from: int, to: int, at: int, width: int)
    requires
        0 <= from <= to <= buf.len(),
        0 <= at,
        0 <= width,
        at + width <= to - from,
    ensures
        slice_at(buf, from + at, width) == slice_at(buf.subrange(from, to), at, width),
{
    assert(buf.subrange(from + at, from + at + width) =~= buf.subrange(from, to).subrange(
        at,
        at + width,
    ));
}

/// A table of offsets has eight bytes for each, and the one asked for where it should be.
proof fn lemma_offset_table(pieces: Seq<Seq<u8>>, i: int)
    requires
        0 <= i <= pieces.len(),
        offset_of(pieces, i) < 0x1_0000_0000_0000_0000,
    ensures
        offset_table(pieces).len() == 8 * (pieces.len() + 1),
        u64_at(offset_table(pieces), 8 * i) == Ok::<u64, IndexError>(offset_of(pieces, i) as u64),
{
    let entries = Seq::new(pieces.len() + 1, |i: int| le_digits(offset_of(pieces, i), 8));
    assert forall|k: int| 0 <= k < entries.len() implies (#[trigger] entries[k]).len() == 8 by {
        lemma_le_digits_len(offset_of(pieces, k), 8);
    }
    lemma_even_pieces(entries, 8);
    lemma_even_piece(entries, 8, i);
    lemma_le_bounds();
    lemma_le_value_digits(offset_of(pieces, i), 8);
}

/// The fields of the header stand where they should.
proof fn lemma_header(posts: Seq<Seq<u8>>, recs: Seq<Seq<u8>>)
    ensures
        header(posts, recs).len() == HEADER_LEN,
        header(posts, recs).take(8) == MAGIC@,
        header(posts, recs).subrange(8, 12) == le_digits(posts.len(), 4),
        header(posts, recs).subrange(12, 16) == le_digits(recs.len(), 4),
        header(posts, recs).subrange(16, 24) == le_digits(HEADER_LEN as nat, 8),
        header(posts, recs).subrange(24, 32) == le_digits(rec_idx_start(posts.len()), 8),
        header(posts, recs).subrange(32, 40) == le_digits(
            post_pay_start(posts.len(), recs.len()),
            8,
        ),
        header(posts, recs).subrange(40, 48) == le_digits(
            post_pay_start(posts.len(), recs.len()) + concat(posts).len(),
            8,
        ),
        header(posts, recs).subrange(48, 56) == le_digits(
            post_pay_start(posts.len(), recs.len()) + concat(posts).len() + concat(recs).len(),
            8,
        ),
{
    let post_pay = post_pay_start(posts.len(), recs.len());
    let rec_pay = post_pay + concat(posts).len();
    lemma_le_digits_len(posts.len(), 4);
    lemma_le_digits_len(recs.len(), 4);
    lemma_le_digits_len(HEADER_LEN as nat, 8);
    lemma_le_digits_len(rec_idx_start(posts.len()), 8);
    lemma_le_digits_len(post_pay, 8);
    lemma_le_digits_len(rec_pay, 8);
    lemma_le_digits_len(rec_pay + concat(recs).len(), 8);
    let h = header(posts, recs);
    assert(h.take(8) =~= MAGIC@);
    assert(h.subrange(8, 12) =~= le_digits(posts.len(), 4));
    assert(h.subrange(12, 16) =~= le_digits(recs.len(), 4));
    assert(h.subrange(16, 24) =~= le_digits(HEADER_LEN as nat, 8));
    assert(h.subrange(24, 32) =~= le_digits(rec_idx_start(posts.len()), 8));
    assert(h.subrange(32, 40) =~= le_digits(post_pay, 8));
    assert(h.subrange(40, 48) =~= le_digits(rec_pay, 8));
    assert(h.subrange(48, 56) =~= le_digits(rec_pay + concat(recs).len(), 8));
}

/// The header of `records.bin` is in order.
proof fn lemma_header_sound(posts: Seq<Seq<u8>>, recs: Seq<Seq<u8>>)
    requires
        assembled(posts, recs).len() < 0x1_0000_0000_0000_0000,
    ensures
        header_fault(assembled(posts, recs)) is None,
        assembled(posts, recs).len() == post_pay_start(posts.len(), recs.len()) + concat(
            posts,
        ).len() + concat(recs).len(),
        assembled(posts, recs).subrange(0, 56) == header(posts, recs),
{
    reveal(assembled);
    let buf = assembled(posts, recs);
    let h = header(posts, recs);
    lemma_header(posts, recs);
    assert(posts.take(0) =~= Seq::<Seq<u8>>::empty());
    assert(recs.take(0) =~= Seq::<Seq<u8>>::empty());
    lemma_offset_table(posts, 0);
    lemma_offset_table(recs, 0);
    assert(buf.subrange(0, 56) =~= h);
    assert(buf.take(8) =~= h.take(8));
    lemma_within(buf, 0, 56, 48, 8);
    lemma_le_bounds();
    lemma_le_value_digits(buf.len(), 8);
}

/// A store opens whatever was laid out.
pub proof fn law_opens(postings: Seq<Seq<u32>>, records: Seq<RecordView>)
    requires
        blob(postings, records).len() < 0x1_0000_0000_0000_0000,
    ensures
        header_fault(blob(postings, records)) is None,
{
    lemma_header_sound(posting_pieces(postings), record_pieces(records));
}

/// The parts of `records.bin` lie where the header says, and the header is in order.
proof fn lemma_assembled(posts: Seq<Seq<u8>>, recs: Seq<Seq<u8>>)
    requires
        assembled(posts, recs).len() < 0x1_0000_0000_0000_0000,
    ensures
        ({
            let buf = assembled(posts, recs);
            let rec_idx = rec_idx_start(posts.len()) as int;
            let post_pay = post_pay_start(posts.len(), recs.len()) as int;
            let rec_pay = post_pay + concat(posts).len();
            &&& header_fault(buf) is None
            &&& posts.len() < 0x1_0000_0000 ==> n_postings_in(buf) == posts.len()
            &&& recs.len() < 0x1_0000_0000 ==> n_records_in(buf) == recs.len()
            &&& u64_at(buf, 16)->Ok_0 == HEADER_LEN
            &&& u64_at(buf, 24)->Ok_0 == rec_idx
            &&& u64_at(buf, 32)->Ok_0 == post_pay
            &&& u64_at(buf, 40)->Ok_0 == rec_pay
            &&& buf.len() == rec_pay + concat(recs).len()
            &&& buf.subrange(HEADER_LEN as int, rec_idx) == offset_table(posts)
            &&& buf.subrange(rec_idx, post_pay) == offset_table(recs)
            &&& buf.subrange(post_pay, rec_pay) == concat(posts)
            &&& buf.subrange(rec_pay, buf.len() as int) == concat(recs)
        }),
{
    reveal(assembled);
    let buf = assembled(posts, recs);
    let rec_idx = rec_idx_start(posts.len());
    let post_pay = post_pay_start(posts.len(), recs.len());
    let rec_pay = post_pay + concat(posts).len();
    lemma_header(posts, recs);
    lemma_header_sound(posts, recs);
    assert(posts.take(0) =~= Seq::<Seq<u8>>::empty());
    assert(recs.take(0) =~= Seq::<Seq<u8>>::empty());
    lemma_offset_table(posts, 0);
    lemma_offset_table(recs, 0);
    lemma_within(buf, 0, 56, 8, 4);
    lemma_within(buf, 0, 56, 12, 4);
    lemma_within(buf, 0, 56, 16, 8);
    lemma_within(buf, 0, 56, 24, 8);
    lemma_within(buf, 0, 56, 32, 8);
    lemma_within(buf, 0, 56, 40, 8);
    lemma_le_bounds();
    if posts.len() < 0x1_0000_0000 {
        lemma_le_value_digits(posts.len(), 4);
    }
    if recs.len() < 0x1_0000_0000 {
        lemma_le_value_digits(recs.len(), 4);
    }
    lemma_le_value_digits(HEADER_LEN as nat, 8);
    lemma_le_value_digits(rec_idx, 8);
    lemma_le_value_digits(post_pay, 8);
    lemma_le_value_digits(rec_pay, 8);
    assert(buf.subrange(HEADER_LEN as int, rec_idx as int) =~= offset_table(posts));
    assert(buf.subrange(rec_idx as int, post_pay as int) =~= offset_table(recs));
    assert(buf.subrange(post_pay as int, rec_pay as int) =~= concat(posts));
    assert(buf.subrange(rec_pay as int, buf.len() as int) =~= concat(recs));
}

/// Ids are read back where they were written.
proof fn lemma_ids_read_back(buf: Seq<u8>, start: int, ids: Seq<u32>)
    requires
        0 <= start,
        start + posting_bytes(ids).len() <= buf.len(),
        buf.subrange(start, start + posting_bytes(ids).len()) == posting_bytes(ids),
        ids.len() < 0x1_0000_0000,
    ensures
        ids_at(buf, start) == Ok::<Seq<u32>, IndexError>(ids),
{
    let piece = posting_bytes(ids);
    let end = start + piece.len();
    let digits = ids.map_values(|id: u32| le_digits(id as nat, 4));
    lemma_le_bounds();
    lemma_le_digits_len(ids.len(), 4);
    lemma_le_value_digits(ids.len(), 4);
    assert forall|k: int| 0 <= k < digits.len() implies (#[trigger] digits[k]).len() == 4 by {
        lemma_le_digits_len(ids[k] as nat, 4);
    }
    lemma_even_pieces(digits, 4);
    lemma_within(buf, start, end, 0, 4);
    assert(piece.subrange(0, 4) =~= le_digits(ids.len(), 4));
    assert(u32_at(buf, start) == Ok::<u32, IndexError>(ids.len() as u32));
    assert forall|k: int| 0 <= k < ids.len() implies #[trigger] u32_at(buf, start + 4 + 4 * k)
        == Ok::<u32, IndexError>(ids[k]) by {
        lemma_even_piece(digits, 4, k);
        lemma_within(buf, start, end, 4 + 4 * k, 4);
        assert(piece.subrange(4 + 4 * k, 4 + 4 * k + 4) =~= concat(digits).subrange(
            4 * k,
            4 * k + 4,
        ));
        lemma_le_value_digits(ids[k] as nat, 4);
    }
    assert(Seq::new(ids.len(), |i: int| u32_at(buf, start + 4 + 4 * i)->Ok_0) =~= ids);
}

/// A record is read back where it was written.
proof fn lemma_record_read_back(buf: Seq<u8>, at: int, r: RecordView)
    requires
        0 <= at,
        at + record_bytes(r).len() <= buf.len(),
        buf.subrange(at, at + record_bytes(r).len()) == record_bytes(r),
        r.payload.len() < 0x1_0000_0000,
    ensures
        triple_at(buf, at) == Ok::<RecordView, IndexError>(r),
{
    let piece = record_bytes(r);
    let end = at + piece.len();
    let rank = r.rank;
    lemma_le_bounds();
    lemma_le_digits_len(r.group as nat, 8);
    lemma_le_digits_len((rank as u64) as nat, 8);
    lemma_le_digits_len(r.payload.len(), 4);
    lemma_le_value_digits(r.group as nat, 8);
    lemma_le_value_digits((rank as u64) as nat, 8);
    lemma_le_value_digits(r.payload.len(), 4);
    lemma_within(buf, at, end, 0, 8);
    lemma_within(buf, at, end, 8, 8);
    lemma_within(buf, at, end, 16, 4);
    lemma_within(buf, at, end, 20, piece.len() - 20);
    assert(piece.subrange(0, 8) =~= le_digits(r.group as nat, 8));
    assert(piece.subrange(8, 16) =~= le_digits((rank as u64) as nat, 8));
    assert(piece.subrange(16, 20) =~= le_digits(r.payload.len(), 4));
    assert(piece.subrange(20, piece.len() as int) =~= r.payload);
    assert((rank as u64) as i64 == rank) by (bit_vector);
}

/// A store reads back a list of ids, provided that its length and the number of lists fit
/// their fields. What else was laid out does not matter.
pub proof fn law_posting_reads_back(
    postings: Seq<Seq<u32>>,
    records: Seq<RecordView>,
    i: u32,
)
    requires
        blob(postings, records).len() < 0x1_0000_0000_0000_0000,
        i < postings.len() < 0x1_0000_0000,
        postings[i as int].len() < 0x1_0000_0000,
    ensures
        n_postings_in(blob(postings, records)) == postings.len(),
        posting_at(blob(postings, records), i) == Ok::<Seq<u32>, IndexError>(postings[i as int]),
{
    let posts = posting_pieces(postings);
    let recs = record_pieces(records);
    let buf = blob(postings, records);
    let rec_idx = rec_idx_start(posts.len()) as int;
    let post_pay = post_pay_start(posts.len(), recs.len()) as int;
    let rec_pay = post_pay + concat(posts).len();
    lemma_assembled(posts, recs);
    lemma_piece(posts, i as int);
    lemma_offset_table(posts, i as int);
    lemma_within(buf, HEADER_LEN as int, rec_idx, 8 * i, 8);
    let at = offset_of(posts, i as int) as int;
    lemma_within(buf, post_pay, rec_pay, at, posts[i as int].len() as int);
    lemma_ids_read_back(buf, post_pay + at, postings[i as int]);
}

/// A store reads back a record, provided that the length of its payload and the number of
/// records fit their fields. What else was laid out does not matter.
pub proof fn law_record_reads_back(postings: Seq<Seq<u32>>, records: Seq<RecordView>, id: u32)
    requires
        blob(postings, records).len() < 0x1_0000_0000_0000_0000,
        id < records.len() < 0x1_0000_0000,
        records[id as int].payload.len() < 0x1_0000_0000,
    ensures
        n_records_in(blob(postings, records)) == records.len(),
        record_at(blob(postings, records), id) == Ok::<RecordView, IndexError>(records[id as int]),
{
    let posts = posting_pieces(postings);
    let recs = record_pieces(records);
    let buf = blob(postings, records);
    let rec_idx = rec_idx_start(posts.len()) as int;
    let post_pay = post_pay_start(posts.len(), recs.len()) as int;
    let rec_pay = post_pay + concat(posts).len();
    lemma_assembled(posts, recs);
    lemma_piece(recs, id as int);
    lemma_offset_table(recs, id as int);
    lemma_within(buf, rec_idx, post_pay, 8 * id, 8);
    let at = offset_of(recs, id as int) as int;
    lemma_within(buf, rec_pay, buf.len() as int, at, recs[id as int].len() as int);
    lemma_record_read_back(buf, rec_pay + at, records[id as int]);
}

/// A store opens what was laid out, and reads back every list of ids and every record.
pub proof fn law_read_back(postings: Seq<Seq<u32>>, records: Seq<RecordView>)
    requires
        fits(postings, records),
    ensures
        header_fault(blob(postings, records)) is None,
        n_postings_in(blob(postings, records)) == postings.len(),
        n_records_in(blob(postings, records)) == records.len(),
        forall|i: u32|
            i < postings.len() ==> #[trigger] posting_at(blob(postings, records), i) == Ok::<
                Seq<u32>,
                IndexError,
            >(postings[i as int]),
        forall|i: u32|
            i < records.len() ==> #[trigger] record_at(blob(postings, records), i) == Ok::<
                RecordView,
                IndexError,
            >(records[i as int]),
{
    lemma_assembled(posting_pieces(postings), record_pieces(records));
    let buf = blob(postings, records);
    assert forall|i: u32| i < postings.len() implies #[trigger] posting_at(buf, i) == Ok::<
        Seq<u32>,
        IndexError,
    >(postings[i as int]) by {
        law_posting_reads_back(postings, records, i);
    }
    assert forall|i: u32| i < records.len() implies #[trigger] record_at(buf, i) == Ok::<
        RecordView,
        IndexError,
    >(records[i as int]) by {
        law_record_reads_back(postings, records, i);
    }
}

/// How the artifact is laid out, address by address: the counts, the tables behind the header,
/// and the payloads behind the tables. An offset table starts at nothing; a postings entry takes
/// four bytes and four for each id, a record twenty and its payload.
pub proof fn law_layout(postings: Seq<Seq<u32>>, records: Seq<RecordView>)
    requires
        postings.len() < 0x1_0000_0000,
        records.len() < 0x1_0000_0000,
        blob(postings, records).len() < 0x1_0000_0000_0000_0000,
    ensures
        ({
            let b = blob(postings, records);
            let n = postings.len();
            let m = records.len();
            let recs = 64 + 8 * n;
            &&& b.len() >= 56
            &&& u32_at(b, 8)->Ok_0 == n
            &&& u32_at(b, 12)->Ok_0 == m
            &&& u64_at(b, 16)->Ok_0 == 56
            &&& u64_at(b, 24)->Ok_0 == recs
            &&& u64_at(b, 32)->Ok_0 == recs + 8 + 8 * m
            &&& u64_at(b, 40)->Ok_0 == u64_at(b, 32)->Ok_0 + u64_at(b, (56 + 8 * n) as int)->Ok_0
            &&& b.len() == u64_at(b, 40)->Ok_0 + u64_at(b, (recs + 8 * m) as int)->Ok_0
            &&& u64_at(b, 56)->Ok_0 == 0
            &&& u64_at(b, recs as int)->Ok_0 == 0
            &&& forall|i: int|
                0 <= i < n ==> u64_at(b, 64 + 8 * i)->Ok_0 == u64_at(b, 56 + 8 * i)->Ok_0 + 4 + 4
                    * (#[trigger] postings[i]).len()
            &&& forall|i: int|
                0 <= i < m ==> u64_at(b, recs + 8 + 8 * i)->Ok_0 == u64_at(b, recs + 8 * i)->Ok_0
                    + 20 + (#[trigger] records[i]).payload.len()
        }),
{
    let posts = posting_pieces(postings);
    let recs = record_pieces(records);
    let b = blob(postings, records);
    let rec_idx = rec_idx_start(posts.len()) as int;
    let post_pay = post_pay_start(posts.len(), recs.len()) as int;
    lemma_assembled(posts, recs);
    assert forall|i: int| 0 <= i <= posts.len() implies u64_at(b, 56 + 8 * i)->Ok_0 == offset_of(
        posts,
        i,
    ) && #[trigger] offset_of(posts, i) <= concat(posts).len() by {
        lemma_offset_bound(posts, i);
        lemma_offset_table(posts, i);
        lemma_within(b, 56, rec_idx, 8 * i, 8);
    }
    assert forall|i: int| 0 <= i <= recs.len() implies u64_at(b, rec_idx + 8 * i)->Ok_0
        == offset_of(recs, i) && #[trigger] offset_of(recs, i) <= concat(recs).len() by {
        lemma_offset_bound(recs, i);
        lemma_offset_table(recs, i);
        lemma_within(b, rec_idx, post_pay, 8 * i, 8);
    }
    assert(posts.take(0) =~= Seq::<Seq<u8>>::empty());
    assert(recs.take(0) =~= Seq::<Seq<u8>>::empty());
    assert(posts.take(posts.len() as int) =~= posts);
    assert(recs.take(recs.len() as int) =~= recs);
    assert(offset_of(posts, 0) == 0);
    assert(offset_of(recs, 0) == 0);
    assert(offset_of(posts, posts.len() as int) == concat(posts).len());
    assert(offset_of(recs, recs.len() as int) == concat(recs).len());
    assert forall|i: int| 0 <= i < postings.len() implies u64_at(b, 64 + 8 * i)->Ok_0 == u64_at(
        b,
        56 + 8 * i,
    )->Ok_0 + 4 + 4 * (#[trigger] postings[i]).len() by {
        lemma_concat_step(posts, i);
        lemma_posting_len(postings[i]);
        assert(offset_of(posts, i + 1) == offset_of(posts, i) + posts[i].len());
        assert(56 + 8 * (i + 1) == 64 + 8 * i);
    }
    assert forall|i: int| 0 <= i < records.len() implies u64_at(b, rec_idx + 8 + 8 * i)->Ok_0
        == u64_at(b, rec_idx + 8 * i)->Ok_0 + 20 + (#[trigger] records[i]).payload.len() by {
        lemma_concat_step(recs, i);
        let r = records[i];
        lemma_le_digits_len(r.group as nat, 8);
        lemma_le_digits_len((r.rank as u64) as nat, 8);
        lemma_le_digits_len(r.payload.len(), 4);
        assert(offset_of(recs, i + 1) == offset_of(recs, i) + recs[i].len());
        assert(rec_idx + 8 * (i + 1) == rec_idx + 8 + 8 * i);
    }
}

/// No offset is past the end.
proof fn lemma_offset_bound(pieces: Seq<Seq<u8>>, i: int)
    requires
        0 <= i <= pieces.len(),
    ensures
        offset_of(pieces, i) <= concat(pieces).len(),
{
    if i < pieces.len() {
        lemma_piece(pieces, i);
    } else {
        assert(pieces.take(i) =~= pieces);
    }
}

/// A postings entry takes four bytes for the count and four for each id.
proof fn lemma_posting_len(ids: Seq<u32>)
    ensures
        posting_bytes(ids).len() == 4 + 4 * ids.len(),
{
    let digits = ids.map_values(|id: u32| le_digits(id as nat, 4));
    lemma_le_digits_len(ids.len(), 4);
    assert forall|k: int| 0 <= k < digits.len() implies (#[trigger] digits[k]).len() == 4 by {
        lemma_le_digits_len(ids[k] as nat, 4);
    }
    lemma_even_pieces(digits, 4);
}

} // verus!
