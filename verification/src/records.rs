//! `records.bin`, the payload blob that lies beside the transducer.
//!
//! The store knows nothing of any domain. It holds two sections, each behind a flat
//! table of offsets, so that any entry can be read without parsing what comes before:
//!
//! * **postings**: for each value `j` of the transducer, the ids of the records that
//!   share that key;
//! * **records**: per id, a `group` (results of one group are shown once), a `rank`
//!   (higher is shown first) and an opaque `payload`.
//!
//! Layout, all little-endian, every `*_off` counted from the start of the buffer:
//!
//! ```text
//!   0  magic        [8]  = b"GEOIDX01"
//!   8  n_postings   u32
//!  12  n_records    u32
//!  16  post_idx_off u64   -> (n_postings+1) u64 offsets into the postings payload
//!  24  rec_idx_off  u64   -> (n_records+1)  u64 offsets into the records payload
//!  32  post_pay_off u64
//!  40  rec_pay_off  u64
//!  48  total_len    u64
//!  ... postings index, records index, postings payload, records payload
//! ```
//!
//! A postings entry is `u32 count` followed by `count` times `u32 record_id`.
//! A record is `u64 group | i64 rank | u32 payload_len | payload_bytes`.
use vstd::prelude::*;
use vstd::slice::slice_subrange;
use vstd::utf8::{
    decode_utf8, decode_utf8_encode_utf8, encode_utf8, encode_utf8_decode_utf8,
    encode_utf8_valid_utf8, valid_utf8,
};

use crate::bytes::{
    i64_at, law_u16_at, le_digits, lemma_le_bounds, lemma_le_digits_len, lemma_le_value_digits,
    push_bytes, push_u16, read_i64, read_u16, read_u32, read_u64, slice_at, u16_at, u32_at, u64_at,
};
use crate::error::IndexError;
use crate::unicode::text_from_utf8;

verus! {

/// The first eight bytes of `records.bin`: `GEOIDX01`.
pub const MAGIC: [u8; 8] = [0x47, 0x45, 0x4f, 0x49, 0x44, 0x58, 0x30, 0x31];

/// The length of the header of `records.bin`.
pub const HEADER_LEN: usize = 56;

/// The longest string that a length of two bytes can announce.
pub const MAX_STR_LEN: usize = 65535;

/// A stored record: a dedup `group`, a sort `rank`, and an opaque `payload` that only
/// a domain adapter reads.
#[derive(Debug, Clone, PartialEq, Eq)]
pub struct Record {
    pub group: u64,
    pub rank: i64,
    pub payload: Vec<u8>,
}

/// What a [`Record`] stands for.
#[verifier::ext_equal]
pub struct RecordView {
    pub group: u64,
    pub rank: i64,
    pub payload: Seq<u8>,
}

impl View for Record {
    type V = RecordView;

    open spec fn view(&self) -> RecordView {
        RecordView { group: self.group, rank: self.rank, payload: self.payload@ }
    }
}

/// A place where bytes are kept: owned, or borrowed from a mapped file.
pub trait Backing {
    /// The bytes kept.
    spec fn data(&self) -> Seq<u8>;

    /// The bytes kept, as a slice.
    fn as_bytes(&self) -> (b: &[u8])
        ensures
            b@ == self.data(),
    ;
}

impl Backing for Vec<u8> {
    open spec fn data(&self) -> Seq<u8> {
        self@
    }

    fn as_bytes(&self) -> (b: &[u8]) {
        self.as_slice()
    }
}

impl<'a> Backing for &'a [u8] {
    open spec fn data(&self) -> Seq<u8> {
        self@
    }

    fn as_bytes(&self) -> (b: &[u8]) {
        *self
    }
}

/// Why a buffer is no `records.bin`, if it is none: too short for a header, the wrong
/// magic, or a length other than the one that the header announces.
pub open spec fn header_fault(buf: Seq<u8>) -> Option<IndexError> {
    if buf.len() < HEADER_LEN {
        Some(IndexError::ShortHeader)
    } else if buf.take(8) != MAGIC@ {
        Some(IndexError::BadMagic)
    } else if u64_at(buf, 48)->Ok_0 != buf.len() {
        Some(IndexError::LengthMismatch)
    } else {
        None
    }
}

/// The number of postings entries that the header announces.
pub open spec fn n_postings_in(buf: Seq<u8>) -> u32 {
    u32_at(buf, 8)->Ok_0
}

/// The number of records that the header announces.
pub open spec fn n_records_in(buf: Seq<u8>) -> u32 {
    u32_at(buf, 12)->Ok_0
}

/// The record ids of postings entry `index`, read through the offset table.
pub open spec fn posting_at(buf: Seq<u8>, index: u32) -> Result<Seq<u32>, IndexError> {
    if index >= n_postings_in(buf) {
        Err(IndexError::PostingIndex)
    } else {
        match u64_at(buf, u64_at(buf, 16)->Ok_0 + index * 8) {
            Err(e) => Err(e),
            Ok(off) => ids_at(buf, u64_at(buf, 32)->Ok_0 + off),
        }
    }
}

/// A count at `start`, and that many ids behind it.
pub open spec fn ids_at(buf: Seq<u8>, start: int) -> Result<Seq<u32>, IndexError> {
    match u32_at(buf, start) {
        Err(e) => Err(e),
        Ok(count) => if start + 4 + 4 * count <= buf.len() {
            Ok(Seq::new(count as nat, |i: int| u32_at(buf, start + 4 + 4 * i)->Ok_0))
        } else {
            Err(IndexError::U32OutOfBounds)
        },
    }
}

/// The record of id `id`, read through the offset table.
pub open spec fn record_at(buf: Seq<u8>, id: u32) -> Result<RecordView, IndexError> {
    if id >= n_records_in(buf) {
        Err(IndexError::RecordId)
    } else {
        match u64_at(buf, u64_at(buf, 24)->Ok_0 + id * 8) {
            Err(e) => Err(e),
            Ok(off) => triple_at(buf, u64_at(buf, 40)->Ok_0 + off),
        }
    }
}

/// A group, a rank, a length and that many bytes, from `at` on.
pub open spec fn triple_at(buf: Seq<u8>, at: int) -> Result<RecordView, IndexError> {
    match (u64_at(buf, at), i64_at(buf, at + 8), u32_at(buf, at + 16)) {
        (Err(e), _, _) => Err(e),
        (_, Err(e), _) => Err(e),
        (_, _, Err(e)) => Err(e),
        (Ok(group), Ok(rank), Ok(len)) => match slice_at(buf, at + 20, len as int) {
            None => Err(IndexError::PayloadOutOfBounds),
            Some(payload) => Ok(RecordView { group, rank, payload }),
        },
    }
}

/// Read-only view over a `records.bin` buffer.
pub struct RecordStore<B: Backing> {
    buf: B,
    n_postings: u32,
    n_records: u32,
    post_idx_off: u64,
    rec_idx_off: u64,
    post_pay_off: u64,
    rec_pay_off: u64,
}

impl<B: Backing> RecordStore<B> {
    #[verifier::type_invariant]
    spec fn header_parsed(self) -> bool {
        let buf = self.buf.data();
        &&& header_fault(buf) is None
        &&& u32_at(buf, 8) == Ok::<u32, IndexError>(self.n_postings)
        &&& u32_at(buf, 12) == Ok::<u32, IndexError>(self.n_records)
        &&& u64_at(buf, 16) == Ok::<u64, IndexError>(self.post_idx_off)
        &&& u64_at(buf, 24) == Ok::<u64, IndexError>(self.rec_idx_off)
        &&& u64_at(buf, 32) == Ok::<u64, IndexError>(self.post_pay_off)
        &&& u64_at(buf, 40) == Ok::<u64, IndexError>(self.rec_pay_off)
    }

    /// The bytes that the store reads.
    pub closed spec fn data(&self) -> Seq<u8> {
        self.buf.data()
    }

    /// Parses and validates the header of a `records.bin` buffer.
    pub fn new(buf: B) -> (r: Result<RecordStore<B>, IndexError>)
        ensures
            match r {
                Ok(store) => header_fault(buf.data()) is None && store.data() == buf.data(),
                Err(e) => header_fault(buf.data()) == Some(e),
            },
    {
        let bytes = buf.as_bytes();
        if bytes.len() < HEADER_LEN {
            return Err(IndexError::ShortHeader);
        }
        for i in 0..8usize
            invariant
                bytes@.len() >= HEADER_LEN,
                bytes@ == buf.data(),
                forall|j: int| 0 <= j < i ==> bytes@[j] == MAGIC@[j],
        {
            if bytes[i] != MAGIC[i] {
                assert(bytes@.take(8)[i as int] != MAGIC@[i as int]);
                return Err(IndexError::BadMagic);
            }
        }
        assert(bytes@.take(8) =~= MAGIC@);
        let n_postings = read_u32(bytes, 8)?;
        let n_records = read_u32(bytes, 12)?;
        let post_idx_off = read_u64(bytes, 16)?;
        let rec_idx_off = read_u64(bytes, 24)?;
        let post_pay_off = read_u64(bytes, 32)?;
        let rec_pay_off = read_u64(bytes, 40)?;
        let total_len = read_u64(bytes, 48)?;
        if total_len != bytes.len() as u64 {
            return Err(IndexError::LengthMismatch);
        }
        Ok(
            RecordStore {
                buf,
                n_postings,
                n_records,
                post_idx_off,
                rec_idx_off,
                post_pay_off,
                rec_pay_off,
            },
        )
    }

    /// The number of records held.
    pub fn n_records(&self) -> (n: u32)
        ensures
            n == n_records_in(self.data()),
    {
        proof {
            use_type_invariant(self);
        }
        self.n_records
    }

    /// The number of postings entries held.
    pub fn n_postings(&self) -> (n: u32)
        ensures
            n == n_postings_in(self.data()),
    {
        proof {
            use_type_invariant(self);
        }
        self.n_postings
    }

    /// The record ids of postings entry `index` (a value of the transducer).
    pub fn posting(&self, index: u32) -> (r: Result<Vec<u32>, IndexError>)
        ensures
            match r {
                Ok(ids) => posting_at(self.data(), index) == Ok::<Seq<u32>, IndexError>(ids@),
                Err(e) => posting_at(self.data(), index) == Err::<Seq<u32>, IndexError>(e),
            },
    {
        proof {
            use_type_invariant(self);
        }
        if index >= self.n_postings {
            return Err(IndexError::PostingIndex);
        }
        let buf = self.buf.as_bytes();
        let slot: u128 = self.post_idx_off as u128 + index as u128 * 8;
        let off: u64 = match read_u64(buf, slot) {
            Ok(off) => off,
            Err(e) => {
                return Err(e);
            },
        };
        let start: u128 = self.post_pay_off as u128 + off as u128;
        let count: u32 = match read_u32(buf, start) {
            Ok(count) => count,
            Err(e) => {
                return Err(e);
            },
        };
        let mut ids: Vec<u32> = Vec::new();
        for i in 0..count
            invariant
                buf@ == self.data(),
                start <= 0x1_ffff_ffff_ffff_ffff,
                ids@.len() == i,
                start + 4 + 4 * i <= buf@.len(),
                u32_at(buf@, start as int) == Ok::<u32, IndexError>(count),
                posting_at(self.data(), index) == ids_at(buf@, start as int),
                forall|j: int| 0 <= j < i ==> ids@[j] == u32_at(buf@, start + 4 + 4 * j)->Ok_0,
        {
            match read_u32(buf, start + 4 + 4 * i as u128) {
                Ok(id) => {
                    ids.push(id);
                },
                Err(e) => {
                    return Err(e);
                },
            }
        }
        assert(ids@ =~= Seq::new(count as nat, |i: int| u32_at(buf@, start + 4 + 4 * i)->Ok_0));
        Ok(ids)
    }

    /// The record with the given id.
    pub fn record(&self, id: u32) -> (r: Result<Record, IndexError>)
        ensures
            match r {
                Ok(record) => record_at(self.data(), id) == Ok::<RecordView, IndexError>(record@),
                Err(e) => record_at(self.data(), id) == Err::<RecordView, IndexError>(e),
            },
    {
        proof {
            use_type_invariant(self);
        }
        if id >= self.n_records {
            return Err(IndexError::RecordId);
        }
        let buf = self.buf.as_bytes();
        let slot: u128 = self.rec_idx_off as u128 + id as u128 * 8;
        let off: u64 = match read_u64(buf, slot) {
            Ok(off) => off,
            Err(e) => {
                return Err(e);
            },
        };
        let at: u128 = self.rec_pay_off as u128 + off as u128;
        let group: u64 = match read_u64(buf, at) {
            Ok(group) => group,
            Err(e) => {
                return Err(e);
            },
        };
        let rank: i64 = match read_i64(buf, at + 8) {
            Ok(rank) => rank,
            Err(e) => {
                return Err(e);
            },
        };
        let len: u32 = match read_u32(buf, at + 16) {
            Ok(len) => len,
            Err(e) => {
                return Err(e);
            },
        };
        if at + 20 + len as u128 > buf.len() as u128 {
            return Err(IndexError::PayloadOutOfBounds);
        }
        let from = (at + 20) as usize;
        let mut payload: Vec<u8> = Vec::new();
        push_bytes(&mut payload, slice_subrange(buf, from, from + len as usize));
        assert(payload@ =~= buf@.subrange(from as int, from + len));
        Ok(Record { group, rank, payload })
    }
}

/// A string as it is stored: the length of its UTF-8 bytes, and the bytes.
pub open spec fn str_bytes(text: Seq<char>) -> Seq<u8> {
    le_digits(encode_utf8(text).len(), 2) + encode_utf8(text)
}

/// Whether a length of two bytes can announce a string.
pub open spec fn str_fits(text: Seq<char>) -> bool {
    encode_utf8(text).len() <= MAX_STR_LEN
}

/// The string stored at `at`, and where it ends.
pub open spec fn str_at(buf: Seq<u8>, at: int) -> Result<(Seq<char>, int), IndexError> {
    match u16_at(buf, at) {
        Err(e) => Err(e),
        Ok(len) => match slice_at(buf, at + 2, len as int) {
            None => Err(IndexError::StringOutOfBounds),
            Some(bytes) => if valid_utf8(bytes) {
                Ok((decode_utf8(bytes), at + 2 + len))
            } else {
                Err(IndexError::StringNotUtf8)
            },
        },
    }
}

/// A stored string is read back where it was written.
pub proof fn law_str_read_back(before: Seq<u8>, text: Seq<char>, after: Seq<u8>)
    requires
        str_fits(text),
    ensures
        str_at(before + str_bytes(text) + after, before.len() as int) == Ok::<
            (Seq<char>, int),
            IndexError,
        >((text, (before + str_bytes(text)).len() as int)),
{
    let bytes = encode_utf8(text);
    let buf = before + str_bytes(text) + after;
    let at = before.len() as int;
    lemma_le_bounds();
    lemma_le_digits_len(bytes.len(), 2);
    lemma_le_value_digits(bytes.len(), 2);
    assert(buf.subrange(at, at + 2) =~= le_digits(bytes.len(), 2));
    assert(buf.subrange(at + 2, at + 2 + bytes.len()) =~= bytes);
    encode_utf8_valid_utf8(text);
    encode_utf8_decode_utf8(text);
}

/// Reads the string stored at `at`; returns it and where it ends.
pub fn read_str(buf: &[u8], at: u128) -> (r: Result<(String, u128), IndexError>)
    ensures
        match (r, str_at(buf@, at as int)) {
            (Ok((text, end)), Ok((expected, past))) => text@ == expected && end == past,
            (Err(e), Err(f)) => e == f,
            _ => false,
        },
{
    let total: u128 = buf.len() as u128;
    let len: u16 = match read_u16(buf, at) {
        Ok(len) => len,
        Err(e) => {
            return Err(e);
        },
    };
    let end: u128 = at + 2 + len as u128;
    if end > total {
        return Err(IndexError::StringOutOfBounds);
    }
    let bytes = slice_subrange(buf, (at + 2) as usize, end as usize);
    match text_from_utf8(bytes) {
        Some(text) => Ok((text.to_owned(), end)),
        None => Err(IndexError::StringNotUtf8),
    }
}

/// Tests whether a length of two bytes can announce a string.
pub fn str_is_short(s: &str) -> (r: bool)
    ensures
        r == str_fits(s@),
{
    s.as_bytes().len() <= MAX_STR_LEN
}

/// Appends a string as it is stored.
pub fn push_str(buf: &mut Vec<u8>, s: &str)
    requires
        str_fits(s@),
    ensures
        final(buf)@ == old(buf)@ + str_bytes(s@),
{
    let ghost before = buf@;
    let bytes = s.as_bytes();
    assert(bytes@ =~= encode_utf8(s@));
    push_u16(buf, bytes.len() as u16);
    push_bytes(buf, bytes);
    assert(buf@ =~= before + str_bytes(s@));
}

/// What a buffer must be to be taken for `records.bin`: 56 bytes or more, the first eight of them
/// `GEOIDX01`, and its length at 48. The first of these that fails is reported.
pub proof fn law_header_fault(buf: Seq<u8>)
    ensures
        buf.len() < 56 ==> header_fault(buf) == Some(IndexError::ShortHeader),
        buf.len() >= 56 ==> {
            let magic = buf[0] == 71 && buf[1] == 69 && buf[2] == 79 && buf[3] == 73 && buf[4] == 68
                && buf[5] == 88 && buf[6] == 48 && buf[7] == 49;
            &&& !magic ==> header_fault(buf) == Some(IndexError::BadMagic)
            &&& magic && u64_at(buf, 48)->Ok_0 != buf.len() ==> header_fault(buf) == Some(
                IndexError::LengthMismatch,
            )
            &&& magic && u64_at(buf, 48)->Ok_0 == buf.len() ==> header_fault(buf) is None
        },
        n_postings_in(buf) == u32_at(buf, 8)->Ok_0,
        n_records_in(buf) == u32_at(buf, 12)->Ok_0,
{
    if buf.len() >= 56 {
        let m = MAGIC@;
        assert(m.len() == 8 && m[0] == 71 && m[1] == 69 && m[2] == 79 && m[3] == 73 && m[4] == 68
            && m[5] == 88 && m[6] == 48 && m[7] == 49);
        let first = buf.take(8);
        if buf[0] == 71 && buf[1] == 69 && buf[2] == 79 && buf[3] == 73 && buf[4] == 68 && buf[5]
            == 88 && buf[6] == 48 && buf[7] == 49 {
            assert(first =~= m);
        } else if first == m {
            assert(first[0] == m[0] && first[1] == m[1] && first[2] == m[2] && first[3] == m[3]
                && first[4] == m[4] && first[5] == m[5] && first[6] == m[6] && first[7] == m[7]);
        }
    }
}

/// Where a postings entry is read: its offset in the table at 16, the count at that offset from
/// where 32 says, and the ids behind it.
pub proof fn law_where_a_posting_is(buf: Seq<u8>, index: u32)
    requires
        buf.len() >= 56,
    ensures
        ({
            let slot = u64_at(buf, u64_at(buf, 16)->Ok_0 + 8 * index);
            let start = u64_at(buf, 32)->Ok_0 + slot->Ok_0;
            let count = u32_at(buf, start);
            &&& posting_at(buf, index) is Ok <==> {
                &&& index < u32_at(buf, 8)->Ok_0
                &&& slot is Ok
                &&& count is Ok
                &&& start + 4 + 4 * count->Ok_0 <= buf.len()
            }
            &&& posting_at(buf, index) is Ok ==> {
                let ids = posting_at(buf, index)->Ok_0;
                &&& ids.len() == count->Ok_0
                &&& forall|k: int|
                    0 <= k < ids.len() ==> u32_at(buf, start + 4 + 4 * k) == Ok::<u32, IndexError>(
                        #[trigger] ids[k],
                    )
            }
            &&& index >= u32_at(buf, 8)->Ok_0 ==> posting_at(buf, index) == Err::<
                Seq<u32>,
                IndexError,
            >(IndexError::PostingIndex)
            &&& index < u32_at(buf, 8)->Ok_0 && slot is Err ==> posting_at(buf, index) == Err::<
                Seq<u32>,
                IndexError,
            >(IndexError::U64OutOfBounds)
            &&& index < u32_at(buf, 8)->Ok_0 && slot is Ok && posting_at(buf, index) is Err
                ==> posting_at(buf, index) == Err::<Seq<u32>, IndexError>(
                IndexError::U32OutOfBounds,
            )
        }),
{
}

/// Where a record is read: its offset in the table at 24, and at that offset from where 40 says
/// its group, its rank, the length of its payload, and the payload.
pub proof fn law_where_a_record_is(buf: Seq<u8>, id: u32)
    requires
        buf.len() >= 56,
    ensures
        ({
            let slot = u64_at(buf, u64_at(buf, 24)->Ok_0 + 8 * id);
            let at = u64_at(buf, 40)->Ok_0 + slot->Ok_0;
            let len = u32_at(buf, at + 16)->Ok_0;
            &&& record_at(buf, id) is Ok <==> {
                &&& id < u32_at(buf, 12)->Ok_0
                &&& slot is Ok
                &&& at + 20 <= buf.len()
                &&& at + 20 + len <= buf.len()
            }
            &&& record_at(buf, id) is Ok ==> {
                let r = record_at(buf, id)->Ok_0;
                &&& u64_at(buf, at) == Ok::<u64, IndexError>(r.group)
                &&& i64_at(buf, at + 8) == Ok::<i64, IndexError>(r.rank)
                &&& r.payload.len() == len
                &&& forall|k: int| 0 <= k < len ==> #[trigger] r.payload[k] == buf[at + 20 + k]
            }
            &&& id >= u32_at(buf, 12)->Ok_0 ==> record_at(buf, id) == Err::<
                RecordView,
                IndexError,
            >(IndexError::RecordId)
            &&& id < u32_at(buf, 12)->Ok_0 && (slot is Err || at + 16 > buf.len()) ==> record_at(
                buf,
                id,
            ) == Err::<RecordView, IndexError>(IndexError::U64OutOfBounds)
            &&& id < u32_at(buf, 12)->Ok_0 && slot is Ok && at + 16 <= buf.len() < at + 20
                ==> record_at(buf, id) == Err::<RecordView, IndexError>(IndexError::U32OutOfBounds)
            &&& id < u32_at(buf, 12)->Ok_0 && slot is Ok && at + 20 <= buf.len() < at + 20 + len
                ==> record_at(buf, id) == Err::<RecordView, IndexError>(
                IndexError::PayloadOutOfBounds,
            )
        }),
{
}

/// How a string is stored: the number of its bytes, the lower byte first, and its bytes. No more
/// than 65535 fit.
pub proof fn law_how_a_string_is_stored(text: Seq<char>)
    ensures
        str_fits(text) <==> encode_utf8(text).len() <= 65535,
        str_bytes(text) == seq![
            (encode_utf8(text).len() % 256) as u8,
            (encode_utf8(text).len() / 256 % 256) as u8,
        ] + encode_utf8(text),
{
    reveal_with_fuel(le_digits, 3);
    let n = encode_utf8(text).len();
    assert(le_digits(n, 2) =~= seq![(n % 256) as u8, (n / 256 % 256) as u8]);
}

/// What is read as a string is what is stored there, and ends where it ends.
pub proof fn law_string_read_is_stored(buf: Seq<u8>, at: int)
    requires
        str_at(buf, at) is Ok,
    ensures
        ({
            let (text, end) = str_at(buf, at)->Ok_0;
            &&& 0 <= at
            &&& str_fits(text)
            &&& end == at + str_bytes(text).len()
            &&& end <= buf.len()
            &&& buf.subrange(at, end) == str_bytes(text)
        }),
{
    let (text, end) = str_at(buf, at)->Ok_0;
    let len = u16_at(buf, at)->Ok_0;
    let bytes = buf.subrange(at + 2, at + 2 + len);
    decode_utf8_encode_utf8(bytes);
    law_u16_at(buf, at);
    law_how_a_string_is_stored(text);
    assert(buf.subrange(at, end) =~= str_bytes(text));
}

/// What is wrong where no string is read: its length is past the end, or its bytes are, or they
/// are no text.
pub proof fn law_why_no_string_is_read(buf: Seq<u8>, at: int)
    requires
        0 <= at,
    ensures
        at + 2 > buf.len() ==> str_at(buf, at) == Err::<(Seq<char>, int), IndexError>(
            IndexError::U16OutOfBounds,
        ),
        at + 2 <= buf.len() < at + 2 + u16_at(buf, at)->Ok_0 ==> str_at(buf, at) == Err::<
            (Seq<char>, int),
            IndexError,
        >(IndexError::StringOutOfBounds),
        at + 2 <= buf.len() && at + 2 + u16_at(buf, at)->Ok_0 <= buf.len() && !valid_utf8(
            buf.subrange(at + 2, at + 2 + u16_at(buf, at)->Ok_0),
        ) ==> str_at(buf, at) == Err::<(Seq<char>, int), IndexError>(IndexError::StringNotUtf8),
{
}

} // verus!
