//! The bytes of the artifacts, and what is refused.
use geo_trie_rs::blob::serialize_records;
use geo_trie_rs::bytes::{push_count, push_long, push_u64, read_i64, read_u16, read_u32, read_u64};
use geo_trie_rs::records::{push_str, read_str};
use geo_trie_rs::{ErrorKind, GeoRecord, Index, IndexBuilder, IndexError, Record, RecordStore};

fn record(group: u64, rank: i64, payload: &[u8]) -> Record {
    Record { group, rank, payload: payload.to_vec() }
}

/// Two postings entries and one record.
fn small() -> Vec<u8> {
    serialize_records(&[vec![0, 7], vec![]], &[record(5, -1, b"ab")])
}

#[test]
fn the_layout_is_as_documented() {
    let mut expected: Vec<u8> = b"GEOIDX01".to_vec();
    expected.extend_from_slice(&2u32.to_le_bytes());
    expected.extend_from_slice(&1u32.to_le_bytes());
    for n in [56u64, 80, 96, 112, 134] {
        expected.extend_from_slice(&n.to_le_bytes());
    }
    for offset in [0u64, 12, 16, 0, 22] {
        expected.extend_from_slice(&offset.to_le_bytes());
    }
    for n in [2u32, 0, 7, 0] {
        expected.extend_from_slice(&n.to_le_bytes());
    }
    expected.extend_from_slice(&5u64.to_le_bytes());
    expected.extend_from_slice(&(-1i64).to_le_bytes());
    expected.extend_from_slice(&2u32.to_le_bytes());
    expected.extend_from_slice(b"ab");
    assert_eq!(small(), expected);
}

#[test]
fn what_is_laid_out_is_read_back() {
    let store = RecordStore::new(small()).unwrap();
    assert_eq!(store.n_postings(), 2);
    assert_eq!(store.n_records(), 1);
    assert_eq!(store.posting(0).unwrap(), vec![0, 7]);
    assert_eq!(store.posting(1).unwrap(), Vec::<u32>::new());
    assert_eq!(store.record(0).unwrap(), record(5, -1, b"ab"));
}

#[test]
fn numbers_past_the_counts_are_refused() {
    let store = RecordStore::new(small()).unwrap();
    assert_eq!(store.posting(2).unwrap_err(), IndexError::PostingIndex);
    assert_eq!(store.record(1).unwrap_err(), IndexError::RecordId);
}

#[test]
fn broken_headers_are_refused() {
    let err = |bytes: Vec<u8>| RecordStore::new(bytes).err();
    assert_eq!(err(vec![0; 55]), Some(IndexError::ShortHeader));
    assert_eq!(err(vec![0; 56]), Some(IndexError::BadMagic));
    let mut longer = small();
    longer.push(0);
    assert_eq!(err(longer), Some(IndexError::LengthMismatch));
}

/// The small store with eight bytes put in at `at`.
fn patched(at: usize, value: u64) -> RecordStore<Vec<u8>> {
    let mut bytes = small();
    bytes[at..at + 8].copy_from_slice(&value.to_le_bytes());
    RecordStore::new(bytes).unwrap()
}

#[test]
fn offsets_past_the_end_are_refused() {
    // The tables themselves.
    assert_eq!(patched(16, u64::MAX).posting(0).unwrap_err(), IndexError::U64OutOfBounds);
    assert_eq!(patched(24, 127).record(0).unwrap_err(), IndexError::U64OutOfBounds);
    // What they lead to.
    assert_eq!(patched(32, 131).posting(0).unwrap_err(), IndexError::U32OutOfBounds);
    assert_eq!(patched(56, u64::MAX).posting(0).unwrap_err(), IndexError::U32OutOfBounds);
    assert_eq!(patched(40, 127).record(0).unwrap_err(), IndexError::U64OutOfBounds);
    assert_eq!(patched(40, 113).record(0).unwrap_err(), IndexError::PayloadOutOfBounds);
    assert_eq!(patched(40, 117).record(0).unwrap_err(), IndexError::U32OutOfBounds);
    assert_eq!(patched(40, 123).record(0).unwrap_err(), IndexError::U64OutOfBounds);
}

#[test]
fn a_count_that_reaches_past_the_end_is_refused() {
    let mut bytes = small();
    bytes[96..100].copy_from_slice(&u32::MAX.to_le_bytes());
    let store = RecordStore::new(bytes).unwrap();
    assert_eq!(store.posting(0).unwrap_err(), IndexError::U32OutOfBounds);
}

#[test]
fn integers_are_little_endian() {
    let buf = [1u8, 2, 3, 4, 5, 6, 7, 0xff];
    assert_eq!(read_u16(&buf, 0).unwrap(), 0x0201);
    assert_eq!(read_u32(&buf, 1).unwrap(), 0x0504_0302);
    assert_eq!(read_u64(&buf, 0).unwrap(), 0xff07_0605_0403_0201);
    assert_eq!(read_i64(&buf, 0).unwrap(), 0xff07_0605_0403_0201u64 as i64);
    assert_eq!(read_u16(&buf, 7).unwrap_err(), IndexError::U16OutOfBounds);
    assert_eq!(read_u32(&buf, 5).unwrap_err(), IndexError::U32OutOfBounds);
    assert_eq!(read_u64(&buf, u128::MAX).unwrap_err(), IndexError::U64OutOfBounds);
}

#[test]
fn lengths_are_written_in_their_lowest_digits() {
    let mut buf = Vec::new();
    push_count(&mut buf, 0x0102);
    push_long(&mut buf, 0x1_0000_0000_0000_0003);
    push_u64(&mut buf, 4);
    assert_eq!(buf, [2, 1, 0, 0, 3, 0, 0, 0, 0, 0, 0, 0, 4, 0, 0, 0, 0, 0, 0, 0]);
}

#[test]
fn strings_are_stored_with_their_length() {
    let mut buf = vec![9];
    push_str(&mut buf, "Ö");
    push_str(&mut buf, "");
    assert_eq!(buf, [9, 2, 0, 0xc3, 0x96, 0, 0]);
    assert_eq!(read_str(&buf, 1).unwrap(), ("Ö".to_string(), 5));
    assert_eq!(read_str(&buf, 5).unwrap(), (String::new(), 7));
    assert_eq!(read_str(&buf, 6).unwrap_err(), IndexError::U16OutOfBounds);
    assert_eq!(read_str(&[3, 0, 65, 65], 0).unwrap_err(), IndexError::StringOutOfBounds);
    assert_eq!(read_str(&[2, 0, 0xc3, 65], 0).unwrap_err(), IndexError::StringNotUtf8);
}

#[test]
fn the_payload_of_a_place_is_as_documented() {
    let place = GeoRecord {
        gid: 1,
        lat_bits: 2,
        lon_bits: 3,
        population: 4,
        country: "DE".into(),
        feature_code: String::new(),
        name: "é".into(),
    };
    assert!(place.fits());
    let r = place.to_record();
    assert_eq!(r.group, 1);
    assert_eq!(r.rank, 4);
    let mut payload = Vec::new();
    payload.extend_from_slice(&2u64.to_le_bytes());
    payload.extend_from_slice(&3u64.to_le_bytes());
    payload.extend_from_slice(&[2, 0, b'D', b'E', 0, 0, 2, 0, 0xc3, 0xa9]);
    assert_eq!(r.payload, payload);
    assert_eq!(GeoRecord::from_record(&r).unwrap(), place);
}

#[test]
fn a_place_with_an_overlong_string_does_not_fit() {
    let mut place = GeoRecord {
        gid: 1,
        lat_bits: 0,
        lon_bits: 0,
        population: 0,
        country: String::new(),
        feature_code: String::new(),
        name: "x".repeat(65535),
    };
    assert!(place.fits());
    assert_eq!(GeoRecord::from_record(&place.to_record()).unwrap(), place);
    place.name.push('x');
    assert!(!place.fits());
}

#[test]
fn broken_places_are_refused() {
    let err = |payload: &[u8]| GeoRecord::from_record(&record(1, 1, payload)).unwrap_err();
    assert_eq!(err(&[0; 7]), IndexError::U64OutOfBounds);
    assert_eq!(err(&[0; 15]), IndexError::U64OutOfBounds);
    assert_eq!(err(&[0; 17]), IndexError::U16OutOfBounds);
    let mut cut = vec![0; 16];
    cut.extend_from_slice(&[1, 0]);
    assert_eq!(err(&cut), IndexError::StringOutOfBounds);
    let mut bad = vec![0; 16];
    bad.extend_from_slice(&[1, 0, 0xff]);
    assert_eq!(err(&bad), IndexError::StringNotUtf8);
}

#[test]
fn what_is_no_transducer_is_refused_first() {
    let (fst, records) = IndexBuilder::new().build().unwrap();
    let open = |f: &[u8], r: &[u8]| Index::from_bytes(f.to_vec(), r.to_vec()).err();
    assert_eq!(open(&fst, &records), None);
    assert_eq!(open(&fst[..35], &records), Some(IndexError::NotATransducer));
    assert_eq!(open(&[0; 64], &records), Some(IndexError::NotATransducer));
    assert_eq!(open(&[], &[]), Some(IndexError::NotATransducer));
    assert_eq!(open(&fst, &[]), Some(IndexError::ShortHeader));
    let mut newer = fst.clone();
    newer[0] = 4;
    assert_eq!(open(&newer, &records), Some(IndexError::NotATransducer));
}

#[test]
fn what_is_no_transducer_is_refused_in_the_words_of_the_transducer_crate() {
    let (_, records) = IndexBuilder::new().build().unwrap();
    for bytes in [vec![], vec![0; 35], vec![0; 64], vec![9; 64]] {
        let expected = fst::Map::new(bytes.clone()).err().unwrap().to_string();
        let error = Index::from_bytes(bytes, records.clone()).err().unwrap();
        assert_eq!(error.message(), expected);
    }
}

#[test]
fn a_transducer_that_holds_only_the_empty_key_opens() {
    let mut b = IndexBuilder::new();
    let id = b.add_record(record(1, 1, b"x"));
    b.add_key("", id);
    let (fst, records) = b.build().unwrap();
    assert_eq!(fst.len(), 36);
    let idx = Index::from_bytes(fst, records).unwrap();
    assert!(idx.suggest("x", 8).unwrap().is_empty());
}

#[test]
fn a_value_without_a_postings_entry_fails_the_query() {
    let mut b = IndexBuilder::new();
    let id = b.add_record(record(1, 1, b"x"));
    b.add_key("x", id);
    let (fst, _) = b.build().unwrap();
    let (_, none) = IndexBuilder::new().build().unwrap();
    let idx = Index::from_bytes(fst, none).unwrap();
    assert_eq!(idx.suggest("x", 8).unwrap_err(), IndexError::PostingIndex);
    assert_eq!(idx.suggest_fuzzy("x", 8, 1).unwrap_err(), IndexError::PostingIndex);
    assert!(idx.suggest("y", 8).unwrap().is_empty());
}

#[test]
fn a_link_without_a_record_fails_the_query() {
    let mut b = IndexBuilder::new();
    b.add_key("x", 3);
    let (fst, records) = b.build().unwrap();
    let idx = Index::from_bytes(fst, records).unwrap();
    assert_eq!(idx.suggest("x", 8).unwrap_err(), IndexError::RecordId);
}

#[test]
fn errors_have_a_kind_and_a_message() {
    for (error, message) in [
        (IndexError::ShortHeader, "records.bin shorter than header"),
        (IndexError::BadMagic, "records.bin bad magic"),
        (IndexError::LengthMismatch, "records.bin length mismatch"),
        (IndexError::U16OutOfBounds, "u16 out of bounds"),
        (IndexError::U32OutOfBounds, "u32 out of bounds"),
        (IndexError::U64OutOfBounds, "u64 out of bounds"),
        (IndexError::StringOutOfBounds, "string out of bounds"),
        (IndexError::StringNotUtf8, "string not utf-8"),
        (IndexError::PostingIndex, "posting index out of range"),
        (IndexError::RecordId, "record id out of range"),
        (IndexError::PayloadOutOfBounds, "payload out of bounds"),
        (IndexError::NotATransducer, "FST error"),
    ] {
        assert_eq!(error.kind(), ErrorKind::InvalidData);
        assert_eq!(error.message(), message);
    }
    assert_eq!(IndexError::TransducerBuild.kind(), ErrorKind::Other);
    assert_eq!(IndexError::TransducerBuild.message(), "FST error");
    assert_eq!(IndexError::TooManyEdits(10).kind(), ErrorKind::InvalidInput);
    assert_eq!(IndexError::TooManyEdits(10).message(), "max_edits 10 exceeds MAX_EDITS 2");
}
