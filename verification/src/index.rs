//! Query side: prefix autocomplete over `index.fst` and `records.bin`.
//!
//! The engine knows no domain: it returns [`Record`]s, whose payload a domain adapter such
//! as [`crate::geo`] decodes. A query is answered in five steps:
//!
//! 1. the prefix is normalized (a prefix that is already normalized stays as it is),
//! 2. the transducer is scanned for the keys that match,
//! 3. the values found lead to postings entries, and those to record ids,
//! 4. of the records, one is kept of each group,
//! 5. they are ranked, and the first `limit` are returned.
use vstd::prelude::*;

use crate::builder::{keys_are_text, numbered, IndexBuilder};
use crate::distance::prefix_within;
use crate::error::IndexError;
use crate::normalize::{normalize, normalized};
use crate::ranking::views;
use crate::records::{header_fault, n_records_in, Backing, Record, RecordStore};
use crate::search::{
    distinct, exact_suggestions, hits, ids_behind, keep_near, key_matches, law_no_edits_is_exact,
    lemma_filter_agree, lemma_filter_twice, suggestions, MAX_EDITS,
};
use crate::text::chars_of;
use crate::transducer::{
    check_trailer, fst_entries, looks_like_fst, open_map, scan_prefix, trailer_fits, Entry,
};
use vstd::utf8::{decode_utf8, encode_utf8, valid_utf8};

verus! {

/// Why two artifacts make no index, if they make none: the first is no transducer (or one
/// with numbers that this machine cannot address), or the second is no `records.bin`.
pub open spec fn open_fault(fst: Seq<u8>, records: Seq<u8>) -> Option<IndexError> {
    if !looks_like_fst(fst) || !trailer_fits(fst) {
        Some(IndexError::NotATransducer)
    } else {
        header_fault(records)
    }
}

/// A read-only autocomplete index over bytes that are owned, or borrowed from a mapped file.
pub struct Index<B: Backing> {
    fst: B,
    store: RecordStore<B>,
}

impl<B: Backing> Index<B> {
    #[verifier::type_invariant]
    spec fn opens(self) -> bool {
        looks_like_fst(self.fst.data()) && trailer_fits(self.fst.data())
    }

    /// The bytes of the transducer.
    pub closed spec fn fst_data(&self) -> Seq<u8> {
        self.fst.data()
    }

    /// The bytes of `records.bin`.
    pub closed spec fn records_data(&self) -> Seq<u8> {
        self.store.data()
    }

    /// Whether the transducer is one that a builder has written. The header and the trailer,
    /// which are all that opening looks at, do not tell.
    pub open spec fn is_sound(&self) -> bool {
        fst_entries(self.fst_data()) is Some
    }

    /// The entries of the transducer.
    pub open spec fn entries(&self) -> Seq<Entry> {
        fst_entries(self.fst_data())->Some_0
    }

    /// Opens an index over the bytes of `index.fst` and `records.bin`.
    pub fn from_bytes(fst_bytes: B, records_bytes: B) -> (r: Result<Index<B>, IndexError>)
        ensures
            match r {
                Ok(index) => {
                    &&& open_fault(fst_bytes.data(), records_bytes.data()) is None
                    &&& index.fst_data() == fst_bytes.data()
                    &&& index.records_data() == records_bytes.data()
                },
                Err(e) => open_fault(fst_bytes.data(), records_bytes.data()) == Some(e),
            },
    {
        if !check_trailer(fst_bytes.as_bytes()) {
            return Err(IndexError::NotATransducer);
        }
        match open_map(fst_bytes.as_bytes()) {
            Ok(_) => {},
            Err(_) => {
                return Err(IndexError::NotATransducer);
            },
        }
        match RecordStore::new(records_bytes) {
            Ok(store) => Ok(Index { fst: fst_bytes, store }),
            Err(e) => Err(e),
        }
    }

    /// The number of records held.
    pub fn len(&self) -> (n: u32)
        ensures
            n == n_records_in(self.records_data()),
    {
        self.store.n_records()
    }

    /// Whether no records are held.
    pub fn is_empty(&self) -> (r: bool)
        ensures
            r == (n_records_in(self.records_data()) == 0),
    {
        self.store.n_records() == 0
    }

    /// Exact-prefix autocomplete: the records whose normalized key starts with `prefix`, one
    /// of each group, by rank from the highest, cut after `limit`.
    pub fn suggest(&self, prefix: &str, limit: usize) -> (r: Result<Vec<Record>, IndexError>)
        requires
            self.is_sound(),
        ensures
            match (
                r,
                exact_suggestions(self.entries(), self.records_data(), prefix@, limit as int),
            ) {
                (Ok(shown), Ok(expected)) => views(shown@) == expected,
                (Err(e), Err(f)) => e == f,
                _ => false,
            },
    {
        proof {
            law_no_edits_is_exact(self.entries(), self.records_data(), prefix@, limit as int);
        }
        self.suggest_fuzzy(prefix, limit, 0)
    }

    /// Autocomplete that tolerates up to `max_edits` typos.
    ///
    /// Without edits this is [`Index::suggest`]. With edits a key matches if some prefix of it
    /// is within that many edits, counted in characters, of the normalized query; a typo in
    /// the first character is not recovered. No more than [`MAX_EDITS`] may be asked for.
    pub fn suggest_fuzzy(&self, prefix: &str, limit: usize, max_edits: u32) -> (r: Result<
        Vec<Record>,
        IndexError,
    >)
        requires
            self.is_sound(),
        ensures
            match (
                r,
                suggestions(
                    self.entries(),
                    self.records_data(),
                    prefix@,
                    limit as int,
                    max_edits,
                ),
            ) {
                (Ok(shown), Ok(expected)) => views(shown@) == expected,
                (Err(e), Err(f)) => e == f,
                _ => false,
            },
    {
        let norm = normalize(prefix);
        if norm.as_str().is_empty() || limit == 0 {
            let none: Vec<Record> = Vec::new();
            assert(views(none@) =~= Seq::empty());
            return Ok(none);
        }
        if max_edits > MAX_EDITS {
            return Err(IndexError::TooManyEdits(max_edits));
        }
        let gathered = if max_edits == 0 {
            self.gather_exact(norm.as_str())
        } else {
            self.gather_fuzzy(norm.as_str(), max_edits)
        };
        match gathered {
            Ok(ids) => self.store.finalize(ids, limit),
            Err(e) => Err(e),
        }
    }

    /// The ids of the records whose keys start with `prefix`, each once.
    fn gather_exact(&self, prefix: &str) -> (r: Result<Vec<u32>, IndexError>)
        requires
            self.is_sound(),
        ensures
            match (r, ids_behind(self.records_data(), hits(self.entries(), prefix@, 0))) {
                (Ok(ids), Ok(all)) => ids@ == distinct(all),
                (Err(e), Err(f)) => e == f,
                _ => false,
            },
    {
        proof {
            use_type_invariant(self);
        }
        let map = match open_map(self.fst.as_bytes()) {
            Ok(map) => map,
            Err(_) => {
                return Err(IndexError::NotATransducer);
            },
        };
        let found = scan_prefix(&map, prefix);
        proof {
            lemma_filter_agree(
                self.entries(),
                |e: Entry| encode_utf8(prefix@).is_prefix_of(e.0),
                |e: Entry| key_matches(prefix@, e.0, 0),
            );
        }
        self.store.collect_ids(&found)
    }

    /// The ids of the records whose keys have a prefix within `max_edits` edits of `query`,
    /// each once. Only keys that share the first character of the query are looked at.
    fn gather_fuzzy(&self, query: &str, max_edits: u32) -> (r: Result<Vec<u32>, IndexError>)
        requires
            self.is_sound(),
            query@.len() > 0,
            max_edits > 0,
        ensures
            match (r, ids_behind(self.records_data(), hits(self.entries(), query@, max_edits))) {
                (Ok(ids), Ok(all)) => ids@ == distinct(all),
                (Err(e), Err(f)) => e == f,
                _ => false,
            },
    {
        proof {
            use_type_invariant(self);
        }
        let map = match open_map(self.fst.as_bytes()) {
            Ok(map) => map,
            Err(_) => {
                return Err(IndexError::NotATransducer);
            },
        };
        let chars = chars_of(query);
        let mut first = String::new();
        first.push(chars[0]);
        assert(first@ =~= query@.take(1));
        let scanned = scan_prefix(&map, first.as_str());
        let found = keep_near(chars.as_slice(), scanned, max_edits);
        proof {
            lemma_filter_twice(
                self.entries(),
                |e: Entry| encode_utf8(first@).is_prefix_of(e.0),
                |e: Entry|
                    valid_utf8(e.0) && prefix_within(chars@, decode_utf8(e.0), max_edits as int),
                |e: Entry| key_matches(query@, e.0, max_edits),
            );
        }
        self.store.collect_ids(&found)
    }
}

impl IndexBuilder {
    /// Builds the artifacts and opens them.
    pub fn into_index(self) -> (r: Result<Index<Vec<u8>>, IndexError>)
        ensures
            r is Ok,
            r->Ok_0.is_sound(),
            r->Ok_0.entries() == numbered(self@.rows()),
            r->Ok_0.fst_data() == self@.fst(),
            r->Ok_0.records_data() == self@.blob(),
            keys_are_text(self@.links),
            self@.blob().len() <= usize::MAX,
    {
        let (fst_bytes, records_bytes) = match self.build() {
            Ok(artifacts) => artifacts,
            Err(e) => {
                return Err(e);
            },
        };
        Index::from_bytes(fst_bytes, records_bytes)
    }

    /// Builds the artifacts, opens them and asks once.
    pub fn suggest_once(self, prefix: &str, limit: usize, max_edits: u32) -> (r: Result<
        Vec<Record>,
        IndexError,
    >)
        ensures
            match (
                r,
                suggestions(
                    numbered(self@.rows()),
                    self@.blob(),
                    prefix@,
                    limit as int,
                    max_edits,
                ),
            ) {
                (Ok(shown), Ok(expected)) => views(shown@) == expected,
                (Err(e), Err(f)) => e == f,
                _ => false,
            },
    {
        match self.into_index() {
            Ok(index) => if max_edits == 0 {
                proof {
                    law_no_edits_is_exact(
                        index.entries(),
                        index.records_data(),
                        prefix@,
                        limit as int,
                    );
                }
                index.suggest(prefix, limit)
            } else {
                index.suggest_fuzzy(prefix, limit, max_edits)
            },
            Err(e) => Err(e),
        }
    }
}

/// What opens: a transducer that the `fst` crate takes and this machine can address, beside what
/// is taken for `records.bin`. The transducer is looked at first.
pub proof fn law_what_opens(fst: Seq<u8>, records: Seq<u8>)
    ensures
        open_fault(fst, records) is None <==> looks_like_fst(fst) && trailer_fits(fst)
            && header_fault(records) is None,
        !(looks_like_fst(fst) && trailer_fits(fst)) ==> open_fault(fst, records) == Some(
            IndexError::NotATransducer,
        ),
        looks_like_fst(fst) && trailer_fits(fst) ==> open_fault(fst, records) == header_fault(
            records,
        ),
{
}

} // verus!
