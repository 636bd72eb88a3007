//! What a query finds: the keys that match it, the records behind them, and what is shown.
use std::collections::HashSet;

use vstd::prelude::*;
use vstd::utf8::{decode_utf8, encode_utf8, valid_utf8};

use crate::distance::{prefix_edit_distance_le, prefix_within};
use crate::error::IndexError;
use crate::normalize::normalized;
use crate::ranking::{cut, ranking, views};
use crate::records::{posting_at, record_at, Backing, Record, RecordStore, RecordView};
use crate::transducer::{entries_of, starting_with, Entry};
use crate::unicode::text_from_utf8;

verus! {

/// The largest edit distance that a fuzzy query may ask for. Small on purpose: one or two
/// edits cover realistic typos, and the scan grows with the tolerance.
pub const MAX_EDITS: u32 = 2;

/// Whether a key matches a normalized query. Without edits, the key starts with the query.
/// With edits, the key starts with the first character of the query, is text, and has a
/// prefix within that many edits of the query.
pub open spec fn key_matches(query: Seq<char>, key: Seq<u8>, max_edits: u32) -> bool {
    if max_edits == 0 {
        encode_utf8(query).is_prefix_of(key)
    } else {
        &&& encode_utf8(query.take(1)).is_prefix_of(key)
        &&& valid_utf8(key)
        &&& prefix_within(query, decode_utf8(key), max_edits as int)
    }
}

/// The entries whose keys match a query, in the order of the keys.
pub open spec fn hits(entries: Seq<Entry>, query: Seq<char>, max_edits: u32) -> Seq<Entry> {
    entries.filter(|e: Entry| key_matches(query, e.0, max_edits))
}

/// The number of the postings entry that a value of the transducer stands for.
pub open spec fn posting_number(value: u64) -> u32 {
    (value % 0x1_0000_0000) as u32
}

/// The ids behind some entries, postings entry after postings entry; the first that cannot
/// be read is the failure of the whole.
pub open spec fn ids_behind(data: Seq<u8>, found: Seq<Entry>) -> Result<Seq<u32>, IndexError>
    decreases found.len(),
{
    if found.len() == 0 {
        Ok(Seq::empty())
    } else {
        match ids_behind(data, found.drop_last()) {
            Err(e) => Err(e),
            Ok(ids) => match posting_at(data, posting_number(found.last().1)) {
                Err(e) => Err(e),
                Ok(more) => Ok(ids + more),
            },
        }
    }
}

/// Ids, each where it first occurs.
pub open spec fn distinct(ids: Seq<u32>) -> Seq<u32>
    decreases ids.len(),
{
    if ids.len() == 0 {
        Seq::empty()
    } else {
        let front = distinct(ids.drop_last());
        if front.contains(ids.last()) {
            front
        } else {
            front.push(ids.last())
        }
    }
}

/// The records of some ids; the first that cannot be read is the failure of the whole.
pub open spec fn records_of(data: Seq<u8>, ids: Seq<u32>) -> Result<Seq<RecordView>, IndexError>
    decreases ids.len(),
{
    if ids.len() == 0 {
        Ok(Seq::empty())
    } else {
        match records_of(data, ids.drop_last()) {
            Err(e) => Err(e),
            Ok(records) => match record_at(data, ids.last()) {
                Err(e) => Err(e),
                Ok(r) => Ok(records.push(r)),
            },
        }
    }
}

/// The records behind some entries, each id once.
pub open spec fn pool_behind(data: Seq<u8>, found: Seq<Entry>) -> Result<
    Seq<RecordView>,
    IndexError,
> {
    match ids_behind(data, found) {
        Err(e) => Err(e),
        Ok(ids) => records_of(data, distinct(ids)),
    }
}

/// What is shown for a query: nothing where the query folds to nothing or nothing may be
/// shown; a refusal where too many edits are asked for; else the ranking of the records
/// behind the keys that match, cut after `limit`.
pub open spec fn suggestions(
    entries: Seq<Entry>,
    data: Seq<u8>,
    prefix: Seq<char>,
    limit: int,
    max_edits: u32,
) -> Result<Seq<RecordView>, IndexError> {
    let query = normalized(prefix);
    if query.len() == 0 || limit == 0 {
        Ok(Seq::empty())
    } else if max_edits > MAX_EDITS {
        Err(IndexError::TooManyEdits(max_edits))
    } else {
        match pool_behind(data, hits(entries, query, max_edits)) {
            Err(e) => Err(e),
            Ok(pool) => Ok(cut(ranking(pool), limit)),
        }
    }
}

/// What is shown for an exact query: the ranking of the records behind the keys that start
/// with the query, cut after `limit`.
pub open spec fn exact_suggestions(
    entries: Seq<Entry>,
    data: Seq<u8>,
    prefix: Seq<char>,
    limit: int,
) -> Result<Seq<RecordView>, IndexError> {
    let query = normalized(prefix);
    if query.len() == 0 || limit == 0 {
        Ok(Seq::empty())
    } else {
        match pool_behind(data, starting_with(entries, encode_utf8(query))) {
            Err(e) => Err(e),
            Ok(pool) => Ok(cut(ranking(pool), limit)),
        }
    }
}

/// A query that tolerates no edits is the exact query.
pub proof fn law_no_edits_is_exact(
    entries: Seq<Entry>,
    data: Seq<u8>,
    prefix: Seq<char>,
    limit: int,
)
    ensures
        suggestions(entries, data, prefix, limit, 0) == exact_suggestions(
            entries,
            data,
            prefix,
            limit,
        ),
{
    let query = normalized(prefix);
    lemma_filter_agree(
        entries,
        |e: Entry| encode_utf8(query).is_prefix_of(e.0),
        |e: Entry| key_matches(query, e.0, 0),
    );
}

/// Filters that agree on every value keep the same.
pub proof fn lemma_filter_agree<A>(s: Seq<A>, p: spec_fn(A) -> bool, q: spec_fn(A) -> bool)
    requires
        forall|x: A| #[trigger] p(x) == q(x),
    ensures
        s.filter(p) == s.filter(q),
    decreases s.len(),
{
    reveal(Seq::filter);
    if s.len() > 0 {
        lemma_filter_agree(s.drop_last(), p, q);
    }
}

/// Two filters one behind the other keep what both keep.
pub proof fn lemma_filter_twice<A>(
    s: Seq<A>,
    p: spec_fn(A) -> bool,
    q: spec_fn(A) -> bool,
    both: spec_fn(A) -> bool,
)
    requires
        forall|x: A| #[trigger] both(x) == (p(x) && q(x)),
    ensures
        s.filter(p).filter(q) == s.filter(both),
    decreases s.len(),
{
    reveal(Seq::filter);
    if s.len() > 0 {
        lemma_filter_twice(s.drop_last(), p, q, both);
        let front = s.drop_last().filter(p);
        if p(s.last()) {
            assert(front.push(s.last()).drop_last() =~= front);
        }
    }
}

/// Of the entries that start with the first character of a query, keeps those whose keys
/// match with up to `max_edits` edits. Keys that are no text are skipped.
pub fn keep_near(
    query: &[char],
    scanned: Vec<(Vec<u8>, u64)>,
    max_edits: u32,
) -> (kept: Vec<(Vec<u8>, u64)>)
    ensures
        entries_of(kept@) == entries_of(scanned@).filter(
            |e: Entry| valid_utf8(e.0) && prefix_within(query@, decode_utf8(e.0), max_edits as int),
        ),
{
    let ghost near = |e: Entry|
        valid_utf8(e.0) && prefix_within(query@, decode_utf8(e.0), max_edits as int);
    let ghost all = scanned@;
    let mut kept: Vec<(Vec<u8>, u64)> = Vec::new();
    proof {
        reveal(Seq::filter);
        assert(entries_of(all).take(0) =~= Seq::<Entry>::empty());
        assert(entries_of(kept@) =~= entries_of(all).take(0).filter(near));
    }
    for hit in it: scanned
        invariant
            it.seq() == all,
            near == (|e: Entry|
                valid_utf8(e.0) && prefix_within(query@, decode_utf8(e.0), max_edits as int)),
            entries_of(kept@) == entries_of(all).take(it.index()).filter(near),
    {
        let ghost i = it.index();
        let ghost before = kept@;
        let ghost entry: Entry = (hit.0@, hit.1);
        proof {
            reveal(Seq::filter);
            assert(entries_of(all)[i] == entry);
            assert(entries_of(all).take(i + 1).drop_last() =~= entries_of(all).take(i));
        }
        let is_near: bool = match text_from_utf8(hit.0.as_slice()) {
            Some(key) => prefix_edit_distance_le(query, key, max_edits),
            None => false,
        };
        assert(is_near == near(entry));
        if is_near {
            kept.push(hit);
            assert(entries_of(kept@) =~= entries_of(before).push(entry));
        }
    }
    assert(entries_of(all).take(all.len() as int) =~= entries_of(all));
    kept
}

/// The ids that `distinct` keeps of ids with more behind them.
proof fn lemma_distinct_step(ids: Seq<u32>, more: Seq<u32>, i: int)
    requires
        0 <= i < more.len(),
    ensures
        distinct(ids + more.take(i + 1)) == (if distinct(ids + more.take(i)).contains(more[i]) {
            distinct(ids + more.take(i))
        } else {
            distinct(ids + more.take(i)).push(more[i])
        }),
{
    assert((ids + more.take(i + 1)).drop_last() =~= ids + more.take(i));
}

/// Reading further cannot mend what could not be read.
proof fn lemma_ids_failed(data: Seq<u8>, found: Seq<Entry>, i: int)
    requires
        0 <= i <= found.len(),
        ids_behind(data, found.take(i)) is Err,
    ensures
        ids_behind(data, found) == ids_behind(data, found.take(i)),
    decreases found.len(),
{
    if i < found.len() {
        assert(found.drop_last().take(i) =~= found.take(i));
        lemma_ids_failed(data, found.drop_last(), i);
    } else {
        assert(found.take(i) =~= found);
    }
}

/// Reading further cannot mend what could not be read.
proof fn lemma_records_failed(data: Seq<u8>, ids: Seq<u32>, i: int)
    requires
        0 <= i <= ids.len(),
        records_of(data, ids.take(i)) is Err,
    ensures
        records_of(data, ids) == records_of(data, ids.take(i)),
    decreases ids.len(),
{
    if i < ids.len() {
        assert(ids.drop_last().take(i) =~= ids.take(i));
        lemma_records_failed(data, ids.drop_last(), i);
    } else {
        assert(ids.take(i) =~= ids);
    }
}

impl<B: Backing> RecordStore<B> {
    /// The ids behind some entries of the transducer, each once, in the order in which they
    /// are come across.
    pub fn collect_ids(&self, found: &Vec<(Vec<u8>, u64)>) -> (r: Result<Vec<u32>, IndexError>)
        ensures
            match (r, ids_behind(self.data(), entries_of(found@))) {
                (Ok(ids), Ok(all)) => ids@ == distinct(all),
                (Err(e), Err(f)) => e == f,
                _ => false,
            },
    {
        broadcast use vstd::std_specs::hash::group_hash_axioms;

        let ghost entries = entries_of(found@);
        let ghost mut all: Seq<u32> = Seq::empty();
        let mut ids: Vec<u32> = Vec::new();
        let mut seen: HashSet<u32> = HashSet::new();
        assert(entries.take(0) =~= Seq::<Entry>::empty());
        for i in 0..found.len()
            invariant
                entries == entries_of(found@),
                ids_behind(self.data(), entries.take(i as int)) == Ok::<Seq<u32>, IndexError>(all),
                ids@ == distinct(all),
                forall|id: u32| #[trigger] seen@.contains(id) <==> ids@.contains(id),
        {
            let ghost upto = entries.take(i + 1);
            proof {
                assert(upto.drop_last() =~= entries.take(i as int));
                assert(upto.last() == entries[i as int]);
            }
            let number = (found[i].1 % 0x1_0000_0000) as u32;
            let posting = match self.posting(number) {
                Ok(posting) => posting,
                Err(e) => {
                    proof {
                        lemma_ids_failed(self.data(), entries, i + 1);
                    }
                    return Err(e);
                },
            };
            let ghost start = all;
            assert(start + posting@.take(0) =~= start);
            for j in 0..posting.len()
                invariant
                    ids@ == distinct(start + posting@.take(j as int)),
                    forall|id: u32| #[trigger] seen@.contains(id) <==> ids@.contains(id),
            {
                broadcast use vstd::std_specs::hash::group_hash_axioms;

                let id = posting[j];
                let ghost before = ids@;
                proof {
                    lemma_distinct_step(start, posting@, j as int);
                }
                if seen.insert(id) {
                    ids.push(id);
                    assert forall|x: u32| #[trigger] ids@.contains(x) <==>
                        before.contains(x) || x == id by {
                        if before.contains(x) {
                            let k = choose|k: int| 0 <= k < before.len() && before[k] == x;
                            assert(ids@[k] == x);
                        }
                        if x == id {
                            assert(ids@[before.len() as int] == x);
                        }
                    }
                }
            }
            proof {
                assert(posting@.take(posting@.len() as int) =~= posting@);
                all = start + posting@;
            }
        }
        assert(entries.take(entries.len() as int) =~= entries);
        Ok(ids)
    }

    /// The records of some ids, one of each group, ranked and cut after `limit`.
    pub fn finalize(&self, ids: Vec<u32>, limit: usize) -> (r: Result<Vec<Record>, IndexError>)
        ensures
            match (r, records_of(self.data(), ids@)) {
                (Ok(shown), Ok(pool)) => views(shown@) == cut(ranking(pool), limit as int),
                (Err(e), Err(f)) => e == f,
                _ => false,
            },
    {
        let mut found: Vec<Record> = Vec::new();
        assert(ids@.take(0) =~= Seq::<u32>::empty());
        assert(views(found@) =~= Seq::<RecordView>::empty());
        for i in 0..ids.len()
            invariant
                records_of(self.data(), ids@.take(i as int)) == Ok::<Seq<RecordView>, IndexError>(
                    views(found@),
                ),
        {
            let ghost before = found@;
            proof {
                assert(ids@.take(i + 1).drop_last() =~= ids@.take(i as int));
            }
            match self.record(ids[i]) {
                Ok(record) => {
                    found.push(record);
                    assert(views(found@) =~= views(before).push(record@));
                },
                Err(e) => {
                    proof {
                        lemma_records_failed(self.data(), ids@, i + 1);
                    }
                    return Err(e);
                },
            }
        }
        assert(ids@.take(ids@.len() as int) =~= ids@);
        Ok(crate::ranking::rank_records(found, limit))
    }
}

/// The ids behind one more entry come behind the others; a failure stays.
pub proof fn law_ids_one_after_the_other(data: Seq<u8>, found: Seq<Entry>, e: Entry)
    ensures
        ids_behind(data, Seq::empty()) == Ok::<Seq<u32>, IndexError>(Seq::empty()),
        ids_behind(data, found.push(e)) == (match (
            ids_behind(data, found),
            posting_at(data, (e.1 % 0x1_0000_0000) as u32),
        ) {
            (Err(f), _) => Err::<Seq<u32>, IndexError>(f),
            (_, Err(f)) => Err(f),
            (Ok(ids), Ok(more)) => Ok(ids + more),
        }),
{
    assert(found.push(e).drop_last() =~= found);
}

/// One more record comes behind the others; a failure stays.
pub proof fn law_records_one_after_the_other(data: Seq<u8>, ids: Seq<u32>, id: u32)
    ensures
        records_of(data, Seq::empty()) == Ok::<Seq<RecordView>, IndexError>(Seq::empty()),
        records_of(data, ids.push(id)) == (match (records_of(data, ids), record_at(data, id)) {
            (Err(f), _) => Err::<Seq<RecordView>, IndexError>(f),
            (_, Err(f)) => Err(f),
            (Ok(records), Ok(r)) => Ok(records.push(r)),
        }),
{
    assert(ids.push(id).drop_last() =~= ids);
}

} // verus!
