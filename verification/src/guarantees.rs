//! What holds of the library as a whole: of what is built, opened and asked.
use vstd::prelude::*;
use vstd::utf8::{
    decode_utf8, decode_utf8_encode_utf8, encode_utf8, encode_utf8_decode_utf8,
    encode_utf8_valid_utf8, is_ascii_chars, partial_valid_partial_invalid_utf8, valid_utf8,
};

use crate::blob::{fits, law_opens, law_read_back, law_record_reads_back};
use crate::builder::{id_columns, keys_are_text, numbered, Gathered};
use crate::distance::edit_distance;
use crate::edits::lemma_distance_to_self;
use crate::error::IndexError;
use crate::geo::{decoded, decoded_all, geo_suggestions, law_geo_round_trip, GeoView};
use crate::normalize::{
    folded, law_normalize_ascii_idempotent, law_normalize_idempotent, normalized,
};
use crate::ranking::{
    cut, in_order, law_larger_pool_shows_no_less, law_ranking, law_ranking_unique, outranks_view,
    ranking, shown_before, shows_group,
};
use crate::records::{header_fault, n_records_in, posting_at, record_at, RecordView};
use crate::search::{
    distinct, exact_suggestions, hits, ids_behind, key_matches, law_no_edits_is_exact, pool_behind,
    posting_number, records_of, suggestions, MAX_EDITS,
};
use crate::table::{holds, law_table, law_table_unique, rising, LinkView, Row};
use crate::transducer::Entry;

verus! {

/// A filter keeps just what passes it.
pub proof fn lemma_filter_contains<A>(s: Seq<A>, p: spec_fn(A) -> bool)
    ensures
        forall|x: A| #[trigger] s.filter(p).contains(x) <==> s.contains(x) && p(x),
    decreases s.len(),
{
    reveal(Seq::filter);
    if s.len() > 0 {
        let front = s.drop_last();
        lemma_filter_contains(front, p);
        assert forall|x: A| #[trigger] s.filter(p).contains(x) <==> s.contains(x) && p(x) by {
            if s.filter(p).contains(x) {
                let i = choose|i: int| 0 <= i < s.filter(p).len() && s.filter(p)[i] == x;
                if i < front.filter(p).len() {
                    assert(front.filter(p)[i] == x);
                    assert(front.filter(p).contains(x));
                    let k = choose|k: int| 0 <= k < front.len() && front[k] == x;
                    assert(s[k] == x);
                } else {
                    assert(s[s.len() - 1] == x);
                }
            }
            if s.contains(x) && p(x) {
                let k = choose|k: int| 0 <= k < s.len() && s[k] == x;
                if k < front.len() {
                    assert(front[k] == x);
                    assert(front.filter(p).contains(x));
                    let i = choose|i: int| 0 <= i < front.filter(p).len()
                        && front.filter(p)[i] == x;
                    assert(s.filter(p)[i] == x);
                } else {
                    assert(s.filter(p)[front.filter(p).len() as int] == x);
                }
            }
        }
    } else {
        assert(s.filter(p) =~= s);
    }
}

/// Keeping each id once keeps every id.
pub proof fn lemma_distinct_contains(ids: Seq<u32>)
    ensures
        forall|x: u32| #[trigger] distinct(ids).contains(x) <==> ids.contains(x),
    decreases ids.len(),
{
    if ids.len() > 0 {
        let front = ids.drop_last();
        let kept = distinct(ids);
        let before = distinct(front);
        lemma_distinct_contains(front);
        assert forall|x: u32| #[trigger] kept.contains(x) <==> ids.contains(x) by {
            if ids.contains(x) {
                let k = choose|k: int| 0 <= k < ids.len() && ids[k] == x;
                if k < front.len() {
                    assert(front[k] == x);
                    assert(before.contains(x));
                    let i = choose|i: int| 0 <= i < before.len() && before[i] == x;
                    assert(kept[i] == x);
                } else if !before.contains(x) {
                    assert(kept[before.len() as int] == x);
                }
            }
            if kept.contains(x) {
                let i = choose|i: int| 0 <= i < kept.len() && kept[i] == x;
                if i < before.len() {
                    assert(before[i] == x);
                    assert(before.contains(x));
                    let k = choose|k: int| 0 <= k < front.len() && front[k] == x;
                    assert(ids[k] == x);
                } else {
                    assert(ids[ids.len() - 1] == x);
                }
            }
        }
    }
}

/// One more id comes behind the others, unless it is there.
pub proof fn law_each_id_once(ids: Seq<u32>, id: u32)
    ensures
        distinct(Seq::empty()) == Seq::<u32>::empty(),
        distinct(ids.push(id)) == (if ids.contains(id) {
            distinct(ids)
        } else {
            distinct(ids).push(id)
        }),
{
    assert(ids.push(id).drop_last() =~= ids);
    lemma_distinct_contains(ids);
}

/// The records that a query reaches: those that a matching key is linked to.
pub open spec fn reached(g: Gathered, query: Seq<char>, max_edits: u32) -> Seq<RecordView> {
    g.links.filter(|l: LinkView| key_matches(query, l.0, max_edits)).map_values(
        |l: LinkView| g.records[l.1 as int],
    )
}

/// Whether every link leads to a record, and the number of keys, the number of records and
/// the length of each payload fit the fields that they are stored in.
pub open spec fn is_whole(g: Gathered) -> bool {
    &&& forall|i: int| 0 <= i < g.links.len() ==> (#[trigger] g.links[i]).1 < g.records.len()
    &&& g.rows().len() < 0x1_0000_0000
    &&& g.records.len() < 0x1_0000_0000
    &&& forall|i: int|
        0 <= i < g.records.len() ==> (#[trigger] g.records[i]).payload.len() < 0x1_0000_0000
    &&& g.blob().len() < 0x1_0000_0000_0000_0000
}

/// Rising ids below a bound are no more than the bound.
proof fn lemma_rising_len(ids: Seq<u32>, bound: nat)
    requires
        rising(ids),
        forall|i: int| 0 <= i < ids.len() ==> (#[trigger] ids[i]) < bound,
    ensures
        ids.len() <= bound,
    decreases ids.len(),
{
    if ids.len() > 0 {
        let front = ids.drop_last();
        assert forall|i: int| 0 <= i < front.len() implies (#[trigger] front[i]) < ids.last() by {
            assert(ids[i] < ids[ids.len() - 1]);
        }
        assert(rising(front)) by {
            assert forall|i: int, j: int| 0 <= i < j < front.len() implies #[trigger] front[i]
                < #[trigger] front[j] by {
                assert(ids[i] < ids[j]);
            }
        }
        lemma_rising_len(front, ids.last() as nat);
        assert(ids[ids.len() - 1] < bound);
    }
}

/// Where every link leads to a record, no postings entry is longer than there are records.
proof fn lemma_whole_fits(g: Gathered)
    requires
        is_whole(g),
    ensures
        fits(id_columns(g.rows()), g.records),
{
    let rows = g.rows();
    law_table(g.links);
    assert forall|i: int| 0 <= i < rows.len() implies (#[trigger] id_columns(rows)[i]).len()
        < 0x1_0000_0000 by {
        let ids = rows[i].ids;
        assert(rising(rows[i].ids));
        assert forall|k: int| 0 <= k < ids.len() implies (#[trigger] ids[k]) < g.records.len() by {
            assert(ids.contains(ids[k]));
            assert(holds(rows, rows[i].key, ids[k]));
            assert(g.links.contains((rows[i].key, ids[k])));
            let m = choose|m: int|
                0 <= m < g.links.len() && g.links[m] == (rows[i].key, ids[k]);
            assert(g.links[m].1 < g.records.len());
        }
        lemma_rising_len(ids, g.records.len());
    }
}

/// Whether an entry is a row of a table with its number.
spec fn is_row_entry(rows: Seq<Row>, e: Entry) -> bool {
    e.1 < rows.len() && e.0 == rows[e.1 as int].key
}

/// Whether an id is in one of the rows that some entries number.
spec fn is_behind(rows: Seq<Row>, found: Seq<Entry>, x: u32) -> bool {
    exists|k: int| 0 <= k < found.len() && rows[(#[trigger] found[k]).1 as int].ids.contains(x)
}

/// The postings entry of a row is read back.
proof fn lemma_posting_of_row(g: Gathered, e: Entry)
    requires
        is_whole(g),
        is_row_entry(g.rows(), e),
    ensures
        posting_at(g.blob(), posting_number(e.1)) == Ok::<Seq<u32>, IndexError>(
            g.rows()[e.1 as int].ids,
        ),
{
    lemma_whole_fits(g);
    law_read_back(id_columns(g.rows()), g.records);
    assert(posting_number(e.1) == e.1);
    assert(id_columns(g.rows())[e.1 as int] == g.rows()[e.1 as int].ids);
}

/// What is behind some entries and one more.
proof fn lemma_behind_step(rows: Seq<Row>, found: Seq<Entry>, before: Seq<u32>)
    requires
        found.len() > 0,
        forall|x: u32| #[trigger]
            before.contains(x) <==> is_behind(rows, found.drop_last(), x),
    ensures
        forall|x: u32| #[trigger]
            (before + rows[found.last().1 as int].ids).contains(x) <==> is_behind(rows, found, x),
{
    let front = found.drop_last();
    let last = found.last();
    let more = rows[last.1 as int].ids;
    let ids = before + more;
    assert forall|x: u32| #[trigger] ids.contains(x) <==> is_behind(rows, found, x) by {
        if ids.contains(x) {
            let i = choose|i: int| 0 <= i < ids.len() && ids[i] == x;
            if i < before.len() {
                assert(before[i] == x);
                assert(before.contains(x));
                let k = choose|k: int|
                    0 <= k < front.len() && rows[(#[trigger] front[k]).1 as int].ids.contains(x);
                assert(found[k] == front[k]);
            } else {
                assert(more[i - before.len()] == x);
                assert(found[found.len() - 1] == last);
            }
        }
        if is_behind(rows, found, x) {
            let k = choose|k: int|
                0 <= k < found.len() && rows[(#[trigger] found[k]).1 as int].ids.contains(x);
            if k < front.len() {
                assert(front[k] == found[k]);
                assert(is_behind(rows, front, x));
                assert(before.contains(x));
                let i = choose|i: int| 0 <= i < before.len() && before[i] == x;
                assert(ids[i] == x);
            } else {
                let i = choose|i: int| 0 <= i < more.len() && more[i] == x;
                assert(ids[before.len() + i] == x);
            }
        }
    }
}

/// The ids behind some rows are the ids of those rows.
proof fn lemma_ids_behind_rows(g: Gathered, found: Seq<Entry>) -> (ids: Seq<u32>)
    requires
        is_whole(g),
        forall|k: int| 0 <= k < found.len() ==> is_row_entry(g.rows(), #[trigger] found[k]),
    ensures
        ids_behind(g.blob(), found) == Ok::<Seq<u32>, IndexError>(ids),
        forall|x: u32| #[trigger] ids.contains(x) <==> is_behind(g.rows(), found, x),
    decreases found.len(),
{
    let rows = g.rows();
    if found.len() == 0 {
        Seq::empty()
    } else {
        let front = found.drop_last();
        assert forall|k: int| 0 <= k < front.len() implies
            is_row_entry(rows, #[trigger] front[k]) by {
            assert(is_row_entry(rows, found[k]));
        }
        let before = lemma_ids_behind_rows(g, front);
        assert(is_row_entry(rows, found[found.len() - 1]));
        lemma_posting_of_row(g, found.last());
        lemma_behind_step(rows, found, before);
        before + rows[found.last().1 as int].ids
    }
}

/// The records of some ids are read back.
proof fn lemma_records_of_ids(g: Gathered, ids: Seq<u32>)
    requires
        is_whole(g),
        forall|i: int| 0 <= i < ids.len() ==> (#[trigger] ids[i]) < g.records.len(),
    ensures
        records_of(g.blob(), ids) == Ok::<Seq<RecordView>, IndexError>(
            ids.map_values(|id: u32| g.records[id as int]),
        ),
    decreases ids.len(),
{
    let pool = ids.map_values(|id: u32| g.records[id as int]);
    if ids.len() == 0 {
        assert(pool =~= Seq::empty());
    } else {
        let front = ids.drop_last();
        assert forall|i: int| 0 <= i < front.len() implies
            (#[trigger] front[i]) < g.records.len() by {
            assert(ids[i] < g.records.len());
        }
        lemma_records_of_ids(g, front);
        lemma_whole_fits(g);
        law_read_back(id_columns(g.rows()), g.records);
        assert(ids[ids.len() - 1] < g.records.len());
        assert(record_at(g.blob(), ids.last()) == Ok::<RecordView, IndexError>(
            g.records[ids.last() as int],
        ));
        assert(pool =~= front.map_values(|id: u32| g.records[id as int]).push(
            g.records[ids.last() as int],
        ));
    }
}

/// The records behind the rows that match are those that the query reaches.
proof fn lemma_pool(g: Gathered, query: Seq<char>, max_edits: u32) -> (pool: Seq<RecordView>)
    requires
        is_whole(g),
    ensures
        pool_behind(g.blob(), hits(numbered(g.rows()), query, max_edits)) == Ok::<
            Seq<RecordView>,
            IndexError,
        >(pool),
        forall|r: RecordView| #[trigger]
            pool.contains(r) <==> reached(g, query, max_edits).contains(r),
{
    let rows = g.rows();
    let entries = numbered(rows);
    let matches = |e: Entry| key_matches(query, e.0, max_edits);
    let found = hits(entries, query, max_edits);
    let linked = |l: LinkView| key_matches(query, l.0, max_edits);
    let links = g.links.filter(linked);
    lemma_filter_contains(entries, matches);
    lemma_filter_contains(g.links, linked);
    law_table(g.links);
    assert forall|k: int| 0 <= k < found.len() implies is_row_entry(rows, #[trigger] found[k]) by {
        assert(found.contains(found[k]));
        let i = choose|i: int| 0 <= i < entries.len() && entries[i] == found[k];
        assert(entries[i] == (rows[i].key, i as u64));
        assert(rows.len() == id_columns(rows).len());
    }
    let all = lemma_ids_behind_rows(g, found);
    let ids = distinct(all);
    lemma_distinct_contains(all);
    assert forall|x: u32| #[trigger] ids.contains(x) <==> exists|i: int|
        0 <= i < links.len() && (#[trigger] links[i]).1 == x by {
        if ids.contains(x) {
            assert(all.contains(x));
            let k = choose|k: int|
                0 <= k < found.len() && rows[(#[trigger] found[k]).1 as int].ids.contains(x);
            assert(is_row_entry(rows, found[k]));
            let row = rows[found[k].1 as int];
            assert(holds(rows, row.key, x));
            assert(g.links.contains((row.key, x)));
            assert(found.contains(found[k]));
            assert(matches(found[k]));
            assert(linked((row.key, x)));
            assert(links.contains((row.key, x)));
            let i = choose|i: int| 0 <= i < links.len() && links[i] == (row.key, x);
            assert(links[i].1 == x);
        }
        if exists|i: int| 0 <= i < links.len() && (#[trigger] links[i]).1 == x {
            let i = choose|i: int| 0 <= i < links.len() && (#[trigger] links[i]).1 == x;
            let key = links[i].0;
            assert(links.contains(links[i]));
            assert(links[i] == (key, x));
            assert(g.links.contains((key, x)));
            assert(holds(rows, key, x));
            let n = choose|n: int|
                0 <= n < rows.len() && (#[trigger] rows[n]).key == key && rows[n].ids.contains(x);
            assert(entries[n] == (key, n as u64));
            assert(entries.contains(entries[n]));
            assert(matches(entries[n]));
            assert(found.contains(entries[n]));
            let k = choose|k: int| 0 <= k < found.len() && found[k] == entries[n];
            assert(rows.len() == id_columns(rows).len());
            assert(rows[found[k].1 as int].ids.contains(x));
            assert(is_behind(rows, found, x));
            assert(all.contains(x));
        }
    }
    assert forall|i: int| 0 <= i < ids.len() implies (#[trigger] ids[i]) < g.records.len() by {
        assert(ids.contains(ids[i]));
        let k = choose|k: int| 0 <= k < links.len() && (#[trigger] links[k]).1 == ids[i];
        assert(links.contains(links[k]));
        let m = choose|m: int| 0 <= m < g.links.len() && g.links[m] == links[k];
        assert(g.links[m].1 < g.records.len());
    }
    lemma_records_of_ids(g, ids);
    let pool = ids.map_values(|id: u32| g.records[id as int]);
    let other = reached(g, query, max_edits);
    assert forall|r: RecordView| #[trigger] pool.contains(r) <==> other.contains(r) by {
        if pool.contains(r) {
            let i = choose|i: int| 0 <= i < pool.len() && pool[i] == r;
            assert(ids.contains(ids[i]));
            let k = choose|k: int| 0 <= k < links.len() && (#[trigger] links[k]).1 == ids[i];
            assert(other[k] == r);
        }
        if other.contains(r) {
            let k = choose|k: int| 0 <= k < other.len() && other[k] == r;
            assert(links[k].1 == links[k].1);
            assert(ids.contains(links[k].1));
            let i = choose|i: int| 0 <= i < ids.len() && ids[i] == links[k].1;
            assert(pool[i] == r);
        }
    }
    pool
}

/// A query over what was built shows the records that it reaches: those linked to a key that
/// matches, one of each group, ranked, and cut after `limit`. Nothing is shown for a query
/// that folds to nothing or where nothing may be shown, and only too many edits are refused.
pub proof fn law_built_answers(g: Gathered, prefix: Seq<char>, limit: int, max_edits: u32)
    requires
        is_whole(g),
        0 <= limit,
    ensures
        suggestions(numbered(g.rows()), g.blob(), prefix, limit, max_edits) == (if normalized(
            prefix,
        ).len() == 0 || limit == 0 {
            Ok::<Seq<RecordView>, IndexError>(Seq::empty())
        } else if max_edits > MAX_EDITS {
            Err(IndexError::TooManyEdits(max_edits))
        } else {
            Ok(cut(ranking(reached(g, normalized(prefix), max_edits)), limit))
        }),
{
    let query = normalized(prefix);
    let pool = lemma_pool(g, query, max_edits);
    law_ranking(pool);
    law_ranking_unique(reached(g, query, max_edits), pool, ranking(pool));
}

/// The order in which links are made does not show, nor how often one is made: the same
/// records and the same links give the same artifacts, byte for byte.
pub proof fn law_link_order_does_not_show(a: Gathered, b: Gathered)
    requires
        a.records == b.records,
        forall|l: LinkView| #[trigger] a.links.contains(l) <==> b.links.contains(l),
    ensures
        a.fst() == b.fst(),
        a.blob() == b.blob(),
{
    law_table(a.links);
    law_table(b.links);
    law_table_unique(a.rows(), b.rows());
}

/// Only the key that a prefix folds to counts: prefixes that fold alike are answered alike.
pub proof fn law_folded_alike_answered_alike(
    entries: Seq<Entry>,
    data: Seq<u8>,
    p: Seq<char>,
    q: Seq<char>,
    limit: int,
    max_edits: u32,
)
    requires
        normalized(p) == normalized(q),
    ensures
        suggestions(entries, data, p, limit, max_edits) == suggestions(
            entries,
            data,
            q,
            limit,
            max_edits,
        ),
{
}

/// A smaller limit shows the beginning of what a larger one shows, and fails as it does.
pub proof fn law_limit_only_cuts(
    entries: Seq<Entry>,
    data: Seq<u8>,
    prefix: Seq<char>,
    limit: int,
    larger: int,
    max_edits: u32,
)
    requires
        0 < limit <= larger,
    ensures
        suggestions(entries, data, prefix, limit, max_edits) == (match suggestions(
            entries,
            data,
            prefix,
            larger,
            max_edits,
        ) {
            Ok(shown) => Ok::<Seq<RecordView>, IndexError>(cut(shown, limit)),
            Err(e) => Err(e),
        }),
{
    let query = normalized(prefix);
    if query.len() > 0 && max_edits <= MAX_EDITS {
        match pool_behind(data, hits(entries, query, max_edits)) {
            Ok(pool) => {
                let all = ranking(pool);
                assert(cut(all, limit) =~= cut(cut(all, larger), limit));
            },
            Err(_) => {},
        }
    } else if query.len() == 0 {
        assert(cut(Seq::<RecordView>::empty(), limit) =~= Seq::<RecordView>::empty());
    }
}

/// What is shown is never more than asked for, stands in order, and has each group once.
pub proof fn law_answer_is_ranked(
    entries: Seq<Entry>,
    data: Seq<u8>,
    prefix: Seq<char>,
    limit: int,
    max_edits: u32,
    shown: Seq<RecordView>,
)
    requires
        0 <= limit,
        suggestions(entries, data, prefix, limit, max_edits) == Ok::<Seq<RecordView>, IndexError>(
            shown,
        ),
    ensures
        shown.len() <= limit,
        in_order(shown),
        forall|i: int, j: int|
            0 <= i < j < shown.len() ==> (#[trigger] shown[i]).group != (#[trigger] shown[j]).group,
{
    let query = normalized(prefix);
    if query.len() > 0 && limit > 0 {
        let pool = pool_behind(data, hits(entries, query, max_edits))->Ok_0;
        let all = ranking(pool);
        law_ranking(pool);
        assert forall|i: int, j: int| 0 <= i < j < shown.len() implies shown_before(
            #[trigger] shown[i],
            #[trigger] shown[j],
        ) && shown[i].group != shown[j].group by {
            assert(shown[i] == all[i] && shown[j] == all[j]);
            assert(shown_before(all[i], all[j]));
            if all[i].group == all[j].group {
                assert(pool.contains(all[i]));
                let k = choose|k: int| 0 <= k < pool.len() && pool[k] == all[i];
                assert(!outranks_view(pool[k], all[j]));
            }
        }
    }
}

/// The bytes of two texts are the bytes of the one and then of the other.
pub proof fn lemma_encode_concat(a: Seq<char>, b: Seq<char>)
    ensures
        encode_utf8(a + b) == encode_utf8(a) + encode_utf8(b),
    decreases a.len(),
{
    if a.len() == 0 {
        assert(a + b =~= b);
        assert(encode_utf8(a) + encode_utf8(b) =~= encode_utf8(b));
    } else {
        lemma_encode_concat(a.drop_first(), b);
        assert((a + b).drop_first() =~= a.drop_first() + b);
        assert(encode_utf8(a + b) =~= encode_utf8(a) + encode_utf8(b));
    }
}

/// Text that starts with the bytes of a query starts with the query.
pub proof fn lemma_text_prefix(query: Seq<char>, key: Seq<u8>)
    requires
        valid_utf8(key),
        encode_utf8(query).is_prefix_of(key),
    ensures
        decode_utf8(key).len() >= query.len(),
        decode_utf8(key).take(query.len() as int) == query,
{
    let n = encode_utf8(query).len() as int;
    let rest = key.subrange(n, key.len() as int);
    encode_utf8_valid_utf8(query);
    assert(key.subrange(0, n) =~= encode_utf8(query));
    assert(valid_utf8(rest)) by {
        if !valid_utf8(rest) {
            partial_valid_partial_invalid_utf8(key, n);
        }
    }
    let tail = decode_utf8(rest);
    decode_utf8_encode_utf8(rest);
    lemma_encode_concat(query, tail);
    assert(key =~= encode_utf8(query + tail));
    encode_utf8_decode_utf8(query + tail);
    assert((query + tail).take(query.len() as int) =~= query);
}

/// Tolerating edits loses nothing: a key of text that a query matches exactly, it matches
/// with any number of edits allowed.
pub proof fn law_exact_match_is_fuzzy_match(query: Seq<char>, key: Seq<u8>, max_edits: u32)
    requires
        query.len() > 0,
        valid_utf8(key),
        key_matches(query, key, 0),
    ensures
        key_matches(query, key, max_edits),
{
    if max_edits > 0 {
        let text = decode_utf8(key);
        lemma_text_prefix(query, key);
        lemma_distance_to_self(query);
        assert(edit_distance(text.take(query.len() as int), query) <= max_edits);
        lemma_encode_concat(query.take(1), query.skip(1));
        assert(query.take(1) + query.skip(1) =~= query);
        let head = encode_utf8(query.take(1));
        assert(head =~= encode_utf8(query).subrange(0, head.len() as int));
        assert(head =~= key.subrange(0, head.len() as int));
    }
}

/// The more edits are tolerated, the more keys match.
pub proof fn law_more_edits_match_more(query: Seq<char>, key: Seq<u8>, fewer: u32, more: u32)
    requires
        0 < fewer <= more,
        key_matches(query, key, fewer),
    ensures
        key_matches(query, key, more),
{
    let text = decode_utf8(key);
    let k = choose|k: int|
        0 <= k <= text.len() && #[trigger] edit_distance(text.take(k), query) <= fewer as int;
    assert(edit_distance(text.take(k), query) <= more as int);
}

/// Tolerating more edits reaches no less, where all keys are text.
pub proof fn law_more_edits_reach_no_less(g: Gathered, query: Seq<char>, fewer: u32, more: u32)
    requires
        query.len() > 0,
        fewer <= more,
        keys_are_text(g.links),
    ensures
        forall|r: RecordView| #[trigger]
            reached(g, query, fewer).contains(r) ==> reached(g, query, more).contains(r),
{
    let near = |l: LinkView| key_matches(query, l.0, fewer);
    let far = |l: LinkView| key_matches(query, l.0, more);
    lemma_filter_contains(g.links, near);
    lemma_filter_contains(g.links, far);
    assert forall|r: RecordView| #[trigger] reached(g, query, fewer).contains(r) implies reached(
        g,
        query,
        more,
    ).contains(r) by {
        let k = choose|k: int|
            0 <= k < reached(g, query, fewer).len() && reached(g, query, fewer)[k] == r;
        let link = g.links.filter(near)[k];
        assert(g.links.filter(near).contains(link));
        let i = choose|i: int| 0 <= i < g.links.len() && g.links[i] == link;
        assert(valid_utf8(g.links[i].0));
        if fewer == 0 {
            law_exact_match_is_fuzzy_match(query, link.0, more);
        } else {
            law_more_edits_match_more(query, link.0, fewer, more);
        }
        assert(far(link));
        assert(g.links.filter(far).contains(link));
        let m = choose|m: int| 0 <= m < g.links.filter(far).len() && g.links.filter(far)[m] == link;
        assert(reached(g, query, more)[m] == r);
    }
}

/// Whether a postings entry behind one of some entries holds an id.
pub open spec fn is_posted(data: Seq<u8>, found: Seq<Entry>, x: u32) -> bool {
    exists|k: int|
        0 <= k < found.len() && posting_at(
            data,
            ((#[trigger] found[k]).1 % 0x1_0000_0000) as u32,
        )->Ok_0.contains(x)
}

/// Ids are read just where every postings entry is, and are those of the postings entries.
pub proof fn lemma_ids_behind(data: Seq<u8>, found: Seq<Entry>)
    ensures
        ids_behind(data, found) is Ok <==> (forall|k: int|
            0 <= k < found.len() ==> posting_at(
                data,
                ((#[trigger] found[k]).1 % 0x1_0000_0000) as u32,
            ) is Ok),
        ids_behind(data, found) is Ok ==> (forall|x: u32| #[trigger]
            ids_behind(data, found)->Ok_0.contains(x) <==> is_posted(data, found, x)),
        ids_behind(data, found) is Err ==> exists|k: int|
            #![trigger found[k]]
            0 <= k < found.len() && posting_at(data, (found[k].1 % 0x1_0000_0000) as u32) == Err::<
                Seq<u32>,
                IndexError,
            >(ids_behind(data, found)->Err_0) && forall|j: int|
                0 <= j < k ==> posting_at(
                    data,
                    ((#[trigger] found[j]).1 % 0x1_0000_0000) as u32,
                ) is Ok,
    decreases found.len(),
{
    if found.len() > 0 {
        let front = found.drop_last();
        lemma_ids_behind(data, front);
        assert forall|k: int| 0 <= k < front.len() implies #[trigger] front[k] == found[k] by {}
        let last = posting_at(data, posting_number(found.last().1));
        assert(found[found.len() - 1] == found.last());
        if ids_behind(data, found) is Err {
            if ids_behind(data, front) is Err {
                let k = choose|k: int|
                    #![trigger front[k]]
                    0 <= k < front.len() && posting_at(
                        data,
                        (front[k].1 % 0x1_0000_0000) as u32,
                    ) == Err::<Seq<u32>, IndexError>(ids_behind(data, front)->Err_0) && forall|
                        j: int,
                    |
                        0 <= j < k ==> posting_at(
                            data,
                            ((#[trigger] front[j]).1 % 0x1_0000_0000) as u32,
                        ) is Ok;
                assert(found[k] == front[k]);
                assert forall|j: int| 0 <= j < k implies posting_at(
                    data,
                    ((#[trigger] found[j]).1 % 0x1_0000_0000) as u32,
                ) is Ok by {
                    assert(front[j] == found[j]);
                }
            } else {
                assert forall|j: int| 0 <= j < found.len() - 1 implies posting_at(
                    data,
                    ((#[trigger] found[j]).1 % 0x1_0000_0000) as u32,
                ) is Ok by {
                    assert(front[j] == found[j]);
                }
            }
        }
        if ids_behind(data, found) is Ok {
            let before = ids_behind(data, front)->Ok_0;
            let all = ids_behind(data, found)->Ok_0;
            let more = last->Ok_0;
            assert(all == before + more);
            assert forall|k: int| 0 <= k < found.len() implies posting_at(
                data,
                ((#[trigger] found[k]).1 % 0x1_0000_0000) as u32,
            ) is Ok by {
                if k < front.len() {
                    assert(front[k] == found[k]);
                }
            }
            assert forall|x: u32| #[trigger] all.contains(x) <==> is_posted(data, found, x) by {
                if all.contains(x) {
                    let i = choose|i: int| 0 <= i < all.len() && all[i] == x;
                    if i < before.len() {
                        assert(before[i] == x);
                        assert(before.contains(x));
                        let k = choose|k: int|
                            0 <= k < front.len() && posting_at(
                                data,
                                ((#[trigger] front[k]).1 % 0x1_0000_0000) as u32,
                            )->Ok_0.contains(x);
                        assert(found[k] == front[k]);
                    } else {
                        assert(more[i - before.len()] == x);
                    }
                }
                if is_posted(data, found, x) {
                    let k = choose|k: int|
                        0 <= k < found.len() && posting_at(
                            data,
                            ((#[trigger] found[k]).1 % 0x1_0000_0000) as u32,
                        )->Ok_0.contains(x);
                    if k < front.len() {
                        assert(front[k] == found[k]);
                        assert(is_posted(data, front, x));
                        assert(before.contains(x));
                        let i = choose|i: int| 0 <= i < before.len() && before[i] == x;
                        assert(all[i] == x);
                    } else {
                        let i = choose|i: int| 0 <= i < more.len() && more[i] == x;
                        assert(all[before.len() + i] == x);
                    }
                }
            }
        }
    }
}

/// Whether one of some ids is that of a record.
pub open spec fn is_record_of(data: Seq<u8>, ids: Seq<u32>, r: RecordView) -> bool {
    exists|k: int|
        0 <= k < ids.len() && record_at(data, #[trigger] ids[k]) == Ok::<RecordView, IndexError>(r)
}

/// Records are read just where each is, and are those of the ids.
pub proof fn lemma_records_of(data: Seq<u8>, ids: Seq<u32>)
    ensures
        records_of(data, ids) is Ok <==> (forall|k: int|
            0 <= k < ids.len() ==> record_at(data, #[trigger] ids[k]) is Ok),
        records_of(data, ids) is Ok ==> (forall|r: RecordView| #[trigger]
            records_of(data, ids)->Ok_0.contains(r) <==> is_record_of(data, ids, r)),
        records_of(data, ids) is Err ==> exists|k: int|
            #![trigger ids[k]]
            0 <= k < ids.len() && record_at(data, ids[k]) == Err::<RecordView, IndexError>(
                records_of(data, ids)->Err_0,
            ) && forall|j: int| 0 <= j < k ==> record_at(data, #[trigger] ids[j]) is Ok,
    decreases ids.len(),
{
    if ids.len() > 0 {
        let front = ids.drop_last();
        lemma_records_of(data, front);
        assert forall|k: int| 0 <= k < front.len() implies #[trigger] front[k] == ids[k] by {}
        assert(ids[ids.len() - 1] == ids.last());
        if records_of(data, ids) is Err {
            if records_of(data, front) is Err {
                let k = choose|k: int|
                    #![trigger front[k]]
                    0 <= k < front.len() && record_at(data, front[k]) == Err::<
                        RecordView,
                        IndexError,
                    >(records_of(data, front)->Err_0) && forall|j: int|
                        0 <= j < k ==> record_at(data, #[trigger] front[j]) is Ok;
                assert(ids[k] == front[k]);
                assert forall|j: int| 0 <= j < k implies record_at(
                    data,
                    #[trigger] ids[j],
                ) is Ok by {
                    assert(front[j] == ids[j]);
                }
            } else {
                assert forall|j: int| 0 <= j < ids.len() - 1 implies record_at(
                    data,
                    #[trigger] ids[j],
                ) is Ok by {
                    assert(front[j] == ids[j]);
                }
            }
        }
        if records_of(data, ids) is Ok {
            let before = records_of(data, front)->Ok_0;
            let all = records_of(data, ids)->Ok_0;
            let last = record_at(data, ids.last())->Ok_0;
            assert(all == before.push(last));
            assert forall|k: int| 0 <= k < ids.len() implies record_at(
                data,
                #[trigger] ids[k],
            ) is Ok by {
                if k < front.len() {
                    assert(front[k] == ids[k]);
                }
            }
            assert forall|r: RecordView| #[trigger] all.contains(r) <==> is_record_of(
                data,
                ids,
                r,
            ) by {
                if all.contains(r) {
                    let i = choose|i: int| 0 <= i < all.len() && all[i] == r;
                    if i < before.len() {
                        assert(before[i] == r);
                        assert(before.contains(r));
                        let k = choose|k: int|
                            0 <= k < front.len() && record_at(data, #[trigger] front[k]) == Ok::<
                                RecordView,
                                IndexError,
                            >(r);
                        assert(ids[k] == front[k]);
                    }
                }
                if is_record_of(data, ids, r) {
                    let k = choose|k: int|
                        0 <= k < ids.len() && record_at(data, #[trigger] ids[k]) == Ok::<
                            RecordView,
                            IndexError,
                        >(r);
                    if k < front.len() {
                        assert(front[k] == ids[k]);
                        assert(is_record_of(data, front, r));
                        assert(before.contains(r));
                        let i = choose|i: int| 0 <= i < before.len() && before[i] == r;
                        assert(all[i] == r);
                    } else {
                        assert(all[before.len() as int] == r);
                    }
                }
            }
        }
    }
}

/// Where the records behind some entries can be read, so can those behind any of the entries,
/// and they are among them.
proof fn lemma_pool_grows(data: Seq<u8>, few: Seq<Entry>, many: Seq<Entry>)
    requires
        forall|e: Entry| #[trigger] few.contains(e) ==> many.contains(e),
        pool_behind(data, many) is Ok,
    ensures
        pool_behind(data, few) is Ok,
        forall|r: RecordView| #[trigger]
            pool_behind(data, few)->Ok_0.contains(r) ==> pool_behind(data, many)->Ok_0.contains(r),
{
    lemma_ids_behind(data, few);
    lemma_ids_behind(data, many);
    assert forall|k: int| 0 <= k < few.len() implies posting_at(
        data,
        posting_number((#[trigger] few[k]).1),
    ) is Ok by {
        assert(few.contains(few[k]));
        let m = choose|m: int| 0 <= m < many.len() && many[m] == few[k];
        assert(posting_at(data, posting_number(many[m].1)) is Ok);
    }
    let some = ids_behind(data, few)->Ok_0;
    let all = ids_behind(data, many)->Ok_0;
    assert forall|x: u32| some.contains(x) implies #[trigger] all.contains(x) by {
        assert(is_posted(data, few, x));
        let k = choose|k: int|
            0 <= k < few.len() && posting_at(
                data,
                posting_number((#[trigger] few[k]).1),
            )->Ok_0.contains(x);
        assert(few.contains(few[k]));
        let m = choose|m: int| 0 <= m < many.len() && many[m] == few[k];
        assert(posting_at(data, posting_number(many[m].1))->Ok_0.contains(x));
        assert(is_posted(data, many, x));
    }
    lemma_distinct_contains(some);
    lemma_distinct_contains(all);
    let fewer = distinct(some);
    let more = distinct(all);
    assert forall|k: int| 0 <= k < fewer.len() implies more.contains(#[trigger] fewer[k]) by {
        assert(fewer.contains(fewer[k]));
        assert(some.contains(fewer[k]));
        assert(all.contains(fewer[k]));
    }
    lemma_records_of(data, fewer);
    lemma_records_of(data, more);
    assert forall|k: int| 0 <= k < fewer.len() implies record_at(
        data,
        #[trigger] fewer[k],
    ) is Ok by {
        let m = choose|m: int| 0 <= m < more.len() && more[m] == fewer[k];
        assert(record_at(data, more[m]) is Ok);
    }
    assert forall|r: RecordView| #[trigger]
        pool_behind(data, few)->Ok_0.contains(r) implies
        pool_behind(data, many)->Ok_0.contains(r) by {
        assert(is_record_of(data, fewer, r));
        let k = choose|k: int|
            0 <= k < fewer.len() && record_at(data, #[trigger] fewer[k]) == Ok::<
                RecordView,
                IndexError,
            >(r);
        let m = choose|m: int| 0 <= m < more.len() && more[m] == fewer[k];
        assert(record_at(data, more[m]) == Ok::<RecordView, IndexError>(r));
        assert(is_record_of(data, more, r));
    }
}

/// Every group among the first of a ranking is among a ranking of more that is not cut.
proof fn lemma_groups_grow(
    pool: Seq<RecordView>,
    larger: Seq<RecordView>,
    limit: int,
    group: u64,
)
    requires
        forall|r: RecordView| #[trigger] pool.contains(r) ==> larger.contains(r),
        cut(ranking(larger), limit).len() < limit,
        shows_group(cut(ranking(pool), limit), group),
    ensures
        shows_group(cut(ranking(larger), limit), group),
{
    let shown = cut(ranking(pool), limit);
    let i = choose|i: int| 0 <= i < shown.len() && (#[trigger] shown[i]).group == group;
    assert(ranking(pool)[i] == shown[i]);
    assert(shows_group(ranking(pool), group));
    law_larger_pool_shows_no_less(pool, larger, group);
}

/// Whether every key of some entries is text.
pub open spec fn entries_are_text(entries: Seq<Entry>) -> bool {
    forall|i: int| 0 <= i < entries.len() ==> valid_utf8((#[trigger] entries[i]).0)
}

/// The entries that a builder writes are text, since its links are.
pub proof fn law_built_entries_are_text(g: Gathered)
    requires
        keys_are_text(g.links),
    ensures
        entries_are_text(numbered(g.rows())),
{
    let rows = g.rows();
    law_table(g.links);
    assert forall|i: int| 0 <= i < rows.len() implies valid_utf8(
        (#[trigger] numbered(rows)[i]).0,
    ) by {
        let ids = rows[i].ids;
        assert(ids.contains(ids[0]));
        assert(holds(rows, rows[i].key, ids[0]));
        assert(g.links.contains((rows[i].key, ids[0])));
        let m = choose|m: int| 0 <= m < g.links.len() && g.links[m] == (rows[i].key, ids[0]);
        assert(valid_utf8(g.links[m].0));
    }
}

/// A larger tolerance only adds groups, over any index whose keys are text: where a query is
/// answered with more edits, and its limit cuts nothing, it is answered with fewer, and shows
/// no other group.
pub proof fn law_tolerance_only_adds_groups(
    entries: Seq<Entry>,
    data: Seq<u8>,
    prefix: Seq<char>,
    limit: int,
    fewer: u32,
    more: u32,
    wider: Seq<RecordView>,
)
    requires
        entries_are_text(entries),
        fewer <= more,
        suggestions(entries, data, prefix, limit, more) == Ok::<Seq<RecordView>, IndexError>(wider),
        wider.len() < limit,
    ensures
        suggestions(entries, data, prefix, limit, fewer) is Ok,
        forall|group: u64| #[trigger]
            shows_group(suggestions(entries, data, prefix, limit, fewer)->Ok_0, group)
                ==> shows_group(wider, group),
{
    let query = normalized(prefix);
    if query.len() > 0 {
        let near = |e: Entry| key_matches(query, e.0, fewer);
        let far = |e: Entry| key_matches(query, e.0, more);
        lemma_filter_contains(entries, near);
        lemma_filter_contains(entries, far);
        let few = hits(entries, query, fewer);
        let many = hits(entries, query, more);
        assert forall|e: Entry| #[trigger] few.contains(e) implies many.contains(e) by {
            assert(entries.contains(e) && near(e));
            let i = choose|i: int| 0 <= i < entries.len() && entries[i] == e;
            assert(valid_utf8(entries[i].0));
            if fewer == 0 {
                law_exact_match_is_fuzzy_match(query, e.0, more);
            } else {
                law_more_edits_match_more(query, e.0, fewer, more);
            }
            assert(far(e));
        }
        lemma_pool_grows(data, few, many);
        let pool = pool_behind(data, few)->Ok_0;
        let larger = pool_behind(data, many)->Ok_0;
        assert forall|group: u64| #[trigger]
            shows_group(cut(ranking(pool), limit), group) implies shows_group(wider, group) by {
            lemma_groups_grow(pool, larger, limit, group);
        }
    }
}

/// A key that starts with a longer query starts with a shorter one that the longer extends.
pub proof fn law_longer_query_matches_no_more(shorter: Seq<char>, longer: Seq<char>, key: Seq<u8>)
    requires
        shorter.is_prefix_of(longer),
        key_matches(longer, key, 0),
    ensures
        key_matches(shorter, key, 0),
{
    let rest = longer.skip(shorter.len() as int);
    lemma_encode_concat(shorter, rest);
    assert(shorter + rest =~= longer);
    let head = encode_utf8(shorter);
    assert(head =~= encode_utf8(longer).subrange(0, head.len() as int));
    assert(head =~= key.subrange(0, head.len() as int));
}

/// Typing on adds no group, over any index: where an exact query is answered, and its limit
/// cuts nothing, every query that extends it is answered, and shows no other group.
pub proof fn law_longer_prefix_adds_no_group(
    entries: Seq<Entry>,
    data: Seq<u8>,
    prefix: Seq<char>,
    longer: Seq<char>,
    limit: int,
    wider: Seq<RecordView>,
)
    requires
        normalized(prefix).len() > 0,
        normalized(prefix).is_prefix_of(normalized(longer)),
        exact_suggestions(entries, data, prefix, limit) == Ok::<Seq<RecordView>, IndexError>(wider),
        wider.len() < limit,
    ensures
        exact_suggestions(entries, data, longer, limit) is Ok,
        forall|group: u64| #[trigger]
            shows_group(exact_suggestions(entries, data, longer, limit)->Ok_0, group)
                ==> shows_group(wider, group),
{
    let short = normalized(prefix);
    let long = normalized(longer);
    law_no_edits_is_exact(entries, data, prefix, limit);
    law_no_edits_is_exact(entries, data, longer, limit);
    let by_long = |e: Entry| key_matches(long, e.0, 0);
    let by_short = |e: Entry| key_matches(short, e.0, 0);
    lemma_filter_contains(entries, by_long);
    lemma_filter_contains(entries, by_short);
    let few = hits(entries, long, 0);
    let many = hits(entries, short, 0);
    assert forall|e: Entry| #[trigger] few.contains(e) implies many.contains(e) by {
        assert(entries.contains(e) && by_long(e));
        law_longer_query_matches_no_more(short, long, e.0);
        assert(by_short(e));
    }
    lemma_pool_grows(data, few, many);
    let pool = pool_behind(data, few)->Ok_0;
    let larger = pool_behind(data, many)->Ok_0;
    assert forall|group: u64| #[trigger]
        shows_group(cut(ranking(pool), limit), group) implies shows_group(wider, group) by {
        lemma_groups_grow(pool, larger, limit, group);
    }
}

/// A query may be folded beforehand: it is answered as the raw one is, where the key of the
/// raw one folds to itself, as that of ASCII text does.
pub proof fn law_folded_query_is_answered_alike(
    entries: Seq<Entry>,
    data: Seq<u8>,
    prefix: Seq<char>,
    limit: int,
    max_edits: u32,
)
    requires
        is_ascii_chars(prefix) || folded(normalized(prefix)) == normalized(prefix),
    ensures
        suggestions(entries, data, normalized(prefix), limit, max_edits) == suggestions(
            entries,
            data,
            prefix,
            limit,
            max_edits,
        ),
{
    if is_ascii_chars(prefix) {
        law_normalize_ascii_idempotent(prefix);
    } else {
        law_normalize_idempotent(prefix);
    }
}

/// A record that was added is read back under its id, whatever was added or linked later: the
/// id is the number of records before it.
pub proof fn law_added_record_is_read_back(before: Gathered, record: RecordView, after: Gathered)
    requires
        before.records.push(record).is_prefix_of(after.records),
        after.records.len() < 0x1_0000_0000,
        record.payload.len() < 0x1_0000_0000,
        after.blob().len() < 0x1_0000_0000_0000_0000,
    ensures
        header_fault(after.blob()) is None,
        n_records_in(after.blob()) == after.records.len(),
        record_at(after.blob(), before.records.len() as u32) == Ok::<RecordView, IndexError>(
            record,
        ),
{
    let id = before.records.len() as u32;
    assert(before.records.push(record)[id as int] == record);
    assert(after.records[id as int] == record);
    law_opens(id_columns(after.rows()), after.records);
    law_record_reads_back(id_columns(after.rows()), after.records, id);
}

/// Records that are encoded places are decoded to those places.
proof fn lemma_places_decode(shown: Seq<RecordView>) -> (places: Seq<GeoView>)
    requires
        forall|i: int| 0 <= i < shown.len() ==> is_encoded_place(#[trigger] shown[i]),
    ensures
        decoded_all(shown) == Ok::<Seq<GeoView>, IndexError>(places),
        places.len() == shown.len(),
        forall|i: int|
            0 <= i < shown.len() ==> (#[trigger] places[i]).fits() && places[i].encoded()
                == shown[i],
    decreases shown.len(),
{
    if shown.len() == 0 {
        Seq::empty()
    } else {
        let front = shown.drop_last();
        assert forall|i: int| 0 <= i < front.len() implies
            is_encoded_place(#[trigger] front[i]) by {
            assert(is_encoded_place(shown[i]));
        }
        let before = lemma_places_decode(front);
        assert(is_encoded_place(shown[shown.len() - 1]));
        let place = choose|g: GeoView| #[trigger] g.fits() && g.encoded() == shown.last();
        law_geo_round_trip(place);
        let places = before.push(place);
        assert forall|i: int| 0 <= i < shown.len() implies (#[trigger] places[i]).fits()
            && places[i].encoded() == shown[i] by {
            if i < front.len() {
                assert(before[i].fits());
                assert(front[i] == shown[i]);
            }
        }
        places
    }
}

/// Whether a record is an encoded place.
pub open spec fn is_encoded_place(r: RecordView) -> bool {
    exists|g: GeoView| #[trigger] g.fits() && g.encoded() == r
}

/// Where all that is stored are places, the places shown are the records shown, in the same
/// order, and decoding never fails.
pub proof fn law_places_shown_are_records_shown(
    g: Gathered,
    prefix: Seq<char>,
    limit: int,
    max_edits: u32,
)
    requires
        is_whole(g),
        0 <= limit,
        forall|i: int| 0 <= i < g.records.len() ==> is_encoded_place(#[trigger] g.records[i]),
    ensures
        match (
            suggestions(numbered(g.rows()), g.blob(), prefix, limit, max_edits),
            geo_suggestions(numbered(g.rows()), g.blob(), prefix, limit, max_edits),
        ) {
            (Ok(shown), Ok(places)) => {
                &&& places.len() == shown.len()
                &&& forall|i: int|
                    0 <= i < shown.len() ==> (#[trigger] places[i]).encoded() == shown[i]
            },
            (Err(e), Err(f)) => e == f,
            _ => false,
        },
{
    law_built_answers(g, prefix, limit, max_edits);
    let answer = suggestions(numbered(g.rows()), g.blob(), prefix, limit, max_edits);
    if answer is Ok {
        let shown = answer->Ok_0;
        let query = normalized(prefix);
        assert forall|i: int| 0 <= i < shown.len() implies
            is_encoded_place(#[trigger] shown[i]) by {
            let pool = reached(g, query, max_edits);
            law_ranking(pool);
            assert(shown[i] == ranking(pool)[i]);
            assert(pool.contains(ranking(pool)[i]));
            let k = choose|k: int| 0 <= k < pool.len() && pool[k] == shown[i];
            let linked = |l: LinkView| key_matches(query, l.0, max_edits);
            let links = g.links.filter(linked);
            lemma_filter_contains(g.links, linked);
            assert(links.contains(links[k]));
            let m = choose|m: int| 0 <= m < g.links.len() && g.links[m] == links[k];
            assert(g.links[m].1 < g.records.len());
            assert(is_encoded_place(g.records[g.links[m].1 as int]));
        }
        let places = lemma_places_decode(shown);
    }
}

} // verus!
