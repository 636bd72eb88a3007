//! What comes of a query, said of the keys that were linked and the records that were added.
use vstd::prelude::*;
use vstd::utf8::{
    encode_utf8, encode_utf8_decode_utf8, encode_utf8_valid_utf8, valid_utf8,
};

use crate::builder::{numbered, Gathered};
use crate::edits::{is_path, law_near_is_reached_by_edits};
use crate::error::IndexError;
use crate::guarantees::{
    is_posted, is_record_of, is_whole, law_built_answers, lemma_ids_behind, lemma_records_of,
    lemma_distinct_contains, lemma_encode_concat, lemma_filter_contains, lemma_text_prefix, reached,
};
use crate::normalize::normalized;
use crate::order::bytes_before;
use crate::ranking::{cut, law_best_are_shown, ranking};
use crate::records::{posting_at, record_at, RecordView};
use crate::search::{distinct, hits, ids_behind, key_matches, records_of, suggestions};
use crate::table::{put, table, LinkView, Row};
use crate::transducer::Entry;

verus! {

/// The bytes of a text start with those of another just where the text starts with it.
pub proof fn law_text_starts_with(query: Seq<char>, text: Seq<char>)
    ensures
        encode_utf8(query).is_prefix_of(encode_utf8(text)) <==> query.len() <= text.len()
            && text.take(query.len() as int) == query,
{
    encode_utf8_valid_utf8(text);
    encode_utf8_decode_utf8(text);
    if encode_utf8(query).is_prefix_of(encode_utf8(text)) {
        lemma_text_prefix(query, encode_utf8(text));
    }
    if query.len() <= text.len() && text.take(query.len() as int) == query {
        let rest = text.skip(query.len() as int);
        lemma_encode_concat(query, rest);
        assert(query + rest =~= text);
        let head = encode_utf8(query);
        assert(head =~= encode_utf8(text).subrange(0, head.len() as int));
    }
}

/// Without edits, a key matches just where its text starts with the query.
pub proof fn law_exact_match(query: Seq<char>, text: Seq<char>)
    ensures
        key_matches(query, encode_utf8(text), 0) <==> query.len() <= text.len() && text.take(
            query.len() as int,
        ) == query,
{
    law_text_starts_with(query, text);
}

/// With edits, a key matches just where its text has the first character of the query and some
/// prefix of it is turned into the query by no more than so many edits.
pub proof fn law_fuzzy_match(query: Seq<char>, text: Seq<char>, max_edits: u32)
    requires
        query.len() > 0,
        max_edits > 0,
    ensures
        key_matches(query, encode_utf8(text), max_edits) <==> {
            &&& text.len() > 0
            &&& text[0] == query[0]
            &&& exists|k: int, path: Seq<Seq<char>>|
                0 <= k <= text.len() && path.len() <= max_edits + 1 && #[trigger] is_path(
                    path,
                    text.take(k),
                    query,
                )
        },
{
    let first = query.take(1);
    law_text_starts_with(first, text);
    encode_utf8_valid_utf8(text);
    encode_utf8_decode_utf8(text);
    law_near_is_reached_by_edits(query, text, max_edits as int);
    if text.len() > 0 && text[0] == query[0] {
        assert(text.take(1) =~= first);
    }
    if text.len() > 0 && text.take(1) == first {
        assert(text.take(1)[0] == first[0]);
    }
}

/// A key that is no text matches only without edits, where it starts with the bytes of the
/// query.
pub proof fn law_match_of_no_text(query: Seq<char>, key: Seq<u8>, max_edits: u32)
    requires
        !valid_utf8(key),
    ensures
        key_matches(query, key, max_edits) <==> max_edits == 0 && encode_utf8(query).is_prefix_of(
            key,
        ),
{
}

/// One more link adds at most one row.
proof fn lemma_put_len(links: Seq<LinkView>)
    ensures
        table(links).len() <= links.len(),
    decreases links.len(),
{
    if links.len() > 0 {
        lemma_put_len(links.drop_last());
        lemma_put_one(table(links.drop_last()), links.last().0, links.last().1);
    }
}

proof fn lemma_put_one(rows: Seq<Row>, key: Seq<u8>, id: u32)
    ensures
        put(rows, key, id).len() <= rows.len() + 1,
    decreases rows.len(),
{
    if rows.len() > 0 {
        lemma_put_one(rows.drop_last(), key, id);
    }
}

/// What a query over what was built shows, link by link.
///
/// The answer is never a failure. No more than `limit` records are shown, each linked to a key
/// that matches, each group once. Ranks fall; where they are the same, payloads rise, and where
/// those are the same, groups rise. For every link from a key that matches, its record has no
/// higher rank than the one shown of its group; and where its group is not shown, `limit`
/// records are, none of a lower rank.
pub proof fn law_built_shows_the_best(g: Gathered, prefix: Seq<char>, limit: int, max_edits: u32)
    requires
        forall|i: int| 0 <= i < g.links.len() ==> (#[trigger] g.links[i]).1 < g.records.len(),
        g.links.len() < 0x1_0000_0000,
        g.records.len() < 0x1_0000_0000,
        forall|i: int|
            0 <= i < g.records.len() ==> (#[trigger] g.records[i]).payload.len() < 0x1_0000_0000,
        g.blob().len() < 0x1_0000_0000_0000_0000,
        normalized(prefix).len() > 0,
        0 < limit,
        max_edits <= 2,
    ensures
        ({
            let query = normalized(prefix);
            let answer = suggestions(numbered(g.rows()), g.blob(), prefix, limit, max_edits);
            let shown = answer->Ok_0;
            &&& answer is Ok
            &&& shown.len() <= limit
            &&& forall|i: int|
                0 <= i < shown.len() ==> exists|m: int|
                    0 <= m < g.links.len() && key_matches(
                        query,
                        (#[trigger] g.links[m]).0,
                        max_edits,
                    ) && g.records[g.links[m].1 as int] == #[trigger] shown[i]
            &&& forall|i: int, j: int|
                0 <= i < j < shown.len() ==> {
                    let a = #[trigger] shown[i];
                    let b = #[trigger] shown[j];
                    &&& a.group != b.group
                    &&& a.rank >= b.rank
                    &&& a.rank == b.rank ==> !bytes_before(b.payload, a.payload)
                    &&& a.rank == b.rank && a.payload == b.payload ==> a.group < b.group
                }
            &&& forall|m: int, i: int|
                0 <= m < g.links.len() && 0 <= i < shown.len() && key_matches(
                    query,
                    (#[trigger] g.links[m]).0,
                    max_edits,
                ) && g.records[g.links[m].1 as int].group == (#[trigger] shown[i]).group ==> {
                    let p = g.records[g.links[m].1 as int];
                    &&& p.rank <= shown[i].rank
                    &&& p.rank == shown[i].rank ==> !bytes_before(p.payload, shown[i].payload)
                }
            &&& forall|m: int|
                0 <= m < g.links.len() && key_matches(
                    query,
                    (#[trigger] g.links[m]).0,
                    max_edits,
                ) ==> {
                    let p = g.records[g.links[m].1 as int];
                    ||| exists|i: int|
                        0 <= i < shown.len() && (#[trigger] shown[i]).group == p.group
                    ||| shown.len() == limit && forall|i: int|
                        0 <= i < shown.len() ==> {
                            let s = #[trigger] shown[i];
                            &&& s.rank >= p.rank
                            &&& s.rank == p.rank ==> !bytes_before(p.payload, s.payload)
                            &&& s.rank == p.rank && s.payload == p.payload ==> s.group < p.group
                        }
                }
        }),
{
    let query = normalized(prefix);
    lemma_put_len(g.links);
    assert(is_whole(g));
    law_built_answers(g, prefix, limit, max_edits);
    let pool = reached(g, query, max_edits);
    law_best_are_shown(pool, limit);
    let shown = cut(ranking(pool), limit);
    let linked = |l: LinkView| key_matches(query, l.0, max_edits);
    let links = g.links.filter(linked);
    lemma_filter_contains(g.links, linked);
    assert forall|i: int| 0 <= i < shown.len() implies exists|m: int|
        0 <= m < g.links.len() && key_matches(query, (#[trigger] g.links[m]).0, max_edits)
            && g.records[g.links[m].1 as int] == #[trigger] shown[i] by {
        assert(pool.contains(shown[i]));
        let k = choose|k: int| 0 <= k < pool.len() && pool[k] == shown[i];
        assert(links.contains(links[k]));
        assert(linked(links[k]));
        let m = choose|m: int| 0 <= m < g.links.len() && g.links[m] == links[k];
        assert(key_matches(query, g.links[m].0, max_edits));
    }
    assert forall|m: int|
        0 <= m < g.links.len() && key_matches(
            query,
            (#[trigger] g.links[m]).0,
            max_edits,
        ) implies exists|k: int|
        0 <= k < pool.len() && #[trigger] pool[k] == g.records[g.links[m].1 as int] by {
        assert(linked(g.links[m]));
        assert(g.links.contains(g.links[m]));
        assert(links.contains(g.links[m]));
        let k = choose|k: int| 0 <= k < links.len() && links[k] == g.links[m];
        assert(pool[k] == g.records[g.links[m].1 as int]);
    }
}

/// Whether an id is in a postings entry that a key that matches leads to.
pub open spec fn is_found(
    entries: Seq<Entry>,
    data: Seq<u8>,
    query: Seq<char>,
    max_edits: u32,
    id: u32,
) -> bool {
    exists|m: int|
        0 <= m < entries.len() && key_matches(query, (#[trigger] entries[m]).0, max_edits)
            && posting_at(data, (entries[m].1 % 0x1_0000_0000) as u32)->Ok_0.contains(id)
}

/// Nothing is shown for a query that folds to nothing, nor where nothing may be shown; and of
/// any other query, more than two edits are refused.
pub proof fn law_what_is_not_looked_up(
    entries: Seq<Entry>,
    data: Seq<u8>,
    prefix: Seq<char>,
    limit: int,
    max_edits: u32,
)
    ensures
        normalized(prefix).len() == 0 || limit == 0 ==> suggestions(
            entries,
            data,
            prefix,
            limit,
            max_edits,
        ) == Ok::<Seq<RecordView>, IndexError>(Seq::empty()),
        normalized(prefix).len() > 0 && limit != 0 && max_edits > 2 ==> suggestions(
            entries,
            data,
            prefix,
            limit,
            max_edits,
        ) == Err::<Seq<RecordView>, IndexError>(IndexError::TooManyEdits(max_edits)),
{
}

/// The ids behind the entries that match.
proof fn lemma_found(
    entries: Seq<Entry>,
    data: Seq<u8>,
    query: Seq<char>,
    max_edits: u32,
)
    ensures
        ids_behind(data, hits(entries, query, max_edits)) is Ok <==> (forall|m: int|
            0 <= m < entries.len() && key_matches(query, (#[trigger] entries[m]).0, max_edits)
                ==> posting_at(data, (entries[m].1 % 0x1_0000_0000) as u32) is Ok),
        ids_behind(data, hits(entries, query, max_edits)) is Ok ==> (forall|id: u32| #[trigger]
            distinct(ids_behind(data, hits(entries, query, max_edits))->Ok_0).contains(id)
                <==> is_found(entries, data, query, max_edits, id)),
{
    let found = hits(entries, query, max_edits);
    let matches = |e: Entry| key_matches(query, e.0, max_edits);
    lemma_filter_contains(entries, matches);
    lemma_ids_behind(data, found);
    if ids_behind(data, found) is Ok {
        assert forall|m: int|
            0 <= m < entries.len() && key_matches(
                query,
                (#[trigger] entries[m]).0,
                max_edits,
            ) implies posting_at(data, (entries[m].1 % 0x1_0000_0000) as u32) is Ok by {
            assert(matches(entries[m]));
            assert(entries.contains(entries[m]));
            assert(found.contains(entries[m]));
            let k = choose|k: int| 0 <= k < found.len() && found[k] == entries[m];
            assert(posting_at(data, (found[k].1 % 0x1_0000_0000) as u32) is Ok);
        }
        let all = ids_behind(data, found)->Ok_0;
        lemma_distinct_contains(all);
        assert forall|id: u32| #[trigger] distinct(all).contains(id) <==> is_found(
            entries,
            data,
            query,
            max_edits,
            id,
        ) by {
            if distinct(all).contains(id) {
                assert(all.contains(id));
                assert(is_posted(data, found, id));
                let k = choose|k: int|
                    0 <= k < found.len() && posting_at(
                        data,
                        ((#[trigger] found[k]).1 % 0x1_0000_0000) as u32,
                    )->Ok_0.contains(id);
                assert(found.contains(found[k]));
                assert(matches(found[k]));
                let m = choose|m: int| 0 <= m < entries.len() && entries[m] == found[k];
                assert(key_matches(query, entries[m].0, max_edits));
            }
            if is_found(entries, data, query, max_edits, id) {
                let m = choose|m: int|
                    0 <= m < entries.len() && key_matches(
                        query,
                        (#[trigger] entries[m]).0,
                        max_edits,
                    ) && posting_at(
                        data,
                        (entries[m].1 % 0x1_0000_0000) as u32,
                    )->Ok_0.contains(id);
                assert(matches(entries[m]));
                assert(entries.contains(entries[m]));
                assert(found.contains(entries[m]));
                let k = choose|k: int| 0 <= k < found.len() && found[k] == entries[m];
                assert(posting_at(
                    data,
                    (found[k].1 % 0x1_0000_0000) as u32,
                )->Ok_0.contains(id));
                assert(is_posted(data, found, id));
                assert(all.contains(id));
            }
        }
    }
    if forall|m: int|
        0 <= m < entries.len() && key_matches(query, (#[trigger] entries[m]).0, max_edits)
            ==> posting_at(data, (entries[m].1 % 0x1_0000_0000) as u32) is Ok {
        assert forall|k: int| 0 <= k < found.len() implies posting_at(
            data,
            ((#[trigger] found[k]).1 % 0x1_0000_0000) as u32,
        ) is Ok by {
            assert(found.contains(found[k]));
            assert(matches(found[k]));
            let m = choose|m: int| 0 <= m < entries.len() && entries[m] == found[k];
            assert(key_matches(query, entries[m].0, max_edits));
        }
    }
}

/// Over any artifacts, a query that is looked up is answered just where every postings entry
/// that a matching key leads to can be read, and every record that those lead to.
pub proof fn law_answered_where_readable(
    entries: Seq<Entry>,
    data: Seq<u8>,
    prefix: Seq<char>,
    limit: int,
    max_edits: u32,
)
    requires
        normalized(prefix).len() > 0,
        limit > 0,
        max_edits <= 2,
    ensures
        suggestions(entries, data, prefix, limit, max_edits) is Ok <==> {
            &&& forall|m: int|
                0 <= m < entries.len() && key_matches(
                    normalized(prefix),
                    (#[trigger] entries[m]).0,
                    max_edits,
                ) ==> posting_at(data, (entries[m].1 % 0x1_0000_0000) as u32) is Ok
            &&& forall|id: u32| #[trigger]
                is_found(entries, data, normalized(prefix), max_edits, id) ==> record_at(
                    data,
                    id,
                ) is Ok
        },
{
    let query = normalized(prefix);
    let found = hits(entries, query, max_edits);
    lemma_found(entries, data, query, max_edits);
    if ids_behind(data, found) is Ok {
        let ids = distinct(ids_behind(data, found)->Ok_0);
        lemma_records_of(data, ids);
        if records_of(data, ids) is Ok {
            assert forall|id: u32| #[trigger]
                is_found(entries, data, query, max_edits, id) implies record_at(data, id) is Ok by {
                assert(ids.contains(id));
                let k = choose|k: int| 0 <= k < ids.len() && ids[k] == id;
                assert(record_at(data, ids[k]) is Ok);
            }
        }
        if forall|id: u32| #[trigger]
            is_found(entries, data, query, max_edits, id) ==> record_at(data, id) is Ok {
            assert forall|k: int| 0 <= k < ids.len() implies record_at(
                data,
                #[trigger] ids[k],
            ) is Ok by {
                assert(ids.contains(ids[k]));
                assert(is_found(entries, data, query, max_edits, ids[k]));
            }
        }
    }
}

/// What a query over any artifacts shows, where it is answered: the best of the records that
/// the matching keys lead to, in the sense of [`law_built_shows_the_best`].
pub proof fn law_answer_shows_the_best(
    entries: Seq<Entry>,
    data: Seq<u8>,
    prefix: Seq<char>,
    limit: int,
    max_edits: u32,
    shown: Seq<RecordView>,
)
    requires
        normalized(prefix).len() > 0,
        limit > 0,
        suggestions(entries, data, prefix, limit, max_edits) == Ok::<Seq<RecordView>, IndexError>(
            shown,
        ),
    ensures
        shown.len() <= limit,
        forall|i: int|
            0 <= i < shown.len() ==> exists|id: u32|
                is_found(entries, data, normalized(prefix), max_edits, id) && #[trigger] record_at(
                    data,
                    id,
                ) == Ok::<RecordView, IndexError>(#[trigger] shown[i]),
        forall|i: int, j: int|
            0 <= i < j < shown.len() ==> {
                let a = #[trigger] shown[i];
                let b = #[trigger] shown[j];
                &&& a.group != b.group
                &&& a.rank >= b.rank
                &&& a.rank == b.rank ==> !bytes_before(b.payload, a.payload)
                &&& a.rank == b.rank && a.payload == b.payload ==> a.group < b.group
            },
        forall|id: u32, i: int|
            0 <= i < shown.len() && #[trigger] is_found(
                entries,
                data,
                normalized(prefix),
                max_edits,
                id,
            ) && record_at(data, id)->Ok_0.group == (#[trigger] shown[i]).group ==> {
                let p = record_at(data, id)->Ok_0;
                &&& p.rank <= shown[i].rank
                &&& p.rank == shown[i].rank ==> !bytes_before(p.payload, shown[i].payload)
            },
        forall|id: u32| #[trigger]
            is_found(entries, data, normalized(prefix), max_edits, id) ==> {
                let p = record_at(data, id)->Ok_0;
                ||| exists|i: int| 0 <= i < shown.len() && (#[trigger] shown[i]).group == p.group
                ||| shown.len() == limit && forall|i: int|
                    0 <= i < shown.len() ==> {
                        let s = #[trigger] shown[i];
                        &&& s.rank >= p.rank
                        &&& s.rank == p.rank ==> !bytes_before(p.payload, s.payload)
                        &&& s.rank == p.rank && s.payload == p.payload ==> s.group < p.group
                    }
            },
{
    let query = normalized(prefix);
    let found = hits(entries, query, max_edits);
    lemma_found(entries, data, query, max_edits);
    let ids = distinct(ids_behind(data, found)->Ok_0);
    lemma_records_of(data, ids);
    let pool = records_of(data, ids)->Ok_0;
    law_best_are_shown(pool, limit);
    assert forall|i: int| 0 <= i < shown.len() implies exists|id: u32|
        is_found(entries, data, query, max_edits, id) && #[trigger] record_at(data, id) == Ok::<
            RecordView,
            IndexError,
        >(#[trigger] shown[i]) by {
        assert(pool.contains(shown[i]));
        assert(is_record_of(data, ids, shown[i]));
        let k = choose|k: int|
            0 <= k < ids.len() && record_at(data, #[trigger] ids[k]) == Ok::<
                RecordView,
                IndexError,
            >(shown[i]);
        assert(ids.contains(ids[k]));
        assert(is_found(entries, data, query, max_edits, ids[k]));
    }
    assert forall|id: u32| #[trigger]
        is_found(entries, data, query, max_edits, id) implies exists|k: int|
        0 <= k < pool.len() && #[trigger] pool[k] == record_at(data, id)->Ok_0 by {
        assert(ids.contains(id));
        let k = choose|k: int| 0 <= k < ids.len() && ids[k] == id;
        assert(record_at(data, ids[k]) is Ok);
        assert(is_record_of(data, ids, record_at(data, id)->Ok_0));
        assert(pool.contains(record_at(data, id)->Ok_0));
    }
}

/// The first entry of some that pass a test whose postings entry cannot be read.
proof fn lemma_first_unreadable(data: Seq<u8>, entries: Seq<Entry>, p: spec_fn(Entry) -> bool)
    requires
        ids_behind(data, entries.filter(p)) is Err,
    ensures
        exists|m: int|
            #![trigger entries[m]]
            0 <= m < entries.len() && p(entries[m]) && posting_at(
                data,
                (entries[m].1 % 0x1_0000_0000) as u32,
            ) == Err::<Seq<u32>, IndexError>(ids_behind(data, entries.filter(p))->Err_0) && forall|
                j: int,
            |
                0 <= j < m && p(#[trigger] entries[j]) ==> posting_at(
                    data,
                    (entries[j].1 % 0x1_0000_0000) as u32,
                ) is Ok,
    decreases entries.len(),
{
    reveal(Seq::filter);
    if entries.len() > 0 {
        let front = entries.drop_last();
        let last = entries.len() - 1;
        assert(entries[last] == entries.last());
        if p(entries.last()) {
            assert(entries.filter(p).drop_last() =~= front.filter(p));
        }
        if ids_behind(data, front.filter(p)) is Err {
            lemma_first_unreadable(data, front, p);
            let m = choose|m: int|
                #![trigger front[m]]
                0 <= m < front.len() && p(front[m]) && posting_at(
                    data,
                    (front[m].1 % 0x1_0000_0000) as u32,
                ) == Err::<Seq<u32>, IndexError>(ids_behind(data, front.filter(p))->Err_0)
                    && forall|j: int|
                    0 <= j < m && p(#[trigger] front[j]) ==> posting_at(
                        data,
                        (front[j].1 % 0x1_0000_0000) as u32,
                    ) is Ok;
            assert(entries[m] == front[m]);
            assert forall|j: int| 0 <= j < m && p(#[trigger] entries[j]) implies posting_at(
                data,
                (entries[j].1 % 0x1_0000_0000) as u32,
            ) is Ok by {
                assert(front[j] == entries[j]);
            }
        } else {
            lemma_ids_behind(data, front.filter(p));
            lemma_filter_contains(front, p);
            assert forall|j: int| 0 <= j < last && p(#[trigger] entries[j]) implies posting_at(
                data,
                (entries[j].1 % 0x1_0000_0000) as u32,
            ) is Ok by {
                assert(front[j] == entries[j]);
                assert(front.contains(front[j]));
                assert(front.filter(p).contains(front[j]));
                let k = choose|k: int|
                    0 <= k < front.filter(p).len() && front.filter(p)[k] == front[j];
                assert(posting_at(
                    data,
                    (front.filter(p)[k].1 % 0x1_0000_0000) as u32,
                ) is Ok);
            }
        }
    }
}

/// Where a query that is looked up fails, it fails as the first postings entry did that a
/// matching key leads to and that cannot be read; or, where all can, as a record did that they
/// lead to.
pub proof fn law_why_a_query_fails(
    entries: Seq<Entry>,
    data: Seq<u8>,
    prefix: Seq<char>,
    limit: int,
    max_edits: u32,
    error: IndexError,
)
    requires
        max_edits <= 2,
        suggestions(entries, data, prefix, limit, max_edits) == Err::<Seq<RecordView>, IndexError>(
            error,
        ),
    ensures
        ({
            let query = normalized(prefix);
            ||| exists|m: int|
                #![trigger entries[m]]
                0 <= m < entries.len() && key_matches(query, entries[m].0, max_edits) && posting_at(
                    data,
                    (entries[m].1 % 0x1_0000_0000) as u32,
                ) == Err::<Seq<u32>, IndexError>(error) && forall|j: int|
                    0 <= j < m && key_matches(query, (#[trigger] entries[j]).0, max_edits)
                        ==> posting_at(data, (entries[j].1 % 0x1_0000_0000) as u32) is Ok
            ||| (forall|m: int|
                0 <= m < entries.len() && key_matches(query, (#[trigger] entries[m]).0, max_edits)
                    ==> posting_at(data, (entries[m].1 % 0x1_0000_0000) as u32) is Ok)
                && exists|id: u32| #[trigger]
                is_found(entries, data, query, max_edits, id) && record_at(data, id) == Err::<
                    RecordView,
                    IndexError,
                >(error)
        }),
{
    let query = normalized(prefix);
    let matches = |e: Entry| key_matches(query, e.0, max_edits);
    let found = hits(entries, query, max_edits);
    lemma_found(entries, data, query, max_edits);
    if ids_behind(data, found) is Err {
        lemma_first_unreadable(data, entries, matches);
        let m = choose|m: int|
            #![trigger entries[m]]
            0 <= m < entries.len() && matches(entries[m]) && posting_at(
                data,
                (entries[m].1 % 0x1_0000_0000) as u32,
            ) == Err::<Seq<u32>, IndexError>(ids_behind(data, found)->Err_0) && forall|j: int|
                0 <= j < m && matches(#[trigger] entries[j]) ==> posting_at(
                    data,
                    (entries[j].1 % 0x1_0000_0000) as u32,
                ) is Ok;
        assert forall|j: int|
            0 <= j < m && key_matches(
                query,
                (#[trigger] entries[j]).0,
                max_edits,
            ) implies posting_at(data, (entries[j].1 % 0x1_0000_0000) as u32) is Ok by {
            assert(matches(entries[j]));
        }
        assert(key_matches(query, entries[m].0, max_edits));
    } else {
        let ids = distinct(ids_behind(data, found)->Ok_0);
        lemma_records_of(data, ids);
        let k = choose|k: int|
            #![trigger ids[k]]
            0 <= k < ids.len() && record_at(data, ids[k]) == Err::<RecordView, IndexError>(
                records_of(data, ids)->Err_0,
            ) && forall|j: int| 0 <= j < k ==> record_at(data, #[trigger] ids[j]) is Ok;
        assert(ids.contains(ids[k]));
        assert(is_found(entries, data, query, max_edits, ids[k]));
    }
}

} // verus!
