//! Keys and the records linked to them, as a table with one row for each key.
use vstd::prelude::*;

use crate::order::{
    bytes_before, lemma_bytes_irreflexive, lemma_bytes_total, lemma_bytes_transitive,
    lemma_strict_order_unique,
};

verus! {

/// A key, in bytes, and the id of a record found under it.
pub type LinkView = (Seq<u8>, u32);

/// A key and the ids of the records found under it.
#[verifier::ext_equal]
pub struct Row {
    pub key: Seq<u8>,
    pub ids: Seq<u32>,
}

/// Rising ids with one more at its place, unless it is there.
pub open spec fn put_id(ids: Seq<u32>, id: u32) -> Seq<u32>
    decreases ids.len(),
{
    if ids.len() == 0 || ids.last() < id {
        ids.push(id)
    } else if ids.last() == id {
        ids
    } else {
        put_id(ids.drop_last(), id).push(ids.last())
    }
}

/// A table with one more link: in the row of its key, or in a new row at its place.
pub open spec fn put(rows: Seq<Row>, key: Seq<u8>, id: u32) -> Seq<Row>
    decreases rows.len(),
{
    if rows.len() == 0 || bytes_before(rows.last().key, key) {
        rows.push(Row { key, ids: seq![id] })
    } else if rows.last().key == key {
        rows.drop_last().push(Row { key, ids: put_id(rows.last().ids, id) })
    } else {
        put(rows.drop_last(), key, id).push(rows.last())
    }
}

/// The table of some links.
pub open spec fn table(links: Seq<LinkView>) -> Seq<Row>
    decreases links.len(),
{
    if links.len() == 0 {
        Seq::empty()
    } else {
        put(table(links.drop_last()), links.last().0, links.last().1)
    }
}

/// Whether ids rise.
pub open spec fn rising(ids: Seq<u32>) -> bool {
    forall|i: int, j: int| 0 <= i < j < ids.len() ==> #[trigger] ids[i] < #[trigger] ids[j]
}

/// Whether the keys of a table rise, and each row holds rising ids, at least one.
pub open spec fn well_ordered(rows: Seq<Row>) -> bool {
    &&& forall|i: int, j: int|
        0 <= i < j < rows.len() ==> bytes_before((#[trigger] rows[i]).key, (#[trigger] rows[j]).key)
    &&& forall|i: int|
        0 <= i < rows.len() ==> rising((#[trigger] rows[i]).ids) && rows[i].ids.len() > 0
}

/// Whether a table has a row for a key.
pub open spec fn has_key(rows: Seq<Row>, key: Seq<u8>) -> bool {
    exists|i: int| 0 <= i < rows.len() && (#[trigger] rows[i]).key == key
}

/// Whether a table has an id in the row of a key.
pub open spec fn holds(rows: Seq<Row>, key: Seq<u8>, id: u32) -> bool {
    exists|i: int|
        0 <= i < rows.len() && (#[trigger] rows[i]).key == key && rows[i].ids.contains(id)
}

proof fn lemma_put_id(ids: Seq<u32>, id: u32)
    requires
        rising(ids),
    ensures
        rising(put_id(ids, id)),
        put_id(ids, id).len() > 0,
        forall|x: u32| #[trigger] put_id(ids, id).contains(x) <==> ids.contains(x) || x == id,
    decreases ids.len(),
{
    let more = put_id(ids, id);
    if ids.len() == 0 || ids.last() < id {
        assert(more[ids.len() as int] == id);
        assert forall|x: u32| #[trigger] more.contains(x) <==> ids.contains(x) || x == id by {
            if ids.contains(x) {
                let i = choose|i: int| 0 <= i < ids.len() && ids[i] == x;
                assert(more[i] == x);
            }
        }
    } else if ids.last() == id {
        assert(ids.contains(id));
    } else {
        let front = ids.drop_last();
        let sub = put_id(front, id);
        lemma_put_id(front, id);
        assert forall|i: int, j: int| 0 <= i < j < more.len() implies #[trigger] more[i]
            < #[trigger] more[j] by {
            if j == sub.len() {
                assert(sub.contains(sub[i]));
                if front.contains(sub[i]) {
                    let k = choose|k: int| 0 <= k < front.len() && front[k] == sub[i];
                    assert(ids[k] < ids[ids.len() - 1]);
                }
            }
        }
        assert forall|x: u32| #[trigger] more.contains(x) <==> ids.contains(x) || x == id by {
            if more.contains(x) {
                let i = choose|i: int| 0 <= i < more.len() && more[i] == x;
                if i < sub.len() {
                    assert(sub.contains(x));
                    if front.contains(x) {
                        let k = choose|k: int| 0 <= k < front.len() && front[k] == x;
                        assert(ids[k] == x);
                    }
                } else {
                    assert(ids[ids.len() - 1] == x);
                }
            }
            if ids.contains(x) || x == id {
                if x == ids.last() && x != id {
                    assert(more[sub.len() as int] == x);
                } else {
                    if x != id {
                        let k = choose|k: int| 0 <= k < ids.len() && ids[k] == x;
                        assert(front[k] == x);
                        assert(front.contains(x));
                    }
                    assert(sub.contains(x));
                    let k = choose|k: int| 0 <= k < sub.len() && sub[k] == x;
                    assert(more[k] == x);
                }
            }
        }
    }
}

proof fn lemma_holds_push(rows: Seq<Row>, row: Row)
    ensures
        forall|k: Seq<u8>, x: u32|
            #[trigger] holds(rows.push(row), k, x) <==> holds(rows, k, x) || (k == row.key
                && row.ids.contains(x)),
        forall|k: Seq<u8>| #[trigger]
            has_key(rows.push(row), k) <==> has_key(rows, k) || k == row.key,
{
    let more = rows.push(row);
    assert forall|k: Seq<u8>, x: u32|
        #[trigger] holds(more, k, x) <==> holds(rows, k, x) || (k == row.key && row.ids.contains(
            x,
        )) by {
        if holds(more, k, x) {
            let i = choose|i: int|
                0 <= i < more.len() && (#[trigger] more[i]).key == k && more[i].ids.contains(x);
            if i < rows.len() {
                assert(rows[i].key == k);
            }
        }
        if holds(rows, k, x) {
            let i = choose|i: int|
                0 <= i < rows.len() && (#[trigger] rows[i]).key == k && rows[i].ids.contains(x);
            assert(more[i].key == k);
        }
        if k == row.key && row.ids.contains(x) {
            assert(more[rows.len() as int].key == k);
        }
    }
    assert forall|k: Seq<u8>| #[trigger] has_key(more, k) <==> has_key(rows, k) || k == row.key by {
        if has_key(more, k) {
            let i = choose|i: int| 0 <= i < more.len() && (#[trigger] more[i]).key == k;
            if i < rows.len() {
                assert(rows[i].key == k);
            }
        }
        if has_key(rows, k) {
            let i = choose|i: int| 0 <= i < rows.len() && (#[trigger] rows[i]).key == k;
            assert(more[i].key == k);
        }
        if k == row.key {
            assert(more[rows.len() as int].key == k);
        }
    }
}

proof fn lemma_well_ordered_push(rows: Seq<Row>, row: Row)
    requires
        well_ordered(rows),
        forall|k: Seq<u8>| #[trigger] has_key(rows, k) ==> bytes_before(k, row.key),
        rising(row.ids),
        row.ids.len() > 0,
    ensures
        well_ordered(rows.push(row)),
{
    let more = rows.push(row);
    assert forall|i: int, j: int| 0 <= i < j < more.len() implies bytes_before(
        (#[trigger] more[i]).key,
        (#[trigger] more[j]).key,
    ) by {
        assert(has_key(rows, rows[i].key));
    }
}

/// The keys of all rows but the last come before the key of the last.
proof fn lemma_last_key(rows: Seq<Row>)
    requires
        well_ordered(rows),
        rows.len() > 0,
    ensures
        well_ordered(rows.drop_last()),
        forall|k: Seq<u8>| #[trigger]
            has_key(rows.drop_last(), k) ==> bytes_before(k, rows.last().key),
{
    let front = rows.drop_last();
    assert forall|k: Seq<u8>| #[trigger] has_key(front, k) implies bytes_before(
        k,
        rows.last().key,
    ) by {
        let i = choose|i: int| 0 <= i < front.len() && (#[trigger] front[i]).key == k;
        assert(bytes_before(rows[i].key, rows[rows.len() - 1].key));
    }
    assert forall|i: int, j: int| 0 <= i < j < front.len() implies bytes_before(
        (#[trigger] front[i]).key,
        (#[trigger] front[j]).key,
    ) by {
        assert(bytes_before(rows[i].key, rows[j].key));
    }
    assert forall|i: int| 0 <= i < front.len() implies rising((#[trigger] front[i]).ids)
        && front[i].ids.len() > 0 by {
        assert(rising(rows[i].ids));
    }
}

/// One more link keeps a table in order, and adds itself and nothing else.
pub proof fn lemma_put(rows: Seq<Row>, key: Seq<u8>, id: u32)
    requires
        well_ordered(rows),
    ensures
        well_ordered(put(rows, key, id)),
        forall|k: Seq<u8>, x: u32| #[trigger]
            holds(put(rows, key, id), k, x) <==> holds(rows, k, x) || (k == key && x == id),
        forall|k: Seq<u8>| #[trigger]
            has_key(put(rows, key, id), k) <==> has_key(rows, k) || k == key,
    decreases rows.len(),
{
    let more = put(rows, key, id);
    if rows.len() == 0 || bytes_before(rows.last().key, key) {
        let row = Row { key, ids: seq![id] };
        assert(row.ids[0] == id);
        assert forall|x: u32| #[trigger] row.ids.contains(x) <==> x == id by {}
        lemma_holds_push(rows, row);
        assert forall|k: Seq<u8>| #[trigger] has_key(rows, k) implies bytes_before(k, key) by {
            let i = choose|i: int| 0 <= i < rows.len() && (#[trigger] rows[i]).key == k;
            if i < rows.len() - 1 {
                assert(bytes_before(rows[i].key, rows[rows.len() - 1].key));
                lemma_bytes_transitive(k, rows.last().key, key);
            }
        }
        lemma_well_ordered_push(rows, row);
    } else {
        let front = rows.drop_last();
        let last = rows.last();
        assert(rows =~= front.push(last));
        lemma_last_key(rows);
        lemma_holds_push(front, last);
        if last.key == key {
            let row = Row { key, ids: put_id(last.ids, id) };
            assert(rising(last.ids)) by {
                assert(rising(rows[rows.len() - 1].ids));
            }
            lemma_put_id(last.ids, id);
            lemma_holds_push(front, row);
            lemma_well_ordered_push(front, row);
        } else {
            let sub = put(front, key, id);
            lemma_put(front, key, id);
            lemma_bytes_total(last.key, key);
            lemma_holds_push(sub, last);
            assert(rising(last.ids) && last.ids.len() > 0) by {
                assert(rising(rows[rows.len() - 1].ids));
            }
            lemma_well_ordered_push(sub, last);
        }
    }
}

/// The table of some links is in order and holds just the links.
pub proof fn law_table(links: Seq<LinkView>)
    ensures
        well_ordered(table(links)),
        forall|k: Seq<u8>, x: u32| #[trigger]
            holds(table(links), k, x) <==> links.contains((k, x)),
    decreases links.len(),
{
    if links.len() > 0 {
        let front = links.drop_last();
        law_table(front);
        lemma_put(table(front), links.last().0, links.last().1);
        assert forall|k: Seq<u8>, x: u32| #[trigger]
            holds(table(links), k, x) <==> links.contains((k, x)) by {
            if front.contains((k, x)) {
                let i = choose|i: int| 0 <= i < front.len() && front[i] == (k, x);
                assert(links[i] == (k, x));
            }
            if links.contains((k, x)) {
                let i = choose|i: int| 0 <= i < links.len() && links[i] == (k, x);
                if i < front.len() {
                    assert(front[i] == (k, x));
                } else {
                    assert(links.last() == (k, x));
                }
            }
            if links.last() == (k, x) {
                assert(links[links.len() - 1] == (k, x));
            }
        }
    }
}

/// A row of one table is a row of another that holds the same.
proof fn lemma_row_shared(a: Seq<Row>, b: Seq<Row>, i: int)
    requires
        well_ordered(a),
        well_ordered(b),
        forall|k: Seq<u8>, x: u32| #[trigger] holds(a, k, x) <==> holds(b, k, x),
        0 <= i < a.len(),
    ensures
        b.contains(a[i]),
{
    let key = a[i].key;
    assert(a[i].ids.contains(a[i].ids[0]));
    assert(holds(a, key, a[i].ids[0]));
    assert(holds(b, key, a[i].ids[0]));
    let j = choose|j: int|
        0 <= j < b.len() && (#[trigger] b[j]).key == key && b[j].ids.contains(a[i].ids[0]);
    lemma_bytes_irreflexive(key);
    assert forall|x: u32| #[trigger] a[i].ids.contains(x) <==> b[j].ids.contains(x) by {
        if a[i].ids.contains(x) {
            assert(holds(a, key, x));
            assert(holds(b, key, x));
            let m = choose|m: int|
                0 <= m < b.len() && (#[trigger] b[m]).key == key && b[m].ids.contains(x);
            assert(m == j) by {
                if m < j {
                    assert(bytes_before(b[m].key, b[j].key));
                } else if j < m {
                    assert(bytes_before(b[j].key, b[m].key));
                }
            }
        }
        if b[j].ids.contains(x) {
            assert(holds(b, key, x));
            assert(holds(a, key, x));
            let m = choose|m: int|
                0 <= m < a.len() && (#[trigger] a[m]).key == key && a[m].ids.contains(x);
            assert(m == i) by {
                if m < i {
                    assert(bytes_before(a[m].key, a[i].key));
                } else if i < m {
                    assert(bytes_before(a[i].key, a[m].key));
                }
            }
        }
    }
    let before = |x: u32, y: u32| x < y;
    assert forall|m: int, n: int| 0 <= m < n < a[i].ids.len() implies before(
        #[trigger] a[i].ids[m],
        #[trigger] a[i].ids[n],
    ) by {
        assert(rising(a[i].ids));
    }
    assert forall|m: int, n: int| 0 <= m < n < b[j].ids.len() implies before(
        #[trigger] b[j].ids[m],
        #[trigger] b[j].ids[n],
    ) by {
        assert(rising(b[j].ids));
    }
    lemma_strict_order_unique(a[i].ids, b[j].ids, before);
    assert(b[j] =~= a[i]);
}

/// Two tables in order that hold the same are the same.
pub proof fn law_table_unique(a: Seq<Row>, b: Seq<Row>)
    requires
        well_ordered(a),
        well_ordered(b),
        forall|k: Seq<u8>, x: u32| #[trigger] holds(a, k, x) <==> holds(b, k, x),
    ensures
        a == b,
{
    assert forall|r: Row| #[trigger] a.contains(r) <==> b.contains(r) by {
        if a.contains(r) {
            let i = choose|i: int| 0 <= i < a.len() && a[i] == r;
            lemma_row_shared(a, b, i);
        }
        if b.contains(r) {
            let i = choose|i: int| 0 <= i < b.len() && b[i] == r;
            lemma_row_shared(b, a, i);
        }
    }
    let before = |x: Row, y: Row| bytes_before(x.key, y.key);
    assert forall|x: Row| !#[trigger] before(x, x) by {
        lemma_bytes_irreflexive(x.key);
    }
    assert forall|x: Row, y: Row, z: Row| #[trigger] before(x, y) && #[trigger] before(
        y,
        z,
    ) implies before(x, z) by {
        lemma_bytes_transitive(x.key, y.key, z.key);
    }
    lemma_strict_order_unique(a, b, before);
}

/// The table of some links, row by row: a row for each key that is linked, the keys rising, and
/// in it the ids that the key is linked to, rising.
pub proof fn law_rows_of_a_table(links: Seq<LinkView>)
    ensures
        ({
            let rows = table(links);
            &&& forall|i: int, j: int|
                0 <= i < j < rows.len() ==> bytes_before(
                    (#[trigger] rows[i]).key,
                    (#[trigger] rows[j]).key,
                )
            &&& forall|i: int, a: int, b: int|
                0 <= i < rows.len() && 0 <= a < b < rows[i].ids.len() ==> #[trigger] rows[i].ids[a]
                    < #[trigger] rows[i].ids[b]
            &&& forall|i: int, id: u32|
                0 <= i < rows.len() ==> (#[trigger] rows[i].ids.contains(id) <==> links.contains(
                    (rows[i].key, id),
                ))
            &&& forall|m: int|
                0 <= m < links.len() ==> exists|i: int|
                    0 <= i < rows.len() && (#[trigger] rows[i]).key == (#[trigger] links[m]).0
            &&& forall|i: int| 0 <= i < rows.len() ==> (#[trigger] rows[i]).ids.len() > 0
        }),
{
    let rows = table(links);
    law_table(links);
    assert forall|i: int, a: int, b: int|
        0 <= i < rows.len() && 0 <= a < b < rows[i].ids.len() implies #[trigger] rows[i].ids[a]
        < #[trigger] rows[i].ids[b] by {
        assert(rising(rows[i].ids));
    }
    assert forall|i: int, id: u32| 0 <= i < rows.len() implies (#[trigger] rows[i].ids.contains(id)
        <==> links.contains((rows[i].key, id))) by {
        if rows[i].ids.contains(id) {
            assert(holds(rows, rows[i].key, id));
        }
        if links.contains((rows[i].key, id)) {
            assert(holds(rows, rows[i].key, id));
            let j = choose|j: int|
                0 <= j < rows.len() && (#[trigger] rows[j]).key == rows[i].key
                    && rows[j].ids.contains(id);
            lemma_bytes_irreflexive(rows[i].key);
            if j < i {
                assert(bytes_before(rows[j].key, rows[i].key));
            } else if i < j {
                assert(bytes_before(rows[i].key, rows[j].key));
            }
        }
    }
    assert forall|m: int| 0 <= m < links.len() implies exists|i: int|
        0 <= i < rows.len() && (#[trigger] rows[i]).key == (#[trigger] links[m]).0 by {
        let link = links[m];
        assert(links.contains((link.0, link.1)));
        assert(holds(rows, link.0, link.1));
        let i = choose|i: int|
            0 <= i < rows.len() && (#[trigger] rows[i]).key == link.0 && rows[i].ids.contains(
                link.1,
            );
        assert(rows[i].key == links[m].0);
    }
}

} // verus!
