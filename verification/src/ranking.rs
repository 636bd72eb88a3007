//! Which of the records found are shown, and in what order.
use std::collections::HashSet;

use vstd::prelude::*;

use crate::order::{
    bytes_before, lemma_bytes_irreflexive, lemma_bytes_total, lemma_bytes_transitive,
    lemma_same_values, lemma_strict_order_unique, lined_up, place_bytes, sort, Place, Sortable,
};
use crate::records::{Record, RecordView};

verus! {

/// Whether `a` is a better representative of its group than `b`: the higher rank wins,
/// and between equal ranks the payload that comes first.
pub open spec fn outranks_view(a: RecordView, b: RecordView) -> bool {
    a.rank > b.rank || (a.rank == b.rank && bytes_before(a.payload, b.payload))
}

/// Whether `a` is shown before `b`: by rank from the highest, then by payload, then by
/// group, both from the lowest.
pub open spec fn shown_before(a: RecordView, b: RecordView) -> bool {
    outranks_view(a, b) || (a.rank == b.rank && a.payload == b.payload && a.group < b.group)
}

/// The record of a non-empty pool that is shown first.
pub open spec fn foremost(pool: Seq<RecordView>) -> RecordView
    decreases pool.len(),
{
    if pool.len() <= 1 {
        pool[0]
    } else {
        let best = foremost(pool.drop_last());
        if shown_before(pool.last(), best) {
            pool.last()
        } else {
            best
        }
    }
}

/// A pool without the records of one group.
pub open spec fn without_group(pool: Seq<RecordView>, group: u64) -> Seq<RecordView>
    decreases pool.len(),
{
    if pool.len() == 0 {
        Seq::empty()
    } else {
        let rest = without_group(pool.drop_last(), group);
        if pool.last().group == group {
            rest
        } else {
            rest.push(pool.last())
        }
    }
}

/// All that is shown of a pool, if nothing is cut off: what is shown first, then what
/// is shown of the other groups.
pub open spec fn ranking(pool: Seq<RecordView>) -> Seq<RecordView>
    decreases pool.len(),
    via ranking_shrinks
{
    if pool.len() == 0 {
        Seq::empty()
    } else {
        let top = foremost(pool);
        seq![top] + ranking(without_group(pool, top.group))
    }
}

#[via_fn]
proof fn ranking_shrinks(pool: Seq<RecordView>) {
    if pool.len() > 0 {
        lemma_foremost(pool);
        lemma_without_group(pool, foremost(pool).group);
    }
}

/// The first `limit` entries of a sequence, or all where there are fewer.
pub open spec fn cut<A>(s: Seq<A>, limit: int) -> Seq<A> {
    if limit < s.len() {
        s.take(limit)
    } else {
        s
    }
}

/// Whether a sequence is in the order in which records are shown.
pub open spec fn in_order(shown: Seq<RecordView>) -> bool {
    forall|i: int, j: int|
        0 <= i < j < shown.len() ==> shown_before(#[trigger] shown[i], #[trigger] shown[j])
}

/// Whether all that is shown comes from the pool.
pub open spec fn drawn_from(pool: Seq<RecordView>, shown: Seq<RecordView>) -> bool {
    forall|i: int| 0 <= i < shown.len() ==> pool.contains(#[trigger] shown[i])
}

/// Whether nothing that is shown is outranked in its group.
pub open spec fn unbeaten(pool: Seq<RecordView>, shown: Seq<RecordView>) -> bool {
    forall|i: int, k: int|
        0 <= i < shown.len() && 0 <= k < pool.len() && (#[trigger] pool[k]).group == (
        #[trigger] shown[i]).group ==> !outranks_view(pool[k], shown[i])
}

/// Whether a group is among those shown.
pub open spec fn shows_group(shown: Seq<RecordView>, group: u64) -> bool {
    exists|i: int| 0 <= i < shown.len() && (#[trigger] shown[i]).group == group
}

/// Whether no group of the pool is left out.
pub open spec fn complete(pool: Seq<RecordView>, shown: Seq<RecordView>) -> bool {
    forall|k: int| 0 <= k < pool.len() ==> shows_group(shown, (#[trigger] pool[k]).group)
}

/// Whether `shown` is a way to show a pool: in order, each record from the pool and not
/// outranked in its group, no group left out.
pub open spec fn is_ranking(pool: Seq<RecordView>, shown: Seq<RecordView>) -> bool {
    &&& in_order(shown)
    &&& drawn_from(pool, shown)
    &&& unbeaten(pool, shown)
    &&& complete(pool, shown)
}

proof fn lemma_shown_before_irreflexive(a: RecordView)
    ensures
        !shown_before(a, a),
{
    lemma_bytes_irreflexive(a.payload);
}

proof fn lemma_shown_before_transitive(a: RecordView, b: RecordView, c: RecordView)
    requires
        shown_before(a, b),
        shown_before(b, c),
    ensures
        shown_before(a, c),
{
    if bytes_before(a.payload, b.payload) && bytes_before(b.payload, c.payload) {
        lemma_bytes_transitive(a.payload, b.payload, c.payload);
    }
}

proof fn lemma_shown_before_total(a: RecordView, b: RecordView)
    ensures
        a == b || shown_before(a, b) || shown_before(b, a),
{
    lemma_bytes_total(a.payload, b.payload);
}

/// The foremost record is in the pool, and none is shown before it.
proof fn lemma_foremost(pool: Seq<RecordView>)
    requires
        pool.len() > 0,
    ensures
        pool.contains(foremost(pool)),
        forall|p: RecordView| #[trigger]
            pool.contains(p) ==> p == foremost(pool) || shown_before(foremost(pool), p),
    decreases pool.len(),
{
    if pool.len() == 1 {
        assert(pool.contains(pool[0]));
    } else {
        let front = pool.drop_last();
        let best = foremost(front);
        lemma_foremost(front);
        let k = choose|k: int| 0 <= k < front.len() && front[k] == best;
        assert(pool[k] == best);
        assert(pool[pool.len() - 1] == pool.last());
        assert forall|p: RecordView| #[trigger] pool.contains(p) implies p == foremost(pool)
            || shown_before(foremost(pool), p) by {
            let i = choose|i: int| 0 <= i < pool.len() && pool[i] == p;
            lemma_shown_before_total(pool.last(), best);
            if i < front.len() {
                assert(front[i] == p);
                assert(front.contains(p));
                if shown_before(pool.last(), best) && p != best {
                    lemma_shown_before_transitive(pool.last(), best, p);
                }
            }
        }
    }
}

/// What is left of a pool without a group.
proof fn lemma_without_group(pool: Seq<RecordView>, group: u64)
    ensures
        forall|p: RecordView| #[trigger]
            without_group(pool, group).contains(p) <==> pool.contains(p) && p.group != group,
        without_group(pool, group).len() <= pool.len(),
        (exists|p: RecordView| #[trigger] pool.contains(p) && p.group == group) ==> without_group(
            pool,
            group,
        ).len() < pool.len(),
    decreases pool.len(),
{
    if pool.len() > 0 {
        let front = pool.drop_last();
        let rest = without_group(front, group);
        let all = without_group(pool, group);
        lemma_without_group(front, group);
        assert(pool =~= front.push(pool.last()));
        assert forall|p: RecordView| pool.contains(p) <==>
            front.contains(p) || p == pool.last() by {
            if front.contains(p) {
                let i = choose|i: int| 0 <= i < front.len() && front[i] == p;
                assert(pool[i] == p);
            }
            if p == pool.last() {
                assert(pool[pool.len() - 1] == p);
            }
            if pool.contains(p) && p != pool.last() {
                let i = choose|i: int| 0 <= i < pool.len() && pool[i] == p;
                assert(front[i] == p);
            }
        }
        assert forall|p: RecordView| #[trigger] all.contains(p) <==> pool.contains(p) && p.group
            != group by {
            assert(rest.contains(p) <==> front.contains(p) && p.group != group);
            if pool.last().group != group {
                if rest.contains(p) {
                    let i = choose|i: int| 0 <= i < rest.len() && rest[i] == p;
                    assert(all[i] == p);
                }
                if p == pool.last() {
                    assert(all[all.len() - 1] == p);
                }
                if all.contains(p) && p != pool.last() {
                    let i = choose|i: int| 0 <= i < all.len() && all[i] == p;
                    assert(rest[i] == p);
                }
            }
        }
        if exists|p: RecordView| #[trigger] pool.contains(p) && p.group == group {
            let p = choose|p: RecordView| #[trigger] pool.contains(p) && p.group == group;
            if pool.last().group != group {
                assert(front.contains(p));
            }
        }
    }
}

/// The ranking of a pool shows it: best rank first, every group once, by the member that
/// no other outranks.
pub proof fn law_ranking(pool: Seq<RecordView>)
    ensures
        is_ranking(pool, ranking(pool)),
    decreases pool.len(),
{
    if pool.len() > 0 {
        let top = foremost(pool);
        let rest = without_group(pool, top.group);
        lemma_foremost(pool);
        lemma_without_group(pool, top.group);
        law_ranking(rest);
        let tail = ranking(rest);
        let shown = ranking(pool);
        assert(shown =~= seq![top] + tail);
        assert forall|i: int| 0 <= i < shown.len() implies pool.contains(#[trigger] shown[i]) by {
            if i > 0 {
                assert(rest.contains(tail[i - 1]));
            }
        }
        assert forall|i: int, j: int| 0 <= i < j < shown.len() implies shown_before(
            #[trigger] shown[i],
            #[trigger] shown[j],
        ) by {
            assert(rest.contains(tail[j - 1]));
            if i > 0 {
                assert(shown_before(tail[i - 1], tail[j - 1]));
            }
        }
        assert forall|i: int, k: int|
            0 <= i < shown.len() && 0 <= k < pool.len() && (#[trigger] pool[k]).group == (
            #[trigger] shown[i]).group implies !outranks_view(pool[k], shown[i]) by {
            let p = pool[k];
            assert(pool.contains(p));
            if i == 0 {
                if outranks_view(p, top) {
                    lemma_shown_before_irreflexive(top);
                    if p != top {
                        lemma_shown_before_transitive(top, p, top);
                    }
                }
            } else {
                assert(rest.contains(tail[i - 1]));
                assert(rest.contains(p));
                let m = choose|m: int| 0 <= m < rest.len() && rest[m] == p;
                assert(!outranks_view(rest[m], tail[i - 1]));
            }
        }
        assert forall|k: int| 0 <= k < pool.len() implies shows_group(
            shown,
            (#[trigger] pool[k]).group,
        ) by {
            let p = pool[k];
            assert(pool.contains(p));
            if p.group == top.group {
                assert(shown[0].group == p.group);
            } else {
                assert(rest.contains(p));
                let m = choose|m: int| 0 <= m < rest.len() && rest[m] == p;
                assert(shows_group(tail, rest[m].group));
                let i = choose|i: int| 0 <= i < tail.len() && (#[trigger] tail[i]).group == p.group;
                assert(shown[i + 1].group == p.group);
            }
        }
    }
}

/// What one way to show a pool holds, any way to show it holds.
proof fn lemma_ranking_member(
    pool: Seq<RecordView>,
    shown: Seq<RecordView>,
    other_pool: Seq<RecordView>,
    other: Seq<RecordView>,
    r: RecordView,
)
    requires
        forall|p: RecordView| #[trigger] pool.contains(p) <==> other_pool.contains(p),
        is_ranking(pool, shown),
        is_ranking(other_pool, other),
        shown.contains(r),
    ensures
        other.contains(r),
{
    let i = choose|i: int| 0 <= i < shown.len() && shown[i] == r;
    assert(pool.contains(shown[i]));
    let m = choose|m: int| 0 <= m < other_pool.len() && other_pool[m] == r;
    assert(shows_group(other, other_pool[m].group));
    let k = choose|k: int| 0 <= k < other.len() && (#[trigger] other[k]).group == r.group;
    assert(other_pool.contains(other[k]));
    assert(pool.contains(other[k]));
    let n = choose|n: int| 0 <= n < pool.len() && pool[n] == other[k];
    assert(!outranks_view(pool[n], shown[i]));
    assert(!outranks_view(other_pool[m], other[k]));
    lemma_bytes_total(r.payload, other[k].payload);
    assert(other[k] == r);
}

/// There is but one way to show a pool: what is shown depends on which records are found,
/// not on the order or the number of times in which they are.
pub proof fn law_ranking_unique(
    pool: Seq<RecordView>,
    other: Seq<RecordView>,
    shown: Seq<RecordView>,
)
    requires
        forall|p: RecordView| #[trigger] pool.contains(p) <==> other.contains(p),
        is_ranking(other, shown),
    ensures
        shown == ranking(pool),
{
    law_ranking(pool);
    let full = ranking(pool);
    assert forall|r: RecordView| #[trigger] shown.contains(r) <==> full.contains(r) by {
        if shown.contains(r) {
            lemma_ranking_member(other, shown, pool, full, r);
        }
        if full.contains(r) {
            lemma_ranking_member(pool, full, other, shown, r);
        }
    }
    let before = |a: RecordView, b: RecordView| shown_before(a, b);
    assert forall|x: RecordView| !#[trigger] before(x, x) by {
        lemma_shown_before_irreflexive(x);
    }
    assert forall|x: RecordView, y: RecordView, z: RecordView| #[trigger]
        before(x, y) && #[trigger] before(y, z) implies before(x, z) by {
        lemma_shown_before_transitive(x, y, z);
    }
    lemma_strict_order_unique(shown, full, before);
}

/// The more a pool holds, the more groups are shown.
pub proof fn law_larger_pool_shows_no_less(
    pool: Seq<RecordView>,
    larger: Seq<RecordView>,
    group: u64,
)
    requires
        forall|r: RecordView| #[trigger] pool.contains(r) ==> larger.contains(r),
        shows_group(ranking(pool), group),
    ensures
        shows_group(ranking(larger), group),
{
    law_ranking(pool);
    law_ranking(larger);
    let shown = ranking(pool);
    let i = choose|i: int| 0 <= i < shown.len() && (#[trigger] shown[i]).group == group;
    assert(pool.contains(shown[i]));
    assert(larger.contains(shown[i]));
    let k = choose|k: int| 0 <= k < larger.len() && larger[k] == shown[i];
    assert(shows_group(ranking(larger), larger[k].group));
}

/// The higher rank wins, however high; of the same rank, the earlier payload.
pub proof fn law_higher_rank_wins(a: RecordView, b: RecordView)
    ensures
        a.rank > b.rank ==> outranks_view(a, b) && !outranks_view(b, a),
        a.rank == b.rank ==> (outranks_view(a, b) <==> bytes_before(a.payload, b.payload)),
{
}

/// Cutting leaves the beginning: as much as is there, and no more than asked for.
pub proof fn law_cut_leaves_the_beginning<A>(s: Seq<A>, limit: int)
    requires
        0 <= limit,
    ensures
        cut(s, limit).len() <= limit,
        cut(s, limit).len() == s.len() || cut(s, limit).len() == limit,
        cut(s, limit).len() <= s.len(),
        forall|i: int| 0 <= i < cut(s, limit).len() ==> #[trigger] cut(s, limit)[i] == s[i],
{
}

/// What is shown of a pool, rank by rank.
///
/// No more than `limit` records are shown, all from the pool, each group once. Ranks fall;
/// where they are the same, payloads rise, and where those are the same, groups rise. No
/// record of the pool has a higher rank than the one shown of its group, nor the same rank
/// and an earlier payload. A group is left out only where `limit` are shown, and then none of
/// its records has a higher rank than any shown, or would stand before it.
pub proof fn law_best_are_shown(pool: Seq<RecordView>, limit: int)
    requires
        0 <= limit,
    ensures
        ({
            let shown = cut(ranking(pool), limit);
            &&& shown.len() <= limit
            &&& forall|i: int| 0 <= i < shown.len() ==> pool.contains(#[trigger] shown[i])
            &&& forall|i: int, j: int|
                0 <= i < j < shown.len() ==> {
                    let a = #[trigger] shown[i];
                    let b = #[trigger] shown[j];
                    &&& a.group != b.group
                    &&& a.rank >= b.rank
                    &&& a.rank == b.rank ==> !bytes_before(b.payload, a.payload)
                    &&& a.rank == b.rank && a.payload == b.payload ==> a.group < b.group
                }
            &&& forall|k: int, i: int|
                0 <= k < pool.len() && 0 <= i < shown.len() && (#[trigger] pool[k]).group == (
                #[trigger] shown[i]).group ==> {
                    &&& pool[k].rank <= shown[i].rank
                    &&& pool[k].rank == shown[i].rank ==> !bytes_before(
                        pool[k].payload,
                        shown[i].payload,
                    )
                }
            &&& forall|k: int|
                0 <= k < pool.len() ==> {
                    ||| exists|i: int|
                        0 <= i < shown.len() && (#[trigger] shown[i]).group == (
                        #[trigger] pool[k]).group
                    ||| shown.len() == limit && forall|i: int|
                        0 <= i < shown.len() ==> {
                            let s = #[trigger] shown[i];
                            &&& s.rank >= pool[k].rank
                            &&& s.rank == pool[k].rank ==> !bytes_before(
                                pool[k].payload,
                                s.payload,
                            )
                            &&& s.rank == pool[k].rank && s.payload == pool[k].payload ==> s.group
                                < pool[k].group
                        }
                }
        }),
{
    let full = ranking(pool);
    let shown = cut(full, limit);
    law_ranking(pool);
    assert forall|i: int, j: int| 0 <= i < j < full.len() implies {
        let a = #[trigger] full[i];
        let b = #[trigger] full[j];
        &&& a.group != b.group
        &&& a.rank >= b.rank
        &&& a.rank == b.rank ==> !bytes_before(b.payload, a.payload)
        &&& a.rank == b.rank && a.payload == b.payload ==> a.group < b.group
    } by {
        let a = full[i];
        let b = full[j];
        assert(shown_before(a, b));
        lemma_bytes_irreflexive(a.payload);
        if bytes_before(a.payload, b.payload) && bytes_before(b.payload, a.payload) {
            lemma_bytes_transitive(a.payload, b.payload, a.payload);
        }
        if a.group == b.group {
            assert(pool.contains(a));
            let k = choose|k: int| 0 <= k < pool.len() && pool[k] == a;
            assert(!outranks_view(pool[k], full[j]));
        }
    }
    assert forall|k: int| 0 <= k < pool.len() implies {
        ||| exists|i: int|
            0 <= i < shown.len() && (#[trigger] shown[i]).group == (#[trigger] pool[k]).group
        ||| shown.len() == limit && forall|i: int|
            0 <= i < shown.len() ==> {
                let s = #[trigger] shown[i];
                &&& s.rank >= pool[k].rank
                &&& s.rank == pool[k].rank ==> !bytes_before(pool[k].payload, s.payload)
                &&& s.rank == pool[k].rank && s.payload == pool[k].payload ==> s.group
                    < pool[k].group
            }
    } by {
        let p = pool[k];
        assert(shows_group(full, pool[k].group));
        let j = choose|j: int| 0 <= j < full.len() && (#[trigger] full[j]).group == p.group;
        let best = full[j];
        if j < shown.len() {
            assert(shown[j].group == p.group);
        } else {
            assert(!outranks_view(pool[k], full[j]));
            assert forall|i: int| 0 <= i < shown.len() implies {
                let s = #[trigger] shown[i];
                &&& s.rank >= p.rank
                &&& s.rank == p.rank ==> !bytes_before(p.payload, s.payload)
                &&& s.rank == p.rank && s.payload == p.payload ==> s.group < p.group
            } by {
                let s = shown[i];
                assert(s == full[i]);
                assert(shown_before(full[i], full[j]));
                lemma_bytes_total(p.payload, best.payload);
                lemma_bytes_irreflexive(p.payload);
                if s.rank == p.rank && bytes_before(p.payload, s.payload) {
                    if s.payload != best.payload {
                        lemma_bytes_transitive(p.payload, s.payload, best.payload);
                    }
                }
                if s.rank == p.rank && s.payload == p.payload && best.payload != p.payload {
                    lemma_bytes_total(best.payload, p.payload);
                    if bytes_before(best.payload, p.payload) && bytes_before(
                        p.payload,
                        best.payload,
                    ) {
                        lemma_bytes_transitive(p.payload, best.payload, p.payload);
                    }
                }
            }
        }
    }
}

/// Adding a record behind all others of a pool: it is shown last if its group is new, and
/// not at all if it is not.
proof fn lemma_ranking_step(pool: Seq<RecordView>, shown: Seq<RecordView>, r: RecordView)
    requires
        is_ranking(pool, shown),
        forall|k: int| 0 <= k < pool.len() ==> !shown_before(r, #[trigger] pool[k]),
    ensures
        shows_group(shown, r.group) ==> is_ranking(pool.push(r), shown),
        !shows_group(shown, r.group) ==> is_ranking(pool.push(r), shown.push(r)),
{
    let next = pool.push(r);
    assert forall|p: RecordView| pool.contains(p) implies #[trigger] next.contains(p) by {
        let i = choose|i: int| 0 <= i < pool.len() && pool[i] == p;
        assert(next[i] == p);
    }
    assert forall|i: int| 0 <= i < shown.len() implies !shown_before(r, #[trigger] shown[i]) by {
        assert(pool.contains(shown[i]));
        let k = choose|k: int| 0 <= k < pool.len() && pool[k] == shown[i];
        assert(!shown_before(r, pool[k]));
    }
    lemma_shown_before_irreflexive(r);
    if shows_group(shown, r.group) {
        assert(drawn_from(next, shown));
        assert(unbeaten(next, shown));
        assert(complete(next, shown));
    } else {
        let after = shown.push(r);
        assert forall|i: int, j: int| 0 <= i < j < after.len() implies shown_before(
            #[trigger] after[i],
            #[trigger] after[j],
        ) by {
            if j == shown.len() {
                lemma_shown_before_total(shown[i], r);
            }
        }
        assert(next[pool.len() as int] == r);
        assert(next.contains(r));
        assert(drawn_from(next, after));
        assert forall|i: int, k: int|
            0 <= i < after.len() && 0 <= k < next.len() && (#[trigger] next[k]).group == (
            #[trigger] after[i]).group implies !outranks_view(next[k], after[i]) by {
            if i == shown.len() && k < pool.len() {
                assert(shows_group(shown, pool[k].group));
            }
        }
        assert forall|k: int| 0 <= k < next.len() implies shows_group(
            after,
            (#[trigger] next[k]).group,
        ) by {
            if k < pool.len() {
                assert(shows_group(shown, pool[k].group));
                let i = choose|i: int|
                    0 <= i < shown.len() && (#[trigger] shown[i]).group == pool[k].group;
                assert(after[i].group == pool[k].group);
            } else {
                assert(after[shown.len() as int].group == r.group);
            }
        }
    }
}

/// Which groups are shown once one more record is.
proof fn lemma_shows_group_push(shown: Seq<RecordView>, r: RecordView, group: u64)
    ensures
        shows_group(shown.push(r), group) <==> shows_group(shown, group) || group == r.group,
{
    let after = shown.push(r);
    if shows_group(shown, group) {
        let i = choose|i: int| 0 <= i < shown.len() && (#[trigger] shown[i]).group == group;
        assert(after[i].group == group);
    }
    assert(after[shown.len() as int] == r);
    if shows_group(after, group) {
        let i = choose|i: int| 0 <= i < after.len() && (#[trigger] after[i]).group == group;
        if i < shown.len() {
            assert(shown[i].group == group);
        }
    }
}

/// Whether `a` is a better representative of its group than `b`.
pub fn outranks(a: &Record, b: &Record) -> (r: bool)
    ensures
        r == outranks_view(a@, b@),
        a.rank > b.rank ==> r,
        a.rank < b.rank ==> !r,
        a.rank == b.rank ==> (r <==> bytes_before(a.payload@, b.payload@)),
{
    a.rank > b.rank || (a.rank == b.rank && place_bytes(a.payload.as_slice(), b.payload.as_slice())
        == Place::Before)
}

impl Sortable for Record {
    open spec fn leads(self, other: Record) -> bool {
        !shown_before(other@, self@)
    }

    proof fn law_total(a: Record, b: Record) {
        if shown_before(a@, b@) && shown_before(b@, a@) {
            lemma_shown_before_transitive(a@, b@, a@);
            lemma_shown_before_irreflexive(a@);
        }
    }

    proof fn law_transitive(a: Record, b: Record, c: Record) {
        if shown_before(c@, a@) {
            lemma_shown_before_total(a@, b@);
            lemma_shown_before_total(b@, c@);
            if a@ != b@ {
                lemma_shown_before_transitive(c@, a@, b@);
            }
        }
    }

    fn may_lead(&self, other: &Record) -> (r: bool) {
        proof {
            lemma_bytes_irreflexive(self.payload@);
        }
        if outranks(other, self) {
            false
        } else if outranks(self, other) {
            proof {
                if shown_before(other@, self@) {
                    lemma_shown_before_transitive(other@, self@, other@);
                    lemma_shown_before_irreflexive(other@);
                }
            }
            true
        } else {
            proof {
                lemma_bytes_total(self.payload@, other.payload@);
            }
            self.group <= other.group
        }
    }
}

/// What the records of a sequence stand for.
pub open spec fn views(records: Seq<Record>) -> Seq<RecordView> {
    records.map_values(|r: Record| r@)
}

/// What is shown of some records, by their ranks and groups.
proof fn lemma_best_of_records(found: Seq<Record>, shown: Seq<Record>, limit: int)
    requires
        0 <= limit,
        views(shown) == cut(ranking(views(found)), limit),
    ensures
        shown.len() <= limit,
        forall|i: int, j: int|
            0 <= i < j < shown.len() ==> (#[trigger] shown[i]).rank >= (#[trigger] shown[j]).rank
                && shown[i].group != shown[j].group,
        forall|k: int|
            0 <= k < found.len() ==> {
                ||| exists|i: int|
                    0 <= i < shown.len() && (#[trigger] shown[i]).group == (
                    #[trigger] found[k]).group && shown[i].rank >= found[k].rank
                ||| shown.len() == limit && forall|i: int|
                    0 <= i < shown.len() ==> (#[trigger] shown[i]).rank >= found[k].rank
            },
{
    let pool = views(found);
    let best = views(shown);
    law_best_are_shown(pool, limit);
    assert forall|i: int, j: int| 0 <= i < j < shown.len() implies (#[trigger] shown[i]).rank >= (
    #[trigger] shown[j]).rank && shown[i].group != shown[j].group by {
        assert(best[i].rank >= best[j].rank && best[i].group != best[j].group);
    }
    assert forall|k: int| 0 <= k < found.len() implies {
        ||| exists|i: int|
            0 <= i < shown.len() && (#[trigger] shown[i]).group == (#[trigger] found[k]).group
                && shown[i].rank >= found[k].rank
        ||| shown.len() == limit && forall|i: int|
            0 <= i < shown.len() ==> (#[trigger] shown[i]).rank >= found[k].rank
    } by {
        assert(pool[k] == found[k]@);
        if exists|i: int| 0 <= i < best.len() && (#[trigger] best[i]).group == pool[k].group {
            let i = choose|i: int|
                0 <= i < best.len() && (#[trigger] best[i]).group == pool[k].group;
            assert(shown[i].group == found[k].group && shown[i].rank >= found[k].rank);
        } else {
            assert forall|i: int| 0 <= i < shown.len() implies (#[trigger] shown[i]).rank
                >= found[k].rank by {
                assert(best[i].rank >= pool[k].rank);
            }
        }
    }
}

/// Lines records up, keeps the best of each group and cuts after `limit`.
pub fn rank_records(found: Vec<Record>, limit: usize) -> (shown: Vec<Record>)
    ensures
        views(shown@) == cut(ranking(views(found@)), limit as int),
        shown@.len() <= limit,
        forall|i: int, j: int|
            0 <= i < j < shown@.len() ==> (#[trigger] shown@[i]).rank >= (
            #[trigger] shown@[j]).rank && shown@[i].group != shown@[j].group,
        forall|k: int|
            0 <= k < found@.len() ==> {
                ||| exists|i: int|
                    0 <= i < shown@.len() && (#[trigger] shown@[i]).group == (
                    #[trigger] found@[k]).group && shown@[i].rank >= found@[k].rank
                ||| shown@.len() == limit && forall|i: int|
                    0 <= i < shown@.len() ==> (#[trigger] shown@[i]).rank >= found@[k].rank
            },
{
    broadcast use vstd::std_specs::hash::group_hash_axioms;

    let ghost all = found@;
    let sorted = sort(found);
    let ghost line = sorted@;
    let mut seen: HashSet<u64> = HashSet::new();
    let mut shown: Vec<Record> = Vec::new();
    assert(views(line.take(0)) =~= Seq::<RecordView>::empty());
    for r in it: sorted
        invariant
            it.seq() == line,
            lined_up(line),
            is_ranking(views(line.take(it.index())), views(shown@)),
            forall|g: u64| #[trigger] seen@.contains(g) <==> shows_group(views(shown@), g),
    {
        let ghost n = it.index();
        let ghost pool = views(line.take(n));
        let ghost before = views(shown@);
        let ghost last = r@;
        proof {
            assert(views(line.take(n + 1)) =~= pool.push(last));
            assert forall|k: int| 0 <= k < pool.len() implies !shown_before(
                last,
                #[trigger] pool[k],
            ) by {
                assert(line[k].leads(line[n]));
            }
            lemma_ranking_step(pool, before, last);
        }
        if seen.insert(r.group) {
            shown.push(r);
            proof {
                assert(views(shown@) =~= before.push(last));
                assert forall|g: u64| #[trigger] seen@.contains(g) <==> shows_group(
                    views(shown@),
                    g,
                ) by {
                    lemma_shows_group_push(before, last, g);
                }
            }
        }
    }
    proof {
        assert(line.take(line.len() as int) =~= line);
        lemma_same_values(line, all);
        assert forall|p: RecordView| #[trigger] views(all).contains(p) <==>
            views(line).contains(p) by {
            if views(all).contains(p) {
                let i = choose|i: int| 0 <= i < all.len() && views(all)[i] == p;
                assert(all.contains(all[i]));
                assert(line.contains(all[i]));
                let k = choose|k: int| 0 <= k < line.len() && line[k] == all[i];
                assert(views(line)[k] == p);
            }
            if views(line).contains(p) {
                let i = choose|i: int| 0 <= i < line.len() && views(line)[i] == p;
                assert(line.contains(line[i]));
                assert(all.contains(line[i]));
                let k = choose|k: int| 0 <= k < all.len() && all[k] == line[i];
                assert(views(all)[k] == p);
            }
        }
        law_ranking_unique(views(all), views(line), views(shown@));
    }
    let ghost full = shown@;
    shown.truncate(limit);
    assert(views(shown@) =~= cut(views(full), limit as int));
    proof {
        lemma_best_of_records(all, shown@, limit as int);
    }
    shown
}

} // verus!
