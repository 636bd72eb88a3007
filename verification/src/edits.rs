//! The Levenshtein distance as the least number of edits.
use vstd::prelude::*;

use crate::distance::{edit_distance, prefix_within};

verus! {

/// Whether two texts differ by one character at place `i`: one that only one of them has,
/// or one that is another in each.
pub open spec fn edit_at(a: Seq<char>, b: Seq<char>, i: int) -> bool {
    ||| 0 <= i < a.len() && b == a.remove(i)
    ||| 0 <= i < b.len() && a == b.remove(i)
    ||| 0 <= i < a.len() && b.len() == a.len() && a.remove(i) == b.remove(i)
}

/// Whether one insertion, deletion or replacement of a character turns `a` into `b`.
pub open spec fn one_edit(a: Seq<char>, b: Seq<char>) -> bool {
    exists|i: int| edit_at(a, b, i)
}

/// Whether `path` leads from `a` to `b`, one edit at a time.
pub open spec fn is_path(path: Seq<Seq<char>>, a: Seq<char>, b: Seq<char>) -> bool {
    &&& path.len() > 0
    &&& path[0] == a
    &&& path.last() == b
    &&& forall|k: int| 0 <= k < path.len() - 1 ==> #[trigger] one_edit(path[k], path[k + 1])
}

pub proof fn lemma_distance_to_self(a: Seq<char>)
    ensures
        edit_distance(a, a) == 0,
    decreases a.len(),
{
    if a.len() > 0 {
        lemma_distance_to_self(a.drop_last());
    }
}

/// One character less at the end brings a text no further away than by one.
proof fn lemma_drop_last_near(a: Seq<char>, c: Seq<char>)
    requires
        a.len() > 0,
    ensures
        edit_distance(a.drop_last(), c) <= edit_distance(a, c) + 1,
        edit_distance(a, c) <= edit_distance(a.drop_last(), c) + 1,
    decreases c.len(),
{
    if c.len() > 0 {
        lemma_drop_last_near(a, c.drop_last());
    }
}

/// The front of a text with a character taken out before its last.
proof fn lemma_remove_before_last(a: Seq<char>, i: int)
    requires
        0 <= i < a.len() - 1,
    ensures
        a.remove(i).drop_last() == a.drop_last().remove(i),
        a.remove(i).last() == a.last(),
        a.remove(i).len() == a.len() - 1,
{
    assert(a.remove(i).drop_last() =~= a.drop_last().remove(i));
}

/// One edit brings a text no further away than by one.
proof fn lemma_edit_moves_by_one(a: Seq<char>, b: Seq<char>, i: int, c: Seq<char>)
    requires
        edit_at(a, b, i),
    ensures
        edit_distance(a, c) <= edit_distance(b, c) + 1,
    decreases a.len() + b.len() + c.len(), 1int,
{
    if 0 <= i < a.len() && b == a.remove(i) {
        if i == a.len() - 1 {
            assert(b =~= a.drop_last());
            lemma_drop_last_near(a, c);
        } else {
            lemma_remove_before_last(a, i);
            lemma_same_last_moves_by_one(a, b, i, c);
        }
    } else if 0 <= i < b.len() && a == b.remove(i) {
        if i == b.len() - 1 {
            assert(a =~= b.drop_last());
            lemma_drop_last_near(b, c);
        } else {
            lemma_remove_before_last(b, i);
            lemma_same_last_moves_by_one(a, b, i, c);
        }
    } else {
        if i == a.len() - 1 {
            assert(a.remove(i) =~= a.drop_last());
            assert(b.remove(i) =~= b.drop_last());
            if c.len() > 0 {
                lemma_edit_moves_by_one(a, b, i, c.drop_last());
            }
        } else {
            lemma_remove_before_last(a, i);
            lemma_remove_before_last(b, i);
            lemma_same_last_moves_by_one(a, b, i, c);
        }
    }
}

/// An edit before the last character, which both texts share.
proof fn lemma_same_last_moves_by_one(a: Seq<char>, b: Seq<char>, i: int, c: Seq<char>)
    requires
        edit_at(a, b, i),
        a.len() > 0,
        b.len() > 0,
        a.last() == b.last(),
        edit_at(a.drop_last(), b.drop_last(), i),
        a.len() <= b.len() + 1,
    ensures
        edit_distance(a, c) <= edit_distance(b, c) + 1,
    decreases a.len() + b.len() + c.len(), 0int,
{
    if c.len() > 0 {
        lemma_edit_moves_by_one(a.drop_last(), b.drop_last(), i, c.drop_last());
        lemma_edit_moves_by_one(a.drop_last(), b.drop_last(), i, c);
        lemma_edit_moves_by_one(a, b, i, c.drop_last());
    }
}

proof fn lemma_path_no_shorter(path: Seq<Seq<char>>, a: Seq<char>, b: Seq<char>, c: Seq<char>)
    requires
        is_path(path, a, b),
    ensures
        edit_distance(a, c) <= edit_distance(b, c) + path.len() - 1,
    decreases path.len(),
{
    if path.len() > 1 {
        let rest = path.drop_first();
        assert(one_edit(path[0], path[0int + 1]));
        assert forall|k: int| 0 <= k < rest.len() - 1 implies #[trigger] one_edit(
            rest[k],
            rest[k + 1],
        ) by {
            assert(one_edit(path[k + 1], path[k + 1 + 1]));
        }
        lemma_path_no_shorter(rest, path[1], b, c);
        let i = choose|i: int| edit_at(path[0], path[1], i);
        lemma_edit_moves_by_one(path[0], path[1], i, c);
    }
}

/// Texts one edit apart stay so with the same character behind both.
proof fn lemma_edit_under_last(a: Seq<char>, b: Seq<char>, x: char)
    requires
        one_edit(a, b),
    ensures
        one_edit(a.push(x), b.push(x)),
{
    let i = choose|i: int| edit_at(a, b, i);
    let p = a.push(x);
    let q = b.push(x);
    if 0 <= i < a.len() && b == a.remove(i) {
        assert(q =~= p.remove(i));
    } else if 0 <= i < b.len() && a == b.remove(i) {
        assert(p =~= q.remove(i));
    } else {
        assert(p.remove(i) =~= a.remove(i).push(x));
        assert(q.remove(i) =~= b.remove(i).push(x));
    }
    assert(edit_at(p, q, i));
}

/// A path with one more step at its end.
proof fn lemma_path_push(path: Seq<Seq<char>>, a: Seq<char>, b: Seq<char>, c: Seq<char>)
    requires
        is_path(path, a, b),
        one_edit(b, c),
    ensures
        is_path(path.push(c), a, c),
{
    let more = path.push(c);
    assert forall|k: int| 0 <= k < more.len() - 1 implies #[trigger] one_edit(
        more[k],
        more[k + 1],
    ) by {
        if k < path.len() - 1 {
            assert(one_edit(path[k], path[k + 1]));
        }
    }
}

/// A path with one more step at its start.
proof fn lemma_path_prepend(path: Seq<Seq<char>>, a: Seq<char>, b: Seq<char>, c: Seq<char>)
    requires
        one_edit(a, b),
        is_path(path, b, c),
    ensures
        is_path(seq![a] + path, a, c),
{
    let more = seq![a] + path;
    assert forall|k: int| 0 <= k < more.len() - 1 implies #[trigger] one_edit(
        more[k],
        more[k + 1],
    ) by {
        if k > 0 {
            assert(one_edit(path[k - 1], path[k - 1 + 1]));
        }
    }
}

/// A path under a character that stays at the end.
proof fn lemma_path_under_last(path: Seq<Seq<char>>, a: Seq<char>, b: Seq<char>, x: char)
    requires
        is_path(path, a, b),
    ensures
        is_path(path.map_values(|s: Seq<char>| s.push(x)), a.push(x), b.push(x)),
{
    let more = path.map_values(|s: Seq<char>| s.push(x));
    assert forall|k: int| 0 <= k < more.len() - 1 implies #[trigger] one_edit(
        more[k],
        more[k + 1],
    ) by {
        assert(one_edit(path[k], path[k + 1]));
        lemma_edit_under_last(path[k], path[k + 1], x);
    }
}

/// There is a path of as many edits as the distance.
proof fn lemma_path_exists(a: Seq<char>, b: Seq<char>) -> (path: Seq<Seq<char>>)
    ensures
        is_path(path, a, b),
        path.len() == edit_distance(a, b) + 1,
    decreases a.len() + b.len(),
{
    if a.len() == 0 && b.len() == 0 {
        assert(a =~= b);
        seq![a]
    } else if a.len() == 0 {
        let shorter = lemma_path_exists(a, b.drop_last());
        assert(b.drop_last() =~= b.remove(b.len() - 1));
        assert(edit_at(b.drop_last(), b, b.len() - 1));
        lemma_path_push(shorter, a, b.drop_last(), b);
        shorter.push(b)
    } else if b.len() == 0 {
        let shorter = lemma_path_exists(a.drop_last(), b);
        assert(a.drop_last() =~= a.remove(a.len() - 1));
        assert(edit_at(a, a.drop_last(), a.len() - 1));
        lemma_path_prepend(shorter, a, a.drop_last(), b);
        seq![a] + shorter
    } else {
        let d = edit_distance(a, b);
        let delete = edit_distance(a.drop_last(), b) + 1;
        let insert = edit_distance(a, b.drop_last()) + 1;
        if d == delete {
            let shorter = lemma_path_exists(a.drop_last(), b);
            assert(a.drop_last() =~= a.remove(a.len() - 1));
            assert(edit_at(a, a.drop_last(), a.len() - 1));
            lemma_path_prepend(shorter, a, a.drop_last(), b);
            seq![a] + shorter
        } else if d == insert {
            let shorter = lemma_path_exists(a, b.drop_last());
            assert(b.drop_last() =~= b.remove(b.len() - 1));
            assert(edit_at(b.drop_last(), b, b.len() - 1));
            lemma_path_push(shorter, a, b.drop_last(), b);
            shorter.push(b)
        } else {
            let x = a.last();
            let under = lemma_path_exists(a.drop_last(), b.drop_last());
            lemma_path_under_last(under, a.drop_last(), b.drop_last(), x);
            let path = under.map_values(|s: Seq<char>| s.push(x));
            let near = b.drop_last().push(x);
            assert(a.drop_last().push(x) =~= a);
            if x == b.last() {
                assert(near =~= b);
                path
            } else {
                let i = b.len() - 1;
                assert(near.remove(i) =~= b.remove(i));
                assert(edit_at(near, b, i));
                lemma_path_push(path, a, near, b);
                path.push(b)
            }
        }
    }
}

/// The distance between two texts is the least number of edits that turn the one into the
/// other: so many are enough, and fewer are not.
pub proof fn law_edit_distance_is_least(a: Seq<char>, b: Seq<char>)
    ensures
        exists|path: Seq<Seq<char>>| #[trigger]
            is_path(path, a, b) && path.len() == edit_distance(a, b) + 1,
        forall|path: Seq<Seq<char>>| #[trigger]
            is_path(path, a, b) ==> path.len() >= edit_distance(a, b) + 1,
{
    let path = lemma_path_exists(a, b);
    assert(is_path(path, a, b));
    assert forall|path: Seq<Seq<char>>| #[trigger] is_path(path, a, b) implies path.len()
        >= edit_distance(a, b) + 1 by {
        lemma_path_no_shorter(path, a, b, b);
        lemma_distance_to_self(b);
    }
}

/// What an edit is: a character put in, taken out or replaced.
pub proof fn law_one_edit(a: Seq<char>, b: Seq<char>)
    ensures
        one_edit(a, b) <==> exists|i: int, c: char|
            (0 <= i <= a.len() && b == #[trigger] a.insert(i, c)) || (0 <= i < a.len() && (b
                == a.remove(i) || b == a.update(i, c))),
{
    if one_edit(a, b) {
        let i = choose|i: int| edit_at(a, b, i);
        if 0 <= i < a.len() && b == a.remove(i) {
            let t = a.insert(i, 'x');
        } else if 0 <= i < b.len() && a == b.remove(i) {
            assert(b =~= a.insert(i, b[i]));
        } else {
            assert(b =~= a.update(i, b[i])) by {
                assert forall|k: int| 0 <= k < a.len() && k != i implies a[k] == b[k] by {
                    if k < i {
                        assert(a.remove(i)[k] == b.remove(i)[k]);
                    } else {
                        assert(a.remove(i)[k - 1] == b.remove(i)[k - 1]);
                    }
                }
            }
            let t = a.insert(i, b[i]);
        }
    }
    if exists|i: int, c: char|
        (0 <= i <= a.len() && b == #[trigger] a.insert(i, c)) || (0 <= i < a.len() && (b
            == a.remove(i) || b == a.update(i, c))) {
        let (i, c) = choose|i: int, c: char|
            (0 <= i <= a.len() && b == #[trigger] a.insert(i, c)) || (0 <= i < a.len() && (b
                == a.remove(i) || b == a.update(i, c)));
        if 0 <= i < a.len() && b == a.remove(i) {
            assert(edit_at(a, b, i));
        } else if 0 <= i < a.len() && b == a.update(i, c) {
            assert(a.remove(i) =~= b.remove(i));
            assert(edit_at(a, b, i));
        } else {
            assert(a =~= b.remove(i));
            assert(edit_at(a, b, i));
        }
    }
}

/// A query is near to a key just where some prefix of the key, of whatever length, is turned
/// into the query by no more than `max` edits.
pub proof fn law_near_is_reached_by_edits(query: Seq<char>, key: Seq<char>, max: int)
    ensures
        prefix_within(query, key, max) <==> exists|k: int, path: Seq<Seq<char>>|
            0 <= k <= key.len() && path.len() <= max + 1 && #[trigger] is_path(
                path,
                key.take(k),
                query,
            ),
{
    if prefix_within(query, key, max) {
        let k = choose|k: int|
            0 <= k <= key.len() && #[trigger] edit_distance(key.take(k), query) <= max;
        let path = lemma_path_exists(key.take(k), query);
        assert(is_path(path, key.take(k), query));
    }
    if exists|k: int, path: Seq<Seq<char>>|
        0 <= k <= key.len() && path.len() <= max + 1 && #[trigger] is_path(
            path,
            key.take(k),
            query,
        ) {
        let (k, path) = choose|k: int, path: Seq<Seq<char>>|
            0 <= k <= key.len() && path.len() <= max + 1 && #[trigger] is_path(
                path,
                key.take(k),
                query,
            );
        law_edit_distance_is_least(key.take(k), query);
        assert(edit_distance(key.take(k), query) <= max);
    }
}

/// Without edits a query is near to a key just where the key starts with it.
pub proof fn law_near_without_edits(query: Seq<char>, key: Seq<char>)
    ensures
        prefix_within(query, key, 0) <==> query.len() <= key.len() && key.take(query.len() as int)
            == query,
{
    if prefix_within(query, key, 0) {
        law_near_is_reached_by_edits(query, key, 0);
        let (k, path) = choose|k: int, path: Seq<Seq<char>>|
            0 <= k <= key.len() && path.len() <= 0int + 1 && #[trigger] is_path(
                path,
                key.take(k),
                query,
            );
        assert(path[0] == path.last());
    }
    if query.len() <= key.len() && key.take(query.len() as int) == query {
        lemma_distance_to_self(query);
        assert(edit_distance(key.take(query.len() as int), query) <= 0);
    }
}

/// One more slip of the finger costs one more edit: a query one edit away from one that is
/// near to a key is near to it with one edit more.
pub proof fn law_one_more_edit(query: Seq<char>, other: Seq<char>, key: Seq<char>, max: int)
    requires
        prefix_within(query, key, max),
        one_edit(query, other),
    ensures
        prefix_within(other, key, max + 1),
{
    law_near_is_reached_by_edits(query, key, max);
    law_near_is_reached_by_edits(other, key, max + 1);
    let (k, path) = choose|k: int, path: Seq<Seq<char>>|
        0 <= k <= key.len() && path.len() <= max + 1 && #[trigger] is_path(
            path,
            key.take(k),
            query,
        );
    lemma_path_push(path, key.take(k), query, other);
    assert(is_path(path.push(other), key.take(k), other));
}

/// And no less: what is near with one edit more is one edit away from what is near, or is
/// near itself.
pub proof fn law_last_edit_can_be_undone(query: Seq<char>, key: Seq<char>, max: int)
    requires
        0 <= max,
        prefix_within(query, key, max + 1),
    ensures
        prefix_within(query, key, max) || exists|other: Seq<char>| #[trigger]
            prefix_within(other, key, max) && one_edit(other, query),
{
    law_near_is_reached_by_edits(query, key, max + 1);
    law_near_is_reached_by_edits(query, key, max);
    let (k, path) = choose|k: int, path: Seq<Seq<char>>|
        0 <= k <= key.len() && path.len() <= max + 1 + 1 && #[trigger] is_path(
            path,
            key.take(k),
            query,
        );
    if path.len() <= max + 1 {
        assert(is_path(path, key.take(k), query));
    } else {
        let front = path.drop_last();
        let other = front.last();
        assert forall|m: int| 0 <= m < front.len() - 1 implies #[trigger] one_edit(
            front[m],
            front[m + 1],
        ) by {
            assert(one_edit(path[m], path[m + 1]));
        }
        assert(is_path(front, key.take(k), other));
        law_near_is_reached_by_edits(other, key, max);
        assert(one_edit(path[path.len() - 2], path[path.len() - 2 + 1]));
        assert(prefix_within(other, key, max));
    }
}

} // verus!
