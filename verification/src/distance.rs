//! How far a typed query is from the keys of the index.
use vstd::prelude::*;

use crate::edits::{is_path, law_near_is_reached_by_edits};
use crate::text::chars_of;

verus! {

/// The smaller of two numbers.
pub open spec fn smaller(a: nat, b: nat) -> nat {
    if a <= b {
        a
    } else {
        b
    }
}

/// The Levenshtein distance: how many characters have to be inserted, deleted or
/// replaced, at least, to turn `a` into `b`.
pub open spec fn edit_distance(a: Seq<char>, b: Seq<char>) -> nat
    decreases a.len() + b.len(),
{
    if a.len() == 0 {
        b.len()
    } else if b.len() == 0 {
        a.len()
    } else {
        let replace = edit_distance(a.drop_last(), b.drop_last()) + if a.last() == b.last() {
            0nat
        } else {
            1nat
        };
        let delete = edit_distance(a.drop_last(), b) + 1;
        let insert = edit_distance(a, b.drop_last()) + 1;
        smaller(replace, smaller(delete, insert))
    }
}

/// Whether some prefix of `key` is at most `max` edits away from the whole `query`.
pub open spec fn prefix_within(query: Seq<char>, key: Seq<char>, max: int) -> bool {
    exists|k: int|
        0 <= k <= key.len() && #[trigger] edit_distance(key.take(k), query) <= max
}

/// The distance between the first `k` characters of `key` and the first `j` of `query`.
spec fn cell(query: Seq<char>, key: Seq<char>, k: int, j: int) -> nat {
    edit_distance(key.take(k), query.take(j))
}

/// What a cell is in terms of its neighbours.
proof fn lemma_cell(query: Seq<char>, key: Seq<char>, k: int, j: int)
    requires
        0 <= k <= key.len(),
        0 <= j <= query.len(),
    ensures
        k == 0 ==> cell(query, key, k, j) == j,
        j == 0 ==> cell(query, key, k, j) == k,
        k > 0 && j > 0 ==> cell(query, key, k, j) == smaller(
            cell(query, key, k - 1, j - 1) + if key[k - 1] == query[j - 1] {
                0nat
            } else {
                1nat
            },
            smaller(cell(query, key, k - 1, j) + 1, cell(query, key, k, j - 1) + 1),
        ),
{
    if k > 0 && j > 0 {
        assert(key.take(k).drop_last() =~= key.take(k - 1));
        assert(query.take(j).drop_last() =~= query.take(j - 1));
    }
}

/// Once every cell of a row is over the budget, so is every cell of every later row.
proof fn lemma_row_over_budget(
    query: Seq<char>,
    key: Seq<char>,
    k: int,
    later: int,
    j: int,
    max: int,
)
    requires
        0 <= k <= later <= key.len(),
        0 <= j <= query.len(),
        forall|i: int| 0 <= i <= query.len() ==> #[trigger] cell(query, key, k, i) > max,
    ensures
        cell(query, key, later, j) > max,
    decreases later - k, j,
{
    if later > k {
        lemma_cell(query, key, later, j);
        lemma_row_over_budget(query, key, k, later - 1, j, max);
        if j > 0 {
            lemma_row_over_budget(query, key, k, later - 1, j - 1, max);
            lemma_row_over_budget(query, key, k, later, j - 1, max);
        } else {
            lemma_cell(query, key, later - 1, j);
        }
    }
}

/// Whether some prefix of `key` is within `max` character edits of the full `query`.
///
/// One row of the distance matrix is kept: the distances between the part of `key` read
/// so far and every prefix of `query`. Distances past the budget are not told apart,
/// and the scan stops at a row that holds no other.
pub fn prefix_edit_distance_le(query: &[char], key: &str, max: u32) -> (within: bool)
    ensures
        within == prefix_within(query@, key@, max as int),
        within <==> exists|k: int, path: Seq<Seq<char>>|
            0 <= k <= key@.len() && path.len() <= max + 1 && #[trigger] is_path(
                path,
                key@.take(k),
                query@,
            ),
{
    proof {
        law_near_is_reached_by_edits(query@, key@, max as int);
    }
    let key_chars = chars_of(key);
    let n = query.len();
    let cap: u64 = max as u64 + 1;
    let ghost q = query@;
    let ghost ks = key@;
    // row[j] is the distance to query[..j], or `cap` where that is larger.
    let mut row: Vec<u64> = Vec::new();
    for j in 0..n
        invariant
            row@.len() == j,
            forall|i: int| 0 <= i < j ==> row@[i] == smaller(i as nat, cap as nat),
    {
        row.push(if (j as u64) < cap { j as u64 } else { cap });
    }
    row.push(if (n as u64) < cap { n as u64 } else { cap });
    let width = row.len();
    proof {
        assert(q.take(n as int) =~= q);
        assert forall|i: int| 0 <= i <= n implies row@[i] == smaller(
            #[trigger] cell(q, ks, 0, i),
            cap as nat,
        ) by {
            lemma_cell(q, ks, 0, i);
        }
    }
    if row[n] <= max as u64 {
        assert(cell(q, ks, 0, n as int) <= max);
        assert(edit_distance(ks.take(0), q) <= max);
        assert(prefix_within(q, ks, max as int));
        return true;
    }
    let mut k: usize = 0;
    while k < key_chars.len()
        invariant
            k <= key_chars@.len(),
            key_chars@ == ks,
            ks == key@,
            n == q.len(),
            q == query@,
            q.take(n as int) == q,
            cap == max + 1,
            row@.len() == n + 1,
            n + 1 == width,
            forall|i: int| 0 <= i <= n ==> row@[i] == smaller(
                #[trigger] cell(q, ks, k as int, i),
                cap as nat,
            ),
            forall|i: int| 0 <= i <= k ==> #[trigger] edit_distance(ks.take(i), q) > max,
        decreases key_chars@.len() - k,
    {
        let c = key_chars[k];
        let mut prev_diag: u64 = row[0];
        let first: u64 = if row[0] < cap { row[0] + 1 } else { cap };
        row.set(0, first);
        let mut row_min: u64 = first;
        proof {
            lemma_cell(q, ks, k as int, 0);
            lemma_cell(q, ks, k + 1, 0);
        }
        let mut j: usize = 1;
        assert(row@[0] == row_min);
        while j < width
            invariant
                1 <= j <= width,
                k < key_chars@.len(),
                c == ks[k as int],
                key_chars@ == ks,
                n == q.len(),
                n == query@.len(),
                q == query@,
                cap == max + 1,
                row@.len() == n + 1,
                n + 1 == width,
                forall|i: int| 0 <= i < j ==> row@[i] == smaller(
                    #[trigger] cell(q, ks, k + 1, i),
                    cap as nat,
                ),
                forall|i: int| j <= i <= n ==> row@[i] == smaller(
                    #[trigger] cell(q, ks, k as int, i),
                    cap as nat,
                ),
                prev_diag == smaller(cell(q, ks, k as int, j - 1), cap as nat),
                forall|i: int| 0 <= i < j ==> row_min <= row@[i],
                exists|i: int| 0 <= i < j && row_min == row@[i],
            decreases width - j,
        {
            let above: u64 = row[j];
            let left: u64 = row[j - 1];
            assert(above == smaller(cell(q, ks, k as int, j as int), cap as nat));
            assert(left == smaller(cell(q, ks, k + 1, j - 1), cap as nat));
            let replace: u64 = if query[j - 1] == c { prev_diag } else { prev_diag + 1 };
            let delete: u64 = above + 1;
            let insert: u64 = left + 1;
            let mut best: u64 = replace;
            if delete < best {
                best = delete;
            }
            if insert < best {
                best = insert;
            }
            if cap < best {
                best = cap;
            }
            proof {
                lemma_cell(q, ks, k + 1, j as int);
            }
            let ghost before = row@;
            row.set(j, best);
            proof {
                let w = choose|i: int| 0 <= i < j && row_min == before[i];
                assert(row@[w] == before[w]);
            }
            prev_diag = above;
            if best < row_min {
                row_min = best;
            }
            assert(row@[j as int] == best);
            j += 1;
        }
        if row[n] <= max as u64 {
            assert(cell(q, ks, k + 1, n as int) <= max);
            assert(edit_distance(ks.take(k + 1), q) <= max);
            proof {
                law_near_is_reached_by_edits(q, ks, max as int);
            }
            return true;
        }
        proof {
            assert(cell(q, ks, k + 1, n as int) > max);
            assert(edit_distance(ks.take(k + 1), q) > max);
        }
        if row_min > max as u64 {
            proof {
                assert forall|i: int| 0 <= i <= q.len() implies #[trigger] cell(q, ks, k + 1, i)
                    > max by {
                    assert(row@[i] >= row_min);
                }
                assert forall|i: int| 0 <= i <= ks.len() implies #[trigger] edit_distance(
                    ks.take(i),
                    q,
                ) > max by {
                    if i > k {
                        lemma_row_over_budget(q, ks, k + 1, i, n as int, max as int);
                    }
                }
                law_near_is_reached_by_edits(q, ks, max as int);
            }
            return false;
        }
        k += 1;
    }
    false
}

} // verus!
