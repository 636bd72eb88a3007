//! Orders, and sorting by them.
use vstd::prelude::*;
use vstd::seq_lib::lemma_multiset_commutative;

verus! {

/// Where one value stands to another.
#[derive(Debug, Clone, Copy, PartialEq, Eq, Structural)]
pub enum Place {
    Before,
    Same,
    After,
}

/// The lexicographic order on byte strings: the first byte that differs decides, and a
/// proper prefix comes first.
pub open spec fn bytes_before(a: Seq<u8>, b: Seq<u8>) -> bool
    decreases a.len(),
{
    if b.len() == 0 {
        false
    } else if a.len() == 0 {
        true
    } else if a[0] != b[0] {
        a[0] < b[0]
    } else {
        bytes_before(a.drop_first(), b.drop_first())
    }
}

/// No byte string comes before itself.
pub proof fn lemma_bytes_irreflexive(a: Seq<u8>)
    ensures
        !bytes_before(a, a),
    decreases a.len(),
{
    if a.len() > 0 {
        lemma_bytes_irreflexive(a.drop_first());
    }
}

/// What comes before a string that comes before a third comes before the third.
pub proof fn lemma_bytes_transitive(a: Seq<u8>, b: Seq<u8>, c: Seq<u8>)
    requires
        bytes_before(a, b),
        bytes_before(b, c),
    ensures
        bytes_before(a, c),
    decreases a.len(),
{
    if a.len() > 0 && a[0] == b[0] && b[0] == c[0] {
        lemma_bytes_transitive(a.drop_first(), b.drop_first(), c.drop_first());
    }
}

/// Of two different byte strings one comes before the other.
pub proof fn lemma_bytes_total(a: Seq<u8>, b: Seq<u8>)
    ensures
        a == b || bytes_before(a, b) || bytes_before(b, a),
    decreases a.len(),
{
    if a.len() > 0 && b.len() > 0 {
        if a[0] == b[0] {
            lemma_bytes_total(a.drop_first(), b.drop_first());
            if a.drop_first() == b.drop_first() {
                assert(a =~= seq![a[0]] + a.drop_first());
                assert(b =~= seq![b[0]] + b.drop_first());
            }
        }
    } else if a.len() == 0 && b.len() == 0 {
        assert(a =~= b);
    }
}

/// What it is to come before: up to some place the two strings agree, and there the one ends
/// and the other goes on, or has the smaller byte.
pub proof fn law_bytes_before(a: Seq<u8>, b: Seq<u8>)
    ensures
        bytes_before(a, b) <==> exists|k: int|
            0 <= k < b.len() && k <= a.len() && #[trigger] a.take(k) == b.take(k) && (k == a.len()
                || a[k] < b[k]),
    decreases a.len(),
{
    if b.len() > 0 {
        assert(a.take(0) =~= b.take(0));
        if a.len() > 0 && a[0] == b[0] {
            let x = a.drop_first();
            let y = b.drop_first();
            law_bytes_before(x, y);
            if bytes_before(a, b) {
                let k = choose|k: int|
                    0 <= k < y.len() && k <= x.len() && #[trigger] x.take(k) == y.take(k) && (k
                        == x.len() || x[k] < y[k]);
                assert(a.take(k + 1) =~= seq![a[0]] + x.take(k));
                assert(b.take(k + 1) =~= seq![b[0]] + y.take(k));
            }
            if exists|k: int|
                0 <= k < b.len() && k <= a.len() && #[trigger] a.take(k) == b.take(k) && (k
                    == a.len() || a[k] < b[k]) {
                let k = choose|k: int|
                    0 <= k < b.len() && k <= a.len() && #[trigger] a.take(k) == b.take(k) && (k
                        == a.len() || a[k] < b[k]);
                assert(x.take(k - 1) =~= a.take(k).drop_first());
                assert(y.take(k - 1) =~= b.take(k).drop_first());
            }
        } else if a.len() > 0 {
            assert forall|k: int|
                0 <= k < b.len() && k <= a.len() && #[trigger] a.take(k) == b.take(k) implies k
                == 0 by {
                if k > 0 {
                    assert(a.take(k)[0] == b.take(k)[0]);
                }
            }
        }
    }
}

/// Where byte string `a` stands to byte string `b`.
pub fn place_bytes(a: &[u8], b: &[u8]) -> (p: Place)
    ensures
        p == Place::Before <==> bytes_before(a@, b@),
        p == Place::Same <==> a@ == b@,
        p == Place::After <==> bytes_before(b@, a@),
{
    let mut i: usize = 0;
    proof {
        assert(a@.skip(0) =~= a@);
        assert(b@.skip(0) =~= b@);
        lemma_bytes_irreflexive(a@);
    }
    while i < a.len() && i < b.len()
        invariant
            i <= a@.len(),
            i <= b@.len(),
            a@.take(i as int) == b@.take(i as int),
            bytes_before(a@, b@) == bytes_before(a@.skip(i as int), b@.skip(i as int)),
            bytes_before(b@, a@) == bytes_before(b@.skip(i as int), a@.skip(i as int)),
        decreases a@.len() - i,
    {
        let ghost x = a@.skip(i as int);
        let ghost y = b@.skip(i as int);
        if a[i] < b[i] {
            assert(a@ != b@);
            return Place::Before;
        }
        if b[i] < a[i] {
            assert(a@ != b@);
            return Place::After;
        }
        proof {
            assert(x.drop_first() =~= a@.skip(i + 1));
            assert(y.drop_first() =~= b@.skip(i + 1));
            assert(a@.take(i + 1) =~= a@.take(i as int).push(a@[i as int]));
            assert(b@.take(i + 1) =~= b@.take(i as int).push(b@[i as int]));
        }
        i += 1;
    }
    if i < b.len() {
        Place::Before
    } else if i < a.len() {
        Place::After
    } else {
        assert(a@.take(i as int) =~= a@);
        assert(b@.take(i as int) =~= b@);
        Place::Same
    }
}

/// A type whose values can be lined up.
pub trait Sortable: Sized {
    /// Whether `self` may stand in front of `other`.
    spec fn leads(self, other: Self) -> bool;

    /// Of any two values one may stand in front of the other.
    proof fn law_total(a: Self, b: Self)
        ensures
            a.leads(b) || b.leads(a),
    ;

    /// Being in front carries over.
    proof fn law_transitive(a: Self, b: Self, c: Self)
        requires
            a.leads(b),
            b.leads(c),
        ensures
            a.leads(c),
    ;

    /// Whether `self` may stand in front of `other`.
    fn may_lead(&self, other: &Self) -> (r: bool)
        ensures
            r == self.leads(*other),
    ;
}

/// Whether `a` may stand in front of `b`, read backwards where `backwards` says so.
spec fn leads_in<T: Sortable>(a: T, b: T, backwards: bool) -> bool {
    if backwards {
        b.leads(a)
    } else {
        a.leads(b)
    }
}

/// Whether a sequence is lined up, read backwards where `backwards` says so.
spec fn lined_up_in<T: Sortable>(s: Seq<T>, backwards: bool) -> bool {
    forall|i: int, j: int| 0 <= i < j < s.len()
        ==> leads_in(#[trigger] s[i], #[trigger] s[j], backwards)
}

/// Whether every value of a sequence may stand in front of every later one.
pub open spec fn lined_up<T: Sortable>(s: Seq<T>) -> bool {
    forall|i: int, j: int| 0 <= i < j < s.len() ==> (#[trigger] s[i]).leads(#[trigger] s[j])
}

/// Merges two sequences that are lined up the other way round, taking from their ends.
fn merge<T: Sortable>(a: Vec<T>, b: Vec<T>, backwards: bool) -> (r: Vec<T>)
    requires
        lined_up_in(a@, !backwards),
        lined_up_in(b@, !backwards),
    ensures
        lined_up_in(r@, backwards),
        r@.to_multiset() == a@.to_multiset().add(b@.to_multiset()),
{
    let ghost whole = a@.to_multiset().add(b@.to_multiset());
    let mut a = a;
    let mut b = b;
    let mut r: Vec<T> = Vec::new();
    proof {
        assert(r@ =~= Seq::<T>::empty());
        r@.to_multiset_ensures();
        assert(r@.to_multiset().add(whole) =~= whole);
    }
    loop
        invariant
            lined_up_in(a@, !backwards),
            lined_up_in(b@, !backwards),
            lined_up_in(r@, backwards),
            forall|i: int, j: int|
                0 <= i < r@.len() && 0 <= j < a@.len() ==> leads_in(
                    #[trigger] r@[i],
                    #[trigger] a@[j],
                    backwards,
                ),
            forall|i: int, j: int|
                0 <= i < r@.len() && 0 <= j < b@.len() ==> leads_in(
                    #[trigger] r@[i],
                    #[trigger] b@[j],
                    backwards,
                ),
            r@.to_multiset().add(a@.to_multiset().add(b@.to_multiset())) == whole,
        ensures
            a@.len() == 0,
            b@.len() == 0,
        decreases a@.len() + b@.len(),
    {
        let ghost a0 = a@;
        let ghost b0 = b@;
        let ghost r0 = r@;
        if a.len() == 0 && b.len() == 0 {
            break;
        }
        let from_a: bool = if a.len() == 0 {
            false
        } else if b.len() == 0 {
            true
        } else {
            proof {
                T::law_total(a@.last(), b@.last());
            }
            if backwards {
                b[b.len() - 1].may_lead(&a[a.len() - 1])
            } else {
                a[a.len() - 1].may_lead(&b[b.len() - 1])
            }
        };
        if from_a {
            match a.pop() {
                Some(x) => {
                    proof {
                        assert(leads_in(x, x, backwards)) by {
                            T::law_total(x, x);
                        }
                        if b0.len() > 0 {
                            assert(leads_in(x, b0.last(), backwards));
                            assert forall|j: int| 0 <= j < b0.len() implies
                                leads_in(x, #[trigger] b0[j], backwards) by {
                                if j < b0.len() - 1 {
                                    assert(leads_in(b0[j], b0.last(), !backwards));
                                    if backwards {
                                        T::law_transitive(b0[j], b0.last(), x);
                                    } else {
                                        T::law_transitive(x, b0.last(), b0[j]);
                                    }
                                }
                            }
                        }
                        assert(a0 =~= a@.push(x));
                        a@.to_multiset_ensures();
                        r0.to_multiset_ensures();
                    }
                    r.push(x);
                    assert(r@.to_multiset().add(a@.to_multiset().add(b@.to_multiset())) =~= whole);
                },
                None => {},
            }
        } else {
            match b.pop() {
                Some(x) => {
                    proof {
                        if a0.len() > 0 {
                            assert(leads_in(x, a0.last(), backwards));
                            assert forall|j: int| 0 <= j < a0.len() implies
                                leads_in(x, #[trigger] a0[j], backwards) by {
                                if j < a0.len() - 1 {
                                    assert(leads_in(a0[j], a0.last(), !backwards));
                                    if backwards {
                                        T::law_transitive(a0[j], a0.last(), x);
                                    } else {
                                        T::law_transitive(x, a0.last(), a0[j]);
                                    }
                                }
                            }
                        }
                        assert(b0 =~= b@.push(x));
                        b@.to_multiset_ensures();
                        r0.to_multiset_ensures();
                    }
                    r.push(x);
                    assert(r@.to_multiset().add(a@.to_multiset().add(b@.to_multiset())) =~= whole);
                },
                None => {},
            }
        }
    }
    proof {
        a@.to_multiset_ensures();
        b@.to_multiset_ensures();
        assert(a@ =~= Seq::<T>::empty());
        assert(b@ =~= Seq::<T>::empty());
        assert(r@.to_multiset() =~= whole);
    }
    r
}

/// Merge sort; each level lines its halves up the other way round, so that a merge can
/// take from their ends.
fn sort_in<T: Sortable>(v: Vec<T>, backwards: bool) -> (r: Vec<T>)
    ensures
        lined_up_in(r@, backwards),
        r@.to_multiset() == v@.to_multiset(),
    decreases v@.len(),
{
    if v.len() < 2 {
        return v;
    }
    let mut front = v;
    let middle = front.len() / 2;
    let back = front.split_off(middle);
    proof {
        lemma_multiset_commutative(front@, back@);
        assert(v@ =~= front@ + back@);
    }
    let front = sort_in(front, !backwards);
    let back = sort_in(back, !backwards);
    merge(front, back, backwards)
}

/// Lines up the values of a vector.
pub fn sort<T: Sortable>(v: Vec<T>) -> (r: Vec<T>)
    ensures
        lined_up(r@),
        r@.to_multiset() == v@.to_multiset(),
{
    let r = sort_in(v, false);
    assert forall|i: int, j: int| 0 <= i < j < r@.len() implies (#[trigger] r@[i]).leads(
        #[trigger] r@[j],
    ) by {
        assert(leads_in(r@[i], r@[j], false));
    }
    r
}

/// Sequences of the same values, each as often, hold the same values.
pub proof fn lemma_same_values<T>(a: Seq<T>, b: Seq<T>)
    requires
        a.to_multiset() == b.to_multiset(),
    ensures
        a.len() == b.len(),
        forall|x: T| a.contains(x) <==> b.contains(x),
{
    a.to_multiset_ensures();
    b.to_multiset_ensures();
    assert forall|x: T| a.contains(x) <==> b.contains(x) by {
        assert(a.contains(x) <==> a.to_multiset().count(x) > 0);
        assert(b.contains(x) <==> b.to_multiset().count(x) > 0);
    }
}

/// Two sequences in the same strict order that hold the same values are the same.
pub proof fn lemma_strict_order_unique<A>(a: Seq<A>, b: Seq<A>, before: spec_fn(A, A) -> bool)
    requires
        forall|x: A| !#[trigger] before(x, x),
        forall|x: A, y: A, z: A| #[trigger] before(x, y) && #[trigger] before(y, z)
            ==> before(x, z),
        forall|i: int, j: int| 0 <= i < j < a.len() ==> before(#[trigger] a[i], #[trigger] a[j]),
        forall|i: int, j: int| 0 <= i < j < b.len() ==> before(#[trigger] b[i], #[trigger] b[j]),
        forall|x: A| #[trigger] a.contains(x) <==> b.contains(x),
    ensures
        a == b,
    decreases a.len(),
{
    if a.len() == 0 {
        if b.len() > 0 {
            assert(b.contains(b[0]));
            assert(a.contains(b[0]));
        }
        assert(a =~= b);
    } else {
        assert(a.contains(a[0]));
        assert(b.contains(a[0]));
        let k = choose|k: int| 0 <= k < b.len() && b[k] == a[0];
        assert(b.contains(b[0]));
        assert(a.contains(b[0]));
        let m = choose|m: int| 0 <= m < a.len() && a[m] == b[0];
        if k > 0 && m > 0 {
            assert(before(b[0], b[k]));
            assert(before(a[0], a[m]));
            assert(before(a[0], a[0]));
        }
        assert(a[0] == b[0]);
        let x = a.drop_first();
        let y = b.drop_first();
        assert forall|v: A| #[trigger] x.contains(v) <==> y.contains(v) by {
            if x.contains(v) {
                let i = choose|i: int| 0 <= i < x.len() && x[i] == v;
                assert(a[i + 1] == v);
                assert(a.contains(v));
                assert(b.contains(v));
                let j = choose|j: int| 0 <= j < b.len() && b[j] == v;
                assert(before(a[0], a[i + 1]));
                assert(y[j - 1] == v);
            }
            if y.contains(v) {
                let i = choose|i: int| 0 <= i < y.len() && y[i] == v;
                assert(b[i + 1] == v);
                assert(b.contains(v));
                assert(a.contains(v));
                let j = choose|j: int| 0 <= j < a.len() && a[j] == v;
                assert(before(b[0], b[i + 1]));
                assert(x[j - 1] == v);
            }
        }
        lemma_strict_order_unique(x, y, before);
        assert(a =~= seq![a[0]] + x);
        assert(b =~= seq![b[0]] + y);
    }
}

} // verus!
