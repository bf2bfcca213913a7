//! Stable merge sort over ranked values.

use vstd::prelude::*;

verus! {

/// Values that a total preorder ranks.
pub trait Ranked: Sized {
    /// `a` ranks no later than `b`.
    spec fn rank_le(a: Self, b: Self) -> bool;

    /// Any two values can be compared.
    proof fn rank_total(a: Self, b: Self)
        ensures
            Self::rank_le(a, b) || Self::rank_le(b, a),
    ;

    /// The ranking is transitive.
    proof fn rank_transitive(a: Self, b: Self, c: Self)
        requires
            Self::rank_le(a, b),
            Self::rank_le(b, c),
        ensures
            Self::rank_le(a, c),
    ;

    /// Whether `self` ranks no later than `other`.
    fn ranks_no_later(&self, other: &Self) -> (r: bool)
        ensures
            r == Self::rank_le(*self, *other),
    ;

    /// The same value again.
    fn dup(&self) -> (r: Self)
        ensures
            r == *self,
    ;
}

/// Two values hold the same rank.
pub open spec fn same_rank<T: Ranked>(a: T, b: T) -> bool {
    T::rank_le(a, b) && T::rank_le(b, a)
}

/// The values of the rank of `p`, in order.
pub open spec fn rank_run<T: Ranked>(s: Seq<T>, p: T) -> Seq<T> {
    s.filter(|x: T| same_rank(x, p))
}

/// Ranks never decrease along the sequence.
pub open spec fn ranked<T: Ranked>(s: Seq<T>) -> bool {
    forall|i: int, j: int| 0 <= i <= j < s.len() ==> T::rank_le(#[trigger] s[i], #[trigger] s[j])
}

/// `r` is the stable sort of `s`: ranked, the same values, and values of one
/// rank in their old order.
pub open spec fn is_stable_sort<T: Ranked>(r: Seq<T>, s: Seq<T>) -> bool {
    &&& ranked(r)
    &&& r.to_multiset() == s.to_multiset()
    &&& forall|p: T| #[trigger] rank_run(r, p) == rank_run(s, p)
}

proof fn lemma_same_rank_reflexive<T: Ranked>(a: T)
    ensures
        same_rank(a, a),
{
    T::rank_total(a, a);
}

proof fn lemma_run_push<T: Ranked>(s: Seq<T>, x: T, p: T)
    ensures
        rank_run(s.push(x), p) == (if same_rank(x, p) {
            rank_run(s, p).push(x)
        } else {
            rank_run(s, p)
        }),
{
    reveal(Seq::filter);
    assert(s.push(x).drop_last() =~= s);
}

proof fn lemma_run_add<T: Ranked>(a: Seq<T>, b: Seq<T>, p: T)
    ensures
        rank_run(a + b, p) == rank_run(a, p) + rank_run(b, p),
{
    Seq::filter_distributes_over_add(a, b, |x: T| same_rank(x, p));
}

proof fn lemma_run_empty<T: Ranked>(s: Seq<T>, p: T)
    requires
        forall|i: int| 0 <= i < s.len() ==> !same_rank(#[trigger] s[i], p),
    ensures
        rank_run(s, p) == Seq::<T>::empty(),
    decreases s.len(),
{
    reveal(Seq::filter);
    if s.len() > 0 {
        assert forall|i: int| 0 <= i < s.len() - 1 implies !same_rank(
            #[trigger] s.drop_last()[i],
            p,
        ) by {
            assert(s.drop_last()[i] == s[i]);
        }
        lemma_run_empty(s.drop_last(), p);
    }
}

proof fn lemma_run_first<T: Ranked>(s: Seq<T>)
    requires
        s.len() > 0,
    ensures
        rank_run(s, s[0]).len() > 0,
        rank_run(s, s[0])[0] == s[0],
        forall|p: T| #[trigger]
            rank_run(s.drop_first(), p) == (if same_rank(s[0], p) {
                rank_run(s, p).drop_first()
            } else {
                rank_run(s, p)
            }),
{
    let head = seq![s[0]];
    assert(s =~= head + s.drop_first());
    lemma_same_rank_reflexive(s[0]);
    assert forall|p: T| #[trigger] rank_run(s.drop_first(), p) == (if same_rank(s[0], p) {
        rank_run(s, p).drop_first()
    } else {
        rank_run(s, p)
    }) by {
        lemma_run_add(head, s.drop_first(), p);
        lemma_run_push(Seq::<T>::empty(), s[0], p);
        assert(Seq::<T>::empty().push(s[0]) =~= head);
        lemma_run_empty(Seq::<T>::empty(), p);
        assert(rank_run(s, p) == rank_run(head, p) + rank_run(s.drop_first(), p));
        if same_rank(s[0], p) {
            assert(rank_run(head, p) == seq![s[0]]);
            assert(rank_run(s, p).drop_first() =~= rank_run(s.drop_first(), p));
        } else {
            assert(rank_run(s, p) =~= rank_run(s.drop_first(), p));
        }
    }
    lemma_run_add(head, s.drop_first(), s[0]);
    lemma_run_push(Seq::<T>::empty(), s[0], s[0]);
    assert(Seq::<T>::empty().push(s[0]) =~= head);
    lemma_run_empty(Seq::<T>::empty(), s[0]);
    assert(rank_run(head, s[0]) =~= seq![s[0]]);
}

/// A sequence has exactly one stable sort.
pub proof fn law_stable_sort_is_unique<T: Ranked>(a: Seq<T>, b: Seq<T>, s: Seq<T>)
    requires
        is_stable_sort(a, s),
        is_stable_sort(b, s),
    ensures
        a == b,
{
    a.to_multiset_ensures();
    b.to_multiset_ensures();
    lemma_ranked_runs_determine(a, b);
}

proof fn lemma_ranked_runs_determine<T: Ranked>(a: Seq<T>, b: Seq<T>)
    requires
        ranked(a),
        ranked(b),
        a.len() == b.len(),
        forall|p: T| #[trigger] rank_run(a, p) == rank_run(b, p),
    ensures
        a == b,
    decreases a.len(),
{
    if a.len() == 0 {
        assert(a =~= b);
    } else {
        lemma_run_first(a);
        lemma_run_first(b);
        // each head occurs in the other sequence, so the heads hold one rank
        let pa = |x: T| same_rank(x, a[0]);
        let pb = |x: T| same_rank(x, b[0]);
        assert(rank_run(b, a[0]) == rank_run(a, a[0]));
        assert(rank_run(a, b[0]) == rank_run(b, b[0]));
        lemma_run_has_member(b, a[0]);
        lemma_run_has_member(a, b[0]);
        let i = choose|i: int| 0 <= i < b.len() && same_rank(#[trigger] b[i], a[0]);
        let j = choose|j: int| 0 <= j < a.len() && same_rank(#[trigger] a[j], b[0]);
        assert(T::rank_le(b[0], b[i]));
        assert(T::rank_le(a[0], a[j]));
        T::rank_transitive(b[0], b[i], a[0]);
        T::rank_transitive(a[0], a[j], b[0]);
        assert(same_rank(a[0], b[0]));
        lemma_run_same(b, a[0], b[0]);
        assert(a[0] == b[0]);
        let ta = a.drop_first();
        let tb = b.drop_first();
        assert(ranked(ta)) by {
            assert forall|x: int, y: int| 0 <= x <= y < ta.len() implies T::rank_le(
                #[trigger] ta[x],
                #[trigger] ta[y],
            ) by {
                assert(ta[x] == a[x + 1] && ta[y] == a[y + 1]);
            }
        }
        assert(ranked(tb)) by {
            assert forall|x: int, y: int| 0 <= x <= y < tb.len() implies T::rank_le(
                #[trigger] tb[x],
                #[trigger] tb[y],
            ) by {
                assert(tb[x] == b[x + 1] && tb[y] == b[y + 1]);
            }
        }
        lemma_ranked_runs_determine(ta, tb);
        assert(a =~= seq![a[0]] + ta);
        assert(b =~= seq![b[0]] + tb);
    }
}

proof fn lemma_run_has_member<T: Ranked>(s: Seq<T>, p: T)
    requires
        rank_run(s, p).len() > 0,
    ensures
        exists|i: int| 0 <= i < s.len() && same_rank(#[trigger] s[i], p),
{
    if forall|i: int| 0 <= i < s.len() ==> !same_rank(#[trigger] s[i], p) {
        lemma_run_empty(s, p);
    }
}

proof fn lemma_run_same<T: Ranked>(s: Seq<T>, p: T, q: T)
    requires
        same_rank(p, q),
    ensures
        rank_run(s, p) == rank_run(s, q),
    decreases s.len(),
{
    reveal(Seq::filter);
    if s.len() > 0 {
        lemma_run_same(s.drop_last(), p, q);
        let x = s.last();
        if same_rank(x, p) {
            T::rank_transitive(x, p, q);
            T::rank_transitive(q, p, x);
        }
        if same_rank(x, q) {
            T::rank_transitive(x, q, p);
            T::rank_transitive(p, q, x);
        }
    }
}

/// Every sequence has a stable sort.
pub proof fn law_stable_sort_exists<T: Ranked>(s: Seq<T>)
    ensures
        is_stable_sort(sorted_by_rank(s), s),
    decreases s.len(),
{
    if s.len() == 0 {
        assert(is_stable_sort(s, s));
    } else {
        let head = s.drop_last();
        let x = s.last();
        law_stable_sort_exists(head);
        let t = sorted_by_rank(head);
        lemma_insert_sorts(t, head, x);
        assert(s =~= head.push(x));
    }
}

/// `t` with `x` put behind every value that ranks no later.
pub closed spec fn inserted<T: Ranked>(t: Seq<T>, x: T) -> Seq<T> {
    t.take(first_after(t, x)).push(x) + t.skip(first_after(t, x))
}

/// A new value goes behind every value that ranks no later.
pub proof fn lemma_insert_sorts<T: Ranked>(t: Seq<T>, head: Seq<T>, x: T)
    requires
        is_stable_sort(t, head),
    ensures
        is_stable_sort(inserted(t, x), head.push(x)),
{
    let s = head.push(x);
    let p = first_after(t, x);
    lemma_first_after(t, x);
    let left = t.take(p);
    let right = t.skip(p);
    assert(t =~= left + right);
    let r = left.push(x) + right;
    assert forall|i: int, j: int| 0 <= i <= j < r.len() implies T::rank_le(
        #[trigger] r[i],
        #[trigger] r[j],
    ) by {
        if j < p {
            assert(r[i] == t[i] && r[j] == t[j]);
        } else if j == p {
            if i == p {
                T::rank_total(x, x);
            } else {
                assert(r[i] == t[i]);
            }
        } else {
            assert(r[j] == t[j - 1]);
            T::rank_total(x, t[j - 1]);
            if i < p {
                assert(r[i] == t[i]);
            } else if i > p {
                assert(r[i] == t[i - 1]);
            }
        }
    }
    lemma_add_push_left(left, right, x);
    head.to_multiset_ensures();
    assert forall|q: T| #[trigger] rank_run(r, q) == rank_run(s, q) by {
        lemma_run_add(left.push(x), right, q);
        lemma_run_add(left, right, q);
        lemma_run_push(left, x, q);
        lemma_run_push(head, x, q);
        assert(rank_run(t, q) == rank_run(head, q));
        if same_rank(x, q) {
            assert forall|k: int| 0 <= k < right.len() implies !same_rank(
                #[trigger] right[k],
                q,
            ) by {
                assert(right[k] == t[p + k]);
                if same_rank(right[k], q) {
                    T::rank_transitive(right[k], q, x);
                }
            }
            lemma_run_empty(right, q);
            assert(rank_run(r, q) =~= rank_run(s, q));
        }
    }
    assert(is_stable_sort(r, s));
}

/// The stable sort of a sequence.
pub open spec fn sorted_by_rank<T: Ranked>(s: Seq<T>) -> Seq<T> {
    choose|r: Seq<T>| #[trigger] is_stable_sort(r, s)
}

/// A stable sort of a sequence is its stable sort.
pub proof fn lemma_sorted_by_rank<T: Ranked>(r: Seq<T>, s: Seq<T>)
    requires
        is_stable_sort(r, s),
    ensures
        r == sorted_by_rank(s),
{
    law_stable_sort_is_unique(r, sorted_by_rank(s), s);
}

/// Index of the first value that ranks strictly after `x`.
spec fn first_after<T: Ranked>(s: Seq<T>, x: T) -> int
    decreases s.len(),
{
    if s.len() == 0 {
        0
    } else if T::rank_le(s.last(), x) {
        s.len() as int
    } else {
        first_after(s.drop_last(), x)
    }
}

proof fn lemma_first_after<T: Ranked>(s: Seq<T>, x: T)
    requires
        ranked(s),
    ensures
        0 <= first_after(s, x) <= s.len(),
        forall|i: int| 0 <= i < first_after(s, x) ==> T::rank_le(#[trigger] s[i], x),
        forall|i: int| first_after(s, x) <= i < s.len() ==> !T::rank_le(#[trigger] s[i], x),
    decreases s.len(),
{
    if s.len() > 0 {
        let head = s.drop_last();
        assert(ranked(head)) by {
            assert forall|i: int, j: int| 0 <= i <= j < head.len() implies T::rank_le(
                #[trigger] head[i],
                #[trigger] head[j],
            ) by {
                assert(head[i] == s[i] && head[j] == s[j]);
            }
        }
        lemma_first_after(head, x);
        if T::rank_le(s.last(), x) {
            assert forall|i: int| 0 <= i < s.len() implies T::rank_le(#[trigger] s[i], x) by {
                assert(T::rank_le(s[i], s[s.len() - 1]));
                T::rank_transitive(s[i], s.last(), x);
            }
        } else {
            assert forall|i: int| 0 <= i < first_after(s, x) implies T::rank_le(
                #[trigger] s[i],
                x,
            ) by {
                assert(head[i] == s[i]);
            }
            assert forall|i: int| first_after(s, x) <= i < s.len() implies !T::rank_le(
                #[trigger] s[i],
                x,
            ) by {
                if i < head.len() {
                    assert(head[i] == s[i]);
                }
            }
        }
    }
}

/// At most the first `n` values.
pub open spec fn first_of<T>(s: Seq<T>, n: int) -> Seq<T> {
    if n < s.len() {
        s.take(n)
    } else {
        s
    }
}

/// The front of a sorted sequence after one more value depends on its front
/// alone.
pub proof fn lemma_front_after_push<T: Ranked>(a: Seq<T>, b: Seq<T>, x: T, n: int)
    requires
        n >= 0,
        first_of(sorted_by_rank(a), n) == first_of(sorted_by_rank(b), n),
    ensures
        first_of(sorted_by_rank(a.push(x)), n) == first_of(sorted_by_rank(b.push(x)), n),
{
    law_stable_sort_exists(a);
    law_stable_sort_exists(b);
    let ta = sorted_by_rank(a);
    let tb = sorted_by_rank(b);
    lemma_insert_sorts(ta, a, x);
    lemma_insert_sorts(tb, b, x);
    lemma_sorted_by_rank(inserted(ta, x), a.push(x));
    lemma_sorted_by_rank(inserted(tb, x), b.push(x));
    lemma_first_after(ta, x);
    lemma_first_after(tb, x);
    let pa = first_after(ta, x);
    let pb = first_after(tb, x);
    let ra = inserted(ta, x);
    let rb = inserted(tb, x);
    if ta.len() < n || tb.len() < n {
        assert(ta =~= tb);
    } else {
        assert forall|i: int| 0 <= i < n implies ta[i] == tb[i] by {
            assert(first_of(ta, n)[i] == ta[i]);
            assert(first_of(tb, n)[i] == tb[i]);
        }
        if pa < n {
            assert(ta[pa] == tb[pa]);
            if pb < pa {
                assert(ta[pb] == tb[pb]);
            }
        } else if pb < n {
            assert(ta[pb] == tb[pb]);
        }
        assert forall|i: int| 0 <= i < n implies ra[i] == rb[i] by {
            if i < pa {
                assert(ra[i] == ta[i]);
            } else if i > pa {
                assert(ra[i] == ta[i - 1]);
            }
            if i < pb {
                assert(rb[i] == tb[i]);
            } else if i > pb {
                assert(rb[i] == tb[i - 1]);
            }
        }
        assert(first_of(ra, n) =~= first_of(rb, n));
    }
}

/// Values that are already ranked stay as they are.
pub proof fn lemma_ranked_is_sorted<T: Ranked>(s: Seq<T>)
    requires
        ranked(s),
    ensures
        sorted_by_rank(s) == s,
{
    assert(is_stable_sort(s, s));
    lemma_sorted_by_rank(s, s);
}

/// Merge two ranked vectors, taking from `a` where ranks are equal.
fn merge<T: Ranked>(a: &Vec<T>, b: &Vec<T>) -> (r: Vec<T>)
    requires
        ranked(a@),
        ranked(b@),
    ensures
        is_stable_sort(r@, a@ + b@),
{
    let mut r: Vec<T> = Vec::new();
    let mut i: usize = 0;
    let mut j: usize = 0;
    proof {
        assert(a@.take(0) + b@.take(0) =~= Seq::<T>::empty());
        assert(r@ =~= Seq::<T>::empty());
        assert forall|p: T| #[trigger] rank_run(r@, p) == rank_run(a@.take(0), p) + rank_run(
            b@.take(0),
            p,
        ) by {
            lemma_run_add(a@.take(0), b@.take(0), p);
        }
    }
    while i < a.len() || j < b.len()
        invariant
            i <= a@.len(),
            j <= b@.len(),
            ranked(a@),
            ranked(b@),
            ranked(r@),
            r@.to_multiset() == (a@.take(i as int) + b@.take(j as int)).to_multiset(),
            forall|p: T| #[trigger]
                rank_run(r@, p) == rank_run(a@.take(i as int), p) + rank_run(
                    b@.take(j as int),
                    p,
                ),
            forall|x: int, y: int|
                0 <= x < r@.len() && i <= y < a@.len() ==> T::rank_le(
                    #[trigger] r@[x],
                    #[trigger] a@[y],
                ),
            forall|x: int, y: int|
                0 <= x < r@.len() && j <= y < b@.len() ==> T::rank_le(
                    #[trigger] r@[x],
                    #[trigger] b@[y],
                ),
            forall|x: int, y: int|
                0 <= x < j && i <= y < a@.len() ==> !T::rank_le(
                    #[trigger] a@[y],
                    #[trigger] b@[x],
                ),
        decreases a@.len() + b@.len() - i - j,
    {
        let from_a: bool = if i >= a.len() {
            false
        } else if j >= b.len() {
            true
        } else {
            a[i].ranks_no_later(&b[j])
        };
        let ghost before = r@;
        let ghost done = a@.take(i as int) + b@.take(j as int);
        if from_a {
            let x = a[i].dup();
            r.push(x);
            proof {
                assert(a@.take(i + 1) =~= a@.take(i as int).push(a@[i as int]));
                lemma_add_push_left(a@.take(i as int), b@.take(j as int), a@[i as int]);
                before.to_multiset_ensures();
                assert forall|p: T| #[trigger] rank_run(r@, p) == rank_run(a@.take(i + 1), p)
                    + rank_run(b@.take(j as int), p) by {
                    lemma_run_push(before, x, p);
                    lemma_run_push(a@.take(i as int), x, p);
                    assert(rank_run(before, p) == rank_run(a@.take(i as int), p) + rank_run(
                        b@.take(j as int),
                        p,
                    ));
                    if same_rank(x, p) {
                        assert forall|k: int| 0 <= k < j implies !same_rank(
                            #[trigger] b@.take(j as int)[k],
                            p,
                        ) by {
                            assert(b@.take(j as int)[k] == b@[k]);
                            assert(!T::rank_le(a@[i as int], b@[k]));
                            if same_rank(b@[k], p) {
                                T::rank_transitive(x, p, b@[k]);
                            }
                        }
                        lemma_run_empty(b@.take(j as int), p);
                        assert(rank_run(r@, p) =~= rank_run(a@.take(i + 1), p) + rank_run(
                            b@.take(j as int),
                            p,
                        ));
                    }
                }
                assert forall|y: int| j <= y < b@.len() implies T::rank_le(
                    x,
                    #[trigger] b@[y],
                ) by {
                    T::rank_total(b@[j as int], b@[y]);
                    assert(T::rank_le(b@[j as int], b@[y]));
                    T::rank_transitive(x, b@[j as int], b@[y]);
                }
                assert forall|u: int, v: int| 0 <= u <= v < r@.len() implies T::rank_le(
                    #[trigger] r@[u],
                    #[trigger] r@[v],
                ) by {
                    if v == before.len() {
                        if u == v {
                            T::rank_total(x, x);
                        } else {
                            assert(T::rank_le(before[u], a@[i as int]));
                        }
                    } else {
                        assert(T::rank_le(before[u], before[v]));
                    }
                }
            }
            i += 1;
        } else {
            let x = b[j].dup();
            r.push(x);
            proof {
                assert(b@.take(j + 1) =~= b@.take(j as int).push(b@[j as int]));
                assert(a@.take(i as int) + b@.take(j + 1) =~= done.push(x));
                before.to_multiset_ensures();
                done.to_multiset_ensures();
                assert forall|p: T| #[trigger] rank_run(r@, p) == rank_run(a@.take(i as int), p)
                    + rank_run(b@.take(j + 1), p) by {
                    lemma_run_push(before, x, p);
                    lemma_run_push(b@.take(j as int), x, p);
                    assert(rank_run(before, p) == rank_run(a@.take(i as int), p) + rank_run(
                        b@.take(j as int),
                        p,
                    ));
                    assert(rank_run(r@, p) =~= rank_run(a@.take(i as int), p) + rank_run(
                        b@.take(j + 1),
                        p,
                    ));
                }
                assert forall|y: int| i <= y < a@.len() implies T::rank_le(
                    x,
                    #[trigger] a@[y],
                ) && !T::rank_le(a@[y], x) by {
                    T::rank_total(a@[i as int], x);
                    assert(T::rank_le(a@[i as int], a@[y]));
                    T::rank_transitive(x, a@[i as int], a@[y]);
                    if T::rank_le(a@[y], x) {
                        T::rank_transitive(a@[i as int], a@[y], x);
                    }
                }
                assert forall|u: int, v: int| 0 <= u <= v < r@.len() implies T::rank_le(
                    #[trigger] r@[u],
                    #[trigger] r@[v],
                ) by {
                    if v == before.len() {
                        if u == v {
                            T::rank_total(x, x);
                        } else {
                            assert(T::rank_le(before[u], b@[j as int]));
                        }
                    } else {
                        assert(T::rank_le(before[u], before[v]));
                    }
                }
            }
            j += 1;
        }
    }
    proof {
        assert(a@.take(a@.len() as int) =~= a@);
        assert(b@.take(b@.len() as int) =~= b@);
        assert forall|p: T| #[trigger] rank_run(r@, p) == rank_run(a@ + b@, p) by {
            lemma_run_add(a@, b@, p);
        }
    }
    r
}

proof fn lemma_add_push_left<T>(a: Seq<T>, b: Seq<T>, x: T)
    ensures
        (a.push(x) + b).to_multiset() == (a + b).to_multiset().insert(x),
{
    vstd::seq_lib::lemma_multiset_commutative(a.push(x), b);
    vstd::seq_lib::lemma_multiset_commutative(a, b);
    a.to_multiset_ensures();
    assert((a.push(x) + b).to_multiset() =~= (a + b).to_multiset().insert(x));
}

fn sort_range<T: Ranked>(v: &Vec<T>, lo: usize, hi: usize) -> (r: Vec<T>)
    requires
        lo <= hi <= v@.len(),
    ensures
        is_stable_sort(r@, v@.subrange(lo as int, hi as int)),
    decreases hi - lo,
{
    if hi - lo <= 1 {
        let mut r: Vec<T> = Vec::new();
        if hi - lo == 1 {
            r.push(v[lo].dup());
        }
        proof {
            assert(r@ =~= v@.subrange(lo as int, hi as int));
            if r@.len() == 1 {
                T::rank_total(r@[0], r@[0]);
            }
        }
        return r;
    }
    let mid: usize = lo + (hi - lo) / 2;
    let left = sort_range(v, lo, mid);
    let right = sort_range(v, mid, hi);
    let r = merge(&left, &right);
    proof {
        let s1 = v@.subrange(lo as int, mid as int);
        let s2 = v@.subrange(mid as int, hi as int);
        assert(v@.subrange(lo as int, hi as int) =~= s1 + s2);
        vstd::seq_lib::lemma_multiset_commutative(left@, right@);
        vstd::seq_lib::lemma_multiset_commutative(s1, s2);
        assert forall|p: T| #[trigger] rank_run(r@, p) == rank_run(s1 + s2, p) by {
            lemma_run_add(left@, right@, p);
            lemma_run_add(s1, s2, p);
            assert(rank_run(left@, p) == rank_run(s1, p));
            assert(rank_run(right@, p) == rank_run(s2, p));
        }
    }
    r
}

/// The stable sort of `v`.
pub fn stable_sort<T: Ranked>(v: &Vec<T>) -> (r: Vec<T>)
    ensures
        is_stable_sort(r@, v@),
        r@ == sorted_by_rank(v@),
{
    assert(v@.subrange(0, v@.len() as int) =~= v@);
    let r = sort_range(v, 0, v.len());
    proof {
        lemma_sorted_by_rank(r@, v@);
    }
    r
}

/// Sorting keeps every value as often as it was there, puts ranks in ascending
/// order, and keeps the order of values of one rank.
pub proof fn law_sort_moves_values_only<T: Ranked>(v: Vec<T>, r: Vec<T>, p: T)
    requires
        call_ensures(stable_sort::<T>, (&v,), r),
    ensures
        r@.len() == v@.len(),
        r@.to_multiset() == v@.to_multiset(),
        forall|i: int, j: int|
            0 <= i <= j < r@.len() ==> T::rank_le(#[trigger] r@[i], #[trigger] r@[j]),
        r@.filter(|x: T| T::rank_le(x, p) && T::rank_le(p, x)) == v@.filter(
            |x: T| T::rank_le(x, p) && T::rank_le(p, x),
        ),
{
    r@.to_multiset_ensures();
    v@.to_multiset_ensures();
    let run = |x: T| T::rank_le(x, p) && T::rank_le(p, x);
    lemma_same_filter(r@, |x: T| same_rank(x, p), run);
    lemma_same_filter(v@, |x: T| same_rank(x, p), run);
    assert(rank_run(r@, p) == rank_run(v@, p));
}

proof fn lemma_same_filter<T>(s: Seq<T>, f: spec_fn(T) -> bool, g: spec_fn(T) -> bool)
    requires
        forall|x: T| #[trigger] f(x) == g(x),
    ensures
        s.filter(f) == s.filter(g),
    decreases s.len(),
{
    reveal(Seq::filter);
    if s.len() > 0 {
        lemma_same_filter(s.drop_last(), f, g);
        assert(f(s.last()) == g(s.last()));
    }
}

} // verus!
