//! Sorting by rank.
//!
//! A rank is a sequence of numbers, and ranks are compared like words in a
//! dictionary. Sorting is stable, and where no two elements share a rank its
//! result depends on the elements alone, not on the order they came in.

use vstd::prelude::*;

verus! {

/// `a` comes strictly before `b` in dictionary order.
pub open spec fn precedes(a: Seq<int>, b: Seq<int>) -> bool
    decreases a.len(),
{
    if b.len() == 0 {
        false
    } else if a.len() == 0 {
        true
    } else if a[0] != b[0] {
        a[0] < b[0]
    } else {
        precedes(a.drop_first(), b.drop_first())
    }
}

/// The code points of a text, as a rank.
pub open spec fn codes(s: Seq<char>) -> Seq<int> {
    s.map_values(|c: char| c as int)
}

/// `x` put behind the last element that it does not precede.
pub open spec fn inserted<T>(s: Seq<T>, x: T, rank: spec_fn(T) -> Seq<int>) -> Seq<T>
    decreases s.len(),
{
    if s.len() == 0 || !precedes(rank(x), rank(s.last())) {
        s.push(x)
    } else {
        inserted(s.drop_last(), x, rank).push(s.last())
    }
}

/// The elements in the order of their ranks, those of equal rank in the order
/// they came in.
pub open spec fn sorted<T>(s: Seq<T>, rank: spec_fn(T) -> Seq<int>) -> Seq<T>
    decreases s.len(),
{
    if s.len() == 0 {
        s
    } else {
        inserted(sorted(s.drop_last(), rank), s.last(), rank)
    }
}

/// No element precedes an earlier one.
pub open spec fn in_order<T>(s: Seq<T>, rank: spec_fn(T) -> Seq<int>) -> bool {
    forall|i: int, j: int| 0 <= i < j < s.len() ==> !precedes(rank(#[trigger] s[j]), rank(#[trigger] s[i]))
}

/// No two elements share a rank.
pub open spec fn distinct<T>(s: Seq<T>, rank: spec_fn(T) -> Seq<int>) -> bool {
    forall|i: int, j: int| 0 <= i < j < s.len() ==> rank(#[trigger] s[i]) != rank(#[trigger] s[j])
}

/// Something that is sorted by rank.
pub trait Ranked: Sized {
    /// The rank.
    spec fn rank(&self) -> Seq<int>;

    /// True when this comes strictly before the other.
    fn comes_before(&self, other: &Self) -> (yes: bool)
        ensures
            yes == precedes(self.rank(), other.rank()),
    ;
}

/// Compares two texts by their code points.
pub fn text_before(a: &str, b: &str) -> (yes: bool)
    ensures
        yes == precedes(codes(a@), codes(b@)),
{
    let x = crate::text::characters(a);
    let y = crate::text::characters(b);
    let mut i: usize = 0;
    assert(codes(x@).subrange(0, x@.len() as int) =~= codes(x@));
    assert(codes(y@).subrange(0, y@.len() as int) =~= codes(y@));
    while i < x.len() && i < y.len()
        invariant
            x@ == a@,
            y@ == b@,
            i <= x@.len(),
            i <= y@.len(),
            precedes(codes(a@), codes(b@)) == precedes(
                codes(x@).subrange(i as int, x@.len() as int),
                codes(y@).subrange(i as int, y@.len() as int),
            ),
        decreases x@.len() - i,
    {
        proof {
            let p = codes(x@).subrange(i as int, x@.len() as int);
            let q = codes(y@).subrange(i as int, y@.len() as int);
            assert(p.drop_first() =~= codes(x@).subrange(i + 1, x@.len() as int));
            assert(q.drop_first() =~= codes(y@).subrange(i + 1, y@.len() as int));
            assert(p[0] == x@[i as int] as int);
            assert(q[0] == y@[i as int] as int);
        }
        let c: char = x[i];
        let d: char = y[i];
        if c != d {
            return c < d;
        }
        i = i + 1;
    }
    i < y.len()
}

/// Sorts by rank.
pub fn sort<T: Ranked>(v: &mut Vec<T>)
    ensures
        final(v)@ == sorted(old(v)@, |t: T| t.rank()),
{
    let ghost all = v@;
    let ghost rank = |t: T| t.rank();
    let mut out: Vec<T> = Vec::new();
    let ghost mut done: int = 0;
    assert(all.subrange(0, 0) =~= Seq::empty());
    assert(all.subrange(0, all.len() as int) =~= all);
    while v.len() > 0
        invariant
            0 <= done <= all.len(),
            v@ == all.subrange(done, all.len() as int),
            rank == (|t: T| t.rank()),
            out@ == sorted(all.subrange(0, done), rank),
        decreases v@.len(),
    {
        let x: T = v.remove(0);
        proof {
            assert(x == all[done]);
            assert(v@ =~= all.subrange(done + 1, all.len() as int));
            assert(all.subrange(0, done + 1).drop_last() =~= all.subrange(0, done));
            assert(all.subrange(0, done + 1).last() == x);
        }
        let mut at: usize = out.len();
        let ghost before = out@;
        assert(before.subrange(at as int, before.len() as int) =~= Seq::empty());
        assert(before.subrange(0, at as int) =~= before);
        assert(inserted(before, x, rank) + Seq::<T>::empty() =~= inserted(before, x, rank));
        while at > 0 && x.comes_before(&out[at - 1])
            invariant
                at <= out@.len(),
                out@ == before,
                rank == (|t: T| t.rank()),
                inserted(before, x, rank) == inserted(before.subrange(0, at as int), x, rank) + before.subrange(
                    at as int,
                    before.len() as int,
                ),
            decreases at,
        {
            proof {
                let front = before.subrange(0, at as int);
                assert(front.drop_last() =~= before.subrange(0, at - 1));
                assert(front.last() == before[at - 1]);
                assert(before.subrange(at - 1, before.len() as int) =~= seq![before[at - 1]] + before.subrange(
                    at as int,
                    before.len() as int,
                ));
                assert(inserted(front.drop_last(), x, rank).push(front.last()) + before.subrange(
                    at as int,
                    before.len() as int,
                ) =~= inserted(front.drop_last(), x, rank) + before.subrange(at - 1, before.len() as int));
            }
            at = at - 1;
        }
        out.insert(at, x);
        proof {
            let front = before.subrange(0, at as int);
            assert(at > 0 ==> front.last() == before[at - 1]);
            assert(out@ =~= front.push(x) + before.subrange(at as int, before.len() as int));
            done = done + 1;
        }
    }
    assert(all.subrange(0, done) =~= all);
    *v = out;
}

// ---------------------------------------------------------------------------
// What sorting keeps
// ---------------------------------------------------------------------------

proof fn lemma_total(a: Seq<int>, b: Seq<int>)
    requires
        !precedes(a, b),
        !precedes(b, a),
    ensures
        a == b,
    decreases a.len(),
{
    if a.len() > 0 && b.len() > 0 {
        lemma_total(a.drop_first(), b.drop_first());
        assert(a =~= seq![a[0]] + a.drop_first());
        assert(b =~= seq![b[0]] + b.drop_first());
    } else {
        assert(a =~= b);
    }
}

/// If `a` precedes `b` and `b` precedes `c`, then `a` precedes `c`.
pub proof fn lemma_precedes_chains(a: Seq<int>, b: Seq<int>, c: Seq<int>)
    requires
        precedes(a, b),
        precedes(b, c),
    ensures
        precedes(a, c),
    decreases a.len(),
{
    if a.len() > 0 && b.len() > 0 && c.len() > 0 && a[0] == b[0] && b[0] == c[0] {
        lemma_precedes_chains(a.drop_first(), b.drop_first(), c.drop_first());
    }
}

/// Of two different texts, one precedes the other.
pub proof fn lemma_texts_compare(a: Seq<char>, b: Seq<char>)
    requires
        a != b,
    ensures
        precedes(codes(a), codes(b)) || precedes(codes(b), codes(a)),
{
    if !precedes(codes(a), codes(b)) && !precedes(codes(b), codes(a)) {
        lemma_total(codes(a), codes(b));
        assert(a.len() == codes(a).len());
        assert(b.len() == codes(b).len());
        assert forall|i: int| 0 <= i < a.len() implies a[i] == b[i] by {
            assert(codes(a)[i] == a[i] as int);
            assert(codes(b)[i] == b[i] as int);
        }
        assert(a =~= b);
    }
}

/// No two ranks precede each other.
pub proof fn lemma_precedence_is_one_way(a: Seq<int>, b: Seq<int>)
    requires
        precedes(a, b),
    ensures
        !precedes(b, a),
    decreases a.len(),
{
    if a.len() > 0 && b.len() > 0 && a[0] == b[0] {
        lemma_precedence_is_one_way(a.drop_first(), b.drop_first());
    }
}

/// If `a` does not come after `b`, nor `b` after `c`, then `a` does not come
/// after `c`.
proof fn lemma_chained(a: Seq<int>, b: Seq<int>, c: Seq<int>)
    requires
        !precedes(b, a),
        !precedes(c, b),
    ensures
        !precedes(c, a),
    decreases a.len(),
{
    if a.len() > 0 && b.len() > 0 && c.len() > 0 && a[0] == b[0] && b[0] == c[0] {
        lemma_chained(a.drop_first(), b.drop_first(), c.drop_first());
    }
}

proof fn lemma_inserted<T>(s: Seq<T>, x: T, rank: spec_fn(T) -> Seq<int>)
    requires
        in_order(s, rank),
    ensures
        inserted(s, x, rank).len() == s.len() + 1,
        in_order(inserted(s, x, rank), rank),
        inserted(s, x, rank).to_multiset() == s.to_multiset().insert(x),
        forall|i: int|
            0 <= i <= s.len() ==> #[trigger] inserted(s, x, rank)[i] == x || s.contains(inserted(s, x, rank)[i]),
    decreases s.len(),
{
    broadcast use vstd::seq_lib::group_to_multiset_ensures;

    let out = inserted(s, x, rank);
    if s.len() == 0 || !precedes(rank(x), rank(s.last())) {
        assert forall|i: int, j: int| 0 <= i < j < out.len() implies !precedes(
            rank(#[trigger] out[j]),
            rank(#[trigger] out[i]),
        ) by {
            if j == s.len() {
                if i < s.len() - 1 {
                    assert(!precedes(rank(s[s.len() - 1]), rank(s[i])));
                    lemma_chained(rank(s[i]), rank(s.last()), rank(x));
                }
            }
        }
    } else {
        let front = s.drop_last();
        let part = inserted(front, x, rank);
        lemma_inserted(front, x, rank);
        assert forall|i: int, j: int| 0 <= i < j < out.len() implies !precedes(
            rank(#[trigger] out[j]),
            rank(#[trigger] out[i]),
        ) by {
            if j == s.len() {
                assert(out[i] == part[i]);
                if part[i] == x {
                    lemma_precedence_is_one_way(rank(x), rank(s.last()));
                } else {
                    assert(front.contains(part[i]));
                    let k = choose|k: int| 0 <= k < front.len() && front[k] == part[i];
                    assert(!precedes(rank(s[s.len() - 1]), rank(s[k])));
                }
            } else {
                assert(out[i] == part[i] && out[j] == part[j]);
            }
        }
        assert(s =~= front.push(s.last()));
        assert(out.to_multiset() =~= s.to_multiset().insert(x));
        assert forall|i: int| 0 <= i <= s.len() implies #[trigger] out[i] == x || s.contains(out[i]) by {
            if i < s.len() {
                assert(out[i] == part[i]);
                if part[i] != x {
                    let k = choose|k: int| 0 <= k < front.len() && front[k] == part[i];
                    assert(s[k] == part[i]);
                }
            } else {
                assert(s[s.len() - 1] == out[i]);
            }
        }
    }
}

/// Sorting puts the same elements in order.
pub proof fn lemma_sorted<T>(s: Seq<T>, rank: spec_fn(T) -> Seq<int>)
    ensures
        sorted(s, rank).len() == s.len(),
        in_order(sorted(s, rank), rank),
        sorted(s, rank).to_multiset() == s.to_multiset(),
    decreases s.len(),
{
    broadcast use vstd::seq_lib::group_to_multiset_ensures;

    if s.len() > 0 {
        lemma_sorted(s.drop_last(), rank);
        lemma_inserted(sorted(s.drop_last(), rank), s.last(), rank);
        assert(s =~= s.drop_last().push(s.last()));
    }
}

/// A sequence in order, without ties, is determined by its elements.
proof fn lemma_order_is_unique<T>(a: Seq<T>, b: Seq<T>, rank: spec_fn(T) -> Seq<int>)
    requires
        in_order(a, rank),
        in_order(b, rank),
        distinct(a, rank),
        a.to_multiset() == b.to_multiset(),
    ensures
        a == b,
    decreases a.len(),
{
    broadcast use vstd::seq_lib::group_to_multiset_ensures;

    assert(a.len() == a.to_multiset().len());
    assert(b.len() == b.to_multiset().len());
    if a.len() > 0 {
        let x = a.last();
        let y = b.last();
        assert(a.contains(x));
        assert(b.contains(y));
        assert(a.to_multiset().contains(y));
        assert(a.contains(y));
        assert(b.to_multiset().contains(x));
        assert(b.contains(x));
        let i = choose|i: int| 0 <= i < a.len() && a[i] == y;
        let j = choose|j: int| 0 <= j < b.len() && b[j] == x;
        assert(x == y) by {
            if i < a.len() - 1 {
                assert(!precedes(rank(a[a.len() - 1]), rank(a[i])));
                if j < b.len() - 1 {
                    assert(!precedes(rank(b[b.len() - 1]), rank(b[j])));
                    lemma_total(rank(x), rank(y));
                    assert(rank(a[i]) != rank(a[a.len() - 1]));
                }
            }
        }
        assert(a =~= a.drop_last().push(x));
        assert(b =~= b.drop_last().push(x));
        assert(a.drop_last().to_multiset() =~= a.to_multiset().remove(x));
        assert(b.drop_last().to_multiset() =~= b.to_multiset().remove(x));
        lemma_order_is_unique(a.drop_last(), b.drop_last(), rank);
    } else {
        assert(a =~= b);
    }
}

proof fn lemma_distinct_spreads<T>(a: Seq<T>, b: Seq<T>, rank: spec_fn(T) -> Seq<int>)
    requires
        a.to_multiset() == b.to_multiset(),
        distinct(a, rank),
    ensures
        distinct(b, rank),
{
    broadcast use vstd::seq_lib::group_to_multiset_ensures;

    assert forall|i: int, j: int| 0 <= i < j < b.len() implies rank(#[trigger] b[i]) != rank(#[trigger] b[j]) by {
        if rank(b[i]) == rank(b[j]) {
            let x = b[i];
            let y = b[j];
            assert(b.contains(x) && b.contains(y));
            assert(a.to_multiset().contains(x) && a.to_multiset().contains(y));
            assert(a.contains(x) && a.contains(y));
            let p = choose|p: int| 0 <= p < a.len() && a[p] == x;
            let q = choose|q: int| 0 <= q < a.len() && a[q] == y;
            if p < q {
                assert(rank(a[p]) != rank(a[q]));
            } else if q < p {
                assert(rank(a[q]) != rank(a[p]));
            } else {
                // The same element twice in `b` would have to be twice in `a`.
                lemma_twice(b, i, j);
                lemma_once(a, p, rank);
            }
        }
    }
}

proof fn lemma_twice<T>(s: Seq<T>, i: int, j: int)
    requires
        0 <= i < j < s.len(),
        s[i] == s[j],
    ensures
        s.to_multiset().count(s[i]) >= 2,
    decreases s.len(),
{
    broadcast use vstd::seq_lib::group_to_multiset_ensures;

    let x = s[i];
    assert(s =~= s.drop_last().push(s.last()));
    if j < s.len() - 1 {
        lemma_twice(s.drop_last(), i, j);
    } else {
        assert(s.drop_last()[i] == x);
        assert(s.drop_last().contains(x));
        assert(s.drop_last().to_multiset().contains(x));
    }
}

proof fn lemma_once<T>(s: Seq<T>, p: int, rank: spec_fn(T) -> Seq<int>)
    requires
        0 <= p < s.len(),
        distinct(s, rank),
    ensures
        s.to_multiset().count(s[p]) <= 1,
    decreases s.len(),
{
    broadcast use vstd::seq_lib::group_to_multiset_ensures;

    let x = s[p];
    let front = s.drop_last();
    assert(s =~= front.push(s.last()));
    if p < s.len() - 1 {
        assert(front[p] == x);
        lemma_once(front, p, rank);
        assert(rank(s[p]) != rank(s[s.len() - 1]));
    } else {
        if front.contains(x) {
            let k = choose|k: int| 0 <= k < front.len() && front[k] == x;
            assert(rank(s[k]) != rank(s[p]));
        }
        assert(!front.to_multiset().contains(x));
    }
}

/// Sorting forgets the order the elements came in, where no two share a rank.
pub proof fn lemma_sorting_forgets_order<T>(a: Seq<T>, b: Seq<T>, rank: spec_fn(T) -> Seq<int>)
    requires
        a.to_multiset() == b.to_multiset(),
        distinct(a, rank),
    ensures
        sorted(a, rank) == sorted(b, rank),
{
    lemma_sorted(a, rank);
    lemma_sorted(b, rank);
    lemma_distinct_spreads(a, sorted(a, rank), rank);
    lemma_order_is_unique(sorted(a, rank), sorted(b, rank), rank);
}

proof fn lemma_inserted_mapped<T, U>(
    s: Seq<T>,
    x: T,
    f: spec_fn(T) -> U,
    of_t: spec_fn(T) -> Seq<int>,
    of_u: spec_fn(U) -> Seq<int>,
)
    requires
        forall|t: T| #[trigger] of_t(t) == of_u(f(t)),
    ensures
        inserted(s, x, of_t).map_values(f) == inserted(s.map_values(f), f(x), of_u),
    decreases s.len(),
{
    let image = s.map_values(f);
    assert(of_t(x) == of_u(f(x)));
    if s.len() > 0 {
        assert(of_t(s.last()) == of_u(f(s.last())));
        assert(image.last() == f(s.last()));
        assert(image.drop_last() =~= s.drop_last().map_values(f));
    }
    if s.len() == 0 || !precedes(of_t(x), of_t(s.last())) {
        assert(s.push(x).map_values(f) =~= image.push(f(x)));
    } else {
        lemma_inserted_mapped(s.drop_last(), x, f, of_t, of_u);
        assert(inserted(s.drop_last(), x, of_t).push(s.last()).map_values(f) =~= inserted(
            s.drop_last(),
            x,
            of_t,
        ).map_values(f).push(f(s.last())));
    }
}

/// Sorting commutes with a change of the elements that keeps their ranks.
pub proof fn lemma_sorted_mapped<T, U>(
    s: Seq<T>,
    f: spec_fn(T) -> U,
    of_t: spec_fn(T) -> Seq<int>,
    of_u: spec_fn(U) -> Seq<int>,
)
    requires
        forall|t: T| #[trigger] of_t(t) == of_u(f(t)),
    ensures
        sorted(s, of_t).map_values(f) == sorted(s.map_values(f), of_u),
    decreases s.len(),
{
    let image = s.map_values(f);
    if s.len() > 0 {
        assert(image.drop_last() =~= s.drop_last().map_values(f));
        assert(image.last() == f(s.last()));
        lemma_sorted_mapped(s.drop_last(), f, of_t, of_u);
        lemma_inserted_mapped(sorted(s.drop_last(), of_t), s.last(), f, of_t, of_u);
    } else {
        assert(s.map_values(f) =~= image);
    }
}

} // verus!
