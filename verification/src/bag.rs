//! Sums of multisets over sequences, and the facts about them that the
//! matching engine needs: splitting, reordering and restricting the sum.

use vstd::prelude::*;
use vstd::multiset::*;

verus! {

broadcast use {vstd::seq_lib::group_to_multiset_ensures, vstd::multiset::group_multiset_axioms};

/// The multiset sum of `f(x)` over the elements `x` of `s`.
pub open spec fn bag_sum<A, B>(s: Seq<A>, f: spec_fn(A) -> Multiset<B>) -> Multiset<B>
    decreases s.len(),
{
    if s.len() == 0 {
        Multiset::empty()
    } else {
        bag_sum(s.drop_last(), f).add(f(s.last()))
    }
}

/// The multiset sum of `g(r, q)` over every pair of an element `r` of `rs`
/// and an element `q` of `qs`.
pub open spec fn pair_bag<R, Q, B>(rs: Seq<R>, qs: Seq<Q>, g: spec_fn(R, Q) -> Multiset<B>) -> Multiset<B> {
    bag_sum(rs, |r: R| bag_sum(qs, |q: Q| g(r, q)))
}

pub proof fn lemma_bag_sum_concat<A, B>(a: Seq<A>, b: Seq<A>, f: spec_fn(A) -> Multiset<B>)
    ensures
        bag_sum(a + b, f) =~= bag_sum(a, f).add(bag_sum(b, f)),
    decreases b.len(),
{
    if b.len() == 0 {
        assert(a + b =~= a);
    } else {
        assert((a + b).drop_last() =~= a + b.drop_last());
        assert((a + b).last() == b.last());
        lemma_bag_sum_concat(a, b.drop_last(), f);
    }
}

pub proof fn lemma_bag_sum_single<A, B>(x: A, f: spec_fn(A) -> Multiset<B>)
    ensures
        bag_sum(seq![x], f) =~= f(x),
{
    assert(seq![x].drop_last() =~= Seq::<A>::empty());
    assert(bag_sum(Seq::<A>::empty(), f) =~= Multiset::<B>::empty());
}

pub proof fn lemma_bag_sum_congr<A, B>(s: Seq<A>, f: spec_fn(A) -> Multiset<B>, g: spec_fn(A) -> Multiset<B>)
    requires
        forall|i: int| 0 <= i < s.len() ==> f(#[trigger] s[i]) == g(s[i]),
    ensures
        bag_sum(s, f) == bag_sum(s, g),
    decreases s.len(),
{
    if s.len() > 0 {
        assert(s.last() == s[s.len() - 1]);
        lemma_bag_sum_congr(s.drop_last(), f, g);
    }
}

pub proof fn lemma_bag_sum_zero<A, B>(s: Seq<A>, f: spec_fn(A) -> Multiset<B>)
    requires
        forall|i: int| 0 <= i < s.len() ==> f(#[trigger] s[i]) =~= Multiset::empty(),
    ensures
        bag_sum(s, f) =~= Multiset::empty(),
    decreases s.len(),
{
    if s.len() > 0 {
        assert(s.last() == s[s.len() - 1]);
        lemma_bag_sum_zero(s.drop_last(), f);
    }
}

pub proof fn lemma_bag_sum_pointwise_add<A, B>(
    s: Seq<A>,
    f: spec_fn(A) -> Multiset<B>,
    g: spec_fn(A) -> Multiset<B>,
    h: spec_fn(A) -> Multiset<B>,
)
    requires
        forall|i: int| 0 <= i < s.len() ==> h(#[trigger] s[i]) =~= f(s[i]).add(g(s[i])),
    ensures
        bag_sum(s, h) =~= bag_sum(s, f).add(bag_sum(s, g)),
    decreases s.len(),
{
    if s.len() > 0 {
        assert(s.last() == s[s.len() - 1]);
        lemma_bag_sum_pointwise_add(s.drop_last(), f, g, h);
    }
}

/// Removing the element at index `i` removes its term from the sum.
pub proof fn lemma_bag_sum_remove<A, B>(s: Seq<A>, i: int, f: spec_fn(A) -> Multiset<B>)
    requires
        0 <= i < s.len(),
    ensures
        bag_sum(s, f) =~= bag_sum(s.remove(i), f).add(f(s[i])),
{
    let a = s.take(i);
    let b = s.skip(i + 1);
    assert(s =~= (a + seq![s[i]]) + b);
    assert(s.remove(i) =~= a + b);
    lemma_bag_sum_concat(a + seq![s[i]], b, f);
    lemma_bag_sum_concat(a, seq![s[i]], f);
    lemma_bag_sum_single(s[i], f);
    lemma_bag_sum_concat(a, b, f);
}

/// The sum depends only on the multiset of the summed elements.
pub proof fn lemma_bag_sum_perm<A, B>(s1: Seq<A>, s2: Seq<A>, f: spec_fn(A) -> Multiset<B>)
    requires
        s1.to_multiset() =~= s2.to_multiset(),
    ensures
        bag_sum(s1, f) =~= bag_sum(s2, f),
    decreases s1.len(),
{
    vstd::seq_lib::to_multiset_len(s1);
    vstd::seq_lib::to_multiset_len(s2);
    if s1.len() == 0 {
        assert(s2.len() == 0);
        assert(s2 =~= s1);
    } else {
        let x = s1.last();
        assert(s1 =~= s1.drop_last().push(x));
        assert(s1[s1.len() - 1] == x);
        assert(s1.contains(x));
        vstd::seq_lib::to_multiset_contains(s1, x);
        vstd::seq_lib::to_multiset_contains(s2, x);
        assert(s2.contains(x));
        vstd::seq_lib::to_multiset_build(s1.drop_last(), x);
        let i = choose|i: int| 0 <= i < s2.len() && s2[i] == x;
        vstd::seq_lib::to_multiset_remove(s2, i);
        assert(s1.drop_last().to_multiset() =~= s2.remove(i).to_multiset());
        lemma_bag_sum_perm(s1.drop_last(), s2.remove(i), f);
        lemma_bag_sum_remove(s2, i, f);
    }
}

/// Every value counted in the sum satisfies `p` when every value counted in
/// every term does.
pub proof fn lemma_bag_sum_support<A, B>(s: Seq<A>, f: spec_fn(A) -> Multiset<B>, p: spec_fn(B) -> bool)
    requires
        forall|i: int, v: B| 0 <= i < s.len() && #[trigger] f(s[i]).count(v) > 0 ==> p(v),
    ensures
        forall|v: B| #[trigger] bag_sum(s, f).count(v) > 0 ==> p(v),
    decreases s.len(),
{
    if s.len() > 0 {
        assert(s.last() == s[s.len() - 1]);
        assert forall|i: int, v: B| 0 <= i < s.drop_last().len() && #[trigger] f(
            s.drop_last()[i],
        ).count(v) > 0 implies p(v) by {
            assert(s.drop_last()[i] == s[i]);
        }
        lemma_bag_sum_support(s.drop_last(), f, p);
        assert forall|v: B| #[trigger] bag_sum(s, f).count(v) > 0 implies p(v) by {
            assert(bag_sum(s, f).count(v) == bag_sum(s.drop_last(), f).count(v) + f(
                s[s.len() - 1],
            ).count(v));
        }
    }
}

pub proof fn lemma_pair_bag_concat_r<R, Q, B>(
    r1: Seq<R>,
    r2: Seq<R>,
    qs: Seq<Q>,
    g: spec_fn(R, Q) -> Multiset<B>,
)
    ensures
        pair_bag(r1 + r2, qs, g) =~= pair_bag(r1, qs, g).add(pair_bag(r2, qs, g)),
{
    lemma_bag_sum_concat(r1, r2, |r: R| bag_sum(qs, |q: Q| g(r, q)));
}

pub proof fn lemma_pair_bag_concat_q<R, Q, B>(
    rs: Seq<R>,
    q1: Seq<Q>,
    q2: Seq<Q>,
    g: spec_fn(R, Q) -> Multiset<B>,
)
    ensures
        pair_bag(rs, q1 + q2, g) =~= pair_bag(rs, q1, g).add(pair_bag(rs, q2, g)),
{
    let h = |r: R| bag_sum(q1 + q2, |q: Q| g(r, q));
    let f1 = |r: R| bag_sum(q1, |q: Q| g(r, q));
    let f2 = |r: R| bag_sum(q2, |q: Q| g(r, q));
    assert forall|i: int| 0 <= i < rs.len() implies h(#[trigger] rs[i]) =~= f1(rs[i]).add(
        f2(rs[i]),
    ) by {
        let r = rs[i];
        lemma_bag_sum_concat(q1, q2, |q: Q| g(r, q));
    }
    lemma_bag_sum_pointwise_add(rs, f1, f2, h);
}

pub proof fn lemma_pair_bag_perm<R, Q, B>(
    r1: Seq<R>,
    r2: Seq<R>,
    q1: Seq<Q>,
    q2: Seq<Q>,
    g: spec_fn(R, Q) -> Multiset<B>,
)
    requires
        r1.to_multiset() =~= r2.to_multiset(),
        q1.to_multiset() =~= q2.to_multiset(),
    ensures
        pair_bag(r1, q1, g) =~= pair_bag(r2, q2, g),
{
    let f1 = |r: R| bag_sum(q1, |q: Q| g(r, q));
    let f2 = |r: R| bag_sum(q2, |q: Q| g(r, q));
    assert forall|i: int| 0 <= i < r1.len() implies f1(#[trigger] r1[i]) == f2(r1[i]) by {
        let r = r1[i];
        lemma_bag_sum_perm(q1, q2, |q: Q| g(r, q));
    }
    lemma_bag_sum_congr(r1, f1, f2);
    lemma_bag_sum_perm(r1, r2, f2);
}

pub proof fn lemma_pair_bag_empty<R, Q, B>(rs: Seq<R>, qs: Seq<Q>, g: spec_fn(R, Q) -> Multiset<B>)
    requires
        forall|i: int, j: int|
            0 <= i < rs.len() && 0 <= j < qs.len() ==> g(#[trigger] rs[i], #[trigger] qs[j])
                =~= Multiset::empty(),
    ensures
        pair_bag(rs, qs, g) =~= Multiset::empty(),
{
    let f = |r: R| bag_sum(qs, |q: Q| g(r, q));
    assert forall|i: int| 0 <= i < rs.len() implies f(#[trigger] rs[i]) =~= Multiset::empty() by {
        let r = rs[i];
        assert forall|j: int| 0 <= j < qs.len() implies (|q: Q| g(r, q))(#[trigger] qs[j])
            =~= Multiset::empty() by {}
        lemma_bag_sum_zero(qs, |q: Q| g(r, q));
    }
    lemma_bag_sum_zero(rs, f);
}

pub proof fn lemma_pair_bag_single<R, Q, B>(r: R, q: Q, g: spec_fn(R, Q) -> Multiset<B>)
    ensures
        pair_bag(seq![r], seq![q], g) =~= g(r, q),
{
    lemma_bag_sum_single(r, |r: R| bag_sum(seq![q], |q: Q| g(r, q)));
    lemma_bag_sum_single(q, |q: Q| g(r, q));
}

/// Every value counted in a pair sum satisfies `p` when every value counted
/// in every term does.
pub proof fn lemma_pair_bag_support<R, Q, B>(
    rs: Seq<R>,
    qs: Seq<Q>,
    g: spec_fn(R, Q) -> Multiset<B>,
    p: spec_fn(B) -> bool,
)
    requires
        forall|i: int, j: int, v: B|
            0 <= i < rs.len() && 0 <= j < qs.len() && #[trigger] g(rs[i], qs[j]).count(v) > 0
                ==> p(v),
    ensures
        forall|v: B| #[trigger] pair_bag(rs, qs, g).count(v) > 0 ==> p(v),
{
    let f = |r: R| bag_sum(qs, |q: Q| g(r, q));
    assert forall|i: int, v: B| 0 <= i < rs.len() && #[trigger] f(rs[i]).count(v) > 0 implies p(
        v,
    ) by {
        let r = rs[i];
        let h = |q: Q| g(r, q);
        assert forall|j: int, w: B| 0 <= j < qs.len() && #[trigger] h(qs[j]).count(w) > 0 implies p(
            w,
        ) by {
            assert(g(rs[i], qs[j]).count(w) > 0);
        }
        lemma_bag_sum_support(qs, h, p);
    }
    lemma_bag_sum_support(rs, f, p);
}

/// Sums of bags of equal sizes have equal sizes.
pub proof fn lemma_bag_sum_len_congr<A, B, C>(
    s: Seq<A>,
    f: spec_fn(A) -> Multiset<B>,
    g: spec_fn(A) -> Multiset<C>,
)
    requires
        forall|i: int| 0 <= i < s.len() ==> #[trigger] f(s[i]).len() == g(s[i]).len(),
    ensures
        bag_sum(s, f).len() == bag_sum(s, g).len(),
    decreases s.len(),
{
    if s.len() > 0 {
        lemma_bag_sum_len_congr(s.drop_last(), f, g);
        assert(s.last() == s[s.len() - 1]);
    }
}

/// Pair sums of bags of equal sizes have equal sizes.
pub proof fn lemma_pair_bag_len_congr<R, Q, B, C>(
    rs: Seq<R>,
    qs: Seq<Q>,
    g: spec_fn(R, Q) -> Multiset<B>,
    h: spec_fn(R, Q) -> Multiset<C>,
)
    requires
        forall|i: int, j: int|
            0 <= i < rs.len() && 0 <= j < qs.len() ==> #[trigger] g(rs[i], qs[j]).len() == h(
                rs[i],
                qs[j],
            ).len(),
    ensures
        pair_bag(rs, qs, g).len() == pair_bag(rs, qs, h).len(),
{
    let fg = |r: R| bag_sum(qs, |q: Q| g(r, q));
    let fh = |r: R| bag_sum(qs, |q: Q| h(r, q));
    assert forall|i: int| 0 <= i < rs.len() implies #[trigger] fg(rs[i]).len() == fh(rs[i]).len() by {
        let r = rs[i];
        let gr = |q: Q| g(r, q);
        let hr = |q: Q| h(r, q);
        assert forall|j: int| 0 <= j < qs.len() implies #[trigger] gr(qs[j]).len() == hr(
            qs[j],
        ).len() by {
            assert(g(rs[i], qs[j]).len() == h(rs[i], qs[j]).len());
        }
        lemma_bag_sum_len_congr(qs, gr, hr);
    }
    lemma_bag_sum_len_congr(rs, fg, fh);
}

/// Sums of pointwise smaller bags are smaller.
pub proof fn lemma_bag_sum_subset<A, B>(
    s: Seq<A>,
    f: spec_fn(A) -> Multiset<B>,
    g: spec_fn(A) -> Multiset<B>,
)
    requires
        forall|i: int| 0 <= i < s.len() ==> (#[trigger] f(s[i])).subset_of(g(s[i])),
    ensures
        bag_sum(s, f).subset_of(bag_sum(s, g)),
    decreases s.len(),
{
    if s.len() > 0 {
        lemma_bag_sum_subset(s.drop_last(), f, g);
        assert(s.last() == s[s.len() - 1]);
        assert(f(s.last()).subset_of(g(s.last())));
    }
}

/// Pair sums of pointwise smaller bags are smaller.
pub proof fn lemma_pair_bag_subset<R, Q, B>(
    rs: Seq<R>,
    qs: Seq<Q>,
    g: spec_fn(R, Q) -> Multiset<B>,
    h: spec_fn(R, Q) -> Multiset<B>,
)
    requires
        forall|i: int, j: int|
            0 <= i < rs.len() && 0 <= j < qs.len() ==> (#[trigger] g(rs[i], qs[j])).subset_of(
                h(rs[i], qs[j]),
            ),
    ensures
        pair_bag(rs, qs, g).subset_of(pair_bag(rs, qs, h)),
{
    let fg = |r: R| bag_sum(qs, |q: Q| g(r, q));
    let fh = |r: R| bag_sum(qs, |q: Q| h(r, q));
    assert forall|i: int| 0 <= i < rs.len() implies (#[trigger] fg(rs[i])).subset_of(fh(rs[i])) by {
        let r = rs[i];
        let gr = |q: Q| g(r, q);
        let hr = |q: Q| h(r, q);
        assert forall|j: int| 0 <= j < qs.len() implies (#[trigger] gr(qs[j])).subset_of(
            hr(qs[j]),
        ) by {
            assert(g(rs[i], qs[j]).subset_of(h(rs[i], qs[j])));
        }
        lemma_bag_sum_subset(qs, gr, hr);
    }
    lemma_bag_sum_subset(rs, fg, fh);
}

} // verus!
