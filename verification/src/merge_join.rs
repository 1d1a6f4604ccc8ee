//! Facts about the merge join of two hash-sorted landmark sequences: which
//! pairs a step of the join may skip, and how the pairs of one hash group
//! make up the pairs of the whole input.

use vstd::prelude::*;
use vstd::multiset::*;
use crate::bag::{
    bag_sum,
    pair_bag,
    lemma_bag_sum_concat,
    lemma_bag_sum_single,
    lemma_bag_sum_support,
    lemma_pair_bag_concat_q,
    lemma_pair_bag_concat_r,
    lemma_pair_bag_empty,
    lemma_pair_bag_single,
};
use crate::radix::{
    QueryLandmark,
    RefLandmark,
    hash_count,
    queries_sorted_by_hash,
    ref_hash_bag,
    refs_sorted_by_hash,
};

verus! {

broadcast use vstd::multiset::group_multiset_axioms;

/// Every reference landmark before `ri` has a smaller hash than every query
/// landmark from `qi` on, and every query landmark before `qi` has a smaller
/// hash than every reference landmark from `ri` on.
pub open spec fn separated(rs: Seq<RefLandmark>, qs: Seq<QueryLandmark>, ri: int, qi: int) -> bool {
    &&& forall|i: int, j: int|
        0 <= i < ri && qi <= j < qs.len() ==> #[trigger] rs[i].hash < #[trigger] qs[j].hash
    &&& forall|i: int, j: int|
        ri <= i < rs.len() && 0 <= j < qi ==> #[trigger] qs[j].hash < #[trigger] rs[i].hash
}

/// A pair term that vanishes for landmarks with different hashes.
pub open spec fn hash_keyed<B>(g: spec_fn(RefLandmark, QueryLandmark) -> Multiset<B>) -> bool {
    forall|r: RefLandmark, q: QueryLandmark| r.hash != q.hash ==> #[trigger] g(r, q) =~= Multiset::<
        B,
    >::empty()
}

pub proof fn lemma_separated_start(rs: Seq<RefLandmark>, qs: Seq<QueryLandmark>)
    ensures
        separated(rs, qs, 0, 0),
{
}

pub proof fn lemma_skip_ref<B>(
    rs: Seq<RefLandmark>,
    qs: Seq<QueryLandmark>,
    ri: int,
    qi: int,
    g: spec_fn(RefLandmark, QueryLandmark) -> Multiset<B>,
)
    requires
        refs_sorted_by_hash(rs),
        queries_sorted_by_hash(qs),
        separated(rs, qs, ri, qi),
        0 <= ri < rs.len(),
        0 <= qi < qs.len(),
        rs[ri].hash < qs[qi].hash,
        hash_keyed(g),
    ensures
        separated(rs, qs, ri + 1, qi),
        pair_bag(rs.take(ri + 1), qs, g) =~= pair_bag(rs.take(ri), qs, g),
{
    assert(rs.take(ri + 1) =~= rs.take(ri) + seq![rs[ri]]);
    lemma_pair_bag_concat_r(rs.take(ri), seq![rs[ri]], qs, g);
    assert forall|i: int, j: int|
        0 <= i < 1 && 0 <= j < qs.len() implies g(#[trigger] seq![rs[ri]][i], #[trigger] qs[j])
        =~= Multiset::<B>::empty() by {
        if j >= qi {
            assert(qs[qi].hash <= qs[j].hash);
        } else {
            assert(qs[j].hash < rs[ri].hash);
        }
    }
    lemma_pair_bag_empty(seq![rs[ri]], qs, g);
    assert forall|i: int, j: int|
        0 <= i < ri + 1 && qi <= j < qs.len() implies #[trigger] rs[i].hash
        < #[trigger] qs[j].hash by {
        if i == ri {
            assert(qs[qi].hash <= qs[j].hash);
        }
    }
}

pub proof fn lemma_skip_query(rs: Seq<RefLandmark>, qs: Seq<QueryLandmark>, ri: int, qi: int)
    requires
        refs_sorted_by_hash(rs),
        queries_sorted_by_hash(qs),
        separated(rs, qs, ri, qi),
        0 <= ri < rs.len(),
        0 <= qi < qs.len(),
        qs[qi].hash < rs[ri].hash,
    ensures
        separated(rs, qs, ri, qi + 1),
{
    assert forall|i: int, j: int|
        ri <= i < rs.len() && 0 <= j < qi + 1 implies #[trigger] qs[j].hash
        < #[trigger] rs[i].hash by {
        if j == qi {
            assert(rs[ri].hash <= rs[i].hash);
        }
    }
}

/// The pairs of the references before `re` are those before `ri` and those
/// of the hash group `rs[ri..re]` x `qs[qi..qe]`.
pub proof fn lemma_group<B>(
    rs: Seq<RefLandmark>,
    qs: Seq<QueryLandmark>,
    ri: int,
    qi: int,
    re: int,
    qe: int,
    h: u32,
    g: spec_fn(RefLandmark, QueryLandmark) -> Multiset<B>,
)
    requires
        refs_sorted_by_hash(rs),
        queries_sorted_by_hash(qs),
        separated(rs, qs, ri, qi),
        0 <= ri < re <= rs.len(),
        0 <= qi < qe <= qs.len(),
        forall|k: int| ri <= k < re ==> #[trigger] rs[k].hash == h,
        forall|k: int| qi <= k < qe ==> #[trigger] qs[k].hash == h,
        re < rs.len() ==> rs[re].hash != h,
        qe < qs.len() ==> qs[qe].hash != h,
        hash_keyed(g),
    ensures
        separated(rs, qs, re, qe),
        pair_bag(rs.take(re), qs, g) =~= pair_bag(rs.take(ri), qs, g).add(
            pair_bag(rs.subrange(ri, re), qs.subrange(qi, qe), g),
        ),
{
    let gr = rs.subrange(ri, re);
    let q_lo = qs.take(qi);
    let q_mid = qs.subrange(qi, qe);
    let q_hi = qs.skip(qe);
    assert(rs.take(re) =~= rs.take(ri) + gr);
    lemma_pair_bag_concat_r(rs.take(ri), gr, qs, g);
    assert(qs =~= (q_lo + q_mid) + q_hi);
    lemma_pair_bag_concat_q(gr, q_lo + q_mid, q_hi, g);
    lemma_pair_bag_concat_q(gr, q_lo, q_mid, g);
    assert(rs[ri].hash == h);
    assert forall|i: int, j: int|
        0 <= i < gr.len() && 0 <= j < q_lo.len() implies g(#[trigger] gr[i], #[trigger] q_lo[j])
        =~= Multiset::<B>::empty() by {
        assert(gr[i] == rs[ri + i]);
        assert(q_lo[j] == qs[j]);
        assert(qs[j].hash < rs[ri].hash);
    }
    lemma_pair_bag_empty(gr, q_lo, g);
    if qe < qs.len() {
        assert(qs[qe - 1].hash <= qs[qe].hash);
        assert(qs[qe - 1].hash == h);
    }
    assert forall|i: int, j: int|
        0 <= i < gr.len() && 0 <= j < q_hi.len() implies g(#[trigger] gr[i], #[trigger] q_hi[j])
        =~= Multiset::<B>::empty() by {
        assert(gr[i] == rs[ri + i]);
        assert(q_hi[j] == qs[qe + j]);
        assert(qs[qe].hash <= qs[qe + j].hash);
    }
    lemma_pair_bag_empty(gr, q_hi, g);
    if re < rs.len() {
        assert(rs[re - 1].hash <= rs[re].hash);
        assert(rs[re - 1].hash == h);
    }
    assert forall|i: int, j: int|
        0 <= i < re && qe <= j < qs.len() implies #[trigger] rs[i].hash
        < #[trigger] qs[j].hash by {
        if i >= ri {
            assert(qs[qe].hash <= qs[j].hash);
        }
    }
    assert forall|i: int, j: int|
        re <= i < rs.len() && 0 <= j < qe implies #[trigger] qs[j].hash
        < #[trigger] rs[i].hash by {
        if j >= qi {
            assert(rs[re].hash <= rs[i].hash);
        }
    }
}

/// When one side is exhausted, the pairs seen so far are all the pairs.
pub proof fn lemma_finish<B>(
    rs: Seq<RefLandmark>,
    qs: Seq<QueryLandmark>,
    ri: int,
    qi: int,
    g: spec_fn(RefLandmark, QueryLandmark) -> Multiset<B>,
)
    requires
        separated(rs, qs, ri, qi),
        0 <= ri <= rs.len(),
        0 <= qi <= qs.len(),
        ri == rs.len() || qi == qs.len(),
        hash_keyed(g),
    ensures
        pair_bag(rs, qs, g) =~= pair_bag(rs.take(ri), qs, g),
{
    assert(rs =~= rs.take(ri) + rs.skip(ri));
    lemma_pair_bag_concat_r(rs.take(ri), rs.skip(ri), qs, g);
    let tail = rs.skip(ri);
    assert forall|i: int, j: int|
        0 <= i < tail.len() && 0 <= j < qs.len() implies g(#[trigger] tail[i], #[trigger] qs[j])
        =~= Multiset::<B>::empty() by {
        assert(tail[i] == rs[ri + i]);
    }
    lemma_pair_bag_empty(tail, qs, g);
}

/// Adding one query landmark to the pairs of a single reference landmark.
pub proof fn lemma_step_query<B>(
    r: RefLandmark,
    qs: Seq<QueryLandmark>,
    q: QueryLandmark,
    g: spec_fn(RefLandmark, QueryLandmark) -> Multiset<B>,
)
    ensures
        pair_bag(seq![r], qs.push(q), g) =~= pair_bag(seq![r], qs, g).add(g(r, q)),
{
    assert(qs.push(q) =~= qs + seq![q]);
    lemma_pair_bag_concat_q(seq![r], qs, seq![q], g);
    lemma_pair_bag_single(r, q, g);
}

pub proof fn lemma_step_ref<B>(
    rs: Seq<RefLandmark>,
    r: RefLandmark,
    qs: Seq<QueryLandmark>,
    g: spec_fn(RefLandmark, QueryLandmark) -> Multiset<B>,
)
    ensures
        pair_bag(rs.push(r), qs, g) =~= pair_bag(rs, qs, g).add(pair_bag(seq![r], qs, g)),
{
    assert(rs.push(r) =~= rs + seq![r]);
    lemma_pair_bag_concat_r(rs, seq![r], qs, g);
}

proof fn lemma_hash_bag_all_equal(rs: Seq<RefLandmark>, h: u32)
    requires
        forall|k: int| 0 <= k < rs.len() ==> #[trigger] rs[k].hash == h,
    ensures
        ref_hash_bag(rs).count(h) == rs.len(),
    decreases rs.len(),
{
    if rs.len() > 0 {
        assert(rs.last() == rs[rs.len() - 1]);
        lemma_hash_bag_all_equal(rs.drop_last(), h);
    }
}

proof fn lemma_hash_bag_none_equal(rs: Seq<RefLandmark>, h: u32)
    requires
        forall|k: int| 0 <= k < rs.len() ==> #[trigger] rs[k].hash != h,
    ensures
        ref_hash_bag(rs).count(h) == 0,
{
    let f = |r: RefLandmark| Multiset::singleton(r.hash);
    let p = |v: u32| v != h;
    assert forall|i: int, v: u32| 0 <= i < rs.len() && #[trigger] f(rs[i]).count(v) > 0 implies p(
        v,
    ) by {}
    lemma_bag_sum_support(rs, f, p);
}

/// A maximal run of hash `h` holds every reference landmark with that hash.
pub proof fn lemma_hash_count_run(rs: Seq<RefLandmark>, ri: int, re: int, h: u32)
    requires
        0 <= ri <= re <= rs.len(),
        forall|k: int| 0 <= k < ri ==> #[trigger] rs[k].hash != h,
        forall|k: int| ri <= k < re ==> #[trigger] rs[k].hash == h,
        forall|k: int| re <= k < rs.len() ==> #[trigger] rs[k].hash != h,
    ensures
        hash_count(rs, h) == re - ri,
{
    let f = |r: RefLandmark| Multiset::singleton(r.hash);
    let a = rs.take(ri);
    let b = rs.subrange(ri, re);
    let c = rs.skip(re);
    assert(rs =~= (a + b) + c);
    lemma_bag_sum_concat(a + b, c, f);
    lemma_bag_sum_concat(a, b, f);
    assert forall|k: int| 0 <= k < a.len() implies #[trigger] a[k].hash != h by {
        assert(a[k] == rs[k]);
    }
    lemma_hash_bag_none_equal(a, h);
    assert forall|k: int| 0 <= k < b.len() implies #[trigger] b[k].hash == h by {
        assert(b[k] == rs[ri + k]);
    }
    lemma_hash_bag_all_equal(b, h);
    assert forall|k: int| 0 <= k < c.len() implies #[trigger] c[k].hash != h by {
        assert(c[k] == rs[re + k]);
    }
    lemma_hash_bag_none_equal(c, h);
}

} // verus!
