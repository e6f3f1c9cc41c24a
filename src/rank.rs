use vstd::prelude::*;

use crate::color::{color_wf, Color};
use crate::working::{all_wf, hexes_unique, weight_sum, lemma_weight_sum_insert};

verus! {

/// `a` comes before `b` in rank order: heavier first, lower key first among
/// equal weights.
pub open spec fn ranks_before(a: Color, b: Color) -> bool {
    a.weight > b.weight || (a.weight == b.weight && a.hex < b.hex)
}

/// The sequence is strictly in rank order.
pub open spec fn ranked(s: Seq<Color>) -> bool {
    forall|i: int, j: int| 0 <= i < j < s.len() ==> ranks_before(s[i], s[j])
}

/// `t` holds the colors of `s`, as many times each, in any order.
pub open spec fn same_colors(t: Seq<Color>, s: Seq<Color>) -> bool {
    t.to_multiset() == s.to_multiset()
}

/// The colors of `s` arranged in rank order.
pub open spec fn rank_order(s: Seq<Color>) -> Seq<Color> {
    choose|t: Seq<Color>| ranked(t) && same_colors(t, s)
}

/// Two sequences in rank order that hold the same colors are equal.
pub proof fn lemma_ranked_unique_order(t1: Seq<Color>, t2: Seq<Color>)
    requires
        ranked(t1),
        ranked(t2),
        same_colors(t1, t2),
    ensures
        t1 == t2,
    decreases t1.len(),
{
    broadcast use vstd::seq_lib::group_to_multiset_ensures;

    vstd::seq_lib::to_multiset_len(t1);
    vstd::seq_lib::to_multiset_len(t2);
    if t1.len() > 0 {
        assert(t1[0] == t2[0]) by {
            if t1[0] != t2[0] {
                assert(t2.contains(t2[0]));
                vstd::seq_lib::to_multiset_contains(t2, t2[0]);
                vstd::seq_lib::to_multiset_contains(t1, t2[0]);
                let i = choose|i: int| 0 <= i < t1.len() && t1[i] == t2[0];
                assert(t1.contains(t1[0]));
                vstd::seq_lib::to_multiset_contains(t1, t1[0]);
                vstd::seq_lib::to_multiset_contains(t2, t1[0]);
                let j = choose|j: int| 0 <= j < t2.len() && t2[j] == t1[0];
                assert(ranks_before(t1[0], t1[i]));
                assert(ranks_before(t2[0], t2[j]));
            }
        }
        let r1 = t1.remove(0);
        let r2 = t2.remove(0);
        vstd::seq_lib::to_multiset_remove(t1, 0);
        vstd::seq_lib::to_multiset_remove(t2, 0);
        assert forall|a: int, b: int| 0 <= a < b < r1.len() implies ranks_before(r1[a], r1[b]) by {
            assert(r1[a] == t1[a + 1] && r1[b] == t1[b + 1]);
        }
        assert forall|a: int, b: int| 0 <= a < b < r2.len() implies ranks_before(r2[a], r2[b]) by {
            assert(r2[a] == t2[a + 1] && r2[b] == t2[b + 1]);
        }
        lemma_ranked_unique_order(r1, r2);
        assert(t1 =~= t2) by {
            assert forall|k: int| 0 <= k < t1.len() implies t1[k] == t2[k] by {
                if k > 0 {
                    assert(t1[k] == r1[k - 1]);
                    assert(t2[k] == r2[k - 1]);
                }
            }
        }
    }
}

/// A sequence in rank order, drawn from a set with unique keys, has unique keys.
pub proof fn lemma_ranked_unique(t: Seq<Color>, s: Seq<Color>)
    requires
        ranked(t),
        hexes_unique(s),
        forall|j: int| 0 <= j < t.len() ==> s.contains(#[trigger] t[j]),
    ensures
        hexes_unique(t),
{
    assert forall|a: int, b: int| 0 <= a < t.len() && 0 <= b < t.len() && a != b implies t[a].hex
        != t[b].hex by {
        if a < b {
            assert(ranks_before(t[a], t[b]));
        } else {
            assert(ranks_before(t[b], t[a]));
        }
        assert(s.contains(t[a]));
        assert(s.contains(t[b]));
        let qa = choose|q: int| 0 <= q < s.len() && s[q] == t[a];
        let qb = choose|q: int| 0 <= q < s.len() && s[q] == t[b];
    }
}

/// Sorts a set of colors with unique keys into rank order.
pub fn sort_by_weight(v: &Vec<Color>) -> (res: Vec<Color>)
    requires
        hexes_unique(v@),
    ensures
        ranked(res@),
        res@.len() == v@.len(),
        same_colors(res@, v@),
        res@ == rank_order(v@),
        hexes_unique(res@),
        forall|j: int| 0 <= j < res@.len() ==> v@.contains(#[trigger] res@[j]),
        weight_sum(res@) == weight_sum(v@),
        all_wf(v@) ==> all_wf(res@),
{
    broadcast use vstd::seq_lib::group_to_multiset_ensures;

    let mut res: Vec<Color> = Vec::new();
    let mut k: usize = 0;
    assert(v@.take(0) =~= Seq::<Color>::empty());
    while k < v.len()
        invariant
            hexes_unique(v@),
            k <= v@.len(),
            res@.len() == k,
            ranked(res@),
            same_colors(res@, v@.take(k as int)),
            weight_sum(res@) == weight_sum(v@.take(k as int)),
        decreases v@.len() - k,
    {
        let x: Color = v[k];
        let ghost before = res@;
        proof {
            assert(v@.take(k + 1) =~= v@.take(k as int).push(x));
            assert forall|j: int| 0 <= j < before.len() implies before[j].hex != x.hex by {
                assert(before.contains(before[j]));
                vstd::seq_lib::to_multiset_contains(before, before[j]);
                vstd::seq_lib::to_multiset_contains(v@.take(k as int), before[j]);
                assert(v@.take(k as int).contains(before[j]));
                let q = choose|q: int| 0 <= q < k && v@.take(k as int)[q] == before[j];
                assert(v@[q] == before[j]);
            }
        }
        let p: usize = insert_ranked(&mut res, x);
        proof {
            lemma_weight_sum_insert(before, p as int, x);
            assert(v@.take(k + 1).drop_last() =~= v@.take(k as int));
            vstd::seq_lib::to_multiset_insert(before, p as int, x);
            vstd::seq_lib::to_multiset_build(v@.take(k as int), x);
        }
        k = k + 1;
    }
    proof {
        assert(v@.take(v@.len() as int) =~= v@);
        assert forall|j: int| 0 <= j < res@.len() implies v@.contains(#[trigger] res@[j]) by {
            assert(res@.contains(res@[j]));
            vstd::seq_lib::to_multiset_contains(res@, res@[j]);
            vstd::seq_lib::to_multiset_contains(v@, res@[j]);
        }
        lemma_ranked_unique(res@, v@);
        let t = rank_order(v@);
        assert(ranked(t) && same_colors(t, v@));
        lemma_ranked_unique_order(res@, t);
        assert(all_wf(v@) ==> all_wf(res@)) by {
            if all_wf(v@) {
                assert forall|j: int| 0 <= j < res@.len() implies color_wf(#[trigger] res@[j]) by {
                    assert(res@.contains(res@[j]));
                    vstd::seq_lib::to_multiset_contains(res@, res@[j]);
                    vstd::seq_lib::to_multiset_contains(v@, res@[j]);
                    assert(v@.contains(res@[j]));
                }
            }
        }
    }
    res
}

/// Inserts a color whose key is new into a sequence in rank order, at the
/// place that keeps the order; returns that place.
fn insert_ranked(res: &mut Vec<Color>, x: Color) -> (p: usize)
    requires
        ranked(old(res)@),
        forall|j: int| 0 <= j < old(res)@.len() ==> old(res)@[j].hex != x.hex,
    ensures
        p <= old(res)@.len(),
        final(res)@ == old(res)@.insert(p as int, x),
        ranked(final(res)@),
{
    let mut p: usize = 0;
    while p < res.len() && ranks_before_exec(&res[p], &x)
        invariant
            p <= res@.len(),
            forall|q: int| 0 <= q < p ==> ranks_before(res@[q], x),
        decreases res@.len() - p,
    {
        p = p + 1;
    }
    let ghost before = res@;
    proof {
        assert forall|q: int| p <= q < before.len() implies ranks_before(x, before[q]) by {
            if q > p {
                assert(ranks_before(before[p as int], before[q]));
            }
        }
    }
    res.insert(p, x);
    proof {
        assert forall|i: int, j: int| 0 <= i < j < res@.len() implies ranks_before(
            res@[i],
            res@[j],
        ) by {
            if j < p {
            } else if j == p {
            } else if i < p {
                assert(res@[j] == before[j - 1]);
                assert(ranks_before(before[i], x));
                assert(ranks_before(x, before[j - 1]));
            } else if i == p {
                assert(res@[j] == before[j - 1]);
            } else {
                assert(res@[i] == before[i - 1]);
                assert(res@[j] == before[j - 1]);
            }
        }
    }
    p
}

/// Executable form of `ranks_before`.
pub fn ranks_before_exec(a: &Color, b: &Color) -> (r: bool)
    ensures
        r == ranks_before(*a, *b),
{
    a.weight > b.weight || (a.weight == b.weight && a.hex < b.hex)
}

} // verus!
