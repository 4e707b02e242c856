//! The scoring metric over a corpus, its laws, and the choice of the best
//! score.
use crate::hint::{admits, feedback, Hint};
use vstd::prelude::*;

verus! {

broadcast use vstd::seq_lib::group_to_multiset_ensures;

/// Sum of `f` over the words of `ws`.
pub open spec fn sum_by(ws: Seq<Seq<u8>>, f: spec_fn(Seq<u8>) -> nat) -> nat
    decreases ws.len(),
{
    if ws.len() == 0 {
        0
    } else {
        sum_by(ws.drop_last(), f) + f(ws.last())
    }
}

/// 1 when `s` agrees with every hint of `hs`, else 0.
pub open spec fn admits_count(s: Seq<u8>, hs: Set<Hint>) -> nat {
    if admits(s, hs) {
        1
    } else {
        0
    }
}

/// How many second guesses of `ws` stay possible after `g` is checked against
/// the answer `a`: none when `g` is `a`.
pub open spec fn ambiguity(ws: Seq<Seq<u8>>, g: Seq<u8>, a: Seq<u8>) -> nat {
    if g == a {
        0
    } else {
        sum_by(ws, |s: Seq<u8>| admits_count(s, feedback(g, a)))
    }
}

/// Score of the guess `g` over the corpus `ws`: the ambiguity left, summed over
/// every answer of `ws`.
pub open spec fn score_of(ws: Seq<Seq<u8>>, g: Seq<u8>) -> nat {
    sum_by(ws, |a: Seq<u8>| ambiguity(ws, g, a))
}

/// `r` is the position of the least cost, the first one among equals.
pub open spec fn is_best(costs: Seq<int>, r: int) -> bool {
    &&& 0 <= r < costs.len()
    &&& forall|j: int| 0 <= j < costs.len() ==> costs[r] <= #[trigger] costs[j]
    &&& forall|j: int| 0 <= j < r ==> costs[r] < #[trigger] costs[j]
}

/// Extending a prefix by one word adds that word's share.
pub proof fn lemma_sum_by_take(ws: Seq<Seq<u8>>, f: spec_fn(Seq<u8>) -> nat, j: int)
    requires
        0 <= j < ws.len(),
    ensures
        sum_by(ws.take(j + 1), f) == sum_by(ws.take(j), f) + f(ws[j]),
{
    assert(ws.take(j + 1).drop_last() =~= ws.take(j));
}

/// Taking one word out of the sum takes out its share.
pub proof fn lemma_sum_by_remove(ws: Seq<Seq<u8>>, f: spec_fn(Seq<u8>) -> nat, k: int)
    requires
        0 <= k < ws.len(),
    ensures
        sum_by(ws, f) == sum_by(ws.remove(k), f) + f(ws[k]),
    decreases ws.len(),
{
    if k == ws.len() - 1 {
        assert(ws.remove(k) =~= ws.drop_last());
    } else {
        lemma_sum_by_remove(ws.drop_last(), f, k);
        assert(ws.drop_last().remove(k) =~= ws.remove(k).drop_last());
        assert(ws.remove(k).last() == ws.last());
    }
}

/// A sum does not depend on the order of the words summed over.
pub proof fn lemma_sum_by_permutation(
    ws: Seq<Seq<u8>>,
    vs: Seq<Seq<u8>>,
    f: spec_fn(Seq<u8>) -> nat,
)
    requires
        ws.to_multiset() == vs.to_multiset(),
    ensures
        sum_by(ws, f) == sum_by(vs, f),
    decreases ws.len(),
{
    broadcast use vstd::multiset::group_multiset_axioms;

    if ws.len() == 0 {
        vstd::seq_lib::to_multiset_len(ws);
        vstd::seq_lib::to_multiset_len(vs);
    } else {
        let x = ws.last();
        assert(ws.drop_last().push(x) =~= ws);
        assert(ws.to_multiset() == ws.drop_last().to_multiset().insert(x));
        assert(ws.to_multiset().count(x) > 0);
        assert(vs.contains(x));
        let k = choose|k: int| 0 <= k < vs.len() && vs[k] == x;
        lemma_sum_by_remove(vs, f, k);
        assert(vs.remove(k).to_multiset() == vs.to_multiset().remove(x));
        assert(ws.drop_last().to_multiset() =~= vs.remove(k).to_multiset());
        lemma_sum_by_permutation(ws.drop_last(), vs.remove(k), f);
    }
}

/// A guess's score depends on which words the corpus holds, and how often,
/// not on the order in which they are gone through.
pub proof fn lemma_score_order_independent(ws: Seq<Seq<u8>>, vs: Seq<Seq<u8>>, g: Seq<u8>)
    requires
        ws.to_multiset() == vs.to_multiset(),
    ensures
        score_of(ws, g) == score_of(vs, g),
{
    let fw = |a: Seq<u8>| ambiguity(ws, g, a);
    let fv = |a: Seq<u8>| ambiguity(vs, g, a);
    assert forall|a: Seq<u8>| #[trigger] fw(a) == fv(a) by {
        lemma_sum_by_permutation(ws, vs, |s: Seq<u8>| admits_count(s, feedback(g, a)));
    }
    assert(fw =~= fv);
    lemma_sum_by_permutation(ws, vs, fw);
}

/// At most one position is the first least cost, so the choice is the same on
/// every run over the same costs.
pub proof fn lemma_best_unique(costs: Seq<int>, r1: int, r2: int)
    requires
        is_best(costs, r1),
        is_best(costs, r2),
    ensures
        r1 == r2,
{
    if r1 < r2 {
        assert(costs[r2] < costs[r1]);
    } else if r2 < r1 {
        assert(costs[r1] < costs[r2]);
    }
}

/// The costs of `scores`, as integers.
pub open spec fn costs_of(scores: Seq<u64>) -> Seq<int> {
    scores.map_values(|x: u64| x as int)
}

/// Position of the least score, the first one among equals; `None` when there
/// is no score.
pub fn pick_best(scores: &Vec<u64>) -> (r: Option<usize>)
    ensures
        r is None <==> scores@.len() == 0,
        r matches Some(i) ==> is_best(costs_of(scores@), i as int),
{
    if scores.len() == 0 {
        return None;
    }
    let mut best: usize = 0;
    let mut i: usize = 1;
    while i < scores.len()
        invariant
            1 <= i <= scores@.len(),
            best < i,
            forall|j: int| 0 <= j < i ==> scores@[best as int] <= #[trigger] scores@[j],
            forall|j: int| 0 <= j < best ==> scores@[best as int] < #[trigger] scores@[j],
        decreases scores@.len() - i,
    {
        if scores[i] < scores[best] {
            best = i;
        }
        i = i + 1;
    }
    Some(best)
}

} // verus!
