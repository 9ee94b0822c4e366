//! Ranking nodes by score: highest first, and among equal scores the lower
//! node index first.

use vstd::prelude::*;
use crate::ratio::{lemma_above_carries, Ratio};

verus! {

/// Entry `a` stands before entry `b`: its score is higher, or the scores are
/// equal and its node index is lower.
pub open spec fn ranks_before(a: (usize, Ratio), b: (usize, Ratio)) -> bool {
    a.1.above(b.1) || (a.1.same(b.1) && a.0 < b.0)
}

/// Node `j` has an entry in `ranking`.
pub open spec fn placed(ranking: Seq<(usize, Ratio)>, j: int) -> bool {
    exists|p: int| 0 <= p < ranking.len() && (#[trigger] ranking[p]).0 == j
}

/// `ranking` holds the first `k` nodes, each with its score, in rank order.
pub open spec fn ranks(scores: Seq<Ratio>, ranking: Seq<(usize, Ratio)>, k: nat) -> bool {
    &&& ranking.len() == k <= scores.len()
    &&& forall|p: int|
        0 <= p < ranking.len() ==> (#[trigger] ranking[p]).0 < k && ranking[p].1
            == scores[ranking[p].0 as int]
    &&& forall|j: int| 0 <= j < k ==> #[trigger] placed(ranking, j)
    &&& forall|p: int, q: int|
        0 <= p < q < ranking.len() ==> ranks_before(#[trigger] ranking[p], #[trigger] ranking[q])
}

/// `ranking` is the ranking of the nodes `0..scores.len()` by these scores:
/// one entry per node, holding the node and its score, ordered by score from
/// the highest down, nodes of equal score by index from the lowest up.
pub open spec fn is_ranking(scores: Seq<Ratio>, ranking: Seq<(usize, Ratio)>) -> bool {
    ranks(scores, ranking, scores.len())
}

/// Putting the next node where its score belongs keeps a ranking in order.
proof fn lemma_insert_ranked(
    scores: Seq<Ratio>,
    before: Seq<(usize, Ratio)>,
    k: usize,
    pos: int,
    entry: (usize, Ratio),
)
    requires
        ranks(scores, before, k as nat),
        k < scores.len(),
        forall|i: int| 0 <= i < scores.len() ==> (#[trigger] scores[i]).wf(),
        entry == (k, scores[k as int]),
        0 <= pos <= before.len(),
        forall|p: int| 0 <= p < pos ==> !entry.1.above((#[trigger] before[p]).1),
        pos < before.len() ==> entry.1.above(before[pos].1),
    ensures
        ranks(scores, before.insert(pos, entry), (k + 1) as nat),
{
    let after = before.insert(pos, entry);
    assert(after.len() == before.len() + 1);
    assert forall|q: int| 0 <= q < after.len() implies #[trigger] after[q] == (if q < pos {
        before[q]
    } else if q == pos {
        entry
    } else {
        before[q - 1]
    }) by {}
    assert forall|p: int| 0 <= p < after.len() implies (#[trigger] after[p]).0 < k + 1
        && after[p].1 == scores[after[p].0 as int] by {
        if p < pos {
            assert(after[p] == before[p]);
        } else if p > pos {
            assert(after[p] == before[p - 1]);
        }
    }
    assert forall|j: int| 0 <= j < k + 1 implies #[trigger] placed(after, j) by {
        if j == k {
            assert(after[pos].0 == j);
        } else {
            assert(placed(before, j));
            let p = choose|p: int| 0 <= p < before.len() && (#[trigger] before[p]).0 == j;
            if p < pos {
                assert(after[p].0 == j);
            } else {
                assert(after[p + 1].0 == j);
            }
        }
    }
    assert forall|p: int, q: int| 0 <= p < q < after.len() implies ranks_before(
        #[trigger] after[p],
        #[trigger] after[q],
    ) by {
        if q < pos {
            assert(ranks_before(before[p], before[q]));
        } else if q == pos {
            assert(after[p] == before[p]);
            assert(!entry.1.above(before[p].1));
            assert(before[p].0 < k);
        } else if p == pos {
            let first = before[pos];
            let later = before[q - 1];
            assert(after[q] == later);
            if q - 1 > pos {
                assert(ranks_before(first, later));
            }
            assert(!later.1.above(first.1));
            assert(scores[first.0 as int].wf());
            assert(scores[later.0 as int].wf());
            lemma_above_carries(entry.1, first.1, later.1);
        } else if p < pos {
            assert(after[p] == before[p]);
            assert(after[q] == before[q - 1]);
            assert(ranks_before(before[p], before[q - 1]));
        } else {
            assert(after[p] == before[p - 1]);
            assert(after[q] == before[q - 1]);
            assert(ranks_before(before[p - 1], before[q - 1]));
        }
    }
}

/// Two sequences in rank order that hold the same entries are equal.
proof fn lemma_rank_order_unique(x: Seq<(usize, Ratio)>, y: Seq<(usize, Ratio)>)
    requires
        forall|p: int, q: int|
            0 <= p < q < x.len() ==> ranks_before(#[trigger] x[p], #[trigger] x[q]),
        forall|p: int, q: int|
            0 <= p < q < y.len() ==> ranks_before(#[trigger] y[p], #[trigger] y[q]),
        forall|e: (usize, Ratio)| x.contains(e) <==> y.contains(e),
    ensures
        x =~= y,
    decreases x.len(),
{
    if x.len() == 0 {
        if y.len() > 0 {
            assert(y.contains(y[0]));
        }
    } else if y.len() == 0 {
        assert(x.contains(x[0]));
    } else {
        assert(x.contains(x[0]));
        assert(y.contains(y[0]));
        let j = choose|j: int| 0 <= j < y.len() && y[j] == x[0];
        let i = choose|i: int| 0 <= i < x.len() && x[i] == y[0];
        if j > 0 {
            assert(ranks_before(y[0], y[j]));
            if i > 0 {
                assert(ranks_before(x[0], x[i]));
            }
        }
        assert(x[0] == y[0]);
        let xs = x.drop_first();
        let ys = y.drop_first();
        assert forall|e: (usize, Ratio)| xs.contains(e) <==> ys.contains(e) by {
            if xs.contains(e) {
                let p = choose|p: int| 0 <= p < xs.len() && xs[p] == e;
                assert(ranks_before(x[0], x[p + 1]));
                assert(x.contains(x[p + 1]));
                let q = choose|q: int| 0 <= q < y.len() && y[q] == e;
                assert(ys[q - 1] == e);
            }
            if ys.contains(e) {
                let p = choose|p: int| 0 <= p < ys.len() && ys[p] == e;
                assert(ranks_before(y[0], y[p + 1]));
                assert(y.contains(y[p + 1]));
                let q = choose|q: int| 0 <= q < x.len() && x[q] == e;
                assert(xs[q - 1] == e);
            }
        }
        assert forall|p: int, q: int| 0 <= p < q < xs.len() implies ranks_before(
            #[trigger] xs[p],
            #[trigger] xs[q],
        ) by {
            assert(ranks_before(x[p + 1], x[q + 1]));
        }
        assert forall|p: int, q: int| 0 <= p < q < ys.len() implies ranks_before(
            #[trigger] ys[p],
            #[trigger] ys[q],
        ) by {
            assert(ranks_before(y[p + 1], y[q + 1]));
        }
        lemma_rank_order_unique(xs, ys);
        assert(x =~= seq![x[0]] + xs);
        assert(y =~= seq![y[0]] + ys);
    }
}

/// Scores have one ranking: two sequences that are both the ranking of the
/// same scores are equal.
pub proof fn lemma_ranking_unique(scores: Seq<Ratio>, a: Seq<(usize, Ratio)>, b: Seq<(usize, Ratio)>)
    requires
        is_ranking(scores, a),
        is_ranking(scores, b),
    ensures
        a == b,
{
    assert forall|e: (usize, Ratio)| a.contains(e) <==> b.contains(e) by {
        if a.contains(e) {
            let p = choose|p: int| 0 <= p < a.len() && a[p] == e;
            assert(placed(b, a[p].0 as int));
            let q = choose|q: int| 0 <= q < b.len() && (#[trigger] b[q]).0 == a[p].0 as int;
            assert(b[q] == e);
        }
        if b.contains(e) {
            let p = choose|p: int| 0 <= p < b.len() && b[p] == e;
            assert(placed(a, b[p].0 as int));
            let q = choose|q: int| 0 <= q < a.len() && (#[trigger] a[q]).0 == b[p].0 as int;
            assert(a[q] == e);
        }
    }
    lemma_rank_order_unique(a, b);
}

/// Ranks the nodes `0..scores.len()` by score, highest first; nodes of equal
/// score keep the order of their indices.
pub fn rank(scores: &Vec<Ratio>) -> (ranking: Vec<(usize, Ratio)>)
    requires
        forall|i: int| 0 <= i < scores.len() ==> (#[trigger] scores@[i]).wf(),
    ensures
        is_ranking(scores@, ranking@),
{
    let mut ranking: Vec<(usize, Ratio)> = Vec::new();
    let mut k: usize = 0;
    while k < scores.len()
        invariant
            forall|i: int| 0 <= i < scores.len() ==> (#[trigger] scores@[i]).wf(),
            ranks(scores@, ranking@, k as nat),
        decreases scores.len() - k,
    {
        let entry = (k, scores[k]);
        let mut pos: usize = 0;
        while pos < ranking.len() && !entry.1.exceeds(&ranking[pos].1)
            invariant
                pos <= ranking.len(),
                forall|p: int| 0 <= p < pos ==> !entry.1.above((#[trigger] ranking@[p]).1),
            decreases ranking.len() - pos,
        {
            pos += 1;
        }
        proof {
            lemma_insert_ranked(scores@, ranking@, k, pos as int, entry);
        }
        ranking.insert(pos, entry);
        k += 1;
    }
    ranking
}

} // verus!
