//! The order in which the moves at the root are searched: best score
//! first, and among moves of one score the one that was listed first.

use vstd::prelude::*;
use crate::score::Score;

verus! {

/// A move and the score it had when it was last searched.
pub type Scored = ((u32, u32), Score);

/// The ranks of the scores of the entries, in their order.
pub open spec fn ranks_of(scores: Seq<Scored>) -> Seq<int> {
    scores.map_values(|e: Scored| e.1.rank())
}

/// The moves of the entries, in their order.
pub open spec fn moves_of(scores: Seq<Scored>) -> Seq<(u32, u32)> {
    scores.map_values(|e: Scored| e.0)
}

/// The entry `a` comes before the entry `b`: it has the larger rank, or
/// the same rank and the earlier place in the list.
pub open spec fn precedes(ranks: Seq<int>, a: int, b: int) -> bool {
    ranks[a] > ranks[b] || (ranks[a] == ranks[b] && a < b)
}

/// `sorted` with the index `x` put in behind every index whose rank is at
/// least that of `x`.
pub open spec fn insert_index(ranks: Seq<int>, sorted: Seq<int>, x: int) -> Seq<int>
    decreases sorted.len(),
{
    if sorted.len() == 0 {
        seq![x]
    } else if ranks[sorted.last()] >= ranks[x] {
        sorted.push(x)
    } else {
        insert_index(ranks, sorted.drop_last(), x).push(sorted.last())
    }
}

/// The indices below `n` by descending rank; indices of one rank come in
/// ascending order.
pub open spec fn order_by_rank(ranks: Seq<int>, n: nat) -> Seq<int>
    decreases n,
{
    if n == 0 {
        Seq::empty()
    } else {
        insert_index(ranks, order_by_rank(ranks, (n - 1) as nat), n - 1)
    }
}

/// Each index of `order` comes before every later one.
pub open spec fn in_order(ranks: Seq<int>, order: Seq<int>) -> bool {
    forall|i: int, j: int| 0 <= i < j < order.len() ==> precedes(ranks, order[i], order[j])
}

/// Putting in an index that is larger than all that are there keeps the
/// order, and adds that index and no other.
pub proof fn lemma_insert_index(ranks: Seq<int>, sorted: Seq<int>, x: int)
    requires
        x >= 0,
        in_order(ranks, sorted),
        forall|k: int| 0 <= k < sorted.len() ==> 0 <= #[trigger] sorted[k] < x,
    ensures
        in_order(ranks, insert_index(ranks, sorted, x)),
        insert_index(ranks, sorted, x).len() == sorted.len() + 1,
        insert_index(ranks, sorted, x).contains(x),
        forall|k: int| 0 <= k < sorted.len() ==> insert_index(ranks, sorted, x).contains(sorted[k]),
        forall|k: int|
            0 <= k < insert_index(ranks, sorted, x).len() ==> 0 <= #[trigger] insert_index(
                ranks,
                sorted,
                x,
            )[k] <= x,
        forall|k: int|
            0 <= k < insert_index(ranks, sorted, x).len() ==> #[trigger] insert_index(
                ranks,
                sorted,
                x,
            )[k] == x || sorted.contains(insert_index(ranks, sorted, x)[k]),
    decreases sorted.len(),
{
    let out = insert_index(ranks, sorted, x);
    if sorted.len() == 0 {
        assert(out[0] == x);
    } else if ranks[sorted.last()] >= ranks[x] {
        assert(out[sorted.len() as int] == x);
        assert forall|k: int| 0 <= k < sorted.len() implies out.contains(sorted[k]) by {
            assert(out[k] == sorted[k]);
        }
        assert forall|k: int| 0 <= k < out.len() implies #[trigger] out[k] == x || sorted.contains(
            out[k],
        ) by {
            if k < sorted.len() {
                assert(sorted[k] == out[k]);
            }
        }
        assert forall|k: int| 0 <= k < out.len() implies 0 <= #[trigger] out[k] <= x by {
            if k < sorted.len() {
                assert(sorted[k] == out[k]);
            }
        }
        assert forall|i: int, j: int| 0 <= i < j < out.len() implies precedes(
            ranks,
            out[i],
            out[j],
        ) by {
            if j == sorted.len() {
                assert(out[i] == sorted[i]);
                if i < sorted.len() - 1 {
                    assert(precedes(ranks, sorted[i], sorted[sorted.len() - 1]));
                }
            } else {
                assert(out[i] == sorted[i] && out[j] == sorted[j]);
            }
        }
    } else {
        let front = sorted.drop_last();
        let last = sorted.last();
        assert forall|k: int| 0 <= k < front.len() implies 0 <= #[trigger] front[k] < x by {
            assert(front[k] == sorted[k]);
        }
        assert(in_order(ranks, front)) by {
            assert forall|i: int, j: int| 0 <= i < j < front.len() implies precedes(
                ranks,
                front[i],
                front[j],
            ) by {
                assert(front[i] == sorted[i] && front[j] == sorted[j]);
            }
        }
        lemma_insert_index(ranks, front, x);
        let inner = insert_index(ranks, front, x);
        assert(out == inner.push(last));
        let w = choose|w: int| 0 <= w < inner.len() && inner[w] == x;
        assert(out[w] == x);
        assert forall|k: int| 0 <= k < sorted.len() implies out.contains(sorted[k]) by {
            if k < front.len() {
                assert(front[k] == sorted[k]);
                assert(inner.contains(front[k]));
                let v = choose|v: int| 0 <= v < inner.len() && inner[v] == front[k];
                assert(out[v] == sorted[k]);
            } else {
                assert(out[inner.len() as int] == sorted[k]);
            }
        }
        assert forall|k: int| 0 <= k < out.len() implies #[trigger] out[k] == x || sorted.contains(
            out[k],
        ) by {
            if k < inner.len() {
                assert(out[k] == inner[k]);
                if inner[k] != x {
                    let v = choose|v: int| 0 <= v < front.len() && front[v] == inner[k];
                    assert(sorted[v] == inner[k]);
                }
            } else {
                assert(sorted[sorted.len() - 1] == out[k]);
            }
        }
        assert forall|k: int| 0 <= k < out.len() implies 0 <= #[trigger] out[k] <= x by {
            if k < inner.len() {
                assert(out[k] == inner[k]);
            }
        }
        assert forall|i: int, j: int| 0 <= i < j < out.len() implies precedes(
            ranks,
            out[i],
            out[j],
        ) by {
            if j < inner.len() {
                assert(out[i] == inner[i] && out[j] == inner[j]);
            } else {
                assert(out[i] == inner[i]);
                if inner[i] != x {
                    let v = choose|v: int| 0 <= v < front.len() && front[v] == inner[i];
                    assert(sorted[v] == inner[i]);
                    assert(precedes(ranks, sorted[v], sorted[sorted.len() - 1]));
                }
            }
        }
    }
}

/// The order by rank lists every index below `n`, each once, and each
/// index before every one that it precedes: ranks do not go up, and of two
/// entries of one rank the one listed first comes first.
pub proof fn lemma_order_by_rank(ranks: Seq<int>, n: nat)
    ensures
        order_by_rank(ranks, n).len() == n,
        in_order(ranks, order_by_rank(ranks, n)),
        forall|k: int| 0 <= k < n ==> 0 <= #[trigger] order_by_rank(ranks, n)[k] < n,
        forall|i: int| 0 <= i < n ==> order_by_rank(ranks, n).contains(i),
    decreases n,
{
    if n > 0 {
        let before = order_by_rank(ranks, (n - 1) as nat);
        lemma_order_by_rank(ranks, (n - 1) as nat);
        lemma_insert_index(ranks, before, n - 1);
        let out = order_by_rank(ranks, n);
        assert forall|i: int| 0 <= i < n implies out.contains(i) by {
            if i < n - 1 {
                assert(before.contains(i));
                let k = choose|k: int| 0 <= k < before.len() && before[k] == i;
                assert(out.contains(before[k]));
            }
        }
    }
}

/// The indices of `scores` by descending score. Entries of one score come
/// in the order in which they are listed.
pub fn priority_indices(scores: &Vec<Scored>) -> (order: Vec<usize>)
    ensures
        order@.len() == scores@.len(),
        forall|k: int|
            0 <= k < order@.len() ==> #[trigger] order@[k] == order_by_rank(
                ranks_of(scores@),
                scores@.len(),
            )[k],
        forall|k: int| 0 <= k < order@.len() ==> #[trigger] order@[k] < scores@.len(),
{
    let ghost ranks = ranks_of(scores@);
    let mut sorted: Vec<usize> = Vec::new();
    let ghost mut model: Seq<int> = Seq::empty();
    let mut i: usize = 0;
    while i < scores.len()
        invariant
            i <= scores@.len(),
            ranks == ranks_of(scores@),
            model == order_by_rank(ranks, i as nat),
            sorted@.len() == i,
            sorted@.len() == model.len(),
            forall|k: int| 0 <= k < i ==> #[trigger] sorted@[k] == model[k],
            forall|k: int| 0 <= k < i ==> #[trigger] sorted@[k] < i,
        decreases scores@.len() - i,
    {
        let mut j: usize = sorted.len();
        assert(model.take(j as int) =~= model);
        assert(model.skip(j as int) =~= Seq::empty());
        while j > 0 && scores[sorted[j - 1]].1.lt(&scores[i].1)
            invariant
                j <= sorted@.len(),
                i < scores@.len(),
                ranks == ranks_of(scores@),
                sorted@.len() == model.len(),
                forall|k: int| 0 <= k < sorted@.len() ==> #[trigger] sorted@[k] == model[k],
                forall|k: int| 0 <= k < sorted@.len() ==> #[trigger] sorted@[k] < i,
                insert_index(ranks, model, i as int) == insert_index(
                    ranks,
                    model.take(j as int),
                    i as int,
                ) + model.skip(j as int),
            decreases j,
        {
            proof {
                let front = model.take(j as int);
                assert(front.last() == model[j - 1]);
                assert(front.drop_last() =~= model.take(j - 1));
                assert(insert_index(ranks, front, i as int) == insert_index(
                    ranks,
                    model.take(j - 1),
                    i as int,
                ).push(model[j - 1]));
                assert(insert_index(ranks, model.take(j - 1), i as int).push(model[j - 1])
                    + model.skip(j as int) =~= insert_index(ranks, model.take(j - 1), i as int)
                    + model.skip(j - 1));
            }
            j -= 1;
        }
        proof {
            let front = model.take(j as int);
            if j > 0 {
                assert(front.last() == model[j - 1]);
            }
            assert(insert_index(ranks, front, i as int) =~= front.push(i as int));
            assert(front.push(i as int) + model.skip(j as int) =~= model.insert(j as int, i as int));
            model = model.insert(j as int, i as int);
        }
        sorted.insert(j, i);
        i += 1;
    }
    sorted
}

/// The moves of `scores` by descending score. Moves of one score come in
/// the order in which they are listed.
pub fn move_priority(scores: &Vec<Scored>) -> (moves: Vec<(u32, u32)>)
    ensures
        moves@.len() == scores@.len(),
        forall|k: int|
            0 <= k < moves@.len() ==> #[trigger] moves@[k] == scores@[order_by_rank(
                ranks_of(scores@),
                scores@.len(),
            )[k]].0,
{
    let order = priority_indices(scores);
    let mut moves: Vec<(u32, u32)> = Vec::new();
    let mut k: usize = 0;
    while k < order.len()
        invariant
            k <= order@.len(),
            order@.len() == scores@.len(),
            forall|j: int|
                0 <= j < order@.len() ==> #[trigger] order@[j] == order_by_rank(
                    ranks_of(scores@),
                    scores@.len(),
                )[j],
            forall|j: int| 0 <= j < order@.len() ==> #[trigger] order@[j] < scores@.len(),
            moves@.len() == k,
            forall|j: int| 0 <= j < k ==> #[trigger] moves@[j] == scores@[order@[j] as int].0,
        decreases order@.len() - k,
    {
        moves.push(scores[order[k]].0);
        k += 1;
    }
    moves
}

} // verus!
