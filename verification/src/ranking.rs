//! The order in which scored candidates are reported.
//!
//! Candidates are ranked by descending score. Candidates whose scores are the
//! same number keep the order in which they were handed in, and a score that is
//! a NaN ranks below every number. So the order is determined by the scores
//! alone, whatever they are.
use crate::ieee::Double;
use vstd::prelude::*;

verus! {

/// Candidate `a` is reported before candidate `b`: it ranks higher, or it
/// ranks the same and was handed in earlier.
pub open spec fn ranks_before(scores: Seq<Double>, a: int, b: int) -> bool {
    scores[a].rank() > scores[b].rank() || (scores[a].rank() == scores[b].rank() && a < b)
}

/// `order` lists the positions of all the scores, each once, so that every
/// position is reported before all those that follow it.
pub open spec fn is_ranking(order: Seq<usize>, scores: Seq<Double>) -> bool {
    &&& order.len() == scores.len()
    &&& forall|k: int| 0 <= k < order.len() ==> (#[trigger] order[k]) < scores.len()
    &&& forall|i: usize| i < scores.len() ==> #[trigger] order.contains(i)
    &&& forall|k: int, l: int|
        0 <= k < l < order.len() ==> ranks_before(scores, #[trigger] order[k] as int, #[trigger] order[l] as int)
}

/// The ranking of the scores. There is one and only one, as
/// `law_ranking_exists` and `law_ranking_is_unique` show.
pub open spec fn ranking_of(scores: Seq<Double>) -> Seq<usize> {
    choose|order: Seq<usize>| is_ranking(order, scores)
}

/// Ranks the scores: the result names their positions from the highest score
/// to the lowest.
pub fn rank_order(scores: &Vec<Double>) -> (order: Vec<usize>)
    ensures
        order@ == ranking_of(scores@),
        is_ranking(order@, scores@),
{
    let mut order: Vec<usize> = Vec::new();
    let mut i: usize = 0;
    while i < scores.len()
        invariant
            i <= scores.len(),
            order.len() == i,
            forall|k: int| 0 <= k < order.len() ==> (#[trigger] order[k]) < i,
            forall|n: usize| n < i ==> #[trigger] order@.contains(n),
            forall|k: int, l: int|
                0 <= k < l < order.len() ==> ranks_before(
                    scores@,
                    #[trigger] order[k] as int,
                    #[trigger] order[l] as int,
                ),
        decreases scores.len() - i,
    {
        let key = scores[i].rank_key();
        let mut at: usize = 0;
        while at < order.len() && scores[order[at]].rank_key() >= key
            invariant
                i < scores.len(),
                at <= order.len(),
                order.len() == i,
                key == scores[i as int].rank(),
                forall|k: int| 0 <= k < order.len() ==> (#[trigger] order[k]) < i,
                forall|k: int| 0 <= k < at ==> scores[(#[trigger] order[k]) as int].rank() >= key,
            decreases order.len() - at,
        {
            at = at + 1;
        }
        let ghost before = order@;
        order.insert(at, i);
        proof {
            assert forall|k: int, l: int| 0 <= k < l < order.len() implies ranks_before(
                scores@,
                #[trigger] order[k] as int,
                #[trigger] order[l] as int,
            ) by {
                if l < at {
                    assert(order[k] == before[k] && order[l] == before[l]);
                } else if l == at {
                    assert(order[k] == before[k]);
                } else if k < at {
                    assert(order[k] == before[k] && order[l] == before[l - 1]);
                } else if k == at {
                    assert(order[l] == before[l - 1]);
                    if at < l - 1 {
                        assert(ranks_before(scores@, before[at as int] as int, before[l - 1] as int));
                    }
                } else {
                    assert(order[k] == before[k - 1] && order[l] == before[l - 1]);
                }
            }
            assert forall|n: usize| n < i + 1 implies #[trigger] order@.contains(n) by {
                if n == i {
                    assert(order[at as int] == n);
                } else {
                    assert(before.contains(n));
                    let k = choose|k: int| 0 <= k < before.len() && before[k] == n;
                    if k < at {
                        assert(order[k] == n);
                    } else {
                        assert(order[k + 1] == n);
                    }
                }
            }
            assert forall|k: int| 0 <= k < order.len() implies (#[trigger] order[k]) < i + 1 by {
                if k < at {
                    assert(order[k] == before[k]);
                } else if k > at {
                    assert(order[k] == before[k - 1]);
                }
            }
        }
        i = i + 1;
    }
    proof {
        law_ranking_is_unique(order@, ranking_of(scores@), scores@);
    }
    order
}

proof fn lemma_rankings_agree(a: Seq<usize>, b: Seq<usize>, scores: Seq<Double>, k: int)
    requires
        is_ranking(a, scores),
        is_ranking(b, scores),
        0 <= k <= scores.len(),
    ensures
        forall|j: int| 0 <= j < k ==> a[j] == b[j],
    decreases k,
{
    if k > 0 {
        lemma_rankings_agree(a, b, scores, k - 1);
        let x = a[k - 1];
        let y = b[k - 1];
        if x != y {
            assert(b.contains(x));
            let at_b = choose|i: int| 0 <= i < b.len() && b[i] == x;
            assert(a.contains(y));
            let at_a = choose|i: int| 0 <= i < a.len() && a[i] == y;
            if at_b < k - 1 {
                assert(ranks_before(scores, a[at_b] as int, a[k - 1] as int));
            } else {
                assert(ranks_before(scores, b[k - 1] as int, b[at_b] as int));
            }
            if at_a < k - 1 {
                assert(ranks_before(scores, b[at_a] as int, b[k - 1] as int));
            } else {
                assert(ranks_before(scores, a[k - 1] as int, a[at_a] as int));
            }
        }
    }
}

/// Scores have one ranking only: whatever meets `is_ranking` is the order
/// that `rank_order` gives.
pub proof fn law_ranking_is_unique(a: Seq<usize>, b: Seq<usize>, scores: Seq<Double>)
    requires
        is_ranking(a, scores),
        is_ranking(b, scores),
    ensures
        a == b,
{
    lemma_rankings_agree(a, b, scores, scores.len() as int);
    assert(a =~= b);
}

/// Scores have a ranking, whatever they are, and `ranking_of` is it.
pub proof fn law_ranking_exists(scores: Seq<Double>)
    requires
        scores.len() <= usize::MAX,
    ensures
        is_ranking(ranking_of(scores), scores),
    decreases scores.len(),
{
    if scores.len() == 0 {
        assert(is_ranking(Seq::<usize>::empty(), scores));
    } else {
        let rest = scores.drop_last();
        law_ranking_exists(rest);
        let before = ranking_of(rest);
        let i = rest.len() as usize;
        let key = scores[i as int].rank();
        let at = lowest_below(before, rest, key, 0);
        lemma_lowest_below(before, rest, key, 0);
        let order = before.insert(at, i);
        assert forall|k: int| 0 <= k < order.len() implies (#[trigger] order[k]) < scores.len() by {
            if k < at {
                assert(order[k] == before[k]);
            } else if k > at {
                assert(order[k] == before[k - 1]);
            }
        }
        assert forall|n: usize| n < scores.len() implies #[trigger] order.contains(n) by {
            if n == i {
                assert(order[at] == n);
            } else {
                assert(before.contains(n));
                let k = choose|k: int| 0 <= k < before.len() && before[k] == n;
                if k < at {
                    assert(order[k] == n);
                } else {
                    assert(order[k + 1] == n);
                }
            }
        }
        assert forall|k: int, l: int| 0 <= k < l < order.len() implies ranks_before(
            scores,
            #[trigger] order[k] as int,
            #[trigger] order[l] as int,
        ) by {
            if l < at {
                assert(order[k] == before[k] && order[l] == before[l]);
                assert(ranks_before(rest, before[k] as int, before[l] as int));
            } else if l == at {
                assert(order[k] == before[k]);
            } else if k < at {
                assert(order[k] == before[k] && order[l] == before[l - 1]);
                assert(ranks_before(rest, before[k] as int, before[l - 1] as int));
            } else if k == at {
                assert(order[l] == before[l - 1]);
            } else {
                assert(order[k] == before[k - 1] && order[l] == before[l - 1]);
                assert(ranks_before(rest, before[k - 1] as int, before[l - 1] as int));
            }
        }
        assert(is_ranking(order, scores));
    }
}

/// The first place from `from` on whose score ranks below `key`, or the
/// length of the order where there is none.
spec fn lowest_below(order: Seq<usize>, scores: Seq<Double>, key: int, from: int) -> int
    decreases order.len() - from,
{
    if from < 0 || from >= order.len() {
        order.len() as int
    } else if scores[order[from] as int].rank() < key {
        from
    } else {
        lowest_below(order, scores, key, from + 1)
    }
}

proof fn lemma_lowest_below(order: Seq<usize>, scores: Seq<Double>, key: int, from: int)
    requires
        is_ranking(order, scores),
        0 <= from <= order.len(),
    ensures
        from <= lowest_below(order, scores, key, from) <= order.len(),
        forall|k: int|
            from <= k < lowest_below(order, scores, key, from) ==> scores[(
            #[trigger] order[k]) as int].rank() >= key,
        forall|k: int|
            lowest_below(order, scores, key, from) <= k < order.len() ==> scores[(
            #[trigger] order[k]) as int].rank() < key,
    decreases order.len() - from,
{
    if from < order.len() {
        if scores[order[from] as int].rank() < key {
            assert forall|k: int| from <= k < order.len() implies scores[(
            #[trigger] order[k]) as int].rank() < key by {
                if from < k {
                    assert(ranks_before(scores, order[from] as int, order[k] as int));
                }
            }
        } else {
            lemma_lowest_below(order, scores, key, from + 1);
        }
    }
}

/// A ranking never reports a score before a greater one, and between two
/// scores that are the same number it keeps the order in which they came.
pub proof fn law_ranking_descends(order: Seq<usize>, scores: Seq<Double>, k: int, l: int)
    requires
        is_ranking(order, scores),
        0 <= k < l < order.len(),
    ensures
        !scores[order[k] as int].spec_lt(scores[order[l] as int]),
        scores[order[k] as int].rank() == scores[order[l] as int].rank() ==> order[k] < order[l],
{
    assert(ranks_before(scores, order[k] as int, order[l] as int));
}

} // verus!
