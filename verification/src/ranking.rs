//! Ranking by score.
//!
//! Images are ranked by their scores, lowest first; of two images with the
//! same score the one that stands earlier in the corpus comes first. A ranking
//! holds at most `limit` images, and leaves an image out only where `limit`
//! others come before it.

use vstd::prelude::*;

verus! {

/// In a ranking by `scores`, image `i` comes before image `j`.
pub open spec fn ranks_before(scores: Seq<usize>, i: int, j: int) -> bool {
    scores[i] < scores[j] || (scores[i] == scores[j] && i < j)
}

/// `order` ranks the first `count` images of `scores`, keeping at most
/// `limit` of them:
///
/// - it holds all of them, or `limit` of them where there are more;
/// - it holds positions of images, each before every one behind it;
/// - an image is left out only of a full ranking, and then every image of the
///   ranking comes before it.
pub open spec fn ranks_first(scores: Seq<usize>, count: int, limit: usize, order: Seq<usize>) -> bool {
    &&& order.len() == if count <= limit {
        count
    } else {
        limit as int
    }
    &&& forall|k: int| 0 <= k < order.len() ==> (#[trigger] order[k]) < count
    &&& forall|k: int, l: int|
        0 <= k < l < order.len() ==> ranks_before(
            scores,
            (#[trigger] order[k]) as int,
            (#[trigger] order[l]) as int,
        )
    &&& forall|j: usize| j < count && !(#[trigger] order.contains(j)) ==> order.len() == limit
    &&& forall|k: int, j: usize|
        0 <= k < order.len() && j < count && !(#[trigger] order.contains(j)) ==> ranks_before(
            scores,
            (#[trigger] order[k]) as int,
            j as int,
        )
}

/// `order` is the ranking of all images of `scores` with at most `limit`
/// entries: the positions of the images in the corpus, best first.
pub open spec fn is_ranking(scores: Seq<usize>, limit: usize, order: Seq<usize>) -> bool {
    ranks_first(scores, scores.len() as int, limit, order)
}

/// One set of scores has one ranking: two orders that both rank `scores` with
/// the same limit are the same order.
pub proof fn lemma_ranking_unique(
    scores: Seq<usize>,
    limit: usize,
    first: Seq<usize>,
    second: Seq<usize>,
)
    requires
        is_ranking(scores, limit, first),
        is_ranking(scores, limit, second),
    ensures
        first == second,
{
    assert forall|k: int| 0 <= k < first.len() implies first[k] == second[k] by {
        lemma_same_entry(scores, limit, first, second, k);
    }
    assert(first =~= second);
}

proof fn lemma_same_entry(
    scores: Seq<usize>,
    limit: usize,
    first: Seq<usize>,
    second: Seq<usize>,
    k: int,
)
    requires
        is_ranking(scores, limit, first),
        is_ranking(scores, limit, second),
        0 <= k < first.len(),
    ensures
        first[k] == second[k],
    decreases k,
{
    assert forall|m: int| 0 <= m < k implies first[m] == second[m] by {
        lemma_same_entry(scores, limit, first, second, m);
    }
    if first[k] != second[k] {
        lemma_not_later(scores, limit, first, second, k);
        lemma_not_later(scores, limit, second, first, k);
    }
}

/// Where two rankings agree before position `k`, the entry of the first at
/// `k` does not rank behind the entry of the second.
proof fn lemma_not_later(
    scores: Seq<usize>,
    limit: usize,
    first: Seq<usize>,
    second: Seq<usize>,
    k: int,
)
    requires
        is_ranking(scores, limit, first),
        is_ranking(scores, limit, second),
        0 <= k < first.len(),
        forall|m: int| 0 <= m < k ==> first[m] == second[m],
    ensures
        !ranks_before(scores, second[k] as int, first[k] as int),
{
    let x = second[k];
    if ranks_before(scores, x as int, first[k] as int) {
        if first.contains(x) {
            let m = choose|m: int| 0 <= m < first.len() && first[m] == x;
            if m < k {
                assert(second[m] == x);
                assert(ranks_before(scores, second[m] as int, second[k] as int));
            } else if m > k {
                assert(ranks_before(scores, first[k] as int, first[m] as int));
            }
        } else {
            assert(ranks_before(scores, first[k] as int, x as int));
        }
    }
}

/// Ranks the images by `scores`: lowest score first, earlier image first
/// among equal scores, and no more than `limit` of them.
pub fn rank(scores: &Vec<usize>, limit: usize) -> (order: Vec<usize>)
    ensures
        is_ranking(scores@, limit, order@),
{
    let mut order: Vec<usize> = Vec::new();
    let mut i: usize = 0;
    while i < scores.len()
        invariant
            i <= scores@.len(),
            ranks_first(scores@, i as int, limit, order@),
        decreases scores@.len() - i,
    {
        let score = scores[i];
        let mut p: usize = order.len();
        while p > 0 && scores[order[p - 1]] > score
            invariant
                i < scores@.len(),
                score == scores@[i as int],
                p <= order@.len(),
                ranks_first(scores@, i as int, limit, order@),
                forall|l: int| p <= l < order@.len() ==> scores@[(#[trigger] order@[l]) as int] > score,
            decreases p,
        {
            p = p - 1;
        }
        proof {
            assert forall|k: int| 0 <= k < p implies scores@[(#[trigger] order@[k]) as int]
                <= score by {
                if k < p - 1 {
                    assert(ranks_before(scores@, order@[k] as int, order@[p - 1] as int));
                }
            }
        }
        if p < limit {
            let ghost old_order = order@;
            order.insert(p, i);
            if order.len() > limit {
                order.pop();
            }
            proof {
                lemma_rank_insert(scores@, i as int, limit, old_order, p as int, order@);
            }
        } else {
            proof {
                lemma_rank_skip(scores@, i as int, limit, order@);
            }
        }
        i = i + 1;
    }
    order
}

/// Putting image `count` at position `at` of a ranking of the images before
/// it, and dropping the last entry where that makes one too many, ranks the
/// images up to and with `count`.
proof fn lemma_rank_insert(
    scores: Seq<usize>,
    count: int,
    limit: usize,
    old_order: Seq<usize>,
    at: int,
    order: Seq<usize>,
)
    requires
        0 <= count < scores.len(),
        count <= usize::MAX,
        ranks_first(scores, count, limit, old_order),
        0 <= at <= old_order.len(),
        at < limit,
        forall|k: int| 0 <= k < at ==> scores[(#[trigger] old_order[k]) as int] <= scores[count],
        forall|l: int|
            at <= l < old_order.len() ==> scores[(#[trigger] old_order[l]) as int] > scores[count],
        order == if old_order.len() + 1 > limit {
            old_order.insert(at, count as usize).drop_last()
        } else {
            old_order.insert(at, count as usize)
        },
    ensures
        ranks_first(scores, count + 1, limit, order),
{
    let me = count as usize;
    let full = old_order.insert(at, me);
    assert(full.len() == old_order.len() + 1);
    assert(forall|k: int| 0 <= k < at ==> full[k] == old_order[k]);
    assert(full[at] == me);
    assert(forall|k: int| at < k < full.len() ==> full[k] == old_order[k - 1]);
    assert(forall|k: int| 0 <= k < order.len() ==> order[k] == full[k]);
    assert(at < order.len());
    assert(order[at] == me);
    assert(order.contains(me));
    // every entry of the old ranking is still there, but for a dropped last one
    assert forall|m: int|
        0 <= m < old_order.len() && (m < at || m + 1 < order.len()) implies order.contains(
        #[trigger] old_order[m],
    ) by {
        if m < at {
            assert(order[m] == old_order[m]);
        } else {
            assert(order[m + 1] == old_order[m]);
        }
    }
    assert forall|k: int, l: int| 0 <= k < l < order.len() implies ranks_before(
        scores,
        (#[trigger] order[k]) as int,
        (#[trigger] order[l]) as int,
    ) by {
        if l < at {
            assert(ranks_before(scores, old_order[k] as int, old_order[l] as int));
        } else if l == at {
            assert(order[k] == old_order[k]);
        } else if k < at {
            assert(ranks_before(scores, old_order[k] as int, old_order[l - 1] as int));
        } else if k == at {
            assert(order[l] == old_order[l - 1]);
        } else {
            assert(ranks_before(scores, old_order[k - 1] as int, old_order[l - 1] as int));
        }
    }
    assert forall|j: usize| j < count + 1 && !(#[trigger] order.contains(j)) implies order.len()
        == limit && old_order.len() == limit by {
        if old_order.contains(j) {
            let m = choose|m: int| 0 <= m < old_order.len() && old_order[m] == j;
            assert(!(m < at || m + 1 < order.len()));
        }
    }
    assert forall|k: int, j: usize|
        0 <= k < order.len() && j < count + 1 && !(#[trigger] order.contains(j)) implies ranks_before(
        scores,
        (#[trigger] order[k]) as int,
        j as int,
    ) by {
        // `j` is the last entry of the old ranking, or comes behind that entry
        let last = old_order.len() - 1;
        assert(old_order.len() == limit);
        assert(at <= last);
        if old_order.contains(j) {
            let m = choose|m: int| 0 <= m < old_order.len() && old_order[m] == j;
            assert(!(m < at || m + 1 < order.len()));
            assert(m == last);
        } else {
            assert(ranks_before(scores, old_order[last] as int, j as int));
        }
        if k < at {
            if k < last {
                assert(ranks_before(scores, old_order[k] as int, old_order[last] as int));
            }
        } else if k == at {
            assert(scores[old_order[at] as int] > scores[count]);
            if at < last {
                assert(ranks_before(scores, old_order[at] as int, old_order[last] as int));
            }
        } else {
            assert(order[k] == old_order[k - 1]);
            assert(ranks_before(scores, old_order[k - 1] as int, old_order[last] as int));
        }
    }
}

/// A ranking that is full, and whose every entry scores no higher than image
/// `count`, also ranks the images up to and with `count`.
proof fn lemma_rank_skip(scores: Seq<usize>, count: int, limit: usize, order: Seq<usize>)
    requires
        0 <= count < scores.len(),
        ranks_first(scores, count, limit, order),
        order.len() >= limit,
        forall|k: int| 0 <= k < order.len() ==> scores[(#[trigger] order[k]) as int] <= scores[count],
    ensures
        ranks_first(scores, count + 1, limit, order),
{
    assert forall|k: int, j: usize|
        0 <= k < order.len() && j < count + 1 && !(#[trigger] order.contains(j)) implies ranks_before(
        scores,
        (#[trigger] order[k]) as int,
        j as int,
    ) by {
        if j == count {
            assert(order[k] < count);
        }
    }
}

} // verus!
