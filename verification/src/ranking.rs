//! Selection of the best-scored entries with a bounded double-ended priority
//! queue: each entry enters, and the one that ranks lowest leaves whenever
//! the queue holds more entries than the limit allows.

use priority_queue::DoublePriorityQueue;
use std::hash::Hash;
use vstd::prelude::*;

verus! {

/// `priority_queue::DoublePriorityQueue`, a queue from which both the item of
/// the lowest and the item of the highest priority can be taken.
#[verifier::external_type_specification]
#[verifier::external_body]
#[verifier::reject_recursive_types(I)]
#[verifier::reject_recursive_types(P)]
#[verifier::reject_recursive_types(H)]
pub struct ExDoublePriorityQueue<I: Hash + Eq, P: Ord, H>(DoublePriorityQueue<I, P, H>);

/// The priority that the queue holds for each item in it.
pub uninterp spec fn queue_entries(queue: DoublePriorityQueue<usize, (u64, usize)>) -> Map<
    usize,
    (u64, usize),
>;

/// `a` does not come after `b` in the order of pairs: by the first component,
/// then by the second.
pub open spec fn pair_le(a: (u64, usize), b: (u64, usize)) -> bool {
    a.0 < b.0 || (a.0 == b.0 && a.1 <= b.1)
}

/// `DoublePriorityQueue::new`: a queue that holds nothing.
#[verifier::external_body]
fn queue_new() -> (queue: DoublePriorityQueue<usize, (u64, usize)>)
    ensures
        queue_entries(queue).dom() == Set::<usize>::empty(),
{
    DoublePriorityQueue::new()
}

/// `DoublePriorityQueue::len`: the number of items in the queue.
#[verifier::external_body]
fn queue_len(queue: &DoublePriorityQueue<usize, (u64, usize)>) -> (len: usize)
    ensures
        len == queue_entries(*queue).dom().len(),
{
    queue.len()
}

/// `DoublePriorityQueue::push`: the item enters with the given priority, or
/// has its priority replaced where it was in the queue already; the priority
/// that it had before is returned.
#[verifier::external_body]
fn queue_push(
    queue: &mut DoublePriorityQueue<usize, (u64, usize)>,
    item: usize,
    priority: (u64, usize),
) -> (before: Option<(u64, usize)>)
    ensures
        queue_entries(*final(queue)) == queue_entries(*old(queue)).insert(item, priority),
        before == if queue_entries(*old(queue)).dom().contains(item) {
            Some(queue_entries(*old(queue))[item])
        } else {
            None
        },
{
    queue.push(item, priority)
}

/// `DoublePriorityQueue::pop_min`: an item whose priority is the lowest in
/// the queue leaves it and is returned with that priority; an empty queue
/// returns nothing and stays empty.
#[verifier::external_body]
fn queue_pop_min(queue: &mut DoublePriorityQueue<usize, (u64, usize)>) -> (least: Option<
    (usize, (u64, usize)),
>)
    ensures
        match least {
            Some((item, priority)) => {
                &&& queue_entries(*old(queue)).contains_pair(item, priority)
                &&& forall|other: usize| #[trigger]
                    queue_entries(*old(queue)).dom().contains(other) ==> pair_le(
                        priority,
                        queue_entries(*old(queue))[other],
                    )
                &&& queue_entries(*final(queue)) == queue_entries(*old(queue)).remove(item)
            },
            None => {
                &&& queue_entries(*old(queue)).dom() == Set::<usize>::empty()
                &&& queue_entries(*final(queue)) == queue_entries(*old(queue))
            },
        },
{
    queue.pop_min()
}

/// Entry `a` ranks above entry `b`: by the higher score, and between equal
/// scores by the lower index.
pub open spec fn outranks(scores: Seq<u64>, a: usize, b: usize) -> bool {
    scores[a as int] > scores[b as int] || (scores[a as int] == scores[b as int] && a < b)
}

/// `w` is in `chosen` and every other member ranks above it.
pub open spec fn is_weakest(scores: Seq<u64>, chosen: Set<usize>, w: usize) -> bool {
    &&& chosen.contains(w)
    &&& forall|o: usize| #[trigger] chosen.contains(o) && o != w ==> outranks(scores, o, w)
}

/// From the highest-ranked down.
pub open spec fn descending(scores: Seq<u64>, order: Seq<usize>) -> bool {
    forall|a: int, b: int|
        0 <= a < b < order.len() ==> outranks(scores, #[trigger] order[a], #[trigger] order[b])
}

/// The number of entries in a ranking: the limit, or all entries where they
/// are fewer.
pub open spec fn ranking_len(scores: Seq<u64>, limit: nat) -> nat {
    if scores.len() < limit {
        scores.len()
    } else {
        limit
    }
}

/// `order` holds the best entries of `scores`, as many as the limit allows,
/// from the highest-ranked down: each entry in it ranks above every entry
/// that is not in it.
pub open spec fn is_ranking(scores: Seq<u64>, limit: nat, order: Seq<usize>) -> bool {
    &&& order.len() == ranking_len(scores, limit)
    &&& forall|k: int| 0 <= k < order.len() ==> (#[trigger] order[k]) < scores.len()
    &&& descending(scores, order)
    &&& forall|k: int, other: usize|
        #![trigger order[k], order.contains(other)]
        0 <= k < order.len() && other < scores.len() && !order.contains(other) ==> outranks(
            scores,
            order[k],
            other,
        )
}

/// The ranking of the entries of `scores` under the given limit.
pub open spec fn ranking(scores: Seq<u64>, limit: nat) -> Seq<usize> {
    choose|order: Seq<usize>| is_ranking(scores, limit, order)
}

/// Where two rankings agree before index `k` and differ at it, the entry of
/// the first ranks above the entry of the second.
proof fn lemma_ranks_above(scores: Seq<u64>, limit: nat, a: Seq<usize>, b: Seq<usize>, k: int)
    requires
        is_ranking(scores, limit, a),
        is_ranking(scores, limit, b),
        0 <= k < a.len(),
        forall|j: int| 0 <= j < k ==> a[j] == b[j],
        a[k] != b[k],
    ensures
        outranks(scores, a[k], b[k]),
{
    let other = b[k];
    if a.contains(other) {
        let j = choose|j: int| 0 <= j < a.len() && a[j] == other;
        if j < k {
            assert(b[j] == other);
            assert(outranks(scores, b[j], b[k]));
        }
    } else {
        assert(outranks(scores, a[k], other));
    }
}

/// There is one ranking only: a sequence that is a ranking is `ranking`.
pub proof fn lemma_ranking_unique(scores: Seq<u64>, limit: nat, order: Seq<usize>)
    requires
        is_ranking(scores, limit, order),
    ensures
        order == ranking(scores, limit),
{
    let other = ranking(scores, limit);
    assert forall|k: int| 0 <= k < order.len() implies order[k] == other[k] by {
        lemma_rankings_agree_upto(scores, limit, order, other, k);
    }
    assert(order =~= other);
}

/// Two rankings agree at index `k` and at every index before it.
proof fn lemma_rankings_agree_upto(
    scores: Seq<u64>,
    limit: nat,
    a: Seq<usize>,
    b: Seq<usize>,
    k: int,
)
    requires
        is_ranking(scores, limit, a),
        is_ranking(scores, limit, b),
        0 <= k < a.len(),
    ensures
        forall|j: int| 0 <= j <= k ==> a[j] == b[j],
    decreases k,
{
    if k > 0 {
        lemma_rankings_agree_upto(scores, limit, a, b, k - 1);
    }
    if a[k] != b[k] {
        lemma_ranks_above(scores, limit, a, b, k);
        lemma_ranks_above(scores, limit, b, a, k);
    }
}

/// The priority under which entry `i` of `scores` stands in the queue: its
/// score, and between equal scores the later entry lower.
pub open spec fn priority_of(scores: Seq<u64>, i: usize) -> (u64, usize) {
    (scores[i as int], (scores.len() - 1 - i) as usize)
}

/// The queue holds exactly the entries of `chosen`, each under its priority.
pub open spec fn holds(
    queue: DoublePriorityQueue<usize, (u64, usize)>,
    scores: Seq<u64>,
    chosen: Set<usize>,
) -> bool {
    &&& queue_entries(queue).dom() == chosen
    &&& chosen.finite()
    &&& scores.len() <= usize::MAX
    &&& forall|item: usize| #[trigger]
        chosen.contains(item) ==> item < scores.len() && queue_entries(queue)[item]
            == priority_of(scores, item)
}

/// Of the first `upto` entries, those in `chosen` rank above those that are
/// not in it.
pub open spec fn best_of(scores: Seq<u64>, chosen: Set<usize>, upto: int) -> bool {
    forall|x: usize, y: usize|
        #![trigger chosen.contains(x), chosen.contains(y)]
        chosen.contains(x) && y < upto && !chosen.contains(y) ==> outranks(scores, x, y)
}

/// Takes the lowest-ranked entry out of a queue that is not empty.
fn evict(
    queue: &mut DoublePriorityQueue<usize, (u64, usize)>,
    Ghost(scores): Ghost<Seq<u64>>,
    Ghost(chosen): Ghost<Set<usize>>,
) -> (gone: usize)
    requires
        holds(*old(queue), scores, chosen),
        chosen.len() > 0,
    ensures
        is_weakest(scores, chosen, gone),
        holds(*final(queue), scores, chosen.remove(gone)),
{
    match queue_pop_min(queue) {
        Some((item, _)) => item,
        // Not reached: the queue holds an entry.
        None => 0,
    }
}

/// The indices of the best entries of `scores`, as many as `limit` allows,
/// from the highest-ranked down.
pub fn top_ranked(scores: &Vec<u64>, limit: usize) -> (best: Vec<usize>)
    ensures
        best@ == ranking(scores@, limit as nat),
        is_ranking(scores@, limit as nat, best@),
        best.len() == ranking_len(scores@, limit as nat),
        forall|a: int, b: int|
            0 <= a < b < best.len() ==> scores[best[a] as int] >= scores[best[b] as int],
{
    let n = scores.len();
    let mut queue = queue_new();
    let mut i: usize = 0;
    while i < n
        invariant
            i <= n,
            n == scores.len(),
            holds(queue, scores@, queue_entries(queue).dom()),
            queue_entries(queue).dom().len() == if i < limit {
                i
            } else {
                limit
            },
            forall|x: usize| queue_entries(queue).dom().contains(x) ==> x < i,
            i <= limit ==> forall|y: usize| y < i ==> queue_entries(queue).dom().contains(y),
            best_of(scores@, queue_entries(queue).dom(), i as int),
        decreases n - i,
    {
        let ghost before = queue_entries(queue).dom();
        let _ = queue_push(&mut queue, i, (scores[i], n - 1 - i));
        let ghost entered = queue_entries(queue).dom();
        assert(entered =~= before.insert(i));
        if queue_len(&queue) > limit {
            let gone = evict(&mut queue, Ghost(scores@), Ghost(entered));
            proof {
                let left = queue_entries(queue).dom();
                assert forall|x: usize, y: usize|
                    #![trigger left.contains(x), left.contains(y)]
                    left.contains(x) && y < i + 1 && !left.contains(y) implies outranks(
                    scores@,
                    x,
                    y,
                ) by {
                    if y != gone {
                        assert(!before.contains(y));
                        assert(outranks(scores@, x, gone));
                        if gone != i {
                            assert(before.contains(gone));
                            assert(outranks(scores@, gone, y));
                        }
                    }
                }
            }
        }
        i += 1;
    }
    let ghost all = queue_entries(queue).dom();
    let mut rising: Vec<usize> = Vec::new();
    let mut left = queue_len(&queue);
    while left > 0
        invariant
            n == scores.len(),
            all.finite(),
            holds(queue, scores@, queue_entries(queue).dom()),
            left == queue_entries(queue).dom().len(),
            rising.len() + left == all.len(),
            forall|x: usize|
                all.contains(x) <==> (queue_entries(queue).dom().contains(x) || rising@.contains(
                    x,
                )),
            forall|a: int, b: int|
                0 <= a < b < rising.len() ==> outranks(
                    scores@,
                    #[trigger] rising[b],
                    #[trigger] rising[a],
                ),
            forall|a: int, x: usize|
                #![trigger rising[a], queue_entries(queue).dom().contains(x)]
                0 <= a < rising.len() && queue_entries(queue).dom().contains(x) ==> outranks(
                    scores@,
                    x,
                    rising[a],
                ),
            forall|a: int| 0 <= a < rising.len() ==> (#[trigger] rising[a]) < n,
        decreases left,
    {
        let ghost held = queue_entries(queue).dom();
        let ghost so_far = rising@;
        let gone = evict(&mut queue, Ghost(scores@), Ghost(held));
        rising.push(gone);
        left = left - 1;
        proof {
            assert forall|x: usize| all.contains(x) <==> (queue_entries(queue).dom().contains(x)
                || rising@.contains(x)) by {
                if so_far.contains(x) {
                    let k = choose|k: int| 0 <= k < so_far.len() && so_far[k] == x;
                    assert(rising[k] == x);
                }
                if x == gone {
                    assert(rising[so_far.len() as int] == x);
                }
            }
        }
    }
    let count = rising.len();
    let mut best: Vec<usize> = Vec::new();
    let mut k: usize = 0;
    while k < count
        invariant
            k <= count,
            count == rising.len(),
            best.len() == k,
            forall|a: int| 0 <= a < k ==> (#[trigger] best[a]) == rising[count - 1 - a],
        decreases count - k,
    {
        best.push(rising[count - 1 - k]);
        k += 1;
    }
    proof {
        assert forall|x: usize| best@.contains(x) <==> all.contains(x) by {
            if all.contains(x) {
                let b = choose|b: int| 0 <= b < rising.len() && rising[b] == x;
                assert(best[count - 1 - b] == x);
            }
        }
        assert(descending(scores@, best@));
        assert forall|k: int, other: usize|
            #![trigger best@[k], best@.contains(other)]
            0 <= k < best.len() && other < scores.len() && !best@.contains(other) implies outranks(
            scores@,
            best@[k],
            other,
        ) by {
            assert(best@.contains(best@[k]));
            assert(all.contains(best@[k]));
            assert(!all.contains(other));
        }
        lemma_ranking_unique(scores@, limit as nat, best@);
    }
    best
}

} // verus!
