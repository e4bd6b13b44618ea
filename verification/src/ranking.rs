//! Which items to drop, smallest score first, until the rest fits a budget.

use vstd::prelude::*;
use vstd::set_lib::{lemma_int_range, lemma_subset_equality, set_int_range};

verus! {

/// Item `a` ranks before item `b`: by score, ties in the order of the items.
pub open spec fn ranks_before(scores: Seq<u64>, a: int, b: int) -> bool {
    scores[a] < scores[b] || (scores[a] == scores[b] && a < b)
}

/// `order` lists items of `lo..hi` in ascending rank.
pub open spec fn ranked(scores: Seq<u64>, order: Seq<usize>, lo: int, hi: int) -> bool {
    &&& forall|p: int| 0 <= p < order.len() ==> lo <= #[trigger] order[p] < hi
    &&& forall|p: int, q: int|
        0 <= p < q < order.len() ==> ranks_before(
            scores,
            #[trigger] order[p] as int,
            #[trigger] order[q] as int,
        )
}

/// `order` lists all items in ascending rank.
pub open spec fn is_ranking(scores: Seq<u64>, order: Seq<usize>) -> bool {
    order.len() == scores.len() && ranked(scores, order, 0, scores.len() as int)
}

/// Merges two ranked lists, the items of the first coming before those of the
/// second.
fn merge(scores: &Vec<u64>, a: &Vec<usize>, b: &Vec<usize>, Ghost(mid): Ghost<int>) -> (order: Vec<
    usize,
>)
    requires
        0 <= mid <= scores@.len(),
        ranked(scores@, a@, 0, mid),
        ranked(scores@, b@, mid, scores@.len() as int),
    ensures
        order@.len() == a@.len() + b@.len(),
        ranked(scores@, order@, 0, scores@.len() as int),
        forall|p: int| 0 <= p < order@.len() ==> a@.contains(#[trigger] order@[p]) || b@.contains(
            order@[p],
        ),
{
    let mut order: Vec<usize> = Vec::new();
    let mut i: usize = 0;
    let mut j: usize = 0;
    while i < a.len() || j < b.len()
        invariant
            0 <= mid <= scores@.len(),
            ranked(scores@, a@, 0, mid),
            ranked(scores@, b@, mid, scores@.len() as int),
            i <= a@.len(),
            j <= b@.len(),
            order@.len() == i + j,
            ranked(scores@, order@, 0, scores@.len() as int),
            forall|p: int, q: int|
                0 <= p < order@.len() && i <= q < a@.len() ==> ranks_before(
                    scores@,
                    #[trigger] order@[p] as int,
                    #[trigger] a@[q] as int,
                ),
            forall|p: int, q: int|
                0 <= p < order@.len() && j <= q < b@.len() ==> ranks_before(
                    scores@,
                    #[trigger] order@[p] as int,
                    #[trigger] b@[q] as int,
                ),
            forall|p: int|
                0 <= p < order@.len() ==> a@.contains(#[trigger] order@[p]) || b@.contains(
                    order@[p],
                ),
        decreases a@.len() + b@.len() - i - j,
    {
        let first: bool = if i >= a.len() {
            false
        } else if j >= b.len() {
            true
        } else {
            scores[a[i]] <= scores[b[j]]
        };
        if first {
            let item: usize = a[i];
            assert(a@.contains(a@[i as int]));
            order.push(item);
            i = i + 1;
        } else {
            let item: usize = b[j];
            assert(b@.contains(b@[j as int]));
            order.push(item);
            j = j + 1;
        }
    }
    order
}

/// The items `lo..hi` in ascending rank.
fn rank_range(scores: &Vec<u64>, lo: usize, hi: usize) -> (order: Vec<usize>)
    requires
        lo <= hi <= scores@.len(),
    ensures
        order@.len() == hi - lo,
        ranked(scores@, order@, lo as int, hi as int),
    decreases hi - lo,
{
    if hi - lo == 0 {
        return Vec::new();
    }
    if hi - lo == 1 {
        let mut one: Vec<usize> = Vec::new();
        one.push(lo);
        return one;
    }
    let mid: usize = lo + (hi - lo) / 2;
    let a: Vec<usize> = rank_range(scores, lo, mid);
    let b: Vec<usize> = rank_range(scores, mid, hi);
    let order: Vec<usize> = merge(scores, &a, &b, Ghost(mid as int));
    assert forall|p: int| 0 <= p < order@.len() implies lo <= #[trigger] order@[p] < hi by {
        if a@.contains(order@[p]) {
            let q = choose|q: int| 0 <= q < a@.len() && a@[q] == order@[p];
        } else {
            let q = choose|q: int| 0 <= q < b@.len() && b@[q] == order@[p];
        }
    }
    order
}

/// All items in ascending rank.
pub fn rank(scores: &Vec<u64>) -> (order: Vec<usize>)
    ensures
        is_ranking(scores@, order@),
{
    rank_range(scores, 0, scores.len())
}

/// A ranking lists every item.
pub proof fn ranking_lists_every_item(scores: Seq<u64>, order: Seq<usize>, i: int)
    requires
        is_ranking(scores, order),
        0 <= i < scores.len(),
    ensures
        exists|p: int| 0 <= p < order.len() && #[trigger] order[p] == i,
{
    let n = scores.len() as int;
    let ints = order.map_values(|v: usize| v as int);
    assert(ints.no_duplicates()) by {
        assert forall|p: int, q: int|
            0 <= p < ints.len() && 0 <= q < ints.len() && p != q implies ints[p] != ints[q] by {
            if p < q {
                assert(ranks_before(scores, order[p] as int, order[q] as int));
            } else {
                assert(ranks_before(scores, order[q] as int, order[p] as int));
            }
        }
    }
    ints.unique_seq_to_set();
    lemma_int_range(0, n);
    let got = ints.to_set();
    let all = set_int_range(0, n);
    assert(got.subset_of(all)) by {
        assert forall|v: int| got.contains(v) implies all.contains(v) by {
            let p = choose|p: int| 0 <= p < ints.len() && ints[p] == v;
            assert(0 <= order[p] < n);
        }
    }
    vstd::set_lib::lemma_set_subset_finite(all, got);
    lemma_subset_equality(got, all);
    assert(all.contains(i));
    let p = choose|p: int| 0 <= p < ints.len() && ints[p] == i;
    assert(order[p] == i);
}

/// The cost of the items that rank at `cut` or above.
pub open spec fn cost_from(costs: Seq<u128>, order: Seq<usize>, cut: int) -> int
    decreases order.len() - cut,
{
    if cut >= order.len() {
        0
    } else {
        costs[order[cut] as int] + cost_from(costs, order, cut + 1)
    }
}

/// Dropping the first `cut` items of the ranking makes the rest fit, and
/// dropping fewer does not.
pub open spec fn is_cut(costs: Seq<u128>, order: Seq<usize>, budget: int, cut: int) -> bool {
    &&& 0 <= cut <= order.len()
    &&& cost_from(costs, order, cut) <= budget
    &&& cut > 0 ==> cost_from(costs, order, cut - 1) > budget
}

/// Whether each item stays when the first `cut` items of the ranking go.
pub open spec fn kept_mask(order: Seq<usize>, cut: int) -> Seq<bool> {
    Seq::new(
        order.len(),
        |i: int| !exists|p: int| 0 <= p < cut && #[trigger] order[p] == i,
    )
}

/// Whether each item stays when items go in ascending rank just until the
/// rest costs no more than `budget`.
pub open spec fn is_drop_plan(
    scores: Seq<u64>,
    costs: Seq<u128>,
    budget: int,
    keep: Seq<bool>,
) -> bool {
    exists|order: Seq<usize>, cut: int|
        #![trigger is_cut(costs, order, budget, cut)]
        is_ranking(scores, order) && is_cut(costs, order, budget, cut) && keep == kept_mask(
            order,
            cut,
        )
}

/// A plan by which all of `n` items stay.
pub fn keep_all(n: usize) -> (keep: Vec<bool>)
    ensures
        keep@ == Seq::new(n as nat, |j: int| true),
{
    let mut keep: Vec<bool> = Vec::new();
    for i in 0..n
        invariant
            keep@ == Seq::new(i as nat, |j: int| true),
    {
        keep.push(true);
        assert(keep@ =~= Seq::new((i + 1) as nat, |j: int| true));
    }
    keep
}

/// Whether each item stays when the first `cut` items of the ranking go.
pub(crate) fn keep_from(order: &Vec<usize>, cut: usize, scores: Ghost<Seq<u64>>) -> (keep: Vec<
    bool,
>)
    requires
        is_ranking(scores@, order@),
        cut <= order@.len(),
    ensures
        keep@ == kept_mask(order@, cut as int),
{
    let n: usize = order.len();
    let mut keep: Vec<bool> = keep_all(n);
    assert(keep@ =~= kept_mask(order@, 0));
    for p in 0..cut
        invariant
            n == order@.len(),
            is_ranking(scores@, order@),
            cut <= n,
            keep@ == kept_mask(order@, p as int),
    {
        let ghost before = keep@;
        let i: usize = order[p];
        keep[i] = false;
        assert(keep@ =~= kept_mask(order@, p + 1)) by {
            assert forall|j: int| 0 <= j < n implies keep@[j] == kept_mask(order@, p + 1)[j] by {
                if j == i {
                    assert(order@[p as int] == j);
                } else {
                    assert(keep@[j] == before[j]);
                    assert(before[j] == !exists|q: int| 0 <= q < p && #[trigger] order@[q] == j);
                    assert(kept_mask(order@, p + 1)[j] == !exists|q: int|
                        0 <= q < p + 1 && #[trigger] order@[q] == j);
                }
            }
        }
    }
    keep
}

/// Plans which items stay when items go in ascending rank just until the rest
/// costs no more than `budget`.
pub fn drop_plan(scores: &Vec<u64>, costs: &Vec<u128>, budget: usize) -> (keep: Vec<bool>)
    requires
        scores@.len() == costs@.len(),
    ensures
        is_drop_plan(scores@, costs@, budget as int, keep@),
{
    let order: Vec<usize> = rank(scores);
    let n: usize = order.len();
    let mut cut: usize = n;
    let mut rest: u128 = 0;
    let mut fits: bool = true;
    while cut > 0 && fits
        invariant
            n == order@.len(),
            is_ranking(scores@, order@),
            scores@.len() == costs@.len(),
            cut <= n,
            rest == cost_from(costs@, order@, cut as int),
            rest <= budget,
            fits || (cut > 0 && cost_from(costs@, order@, cut - 1) > budget),
        decreases cut + if fits { 1int } else { 0 },
    {
        let cost: u128 = costs[order[cut - 1]];
        if cost > budget as u128 - rest {
            fits = false;
        } else {
            rest = rest + cost;
            cut = cut - 1;
        }
    }
    proof {
        assert(is_cut(costs@, order@, budget as int, cut as int));
    }
    keep_from(&order, cut, Ghost(scores@))
}

/// The cost of the items that stay.
pub open spec fn kept_cost(costs: Seq<u128>, keep: Seq<bool>) -> int
    decreases costs.len(),
{
    if costs.len() == 0 {
        0
    } else {
        kept_cost(costs.drop_last(), keep.drop_last()) + if keep.last() {
            costs.last() as int
        } else {
            0
        }
    }
}

proof fn lemma_kept_cost_flip(costs: Seq<u128>, a: Seq<bool>, b: Seq<bool>, i: int)
    requires
        costs.len() == a.len(),
        a.len() == b.len(),
        0 <= i < a.len(),
        !a[i],
        b[i],
        forall|j: int| 0 <= j < a.len() && j != i ==> a[j] == b[j],
    ensures
        kept_cost(costs, b) == kept_cost(costs, a) + costs[i],
    decreases costs.len(),
{
    if i == costs.len() - 1 {
        assert(a.drop_last() =~= b.drop_last());
    } else {
        lemma_kept_cost_flip(costs.drop_last(), a.drop_last(), b.drop_last(), i);
    }
}

proof fn lemma_kept_cost_none(costs: Seq<u128>, keep: Seq<bool>)
    requires
        costs.len() == keep.len(),
        forall|j: int| 0 <= j < keep.len() ==> !keep[j],
    ensures
        kept_cost(costs, keep) == 0,
    decreases costs.len(),
{
    if costs.len() > 0 {
        lemma_kept_cost_none(costs.drop_last(), keep.drop_last());
    }
}

proof fn lemma_kept_cost(scores: Seq<u64>, costs: Seq<u128>, order: Seq<usize>, cut: int)
    requires
        is_ranking(scores, order),
        costs.len() == scores.len(),
        0 <= cut <= order.len(),
    ensures
        kept_cost(costs, kept_mask(order, cut)) == cost_from(costs, order, cut),
    decreases order.len() - cut,
{
    let a = kept_mask(order, cut);
    if cut == order.len() {
        assert forall|j: int| 0 <= j < a.len() implies !a[j] by {
            ranking_lists_every_item(scores, order, j);
        }
        lemma_kept_cost_none(costs, a);
    } else {
        let more = kept_mask(order, cut + 1);
        let i = order[cut] as int;
        lemma_kept_cost(scores, costs, order, cut + 1);
        assert(!more[i]) by {
            assert(order[cut] == i);
        }
        assert(a[i]) by {
            if !a[i] {
                let p = choose|p: int| 0 <= p < cut && #[trigger] order[p] == i;
                assert(ranks_before(scores, order[p] as int, order[cut] as int));
            }
        }
        assert forall|j: int| 0 <= j < a.len() && j != i implies more[j] == a[j] by {
            if !more[j] {
                let p = choose|p: int| 0 <= p < cut + 1 && #[trigger] order[p] == j;
                assert(p < cut);
            }
            if !a[j] {
                let p = choose|p: int| 0 <= p < cut && #[trigger] order[p] == j;
                assert(order[p] == j);
            }
        }
        lemma_kept_cost_flip(costs, more, a, i);
    }
}

/// What stays costs no more than the budget.
pub proof fn kept_items_fit_the_budget(
    scores: Seq<u64>,
    costs: Seq<u128>,
    budget: int,
    keep: Seq<bool>,
)
    requires
        scores.len() == costs.len(),
        is_drop_plan(scores, costs, budget, keep),
    ensures
        kept_cost(costs, keep) <= budget,
{
    let (order, cut) = choose|order: Seq<usize>, cut: int|
        #![trigger is_cut(costs, order, budget, cut)]
        is_ranking(scores, order) && is_cut(costs, order, budget, cut) && keep == kept_mask(
            order,
            cut,
        );
    lemma_kept_cost(scores, costs, order, cut);
}

/// When the first items of a ranking go, each ranks before every item that
/// stays.
pub proof fn masks_drop_the_lowest(
    scores: Seq<u64>,
    order: Seq<usize>,
    cut: int,
    gone: int,
    kept: int,
)
    requires
        is_ranking(scores, order),
        0 <= cut <= order.len(),
        0 <= gone < scores.len(),
        0 <= kept < scores.len(),
        !kept_mask(order, cut)[gone],
        kept_mask(order, cut)[kept],
    ensures
        ranks_before(scores, gone, kept),
        scores[gone] <= scores[kept],
{
    let p = choose|p: int| 0 <= p < cut && #[trigger] order[p] == gone;
    ranking_lists_every_item(scores, order, kept);
    let q = choose|q: int| 0 <= q < order.len() && #[trigger] order[q] == kept;
    assert(q >= cut);
    assert(ranks_before(scores, order[p] as int, order[q] as int));
}

/// An item that goes ranks before every item that stays; so no item with a
/// larger score goes while one with a smaller score stays.
pub proof fn dropped_items_rank_below_kept_ones(
    scores: Seq<u64>,
    costs: Seq<u128>,
    budget: int,
    keep: Seq<bool>,
    gone: int,
    kept: int,
)
    requires
        scores.len() == costs.len(),
        is_drop_plan(scores, costs, budget, keep),
        0 <= gone < scores.len(),
        0 <= kept < scores.len(),
        !keep[gone],
        keep[kept],
    ensures
        ranks_before(scores, gone, kept),
        scores[gone] <= scores[kept],
{
    let (order, cut) = choose|order: Seq<usize>, cut: int|
        #![trigger is_cut(costs, order, budget, cut)]
        is_ranking(scores, order) && is_cut(costs, order, budget, cut) && keep == kept_mask(
            order,
            cut,
        );
    masks_drop_the_lowest(scores, order, cut, gone, kept);
}

proof fn lemma_cost_from_grows(costs: Seq<u128>, order: Seq<usize>, lo: int, hi: int)
    requires
        0 <= lo <= hi <= order.len(),
    ensures
        cost_from(costs, order, hi) <= cost_from(costs, order, lo),
    decreases hi - lo,
{
    if lo < hi {
        lemma_cost_from_grows(costs, order, lo + 1, hi);
    }
}

/// Nothing goes where everything fits.
pub proof fn nothing_goes_when_all_fits(
    scores: Seq<u64>,
    costs: Seq<u128>,
    budget: int,
    keep: Seq<bool>,
    i: int,
)
    requires
        scores.len() == costs.len(),
        is_drop_plan(scores, costs, budget, keep),
        kept_cost(costs, Seq::new(costs.len(), |j: int| true)) <= budget,
        0 <= i < scores.len(),
    ensures
        keep[i],
{
    let (order, cut) = choose|order: Seq<usize>, cut: int|
        #![trigger is_cut(costs, order, budget, cut)]
        is_ranking(scores, order) && is_cut(costs, order, budget, cut) && keep == kept_mask(
            order,
            cut,
        );
    lemma_kept_cost(scores, costs, order, 0);
    assert(kept_mask(order, 0) =~= Seq::new(costs.len(), |j: int| true));
    if cut > 0 {
        lemma_cost_from_grows(costs, order, 0, cut - 1);
    }
}

/// A ranking goes by ascending score, and where scores are equal by the order of
/// the items; no item comes twice.
pub proof fn rankings_ascend(scores: Seq<u64>, order: Seq<usize>, p: int, q: int)
    requires
        is_ranking(scores, order),
        0 <= p < q < order.len(),
    ensures
        order.len() == scores.len(),
        order[p] < scores.len(),
        order[q] < scores.len(),
        scores[order[p] as int] <= scores[order[q] as int],
        scores[order[p] as int] == scores[order[q] as int] ==> order[p] < order[q],
        order[p] != order[q],
{
    assert(ranks_before(scores, order[p] as int, order[q] as int));
}

/// Of items with one score the earlier go first.
pub proof fn earlier_items_go_first(
    scores: Seq<u64>,
    costs: Seq<u128>,
    budget: int,
    keep: Seq<bool>,
    gone: int,
    kept: int,
)
    requires
        scores.len() == costs.len(),
        is_drop_plan(scores, costs, budget, keep),
        0 <= gone < scores.len(),
        0 <= kept < scores.len(),
        !keep[gone],
        keep[kept],
        scores[gone] == scores[kept],
    ensures
        gone < kept,
{
    dropped_items_rank_below_kept_ones(scores, costs, budget, keep, gone, kept);
}

/// Dropping stops as soon as the rest fits: where an item goes, there is one, of
/// the highest score of those that go, with which the rest would cost more than
/// the budget.
pub proof fn no_item_goes_without_need(
    scores: Seq<u64>,
    costs: Seq<u128>,
    budget: int,
    keep: Seq<bool>,
    gone: int,
)
    requires
        scores.len() == costs.len(),
        is_drop_plan(scores, costs, budget, keep),
        0 <= gone < scores.len(),
        !keep[gone],
    ensures
        keep.len() == scores.len(),
        exists|last: int|
            {
                &&& 0 <= last < scores.len()
                &&& !keep[last]
                &&& scores[gone] <= scores[last]
                &&& kept_cost(costs, #[trigger] keep.update(last, true)) > budget
            },
{
    let (order, cut) = choose|order: Seq<usize>, cut: int|
        #![trigger is_cut(costs, order, budget, cut)]
        is_ranking(scores, order) && is_cut(costs, order, budget, cut) && keep == kept_mask(
            order,
            cut,
        );
    let p = choose|p: int| 0 <= p < cut && #[trigger] order[p] == gone;
    let last = order[cut - 1] as int;
    assert(order[cut - 1] == last);
    assert(!keep[last]);
    if p < cut - 1 {
        rankings_ascend(scores, order, p, cut - 1);
    }
    let one_less = kept_mask(order, cut - 1);
    assert(one_less =~= keep.update(last, true)) by {
        assert forall|i: int| 0 <= i < keep.len() implies #[trigger] one_less[i] == keep.update(
            last,
            true,
        )[i] by {
            if i == last {
                if exists|q: int| 0 <= q < cut - 1 && #[trigger] order[q] == i {
                    let q = choose|q: int| 0 <= q < cut - 1 && #[trigger] order[q] == i;
                    rankings_ascend(scores, order, q, cut - 1);
                }
            } else {
                if exists|q: int| 0 <= q < cut && #[trigger] order[q] == i {
                    let q = choose|q: int| 0 <= q < cut && #[trigger] order[q] == i;
                    assert(q < cut - 1);
                }
            }
        }
    }
    lemma_kept_cost(scores, costs, order, cut - 1);
}

/// What stays of two lists costs what stays of each; a single item costs its cost
/// where it stays.
pub proof fn costs_add_up(a: Seq<u128>, b: Seq<u128>, ka: Seq<bool>, kb: Seq<bool>)
    requires
        a.len() == ka.len(),
        b.len() == kb.len(),
    ensures
        kept_cost(a + b, ka + kb) == kept_cost(a, ka) + kept_cost(b, kb),
        a.len() == 1 ==> kept_cost(a, ka) == if ka[0] { a[0] as int } else { 0 },
    decreases b.len(),
{
    if b.len() == 0 {
        assert(a + b =~= a);
        assert(ka + kb =~= ka);
    } else {
        costs_add_up(a, b.drop_last(), ka, kb.drop_last());
        assert((a + b).drop_last() =~= a + b.drop_last());
        assert((ka + kb).drop_last() =~= ka + kb.drop_last());
    }
    if a.len() == 1 {
        assert(kept_cost(a.drop_last(), ka.drop_last()) == 0);
    }
}

} // verus!
