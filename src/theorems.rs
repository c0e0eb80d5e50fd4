//! Properties that relate the solvers to each other and to their inputs.
use vstd::prelude::*;

use crate::knapsack::Item;
use crate::model::{
    comes_before, fits, greedy_fill, is_combination, is_exhaustive_result, is_first_best,
    is_first_best_of_size, is_optimal, is_ratio_result, is_ratio_sort, is_size_result,
    is_sub_collection, lemma_first_best_is_optimal, lemma_greedy_fill_fits, lemma_lex_less_total,
    lemma_pick_is_sub_collection, lemma_sub_collection_as_combination, lemma_totals_nonneg,
    lemma_totals_remove, lemma_worth_nonneg, pick, total_value, total_weight, well_formed_input,
    worth,
};

verus! {

broadcast use vstd::seq_lib::group_to_multiset_ensures;

/// The exhaustive search is deterministic: on one input there is exactly one
/// result it may return, so running it twice, or running its sequential and
/// its data-parallel form, gives the same selection.
pub proof fn exhaustive_result_is_unique(items: Seq<Item>, weight_limit: int, r1: Seq<Item>, r2: Seq<Item>)
    requires
        is_exhaustive_result(items, weight_limit, r1),
        is_exhaustive_result(items, weight_limit, r2),
    ensures
        r1 == r2,
{
    let c1 = choose|c: Seq<usize>| is_first_best(items, weight_limit, c) && r1 == pick(items, c);
    let c2 = choose|c: Seq<usize>| is_first_best(items, weight_limit, c) && r2 == pick(items, c);
    assert(worth(items, c1) <= worth(items, c2));
    assert(worth(items, c2) <= worth(items, c1));
    if c1 != c2 {
        if c1.len() == c2.len() {
            lemma_lex_less_total(c1, c2);
        }
        assert(comes_before(c1, c2) || comes_before(c2, c1));
    }
}

/// Any two optimal selections are worth the same, however ties between
/// selections of equal value were broken.
pub proof fn optimal_values_agree(items: Seq<Item>, weight_limit: int, r1: Seq<Item>, r2: Seq<Item>)
    requires
        is_optimal(items, weight_limit, r1),
        is_optimal(items, weight_limit, r2),
    ensures
        total_value(r1) == total_value(r2),
{
}

/// The exhaustive search is worth at least as much as the ratio heuristic,
/// and both stay within the weight limit.
pub proof fn exhaustive_dominates_ratio_heuristic(
    items: Seq<Item>,
    weight_limit: int,
    exact: Seq<Item>,
    greedy: Seq<Item>,
)
    requires
        well_formed_input(items, weight_limit),
        items.len() <= usize::MAX,
        is_exhaustive_result(items, weight_limit, exact),
        is_ratio_result(items, weight_limit, greedy),
    ensures
        total_weight(exact) <= weight_limit,
        total_weight(greedy) <= weight_limit,
        total_value(greedy) <= total_value(exact),
{
    let c = choose|c: Seq<usize>| is_first_best(items, weight_limit, c) && exact == pick(items, c);
    lemma_first_best_is_optimal(items, weight_limit, c);
    let s = choose|s: Seq<Item>| is_ratio_sort(items, s) && greedy == greedy_fill(s, weight_limit);
    lemma_greedy_fill_fits(s, weight_limit);
    assert(is_sub_collection(greedy, items));
}

/// Merging the per-length search results of every length from one to `k`,
/// where no selection within the limit has more than `k` items, gives an
/// optimal selection whatever the order of the merges: it suffices that the
/// merged result is one of them (or empty) and worth at least each of them.
pub proof fn merged_size_results_are_optimal(
    items: Seq<Item>,
    weight_limit: int,
    k: int,
    results: Seq<Seq<Item>>,
    r: Seq<Item>,
)
    requires
        well_formed_input(items, weight_limit),
        items.len() <= usize::MAX,
        forall|a: Seq<Item>|
            #[trigger] is_sub_collection(a, items) && total_weight(a) <= weight_limit ==> a.len() <= k,
        results.len() == k,
        forall|j: int| 0 <= j < k ==> is_size_result(items, weight_limit, j + 1, #[trigger] results[j]),
        r.len() == 0 || exists|j: int| 0 <= j < k && r == #[trigger] results[j],
        forall|j: int| 0 <= j < k ==> total_value(#[trigger] results[j]) <= total_value(r),
    ensures
        is_optimal(items, weight_limit, r),
{
    let n = items.len() as int;
    if r.len() == 0 {
        assert(r.to_multiset() =~= vstd::multiset::Multiset::<Item>::empty());
        assert(r =~= Seq::<Item>::empty());
    } else {
        let j = choose|j: int| 0 <= j < k && r == #[trigger] results[j];
        let cs = choose|cs: Seq<usize>| is_first_best_of_size(items, weight_limit, j + 1, cs) && r == pick(items, cs);
        lemma_pick_is_sub_collection(items, cs);
        lemma_worth_nonneg(items, weight_limit, cs);
    }
    assert(total_value(r) >= 0);
    assert forall|a: Seq<Item>|
        #[trigger] is_sub_collection(a, items) && total_weight(a) <= weight_limit
            implies total_value(a) <= total_value(r) by {
        let d = lemma_sub_collection_as_combination(items, a);
        if d.len() == 0 {
            assert(pick(items, d) =~= Seq::<Item>::empty());
        } else {
            let size = d.len() as int;
            assert(is_size_result(items, weight_limit, size, results[size - 1]));
            assert(is_combination(d, n) && fits(items, weight_limit, d));
        }
    }
}

/// A ratio-ordered sequence in which nothing fits the room yields nothing.
proof fn lemma_greedy_fill_nothing_fits(s: Seq<Item>, room: int)
    requires
        forall|i: int| 0 <= i < s.len() ==> #[trigger] s[i].weight > room,
    ensures
        greedy_fill(s, room) == Seq::<Item>::empty(),
    decreases s.len(),
{
    if s.len() > 0 {
        lemma_greedy_fill_nothing_fits(s.drop_first(), room);
    }
}

/// Where every item weighs more than the limit (a limit of zero with
/// positive weights, or no items at all), both solvers select nothing.
pub proof fn nothing_fits_gives_empty_selection(
    items: Seq<Item>,
    weight_limit: int,
    exact: Seq<Item>,
    greedy: Seq<Item>,
)
    requires
        well_formed_input(items, weight_limit),
        forall|i: int| 0 <= i < items.len() ==> #[trigger] items[i].weight > weight_limit,
        is_exhaustive_result(items, weight_limit, exact),
        is_ratio_result(items, weight_limit, greedy),
    ensures
        exact.len() == 0,
        greedy.len() == 0,
{
    let c = choose|c: Seq<usize>| is_first_best(items, weight_limit, c) && exact == pick(items, c);
    if c.len() > 0 {
        let p = pick(items, c);
        assert(items[c[0] as int].weight > weight_limit);
        lemma_totals_remove(p, 0);
        let rest = p.remove(0);
        assert forall|i: int| 0 <= i < rest.len() implies #[trigger] rest[i].weight >= 0 && rest[i].value >= 0 by {
            assert(rest[i] == p[i + 1]);
            assert(c[i + 1] < items.len());
            assert(items[c[i + 1] as int].weight >= 0 && items[c[i + 1] as int].value >= 0);
        }
        lemma_totals_nonneg(rest);
    }
    let s = choose|s: Seq<Item>| is_ratio_sort(items, s) && greedy == greedy_fill(s, weight_limit);
    assert forall|i: int| 0 <= i < s.len() implies #[trigger] s[i].weight > weight_limit by {
        assert(s.contains(s[i]));
        assert(items.to_multiset().count(s[i]) > 0);
        assert(items.contains(s[i]));
    }
    lemma_greedy_fill_nothing_fits(s, weight_limit);
}

} // verus!
