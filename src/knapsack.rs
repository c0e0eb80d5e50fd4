//! Solvers for the 0/1 knapsack problem: choose items whose total weight stays
//! within a limit and whose total value is as high as possible.
use vstd::prelude::*;

use std::cmp::Ordering;

use itertools::Itertools;
use rand::Rng;
use rayon::iter::{IndexedParallelIterator, IntoParallelRefIterator, ParallelIterator};

use crate::model::{
    fits, greedy_fill, is_combination, is_exhaustive_result, is_first_best_of_size,
    is_first_best_up_to, is_optimal, is_ratio_result, is_ratio_sort, is_size_result,
    is_sub_collection, lemma_first_best_complete, lemma_first_best_is_optimal,
    lemma_first_best_start, lemma_first_best_step, lemma_greedy_fill_fits,
    lemma_lex_less_asymmetric, lemma_lex_less_irreflexive, lemma_lightest_prefix,
    lemma_prefix_weight_monotone, lemma_totals_push, lex_less, pick, ratio_den, ratio_higher,
    ratio_num, sorted_by_weight, total_value, total_weight, well_formed_input, worth,
};

verus! {

broadcast use vstd::seq_lib::group_to_multiset_ensures;

/// One selectable object: how heavy it is and what it is worth.
#[derive(Debug, Copy, Clone, PartialEq, Eq, Structural)]
pub struct Item {
    pub weight: i32,
    pub value: i32,
}

/// Relies on rand::Rng::gen_range on rand::thread_rng over `low..=high`: a
/// number in that range; it panics on an empty range, which `requires` rules
/// out.
#[verifier::external_body]
fn random_in_range(low: i32, high: i32) -> (r: i32)
    requires
        low <= high,
    ensures
        low <= r <= high,
{
    rand::thread_rng().gen_range(low..=high)
}

impl Item {
    /// A boxed item of the given weight and value.
    pub fn new(weight: i32, value: i32) -> (r: Box<Item>)
        ensures
            r.weight == weight,
            r.value == value,
    {
        Box::new(Item { weight, value })
    }

    /// Gives the item a random weight and a random value, each from 1 to 100.
    pub fn randomize(&mut self)
        ensures
            1 <= final(self).weight <= 100,
            1 <= final(self).value <= 100,
    {
        self.weight = random_in_range(1, 100);
        self.value = random_in_range(1, 100);
    }
}

/// Relies on itertools::Itertools::sorted_by_key: the same items, ordered by
/// ascending weight.
#[verifier::external_body]
fn sorted_by_ascending_weight(items: &Vec<Item>) -> (r: Vec<Item>)
    ensures
        r@.to_multiset() == items@.to_multiset(),
        sorted_by_weight(r@),
{
    items.iter().copied().sorted_by_key(|item| item.weight).collect()
}

/// Relies on itertools::Itertools::combinations over the positions `0..n`:
/// every strictly increasing sequence of `k` positions, once each, in
/// lexicographic order.
#[verifier::external_body]
fn combinations_of(n: usize, k: usize) -> (r: Vec<Vec<usize>>)
    ensures
        forall|j: int| 0 <= j < r@.len() ==> is_combination(#[trigger] r@[j]@, n as int) && r@[j]@.len() == k,
        forall|c: Seq<usize>| #[trigger] is_combination(c, n as int) && c.len() == k
            ==> exists|j: int| 0 <= j < r@.len() && #[trigger] r@[j]@ == c,
        forall|j1: int, j2: int| 0 <= j1 < j2 < r@.len() ==> lex_less(r@[j1]@, r@[j2]@),
{
    (0..n).combinations(k).collect()
}

/// Accepts exactly the well-formed inputs.
pub fn input_is_well_formed(items: &Vec<Item>, weight_limit: i32) -> (r: bool)
    ensures
        r == well_formed_input(items@, weight_limit as int),
{
    if weight_limit < 0 {
        return false;
    }
    let mut i: usize = 0;
    while i < items.len()
        invariant
            i <= items.len(),
            weight_limit >= 0,
            forall|j: int| 0 <= j < i ==> #[trigger] items@[j].weight >= 0,
            forall|j: int| 0 <= j < i ==> #[trigger] items@[j].value >= 0,
        decreases items.len() - i,
    {
        if items[i].weight < 0 || items[i].value < 0 {
            return false;
        }
        i = i + 1;
    }
    true
}

/// The total weight and the total value of the items of a combination.
fn combination_totals(items: &Vec<Item>, c: &Vec<usize>) -> (r: (i128, i128))
    requires
        is_combination(c@, items.len() as int),
    ensures
        r.0 == total_weight(pick(items@, c@)),
        r.1 == total_value(pick(items@, c@)),
{
    let mut weight: i128 = 0;
    let mut value: i128 = 0;
    let mut t: usize = 0;
    while t < c.len()
        invariant
            is_combination(c@, items.len() as int),
            t <= c.len(),
            weight == total_weight(pick(items@, c@.take(t as int))),
            value == total_value(pick(items@, c@.take(t as int))),
            -(t as int) * 0x8000_0000 <= weight <= (t as int) * 0x8000_0000,
            -(t as int) * 0x8000_0000 <= value <= (t as int) * 0x8000_0000,
        decreases c.len() - t,
    {
        let item = items[c[t]];
        proof {
            assert(c@[t as int] < items.len());
            assert(pick(items@, c@.take(t + 1)) =~= pick(items@, c@.take(t as int)).push(item));
            lemma_totals_push(pick(items@, c@.take(t as int)), item);
        }
        weight = weight + item.weight as i128;
        value = value + item.value as i128;
        t = t + 1;
    }
    assert(c@.take(c.len() as int) =~= c@);
    (weight, value)
}

/// The items at the positions of a combination.
fn picked_items(items: &Vec<Item>, c: &Vec<usize>) -> (r: Vec<Item>)
    requires
        is_combination(c@, items.len() as int),
    ensures
        r@ == pick(items@, c@),
{
    let mut r: Vec<Item> = Vec::new();
    let mut t: usize = 0;
    while t < c.len()
        invariant
            is_combination(c@, items.len() as int),
            t <= c.len(),
            r@ == pick(items@, c@.take(t as int)),
        decreases c.len() - t,
    {
        proof {
            assert(c@[t as int] < items.len());
        }
        r.push(items[c[t]]);
        proof {
            assert(pick(items@, c@.take(t + 1)) =~= pick(items@, c@.take(t as int)).push(items@[c@[t as int] as int]));
        }
        t = t + 1;
    }
    assert(c@.take(c.len() as int) =~= c@);
    r
}

/// Every entry of a permutation of well-formed items is non-negative.
proof fn lemma_permutation_nonneg(items: Seq<Item>, weight_limit: int, s: Seq<Item>)
    requires
        well_formed_input(items, weight_limit),
        s.to_multiset() == items.to_multiset(),
    ensures
        forall|i: int| 0 <= i < s.len() ==> #[trigger] s[i].weight >= 0 && s[i].value >= 0,
{
    assert forall|i: int| 0 <= i < s.len() implies #[trigger] s[i].weight >= 0 && s[i].value >= 0 by {
        assert(s.contains(s[i]));
        assert(items.to_multiset().count(s[i]) > 0);
        assert(items.contains(s[i]));
        let j = choose|j: int| 0 <= j < items.len() && items[j] == s[i];
        assert(items[j].weight >= 0 && items[j].value >= 0);
    }
}

/// How many items a sub-collection within the limit can hold at most: the
/// number of lightest items whose weights add up to no more than the limit.
pub fn max_subset_size(items: &Vec<Item>, weight_limit: i32) -> (k: usize)
    requires
        well_formed_input(items@, weight_limit as int),
    ensures
        k <= items.len(),
        exists|s: Seq<Item>|
            s.to_multiset() == items@.to_multiset() && sorted_by_weight(s) && total_weight(s.take(k as int))
                <= weight_limit && (k < items.len() ==> total_weight(s.take(k + 1)) > weight_limit),
        forall|a: Seq<Item>|
            #[trigger] is_sub_collection(a, items@) && total_weight(a) <= weight_limit ==> a.len() <= k,
{
    let sorted = sorted_by_ascending_weight(items);
    proof {
        assert(sorted@.len() == items@.len()) by {
            assert(sorted@.to_multiset().len() == items@.to_multiset().len());
        }
        lemma_permutation_nonneg(items@, weight_limit as int, sorted@);
    }
    let mut k: usize = 0;
    let mut sum: i128 = 0;
    while k < sorted.len() && sum + sorted[k].weight as i128 <= weight_limit as i128
        invariant
            k <= sorted.len(),
            sum == total_weight(sorted@.take(k as int)),
            sum <= weight_limit,
            -(k as int) * 0x8000_0000 <= sum,
        decreases sorted.len() - k,
    {
        proof {
            assert(sorted@.take(k + 1).drop_last() =~= sorted@.take(k as int));
        }
        sum = sum + sorted[k].weight as i128;
        k = k + 1;
    }
    proof {
        if k < sorted.len() {
            assert(sorted@.take(k + 1).drop_last() =~= sorted@.take(k as int));
        }
        assert forall|a: Seq<Item>|
            #[trigger] is_sub_collection(a, items@) && total_weight(a) <= weight_limit implies a.len() <= k by {
            if a.len() > k {
                lemma_lightest_prefix(a, sorted@);
                lemma_prefix_weight_monotone(sorted@, k + 1, a.len() as int);
            }
        }
    }
    k
}

/// The search over the combinations of one length: among those that fit, the
/// first one of the highest positive worth, as items; nothing if none is worth
/// anything.
pub fn best_of_size(items: &Vec<Item>, weight_limit: i32, size: usize) -> (r: Vec<Item>)
    requires
        well_formed_input(items@, weight_limit as int),
    ensures
        is_size_result(items@, weight_limit as int, size as int, r@),
{
    let combos = combinations_of(items.len(), size);
    let ghost n = items.len() as int;
    let ghost limit = weight_limit as int;
    let mut best_value: i128 = 0;
    let mut best: Vec<Item> = Vec::new();
    let ghost mut best_index: int = 0;
    let mut j: usize = 0;
    while j < combos.len()
        invariant
            well_formed_input(items@, limit),
            n == items.len(),
            limit == weight_limit,
            forall|i: int| 0 <= i < combos@.len() ==> is_combination(#[trigger] combos@[i]@, n) && combos@[i]@.len() == size,
            forall|i1: int, i2: int| 0 <= i1 < i2 < combos@.len() ==> lex_less(combos@[i1]@, combos@[i2]@),
            j <= combos.len(),
            best_value >= 0,
            forall|i: int| 0 <= i < j && fits(items@, limit, #[trigger] combos@[i]@)
                ==> worth(items@, combos@[i]@) <= best_value,
            best_value == 0 ==> best@.len() == 0,
            best_value > 0 ==> {
                &&& 0 <= best_index < j
                &&& best@ == pick(items@, combos@[best_index]@)
                &&& fits(items@, limit, combos@[best_index]@)
                &&& worth(items@, combos@[best_index]@) == best_value
                &&& forall|i: int| 0 <= i < best_index && fits(items@, limit, #[trigger] combos@[i]@)
                    ==> worth(items@, combos@[i]@) < best_value
            },
        decreases combos.len() - j,
    {
        let (weight, value) = combination_totals(items, &combos[j]);
        if value > best_value && weight <= weight_limit as i128 {
            best_value = value;
            best = picked_items(items, &combos[j]);
            proof {
                best_index = j as int;
            }
        }
        j = j + 1;
    }
    proof {
        if best_value > 0 {
            let c = combos@[best_index]@;
            assert forall|d: Seq<usize>|
                #[trigger] is_combination(d, n) && d.len() == size && fits(items@, limit, d)
                    implies worth(items@, d) <= worth(items@, c) && (lex_less(d, c) ==> worth(items@, d) < worth(items@, c)) by {
                let i = choose|i: int| 0 <= i < combos@.len() && #[trigger] combos@[i]@ == d;
                if lex_less(d, c) {
                    if i == best_index {
                        lemma_lex_less_irreflexive(d);
                    } else if i > best_index {
                        lemma_lex_less_asymmetric(d, c);
                    }
                }
            }
            assert(is_first_best_of_size(items@, limit, size as int, c));
        } else {
            assert forall|d: Seq<usize>|
                #[trigger] is_combination(d, n) && d.len() == size && fits(items@, limit, d)
                    implies worth(items@, d) <= 0 by {
                let i = choose|i: int| 0 <= i < combos@.len() && #[trigger] combos@[i]@ == d;
            }
        }
    }
    best
}

/// The total value of a sequence of items.
fn sequence_value(s: &Vec<Item>) -> (r: i128)
    ensures
        r == total_value(s@),
{
    let mut value: i128 = 0;
    let mut t: usize = 0;
    while t < s.len()
        invariant
            t <= s.len(),
            value == total_value(s@.take(t as int)),
            -(t as int) * 0x8000_0000 <= value <= (t as int) * 0x8000_0000,
        decreases s.len() - t,
    {
        proof {
            assert(s@.take(t + 1).drop_last() =~= s@.take(t as int));
        }
        value = value + s[t].value as i128;
        t = t + 1;
    }
    assert(s@.take(s.len() as int) =~= s@);
    value
}

/// The best selection found so far during a search, with its total value.
/// A candidate replaces it only when it is worth strictly more, so among
/// candidates of equal value the first one offered stays.
#[derive(Debug)]
pub struct Incumbent {
    value: i128,
    items: Vec<Item>,
}

impl View for Incumbent {
    type V = Seq<Item>;

    closed spec fn view(&self) -> Seq<Item> {
        self.items@
    }
}

impl Incumbent {
    /// The stored value is the total value of the stored items.
    pub closed spec fn wf(&self) -> bool {
        self.value == total_value(self.items@)
    }

    /// Nothing selected yet.
    pub fn new() -> (r: Incumbent)
        ensures
            r.wf(),
            r@ == Seq::<Item>::empty(),
    {
        let r = Incumbent { value: 0, items: Vec::new() };
        assert(r.items@ =~= Seq::<Item>::empty());
        r
    }

    /// Compares a candidate with the current best and keeps the candidate only
    /// if it is worth strictly more.
    pub fn offer(&mut self, candidate: Vec<Item>)
        requires
            old(self).wf(),
        ensures
            final(self).wf(),
            final(self)@ == (if total_value(candidate@) > total_value(old(self)@) {
                candidate@
            } else {
                old(self)@
            }),
    {
        let value = sequence_value(&candidate);
        if value > self.value {
            self.value = value;
            self.items = candidate;
        }
    }

    /// The total value of the current best.
    pub fn value(&self) -> (r: i128)
        requires
            self.wf(),
        ensures
            r == total_value(self@),
    {
        self.value
    }

    /// Hands out the current best.
    pub fn into_items(self) -> (r: Vec<Item>)
        ensures
            r@ == self@,
    {
        self.items
    }
}

/// The exhaustive search on well-formed input: every length from one up to
/// `max_subset_size`, shortest first, keeping a new best only when it is worth
/// strictly more.
fn exhaustive_search(items: &Vec<Item>, weight_limit: i32) -> (r: Vec<Item>)
    requires
        well_formed_input(items@, weight_limit as int),
    ensures
        is_exhaustive_result(items@, weight_limit as int, r@),
        is_optimal(items@, weight_limit as int, r@),
{
    let ghost limit = weight_limit as int;
    let k = max_subset_size(items, weight_limit);
    let mut best = Incumbent::new();
    let ghost mut best_c: Seq<usize> = Seq::empty();
    proof {
        lemma_first_best_start(items@, limit);
        assert(pick(items@, best_c) =~= best@);
    }
    let mut size: usize = 0;
    while size < k
        invariant
            well_formed_input(items@, limit),
            limit == weight_limit,
            size <= k,
            best.wf(),
            is_first_best_up_to(items@, limit, size as int, best_c),
            best@ == pick(items@, best_c),
        decreases k - size,
    {
        size = size + 1;
        let candidate = best_of_size(items, weight_limit, size);
        proof {
            best_c = lemma_first_best_step(items@, limit, size - 1, best_c, candidate@);
        }
        best.offer(candidate);
    }
    proof {
        lemma_first_best_complete(items@, limit, k as int, best_c);
        lemma_first_best_is_optimal(items@, limit, best_c);
    }
    best.into_items()
}

/// Exhaustive search for the most valuable selection within the weight limit.
/// The items are left as they are. Input with a negative limit, weight or
/// value yields an empty selection.
pub fn get_knapsack_items(items: &mut Vec<Item>, weight_limit: i32) -> (r: Vec<Item>)
    ensures
        final(items)@ == old(items)@,
        well_formed_input(old(items)@, weight_limit as int) ==> {
            &&& is_exhaustive_result(old(items)@, weight_limit as int, r@)
            &&& is_optimal(old(items)@, weight_limit as int, r@)
        },
        !well_formed_input(old(items)@, weight_limit as int) ==> r@.len() == 0,
{
    if !input_is_well_formed(items, weight_limit) {
        return Vec::new();
    }
    exhaustive_search(items, weight_limit)
}

/// Relies on rayon: `par_iter` over a slice, `map`, and `collect_into_vec`,
/// which keeps the order of the slice. Each length is searched by
/// `best_of_size`, possibly on another thread.
#[verifier::external_body]
fn size_results_in_parallel(items: &Vec<Item>, weight_limit: i32, sizes: &Vec<usize>) -> (r: Vec<Vec<Item>>)
    requires
        well_formed_input(items@, weight_limit as int),
    ensures
        r@.len() == sizes@.len(),
        forall|j: int|
            0 <= j < sizes@.len() ==> is_size_result(items@, weight_limit as int, sizes@[j] as int, #[trigger] r@[j]@),
{
    let mut r = Vec::new();
    sizes.par_iter().map(|size| best_of_size(items, weight_limit, *size)).collect_into_vec(&mut r);
    r
}

/// The exhaustive search with the lengths searched in parallel and the
/// results compared afterwards, shortest length first. It returns what
/// `get_knapsack_items` returns.
pub fn get_knapsack_items_par_iter(items: &Vec<Item>, weight_limit: i32) -> (r: Vec<Item>)
    ensures
        well_formed_input(items@, weight_limit as int) ==> {
            &&& is_exhaustive_result(items@, weight_limit as int, r@)
            &&& is_optimal(items@, weight_limit as int, r@)
        },
        !well_formed_input(items@, weight_limit as int) ==> r@.len() == 0,
{
    if !input_is_well_formed(items, weight_limit) {
        return Vec::new();
    }
    let ghost limit = weight_limit as int;
    let k = max_subset_size(items, weight_limit);
    let mut sizes: Vec<usize> = Vec::new();
    let mut size: usize = 0;
    while size < k
        invariant
            size <= k,
            sizes@.len() == size,
            forall|j: int| 0 <= j < size ==> #[trigger] sizes@[j] == j + 1,
        decreases k - size,
    {
        size = size + 1;
        sizes.push(size);
    }
    let results = size_results_in_parallel(items, weight_limit, &sizes);
    let mut best = Incumbent::new();
    let ghost mut best_c: Seq<usize> = Seq::empty();
    proof {
        lemma_first_best_start(items@, limit);
        assert(pick(items@, best_c) =~= best@);
    }
    let mut j: usize = 0;
    while j < results.len()
        invariant
            well_formed_input(items@, limit),
            limit == weight_limit,
            results@.len() == k,
            forall|i: int| 0 <= i < k ==> is_size_result(items@, limit, i + 1, #[trigger] results@[i]@),
            j <= k,
            best.wf(),
            is_first_best_up_to(items@, limit, j as int, best_c),
            best@ == pick(items@, best_c),
        decreases k - j,
    {
        let candidate = results[j].clone();
        proof {
            assert(candidate@ == results@[j as int]@);
            best_c = lemma_first_best_step(items@, limit, j as int, best_c, candidate@);
        }
        best.offer(candidate);
        j = j + 1;
    }
    proof {
        lemma_first_best_complete(items@, limit, k as int, best_c);
        lemma_first_best_is_optimal(items@, limit, best_c);
    }
    best.into_items()
}

/// Orders two items by descending value per unit of weight: `Less` when `a`
/// is worth more per unit than `b`, `Greater` when it is worth less.
pub fn ratio_order(a: &Item, b: &Item) -> (r: Ordering)
    ensures
        (r == Ordering::Less) == ratio_higher(*a, *b),
        (r == Ordering::Greater) == ratio_higher(*b, *a),
{
    let (an, ad) = ratio_parts(a);
    let (bn, bd) = ratio_parts(b);
    proof {
        lemma_ratio_product_bound(an as int, bd as int);
        lemma_ratio_product_bound(bn as int, ad as int);
    }
    let lhs = an * bd;
    let rhs = bn * ad;
    if lhs > rhs {
        Ordering::Less
    } else if lhs < rhs {
        Ordering::Greater
    } else {
        Ordering::Equal
    }
}

proof fn lemma_ratio_product_bound(x: int, y: int)
    requires
        -0x8000_0000 <= x < 0x8000_0000,
        -0x8000_0000 <= y < 0x8000_0000,
    ensures
        -0x4000_0000_0000_0000 <= x * y <= 0x4000_0000_0000_0000,
{
    assert(-0x4000_0000_0000_0000 <= x * y <= 0x4000_0000_0000_0000) by (nonlinear_arith)
        requires
            -0x8000_0000 <= x < 0x8000_0000,
            -0x8000_0000 <= y < 0x8000_0000,
    ;
}

/// Numerator and denominator of an item's value per unit of weight.
fn ratio_parts(it: &Item) -> (r: (i64, i64))
    ensures
        r.0 == ratio_num(*it),
        r.1 == ratio_den(*it),
        -0x8000_0000 <= r.0 < 0x8000_0000,
        -0x8000_0000 <= r.1 < 0x8000_0000,
{
    if it.weight == 0 {
        if it.value > 0 {
            (1, 0)
        } else {
            (0, 1)
        }
    } else {
        (it.value as i64, it.weight as i64)
    }
}

/// Relies on itertools::Itertools::sorted_by, a stable sort (std's
/// `slice::sort_by`), with `ratio_order` as the comparison. On items of
/// non-negative weight and value that comparison is a total order
/// (`lemma_ratio_total_preorder`), so the sort does not panic.
#[verifier::external_body]
fn sorted_by_descending_ratio(items: &Vec<Item>) -> (r: Vec<Item>)
    requires
        forall|i: int| 0 <= i < items@.len() ==> #[trigger] items@[i].weight >= 0 && items@[i].value >= 0,
    ensures
        is_ratio_sort(items@, r@),
{
    items.iter().copied().sorted_by(|a, b| ratio_order(a, b)).collect()
}

/// The value/weight ratio heuristic: the items in descending order of value
/// per unit of weight, each one taken if it still fits and skipped otherwise.
/// Fast, and not always optimal. The items are left as they are. Input with a
/// negative limit, weight or value yields an empty selection.
pub fn get_suboptimal_knapsack_items_val_weight_ratio(items: &mut Vec<Item>, weight_limit: i32) -> (r: Vec<Item>)
    ensures
        final(items)@ == old(items)@,
        well_formed_input(old(items)@, weight_limit as int) ==> {
            &&& is_ratio_result(old(items)@, weight_limit as int, r@)
            &&& is_sub_collection(r@, old(items)@)
            &&& total_weight(r@) <= weight_limit
        },
        !well_formed_input(old(items)@, weight_limit as int) ==> r@.len() == 0,
{
    if !input_is_well_formed(items, weight_limit) {
        return Vec::new();
    }
    let ghost limit = weight_limit as int;
    let sorted = sorted_by_descending_ratio(items);
    proof {
        lemma_permutation_nonneg(items@, limit, sorted@);
        assert(sorted@.skip(0) =~= sorted@);
        assert(Seq::<Item>::empty() + greedy_fill(sorted@, limit) =~= greedy_fill(sorted@, limit));
    }
    let mut r: Vec<Item> = Vec::new();
    let mut room: i64 = weight_limit as i64;
    let mut i: usize = 0;
    while i < sorted.len()
        invariant
            i <= sorted.len(),
            forall|j: int| 0 <= j < sorted@.len() ==> #[trigger] sorted@[j].weight >= 0 && sorted@[j].value >= 0,
            0 <= room <= limit,
            limit == weight_limit,
            r@ + greedy_fill(sorted@.skip(i as int), room as int) == greedy_fill(sorted@, limit),
        decreases sorted.len() - i,
    {
        let item = sorted[i];
        proof {
            let rest = sorted@.skip(i as int);
            assert(rest[0] == item);
            assert(rest.drop_first() =~= sorted@.skip(i + 1));
        }
        if item.weight as i64 <= room {
            proof {
                assert(r@.push(item) + greedy_fill(sorted@.skip(i + 1), room - item.weight)
                    =~= r@ + (seq![item] + greedy_fill(sorted@.skip(i + 1), room - item.weight)));
            }
            r.push(item);
            room = room - item.weight as i64;
        }
        i = i + 1;
    }
    proof {
        assert(greedy_fill(sorted@.skip(i as int), room as int) =~= Seq::<Item>::empty());
        assert(r@ =~= greedy_fill(sorted@, limit));
        lemma_greedy_fill_fits(sorted@, limit);
    }
    r
}

} // verus!
