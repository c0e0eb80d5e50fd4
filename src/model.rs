//! The mathematical model of a knapsack instance: totals of item sequences,
//! sub-collections (sub-multisets) of the available items, combinations
//! (strictly increasing index sequences) and the order in which an exhaustive
//! search meets them.
use vstd::multiset::Multiset;
use vstd::prelude::*;

use crate::knapsack::Item;

verus! {

broadcast use vstd::seq_lib::group_to_multiset_ensures;

/// Sum of the weights of a sequence of items.
pub open spec fn total_weight(s: Seq<Item>) -> int
    decreases s.len(),
{
    if s.len() == 0 {
        0
    } else {
        total_weight(s.drop_last()) + s.last().weight as int
    }
}

/// Sum of the values of a sequence of items.
pub open spec fn total_value(s: Seq<Item>) -> int
    decreases s.len(),
{
    if s.len() == 0 {
        0
    } else {
        total_value(s.drop_last()) + s.last().value as int
    }
}

/// Inputs the solvers accept: a non-negative limit and items whose weight and
/// value are non-negative.
pub open spec fn well_formed_input(items: Seq<Item>, weight_limit: int) -> bool {
    &&& weight_limit >= 0
    &&& forall|i: int| 0 <= i < items.len() ==> #[trigger] items[i].weight >= 0
    &&& forall|i: int| 0 <= i < items.len() ==> #[trigger] items[i].value >= 0
}

/// `a` takes each item at most as often as `items` holds it (order is irrelevant).
pub open spec fn is_sub_collection(a: Seq<Item>, items: Seq<Item>) -> bool {
    a.to_multiset().subset_of(items.to_multiset())
}

/// `r` is a sub-collection within the limit whose value no other sub-collection
/// within the limit exceeds.
pub open spec fn is_optimal(items: Seq<Item>, weight_limit: int, r: Seq<Item>) -> bool {
    &&& is_sub_collection(r, items)
    &&& total_weight(r) <= weight_limit
    &&& forall|a: Seq<Item>|
        #[trigger] is_sub_collection(a, items) && total_weight(a) <= weight_limit
            ==> total_value(a) <= total_value(r)
}

/// Items ordered by ascending weight.
pub open spec fn sorted_by_weight(s: Seq<Item>) -> bool {
    forall|i: int, j: int| 0 <= i <= j < s.len() ==> s[i].weight <= s[j].weight
}

/// A combination of `n` positions: strictly increasing indices below `n`.
pub open spec fn is_combination(c: Seq<usize>, n: int) -> bool {
    &&& forall|i: int| 0 <= i < c.len() ==> #[trigger] c[i] < n
    &&& forall|i: int, j: int| 0 <= i < j < c.len() ==> c[i] < c[j]
}

/// The items at the positions of a combination.
pub open spec fn pick(items: Seq<Item>, c: Seq<usize>) -> Seq<Item> {
    c.map_values(|j: usize| items[j as int])
}

/// Lexicographic order on index sequences of one length.
pub open spec fn lex_less(a: Seq<usize>, b: Seq<usize>) -> bool
    decreases a.len(),
{
    if a.len() == 0 || b.len() == 0 {
        false
    } else {
        a[0] < b[0] || (a[0] == b[0] && lex_less(a.drop_first(), b.drop_first()))
    }
}

/// The order in which the exhaustive search meets combinations: shorter ones
/// first, and those of one length lexicographically.
pub open spec fn comes_before(a: Seq<usize>, b: Seq<usize>) -> bool {
    a.len() < b.len() || (a.len() == b.len() && lex_less(a, b))
}

/// The items of combination `c` stay within the weight limit.
pub open spec fn fits(items: Seq<Item>, weight_limit: int, c: Seq<usize>) -> bool {
    total_weight(pick(items, c)) <= weight_limit
}

/// The value of the items of combination `c`.
pub open spec fn worth(items: Seq<Item>, c: Seq<usize>) -> int {
    total_value(pick(items, c))
}

// ---------------------------------------------------------------------------
// Totals

/// Appending an item adds its weight and value to the totals.
pub proof fn lemma_totals_push(s: Seq<Item>, x: Item)
    ensures
        total_weight(s.push(x)) == total_weight(s) + x.weight,
        total_value(s.push(x)) == total_value(s) + x.value,
{
    assert(s.push(x).drop_last() =~= s);
}

/// Taking one element out of a sequence takes its weight and value out of the totals.
pub proof fn lemma_totals_remove(s: Seq<Item>, i: int)
    requires
        0 <= i < s.len(),
    ensures
        total_weight(s) == total_weight(s.remove(i)) + s[i].weight,
        total_value(s) == total_value(s.remove(i)) + s[i].value,
    decreases s.len(),
{
    if i == s.len() - 1 {
        assert(s.remove(i) =~= s.drop_last());
    } else {
        lemma_totals_remove(s.drop_last(), i);
        assert(s.remove(i).drop_last() =~= s.drop_last().remove(i));
        assert(s.remove(i).last() == s.last());
    }
}

/// With non-negative weights a longer prefix weighs at least as much.
pub proof fn lemma_prefix_weight_monotone(s: Seq<Item>, m1: int, m2: int)
    requires
        0 <= m1 <= m2 <= s.len(),
        forall|i: int| 0 <= i < s.len() ==> #[trigger] s[i].weight >= 0,
    ensures
        total_weight(s.take(m1)) <= total_weight(s.take(m2)),
    decreases m2 - m1,
{
    if m1 < m2 {
        lemma_prefix_weight_monotone(s, m1, m2 - 1);
        assert(s.take(m2).drop_last() =~= s.take(m2 - 1));
    }
}

/// The lightest `m` items of a sorted sequence weigh no more than any `m` of
/// its items taken as a sub-multiset.
pub proof fn lemma_lightest_prefix(a: Seq<Item>, s: Seq<Item>)
    requires
        sorted_by_weight(s),
        a.to_multiset().subset_of(s.to_multiset()),
    ensures
        a.len() <= s.len(),
        total_weight(s.take(a.len() as int)) <= total_weight(a),
    decreases s.len(),
{
    if s.len() == 0 {
        if a.len() > 0 {
            assert(a.contains(a[0]));
            assert(s.to_multiset().count(a[0]) == 0);
        }
        assert(s.take(0) =~= s);
    } else {
        let x = s.last();
        let s2 = s.drop_last();
        assert(s =~= s2.push(x));
        assert(sorted_by_weight(s2));
        if a.contains(x) {
            let i = choose|i: int| 0 <= i < a.len() && a[i] == x;
            let a2 = a.remove(i);
            assert(a2.to_multiset() == a.to_multiset().remove(x));
            assert(a2.to_multiset().subset_of(s2.to_multiset())) by {
                assert forall|v: Item| a2.to_multiset().count(v) <= s2.to_multiset().count(v) by {
                    assert(a.to_multiset().count(v) <= s.to_multiset().count(v));
                }
            }
            lemma_lightest_prefix(a2, s2);
            lemma_totals_remove(a, i);
            let m = a.len() as int;
            assert(s.take(m).drop_last() =~= s2.take(m - 1));
            assert(s.take(m).last() == s[m - 1]);
        } else {
            assert(a.to_multiset().subset_of(s2.to_multiset())) by {
                assert forall|v: Item| a.to_multiset().count(v) <= s2.to_multiset().count(v) by {
                    assert(a.to_multiset().count(v) <= s.to_multiset().count(v));
                    if v == x {
                        assert(a.to_multiset().count(x) == 0);
                    }
                }
            }
            lemma_lightest_prefix(a, s2);
            assert(s.take(a.len() as int) =~= s2.take(a.len() as int));
        }
    }
}

// ---------------------------------------------------------------------------
// Combinations and sub-collections

/// Dropping the last element of a combination leaves one over fewer positions.
pub proof fn lemma_combination_drop_last(c: Seq<usize>, n: int)
    requires
        is_combination(c, n),
        c.len() > 0,
    ensures
        is_combination(c.drop_last(), c.last() as int),
{
    assert forall|i: int| 0 <= i < c.drop_last().len() implies #[trigger] c.drop_last()[i] < c.last() by {
        assert(c[i] < c[c.len() - 1]);
    }
}

/// Picking from a longer sequence gives the same items when every index is
/// below the length of the shorter one.
pub proof fn lemma_pick_prefix(items: Seq<Item>, m: int, c: Seq<usize>)
    requires
        0 <= m <= items.len(),
        is_combination(c, m),
    ensures
        pick(items, c) =~= pick(items.take(m), c),
{
}

/// The items of a combination form a sub-collection.
pub proof fn lemma_pick_is_sub_collection(items: Seq<Item>, c: Seq<usize>)
    requires
        is_combination(c, items.len() as int),
    ensures
        is_sub_collection(pick(items, c), items),
    decreases items.len(),
{
    let n = items.len() as int;
    if n == 0 {
        if c.len() > 0 {
            assert(c[0] < n);
        }
        assert(pick(items, c) =~= Seq::<Item>::empty());
    } else {
        let items2 = items.drop_last();
        assert(items2 =~= items.take(n - 1));
        assert(items =~= items2.push(items.last()));
        if c.len() > 0 && c.last() == n - 1 {
            let c2 = c.drop_last();
            lemma_combination_drop_last(c, n);
            lemma_pick_prefix(items, n - 1, c2);
            lemma_pick_is_sub_collection(items2, c2);
            assert(pick(items, c) =~= pick(items2, c2).push(items.last()));
        } else {
            assert(is_combination(c, n - 1)) by {
                assert forall|i: int| 0 <= i < c.len() implies #[trigger] c[i] < n - 1 by {
                    assert(c[i] <= c[c.len() - 1]);
                }
            }
            lemma_pick_prefix(items, n - 1, c);
            lemma_pick_is_sub_collection(items2, c);
        }
    }
}

/// Every sub-collection of the items is, up to order, the items of some
/// combination of the same length.
pub proof fn lemma_sub_collection_as_combination(items: Seq<Item>, a: Seq<Item>) -> (c: Seq<usize>)
    requires
        is_sub_collection(a, items),
        items.len() <= usize::MAX,
    ensures
        is_combination(c, items.len() as int),
        c.len() == a.len(),
        total_weight(pick(items, c)) == total_weight(a),
        total_value(pick(items, c)) == total_value(a),
    decreases items.len(),
{
    let n = items.len() as int;
    if n == 0 {
        if a.len() > 0 {
            assert(a.contains(a[0]));
            assert(items.to_multiset().count(a[0]) == 0);
        }
        let c = Seq::<usize>::empty();
        assert(pick(items, c) =~= a);
        c
    } else {
        let y = items.last();
        let items2 = items.drop_last();
        assert(items2 =~= items.take(n - 1));
        assert(items =~= items2.push(y));
        if a.contains(y) {
            let i = choose|i: int| 0 <= i < a.len() && a[i] == y;
            let a2 = a.remove(i);
            assert(a2.to_multiset() == a.to_multiset().remove(y));
            assert(is_sub_collection(a2, items2)) by {
                assert forall|v: Item| a2.to_multiset().count(v) <= items2.to_multiset().count(v) by {
                    assert(a.to_multiset().count(v) <= items.to_multiset().count(v));
                }
            }
            let c2 = lemma_sub_collection_as_combination(items2, a2);
            lemma_totals_remove(a, i);
            let c = c2.push((n - 1) as usize);
            assert(c.drop_last() =~= c2);
            lemma_pick_prefix(items, n - 1, c2);
            assert(pick(items, c) =~= pick(items2, c2).push(y));
            lemma_totals_push(pick(items2, c2), y);
            c
        } else {
            assert(is_sub_collection(a, items2)) by {
                assert forall|v: Item| a.to_multiset().count(v) <= items2.to_multiset().count(v) by {
                    assert(a.to_multiset().count(v) <= items.to_multiset().count(v));
                    if v == y {
                        assert(a.to_multiset().count(y) == 0);
                    }
                }
            }
            let c = lemma_sub_collection_as_combination(items2, a);
            lemma_pick_prefix(items, n - 1, c);
            c
        }
    }
}

// ---------------------------------------------------------------------------
// The order of the search

/// No sequence comes lexicographically before itself.
pub proof fn lemma_lex_less_irreflexive(a: Seq<usize>)
    ensures
        !lex_less(a, a),
    decreases a.len(),
{
    if a.len() > 0 {
        lemma_lex_less_irreflexive(a.drop_first());
    }
}

/// Two sequences are never lexicographically before each other.
pub proof fn lemma_lex_less_asymmetric(a: Seq<usize>, b: Seq<usize>)
    requires
        lex_less(a, b),
    ensures
        !lex_less(b, a),
    decreases a.len(),
{
    if a[0] == b[0] {
        lemma_lex_less_asymmetric(a.drop_first(), b.drop_first());
    }
}

/// Two different sequences of one length are ordered one way or the other.
pub proof fn lemma_lex_less_total(a: Seq<usize>, b: Seq<usize>)
    requires
        a.len() == b.len(),
        a != b,
    ensures
        lex_less(a, b) || lex_less(b, a),
    decreases a.len(),
{
    if a.len() == 0 {
        assert(a =~= b);
    } else if a[0] == b[0] {
        if a.drop_first() == b.drop_first() {
            assert(a =~= seq![a[0]] + a.drop_first());
            assert(b =~= seq![b[0]] + b.drop_first());
        }
        lemma_lex_less_total(a.drop_first(), b.drop_first());
    }
}

/// With non-negative entries the totals of a sequence are non-negative.
pub proof fn lemma_totals_nonneg(s: Seq<Item>)
    requires
        forall|i: int| 0 <= i < s.len() ==> #[trigger] s[i].weight >= 0 && s[i].value >= 0,
    ensures
        total_weight(s) >= 0,
        total_value(s) >= 0,
    decreases s.len(),
{
    if s.len() > 0 {
        lemma_totals_nonneg(s.drop_last());
    }
}

/// The items of a combination of well-formed input have non-negative totals.
pub proof fn lemma_worth_nonneg(items: Seq<Item>, weight_limit: int, c: Seq<usize>)
    requires
        well_formed_input(items, weight_limit),
        is_combination(c, items.len() as int),
    ensures
        total_weight(pick(items, c)) >= 0,
        worth(items, c) >= 0,
{
    let p = pick(items, c);
    assert forall|i: int| 0 <= i < p.len() implies #[trigger] p[i].weight >= 0 && p[i].value >= 0 by {
        assert(c[i] < items.len());
        assert(items[c[i] as int].weight >= 0);
        assert(items[c[i] as int].value >= 0);
    }
    lemma_totals_nonneg(p);
}

/// `c` has the highest worth among the fitting combinations of length `size`,
/// and every fitting combination of that length met before it is worth less.
pub open spec fn is_first_best_of_size(items: Seq<Item>, weight_limit: int, size: int, c: Seq<usize>) -> bool {
    &&& is_combination(c, items.len() as int)
    &&& c.len() == size
    &&& fits(items, weight_limit, c)
    &&& worth(items, c) > 0
    &&& forall|d: Seq<usize>|
        #[trigger] is_combination(d, items.len() as int) && d.len() == size && fits(items, weight_limit, d)
            ==> worth(items, d) <= worth(items, c)
    &&& forall|d: Seq<usize>|
        #[trigger] is_combination(d, items.len() as int) && d.len() == size && fits(items, weight_limit, d)
            && lex_less(d, c) ==> worth(items, d) < worth(items, c)
}

/// What the search over the combinations of one length yields: the items of the
/// first best one, or nothing where no fitting combination of that length is
/// worth anything.
pub open spec fn is_size_result(items: Seq<Item>, weight_limit: int, size: int, r: Seq<Item>) -> bool {
    ||| r.len() == 0 && forall|d: Seq<usize>|
        #[trigger] is_combination(d, items.len() as int) && d.len() == size && fits(items, weight_limit, d)
            ==> worth(items, d) <= 0
    ||| exists|c: Seq<usize>| is_first_best_of_size(items, weight_limit, size, c) && r == pick(items, c)
}

/// `c` has the highest worth among all fitting combinations, and every fitting
/// combination that the search meets before it is worth less.
pub open spec fn is_first_best(items: Seq<Item>, weight_limit: int, c: Seq<usize>) -> bool {
    &&& is_combination(c, items.len() as int)
    &&& fits(items, weight_limit, c)
    &&& forall|d: Seq<usize>|
        #[trigger] is_combination(d, items.len() as int) && fits(items, weight_limit, d)
            ==> worth(items, d) <= worth(items, c)
    &&& forall|d: Seq<usize>|
        #[trigger] is_combination(d, items.len() as int) && fits(items, weight_limit, d)
            && comes_before(d, c) ==> worth(items, d) < worth(items, c)
}

/// The result of the exhaustive search: the items of the first best combination.
pub open spec fn is_exhaustive_result(items: Seq<Item>, weight_limit: int, r: Seq<Item>) -> bool {
    exists|c: Seq<usize>| is_first_best(items, weight_limit, c) && r == pick(items, c)
}

/// `c` is the first best fitting combination among those of at most `m` items.
pub open spec fn is_first_best_up_to(items: Seq<Item>, weight_limit: int, m: int, c: Seq<usize>) -> bool {
    &&& is_combination(c, items.len() as int)
    &&& c.len() <= m
    &&& fits(items, weight_limit, c)
    &&& forall|d: Seq<usize>|
        #[trigger] is_combination(d, items.len() as int) && d.len() <= m && fits(items, weight_limit, d)
            ==> worth(items, d) <= worth(items, c)
    &&& forall|d: Seq<usize>|
        #[trigger] is_combination(d, items.len() as int) && d.len() <= m && fits(items, weight_limit, d)
            && comes_before(d, c) ==> worth(items, d) < worth(items, c)
}

/// Before any length has been searched, the empty combination is the first best.
pub proof fn lemma_first_best_start(items: Seq<Item>, weight_limit: int)
    requires
        well_formed_input(items, weight_limit),
    ensures
        is_first_best_up_to(items, weight_limit, 0, Seq::<usize>::empty()),
{
    let e = Seq::<usize>::empty();
    assert(pick(items, e) =~= Seq::<Item>::empty());
    assert forall|d: Seq<usize>|
        #[trigger] is_combination(d, items.len() as int) && d.len() <= 0 && fits(items, weight_limit, d)
            implies worth(items, d) <= worth(items, e) && !comes_before(d, e) by {
        assert(d =~= e);
    }
}

/// Searching the next length and keeping the new result only where it is
/// worth strictly more keeps the first best.
pub proof fn lemma_first_best_step(
    items: Seq<Item>,
    weight_limit: int,
    m: int,
    c: Seq<usize>,
    r: Seq<Item>,
) -> (c2: Seq<usize>)
    requires
        well_formed_input(items, weight_limit),
        m >= 0,
        is_first_best_up_to(items, weight_limit, m, c),
        is_size_result(items, weight_limit, m + 1, r),
    ensures
        is_first_best_up_to(items, weight_limit, m + 1, c2),
        pick(items, c2) == (if total_value(r) > worth(items, c) { r } else { pick(items, c) }),
{
    let n = items.len() as int;
    lemma_worth_nonneg(items, weight_limit, c);
    if r.len() == 0 && forall|d: Seq<usize>|
        #[trigger] is_combination(d, n) && d.len() == m + 1 && fits(items, weight_limit, d)
            ==> worth(items, d) <= 0 {
        assert(r =~= Seq::<Item>::empty());
        c
    } else {
        let cs = choose|cs: Seq<usize>| is_first_best_of_size(items, weight_limit, m + 1, cs) && r == pick(items, cs);
        if total_value(r) > worth(items, c) {
            cs
        } else {
            c
        }
    }
}

/// Once every length that can fit has been searched, the first best among
/// them is the first best of all.
pub proof fn lemma_first_best_complete(items: Seq<Item>, weight_limit: int, k: int, c: Seq<usize>)
    requires
        is_first_best_up_to(items, weight_limit, k, c),
        forall|a: Seq<Item>|
            #[trigger] is_sub_collection(a, items) && total_weight(a) <= weight_limit ==> a.len() <= k,
    ensures
        is_first_best(items, weight_limit, c),
{
    assert forall|d: Seq<usize>| #[trigger] is_combination(d, items.len() as int) && fits(items, weight_limit, d)
        implies d.len() <= k by {
        lemma_pick_is_sub_collection(items, d);
        assert(is_sub_collection(pick(items, d), items));
    }
}

/// The first best combination is an optimal selection.
pub proof fn lemma_first_best_is_optimal(items: Seq<Item>, weight_limit: int, c: Seq<usize>)
    requires
        items.len() <= usize::MAX,
        is_first_best(items, weight_limit, c),
    ensures
        is_optimal(items, weight_limit, pick(items, c)),
{
    lemma_pick_is_sub_collection(items, c);
    assert forall|a: Seq<Item>|
        #[trigger] is_sub_collection(a, items) && total_weight(a) <= weight_limit
            implies total_value(a) <= total_value(pick(items, c)) by {
        let d = lemma_sub_collection_as_combination(items, a);
    }
}

// ---------------------------------------------------------------------------
// The value/weight ratio heuristic

/// Numerator of an item's value per unit of weight; an item that weighs
/// nothing is worth infinitely much per unit if it has any value, else nothing.
pub open spec fn ratio_num(it: Item) -> int {
    if it.weight == 0 {
        if it.value > 0 { 1 } else { 0 }
    } else {
        it.value as int
    }
}

/// Denominator of an item's value per unit of weight (zero stands for infinity).
pub open spec fn ratio_den(it: Item) -> int {
    if it.weight == 0 {
        if it.value > 0 { 0 } else { 1 }
    } else {
        it.weight as int
    }
}

/// `a` is worth strictly more per unit of weight than `b`.
pub open spec fn ratio_higher(a: Item, b: Item) -> bool {
    ratio_num(a) * ratio_den(b) > ratio_num(b) * ratio_den(a)
}

/// The fraction that stands for an item's ratio has a non-negative numerator
/// and denominator, and is never 0/0.
proof fn lemma_ratio_parts(it: Item)
    requires
        it.weight >= 0,
        it.value >= 0,
    ensures
        ratio_num(it) >= 0,
        ratio_den(it) >= 0,
        ratio_den(it) == 0 ==> ratio_num(it) == 1,
        ratio_num(it) == 0 ==> ratio_den(it) > 0,
{
}

/// Comparing fractions by cross-multiplication is transitive through a
/// middle fraction of positive denominator.
proof fn lemma_cross_transitive(na: int, da: int, nb: int, db: int, nc: int, dc: int)
    requires
        na >= 0,
        da >= 0,
        nb >= 0,
        db > 0,
        nc >= 0,
        dc >= 0,
        na * db >= nb * da,
        nb * dc >= nc * db,
    ensures
        na * dc >= nc * da,
{
    assert(na * db * dc >= nb * da * dc) by (nonlinear_arith)
        requires
            na * db >= nb * da,
            dc >= 0,
    ;
    assert(nb * dc * da >= nc * db * da) by (nonlinear_arith)
        requires
            nb * dc >= nc * db,
            da >= 0,
    ;
    assert(na * dc * db >= nc * da * db) by (nonlinear_arith)
        requires
            na * db * dc >= nb * da * dc,
            nb * dc * da >= nc * db * da,
    ;
    assert(na * dc >= nc * da) by (nonlinear_arith)
        requires
            na * dc * db >= nc * da * db,
            db > 0,
    ;
}

/// On items of non-negative weight and value, "worth no more per unit of
/// weight" is a total preorder: reflexive, total and transitive. Sorting by
/// descending ratio is therefore well defined.
pub proof fn lemma_ratio_total_preorder(a: Item, b: Item, c: Item)
    requires
        a.weight >= 0 && a.value >= 0,
        b.weight >= 0 && b.value >= 0,
        c.weight >= 0 && c.value >= 0,
    ensures
        !ratio_higher(a, a),
        !ratio_higher(a, b) || !ratio_higher(b, a),
        !ratio_higher(a, b) && !ratio_higher(b, c) ==> !ratio_higher(a, c),
{
    lemma_ratio_parts(a);
    lemma_ratio_parts(b);
    lemma_ratio_parts(c);
    let (na, da, nb, db, nc, dc) = (ratio_num(a), ratio_den(a), ratio_num(b), ratio_den(b), ratio_num(c), ratio_den(c));
    if !ratio_higher(a, b) && !ratio_higher(b, c) {
        // nb * da >= na * db and nc * db >= nb * dc; show nc * da >= na * dc
        if db > 0 {
            lemma_cross_transitive(nc, dc, nb, db, na, da);
        } else {
            // b is worth infinitely much per unit, so c is too
            assert(nb == 1);
            assert(nc * db == 0) by (nonlinear_arith)
                requires
                    db == 0,
            ;
            assert(nb * dc == dc) by (nonlinear_arith)
                requires
                    nb == 1,
            ;
            assert(dc == 0);
            assert(nc == 1);
        }
    }
}

/// `r` holds the items reordered by `p` (`r[i] == items[p[i]]`), by
/// non-increasing ratio, items of equal ratio in their input order.
pub open spec fn is_ratio_ordering(items: Seq<Item>, r: Seq<Item>, p: Seq<int>) -> bool {
    &&& p.len() == items.len()
    &&& r.len() == items.len()
    &&& forall|i: int| 0 <= i < p.len() ==> 0 <= #[trigger] p[i] < items.len() && r[i] == items[p[i]]
    &&& forall|i: int, j: int| 0 <= i < j < p.len() ==> p[i] != p[j]
    &&& forall|i: int, j: int| 0 <= i < j < r.len() ==> !ratio_higher(r[j], r[i])
    &&& forall|i: int, j: int| 0 <= i < j < r.len() && !ratio_higher(r[i], r[j]) ==> p[i] < p[j]
}

/// `r` is the stable sort of `items` by descending value per unit of weight.
pub open spec fn is_ratio_sort(items: Seq<Item>, r: Seq<Item>) -> bool {
    &&& exists|p: Seq<int>| is_ratio_ordering(items, r, p)
    &&& r.to_multiset() == items.to_multiset()
}

/// Takes the items in order, each one that still fits in the remaining room,
/// skipping those that do not and going on with the rest.
pub open spec fn greedy_fill(s: Seq<Item>, room: int) -> Seq<Item>
    decreases s.len(),
{
    if s.len() == 0 {
        Seq::empty()
    } else if s[0].weight <= room {
        seq![s[0]] + greedy_fill(s.drop_first(), room - s[0].weight)
    } else {
        greedy_fill(s.drop_first(), room)
    }
}

/// The result of the ratio heuristic: the greedy fill of the items in
/// descending ratio order.
pub open spec fn is_ratio_result(items: Seq<Item>, weight_limit: int, r: Seq<Item>) -> bool {
    exists|s: Seq<Item>| is_ratio_sort(items, s) && r == greedy_fill(s, weight_limit)
}

/// Putting an item in front adds its weight and value to the totals.
pub proof fn lemma_totals_prepend(x: Item, t: Seq<Item>)
    ensures
        total_weight(seq![x] + t) == x.weight + total_weight(t),
        total_value(seq![x] + t) == x.value + total_value(t),
    decreases t.len(),
{
    if t.len() == 0 {
        assert(seq![x] + t =~= Seq::<Item>::empty().push(x));
        lemma_totals_push(Seq::<Item>::empty(), x);
    } else {
        lemma_totals_prepend(x, t.drop_last());
        assert(seq![x] + t =~= (seq![x] + t.drop_last()).push(t.last()));
        assert(t =~= t.drop_last().push(t.last()));
        lemma_totals_push(seq![x] + t.drop_last(), t.last());
        lemma_totals_push(t.drop_last(), t.last());
    }
}

/// The greedy fill is a sub-multiset of what it scans and stays within the room.
pub proof fn lemma_greedy_fill_fits(s: Seq<Item>, room: int)
    requires
        room >= 0,
    ensures
        greedy_fill(s, room).to_multiset().subset_of(s.to_multiset()),
        total_weight(greedy_fill(s, room)) <= room,
    decreases s.len(),
{
    if s.len() == 0 {
        assert(greedy_fill(s, room).to_multiset() =~= Multiset::<Item>::empty());
    } else {
        let t = s.drop_first();
        assert(s =~= seq![s[0]] + t);
        vstd::seq_lib::lemma_multiset_commutative(seq![s[0]], t);
        assert(seq![s[0]].to_multiset() =~= Multiset::<Item>::empty().insert(s[0])) by {
            assert(seq![s[0]] =~= Seq::<Item>::empty().push(s[0]));
        }
        if s[0].weight <= room {
            let g = greedy_fill(t, room - s[0].weight);
            lemma_greedy_fill_fits(t, room - s[0].weight);
            vstd::seq_lib::lemma_multiset_commutative(seq![s[0]], g);
            lemma_totals_prepend(s[0], g);
        } else {
            lemma_greedy_fill_fits(t, room);
        }
    }
}

} // verus!
