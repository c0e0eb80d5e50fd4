use rust_practice_lab::knapsack::{
    best_of_size, get_knapsack_items, get_knapsack_items_par_iter,
    get_suboptimal_knapsack_items_val_weight_ratio, input_is_well_formed, max_subset_size,
    ratio_order, Incumbent, Item,
};
use std::cmp::Ordering;

fn item(weight: i32, value: i32) -> Item {
    Item { weight, value }
}

fn total_weight(items: &[Item]) -> i64 {
    items.iter().map(|it| it.weight as i64).sum()
}

fn total_value(items: &[Item]) -> i64 {
    items.iter().map(|it| it.value as i64).sum()
}

fn four_items() -> Vec<Item> {
    vec![item(2, 3), item(3, 4), item(4, 5), item(5, 6)]
}

/// Twelve items that the ratio heuristic does not solve optimally at some limits.
fn mixed_items() -> Vec<Item> {
    vec![
        item(23, 92),
        item(31, 57),
        item(29, 49),
        item(44, 68),
        item(53, 60),
        item(38, 43),
        item(63, 67),
        item(85, 84),
        item(89, 87),
        item(82, 72),
        item(5, 10),
        item(6, 11),
    ]
}

#[test]
fn exhaustive_scenario_four_items() {
    let mut items = four_items();
    let best = get_knapsack_items(&mut items, 5);
    assert_eq!(best, vec![item(2, 3), item(3, 4)]);
    assert_eq!(total_value(&best), 7);
    assert!(total_weight(&best) <= 5);
    assert_eq!(items, four_items());
}

#[test]
fn data_parallel_scenario_four_items() {
    let items = four_items();
    let best = get_knapsack_items_par_iter(&items, 5);
    assert_eq!(best, vec![item(2, 3), item(3, 4)]);
}

#[test]
fn ratio_scenario_four_items() {
    let mut items = four_items();
    let picked = get_suboptimal_knapsack_items_val_weight_ratio(&mut items, 5);
    assert_eq!(picked, vec![item(2, 3), item(3, 4)]);
    assert_eq!(total_value(&picked), 7);
    assert_eq!(items, four_items());
}

#[test]
fn zero_limit_gives_empty_selection() {
    let mut items = four_items();
    assert!(get_knapsack_items(&mut items, 0).is_empty());
    assert!(get_knapsack_items_par_iter(&items, 0).is_empty());
    assert!(get_suboptimal_knapsack_items_val_weight_ratio(&mut items, 0).is_empty());
}

#[test]
fn limit_below_lightest_gives_empty_selection() {
    let mut items = four_items();
    assert!(get_knapsack_items(&mut items, 1).is_empty());
    assert!(get_knapsack_items_par_iter(&items, 1).is_empty());
    assert!(get_suboptimal_knapsack_items_val_weight_ratio(&mut items, 1).is_empty());
}

#[test]
fn no_items_gives_empty_selection() {
    let mut items: Vec<Item> = Vec::new();
    for limit in [0, 1, 100, i32::MAX] {
        assert!(get_knapsack_items(&mut items, limit).is_empty());
        assert!(get_knapsack_items_par_iter(&items, limit).is_empty());
        assert!(get_suboptimal_knapsack_items_val_weight_ratio(&mut items, limit).is_empty());
    }
}

#[test]
fn negative_input_gives_empty_selection() {
    let mut items = four_items();
    assert!(get_knapsack_items(&mut items, -1).is_empty());
    assert!(get_knapsack_items_par_iter(&items, -1).is_empty());
    assert!(get_suboptimal_knapsack_items_val_weight_ratio(&mut items, -1).is_empty());
    let mut bad = vec![item(2, 3), item(-1, 4)];
    assert!(get_knapsack_items(&mut bad, 10).is_empty());
    let mut bad_value = vec![item(2, -3), item(1, 4)];
    assert!(get_suboptimal_knapsack_items_val_weight_ratio(&mut bad_value, 10).is_empty());
}

#[test]
fn well_formed_input_check() {
    assert!(input_is_well_formed(&four_items(), 0));
    assert!(input_is_well_formed(&vec![item(0, 0)], 3));
    assert!(!input_is_well_formed(&four_items(), -1));
    assert!(!input_is_well_formed(&vec![item(1, 1), item(1, -1)], 3));
    assert!(!input_is_well_formed(&vec![item(-1, 1)], 3));
}

#[test]
fn every_strategy_stays_within_limit() {
    for limit in [0, 10, 50, 100, 150, 200, 400] {
        let mut items = mixed_items();
        let exact = get_knapsack_items(&mut items, limit);
        let parallel = get_knapsack_items_par_iter(&items, limit);
        let greedy = get_suboptimal_knapsack_items_val_weight_ratio(&mut items, limit);
        assert!(total_weight(&exact) <= limit as i64);
        assert!(total_weight(&parallel) <= limit as i64);
        assert!(total_weight(&greedy) <= limit as i64);
    }
}

#[test]
fn exhaustive_values_agree_and_dominate_heuristic() {
    for limit in [0, 10, 50, 100, 150, 200, 400] {
        let mut items = mixed_items();
        let exact = get_knapsack_items(&mut items, limit);
        let parallel = get_knapsack_items_par_iter(&items, limit);
        let greedy = get_suboptimal_knapsack_items_val_weight_ratio(&mut items, limit);
        assert_eq!(total_value(&exact), total_value(&parallel));
        assert!(total_value(&greedy) <= total_value(&exact));
    }
}

#[test]
fn heuristic_can_be_suboptimal() {
    let mut items = vec![item(5, 10), item(6, 11), item(6, 11)];
    let greedy = get_suboptimal_knapsack_items_val_weight_ratio(&mut items, 12);
    assert_eq!(greedy, vec![item(5, 10), item(6, 11)]);
    assert_eq!(total_value(&greedy), 21);
    let exact = get_knapsack_items(&mut items, 12);
    assert_eq!(exact, vec![item(6, 11), item(6, 11)]);
    assert_eq!(total_value(&exact), 22);
}

#[test]
fn heuristic_skips_and_continues() {
    let mut items = vec![item(5, 5), item(4, 8), item(1, 1)];
    let greedy = get_suboptimal_knapsack_items_val_weight_ratio(&mut items, 5);
    assert_eq!(greedy, vec![item(4, 8), item(1, 1)]);
}

#[test]
fn heuristic_keeps_input_order_on_equal_ratio() {
    let mut items = vec![item(2, 2), item(4, 8), item(1, 1), item(3, 3)];
    let greedy = get_suboptimal_knapsack_items_val_weight_ratio(&mut items, 7);
    assert_eq!(greedy, vec![item(4, 8), item(2, 2), item(1, 1)]);
}

#[test]
fn heuristic_takes_weightless_valuable_items_first() {
    let mut items = vec![item(1, 100), item(0, 1), item(0, 0)];
    let greedy = get_suboptimal_knapsack_items_val_weight_ratio(&mut items, 0);
    assert_eq!(greedy, vec![item(0, 1), item(0, 0)]);
}

#[test]
fn exhaustive_is_idempotent() {
    let mut items = mixed_items();
    let first = get_knapsack_items(&mut items, 150);
    let second = get_knapsack_items(&mut items, 150);
    assert_eq!(first, second);
    assert_eq!(first, get_knapsack_items_par_iter(&items, 150));
}

#[test]
fn exhaustive_ties_keep_first_found() {
    let mut items = vec![item(3, 5), item(1, 2), item(2, 3), item(3, 5)];
    let best = get_knapsack_items(&mut items, 3);
    assert_eq!(best, vec![item(3, 5)]);
    let mut pairs = vec![item(2, 4), item(1, 1), item(1, 3), item(2, 4)];
    let best = get_knapsack_items(&mut pairs, 3);
    assert_eq!(best, vec![item(2, 4), item(1, 3)]);
}

#[test]
fn exhaustive_finds_weight_equal_to_limit() {
    let mut items = vec![item(5, 6)];
    assert_eq!(get_knapsack_items(&mut items, 5), vec![item(5, 6)]);
}

#[test]
fn exhaustive_ignores_worthless_items() {
    let mut items = vec![item(1, 0), item(2, 0)];
    assert!(get_knapsack_items(&mut items, 10).is_empty());
}

#[test]
fn exhaustive_uses_lighter_items_anywhere_in_the_list() {
    let mut items = vec![item(9, 1), item(9, 1), item(1, 4), item(1, 4)];
    assert_eq!(get_knapsack_items(&mut items, 2), vec![item(1, 4), item(1, 4)]);
}

#[test]
fn max_subset_size_counts_lightest_items() {
    let items = four_items();
    assert_eq!(max_subset_size(&items, 5), 2);
    assert_eq!(max_subset_size(&items, 4), 1);
    assert_eq!(max_subset_size(&items, 14), 4);
    assert_eq!(max_subset_size(&items, 1), 0);
    let descending = vec![item(5, 6), item(4, 5), item(3, 4), item(2, 3)];
    assert_eq!(max_subset_size(&descending, 5), 2);
}

#[test]
fn best_of_size_searches_one_length() {
    let items = four_items();
    assert_eq!(best_of_size(&items, 5, 1), vec![item(5, 6)]);
    assert_eq!(best_of_size(&items, 5, 2), vec![item(2, 3), item(3, 4)]);
    assert!(best_of_size(&items, 5, 3).is_empty());
    assert!(best_of_size(&items, 5, 5).is_empty());
    assert_eq!(best_of_size(&items, 9, 2), vec![item(4, 5), item(5, 6)]);
}

#[test]
fn incumbent_keeps_strictly_better() {
    let mut best = Incumbent::new();
    assert_eq!(best.value(), 0);
    best.offer(vec![item(2, 3), item(3, 4)]);
    assert_eq!(best.value(), 7);
    best.offer(vec![item(1, 7)]);
    assert_eq!(best.value(), 7);
    best.offer(vec![item(5, 6)]);
    assert_eq!(best.value(), 7);
    best.offer(vec![item(4, 8)]);
    assert_eq!(best.into_items(), vec![item(4, 8)]);
}

#[test]
fn incumbent_merge_order_keeps_value() {
    let items = mixed_items();
    let limit = 150;
    let k = max_subset_size(&items, limit);
    let mut forward = Incumbent::new();
    let mut backward = Incumbent::new();
    for size in 1..=k {
        forward.offer(best_of_size(&items, limit, size));
    }
    for size in (1..=k).rev() {
        backward.offer(best_of_size(&items, limit, size));
    }
    let mut copy = items.clone();
    let exact = get_knapsack_items(&mut copy, limit);
    assert_eq!(forward.value(), total_value(&exact) as i128);
    assert_eq!(backward.value(), total_value(&exact) as i128);
    assert_eq!(forward.into_items(), exact);
}

#[test]
fn ratio_order_compares_value_per_weight() {
    assert_eq!(ratio_order(&item(2, 3), &item(3, 4)), Ordering::Less);
    assert_eq!(ratio_order(&item(3, 4), &item(2, 3)), Ordering::Greater);
    assert_eq!(ratio_order(&item(2, 4), &item(1, 2)), Ordering::Equal);
    assert_eq!(ratio_order(&item(0, 1), &item(1, 100)), Ordering::Less);
    assert_eq!(ratio_order(&item(0, 0), &item(1, 0)), Ordering::Equal);
    assert_eq!(ratio_order(&item(0, 0), &item(1, 1)), Ordering::Greater);
}

#[test]
fn item_new_and_randomize() {
    let boxed = Item::new(7, 9);
    assert_eq!(*boxed, item(7, 9));
    let mut it = *Item::new(0, 0);
    it.randomize();
    assert!((1..=100).contains(&it.weight));
    assert!((1..=100).contains(&it.value));
}
