use pupa_features::dataset::{Item, is_pure, label_counts};
use pupa_features::select::{feature_combinations, first_min_index, select_best};
use pupa_features::tree::{build_leaves, split_group};

fn item(label: i32, features: &[i32]) -> Item {
    Item { label, features: features.to_vec() }
}

fn entropy(items: &Vec<Item>, group: &Vec<usize>) -> f64 {
    if group.is_empty() {
        return 0.0;
    }
    let total = group.len() as f64;
    let mut h = 0.0;
    for (_, c) in label_counts(items, group) {
        let p = c as f64 / total;
        if p > 0.0 {
            h -= p * p.log2();
        }
    }
    h
}

fn weighted(items: &Vec<Item>, l: &Vec<usize>, r: &Vec<usize>) -> f64 {
    let n = (l.len() + r.len()) as f64;
    (l.len() as f64 / n) * entropy(items, l) + (r.len() as f64 / n) * entropy(items, r)
}

fn score(items: &Vec<Item>, leaves: &Vec<Vec<usize>>) -> f64 {
    let n = items.len() as f64;
    leaves.iter().map(|g| entropy(items, g) * (g.len() as f64 / n)).sum()
}

fn tree_score(items: &Vec<Item>, nf: usize, feats: &Vec<usize>) -> f64 {
    let all: Vec<usize> = (0..items.len()).collect();
    let gk = |g: &Vec<usize>| entropy(items, g).to_bits();
    let sk = |l: &Vec<usize>, r: &Vec<usize>| weighted(items, l, r).to_bits();
    let leaves = build_leaves(items, nf, &all, feats, &gk, &sk);
    score(items, &leaves)
}

fn best(items: &Vec<Item>, nf: usize, m: usize) -> Vec<usize> {
    let gk = |g: &Vec<usize>| entropy(items, g).to_bits();
    let sk = |l: &Vec<usize>, r: &Vec<usize>| weighted(items, l, r).to_bits();
    let tk = |ls: &Vec<Vec<usize>>| score(items, ls).to_bits();
    select_best(items, nf, m, &gk, &sk, &tk)
}

fn separable() -> Vec<Item> {
    vec![item(1, &[2, 4]), item(1, &[3, 4]), item(2, &[6, 4]), item(2, &[9, 4])]
}

#[test]
fn empty_group_has_no_labels_and_zero_entropy() {
    let items = separable();
    assert!(label_counts(&items, &vec![]).is_empty());
    assert!(is_pure(&items, &vec![]));
    assert_eq!(entropy(&items, &vec![]), 0.0);
}

#[test]
fn single_label_group_counts_once() {
    let items = vec![item(4, &[1]), item(4, &[2]), item(4, &[3])];
    assert_eq!(label_counts(&items, &vec![0, 1, 2]), vec![(4, 3)]);
    assert!(is_pure(&items, &vec![0, 1, 2]));
    assert_eq!(entropy(&items, &vec![0, 1, 2]), 0.0);
}

#[test]
fn equinumerous_labels_give_log_of_their_number() {
    let items = vec![item(1, &[0]), item(2, &[0]), item(3, &[0]), item(4, &[0])];
    let g = vec![0, 1, 2, 3];
    assert_eq!(label_counts(&items, &g), vec![(1, 1), (2, 1), (3, 1), (4, 1)]);
    assert!(!is_pure(&items, &g));
    assert!((entropy(&items, &g) - 2.0).abs() < 1e-12);
    let two = vec![item(5, &[0]), item(6, &[0]), item(6, &[0]), item(5, &[0])];
    assert!((entropy(&two, &g) - 1.0).abs() < 1e-12);
}

#[test]
fn label_counts_in_order_of_first_occurrence() {
    let items = vec![item(3, &[0]), item(1, &[0]), item(3, &[0]), item(2, &[0]), item(1, &[0])];
    assert_eq!(label_counts(&items, &vec![0, 1, 2, 3, 4]), vec![(3, 2), (1, 2), (2, 1)]);
    assert_eq!(label_counts(&items, &vec![4, 3]), vec![(1, 1), (2, 1)]);
}

#[test]
fn reordered_group_has_same_counts() {
    let items = vec![item(3, &[0]), item(1, &[0]), item(3, &[0]), item(2, &[0])];
    let mut a = label_counts(&items, &vec![0, 1, 2, 3]);
    let mut b = label_counts(&items, &vec![3, 2, 1, 0]);
    a.sort();
    b.sort();
    assert_eq!(a, b);
    let all = vec![0, 1, 2, 3];
    assert_eq!(entropy(&items, &all), entropy(&items, &vec![2, 0, 3, 1]));
}

#[test]
fn split_by_threshold_keeps_order() {
    let items = separable();
    let (l, r) = split_group(&items, &vec![3, 2, 1, 0], 1, 6);
    assert_eq!(l, vec![1, 0]);
    assert_eq!(r, vec![3, 2]);
    let (l, r) = split_group(&items, &vec![0, 1, 2, 3], 2, 1);
    assert!(l.is_empty());
    assert_eq!(r, vec![0, 1, 2, 3]);
}

#[test]
fn combinations_in_lexicographic_order() {
    let c = feature_combinations(4, 2);
    assert_eq!(c, vec![vec![1, 2], vec![1, 3], vec![1, 4], vec![2, 3], vec![2, 4], vec![3, 4]]);
    assert_eq!(feature_combinations(3, 0), vec![Vec::<usize>::new()]);
    assert!(feature_combinations(2, 3).is_empty());
    assert_eq!(feature_combinations(3, 3), vec![vec![1, 2, 3]]);
}

#[test]
fn first_min_index_prefers_earliest() {
    assert_eq!(first_min_index(&vec![]), None);
    assert_eq!(first_min_index(&vec![5, 3, 7, 3, 4]), Some(1));
    assert_eq!(first_min_index(&vec![2, 2, 2]), Some(0));
    assert_eq!(first_min_index(&vec![9, 8, 1]), Some(2));
}

#[test]
fn separable_feature_scores_zero() {
    let items = separable();
    assert_eq!(tree_score(&items, 2, &vec![1]), 0.0);
    let all: Vec<usize> = (0..4).collect();
    let gk = |g: &Vec<usize>| entropy(&items, g).to_bits();
    let sk = |l: &Vec<usize>, r: &Vec<usize>| weighted(&items, l, r).to_bits();
    let leaves = build_leaves(&items, 2, &all, &vec![1], &gk, &sk);
    assert_eq!(leaves, vec![vec![0, 1], vec![2, 3]]);
}

#[test]
fn pure_group_is_one_leaf() {
    let items = vec![item(7, &[1, 2]), item(7, &[3, 4])];
    let gk = |g: &Vec<usize>| entropy(&items, g).to_bits();
    let sk = |l: &Vec<usize>, r: &Vec<usize>| weighted(&items, l, r).to_bits();
    let leaves = build_leaves(&items, 2, &vec![1, 0], &vec![1, 2], &gk, &sk);
    assert_eq!(leaves, vec![vec![1, 0]]);
}

#[test]
fn no_improving_split_gives_one_leaf() {
    let items = vec![item(1, &[5]), item(2, &[5])];
    assert_eq!(tree_score(&items, 1, &vec![1]), 1.0);
}

#[test]
fn tree_never_scores_above_whole_group() {
    let items = vec![
        item(1, &[1, 4]),
        item(2, &[2, 4]),
        item(1, &[3, 1]),
        item(3, &[4, 2]),
        item(2, &[5, 3]),
    ];
    let all: Vec<usize> = (0..5).collect();
    let whole = entropy(&items, &all);
    for feats in feature_combinations(2, 1).into_iter().chain(feature_combinations(2, 2)) {
        let s = tree_score(&items, 2, &feats);
        assert!(s >= 0.0);
        assert!(s <= whole + 1e-12);
    }
}

#[test]
fn one_feature_is_always_chosen() {
    let items = vec![item(1, &[3]), item(2, &[3]), item(1, &[9])];
    assert_eq!(best(&items, 1, 1), vec![1]);
}

#[test]
fn separable_feature_wins() {
    let items = separable();
    assert_eq!(tree_score(&items, 2, &vec![1]), 0.0);
    assert!(tree_score(&items, 2, &vec![2]) > 0.0);
    assert_eq!(best(&items, 2, 1), vec![1]);
}

#[test]
fn single_label_population_takes_smallest_subset() {
    let items = vec![item(8, &[1, 5, 2, 7]), item(8, &[4, 2, 6, 1]), item(8, &[3, 3, 3, 3])];
    assert_eq!(best(&items, 4, 2), vec![1, 2]);
    assert_eq!(best(&items, 4, 3), vec![1, 2, 3]);
}

#[test]
fn single_item_scores_zero() {
    let items = vec![item(2, &[4, 1, 9])];
    assert_eq!(entropy(&items, &vec![0]), 0.0);
    assert_eq!(tree_score(&items, 3, &vec![2, 3]), 0.0);
    assert_eq!(best(&items, 3, 2), vec![1, 2]);
}

#[test]
fn ties_go_to_the_smallest_combination() {
    // features 2 and 3 both separate the labels; feature 1 does not
    let items = vec![item(1, &[5, 1, 1]), item(1, &[5, 2, 2]), item(2, &[5, 8, 8]), item(2, &[5, 9, 9])];
    assert_eq!(best(&items, 3, 1), vec![2]);
    assert_eq!(best(&items, 3, 2), vec![1, 2]);
}

#[test]
fn selection_is_reproducible() {
    let items = vec![
        item(1, &[1, 4, 2]),
        item(2, &[2, 4, 7]),
        item(1, &[3, 1, 2]),
        item(3, &[4, 2, 9]),
        item(2, &[5, 3, 7]),
    ];
    let a = best(&items, 3, 2);
    let b = best(&items, 3, 2);
    assert_eq!(a, b);
    assert_eq!(a.len(), 2);
}

#[test]
fn zero_features_requested_gives_empty_choice() {
    let items = separable();
    assert_eq!(best(&items, 2, 0), Vec::<usize>::new());
}
