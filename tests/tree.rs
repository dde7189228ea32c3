use timber::classification_tree::{ClassificationTree, ClassificationTreeBuilder};
use timber::loss_functions::{gini_impurity, weighted_gini_impurity, LossFunction, Ratio};
use timber::metrics::{accuracy, Metric};
use timber::tree_core::{Arena, ChildType, NodeData, NodeId, NodeType};
use timber::tree_utils::{check_split, generate_splits, majority_label, pick_best_split, TreeSplit};
use timber::TreeError;

fn ratio_value(r: &Ratio) -> f64 {
    r.num as f64 / r.den as f64
}

fn same_value(r: &Ratio, num: u128, den: u128) -> bool {
    r.num * den == num * r.den
}

fn tree(max_depth: usize, min_samples: usize) -> ClassificationTree {
    ClassificationTreeBuilder::default()
        .max_depth(max_depth)
        .min_samples_per_node(min_samples)
        .build()
}

#[test]
fn gini_of_empty_labels_is_one() {
    let r = gini_impurity(&vec![]);
    assert!(same_value(&r, 1, 1));
    assert_eq!(ratio_value(&r), 1.0);
}

#[test]
fn gini_of_single_class_is_zero() {
    let r = gini_impurity(&vec![3, 3, 3, 3]);
    assert_eq!(r.num, 0);
    assert_eq!(ratio_value(&r), 0.0);
}

#[test]
fn gini_of_two_balanced_classes_is_half() {
    let r = gini_impurity(&vec![0, 1, 0, 1]);
    assert!(same_value(&r, 1, 2));
}

#[test]
fn weighted_gini_exact_value() {
    // branches [0, 1] and [0]: 2/3 * 1/2 + 1/3 * 0
    let r = weighted_gini_impurity(&vec![0, 1], &vec![0]);
    assert!(same_value(&r, 1, 3));
}

#[test]
fn weighted_gini_with_empty_branch_is_other_branch() {
    let r = weighted_gini_impurity(&vec![], &vec![0, 0, 1]);
    assert!(same_value(&r, 4, 9));
}

#[test]
fn majority_tie_takes_smallest_label() {
    assert_eq!(majority_label(&vec![2, 1, 2, 1]), Some(1));
    assert_eq!(majority_label(&vec![5, 7, 7]), Some(7));
    assert_eq!(majority_label(&vec![]), None);
}

#[test]
fn candidates_of_single_eligible_column() {
    let features = vec![vec![1, 5], vec![2, 5], vec![3, 5]];
    let splits = generate_splits(&features, true);
    assert_eq!(
        splits,
        vec![
            TreeSplit { column: 0, value: 1 },
            TreeSplit { column: 0, value: 2 },
            TreeSplit { column: 0, value: 3 },
        ]
    );
}

#[test]
fn best_split_separates_last_row() {
    let features = vec![vec![1, 5], vec![2, 5], vec![3, 5]];
    let targets = vec![0, 0, 1];
    let splits = generate_splits(&features, true);
    let best = pick_best_split(&splits, &features, &targets, &LossFunction::Gini, None).unwrap();
    assert_eq!(best.column, 0);
    assert_eq!(best.value, 2);
    assert_eq!(best.loss.num, 0);
    assert_eq!(best.node_1_indices, vec![2]);
    assert_eq!(best.node_2_indices, vec![0, 1]);
    assert_eq!(best.majority_class, 0);
}

#[test]
fn pure_root_split_gives_single_leaf() {
    let features = vec![vec![1, 5], vec![2, 5], vec![3, 5]];
    let targets = vec![0, 0, 1];
    let mut model = tree(2, 1);
    assert_eq!(model.fit(&features, &targets), Ok(()));
    assert_eq!(model.nodes.nodes.len(), 1);
    let root = model.nodes.nodes[0].data;
    assert_eq!(root.node_type, NodeType::Leaf);
    assert_eq!(root.column, 0);
    assert_eq!(root.value, 2);
    assert_eq!(root.majority_class, 0);
}

#[test]
fn candidate_count_is_distinct_values_per_column() {
    // column 0 holds 3 distinct values, column 1 holds 2, the last column is excluded
    let features = vec![vec![1, 7, 0], vec![1, 8, 0], vec![2, 7, 0], vec![3, 7, 9]];
    assert_eq!(generate_splits(&features, true).len(), 5);
    // with the last column included it adds 2 more
    assert_eq!(generate_splits(&features, false).len(), 7);
}

#[test]
fn single_label_training_set_gives_one_leaf() {
    let features = vec![vec![1, 9], vec![2, 8], vec![3, 7]];
    let targets = vec![4, 4, 4];
    let mut model = tree(2, 1);
    assert_eq!(model.fit(&features, &targets), Ok(()));
    assert_eq!(model.nodes.nodes.len(), 1);
    assert_eq!(model.nodes.nodes[0].data.node_type, NodeType::Leaf);
    let rows = vec![vec![0, 0], vec![100, -100], vec![2, 8]];
    assert_eq!(model.predict(&rows), Ok(vec![4, 4, 4]));
}

fn alternating_tree() -> ClassificationTree {
    let features = vec![vec![1, 0], vec![2, 0], vec![3, 0], vec![4, 0]];
    let targets = vec![0, 1, 0, 1];
    let mut model = tree(3, 1);
    assert_eq!(model.fit(&features, &targets), Ok(()));
    model
}

#[test]
fn grows_depth_first_true_branch_first() {
    let model = alternating_tree();
    let nodes = &model.nodes.nodes;
    assert_eq!(nodes.len(), 5);
    assert_eq!(nodes[0].data.node_type, NodeType::Branch);
    assert_eq!(nodes[0].data.value, 1);
    assert!(same_value(&nodes[0].data.loss, 1, 3));
    assert_eq!(nodes[0].first_child, Some(NodeId { index: 1 }));
    assert_eq!(nodes[0].second_child, Some(NodeId { index: 4 }));
    assert_eq!(nodes[1].data.value, 2);
    assert_eq!(nodes[1].data.majority_class, 1);
    assert_eq!(nodes[1].first_child, Some(NodeId { index: 2 }));
    assert_eq!(nodes[1].second_child, Some(NodeId { index: 3 }));
    assert_eq!(nodes[2].data.value, 3);
    assert_eq!(nodes[2].data.node_type, NodeType::Leaf);
    assert_eq!(nodes[4].parent, Some(NodeId { index: 0 }));
    assert_eq!(nodes[4].data.majority_class, 0);
}

#[test]
fn predict_follows_thresholds() {
    let model = alternating_tree();
    let rows = vec![vec![1, 0], vec![2, 0], vec![3, 0], vec![4, 0]];
    assert_eq!(model.predict(&rows), Ok(vec![0, 1, 0, 0]));
}

#[test]
fn predict_is_deterministic_and_keeps_order() {
    let model = alternating_tree();
    let rows = vec![vec![4, 0], vec![2, 0], vec![1, 0], vec![2, 0]];
    let first = model.predict(&rows);
    let second = model.predict(&rows);
    assert_eq!(first, second);
    assert_eq!(first, Ok(vec![0, 1, 0, 1]));
}

#[test]
fn depth_limit_makes_root_a_leaf() {
    let features = vec![vec![1, 0], vec![2, 0], vec![3, 0], vec![4, 0]];
    let targets = vec![0, 1, 0, 1];
    let mut model = tree(0, 1);
    assert_eq!(model.fit(&features, &targets), Ok(()));
    assert_eq!(model.nodes.nodes.len(), 1);
    assert_eq!(model.nodes.nodes[0].data.node_type, NodeType::Leaf);
}

#[test]
fn min_samples_makes_root_a_leaf() {
    let features = vec![vec![1, 0], vec![2, 0], vec![3, 0], vec![4, 0]];
    let targets = vec![0, 1, 0, 1];
    let mut model = tree(3, 2);
    assert_eq!(model.fit(&features, &targets), Ok(()));
    // the best root split leaves one row on its false side
    assert_eq!(model.nodes.nodes.len(), 1);
}

#[test]
fn accuracy_two_of_three() {
    let r = accuracy(&vec![0, 1, 1], &vec![0, 1, 0]).unwrap();
    assert!(same_value(&r, 2, 3));
    assert_eq!(ratio_value(&r), 2.0 / 3.0);
}

#[test]
fn accuracy_length_mismatch_is_invalid_input() {
    assert_eq!(accuracy(&vec![0, 1, 1], &vec![0, 1]), Err(TreeError::InvalidInput));
    assert_eq!(accuracy(&vec![], &vec![]), Err(TreeError::InvalidInput));
}

#[test]
fn score_with_accuracy() {
    let model = alternating_tree();
    let rows = vec![vec![1, 0], vec![2, 0], vec![3, 0], vec![4, 0]];
    let r = model.score(&rows, &vec![0, 1, 0, 1], Metric::Accuracy).unwrap();
    assert!(same_value(&r, 3, 4));
    assert_eq!(
        model.score(&rows, &vec![0, 1], Metric::Accuracy),
        Err(TreeError::InvalidInput)
    );
    assert_eq!(
        model.score(&rows, &vec![0, 1, 0, 1], Metric::Precision),
        Err(TreeError::NotImplemented)
    );
}

#[test]
fn fit_rejects_bad_input() {
    let mut model = tree(2, 1);
    assert_eq!(model.fit(&vec![], &vec![]), Err(TreeError::InvalidInput));
    assert_eq!(model.fit(&vec![vec![1, 2]], &vec![0, 1]), Err(TreeError::InvalidInput));
    assert_eq!(
        model.fit(&vec![vec![1, 2], vec![3]], &vec![0, 1]),
        Err(TreeError::InvalidInput)
    );
    assert_eq!(model.nodes.nodes.len(), 0);
}

#[test]
fn fit_without_candidates_is_insufficient_data() {
    // a single column is the last one, so no candidate exists
    let mut model = tree(2, 1);
    assert_eq!(
        model.fit(&vec![vec![1], vec![2]], &vec![0, 1]),
        Err(TreeError::InsufficientData)
    );
    assert_eq!(model.nodes.nodes.len(), 0);
}

#[test]
fn empty_branch_child_is_insufficient_data() {
    // all values equal: the only split sends every row to the false branch
    let mut model = tree(2, 0);
    assert_eq!(
        model.fit(&vec![vec![5, 0], vec![5, 0]], &vec![0, 1]),
        Err(TreeError::InsufficientData)
    );
}

#[test]
fn refit_restarts_from_empty_store() {
    let mut model = alternating_tree();
    let features = vec![vec![1, 9], vec![2, 8]];
    assert_eq!(model.fit(&features, &vec![6, 6]), Ok(()));
    assert_eq!(model.nodes.nodes.len(), 1);
    assert_eq!(model.predict(&vec![vec![3, 3]]), Ok(vec![6]));
}

#[test]
fn predict_before_fit_is_precondition_violation() {
    let model = ClassificationTree::new(LossFunction::Gini, 2, 10);
    assert_eq!(model.predict(&vec![vec![1, 2]]), Err(TreeError::PreconditionViolation));
    assert_eq!(
        model.score(&vec![vec![1, 2]], &vec![0], Metric::Accuracy),
        Err(TreeError::PreconditionViolation)
    );
}

#[test]
fn predict_short_row_is_invalid_input() {
    let model = alternating_tree();
    assert_eq!(model.predict(&vec![vec![]]), Err(TreeError::InvalidInput));
}

#[test]
fn predict_proba_is_not_implemented() {
    let model = alternating_tree();
    assert_eq!(model.predict_proba(&vec![vec![1, 0]]), Err(TreeError::NotImplemented));
}

#[test]
fn check_split_respects_filter() {
    let features = vec![vec![1, 0], vec![2, 0], vec![3, 0], vec![4, 0]];
    let targets = vec![0, 1, 0, 1];
    let filter = vec![1, 3];
    let r = check_split(
        &features,
        &targets,
        &TreeSplit { column: 0, value: 2 },
        &LossFunction::Gini,
        Some(&filter),
    );
    assert_eq!(r.node_1_indices, vec![3]);
    assert_eq!(r.node_2_indices, vec![1]);
    assert_eq!(r.loss.num, 0);
    assert_eq!(r.majority_class, 1);
}

#[test]
fn arena_links_children() {
    let mut arena = Arena::default();
    let data = NodeData {
        node_type: NodeType::Branch,
        column: 0,
        value: 1,
        loss: Ratio { num: 1, den: 2 },
        majority_class: 0,
    };
    let root = arena.add_new_node(data, &None, None);
    let a = arena.add_new_node(data, &Some(root), Some(ChildType::First));
    let b = arena.add_new_node(data, &Some(root), Some(ChildType::Second));
    assert_eq!(root, NodeId { index: 0 });
    assert_eq!(arena.nodes[0].first_child, Some(a));
    assert_eq!(arena.nodes[0].second_child, Some(b));
    assert_eq!(arena.nodes[2].parent, Some(root));
}

#[test]
fn fit_rejects_rows_without_columns() {
    let mut model = tree(2, 1);
    assert_eq!(model.fit(&vec![vec![]], &vec![0]), Err(TreeError::InvalidInput));
    assert_eq!(model.nodes.nodes.len(), 0);
}

#[test]
fn well_formedness_check() {
    let mut model = alternating_tree();
    assert!(model.is_well_formed());
    model.n_columns = 0;
    assert!(!model.is_well_formed());
    let mut model = alternating_tree();
    model.nodes.nodes[0].first_child = Some(NodeId { index: 0 });
    assert!(!model.is_well_formed());
}

#[test]
fn prediction_of_row_alone_matches_batch() {
    let model = alternating_tree();
    let rows = vec![vec![4, 0], vec![2, 0], vec![1, 0], vec![3, 0]];
    let batch = model.predict(&rows).unwrap();
    for (i, row) in rows.iter().enumerate() {
        assert_eq!(model.predict(&vec![row.clone()]).unwrap()[0], batch[i]);
    }
}
