use vstd::prelude::*;

use crate::loss_functions::{is_zero_value, LossFunction, Ratio, MAX_ROWS};
use crate::metrics::{accuracy, count_matches, Metric};
use crate::tree_core::{Arena, ChildType, Node, NodeId, NodeType};
use crate::tree_utils::{
    best_index, candidates_upto, create_node_data, eligible_columns, filter_view, generate_splits,
    has_active_row, is_best, is_majority, lemma_best_unique, partition, pick_best_split,
    pooled_labels, rectangular, split_loss, splits_in_rows, TreeSplit,
};
use crate::TreeError;

verus! {

/// A binary classification tree over integer-keyed features and integer labels.
///
/// Feature values are order keys: only their order matters, so any totally
/// ordered numeric encoding may be used.
#[derive(Clone, Debug)]
pub struct ClassificationTree {
    pub loss_fn: LossFunction,
    pub max_depth: usize,
    pub min_samples_per_node: usize,
    pub exclude_last_column: bool,
    pub n_columns: usize,
    pub nodes: Arena,
}

/// Growth stops at a node of depth `depth` whose split would give branches of
/// `n1` and `n2` rows.
pub open spec fn stops(max_depth: int, min_samples: int, depth: int, n1: int, n2: int) -> bool {
    depth >= max_depth || n1 < min_samples || n2 < min_samples
}

/// Growing a subtree from the active rows `filter` at `depth` succeeds: every
/// node reached has a best split.
pub open spec fn grows(
    max_depth: int,
    min_samples: int,
    features: Seq<Vec<i64>>,
    targets: Seq<isize>,
    splits: Seq<TreeSplit>,
    filter: Option<Seq<usize>>,
    depth: int,
) -> bool
    decreases max_depth - depth,
{
    if has_active_row(features.len() as int, filter) && exists|k: int|
        is_best(features, targets, filter, splits, k) {
        let s = splits[best_index(features, targets, filter, splits)];
        let t = partition(features, filter, s, true);
        let f = partition(features, filter, s, false);
        if is_zero_value(split_loss(features, targets, filter, s)) || stops(
            max_depth,
            min_samples,
            depth,
            t.len() as int,
            f.len() as int,
        ) {
            true
        } else {
            grows(max_depth, min_samples, features, targets, splits, Some(t), depth + 1) && grows(
                max_depth,
                min_samples,
                features,
                targets,
                splits,
                Some(f),
                depth + 1,
            )
        }
    } else {
        false
    }
}

/// `nodes[i .. hi]` is the subtree grown from the active rows `filter` at
/// `depth`, laid out depth-first with the true branch first: the node holds the
/// best split of its rows, is a leaf when that split is pure or growth stops,
/// and otherwise has the subtrees of its two partitions as children.
pub open spec fn valid_subtree(
    max_depth: int,
    min_samples: int,
    nodes: Seq<Node>,
    i: int,
    hi: int,
    features: Seq<Vec<i64>>,
    targets: Seq<isize>,
    splits: Seq<TreeSplit>,
    filter: Option<Seq<usize>>,
    depth: int,
) -> bool
    decreases max_depth - depth,
{
    if 0 <= i < hi <= nodes.len() && has_active_row(features.len() as int, filter) && exists|k: int|
        is_best(features, targets, filter, splits, k) {
        let s = splits[best_index(features, targets, filter, splits)];
        let t = partition(features, filter, s, true);
        let f = partition(features, filter, s, false);
        let nd = nodes[i];
        let leaf = is_zero_value(split_loss(features, targets, filter, s)) || stops(
            max_depth,
            min_samples,
            depth,
            t.len() as int,
            f.len() as int,
        );
        &&& nd.data.column == s.column
        &&& nd.data.value == s.value
        &&& nd.data.loss.wf()
        &&& nd.data.loss.value() == split_loss(features, targets, filter, s)
        &&& is_majority(pooled_labels(features, targets, filter, s), nd.data.majority_class)
        &&& if leaf {
            &&& nd.data.node_type == NodeType::Leaf
            &&& nd.first_child is None
            &&& nd.second_child is None
            &&& hi == i + 1
        } else {
            &&& nd.data.node_type == NodeType::Branch
            &&& nd.first_child == Some(NodeId { index: (i + 1) as usize })
            &&& match nd.second_child {
                None => false,
                Some(c2) => {
                    &&& i + 1 < c2.index < hi
                    &&& nodes[i + 1].parent == Some(NodeId { index: i as usize })
                    &&& nodes[c2.index as int].parent == Some(NodeId { index: i as usize })
                    &&& valid_subtree(
                        max_depth,
                        min_samples,
                        nodes,
                        i + 1,
                        c2.index as int,
                        features,
                        targets,
                        splits,
                        Some(t),
                        depth + 1,
                    )
                    &&& valid_subtree(
                        max_depth,
                        min_samples,
                        nodes,
                        c2.index as int,
                        hi,
                        features,
                        targets,
                        splits,
                        Some(f),
                        depth + 1,
                    )
                },
            }
        }
    } else {
        false
    }
}

/// A subtree only reads the nodes in its own range.
proof fn lemma_valid_frame(
    max_depth: int,
    min_samples: int,
    a: Seq<Node>,
    b: Seq<Node>,
    i: int,
    hi: int,
    features: Seq<Vec<i64>>,
    targets: Seq<isize>,
    splits: Seq<TreeSplit>,
    filter: Option<Seq<usize>>,
    depth: int,
)
    requires
        valid_subtree(max_depth, min_samples, a, i, hi, features, targets, splits, filter, depth),
        hi <= b.len(),
        forall|j: int| i <= j < hi ==> a[j] == b[j],
    ensures
        valid_subtree(max_depth, min_samples, b, i, hi, features, targets, splits, filter, depth),
    decreases max_depth - depth,
{
    let s = splits[best_index(features, targets, filter, splits)];
    let t = partition(features, filter, s, true);
    let f = partition(features, filter, s, false);
    let nd = a[i];
    if nd.data.node_type == NodeType::Branch {
        if let Some(c2) = nd.second_child {
            if !(is_zero_value(split_loss(features, targets, filter, s)) || stops(
                max_depth,
                min_samples,
                depth,
                t.len() as int,
                f.len() as int,
            )) {
                lemma_valid_frame(
                    max_depth,
                    min_samples,
                    a,
                    b,
                    i + 1,
                    c2.index as int,
                    features,
                    targets,
                    splits,
                    Some(t),
                    depth + 1,
                );
                lemma_valid_frame(
                    max_depth,
                    min_samples,
                    a,
                    b,
                    c2.index as int,
                    hi,
                    features,
                    targets,
                    splits,
                    Some(f),
                    depth + 1,
                );
            }
        }
    }
}

/// `n` with `c` written into child slot `slot`.
pub open spec fn set_slot(n: Node, slot: Option<ChildType>, c: NodeId) -> Node {
    match slot {
        None => n,
        Some(ChildType::First) => Node { first_child: Some(c), ..n },
        Some(ChildType::Second) => Node { second_child: Some(c), ..n },
    }
}

/// Training data is usable: at least one row and one column, one label per
/// row, at most `MAX_ROWS` rows, all rows of the same width.
pub open spec fn training_input_ok(features: Seq<Vec<i64>>, targets: Seq<isize>) -> bool {
    &&& features.len() > 0
    &&& features[0]@.len() > 0
    &&& targets.len() == features.len()
    &&& features.len() <= MAX_ROWS
    &&& rectangular(features, features[0]@.len() as int)
}

/// The candidate universe of a training set.
pub open spec fn training_candidates(features: Seq<Vec<i64>>, exclude_last_column: bool) -> Seq<
    TreeSplit,
> {
    candidates_upto(
        features,
        eligible_columns(features[0]@.len() as int, exclude_last_column) as nat,
    )
}

/// The label that traversal from node `i` gives to `row`: follow the true
/// child when the row's value exceeds the threshold, else the false child, and
/// stop at the first node lacking that child.
pub open spec fn classify(nodes: Seq<Node>, row: Seq<i64>, i: int) -> isize
    decreases nodes.len() - i,
{
    if 0 <= i < nodes.len() {
        let nd = nodes[i];
        let next = if row[nd.data.column as int] > nd.data.value {
            nd.first_child
        } else {
            nd.second_child
        };
        match next {
            Some(c) => if i < c.index < nodes.len() {
                classify(nodes, row, c.index as int)
            } else {
                nd.data.majority_class
            },
            None => nd.data.majority_class,
        }
    } else {
        0
    }
}

/// The label of every row, in row order.
pub open spec fn predictions(nodes: Seq<Node>, rows: Seq<Vec<i64>>) -> Seq<isize> {
    Seq::new(rows.len(), |r: int| classify(nodes, rows[r]@, 0))
}

/// Every row has at least `width` values.
pub open spec fn rows_cover(rows: Seq<Vec<i64>>, width: int) -> bool {
    forall|r: int| 0 <= r < rows.len() ==> #[trigger] rows[r]@.len() >= width
}

/// Prediction depends on the tree and the rows alone: equal rows get equal
/// labels wherever they stand, and the output has one label per input row.
pub proof fn lemma_predictions_deterministic(
    nodes: Seq<Node>,
    rows1: Seq<Vec<i64>>,
    rows2: Seq<Vec<i64>>,
    i: int,
    j: int,
)
    requires
        0 <= i < rows1.len(),
        0 <= j < rows2.len(),
        rows1[i]@ == rows2[j]@,
    ensures
        predictions(nodes, rows1).len() == rows1.len(),
        predictions(nodes, rows1)[i] == predictions(nodes, rows2)[j],
        predictions(nodes, rows1)[i] == predictions(nodes, seq![rows1[i]])[0],
{
}

/// A training set whose labels are all `x` grows a single leaf predicting `x`.
pub proof fn lemma_single_class_single_leaf(
    max_depth: int,
    min_samples: int,
    nodes: Seq<Node>,
    features: Seq<Vec<i64>>,
    targets: Seq<isize>,
    splits: Seq<TreeSplit>,
    x: isize,
)
    requires
        valid_subtree(max_depth, min_samples, nodes, 0, nodes.len() as int, features, targets, splits, None, 0),
        features.len() == targets.len(),
        forall|i: int| 0 <= i < targets.len() ==> targets[i] == x,
    ensures
        nodes.len() == 1,
        nodes[0].data.node_type == NodeType::Leaf,
        nodes[0].data.majority_class == x,
        forall|row: Seq<i64>| #[trigger] classify(nodes, row, 0) == x,
{
    let k = best_index(features, targets, None, splits);
    let s = splits[k];
    let t = partition(features, None, s, true);
    let f = partition(features, None, s, false);
    let lt = crate::tree_utils::labels_at(targets, t);
    let lf = crate::tree_utils::labels_at(targets, f);
    lemma_pure_split_loss(features, targets, s, x);
    let pooled = pooled_labels(features, targets, None, s);
    let mc = nodes[0].data.majority_class;
    assert(pooled.contains(mc));
    let m = choose|m: int| 0 <= m < pooled.len() && pooled[m] == mc;
    if m < lt.len() {
        assert(pooled[m] == lt[m]);
    } else {
        assert(pooled[m] == lf[m - lt.len()]);
    }
}

/// Every split of a non-empty single-class row set has weighted impurity zero.
proof fn lemma_pure_split_loss(
    features: Seq<Vec<i64>>,
    targets: Seq<isize>,
    s: TreeSplit,
    x: isize,
)
    requires
        features.len() == targets.len(),
        forall|i: int| 0 <= i < targets.len() ==> targets[i] == x,
    ensures
        forall|j: int|
            0 <= j < crate::tree_utils::labels_at(targets, partition(features, None, s, true)).len()
                ==> #[trigger] crate::tree_utils::labels_at(
                targets,
                partition(features, None, s, true),
            )[j] == x,
        forall|j: int|
            0 <= j < crate::tree_utils::labels_at(targets, partition(features, None, s, false)).len()
                ==> #[trigger] crate::tree_utils::labels_at(
                targets,
                partition(features, None, s, false),
            )[j] == x,
        features.len() > 0 ==> is_zero_value(split_loss(features, targets, None, s)),
        features.len() > 0 ==> split_loss(features, targets, None, s).1 > 0,
{
    let t = partition(features, None, s, true);
    let f = partition(features, None, s, false);
    let lt = crate::tree_utils::labels_at(targets, t);
    let lf = crate::tree_utils::labels_at(targets, f);
    crate::tree_utils::lemma_branch_indices_bounded(features, None, s, true, features.len() as nat);
    crate::tree_utils::lemma_branch_indices_bounded(features, None, s, false, features.len() as nat);
    lemma_labels_all(targets, t, x);
    lemma_labels_all(targets, f, x);
    if features.len() > 0 {
        assert(crate::tree_utils::row_active(features.len() as int, None, 0));
        crate::tree_utils::lemma_partition_nonempty(features, None, s, features.len() as nat, 0);
        if lt.len() > 0 {
            crate::loss_functions::lemma_gini_single_class(lt, x);
        }
        if lf.len() > 0 {
            crate::loss_functions::lemma_gini_single_class(lf, x);
        }
        lemma_weighted_pure(lt, lf, x);
    }
}

/// A non-empty training set whose labels are all `x` can be grown from any
/// non-empty candidate set: every candidate scores zero, so the first one is
/// the best and the root is a leaf.
pub proof fn lemma_single_class_grows(
    max_depth: int,
    min_samples: int,
    features: Seq<Vec<i64>>,
    targets: Seq<isize>,
    splits: Seq<TreeSplit>,
    x: isize,
)
    requires
        features.len() == targets.len(),
        features.len() > 0,
        splits.len() > 0,
        forall|i: int| 0 <= i < targets.len() ==> targets[i] == x,
    ensures
        grows(max_depth, min_samples, features, targets, splits, None, 0),
{
    assert(crate::tree_utils::row_active(features.len() as int, None, 0));
    assert forall|j: int| 0 <= j < splits.len() implies is_zero_value(
        #[trigger] split_loss(features, targets, None, splits[j]),
    ) && split_loss(features, targets, None, splits[j]).1 > 0 by {
        lemma_pure_split_loss(features, targets, splits[j], x);
    }
    assert(is_best(features, targets, None, splits, 0));
    let k = best_index(features, targets, None, splits);
    assert(is_zero_value(split_loss(features, targets, None, splits[k])));
}

proof fn lemma_labels_all(targets: Seq<isize>, idx: Seq<usize>, x: isize)
    requires
        forall|i: int| 0 <= i < targets.len() ==> targets[i] == x,
        forall|j: int| 0 <= j < idx.len() ==> idx[j] < targets.len(),
    ensures
        forall|j: int|
            0 <= j < idx.len() ==> #[trigger] crate::tree_utils::labels_at(targets, idx)[j] == x,
{
}

proof fn lemma_weighted_pure(lt: Seq<isize>, lf: Seq<isize>, x: isize)
    requires
        lt.len() > 0 ==> is_zero_value(crate::loss_functions::gini_spec(lt)),
        lf.len() > 0 ==> is_zero_value(crate::loss_functions::gini_spec(lf)),
        lt.len() + lf.len() > 0,
    ensures
        is_zero_value(crate::loss_functions::weighted_gini_spec(lt, lf)),
        crate::loss_functions::weighted_gini_spec(lt, lf).1 > 0,
{
    let n1 = lt.len() as int;
    let n2 = lf.len() as int;
    assert(n1 > 0 ==> n1 * n1 > 0) by (nonlinear_arith);
    assert(n2 > 0 ==> n2 * n2 > 0) by (nonlinear_arith);
    assert(n1 > 0 && n2 > 0 ==> (n1 + n2) * n1 * n2 > 0) by (nonlinear_arith);
    if n1 > 0 && n2 > 0 {
        let p1 = crate::loss_functions::equal_pairs(lt) as int;
        let p2 = crate::loss_functions::equal_pairs(lf) as int;
        assert(p1 == n1 * n1 && p2 == n2 * n2);
        assert((n1 + n2) * n1 * n2 - p1 * n2 - p2 * n1 == 0) by (nonlinear_arith)
            requires
                p1 == n1 * n1,
                p2 == n2 * n2,
        ;
    }
}

impl ClassificationTree {
    /// Every link stays inside the store and every node splits on a known column.
    pub open spec fn wf(&self) -> bool {
        &&& self.nodes.wf()
        &&& forall|i: int|
            0 <= i < self.nodes.nodes@.len() ==> (#[trigger] self.nodes.nodes@[i]).data.column
                < self.n_columns
    }

    /// The configuration fields of `self` and `o` agree.
    pub open spec fn same_config(&self, o: &ClassificationTree) -> bool {
        &&& self.loss_fn == o.loss_fn
        &&& self.max_depth == o.max_depth
        &&& self.min_samples_per_node == o.min_samples_per_node
        &&& self.exclude_last_column == o.exclude_last_column
    }

    /// Grows the subtree of the active rows `filter` at `depth`, placing its
    /// root in `slot` of `parent`.
    fn grow_node(
        &mut self,
        filter: Option<&Vec<usize>>,
        depth: usize,
        all_splits: &Vec<TreeSplit>,
        features: &Vec<Vec<i64>>,
        targets: &Vec<isize>,
        parent: Option<NodeId>,
        slot: Option<ChildType>,
    ) -> (r: Result<(), TreeError>)
        requires
            old(self).wf(),
            features.len() == targets.len(),
            features.len() <= MAX_ROWS,
            splits_in_rows(features@, all_splits@),
            forall|k: int|
                0 <= k < all_splits@.len() ==> #[trigger] all_splits@[k].column < old(self).n_columns,
            depth <= old(self).max_depth,
            match parent {
                None => true,
                Some(p) => p.index < old(self).nodes.nodes@.len(),
            },
        ensures
            final(self).same_config(old(self)),
            final(self).n_columns == old(self).n_columns,
            r is Ok <==> grows(
                old(self).max_depth as int,
                old(self).min_samples_per_node as int,
                features@,
                targets@,
                all_splits@,
                filter_view(filter),
                depth as int,
            ),
            r is Err ==> r == Err::<(), TreeError>(TreeError::InsufficientData),
            r is Ok ==> {
                let start = old(self).nodes.nodes@.len() as int;
                let ns = final(self).nodes.nodes@;
                &&& final(self).wf()
                &&& ns.len() > start
                &&& valid_subtree(
                    old(self).max_depth as int,
                    old(self).min_samples_per_node as int,
                    ns,
                    start,
                    ns.len() as int,
                    features@,
                    targets@,
                    all_splits@,
                    filter_view(filter),
                    depth as int,
                )
                &&& ns[start].parent == parent
                &&& forall|j: int|
                    0 <= j < start && !(parent matches Some(p) && p.index == j) ==> ns[j]
                        == old(self).nodes.nodes@[j]
                &&& parent matches Some(p) ==> ns[p.index as int] == set_slot(
                    old(self).nodes.nodes@[p.index as int],
                    slot,
                    NodeId { index: start as usize },
                )
            },
        decreases old(self).max_depth - depth,
    {
        let ghost fv = filter_view(filter);
        let ghost n0 = self.nodes.nodes@;
        let ghost start = n0.len() as int;
        let best = pick_best_split(all_splits, features, targets, &self.loss_fn, filter);
        let split = match best {
            None => {
                return Err(TreeError::InsufficientData);
            },
            Some(split) => split,
        };
        let ghost k = choose|k: int|
            is_best(features@, targets@, fv, all_splits@, k) && crate::tree_utils::evaluates(
                split,
                features@,
                targets@,
                fv,
                all_splits@[k],
            );
        proof {
            let b = best_index(features@, targets@, fv, all_splits@);
            lemma_best_unique(features@, targets@, fv, all_splits@, k, b);
        }
        let n1 = split.node_1_indices.len();
        let n2 = split.node_2_indices.len();
        let stop = depth >= self.max_depth || n1 < self.min_samples_per_node || n2
            < self.min_samples_per_node;
        let data = create_node_data(&split, stop);
        let leaf = split.loss.is_zero() || stop;
        let id = self.nodes.add_new_node(data, &parent, slot);
        let ghost n1s = self.nodes.nodes@;
        proof {
            assert(n1s[start] == Node { parent, first_child: None, second_child: None, data });
            assert forall|j: int|
                0 <= j < start && !(parent matches Some(p) && p.index == j) implies n1s[j]
                == n0[j] by {}
            assert forall|i: int| 0 <= i < n1s.len() implies (#[trigger] n1s[i]).data.column
                < self.n_columns by {
                if i < start {
                    assert(n0[i].data.column < self.n_columns);
                }
            }
        }
        if leaf {
            return Ok(());
        }
        let r1 = self.grow_node(
            Some(&split.node_1_indices),
            depth + 1,
            all_splits,
            features,
            targets,
            Some(id),
            Some(ChildType::First),
        );
        if r1.is_err() {
            return r1;
        }
        let ghost n2s = self.nodes.nodes@;
        let c2_len = self.nodes.nodes.len();
        let ghost c2 = c2_len as int;
        let r2 = self.grow_node(
            Some(&split.node_2_indices),
            depth + 1,
            all_splits,
            features,
            targets,
            Some(id),
            Some(ChildType::Second),
        );
        if r2.is_err() {
            return r2;
        }
        proof {
            let n3s = self.nodes.nodes@;
            let md = self.max_depth as int;
            let ms = self.min_samples_per_node as int;
            let t = partition(features@, fv, all_splits@[k], true);
            let f = partition(features@, fv, all_splits@[k], false);
            lemma_valid_frame(
                md,
                ms,
                n2s,
                n3s,
                start + 1,
                c2,
                features@,
                targets@,
                all_splits@,
                Some(t),
                depth + 1,
            );
            assert(n3s[start + 1] == n2s[start + 1]);
            assert(is_best(features@, targets@, fv, all_splits@, k));
            let end = n3s.len() as int;
            assert(valid_subtree(md, ms, n3s, start, end, features@, targets@, all_splits@, fv, depth as int));
        }
        Ok(())
    }
}

impl ClassificationTree {
    /// An untrained tree with the given configuration that splits on every
    /// column but the last.
    pub fn new(loss_fn: LossFunction, max_depth: usize, min_samples_per_node: usize) -> (r: Self)
        ensures
            r.loss_fn == loss_fn,
            r.max_depth == max_depth,
            r.min_samples_per_node == min_samples_per_node,
            r.exclude_last_column,
            r.nodes.nodes@.len() == 0,
            r.wf(),
    {
        Self {
            loss_fn,
            max_depth,
            min_samples_per_node,
            exclude_last_column: true,
            n_columns: 0,
            nodes: Arena::new(),
        }
    }

    /// Trains the tree on `features` and `targets`, replacing any earlier tree.
    /// On failure the tree is left untrained.
    ///
    /// `InvalidInput` comes for an empty matrix (no rows, or rows without
    /// columns), a label count that differs from the row count, rows of
    /// differing widths, and more than `MAX_ROWS` rows: impurities are exact
    /// fractions compared in 128-bit arithmetic, which bounds the row count.
    /// `InsufficientData` comes when some node of the growth has no split of
    /// weighted impurity below one.
    pub fn fit(&mut self, features: &Vec<Vec<i64>>, targets: &Vec<isize>) -> (r: Result<(), TreeError>)
        ensures
            final(self).same_config(old(self)),
            r == Err::<(), TreeError>(TreeError::InvalidInput) <==> !training_input_ok(features@, targets@),
            training_input_ok(features@, targets@) ==> (r is Ok <==> grows(
                old(self).max_depth as int,
                old(self).min_samples_per_node as int,
                features@,
                targets@,
                training_candidates(features@, old(self).exclude_last_column),
                None,
                0,
            )),
            training_input_ok(features@, targets@) && r is Err ==> r == Err::<(), TreeError>(
                TreeError::InsufficientData,
            ),
            r is Err ==> final(self).nodes.nodes@.len() == 0,
            training_input_ok(features@, targets@) && eligible_columns(
                features@[0]@.len() as int,
                old(self).exclude_last_column,
            ) > 0 ==> training_candidates(features@, old(self).exclude_last_column).len() > 0,
            r is Ok ==> {
                let ns = final(self).nodes.nodes@;
                &&& final(self).wf()
                &&& final(self).n_columns == features@[0]@.len()
                &&& ns.len() > 0
                &&& ns[0].parent is None
                &&& valid_subtree(
                    old(self).max_depth as int,
                    old(self).min_samples_per_node as int,
                    ns,
                    0,
                    ns.len() as int,
                    features@,
                    targets@,
                    training_candidates(features@, old(self).exclude_last_column),
                    None,
                    0,
                )
            },
    {
        self.nodes = Arena::new();
        self.n_columns = 0;
        if features.len() == 0 || targets.len() != features.len() || features.len() > MAX_ROWS {
            return Err(TreeError::InvalidInput);
        }
        let width = features[0].len();
        if width == 0 {
            return Err(TreeError::InvalidInput);
        }
        let mut i: usize = 0;
        while i < features.len()
            invariant
                self.same_config(old(self)),
                self.nodes.nodes@.len() == 0,
                features.len() > 0,
                width == features@[0]@.len(),
                i <= features.len(),
                forall|j: int| 0 <= j < i ==> #[trigger] features@[j]@.len() == width,
            decreases features.len() - i,
        {
            if features[i].len() != width {
                assert(!rectangular(features@, width as int)) by {
                    assert(features@[i as int]@.len() != width);
                }
                return Err(TreeError::InvalidInput);
            }
            i = i + 1;
        }
        let all_splits = generate_splits(features, self.exclude_last_column);
        self.n_columns = width;
        proof {
            assert forall|k: int| 0 <= k < all_splits@.len() implies #[trigger] all_splits@[k].column
                < self.n_columns by {
                assert(crate::tree_utils::column_in_rows(features@, all_splits@[k].column as int));
                assert(0 <= all_splits@[k].column < features@[0]@.len());
            }
        }
        let r = self.grow_node(None, 0, &all_splits, features, targets, None, None);
        if r.is_err() {
            self.nodes = Arena::new();
            self.n_columns = 0;
        }
        r
    }

    /// The label that traversal from node `current` gives to `record`.
    fn navigate_tree(&self, record: &Vec<i64>, current: usize) -> (r: isize)
        requires
            self.wf(),
            current < self.nodes.nodes@.len(),
            record@.len() >= self.n_columns,
        ensures
            r == classify(self.nodes.nodes@, record@, current as int),
        decreases self.nodes.nodes@.len() - current,
    {
        let node = self.nodes.nodes[current];
        assert(node.data.column < self.n_columns);
        let child = if record[node.data.column] > node.data.value {
            node.first_child
        } else {
            node.second_child
        };
        match child {
            Some(c) => self.navigate_tree(record, c.index),
            None => node.data.majority_class,
        }
    }

    /// The label of every row, in row order.
    pub fn predict(&self, features: &Vec<Vec<i64>>) -> (r: Result<Vec<isize>, TreeError>)
        requires
            self.wf(),
        ensures
            self.nodes.nodes@.len() == 0 ==> r == Err::<Vec<isize>, TreeError>(
                TreeError::PreconditionViolation,
            ),
            self.nodes.nodes@.len() > 0 && !rows_cover(features@, self.n_columns as int) ==> r
                == Err::<Vec<isize>, TreeError>(TreeError::InvalidInput),
            self.nodes.nodes@.len() > 0 && rows_cover(features@, self.n_columns as int) ==> (r
                matches Ok(p) && p@ == predictions(self.nodes.nodes@, features@)),
    {
        if self.nodes.nodes.len() == 0 {
            return Err(TreeError::PreconditionViolation);
        }
        let mut preds: Vec<isize> = Vec::new();
        let mut i: usize = 0;
        while i < features.len()
            invariant
                self.wf(),
                self.nodes.nodes@.len() > 0,
                i <= features.len(),
                forall|j: int| 0 <= j < i ==> #[trigger] features@[j]@.len() >= self.n_columns,
                preds@ == predictions(self.nodes.nodes@, features@.take(i as int)),
            decreases features.len() - i,
        {
            let row = &features[i];
            if row.len() < self.n_columns {
                return Err(TreeError::InvalidInput);
            }
            let label = self.navigate_tree(row, 0);
            preds.push(label);
            assert(preds@ =~= predictions(self.nodes.nodes@, features@.take(i + 1)));
            i = i + 1;
        }
        assert(features@.take(i as int) == features@);
        Ok(preds)
    }

    /// Class probabilities are not provided by this model.
    pub fn predict_proba(&self, features: &Vec<Vec<i64>>) -> (r: Result<Vec<(Ratio, Ratio)>, TreeError>)
        ensures
            r == Err::<Vec<(Ratio, Ratio)>, TreeError>(TreeError::NotImplemented),
    {
        Err(TreeError::NotImplemented)
    }

    /// Predicts `features` and scores the predictions against `targets` with `metric`.
    pub fn score(&self, features: &Vec<Vec<i64>>, targets: &Vec<isize>, metric: Metric) -> (r: Result<
        Ratio,
        TreeError,
    >)
        requires
            self.wf(),
        ensures
            self.nodes.nodes@.len() == 0 ==> r == Err::<Ratio, TreeError>(
                TreeError::PreconditionViolation,
            ),
            self.nodes.nodes@.len() > 0 && !rows_cover(features@, self.n_columns as int) ==> r
                == Err::<Ratio, TreeError>(TreeError::InvalidInput),
            self.nodes.nodes@.len() > 0 && rows_cover(features@, self.n_columns as int) && metric
                != Metric::Accuracy ==> r == Err::<Ratio, TreeError>(TreeError::NotImplemented),
            self.nodes.nodes@.len() > 0 && rows_cover(features@, self.n_columns as int) && metric
                == Metric::Accuracy ==> {
                if targets.len() != features.len() || features.len() == 0 {
                    r == Err::<Ratio, TreeError>(TreeError::InvalidInput)
                } else {
                    (r matches Ok(v) && v.value() == (
                        count_matches(
                            predictions(self.nodes.nodes@, features@),
                            targets@,
                            features.len() as nat,
                        ) as int,
                        features.len() as int,
                    ))
                }
            },
    {
        let preds = match self.predict(features) {
            Ok(p) => p,
            Err(e) => {
                return Err(e);
            },
        };
        match metric {
            Metric::Accuracy => accuracy(&preds, targets),
            _ => Err(TreeError::NotImplemented),
        }
    }
}

/// Configuration for a `ClassificationTree`, with defaults: Gini impurity,
/// depth at most two, at least ten rows per node, last column excluded.
#[derive(Clone, Copy, Debug)]
pub struct ClassificationTreeBuilder {
    pub loss_fn: LossFunction,
    pub max_depth: usize,
    pub min_samples_per_node: usize,
    pub exclude_last_column: bool,
}

impl Default for ClassificationTreeBuilder {
    fn default() -> (r: Self)
        ensures
            r.loss_fn == LossFunction::Gini,
            r.max_depth == 2,
            r.min_samples_per_node == 10,
            r.exclude_last_column,
    {
        ClassificationTreeBuilder {
            loss_fn: LossFunction::Gini,
            max_depth: 2,
            min_samples_per_node: 10,
            exclude_last_column: true,
        }
    }
}

impl ClassificationTreeBuilder {
    pub fn loss_fn(self, loss_fn: LossFunction) -> (r: Self)
        ensures
            r == (Self { loss_fn, ..self }),
    {
        Self { loss_fn, ..self }
    }

    pub fn max_depth(self, max_depth: usize) -> (r: Self)
        ensures
            r == (Self { max_depth, ..self }),
    {
        Self { max_depth, ..self }
    }

    pub fn min_samples_per_node(self, min_samples_per_node: usize) -> (r: Self)
        ensures
            r == (Self { min_samples_per_node, ..self }),
    {
        Self { min_samples_per_node, ..self }
    }

    pub fn exclude_last_column(self, exclude_last_column: bool) -> (r: Self)
        ensures
            r == (Self { exclude_last_column, ..self }),
    {
        Self { exclude_last_column, ..self }
    }

    /// An untrained tree with this configuration.
    pub fn build(&self) -> (r: ClassificationTree)
        ensures
            r.loss_fn == self.loss_fn,
            r.max_depth == self.max_depth,
            r.min_samples_per_node == self.min_samples_per_node,
            r.exclude_last_column == self.exclude_last_column,
            r.nodes.nodes@.len() == 0,
            r.wf(),
    {
        ClassificationTree {
            loss_fn: self.loss_fn,
            max_depth: self.max_depth,
            min_samples_per_node: self.min_samples_per_node,
            exclude_last_column: self.exclude_last_column,
            n_columns: 0,
            nodes: Arena::new(),
        }
    }
}

/// Whether `id`, if present, lies strictly between `lo` and `hi`.
fn link_ok(id: Option<NodeId>, lo: usize, hi: usize, open_below: bool) -> (r: bool)
    ensures
        r == crate::tree_core::link_between(id, if open_below { -1 } else { lo as int }, hi as int),
{
    match id {
        None => true,
        Some(c) => (open_below || lo < c.index) && c.index < hi,
    }
}

impl ClassificationTree {
    /// Checks the invariant that `predict` and `score` rely on.
    pub fn is_well_formed(&self) -> (r: bool)
        ensures
            r == self.wf(),
    {
        let n = self.nodes.nodes.len();
        let mut i: usize = 0;
        while i < n
            invariant
                n == self.nodes.nodes@.len(),
                i <= n,
                forall|j: int|
                    0 <= j < i ==> {
                        &&& crate::tree_core::link_between(
                            #[trigger] self.nodes.nodes@[j].first_child,
                            j,
                            n as int,
                        )
                        &&& crate::tree_core::link_between(self.nodes.nodes@[j].second_child, j, n as int)
                        &&& crate::tree_core::link_between(self.nodes.nodes@[j].parent, -1, j)
                        &&& self.nodes.nodes@[j].data.column < self.n_columns
                    },
            decreases n - i,
        {
            let node = self.nodes.nodes[i];
            if !(link_ok(node.first_child, i, n, false) && link_ok(node.second_child, i, n, false)
                && link_ok(node.parent, i, i, true) && node.data.column < self.n_columns) {
                assert(!self.wf()) by {
                    assert(node == self.nodes.nodes@[i as int]);
                }
                return false;
            }
            i = i + 1;
        }
        proof {
            let ns = self.nodes.nodes@;
            assert forall|j: int| 0 <= j < ns.len() implies (#[trigger] ns[j]).data.column
                < self.n_columns by {
                assert(crate::tree_core::link_between(ns[j].first_child, j, n as int));
            }
            assert(crate::tree_core::nodes_wf(ns));
        }
        true
    }
}

} // verus!
