use vstd::prelude::*;

use crate::tree_core::{NodeData, NodeType};
use crate::loss_functions::{
    count_label, count_of, ratio_lt, weighted_gini_impurity, weighted_gini_spec, LossFunction, Ratio, MAX_ROWS,
};

verus! {

/// A candidate rule: rows whose value in `column` exceeds `value` take the true branch.
#[derive(Clone, Copy, Debug, PartialEq, Eq, Structural)]
pub struct TreeSplit {
    pub column: usize,
    pub value: i64,
}

/// A candidate scored against a set of active rows.
#[derive(Debug)]
pub struct SplitResult {
    pub value: i64,
    pub column: usize,
    pub loss: Ratio,
    pub node_1_indices: Vec<usize>,
    pub node_2_indices: Vec<usize>,
    pub majority_class: isize,
}

/// The active-row filter as a sequence; `None` stands for all rows.
pub open spec fn filter_view(filter: Option<&Vec<usize>>) -> Option<Seq<usize>> {
    match filter {
        None => None,
        Some(f) => Some(f@),
    }
}

/// Row `i` of `n` rows belongs to the active set.
pub open spec fn row_active(n: int, filter: Option<Seq<usize>>, i: int) -> bool {
    &&& 0 <= i < n
    &&& match filter {
        None => true,
        Some(f) => f.contains(i as usize),
    }
}

/// Some row of `n` rows is active.
pub open spec fn has_active_row(n: int, filter: Option<Seq<usize>>) -> bool {
    exists|i: int| row_active(n, filter, i)
}

/// Every row has a value in `column`.
pub open spec fn column_in_rows(features: Seq<Vec<i64>>, column: int) -> bool {
    forall|i: int| 0 <= i < features.len() ==> 0 <= column < #[trigger] features[i]@.len()
}

/// Every candidate's column exists in every row.
pub open spec fn splits_in_rows(features: Seq<Vec<i64>>, splits: Seq<TreeSplit>) -> bool {
    forall|k: int| 0 <= k < splits.len() ==> column_in_rows(features, splits[k].column as int)
}

/// Row `i` takes the true branch of `split`.
pub open spec fn goes_true(features: Seq<Vec<i64>>, split: TreeSplit, i: int) -> bool {
    features[i]@[split.column as int] > split.value
}

/// The active rows below `k` that `split` sends to branch `side`, ascending.
pub open spec fn branch_indices(
    features: Seq<Vec<i64>>,
    filter: Option<Seq<usize>>,
    split: TreeSplit,
    side: bool,
    k: nat,
) -> Seq<usize>
    decreases k,
{
    if k == 0 {
        Seq::empty()
    } else {
        let prev = branch_indices(features, filter, split, side, (k - 1) as nat);
        let i = k - 1;
        if row_active(features.len() as int, filter, i) && goes_true(features, split, i) == side {
            prev.push(i as usize)
        } else {
            prev
        }
    }
}

/// The active rows that `split` sends to branch `side`, ascending.
pub open spec fn partition(
    features: Seq<Vec<i64>>,
    filter: Option<Seq<usize>>,
    split: TreeSplit,
    side: bool,
) -> Seq<usize> {
    branch_indices(features, filter, split, side, features.len() as nat)
}

/// The labels of the rows `idx`, in order.
pub open spec fn labels_at(targets: Seq<isize>, idx: Seq<usize>) -> Seq<isize> {
    idx.map_values(|i: usize| targets[i as int])
}

/// Weighted impurity of `split` on the active rows.
pub open spec fn split_loss(
    features: Seq<Vec<i64>>,
    targets: Seq<isize>,
    filter: Option<Seq<usize>>,
    split: TreeSplit,
) -> (int, int) {
    weighted_gini_spec(
        labels_at(targets, partition(features, filter, split, true)),
        labels_at(targets, partition(features, filter, split, false)),
    )
}

/// `x` occurs most often in `s`; among equally frequent labels it is the smallest.
pub open spec fn is_majority(s: Seq<isize>, x: isize) -> bool {
    &&& s.contains(x)
    &&& forall|y: isize|
        s.contains(y) ==> count_of(s, y) < count_of(s, x) || (count_of(s, y) == count_of(s, x)
            && x <= y)
}

/// The labels of all active rows, true branch first.
pub open spec fn pooled_labels(
    features: Seq<Vec<i64>>,
    targets: Seq<isize>,
    filter: Option<Seq<usize>>,
    split: TreeSplit,
) -> Seq<isize> {
    labels_at(targets, partition(features, filter, split, true)) + labels_at(
        targets,
        partition(features, filter, split, false),
    )
}

/// `r` is `split` evaluated on the active rows.
pub open spec fn evaluates(
    r: SplitResult,
    features: Seq<Vec<i64>>,
    targets: Seq<isize>,
    filter: Option<Seq<usize>>,
    split: TreeSplit,
) -> bool {
    &&& r.column == split.column
    &&& r.value == split.value
    &&& r.node_1_indices@ == partition(features, filter, split, true)
    &&& r.node_2_indices@ == partition(features, filter, split, false)
    &&& r.loss.wf()
    &&& r.loss.value() == split_loss(features, targets, filter, split)
    &&& is_majority(pooled_labels(features, targets, filter, split), r.majority_class)
}

/// Candidate `k` is the first one of least loss, and that loss is below one.
pub open spec fn is_best(
    features: Seq<Vec<i64>>,
    targets: Seq<isize>,
    filter: Option<Seq<usize>>,
    splits: Seq<TreeSplit>,
    k: int,
) -> bool {
    &&& 0 <= k < splits.len()
    &&& ratio_lt(split_loss(features, targets, filter, splits[k]), (1, 1))
    &&& forall|j: int|
        0 <= j < k ==> ratio_lt(
            split_loss(features, targets, filter, splits[k]),
            split_loss(features, targets, filter, splits[j]),
        )
    &&& forall|j: int|
        k < j < splits.len() ==> !ratio_lt(
            split_loss(features, targets, filter, splits[j]),
            split_loss(features, targets, filter, splits[k]),
        )
}

/// Whether `i` occurs in `f`.
fn filter_contains(f: &Vec<usize>, i: usize) -> (r: bool)
    ensures
        r == f@.contains(i),
{
    let mut j: usize = 0;
    while j < f.len()
        invariant
            j <= f.len(),
            forall|m: int| 0 <= m < j ==> f@[m] != i,
        decreases f.len() - j,
    {
        if f[j] == i {
            return true;
        }
        j = j + 1;
    }
    false
}

/// Whether some row of `n` rows is active.
fn any_active_row(n: usize, filter: Option<&Vec<usize>>) -> (r: bool)
    ensures
        r == has_active_row(n as int, filter_view(filter)),
{
    match filter {
        None => {
            if n > 0 {
                assert(row_active(n as int, filter_view(filter), 0));
            }
            n > 0
        },
        Some(f) => {
            assert(filter_view(filter) == Some(f@));
            let mut j: usize = 0;
            while j < f.len()
                invariant
                    j <= f.len(),
                    filter_view(filter) == Some(f@),
                    forall|m: int| 0 <= m < j ==> f@[m] >= n,
                decreases f.len() - j,
            {
                if f[j] < n {
                    let ghost v = f@[j as int];
                    assert(f@.contains(v));
                    assert(row_active(n as int, filter_view(filter), v as int));
                    return true;
                }
                j = j + 1;
            }
            assert forall|i: int| !row_active(n as int, filter_view(filter), i) by {
                if row_active(n as int, filter_view(filter), i) {
                    let m = choose|m: int| 0 <= m < f@.len() && f@[m] == i as usize;
                    assert(f@[m] >= n);
                }
            }
            false
        },
    }
}

/// The most frequent label, the smallest among ties; `None` for no labels.
pub fn majority_label(labels: &Vec<isize>) -> (r: Option<isize>)
    ensures
        r is None <==> labels.len() == 0,
        r matches Some(x) ==> is_majority(labels@, x),
{
    if labels.len() == 0 {
        return None;
    }
    let mut best = labels[0];
    let mut best_count = count_label(labels, best);
    let mut i: usize = 1;
    while i < labels.len()
        invariant
            1 <= i <= labels.len(),
            labels@.contains(best),
            best_count == count_of(labels@, best),
            forall|j: int|
                0 <= j < i ==> count_of(labels@, labels@[j]) < best_count || (count_of(
                    labels@,
                    labels@[j],
                ) == best_count && best <= labels@[j]),
        decreases labels.len() - i,
    {
        let x = labels[i];
        let c = count_label(labels, x);
        if c > best_count || (c == best_count && x < best) {
            best = x;
            best_count = c;
        }
        i = i + 1;
    }
    assert forall|y: isize| labels@.contains(y) implies count_of(labels@, y) < count_of(labels@, best)
        || (count_of(labels@, y) == count_of(labels@, best) && best <= y) by {
        let j = choose|j: int| 0 <= j < labels@.len() && labels@[j] == y;
    }
    Some(best)
}

pub proof fn lemma_partition_nonempty(
    features: Seq<Vec<i64>>,
    filter: Option<Seq<usize>>,
    split: TreeSplit,
    k: nat,
    i: int,
)
    requires
        row_active(features.len() as int, filter, i),
        i < k,
    ensures
        branch_indices(features, filter, split, true, k).len() + branch_indices(
            features,
            filter,
            split,
            false,
            k,
        ).len() > 0,
    decreases k,
{
    if i < k - 1 {
        lemma_partition_nonempty(features, filter, split, (k - 1) as nat, i);
    }
}

/// `a < b <= c` gives `a < c` for fractions with positive denominators.
proof fn lemma_ratio_lt_le(a: (int, int), b: (int, int), c: (int, int))
    requires
        a.1 > 0,
        b.1 > 0,
        c.1 > 0,
        ratio_lt(a, b),
        !ratio_lt(c, b),
    ensures
        ratio_lt(a, c),
{
    let (a0, a1) = a;
    let (b0, b1) = b;
    let (c0, c1) = c;
    assert(a0 * b1 * c1 < b0 * a1 * c1) by (nonlinear_arith)
        requires
            a0 * b1 < b0 * a1,
            c1 > 0,
    ;
    assert(b0 * c1 * a1 <= c0 * b1 * a1) by (nonlinear_arith)
        requires
            b0 * c1 <= c0 * b1,
            a1 > 0,
    ;
    assert(a0 * c1 < c0 * a1) by (nonlinear_arith)
        requires
            a0 * b1 * c1 < b0 * a1 * c1,
            b0 * c1 * a1 <= c0 * b1 * a1,
            b1 > 0,
    ;
}

/// Scores `split` on the active rows: the two branches, their weighted impurity
/// and the majority label of the active rows.
pub fn check_split(
    features: &Vec<Vec<i64>>,
    targets: &Vec<isize>,
    split: &TreeSplit,
    loss_fn: &LossFunction,
    filter: Option<&Vec<usize>>,
) -> (r: SplitResult)
    requires
        features.len() == targets.len(),
        features.len() <= MAX_ROWS,
        column_in_rows(features@, split.column as int),
        has_active_row(features.len() as int, filter_view(filter)),
    ensures
        evaluates(r, features@, targets@, filter_view(filter), *split),
{
    let ghost fv = filter_view(filter);
    let n = features.len();
    let mut node_1_targets: Vec<isize> = Vec::new();
    let mut node_2_targets: Vec<isize> = Vec::new();
    let mut node_1_indices: Vec<usize> = Vec::new();
    let mut node_2_indices: Vec<usize> = Vec::new();
    let mut i: usize = 0;
    while i < n
        invariant
            n == features.len() == targets.len() <= MAX_ROWS,
            fv == filter_view(filter),
            column_in_rows(features@, split.column as int),
            i <= n,
            node_1_indices@ == branch_indices(features@, fv, *split, true, i as nat),
            node_2_indices@ == branch_indices(features@, fv, *split, false, i as nat),
            node_1_targets@ == labels_at(targets@, node_1_indices@),
            node_2_targets@ == labels_at(targets@, node_2_indices@),
            node_1_indices.len() + node_2_indices.len() <= i,
        decreases n - i,
    {
        let active = match filter {
            None => true,
            Some(f) => filter_contains(f, i),
        };
        assert(active == row_active(n as int, fv, i as int));
        let row = &features[i];
        assert(row@ == features@[i as int]@);
        if active {
            if row[split.column] > split.value {
                proof {
                    assert(labels_at(targets@, node_1_indices@.push(i)) =~= labels_at(
                        targets@,
                        node_1_indices@,
                    ).push(targets@[i as int]));
                }
                node_1_targets.push(targets[i]);
                node_1_indices.push(i);
            } else {
                proof {
                    assert(labels_at(targets@, node_2_indices@.push(i)) =~= labels_at(
                        targets@,
                        node_2_indices@,
                    ).push(targets@[i as int]));
                }
                node_2_targets.push(targets[i]);
                node_2_indices.push(i);
            }
        }
        i = i + 1;
    }
    let loss = match loss_fn {
        LossFunction::Gini => weighted_gini_impurity(&node_1_targets, &node_2_targets),
    };
    let mut pooled: Vec<isize> = Vec::new();
    let mut j: usize = 0;
    while j < node_1_targets.len()
        invariant
            j <= node_1_targets.len(),
            pooled@ == node_1_targets@.take(j as int),
        decreases node_1_targets.len() - j,
    {
        pooled.push(node_1_targets[j]);
        assert(node_1_targets@.take(j + 1) =~= node_1_targets@.take(j as int).push(
            node_1_targets@[j as int],
        ));
        j = j + 1;
    }
    let mut j: usize = 0;
    while j < node_2_targets.len()
        invariant
            j <= node_2_targets.len(),
            pooled@ == node_1_targets@ + node_2_targets@.take(j as int),
        decreases node_2_targets.len() - j,
    {
        pooled.push(node_2_targets[j]);
        assert(node_1_targets@ + node_2_targets@.take(j + 1) =~= (node_1_targets@
            + node_2_targets@.take(j as int)).push(node_2_targets@[j as int]));
        j = j + 1;
    }
    assert(node_1_targets@.take(node_1_targets.len() as int) == node_1_targets@);
    assert(node_2_targets@.take(node_2_targets.len() as int) == node_2_targets@);
    proof {
        let w = choose|w: int| row_active(n as int, fv, w);
        lemma_partition_nonempty(features@, fv, *split, n as nat, w);
    }
    let majority_class = match majority_label(&pooled) {
        Some(x) => x,
        None => 0,
    };
    SplitResult {
        value: split.value,
        column: split.column,
        loss,
        node_1_indices,
        node_2_indices,
        majority_class,
    }
}

/// Evaluates every candidate on the active rows and keeps the first of least
/// weighted impurity; `None` when no candidate scores below one.
pub fn pick_best_split(
    all_splits: &Vec<TreeSplit>,
    features: &Vec<Vec<i64>>,
    targets: &Vec<isize>,
    loss_fn: &LossFunction,
    filter: Option<&Vec<usize>>,
) -> (r: Option<SplitResult>)
    requires
        features.len() == targets.len(),
        features.len() <= MAX_ROWS,
        splits_in_rows(features@, all_splits@),
    ensures
        r is None <==> !(has_active_row(features.len() as int, filter_view(filter)) && exists|k: int|
            is_best(features@, targets@, filter_view(filter), all_splits@, k)),
        r matches Some(s) ==> exists|k: int|
            is_best(features@, targets@, filter_view(filter), all_splits@, k) && evaluates(
                s,
                features@,
                targets@,
                filter_view(filter),
                all_splits@[k],
            ),
{
    let ghost fv = filter_view(filter);
    if !any_active_row(features.len(), filter) {
        return None;
    }
    let mut best: Option<SplitResult> = None;
    let mut min_loss = Ratio { num: 1, den: 1 };
    let ghost mut bk: int = 0;
    let mut k: usize = 0;
    while k < all_splits.len()
        invariant
            features.len() == targets.len() <= MAX_ROWS,
            splits_in_rows(features@, all_splits@),
            fv == filter_view(filter),
            has_active_row(features.len() as int, fv),
            k <= all_splits.len(),
            min_loss.wf(),
            forall|j: int|
                0 <= j < k ==> (#[trigger] split_loss(features@, targets@, fv, all_splits@[j])).1 > 0,
            best is None ==> min_loss.value() == (1int, 1int) && forall|j: int|
                0 <= j < k ==> !ratio_lt(
                    #[trigger] split_loss(features@, targets@, fv, all_splits@[j]),
                    (1, 1),
                ),
            best matches Some(b) ==> {
                &&& 0 <= bk < k
                &&& evaluates(b, features@, targets@, fv, all_splits@[bk])
                &&& min_loss.value() == split_loss(features@, targets@, fv, all_splits@[bk])
                &&& ratio_lt(split_loss(features@, targets@, fv, all_splits@[bk]), (1, 1))
                &&& forall|j: int|
                    0 <= j < bk ==> ratio_lt(
                        split_loss(features@, targets@, fv, all_splits@[bk]),
                        #[trigger] split_loss(features@, targets@, fv, all_splits@[j]),
                    )
                &&& forall|j: int|
                    bk < j < k ==> !ratio_lt(
                        #[trigger] split_loss(features@, targets@, fv, all_splits@[j]),
                        split_loss(features@, targets@, fv, all_splits@[bk]),
                    )
            },
        decreases all_splits.len() - k,
    {
        let split = &all_splits[k];
        let result = check_split(features, targets, split, loss_fn, filter);
        let ghost lk = split_loss(features@, targets@, fv, all_splits@[k as int]);
        if result.loss.less_than(&min_loss) {
            proof {
                if best is None {
                    assert forall|j: int| 0 <= j < k implies ratio_lt(
                        lk,
                        #[trigger] split_loss(features@, targets@, fv, all_splits@[j]),
                    ) by {
                        lemma_ratio_lt_le(lk, (1, 1), split_loss(features@, targets@, fv, all_splits@[j]));
                    }
                } else {
                    let lb = split_loss(features@, targets@, fv, all_splits@[bk]);
                    lemma_ratio_lt_le(lk, lb, (1, 1));
                    assert forall|j: int| 0 <= j < k implies ratio_lt(
                        lk,
                        #[trigger] split_loss(features@, targets@, fv, all_splits@[j]),
                    ) by {
                        let lj = split_loss(features@, targets@, fv, all_splits@[j]);
                        if j != bk {
                            lemma_ratio_lt_le(lk, lb, lj);
                        }
                    }
                }
                bk = k as int;
            }
            min_loss = result.loss;
            best = Some(result);
        }
        k = k + 1;
    }
    proof {
        if best is None {
            assert forall|k: int| !is_best(features@, targets@, fv, all_splits@, k) by {
                if 0 <= k < all_splits.len() {
                    assert(!ratio_lt(split_loss(features@, targets@, fv, all_splits@[k]), (1, 1)));
                }
            }
        } else {
            assert(is_best(features@, targets@, fv, all_splits@, bk));
        }
    }
    best
}

/// Number of columns that produce candidates: all of them, or all but the last.
pub open spec fn eligible_columns(width: int, exclude_last_column: bool) -> int {
    if exclude_last_column {
        if width > 0 {
            width - 1
        } else {
            0
        }
    } else {
        width
    }
}

/// Every row has `width` values.
pub open spec fn rectangular(features: Seq<Vec<i64>>, width: int) -> bool {
    forall|i: int| 0 <= i < features.len() ==> #[trigger] features[i]@.len() == width
}

/// Some row below `m` has `v` in column `c`.
pub open spec fn seen_in_column(features: Seq<Vec<i64>>, c: int, m: int, v: i64) -> bool {
    exists|j: int| 0 <= j < m && #[trigger] features[j]@[c] == v
}

/// The distinct values of column `c`.
pub open spec fn column_values(features: Seq<Vec<i64>>, c: int) -> Set<i64> {
    Set::new(|v: i64| seen_in_column(features, c, features.len() as int, v))
}

pub open spec fn strictly_increasing(s: Seq<i64>) -> bool {
    forall|i: int, j: int| 0 <= i < j < s.len() ==> s[i] < s[j]
}

/// The distinct values of column `c` in ascending order.
pub open spec fn column_thresholds(features: Seq<Vec<i64>>, c: int) -> Seq<i64> {
    choose|s: Seq<i64>| strictly_increasing(s) && s.to_set() == column_values(features, c)
}

/// The candidates of columns `0 .. k`: by column, then by ascending threshold.
pub open spec fn candidates_upto(features: Seq<Vec<i64>>, k: nat) -> Seq<TreeSplit>
    decreases k,
{
    if k == 0 {
        Seq::empty()
    } else {
        candidates_upto(features, (k - 1) as nat) + column_thresholds(
            features,
            k - 1,
        ).map_values(|v: i64| TreeSplit { column: (k - 1) as usize, value: v })
    }
}

/// Sum of the numbers of distinct values of columns `0 .. k`.
pub open spec fn distinct_total(features: Seq<Vec<i64>>, k: nat) -> int
    decreases k,
{
    if k == 0 {
        0
    } else {
        distinct_total(features, (k - 1) as nat) + column_values(features, k - 1).len()
    }
}

proof fn lemma_increasing_unique(s: Seq<i64>, t: Seq<i64>)
    requires
        strictly_increasing(s),
        strictly_increasing(t),
        forall|v: i64| s.contains(v) <==> t.contains(v),
    ensures
        s == t,
    decreases s.len(),
{
    if s.len() == 0 {
        if t.len() > 0 {
            assert(t.contains(t[0]));
        }
        assert(s =~= t);
    } else {
        assert(s.contains(s[0]));
        assert(t.len() > 0);
        assert(t.contains(t[0]));
        let i = choose|i: int| 0 <= i < t.len() && t[i] == s[0];
        let j = choose|j: int| 0 <= j < s.len() && s[j] == t[0];
        assert(s[0] == t[0]) by {
            if s[0] != t[0] {
                assert(i > 0 && j > 0);
            }
        }
        let s1 = s.subrange(1, s.len() as int);
        let t1 = t.subrange(1, t.len() as int);
        assert forall|v: i64| s1.contains(v) <==> t1.contains(v) by {
            if s1.contains(v) {
                let a = choose|a: int| 0 <= a < s1.len() && s1[a] == v;
                assert(s.contains(v) && v > s[0]);
                let b = choose|b: int| 0 <= b < t.len() && t[b] == v;
                assert(b > 0);
                assert(t1[b - 1] == v);
            }
            if t1.contains(v) {
                let a = choose|a: int| 0 <= a < t1.len() && t1[a] == v;
                assert(t.contains(v) && v > t[0]);
                let b = choose|b: int| 0 <= b < s.len() && s[b] == v;
                assert(b > 0);
                assert(s1[b - 1] == v);
            }
        }
        lemma_increasing_unique(s1, t1);
        assert(s =~= seq![s[0]] + s1);
        assert(t =~= seq![t[0]] + t1);
    }
}

/// The distinct values of column `c`, ascending.
fn column_distinct(features: &Vec<Vec<i64>>, c: usize) -> (vals: Vec<i64>)
    requires
        column_in_rows(features@, c as int),
    ensures
        vals@ == column_thresholds(features@, c as int),
        vals@.len() == column_values(features@, c as int).len(),
        features.len() > 0 ==> vals@.len() > 0,
{
    let mut vals: Vec<i64> = Vec::new();
    let mut i: usize = 0;
    while i < features.len()
        invariant
            i <= features.len(),
            column_in_rows(features@, c as int),
            strictly_increasing(vals@),
            forall|v: i64| vals@.contains(v) <==> seen_in_column(features@, c as int, i as int, v),
        decreases features.len() - i,
    {
        let row = &features[i];
        assert(row@ == features@[i as int]@);
        let x = row[c];
        let mut p: usize = 0;
        while p < vals.len() && vals[p] < x
            invariant
                p <= vals.len(),
                forall|q: int| 0 <= q < p ==> vals@[q] < x,
            decreases vals.len() - p,
        {
            p = p + 1;
        }
        let ghost old_vals = vals@;
        if p < vals.len() && vals[p] == x {
        } else {
            vals.insert(p, x);
            assert forall|a: int, b: int| 0 <= a < b < vals@.len() implies vals@[a] < vals@[b] by {
                if b < p {
                } else if b == p {
                } else if a < p {
                    assert(old_vals[a] < x);
                    assert(p < old_vals.len() ==> x < old_vals[p as int]);
                } else if a == p {
                    assert(x < old_vals[p as int]);
                } else {
                }
            }
        }
        assert forall|v: i64| vals@.contains(v) <==> seen_in_column(
            features@,
            c as int,
            i + 1,
            v,
        ) by {
            if vals@.contains(v) {
                let a = choose|a: int| 0 <= a < vals@.len() && vals@[a] == v;
                if v != x {
                    if a < p {
                        assert(old_vals[a] == v);
                    } else if vals@.len() == old_vals.len() {
                        assert(old_vals[a] == v);
                    } else {
                        assert(old_vals[a - 1] == v);
                    }
                    assert(old_vals.contains(v));
                }
            }
            if seen_in_column(features@, c as int, i + 1, v) {
                if v == x {
                    if vals@.len() == old_vals.len() {
                        assert(vals@[p as int] == v);
                    } else {
                        assert(vals@[p as int] == v);
                    }
                } else {
                    let j = choose|j: int| 0 <= j < i + 1 && #[trigger] features@[j]@[c as int] == v;
                    assert(seen_in_column(features@, c as int, i as int, v));
                    assert(old_vals.contains(v));
                    let a = choose|a: int| 0 <= a < old_vals.len() && old_vals[a] == v;
                    if vals@.len() == old_vals.len() {
                        assert(vals@[a] == v);
                    } else if a < p {
                        assert(vals@[a] == v);
                    } else {
                        assert(vals@[a + 1] == v);
                    }
                }
            }
        }
        i = i + 1;
    }
    proof {
        if features.len() > 0 {
            assert(seen_in_column(features@, c as int, i as int, features@[0]@[c as int]));
            assert(vals@.contains(features@[0]@[c as int]));
        }
        let cv = column_values(features@, c as int);
        assert(vals@.to_set() =~= cv);
        assert(strictly_increasing(vals@) && vals@.to_set() == cv);
        let t = column_thresholds(features@, c as int);
        assert(strictly_increasing(t) && t.to_set() == cv);
        assert forall|v: i64| vals@.contains(v) <==> t.contains(v) by {
            assert(vals@.to_set().contains(v) == vals@.contains(v));
            assert(t.to_set().contains(v) == t.contains(v));
        }
        lemma_increasing_unique(vals@, t);
        assert(vals@.no_duplicates());
        vals@.unique_seq_to_set();
    }
    vals
}

/// All candidates: the distinct values of each eligible column, by column and
/// then ascending; with `exclude_last_column` the last column is left out.
pub fn generate_splits(features: &Vec<Vec<i64>>, exclude_last_column: bool) -> (r: Vec<TreeSplit>)
    requires
        features.len() > 0,
        rectangular(features@, features@[0]@.len() as int),
    ensures
        r@ == candidates_upto(
            features@,
            eligible_columns(features@[0]@.len() as int, exclude_last_column) as nat,
        ),
        r@.len() == distinct_total(
            features@,
            eligible_columns(features@[0]@.len() as int, exclude_last_column) as nat,
        ),
        splits_in_rows(features@, r@),
        eligible_columns(features@[0]@.len() as int, exclude_last_column) > 0 ==> r@.len() > 0,
{
    let no_columns = features[0].len();
    let eligible = if exclude_last_column {
        if no_columns > 0 {
            no_columns - 1
        } else {
            0
        }
    } else {
        no_columns
    };
    let mut all_splits: Vec<TreeSplit> = Vec::new();
    let mut col: usize = 0;
    while col < eligible
        invariant
            features.len() > 0,
            eligible <= no_columns == features@[0]@.len(),
            rectangular(features@, no_columns as int),
            col <= eligible,
            all_splits@ == candidates_upto(features@, col as nat),
            all_splits@.len() == distinct_total(features@, col as nat),
            col > 0 ==> all_splits@.len() > 0,
            forall|k: int| 0 <= k < all_splits@.len() ==> all_splits@[k].column < col,
        decreases eligible - col,
    {
        let vals = column_distinct(features, col);
        let ghost base = all_splits@;
        let mut j: usize = 0;
        while j < vals.len()
            invariant
                col < eligible,
                all_splits@ == base + vals@.take(j as int).map_values(
                    |v: i64| TreeSplit { column: col, value: v },
                ),
                forall|k: int| 0 <= k < base.len() ==> base[k].column < col,
                j <= vals.len(),
            decreases vals.len() - j,
        {
            all_splits.push(TreeSplit { column: col, value: vals[j] });
            assert(base + vals@.take(j + 1).map_values(|v: i64| TreeSplit { column: col, value: v })
                =~= (base + vals@.take(j as int).map_values(
                |v: i64| TreeSplit { column: col, value: v },
            )).push(TreeSplit { column: col, value: vals@[j as int] }));
            j = j + 1;
        }
        assert(vals@.take(vals.len() as int) == vals@);
        assert(all_splits@ =~= candidates_upto(features@, (col + 1) as nat));
        col = col + 1;
    }
    assert forall|k: int| 0 <= k < all_splits@.len() implies column_in_rows(
        features@,
        all_splits@[k].column as int,
    ) by {
        assert forall|i: int| 0 <= i < features@.len() implies 0 <= all_splits@[k].column
            < #[trigger] features@[i]@.len() by {
            assert(features@[i]@.len() == no_columns);
        }
    }
    all_splits
}

/// The best candidate index, when one exists.
pub open spec fn best_index(
    features: Seq<Vec<i64>>,
    targets: Seq<isize>,
    filter: Option<Seq<usize>>,
    splits: Seq<TreeSplit>,
) -> int {
    choose|k: int| is_best(features, targets, filter, splits, k)
}

/// At most one candidate is the best.
pub proof fn lemma_best_unique(
    features: Seq<Vec<i64>>,
    targets: Seq<isize>,
    filter: Option<Seq<usize>>,
    splits: Seq<TreeSplit>,
    k1: int,
    k2: int,
)
    requires
        is_best(features, targets, filter, splits, k1),
        is_best(features, targets, filter, splits, k2),
    ensures
        k1 == k2,
{
}

/// The rows of a branch are below the bound they were drawn from.
pub proof fn lemma_branch_indices_bounded(
    features: Seq<Vec<i64>>,
    filter: Option<Seq<usize>>,
    split: TreeSplit,
    side: bool,
    k: nat,
)
    ensures
        forall|j: int|
            0 <= j < branch_indices(features, filter, split, side, k).len() ==> #[trigger] branch_indices(
                features,
                filter,
                split,
                side,
                k,
            )[j] < k,
    decreases k,
{
    if k > 0 {
        lemma_branch_indices_bounded(features, filter, split, side, (k - 1) as nat);
        let prev = branch_indices(features, filter, split, side, (k - 1) as nat);
        let cur = branch_indices(features, filter, split, side, k);
        assert forall|j: int| 0 <= j < cur.len() implies #[trigger] cur[j] < k by {
            if j < prev.len() {
                assert(cur[j] == prev[j]);
            }
        }
    }
}

/// The node payload for an evaluated split: a leaf when the split is pure or
/// `stop` holds, else a branch.
pub fn create_node_data(split: &SplitResult, stop: bool) -> (r: NodeData)
    ensures
        r.column == split.column,
        r.value == split.value,
        r.loss == split.loss,
        r.majority_class == split.majority_class,
        r.node_type == (if split.loss.num == 0 || stop {
            NodeType::Leaf
        } else {
            NodeType::Branch
        }),
{
    let node_type = if split.loss.is_zero() || stop {
        NodeType::Leaf
    } else {
        NodeType::Branch
    };
    NodeData {
        node_type,
        column: split.column,
        value: split.value,
        loss: split.loss,
        majority_class: split.majority_class,
    }
}

} // verus!
