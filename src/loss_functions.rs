use vstd::prelude::*;

verus! {

/// Largest number of training rows: every impurity is an exact fraction whose
/// numerator and denominator stay below 2^63, so two of them can be compared by
/// cross-multiplication in 128 bits.
pub const MAX_ROWS: usize = 0x20_0000;

/// Bound on the denominator of a well-formed `Ratio`.
pub const MAX_DEN: u128 = 0x8000_0000_0000_0000;

/// The impurity measure used to score a split.
#[derive(Clone, Copy, Debug, PartialEq, Eq, Structural)]
pub enum LossFunction {
    Gini,
}

/// An exact non-negative fraction `num / den`.
#[derive(Clone, Copy, Debug, PartialEq, Eq, Structural)]
pub struct Ratio {
    pub num: u128,
    pub den: u128,
}

impl Ratio {
    /// The fraction as a pair of integers.
    pub open spec fn value(self) -> (int, int) {
        (self.num as int, self.den as int)
    }

    /// A fraction in `[0, 1]` whose terms can be cross-multiplied without overflow.
    pub open spec fn wf(self) -> bool {
        0 < self.den <= MAX_DEN && self.num <= self.den
    }

    /// Returns whether `self` is strictly smaller than `other`.
    pub fn less_than(&self, other: &Ratio) -> (r: bool)
        requires
            self.wf(),
            other.wf(),
        ensures
            r == ratio_lt(self.value(), other.value()),
    {
        proof {
            lemma_mul_bound(self.num as int, other.den as int, MAX_DEN as int);
            lemma_mul_bound(other.num as int, self.den as int, MAX_DEN as int);
        }
        self.num * other.den < other.num * self.den
    }

    /// Returns whether the fraction is exactly zero.
    pub fn is_zero(&self) -> (r: bool)
        ensures
            r == (self.num == 0),
    {
        self.num == 0
    }
}

/// `a < b` for fractions given as (numerator, positive denominator).
pub open spec fn ratio_lt(a: (int, int), b: (int, int)) -> bool {
    a.0 * b.1 < b.0 * a.1
}

proof fn lemma_mul_bound(a: int, b: int, m: int)
    requires
        0 <= a <= m,
        0 <= b <= m,
    ensures
        0 <= a * b <= m * m,
{
    assert(0 <= a * b <= m * m) by (nonlinear_arith)
        requires
            0 <= a <= m,
            0 <= b <= m,
    ;
}

/// Number of occurrences of `x` in `s`.
pub open spec fn count_of(s: Seq<isize>, x: isize) -> nat
    decreases s.len(),
{
    if s.len() == 0 {
        0
    } else {
        count_of(s.drop_last(), x) + if s.last() == x { 1nat } else { 0nat }
    }
}

/// Sum over the elements of `t` of their number of occurrences in `s`.
pub open spec fn agreements(s: Seq<isize>, t: Seq<isize>) -> nat
    decreases t.len(),
{
    if t.len() == 0 {
        0
    } else {
        agreements(s, t.drop_last()) + count_of(s, t.last())
    }
}

/// Number of ordered pairs `(i, j)` with `s[i] == s[j]`, which is the sum over
/// the classes of the squared class counts.
pub open spec fn equal_pairs(s: Seq<isize>) -> nat {
    agreements(s, s)
}

/// Gini impurity `1 - sum_c p_c^2` of a label sequence as a fraction over `n^2`;
/// the empty sequence has impurity one.
pub open spec fn gini_spec(s: Seq<isize>) -> (int, int) {
    let n = s.len() as int;
    if n == 0 {
        (1, 1)
    } else {
        (n * n - equal_pairs(s), n * n)
    }
}

/// Size-weighted Gini impurity of two branches: `n1/n * gini(s1) + n2/n * gini(s2)`.
/// A branch of weight zero contributes nothing; with no rows at all it is one.
pub open spec fn weighted_gini_spec(s1: Seq<isize>, s2: Seq<isize>) -> (int, int) {
    let n1 = s1.len() as int;
    let n2 = s2.len() as int;
    let n = n1 + n2;
    if n1 == 0 {
        gini_spec(s2)
    } else if n2 == 0 {
        gini_spec(s1)
    } else {
        (n * n1 * n2 - equal_pairs(s1) * n2 - equal_pairs(s2) * n1, n * n1 * n2)
    }
}

/// Whether a fraction is exactly zero.
pub open spec fn is_zero_value(v: (int, int)) -> bool {
    v.0 == 0
}

/// Whether a fraction is exactly one.
pub open spec fn is_one_value(v: (int, int)) -> bool {
    v.0 == v.1
}

proof fn lemma_count_le(s: Seq<isize>, x: isize)
    ensures
        count_of(s, x) <= s.len(),
    decreases s.len(),
{
    if s.len() > 0 {
        lemma_count_le(s.drop_last(), x);
    }
}

proof fn lemma_count_all(s: Seq<isize>, x: isize)
    requires
        forall|i: int| 0 <= i < s.len() ==> s[i] == x,
    ensures
        count_of(s, x) == s.len(),
    decreases s.len(),
{
    if s.len() > 0 {
        lemma_count_all(s.drop_last(), x);
    }
}

proof fn lemma_agreements_le(s: Seq<isize>, t: Seq<isize>)
    ensures
        agreements(s, t) <= t.len() * s.len(),
    decreases t.len(),
{
    if t.len() > 0 {
        lemma_agreements_le(s, t.drop_last());
        lemma_count_le(s, t.last());
        assert((t.len() - 1) * s.len() + s.len() == t.len() * s.len()) by (nonlinear_arith);
    }
}

proof fn lemma_agreements_all(s: Seq<isize>, t: Seq<isize>, x: isize)
    requires
        forall|i: int| 0 <= i < s.len() ==> s[i] == x,
        forall|i: int| 0 <= i < t.len() ==> t[i] == x,
    ensures
        agreements(s, t) == t.len() * s.len(),
    decreases t.len(),
{
    if t.len() > 0 {
        lemma_agreements_all(s, t.drop_last(), x);
        lemma_count_all(s, x);
        assert((t.len() - 1) * s.len() + s.len() == t.len() * s.len()) by (nonlinear_arith);
    }
}

/// The impurity of the empty label sequence is exactly one.
pub proof fn lemma_gini_empty()
    ensures
        is_one_value(gini_spec(Seq::<isize>::empty())),
{
}

/// The impurity of a non-empty sequence of one repeated class is exactly zero.
pub proof fn lemma_gini_single_class(s: Seq<isize>, x: isize)
    requires
        s.len() > 0,
        forall|i: int| 0 <= i < s.len() ==> s[i] == x,
    ensures
        is_zero_value(gini_spec(s)),
{
    lemma_agreements_all(s, s, x);
}

/// Counts the occurrences of `x` in `labels`.
pub(crate) fn count_label(labels: &Vec<isize>, x: isize) -> (c: usize)
    ensures
        c == count_of(labels@, x),
{
    let mut c: usize = 0;
    let mut j: usize = 0;
    while j < labels.len()
        invariant
            j <= labels.len(),
            c == count_of(labels@.take(j as int), x),
            c <= j,
        decreases labels.len() - j,
    {
        assert(labels@.take(j + 1).drop_last() == labels@.take(j as int));
        if labels[j] == x {
            c = c + 1;
        }
        j = j + 1;
    }
    assert(labels@.take(j as int) == labels@);
    c
}

/// Number of ordered pairs of equal labels.
fn count_equal_pairs(labels: &Vec<isize>) -> (p: u128)
    requires
        labels.len() <= MAX_ROWS,
    ensures
        p == equal_pairs(labels@),
        p <= labels.len() * labels.len(),
{
    let n = labels.len();
    let mut p: u128 = 0;
    let mut i: usize = 0;
    while i < n
        invariant
            n == labels.len() <= MAX_ROWS,
            i <= n,
            p == agreements(labels@, labels@.take(i as int)),
            p <= i * n,
        decreases n - i,
    {
        let c = count_label(labels, labels[i]);
        proof {
            lemma_count_le(labels@, labels[i as int]);
            assert(labels@.take(i + 1).drop_last() == labels@.take(i as int));
            assert(labels@.take(i + 1).last() == labels@[i as int]);
            assert(i * n + n == (i + 1) * n) by (nonlinear_arith);
            assert((i + 1) * n <= n * n) by (nonlinear_arith)
                requires
                    i < n,
            ;
            assert(n * n <= MAX_ROWS * MAX_ROWS) by (nonlinear_arith)
                requires
                    n <= MAX_ROWS,
            ;
        }
        p = p + c as u128;
        i = i + 1;
    }
    assert(labels@.take(n as int) == labels@);
    p
}

/// Gini impurity of a label sequence; `1` for the empty sequence.
pub fn gini_impurity(data: &Vec<isize>) -> (r: Ratio)
    requires
        data.len() <= MAX_ROWS,
    ensures
        r.value() == gini_spec(data@),
        r.wf(),
{
    let n = data.len() as u128;
    if n == 0 {
        return Ratio { num: 1, den: 1 };
    }
    let p = count_equal_pairs(data);
    proof {
        assert(n * n <= MAX_ROWS * MAX_ROWS) by (nonlinear_arith)
            requires
                n <= MAX_ROWS,
        ;
        assert(0 < n * n) by (nonlinear_arith)
            requires
                n > 0,
        ;
    }
    Ratio { num: n * n - p, den: n * n }
}

/// Size-weighted Gini impurity of the two branches of a split.
pub fn weighted_gini_impurity(node_1_targets: &Vec<isize>, node_2_targets: &Vec<isize>) -> (r: Ratio)
    requires
        node_1_targets.len() + node_2_targets.len() <= MAX_ROWS,
    ensures
        r.value() == weighted_gini_spec(node_1_targets@, node_2_targets@),
        r.wf(),
{
    let n1 = node_1_targets.len() as u128;
    let n2 = node_2_targets.len() as u128;
    if n1 == 0 {
        return gini_impurity(node_2_targets);
    }
    if n2 == 0 {
        return gini_impurity(node_1_targets);
    }
    let n = n1 + n2;
    let p1 = count_equal_pairs(node_1_targets);
    let p2 = count_equal_pairs(node_2_targets);
    proof {
        lemma_weighted_bounds(n1 as int, n2 as int, p1 as int, p2 as int);
    }
    let den = n * n1 * n2;
    Ratio { num: den - p1 * n2 - p2 * n1, den }
}

proof fn lemma_weighted_bounds(n1: int, n2: int, p1: int, p2: int)
    requires
        0 < n1,
        0 < n2,
        n1 + n2 <= MAX_ROWS,
        0 <= p1 <= n1 * n1,
        0 <= p2 <= n2 * n2,
    ensures
        0 < (n1 + n2) * n1 <= (n1 + n2) * n1 * n2,
        0 < (n1 + n2) * n1 * n2 <= MAX_DEN,
        0 <= p1 * n2 <= n1 * n1 * n2,
        0 <= p2 * n1 <= n2 * n2 * n1,
        p1 * n2 + p2 * n1 <= (n1 + n2) * n1 * n2,
{
    let n = n1 + n2;
    assert(0 < n * n1 <= n * n1 * n2) by (nonlinear_arith)
        requires
            0 < n1,
            0 < n2,
            0 < n,
    ;
    assert(0 < n * n1 * n2 <= n * n * n) by (nonlinear_arith)
        requires
            0 < n1 <= n,
            0 < n2 <= n,
    ;
    assert(n * n * n <= MAX_ROWS * MAX_ROWS * MAX_ROWS) by (nonlinear_arith)
        requires
            0 < n <= MAX_ROWS,
    ;
    assert(0 <= p1 * n2 <= n1 * n1 * n2) by (nonlinear_arith)
        requires
            0 < n2,
            0 <= p1 <= n1 * n1,
    ;
    assert(0 <= p2 * n1 <= n2 * n2 * n1) by (nonlinear_arith)
        requires
            0 < n1,
            0 <= p2 <= n2 * n2,
    ;
    assert(n1 * n1 * n2 + n2 * n2 * n1 == n * n1 * n2) by (nonlinear_arith)
        requires
            n == n1 + n2,
    ;
}

} // verus!
