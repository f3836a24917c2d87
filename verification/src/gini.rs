//! Gini impurity of a class distribution over a labeled slice.
//!
//! The impurity of a slice `s` under candidate classes `C` is
//! `sum_{c in C} p_c * (1 - p_c)` with `p_c` the fraction of `s` labeled `c`.
//! Over a slice of length `n` that value is the exact rational
//! `gini_num / n^2` with `gini_num = sum_c count_c * (n - count_c)`, so the
//! evaluator returns an exact numerator/denominator pair instead of an
//! approximation.

use vstd::prelude::*;

use crate::data::{lview, labels_in, Class, DataPoint, MAX_TRAIN_POINTS};

verus! {

/// How many elements of `s` are labeled `c`.
pub open spec fn ccount(s: Seq<(Seq<i64>, Class)>, c: Class) -> int
    decreases s.len(),
{
    if s.len() == 0 {
        0
    } else {
        ccount(s.drop_last(), c) + if s.last().1 == c {
            1int
        } else {
            0int
        }
    }
}

/// How often `c` occurs in a list of classes.
pub open spec fn kcount(classes: Seq<Class>, c: Class) -> int
    decreases classes.len(),
{
    if classes.len() == 0 {
        0
    } else {
        kcount(classes.drop_last(), c) + if classes.last() == c {
            1int
        } else {
            0int
        }
    }
}

/// Sum over `classes` of the label counts in `s`.
pub open spec fn csum(classes: Seq<Class>, s: Seq<(Seq<i64>, Class)>) -> int
    decreases classes.len(),
{
    if classes.len() == 0 {
        0
    } else {
        csum(classes.drop_last(), s) + ccount(s, classes.last())
    }
}

/// Sum over `classes` of the squared label counts in `s`.
pub open spec fn cssq(classes: Seq<Class>, s: Seq<(Seq<i64>, Class)>) -> int
    decreases classes.len(),
{
    if classes.len() == 0 {
        0
    } else {
        cssq(classes.drop_last(), s) + ccount(s, classes.last()) * ccount(s, classes.last())
    }
}

/// Numerator of the Gini impurity of `s` over denominator `s.len() * s.len()`:
/// `sum_c count_c * (|s| - count_c)`.
pub open spec fn gini_num(classes: Seq<Class>, s: Seq<(Seq<i64>, Class)>) -> int
    decreases classes.len(),
{
    if classes.len() == 0 {
        0
    } else {
        gini_num(classes.drop_last(), s) + ccount(s, classes.last()) * (s.len()
            - ccount(s, classes.last()))
    }
}

/// All elements of `s` carry one and the same label.
pub open spec fn single_class(s: Seq<(Seq<i64>, Class)>) -> bool {
    forall|i: int, j: int| 0 <= i < s.len() && 0 <= j < s.len() ==> s[i].1 == s[j].1
}

/// The exact Gini impurity `num / den` of a slice; `den` is the squared
/// slice length, so the value always lies in `[0, 1)`.
#[derive(Clone, Copy, PartialEq, Eq, Debug, Structural)]
pub struct Impurity {
    pub num: u64,
    pub den: u64,
}

pub proof fn lemma_ccount_bounds(s: Seq<(Seq<i64>, Class)>, c: Class)
    ensures
        0 <= ccount(s, c) <= s.len(),
    decreases s.len(),
{
    if s.len() > 0 {
        lemma_ccount_bounds(s.drop_last(), c);
    }
}

/// An element labeled `c` makes the count positive.
pub proof fn lemma_ccount_at(s: Seq<(Seq<i64>, Class)>, c: Class, i: int)
    requires
        0 <= i < s.len(),
        s[i].1 == c,
    ensures
        ccount(s, c) >= 1,
    decreases s.len(),
{
    if i == s.len() - 1 {
        lemma_ccount_bounds(s.drop_last(), c);
    } else {
        lemma_ccount_at(s.drop_last(), c, i);
    }
}

/// An element labeled other than `c` keeps the count below the length.
pub proof fn lemma_ccount_missing(s: Seq<(Seq<i64>, Class)>, c: Class, i: int)
    requires
        0 <= i < s.len(),
        s[i].1 != c,
    ensures
        ccount(s, c) <= s.len() - 1,
    decreases s.len(),
{
    if i == s.len() - 1 {
        lemma_ccount_bounds(s.drop_last(), c);
    } else {
        lemma_ccount_missing(s.drop_last(), c, i);
    }
}

/// A positive count names a witness position.
pub proof fn lemma_ccount_pos_witness(s: Seq<(Seq<i64>, Class)>, c: Class)
    requires
        ccount(s, c) >= 1,
    ensures
        exists|i: int| 0 <= i < s.len() && s[i].1 == c,
    decreases s.len(),
{
    if s.len() > 0 {
        if s.last().1 == c {
            assert(s[s.len() - 1].1 == c);
        } else {
            lemma_ccount_pos_witness(s.drop_last(), c);
            let i = choose|i: int| 0 <= i < s.drop_last().len() && s.drop_last()[i].1 == c;
            assert(s[i].1 == c);
        }
    }
}

pub proof fn lemma_kcount_nonneg(classes: Seq<Class>, c: Class)
    ensures
        0 <= kcount(classes, c),
    decreases classes.len(),
{
    if classes.len() > 0 {
        lemma_kcount_nonneg(classes.drop_last(), c);
    }
}

/// In a duplicate-free list every class occurs at most once, and a contained
/// class exactly once.
pub proof fn lemma_kcount_no_dup(classes: Seq<Class>, c: Class)
    requires
        classes.no_duplicates(),
    ensures
        kcount(classes, c) == if classes.contains(c) {
            1int
        } else {
            0int
        },
    decreases classes.len(),
{
    if classes.len() > 0 {
        let head = classes.drop_last();
        assert(head.no_duplicates());
        lemma_kcount_no_dup(head, c);
        if classes.last() == c {
            assert(!head.contains(c)) by {
                if head.contains(c) {
                    let i = choose|i: int| 0 <= i < head.len() && head[i] == c;
                    assert(classes[i] == classes[classes.len() - 1]);
                }
            }
            assert(classes.contains(c)) by {
                assert(classes[classes.len() - 1] == c);
            }
        } else {
            assert(classes.contains(c) <==> head.contains(c)) by {
                if classes.contains(c) {
                    let i = choose|i: int| 0 <= i < classes.len() && classes[i] == c;
                    assert(head[i] == c);
                }
                if head.contains(c) {
                    let i = choose|i: int| 0 <= i < head.len() && head[i] == c;
                    assert(classes[i] == c);
                }
            }
        }
    }
}

/// Appending one element to the slice raises the summed counts by the number
/// of times its label occurs in `classes`.
pub proof fn lemma_csum_push(classes: Seq<Class>, s: Seq<(Seq<i64>, Class)>, e: (Seq<i64>, Class))
    ensures
        csum(classes, s.push(e)) == csum(classes, s) + kcount(classes, e.1),
    decreases classes.len(),
{
    if classes.len() > 0 {
        lemma_csum_push(classes.drop_last(), s, e);
        assert(s.push(e).drop_last() =~= s);
        assert(s.push(e).last() == e);
    }
}

/// Over duplicate-free classes the counts sum to at most the slice length,
/// and to exactly the slice length when every label is listed.
pub proof fn lemma_csum_len(classes: Seq<Class>, s: Seq<(Seq<i64>, Class)>)
    requires
        classes.no_duplicates(),
    ensures
        0 <= csum(classes, s) <= s.len(),
        labels_in(s, classes) ==> csum(classes, s) == s.len(),
    decreases s.len(),
{
    if s.len() == 0 {
        assert(s =~= Seq::<(Seq<i64>, Class)>::empty());
        lemma_csum_empty(classes);
    } else {
        let head = s.drop_last();
        assert(labels_in(s, classes) ==> labels_in(head, classes)) by {
            if labels_in(s, classes) {
                assert forall|i: int| 0 <= i < head.len() implies classes.contains(
                    #[trigger] head[i].1,
                ) by {
                    assert(head[i] == s[i]);
                }
            }
        }
        lemma_csum_len(classes, head);
        lemma_csum_push(classes, head, s.last());
        assert(head.push(s.last()) =~= s);
        lemma_kcount_no_dup(classes, s.last().1);
        lemma_kcount_nonneg(classes, s.last().1);
        if labels_in(s, classes) {
            assert(classes.contains(s.last().1)) by {
                assert(s[s.len() - 1] == s.last());
            }
        }
    }
}

pub proof fn lemma_csum_empty(classes: Seq<Class>)
    ensures
        csum(classes, Seq::<(Seq<i64>, Class)>::empty()) == 0,
    decreases classes.len(),
{
    if classes.len() > 0 {
        lemma_csum_empty(classes.drop_last());
    }
}

pub proof fn lemma_cssq_nonneg(classes: Seq<Class>, s: Seq<(Seq<i64>, Class)>)
    ensures
        0 <= cssq(classes, s),
    decreases classes.len(),
{
    if classes.len() > 0 {
        lemma_cssq_nonneg(classes.drop_last(), s);
        let c = ccount(s, classes.last());
        lemma_ccount_bounds(s, classes.last());
        assert(c * c >= 0) by (nonlinear_arith)
            requires
                c >= 0,
        ;
    }
}

/// The impurity numerator rewritten through the summed counts:
/// `gini_num = |s| * csum - cssq`.
pub proof fn lemma_gini_num_form(classes: Seq<Class>, s: Seq<(Seq<i64>, Class)>)
    ensures
        gini_num(classes, s) == s.len() * csum(classes, s) - cssq(classes, s),
    decreases classes.len(),
{
    if classes.len() == 0 {
        assert(s.len() * 0 == 0) by (nonlinear_arith);
    } else {
        lemma_gini_num_form(classes.drop_last(), s);
        let n = s.len() as int;
        let c = ccount(s, classes.last());
        assert(c * (n - c) == n * c - c * c) by (nonlinear_arith);
        assert(n * (csum(classes.drop_last(), s) + c) == n * csum(classes.drop_last(), s) + n
            * c) by (nonlinear_arith);
    }
}

pub proof fn lemma_gini_num_nonneg(classes: Seq<Class>, s: Seq<(Seq<i64>, Class)>)
    ensures
        0 <= gini_num(classes, s),
    decreases classes.len(),
{
    if classes.len() > 0 {
        lemma_gini_num_nonneg(classes.drop_last(), s);
        let n = s.len() as int;
        let c = ccount(s, classes.last());
        lemma_ccount_bounds(s, classes.last());
        assert(c * (n - c) >= 0) by (nonlinear_arith)
            requires
                0 <= c <= n,
        ;
    }
}

/// Each single term is bounded by the whole sum.
pub proof fn lemma_gini_num_term(classes: Seq<Class>, s: Seq<(Seq<i64>, Class)>, c: Class)
    requires
        classes.contains(c),
    ensures
        gini_num(classes, s) >= ccount(s, c) * (s.len() - ccount(s, c)),
    decreases classes.len(),
{
    let head = classes.drop_last();
    let n = s.len() as int;
    let cnt = ccount(s, classes.last());
    lemma_ccount_bounds(s, classes.last());
    assert(cnt * (n - cnt) >= 0) by (nonlinear_arith)
        requires
            0 <= cnt <= n,
    ;
    if classes.last() == c {
        lemma_gini_num_nonneg(head, s);
    } else {
        assert(head.contains(c)) by {
            let i = choose|i: int| 0 <= i < classes.len() && classes[i] == c;
            assert(head[i] == c);
        }
        lemma_gini_num_term(head, s, c);
    }
}

/// Cauchy-Schwarz for the counts: `k * cssq >= csum * csum`.
pub proof fn lemma_cssq_lower(classes: Seq<Class>, s: Seq<(Seq<i64>, Class)>)
    ensures
        classes.len() * cssq(classes, s) >= csum(classes, s) * csum(classes, s),
    decreases classes.len(),
{
    if classes.len() == 0 {
    } else {
        let head = classes.drop_last();
        lemma_cssq_lower(head, s);
        let k = head.len() as int;
        let s1 = csum(head, s);
        let s2 = cssq(head, s);
        let x = ccount(s, classes.last());
        lemma_csum_sq_nonneg(head, s);
        lemma_cssq_nonneg(head, s);
        lemma_cs_step(k, s1, s2, x);
    }
}

/// One induction step of Cauchy-Schwarz over the counts.
pub proof fn lemma_cs_step(k: int, s1: int, s2: int, x: int)
    requires
        k >= 0,
        s2 >= 0,
        k * s2 >= s1 * s1,
    ensures
        (k + 1) * (s2 + x * x) >= (s1 + x) * (s1 + x),
{
    if k == 0 {
        assert(s1 * s1 <= 0);
        assert(s1 == 0) by (nonlinear_arith)
            requires
                s1 * s1 <= 0,
        ;
        assert((0 + 1) * (s2 + x * x) >= (0 + x) * (0 + x)) by (nonlinear_arith)
            requires
                s2 >= 0,
        ;
    } else {
        assert((s1 - k * x) * (s1 - k * x) >= 0) by (nonlinear_arith);
        assert(k * (s2 + k * (x * x)) >= s1 * s1 + (k * x) * (k * x)) by (nonlinear_arith)
            requires
                k * s2 >= s1 * s1,
        ;
        assert(s1 * s1 + (k * x) * (k * x) >= 2 * s1 * (k * x)) by (nonlinear_arith);
        assert(s2 + k * (x * x) >= 2 * s1 * x) by (nonlinear_arith)
            requires
                k > 0,
                k * (s2 + k * (x * x)) >= 2 * s1 * (k * x),
        ;
        assert((k + 1) * (s2 + x * x) >= (s1 + x) * (s1 + x)) by (nonlinear_arith)
            requires
                k * s2 >= s1 * s1,
                s2 + k * (x * x) >= 2 * s1 * x,
        ;
    }
}

pub proof fn lemma_csum_sq_nonneg(classes: Seq<Class>, s: Seq<(Seq<i64>, Class)>)
    ensures
        csum(classes, s) * csum(classes, s) >= 0,
{
    let v = csum(classes, s);
    assert(v * v >= 0) by (nonlinear_arith);
}

/// The summed squares never exceed the square of the sum.
pub proof fn lemma_cssq_le_csum_sq(classes: Seq<Class>, s: Seq<(Seq<i64>, Class)>)
    requires
        classes.no_duplicates(),
    ensures
        cssq(classes, s) <= csum(classes, s) * csum(classes, s),
    decreases classes.len(),
{
    if classes.len() > 0 {
        let head = classes.drop_last();
        assert(head.no_duplicates());
        lemma_cssq_le_csum_sq(head, s);
        let s1 = csum(head, s);
        let x = ccount(s, classes.last());
        lemma_csum_len(head, s);
        lemma_ccount_bounds(s, classes.last());
        assert(s1 * s1 + x * x <= (s1 + x) * (s1 + x)) by (nonlinear_arith)
            requires
                s1 >= 0,
                x >= 0,
        ;
    }
}

/// On a single-class slice every impurity term vanishes.
pub proof fn lemma_gini_num_single(classes: Seq<Class>, s: Seq<(Seq<i64>, Class)>)
    requires
        single_class(s),
    ensures
        gini_num(classes, s) == 0,
    decreases classes.len(),
{
    if classes.len() > 0 {
        lemma_gini_num_single(classes.drop_last(), s);
        let c = classes.last();
        let n = s.len() as int;
        let cnt = ccount(s, c);
        lemma_ccount_bounds(s, c);
        if s.len() == 0 {
        } else if s[0].1 == c {
            assert(cnt == n) by {
                lemma_ccount_single_full(s, c);
            }
        } else {
            assert(cnt == 0) by {
                lemma_ccount_single_zero(s, c);
            }
        }
        assert(cnt * (n - cnt) == 0) by (nonlinear_arith)
            requires
                cnt == 0 || cnt == n,
        ;
    }
}

pub proof fn lemma_ccount_single_full(s: Seq<(Seq<i64>, Class)>, c: Class)
    requires
        single_class(s),
        s.len() > 0,
        s[0].1 == c,
    ensures
        ccount(s, c) == s.len(),
    decreases s.len(),
{
    if s.len() > 1 {
        let head = s.drop_last();
        assert(single_class(head)) by {
            assert(forall|i: int, j: int|
                0 <= i < head.len() && 0 <= j < head.len() ==> head[i] == s[i] && head[j] == s[j]);
        }
        lemma_ccount_single_full(head, c);
    } else {
        assert(s.drop_last().len() == 0);
        assert(ccount(s.drop_last(), c) == 0);
    }
    assert(s.last().1 == c) by {
        assert(s[s.len() - 1].1 == s[0].1);
    }
}

pub proof fn lemma_ccount_single_zero(s: Seq<(Seq<i64>, Class)>, c: Class)
    requires
        single_class(s),
        s.len() > 0,
        s[0].1 != c,
    ensures
        ccount(s, c) == 0,
    decreases s.len(),
{
    if s.len() > 1 {
        let head = s.drop_last();
        assert(single_class(head)) by {
            assert(forall|i: int, j: int|
                0 <= i < head.len() && 0 <= j < head.len() ==> head[i] == s[i] && head[j] == s[j]);
        }
        lemma_ccount_single_zero(head, c);
    } else {
        assert(s.drop_last().len() == 0);
        assert(ccount(s.drop_last(), c) == 0);
    }
    assert(s.last().1 != c) by {
        assert(s[s.len() - 1].1 == s[0].1);
    }
}

/// For any non-empty class set and non-empty slice whose labels come from it,
/// the impurity `gini_num / |s|^2` lies in `[0, 1 - 1/k]` for `k` classes,
/// and is exactly `0` if and only if the slice is single-class.
pub proof fn lemma_impurity_range(classes: Seq<Class>, s: Seq<(Seq<i64>, Class)>)
    requires
        s.len() >= 1,
        classes.no_duplicates(),
        labels_in(s, classes),
    ensures
        classes.len() >= 1,
        0 <= gini_num(classes, s),
        gini_num(classes, s) * classes.len() <= (classes.len() - 1) * (s.len() * s.len()),
        gini_num(classes, s) == 0 <==> single_class(s),
    decreases classes.len(),
{
    let n = s.len() as int;
    let k = classes.len() as int;
    assert(classes.contains(s[0].1));
    assert(k >= 1);
    lemma_gini_num_nonneg(classes, s);
    // upper bound: k * gini_num = k*n*csum - k*cssq <= k*n^2 - csum^2 = (k-1)*n^2
    lemma_gini_num_form(classes, s);
    lemma_csum_len(classes, s);
    lemma_cssq_lower(classes, s);
    assert(gini_num(classes, s) * k <= (k - 1) * (n * n)) by (nonlinear_arith)
        requires
            gini_num(classes, s) == n * csum(classes, s) - cssq(classes, s),
            csum(classes, s) == n,
            k * cssq(classes, s) >= csum(classes, s) * csum(classes, s),
            k >= 1,
            n >= 1,
    ;
    // zero exactly on single-class slices
    if single_class(s) {
        lemma_gini_num_single(classes, s);
    }
    if gini_num(classes, s) == 0 {
        assert forall|i: int, j: int|
            0 <= i < s.len() && 0 <= j < s.len() implies s[i].1 == s[j].1 by {
            if s[i].1 != s[j].1 {
                let c = s[i].1;
                assert(classes.contains(c));
                lemma_gini_num_term(classes, s, c);
                lemma_ccount_at(s, c, i);
                lemma_ccount_missing(s, c, j);
                let cnt = ccount(s, c);
                assert(cnt * (n - cnt) >= 1) by (nonlinear_arith)
                    requires
                        1 <= cnt <= n - 1,
                ;
            }
        }
    }
}

/// Occurrences of `c` among the labels of `data`.
pub fn count_class(data: &Vec<(DataPoint, Class)>, c: Class) -> (n: usize)
    ensures
        n == ccount(lview(data@), c),
{
    let mut n: usize = 0;
    let mut i: usize = 0;
    while i < data.len()
        invariant
            i <= data.len(),
            n <= i,
            n == ccount(lview(data@.subrange(0, i as int)), c),
        decreases data.len() - i,
    {
        let ghost pre = lview(data@.subrange(0, i as int));
        let ghost post = lview(data@.subrange(0, i as int + 1));
        proof {
            assert(data@.subrange(0, i as int + 1).drop_last() =~= data@.subrange(0, i as int));
            assert(post.drop_last() =~= pre);
            assert(post.last() == (data@[i as int].0@, data@[i as int].1));
        }
        if data[i].1 == c {
            n = n + 1;
        }
        i = i + 1;
    }
    proof {
        assert(data@.subrange(0, data@.len() as int) =~= data@);
    }
    n
}

/// Gini impurity of a non-empty labeled slice over the candidate classes,
/// as the exact rational `gini_num / len^2`.
pub fn gini_loss(classes: &Vec<Class>, data: &Vec<(DataPoint, Class)>) -> (r: Impurity)
    requires
        data@.len() >= 1,
        data@.len() <= MAX_TRAIN_POINTS,
        classes@.no_duplicates(),
    ensures
        r.num == gini_num(classes@, lview(data@)),
        r.den == lview(data@).len() * lview(data@).len(),
        r.den >= 1,
{
    let ghost s = lview(data@);
    let n = data.len();
    let mut num: u64 = 0;
    let mut i: usize = 0;
    while i < classes.len()
        invariant
            i <= classes.len(),
            n == data@.len(),
            1 <= n <= MAX_TRAIN_POINTS,
            s == lview(data@),
            classes@.no_duplicates(),
            num == gini_num(classes@.subrange(0, i as int), s),
            num <= (n as int) * (n as int),
        decreases classes.len() - i,
    {
        let ghost pre = classes@.subrange(0, i as int);
        let ghost post = classes@.subrange(0, i as int + 1);
        proof {
            assert(post.drop_last() =~= pre);
            assert(post.last() == classes@[i as int]);
            assert(post.no_duplicates()) by {
                assert(forall|a: int, b: int|
                    0 <= a < post.len() && 0 <= b < post.len() && a != b ==> post[a] != post[b])
                    by {
                    assert(forall|a: int| 0 <= a < post.len() ==> post[a] == classes@[a]);
                }
            }
        }
        let cnt = count_class(data, classes[i]);
        proof {
            lemma_ccount_bounds(s, classes@[i as int]);
            lemma_gini_num_form(post, s);
            lemma_gini_num_nonneg(post, s);
            lemma_cssq_nonneg(post, s);
            lemma_csum_len(post, s);
            assert(gini_num(post, s) <= (n as int) * (n as int)) by (nonlinear_arith)
                requires
                    gini_num(post, s) == (s.len() as int) * csum(post, s) - cssq(post, s),
                    cssq(post, s) >= 0,
                    0 <= csum(post, s) <= s.len(),
                    s.len() == n as int,
            ;
        }
        proof {
            assert(cnt as int * ((n - cnt) as int) <= (n as int) * (n as int)) by (nonlinear_arith)
                requires
                    0 <= cnt as int <= n as int,
            ;
            assert((n as int) * (n as int) <= 0x1000_0000_0000_0000) by (nonlinear_arith)
                requires
                    0 <= n as int <= MAX_TRAIN_POINTS as int,
            ;
        }
        let term = (cnt as u64) * ((n - cnt) as u64);
        num = num + term;
        i = i + 1;
    }
    proof {
        assert(classes@.subrange(0, classes@.len() as int) =~= classes@);
    }
    proof {
        assert(1 <= (n as int) * (n as int) <= 0x1000_0000_0000_0000) by (nonlinear_arith)
            requires
                1 <= n as int <= MAX_TRAIN_POINTS as int,
        ;
    }
    let den = (n as u64) * (n as u64);
    Impurity { num, den }
}

} // verus!
