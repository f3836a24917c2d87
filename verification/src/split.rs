//! The split finder: exhaustive search over axis/threshold combinations for
//! the binary split of a labeled slice that minimizes size-weighted child
//! impurity.
//!
//! For each candidate axis the value range `[lo, hi]` is divided into a fixed
//! number of equal steps; every interior grid threshold that leaves neither
//! side empty is a candidate.  Candidates are scored by
//! `(|l|/n) * gini(l) + (|r|/n) * gini(r)`, compared exactly by
//! cross-multiplication, and the first-seen minimum wins ties, so the result
//! is fully deterministic.

use vstd::prelude::*;

use vstd::arithmetic::div_mod::{
    lemma_div_nonincreasing, lemma_fundamental_div_mod, lemma_mod_multiples_basic,
};

use crate::data::{
    axis_in_range, features_bounded, labels_in, lemma_part_elems, lemma_part_len, lview, part,
    point_bounded, Axis, Class, Criterion, DataPoint, FEATURE_LIMIT, MAX_TRAIN_POINTS,
};
use crate::gini::{
    ccount, csum, cssq, gini_num, lemma_ccount_bounds, lemma_csum_len, lemma_cssq_le_csum_sq,
    lemma_cssq_nonneg, lemma_gini_num_form, count_class,
};

verus! {

/// Smallest feature value of `s` along axis `a`.
pub open spec fn lo_of(s: Seq<(Seq<i64>, Class)>, a: int) -> int
    decreases s.len(),
{
    if s.len() <= 1 {
        s[0].0[a] as int
    } else {
        let rest = lo_of(s.drop_last(), a);
        let v = s.last().0[a] as int;
        if v < rest {
            v
        } else {
            rest
        }
    }
}

/// Largest feature value of `s` along axis `a`.
pub open spec fn hi_of(s: Seq<(Seq<i64>, Class)>, a: int) -> int
    decreases s.len(),
{
    if s.len() <= 1 {
        s[0].0[a] as int
    } else {
        let rest = hi_of(s.drop_last(), a);
        let v = s.last().0[a] as int;
        if v > rest {
            v
        } else {
            rest
        }
    }
}

/// Width of one grid step on axis `a`: the value range divided evenly into
/// `steps` parts (integer division), floored at one unit so that every
/// non-constant axis offers thresholds.  A zero step marks a constant axis,
/// the only kind that cannot be split.
pub open spec fn step_of(s: Seq<(Seq<i64>, Class)>, a: int, steps: int) -> int {
    let range = hi_of(s, a) - lo_of(s, a);
    if range / steps >= 1 {
        range / steps
    } else if range > 0 {
        1
    } else {
        0
    }
}

/// Whether `t` is one of the interior grid thresholds of axis `a`:
/// `lo + k * step` for some `k >= 1`, not exceeding `hi`.
pub open spec fn on_grid(s: Seq<(Seq<i64>, Class)>, a: int, steps: int, t: int) -> bool {
    let lo = lo_of(s, a);
    let st = step_of(s, a, steps);
    st > 0 && lo + st <= t <= hi_of(s, a) && (t - lo) % st == 0
}

/// A splitting criterion the search considers: a listed axis, a grid
/// threshold on it, and a partition with both sides non-empty.
pub open spec fn is_candidate(
    axises: Seq<Axis>,
    s: Seq<(Seq<i64>, Class)>,
    steps: int,
    c: Criterion,
) -> bool {
    &&& axises.contains(c.axis)
    &&& on_grid(s, c.axis.0 as int, steps, c.split as int)
    &&& part(s, c, true).len() > 0
    &&& part(s, c, false).len() > 0
}

/// Numerator of the size-weighted child impurity of candidate `c`:
/// the exact value is `wnum / wden`, which equals
/// `(|l|/n) * gini(l) + (|r|/n) * gini(r)`.
pub open spec fn wnum(classes: Seq<Class>, s: Seq<(Seq<i64>, Class)>, c: Criterion) -> int {
    gini_num(classes, part(s, c, true)) * part(s, c, false).len() + gini_num(
        classes,
        part(s, c, false),
    ) * part(s, c, true).len()
}

/// Denominator of the size-weighted child impurity of candidate `c`.
pub open spec fn wden(s: Seq<(Seq<i64>, Class)>, c: Criterion) -> int {
    (s.len() as int) * (part(s, c, true).len() * part(s, c, false).len())
}

/// Candidate `c1` scores strictly lower weighted impurity than `c2`.
pub open spec fn better(
    classes: Seq<Class>,
    s: Seq<(Seq<i64>, Class)>,
    c1: Criterion,
    c2: Criterion,
) -> bool {
    wnum(classes, s, c1) * wden(s, c2) < wnum(classes, s, c2) * wden(s, c1)
}

/// Position of the first occurrence of `a` in the axis list
/// (the list length when `a` is absent).
pub open spec fn axis_pos(axises: Seq<Axis>, a: Axis) -> int
    decreases axises.len(),
{
    if axises.len() == 0 {
        0
    } else if axises[0] == a {
        0
    } else {
        1 + axis_pos(axises.drop_first(), a)
    }
}

/// Candidate `c1` is enumerated before `c2`: on an earlier axis, or on the
/// same axis at a smaller threshold.
pub open spec fn earlier(axises: Seq<Axis>, c1: Criterion, c2: Criterion) -> bool {
    axis_pos(axises, c1.axis) < axis_pos(axises, c2.axis) || (c1.axis == c2.axis && c1.split
        < c2.split)
}

/// Candidate `c` lies strictly before search position `(ai, t)`.
pub open spec fn before(axises: Seq<Axis>, c: Criterion, ai: int, t: int) -> bool {
    axis_pos(axises, c.axis) < ai || (axis_pos(axises, c.axis) == ai && (c.split as int) < t)
}

/// No candidate lies before search position `(ai, t)`.
pub open spec fn none_before(
    axises: Seq<Axis>,
    s: Seq<(Seq<i64>, Class)>,
    steps: int,
    ai: int,
    t: int,
) -> bool {
    forall|c: Criterion| #[trigger]
        is_candidate(axises, s, steps, c) ==> !before(axises, c, ai, t)
}

/// `b` decides every candidate before `(ai, t)`: none scores strictly lower
/// than `b`, and `b` scores strictly lower than every one enumerated before
/// it.
pub open spec fn covers(
    axises: Seq<Axis>,
    classes: Seq<Class>,
    s: Seq<(Seq<i64>, Class)>,
    steps: int,
    b: Criterion,
    ai: int,
    t: int,
) -> bool {
    forall|c: Criterion| #[trigger]
        is_candidate(axises, s, steps, c) && before(axises, c, ai, t) ==> !better(classes, s, c, b)
            && (earlier(axises, c, b) ==> better(classes, s, b, c))
}

/// Cross-multiplied integer cost the search compares: candidates with equal
/// slice share the denominator factor `n`, so only
/// `cssq(l) * |r| + cssq(r) * |l|` over `|l| * |r|` matters, maximized.
pub open spec fn cost_a(classes: Seq<Class>, s: Seq<(Seq<i64>, Class)>, c: Criterion) -> int {
    cssq(classes, part(s, c, true)) * part(s, c, false).len() + cssq(classes, part(s, c, false))
        * part(s, c, true).len()
}

pub open spec fn cost_d(s: Seq<(Seq<i64>, Class)>, c: Criterion) -> int {
    (part(s, c, true).len() as int) * (part(s, c, false).len() as int)
}

pub proof fn lemma_axis_pos(axises: Seq<Axis>, a: Axis)
    ensures
        0 <= axis_pos(axises, a) <= axises.len(),
        axises.contains(a) ==> axis_pos(axises, a) < axises.len() && axises[axis_pos(axises, a)]
            == a,
        !axises.contains(a) ==> axis_pos(axises, a) == axises.len(),
    decreases axises.len(),
{
    if axises.len() > 0 && axises[0] != a {
        let tail = axises.drop_first();
        lemma_axis_pos(tail, a);
        assert(axises.contains(a) ==> tail.contains(a)) by {
            if axises.contains(a) {
                let i = choose|i: int| 0 <= i < axises.len() && axises[i] == a;
                assert(tail[i - 1] == a);
            }
        }
        assert(tail.contains(a) ==> axises.contains(a)) by {
            if tail.contains(a) {
                let i = choose|i: int| 0 <= i < tail.len() && tail[i] == a;
                assert(axises[i + 1] == a);
            }
        }
    }
}

/// In a duplicate-free axis list, position `i` holds exactly the axis whose
/// first occurrence is `i`.
pub proof fn lemma_axis_pos_index(axises: Seq<Axis>, i: int)
    requires
        axises.no_duplicates(),
        0 <= i < axises.len(),
    ensures
        axis_pos(axises, axises[i]) == i,
    decreases axises.len(),
{
    if i > 0 {
        let tail = axises.drop_first();
        assert(tail.no_duplicates());
        assert(tail[i - 1] == axises[i]);
        lemma_axis_pos_index(tail, i - 1);
        assert(axises[0] != axises[i]);
    }
}

/// The grid on an axis has exactly one threshold in `[t, t + step)`.
pub proof fn lemma_grid_unique(
    s: Seq<(Seq<i64>, Class)>,
    a: int,
    steps: int,
    t: int,
    x: int,
)
    requires
        step_of(s, a, steps) > 0,
        (t - lo_of(s, a)) % step_of(s, a, steps) == 0,
        (x - lo_of(s, a)) % step_of(s, a, steps) == 0,
        t <= x < t + step_of(s, a, steps),
    ensures
        x == t,
{
    let lo = lo_of(s, a);
    let st = step_of(s, a, steps);
    lemma_fundamental_div_mod(x - lo, st);
    lemma_fundamental_div_mod(t - lo, st);
    let m = (x - lo) / st;
    let k = (t - lo) / st;
    assert(x - lo == st * m);
    assert(t - lo == st * k);
    assert(st * k <= st * m < st * k + st);
    assert(m == k) by (nonlinear_arith)
        requires
            st > 0,
            st * k <= st * m < st * k + st,
    ;
}

/// The weighted-impurity numerator over a slice whose labels are all listed:
/// `wnum = cost_d * n - cost_a` and `wden = n * cost_d`.
pub proof fn lemma_cost_form(classes: Seq<Class>, s: Seq<(Seq<i64>, Class)>, c: Criterion)
    requires
        classes.no_duplicates(),
        labels_in(s, classes),
    ensures
        wnum(classes, s, c) == cost_d(s, c) * s.len() - cost_a(classes, s, c),
        wden(s, c) == s.len() * cost_d(s, c),
{
    let l = part(s, c, true);
    let r = part(s, c, false);
    lemma_part_len(s, c);
    lemma_labels_in_part(classes, s, c, true);
    lemma_labels_in_part(classes, s, c, false);
    lemma_gini_num_form(classes, l);
    lemma_gini_num_form(classes, r);
    lemma_csum_len(classes, l);
    lemma_csum_len(classes, r);
    let ll = l.len() as int;
    let rl = r.len() as int;
    let sl = cssq(classes, l);
    let sr = cssq(classes, r);
    assert(gini_num(classes, l) == ll * ll - sl);
    assert(gini_num(classes, r) == rl * rl - sr);
    assert((ll * ll - sl) * rl + (rl * rl - sr) * ll == (ll * rl) * (ll + rl) - (sl * rl + sr
        * ll)) by (nonlinear_arith);
}

/// Split sides inherit listed labels.
pub proof fn lemma_labels_in_part(
    classes: Seq<Class>,
    s: Seq<(Seq<i64>, Class)>,
    c: Criterion,
    keep: bool,
)
    requires
        labels_in(s, classes),
    ensures
        labels_in(part(s, c, keep), classes),
{
    lemma_part_elems(s, c, keep);
    let p = part(s, c, keep);
    assert forall|i: int| 0 <= i < p.len() implies classes.contains(#[trigger] p[i].1) by {
        assert(s.contains(p[i]));
        let j = choose|j: int| 0 <= j < s.len() && s[j] == p[i];
        assert(classes.contains(s[j].1));
    }
}

/// The integer costs of a valid candidate stay within `n^3` and `n^2`.
pub proof fn lemma_cost_bounds(classes: Seq<Class>, s: Seq<(Seq<i64>, Class)>, c: Criterion)
    requires
        classes.no_duplicates(),
        part(s, c, true).len() > 0,
        part(s, c, false).len() > 0,
    ensures
        0 <= cost_a(classes, s, c) <= s.len() * s.len() * s.len(),
        1 <= cost_d(s, c) <= s.len() * s.len(),
{
    let l = part(s, c, true);
    let r = part(s, c, false);
    lemma_part_len(s, c);
    let ll = l.len() as int;
    let rl = r.len() as int;
    let n = s.len() as int;
    lemma_cssq_nonneg(classes, l);
    lemma_cssq_nonneg(classes, r);
    lemma_cssq_le_csum_sq(classes, l);
    lemma_cssq_le_csum_sq(classes, r);
    lemma_csum_len(classes, l);
    lemma_csum_len(classes, r);
    let sl = cssq(classes, l);
    let sr = cssq(classes, r);
    assert(sl <= ll * ll) by (nonlinear_arith)
        requires
            sl <= csum(classes, l) * csum(classes, l),
            0 <= csum(classes, l) <= ll,
    ;
    assert(sr <= rl * rl) by (nonlinear_arith)
        requires
            sr <= csum(classes, r) * csum(classes, r),
            0 <= csum(classes, r) <= rl,
    ;
    assert(0 <= sl * rl + sr * ll <= n * n * n) by (nonlinear_arith)
        requires
            0 <= sl <= ll * ll,
            0 <= sr <= rl * rl,
            1 <= ll,
            1 <= rl,
            ll + rl == n,
    ;
    assert(1 <= ll * rl <= n * n) by (nonlinear_arith)
        requires
            1 <= ll,
            1 <= rl,
            ll + rl == n,
    ;
}

/// The exact weighted-impurity comparison agrees with the cross-multiplied
/// integer cost comparison the search performs.
pub proof fn lemma_better_iff(
    classes: Seq<Class>,
    s: Seq<(Seq<i64>, Class)>,
    c1: Criterion,
    c2: Criterion,
)
    requires
        classes.no_duplicates(),
        labels_in(s, classes),
        s.len() >= 1,
        part(s, c1, true).len() > 0,
        part(s, c1, false).len() > 0,
        part(s, c2, true).len() > 0,
        part(s, c2, false).len() > 0,
    ensures
        better(classes, s, c1, c2) <==> cost_a(classes, s, c1) * cost_d(s, c2) > cost_a(
            classes,
            s,
            c2,
        ) * cost_d(s, c1),
{
    lemma_cost_form(classes, s, c1);
    lemma_cost_form(classes, s, c2);
    lemma_cost_bounds(classes, s, c1);
    lemma_cost_bounds(classes, s, c2);
    let n = s.len() as int;
    let a1 = cost_a(classes, s, c1);
    let d1 = cost_d(s, c1);
    let a2 = cost_a(classes, s, c2);
    let d2 = cost_d(s, c2);
    assert(((d1 * n - a1) * (n * d2) < (d2 * n - a2) * (n * d1)) <==> (a1 * d2 > a2
        * d1)) by (nonlinear_arith)
        requires
            n >= 1,
            d1 >= 1,
            d2 >= 1,
    ;
}

/// A valid candidate has a positive score denominator.
pub proof fn lemma_wden_pos(s: Seq<(Seq<i64>, Class)>, c: Criterion)
    requires
        s.len() >= 1,
        part(s, c, true).len() > 0,
        part(s, c, false).len() > 0,
    ensures
        wden(s, c) >= 1,
{
    let n = s.len() as int;
    let ll = part(s, c, true).len() as int;
    let rl = part(s, c, false).len() as int;
    assert(n * (ll * rl) >= 1) by (nonlinear_arith)
        requires
            n >= 1,
            ll >= 1,
            rl >= 1,
    ;
}

/// Scoring strictly below the running best beats everything the best beat
/// or tied.
pub proof fn lemma_better_trans(
    classes: Seq<Class>,
    s: Seq<(Seq<i64>, Class)>,
    c: Criterion,
    b: Criterion,
    c2: Criterion,
)
    requires
        wden(s, c) >= 1,
        wden(s, b) >= 1,
        wden(s, c2) >= 1,
        better(classes, s, c, b),
        !better(classes, s, c2, b),
    ensures
        better(classes, s, c, c2),
        !better(classes, s, c2, c),
{
    let wc = wnum(classes, s, c);
    let dc = wden(s, c);
    let wb = wnum(classes, s, b);
    let db = wden(s, b);
    let w2 = wnum(classes, s, c2);
    let d2 = wden(s, c2);
    assert(wc * d2 < w2 * dc) by (nonlinear_arith)
        requires
            dc >= 1,
            db >= 1,
            d2 >= 1,
            wc * db < wb * dc,
            w2 * db >= wb * d2,
    ;
}


/// Numeric caps implied by the training-size cap.
pub proof fn lemma_n_bounds(n: int)
    requires
        0 <= n <= MAX_TRAIN_POINTS as int,
    ensures
        n * n <= 0x1_0000_0000_0000,
        n * n * n <= 0x1000_0000_0000_0000_0000,
{
    assert(n * n <= 0x1_0000_0000_0000 && n * n * n <= 0x1000_0000_0000_0000_0000)
        by (nonlinear_arith)
        requires
            0 <= n <= 0x100_0000,
    ;
}

/// Axis bounds of a slice: its range along a usable axis stays within the
/// feature limit and encloses every point.
pub proof fn lemma_lo_hi(s: Seq<(Seq<i64>, Class)>, a: int)
    requires
        s.len() >= 1,
        forall|i: int| #![trigger s[i]] 0 <= i < s.len() ==> 0 <= a < s[i].0.len(),
        features_bounded(s),
    ensures
        -(FEATURE_LIMIT as int) <= lo_of(s, a) <= hi_of(s, a) <= FEATURE_LIMIT as int,
        forall|i: int| #![trigger s[i]] 0 <= i < s.len() ==> lo_of(s, a) <= s[i].0[a] <= hi_of(s, a),
    decreases s.len(),
{
    let p0 = s[0];
    assert(0 <= a < p0.0.len());
    assert(point_bounded(p0.0));
    assert(-(FEATURE_LIMIT as int) <= p0.0[a] <= FEATURE_LIMIT as int);
    if s.len() > 1 {
        let head = s.drop_last();
        assert(forall|i: int| 0 <= i < head.len() ==> head[i] == s[i]);
        lemma_lo_hi(head, a);
        let pl = s[s.len() - 1];
        assert(pl == s.last());
        assert(0 <= a < pl.0.len());
        assert(point_bounded(pl.0));
        assert(-(FEATURE_LIMIT as int) <= pl.0[a] <= FEATURE_LIMIT as int);
        assert forall|i: int| #![trigger s[i]] 0 <= i < s.len() implies lo_of(s, a) <= s[i].0[a]
            <= hi_of(s, a) by {
            let e = s[i];
            if i < s.len() - 1 {
                assert(head[i] == e);
                assert(lo_of(head, a) <= head[i].0[a] <= hi_of(head, a));
            }
        }
    }
}

/// Every candidate criterion splits above the low end of its axis range, so
/// its threshold exceeds the negated feature limit.
pub proof fn lemma_candidate_split_low(
    axises: Seq<Axis>,
    s: Seq<(Seq<i64>, Class)>,
    steps: int,
    c: Criterion,
)
    requires
        s.len() >= 1,
        features_bounded(s),
        forall|i: int, k: int| #![trigger s[i], axises[k]]
            0 <= i < s.len() && 0 <= k < axises.len() ==> axis_in_range(
                axises[k],
                s[i].0.len() as int,
            ),
        is_candidate(axises, s, steps, c),
    ensures
        (c.split as int) > -(FEATURE_LIMIT as int),
{
    lemma_axis_pos(axises, c.axis);
    let p = axis_pos(axises, c.axis);
    assert(axises[p] == c.axis);
    let a = c.axis.0 as int;
    assert forall|i: int| #![trigger s[i]] 0 <= i < s.len() implies 0 <= a < s[i].0.len() by {
        assert(axis_in_range(axises[p], s[i].0.len() as int));
    }
    lemma_lo_hi(s, a);
}

/// Sum over the candidate classes of the squared label counts of `data`.
pub fn sum_sq(classes: &Vec<Class>, data: &Vec<(DataPoint, Class)>) -> (r: u64)
    requires
        data@.len() <= MAX_TRAIN_POINTS,
        classes@.no_duplicates(),
    ensures
        r == cssq(classes@, lview(data@)),
        r <= data@.len() * data@.len(),
{
    let ghost s = lview(data@);
    let n = data.len();
    let mut acc: u64 = 0;
    let mut i: usize = 0;
    while i < classes.len()
        invariant
            i <= classes.len(),
            n == data@.len(),
            n <= MAX_TRAIN_POINTS,
            s == lview(data@),
            classes@.no_duplicates(),
            acc == cssq(classes@.subrange(0, i as int), s),
            acc <= (n as int) * (n as int),
        decreases classes.len() - i,
    {
        let ghost pre = classes@.subrange(0, i as int);
        let ghost post = classes@.subrange(0, i as int + 1);
        proof {
            assert(post.drop_last() =~= pre);
            assert(post.last() == classes@[i as int]);
            assert(post.no_duplicates()) by {
                assert(forall|a: int| 0 <= a < post.len() ==> post[a] == classes@[a]);
            }
            lemma_cssq_le_csum_sq(post, s);
            lemma_csum_len(post, s);
            assert(cssq(post, s) <= (n as int) * (n as int)) by (nonlinear_arith)
                requires
                    cssq(post, s) <= csum(post, s) * csum(post, s),
                    0 <= csum(post, s) <= n as int,
            ;
            lemma_cssq_nonneg(pre, s);
        }
        let cnt = count_class(data, classes[i]);
        proof {
            lemma_ccount_bounds(s, classes@[i as int]);
            assert((n as int) * (n as int) <= 0x1000_0000_0000_0000) by (nonlinear_arith)
                requires
                    0 <= n as int <= MAX_TRAIN_POINTS as int,
            ;
            assert(cnt as int * (cnt as int) <= (n as int) * (n as int)) by (nonlinear_arith)
                requires
                    0 <= cnt as int <= n as int,
            ;
        }
        let sq = (cnt as u64) * (cnt as u64);
        acc = acc + sq;
        i = i + 1;
    }
    proof {
        assert(classes@.subrange(0, classes@.len() as int) =~= classes@);
    }
    acc
}



/// Finds the binary split of a non-empty labeled slice that minimizes
/// size-weighted child impurity, if any valid split exists.
///
/// Each listed axis is scanned in order: its value range is divided into
/// `steps` equal parts (the step floored at one unit, so every non-constant
/// axis offers thresholds) and every interior grid threshold whose
/// partition leaves neither side empty competes.  Constant axes are
/// silently skipped.  `None` comes back exactly when no candidate exists;
/// otherwise the winner scores no worse than every candidate and strictly
/// better than every candidate enumerated before it, so the first-seen
/// minimum wins ties and the result is deterministic.
#[verifier::loop_isolation(false)]
pub fn find_criterion(
    axises: &Vec<Axis>,
    classes: &Vec<Class>,
    data: &Vec<(DataPoint, Class)>,
    steps: usize,
) -> (r: Option<Criterion>)
    requires
        1 <= data@.len() <= MAX_TRAIN_POINTS,
        1 <= steps <= 0x1000_0000,
        classes@.no_duplicates(),
        axises@.no_duplicates(),
        labels_in(lview(data@), classes@),
        features_bounded(lview(data@)),
        forall|i: int, k: int|
            #![trigger lview(data@)[i], axises@[k]]
            0 <= i < data@.len() && 0 <= k < axises@.len() ==> axis_in_range(
                axises@[k],
                lview(data@)[i].0.len() as int,
            ),
    ensures
        match r {
            Option::None => forall|c: Criterion|
                !(#[trigger] is_candidate(axises@, lview(data@), steps as int, c)),
            Option::Some(b) => {
                &&& is_candidate(axises@, lview(data@), steps as int, b)
                &&& forall|c: Criterion|
                    #[trigger] is_candidate(axises@, lview(data@), steps as int, c) ==> !better(
                        classes@,
                        lview(data@),
                        c,
                        b,
                    )
                &&& forall|c: Criterion|
                    #[trigger] is_candidate(axises@, lview(data@), steps as int, c) && earlier(
                        axises@,
                        c,
                        b,
                    ) ==> better(classes@, lview(data@), b, c)
            },
        },
{
    let ghost s = lview(data@);
    let ghost axs = axises@;
    let ghost cls = classes@;
    let ghost stp = steps as int;
    let ghost neg = -(FEATURE_LIMIT as int);
    let n = data.len();
    let mut best: Option<Criterion> = None;
    let mut best_a: u128 = 0;
    let mut best_d: u128 = 0;
    proof {
        assert forall|c: Criterion| #[trigger] is_candidate(axs, s, stp, c) implies !before(
            axs,
            c,
            0,
            neg,
        ) by {
            lemma_axis_pos(axs, c.axis);
            lemma_candidate_split_low(axs, s, stp, c);
        }
    }
    let mut ai: usize = 0;
    while ai < axises.len()
        invariant
            ai <= axises@.len(),
            match best {
                Option::None => none_before(axs, s, stp, ai as int, neg),
                Option::Some(b) => {
                    &&& is_candidate(axs, s, stp, b)
                    &&& before(axs, b, ai as int, neg)
                    &&& best_a == cost_a(cls, s, b)
                    &&& best_d == cost_d(s, b)
                    &&& best_a <= 0x1000_0000_0000_0000_0000
                    &&& 1 <= best_d <= 0x1_0000_0000_0000
                    &&& covers(axs, cls, s, stp, b, ai as int, neg)
                },
            },
        decreases axises@.len() - ai,
    {
        let axis = axises[ai];
        let ghost a = axis.0 as int;
        proof {
            lemma_axis_pos_index(axs, ai as int);
            assert forall|i: int| #![trigger s[i]] 0 <= i < s.len() implies 0 <= a
                < s[i].0.len() by {
                assert(axis_in_range(axs[ai as int], s[i].0.len() as int));
            }
            lemma_lo_hi(s, a);
            assert forall|i2: int| 0 <= i2 < data@.len() implies axis_in_range(
                axis,
                #[trigger] data@[i2].0@.len() as int,
            ) by {
                let e = s[i2];
                assert(e.0 == data@[i2].0@);
                assert(0 <= a < e.0.len());
                assert(axis_in_range(axs[ai as int], s[i2].0.len() as int));
            }
            let e0 = s[0];
            assert(0 <= a < e0.0.len());
            assert(point_bounded(e0.0));
            assert(e0.0 == data@[0].0@);
            assert(s.subrange(0, 1)[0] == e0);
        }
        // range of this axis over the slice
        let mut lo = data[0].0.0[axis.0 as usize];
        let mut hi = lo;
        let mut i: usize = 1;
        while i < data.len()
            invariant
                1 <= i <= data@.len(),
                lo as int == lo_of(s.subrange(0, i as int), a),
                hi as int == hi_of(s.subrange(0, i as int), a),
                -FEATURE_LIMIT <= lo <= hi <= FEATURE_LIMIT,
            decreases data@.len() - i,
        {
            proof {
                let pre = s.subrange(0, i as int);
                let post = s.subrange(0, i as int + 1);
                assert(post.drop_last() =~= pre);
                assert(post.last() == s[i as int]);
                assert(s[i as int].0 == data@[i as int].0@);
                assert(point_bounded(s[i as int].0));
                assert(0 <= a < s[i as int].0.len());
            }
            let v = data[i].0.0[axis.0 as usize];
            if v < lo {
                lo = v;
            }
            if v > hi {
                hi = v;
            }
            i = i + 1;
        }
        proof {
            assert(s.subrange(0, s.len() as int) =~= s);
            assert(s.subrange(0, data@.len() as int) =~= s);
        }
        let range = (hi - lo) as u64;
        let st64 = range / (steps as u64);
        proof {
            lemma_div_nonincreasing(range as int, steps as int);
        }
        let step = if st64 == 0 && range > 0 {
            1i64
        } else {
            st64 as i64
        };
        proof {
            assert(step as int == step_of(s, a, stp));
            assert(0 <= step <= hi - lo);
        }
        if step > 0 {
            let mut t = lo + step;
            let ghost mut k: int = 1;
            proof {
                // entering the axis: nothing on it lies below the first threshold
                assert forall|c: Criterion| #[trigger] is_candidate(axs, s, stp, c) && before(
                    axs,
                    c,
                    ai as int,
                    t as int,
                ) implies before(axs, c, ai as int, neg) by {
                    lemma_axis_pos(axs, c.axis);
                    if axis_pos(axs, c.axis) == ai as int {
                        assert(axs[ai as int] == c.axis);
                        assert(c.axis == axis);
                    }
                }
            }
            while t <= hi
                invariant
                    t as int == lo_of(s, a) + k * (step as int),
                    1 <= k,
                    t as int <= hi_of(s, a) + (step as int),
                    match best {
                        Option::None => none_before(axs, s, stp, ai as int, t as int),
                        Option::Some(b) => {
                            &&& is_candidate(axs, s, stp, b)
                            &&& before(axs, b, ai as int, t as int)
                            &&& best_a == cost_a(cls, s, b)
                            &&& best_d == cost_d(s, b)
                            &&& best_a <= 0x1000_0000_0000_0000_0000
                            &&& 1 <= best_d <= 0x1_0000_0000_0000
                            &&& covers(axs, cls, s, stp, b, ai as int, t as int)
                        },
                    },
                decreases hi_of(s, a) + (step as int) - t,
            {
                let cr = Criterion { axis, split: t };
                proof {
                    assert(t as int >= lo_of(s, a) + (step as int)) by (nonlinear_arith)
                        requires
                            t as int == lo_of(s, a) + k * (step as int),
                            k >= 1,
                            step as int >= 1,
                    ;
                    lemma_mod_multiples_basic(k, step as int);
                    assert(((t as int) - lo_of(s, a)) % (step as int) == 0);
                    assert(axs.contains(cr.axis)) by {
                        assert(axs[ai as int] == cr.axis);
                    }
                    assert(on_grid(s, a, stp, cr.split as int));
                }
                let (lv, rv) = cr.split(data);
                let llen = lv.len();
                let rlen = rv.len();
                proof {
                    lemma_part_len(s, cr);
                    assert(part(s, cr, true) == lview(lv@));
                    assert(part(s, cr, false) == lview(rv@));
                    assert(part(s, cr, true).len() == llen as int);
                    assert(part(s, cr, false).len() == rlen as int);
                }
                if llen > 0 && rlen > 0 {
                    proof {
                        assert(is_candidate(axs, s, stp, cr));
                    }
                    let ssl = sum_sq(classes, &lv);
                    let ssr = sum_sq(classes, &rv);
                    proof {
                        lemma_cost_bounds(cls, s, cr);
                        lemma_n_bounds(s.len() as int);
                        assert(ssl as int == cssq(cls, part(s, cr, true)));
                        assert(ssr as int == cssq(cls, part(s, cr, false)));
                        assert((ssl as int) * (rlen as int) <= 0x1000_0000_0000_0000_0000
                            && (ssr as int) * (llen as int) <= 0x1000_0000_0000_0000_0000)
                            by (nonlinear_arith)
                            requires
                                0 <= ssl as int <= (llen as int) * (llen as int),
                                0 <= ssr as int <= (rlen as int) * (rlen as int),
                                0 < llen as int <= 0x100_0000,
                                0 < rlen as int <= 0x100_0000,
                        ;
                    }
                    let ca: u128 = (ssl as u128) * (rlen as u128) + (ssr as u128) * (llen as u128);
                    let cd: u128 = (llen as u128) * (rlen as u128);
                    proof {
                        assert(ca as int == cost_a(cls, s, cr));
                        assert(cd as int == cost_d(s, cr));
                        assert(ca <= 0x1000_0000_0000_0000_0000);
                        assert(1 <= cd <= 0x1_0000_0000_0000);
                    }
                    let take: bool;
                    if best.is_none() {
                        take = true;
                    } else {
                        proof {
                            assert((ca as int) * (best_d as int)
                                < 0x1_0000_0000_0000_0000_0000_0000_0000_0000) by (nonlinear_arith)
                                requires
                                    0 <= ca as int <= 0x1000_0000_0000_0000_0000,
                                    0 <= best_d as int <= 0x1_0000_0000_0000,
                            ;
                            assert((best_a as int) * (cd as int)
                                < 0x1_0000_0000_0000_0000_0000_0000_0000_0000) by (nonlinear_arith)
                                requires
                                    0 <= best_a as int <= 0x1000_0000_0000_0000_0000,
                                    0 <= cd as int <= 0x1_0000_0000_0000,
                            ;
                        }
                        take = ca * best_d > best_a * cd;
                    }
                    if take {
                        proof {
                            lemma_axis_pos_index(axs, ai as int);
                            assert(before(axs, cr, ai as int, (t as int) + (step as int)));
                            assert forall|c2: Criterion| #[trigger] is_candidate(axs, s, stp, c2)
                                && before(axs, c2, ai as int, (t as int) + (step as int)) implies
                                !better(cls, s, c2, cr) && (earlier(axs, c2, cr) ==> better(
                                cls,
                                s,
                                cr,
                                c2,
                            )) by {
                                if before(axs, c2, ai as int, t as int) {
                                    match best {
                                        Option::None => {
                                            assert(false);
                                        },
                                        Option::Some(b) => {
                                            lemma_better_iff(cls, s, cr, b);
                                            assert(better(cls, s, cr, b));
                                            lemma_wden_pos(s, cr);
                                            lemma_wden_pos(s, b);
                                            lemma_wden_pos(s, c2);
                                            lemma_better_trans(cls, s, cr, b, c2);
                                        },
                                    }
                                } else {
                                    lemma_axis_pos(axs, c2.axis);
                                    assert(axs[axis_pos(axs, c2.axis)] == c2.axis);
                                    assert(c2.axis == cr.axis);
                                    lemma_grid_unique(s, a, stp, t as int, c2.split as int);
                                    assert(c2 == cr);
                                }
                            }
                        }
                        best = Some(cr);
                        best_a = ca;
                        best_d = cd;
                    } else {
                        proof {
                            let b = best->Some_0;
                            lemma_better_iff(cls, s, cr, b);
                            assert(!better(cls, s, cr, b));
                            lemma_axis_pos_index(axs, ai as int);
                            assert forall|c2: Criterion| #[trigger] is_candidate(axs, s, stp, c2)
                                && before(axs, c2, ai as int, (t as int) + (step as int)) implies
                                !better(cls, s, c2, b) && (earlier(axs, c2, b) ==> better(
                                cls,
                                s,
                                b,
                                c2,
                            )) by {
                                if !before(axs, c2, ai as int, t as int) {
                                    lemma_axis_pos(axs, c2.axis);
                                    assert(axs[axis_pos(axs, c2.axis)] == c2.axis);
                                    assert(c2.axis == cr.axis);
                                    lemma_grid_unique(s, a, stp, t as int, c2.split as int);
                                    assert(c2 == cr);
                                    lemma_axis_pos(axs, b.axis);
                                    assert(!earlier(axs, cr, b));
                                }
                            }
                        }
                    }
                } else {
                    proof {
                        assert(!is_candidate(axs, s, stp, cr));
                        assert forall|c2: Criterion| #[trigger] is_candidate(axs, s, stp, c2)
                            && before(axs, c2, ai as int, (t as int) + (step as int)) implies
                            before(axs, c2, ai as int, t as int) by {
                            if !before(axs, c2, ai as int, t as int) {
                                lemma_axis_pos(axs, c2.axis);
                                assert(axs[axis_pos(axs, c2.axis)] == c2.axis);
                                assert(c2.axis == cr.axis);
                                lemma_grid_unique(s, a, stp, t as int, c2.split as int);
                                assert(c2 == cr);
                            }
                        }
                    }
                }
                proof {
                    assert((k + 1) * (step as int) == k * (step as int) + (step as int))
                        by (nonlinear_arith);
                }
                t = t + step;
                proof {
                    k = k + 1;
                }
            }
            proof {
                // leaving the axis: everything on it now lies behind the cursor
                assert forall|c2: Criterion| #[trigger] is_candidate(axs, s, stp, c2) && before(
                    axs,
                    c2,
                    ai as int + 1,
                    neg,
                ) implies before(axs, c2, ai as int, t as int) by {
                    lemma_candidate_split_low(axs, s, stp, c2);
                    lemma_axis_pos(axs, c2.axis);
                    if axis_pos(axs, c2.axis) == ai as int {
                        assert(axs[ai as int] == c2.axis);
                        assert(c2.axis == axis);
                        assert((c2.split as int) <= hi_of(s, a));
                    }
                }
            }
        } else {
            proof {
                // a constant (or too narrow) axis offers no thresholds
                assert forall|c2: Criterion| #[trigger] is_candidate(axs, s, stp, c2) && before(
                    axs,
                    c2,
                    ai as int + 1,
                    neg,
                ) implies before(axs, c2, ai as int, neg) by {
                    lemma_candidate_split_low(axs, s, stp, c2);
                    lemma_axis_pos(axs, c2.axis);
                    if axis_pos(axs, c2.axis) == ai as int {
                        assert(axs[ai as int] == c2.axis);
                        assert(c2.axis == axis);
                        assert(!on_grid(s, a, stp, c2.split as int));
                        assert(false);
                    }
                }
            }
        }
        ai = ai + 1;
    }
    proof {
        assert forall|c: Criterion| #[trigger] is_candidate(axs, s, stp, c) implies before(
            axs,
            c,
            axs.len() as int,
            neg,
        ) by {
            lemma_axis_pos(axs, c.axis);
        }
    }
    best
}

} // verus!
