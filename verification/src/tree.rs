//! The tree builder: recursive induction of a binary decision tree under
//! depth and size stopping rules, followed by a finalization pass that
//! collapses raw leaves into majority-class leaves.
//!
//! Construction is two-phase: a private `TrainTree` whose leaves hold the
//! raw labeled slice that reached them exists only during induction and is
//! fully converted before a `DecisionTree` is returned.  The `trains`
//! predicate pins the returned tree down completely: each branch carries the
//! unique first-seen optimal criterion for its slice, each leaf the unique
//! majority class of its slice with ties broken toward the lowest class
//! identifier.

use vstd::prelude::*;

use vstd::multiset::Multiset;

use crate::data::{
    arity_is, axis_in_range, features_bounded, labels_in, lemma_part_bounded, lemma_part_elems,
    lemma_part_in_range, lemma_part_len, lview, part, Axis, Class, Criterion, DataPoint,
    MAX_TRAIN_POINTS,
};
use crate::gini::{ccount, lemma_ccount_pos_witness};
use crate::split::{
    axis_pos, better, earlier, find_criterion, hi_of, is_candidate, lemma_axis_pos,
    lemma_labels_in_part, lo_of, on_grid, step_of,
};

verus! {

/// Default size floor: a slice must be strictly larger to be split.
pub const MIN_ELEMENTS_TO_SPLIT: usize = 3;

/// Default depth ceiling for the recursion.
pub const MAX_DEPTH: usize = 7;

/// Default number of grid steps per axis in the split search.
pub const SPLIT_STEPS: usize = 100;

/// An immutable, finite binary tree: branches test `point[axis] < split`,
/// leaves assign a class.  No other node shapes exist.
#[derive(Debug)]
pub enum DecisionTree {
    Branch(Criterion, Box<DecisionTree>, Box<DecisionTree>),
    Leaf(Class),
}

/// Construction-only tree, structurally identical to `DecisionTree` except
/// that its leaves still hold the raw labeled slice that reached them.
#[derive(Debug)]
enum TrainTree {
    Branch(Criterion, Box<TrainTree>, Box<TrainTree>),
    Leaf(Vec<(DataPoint, Class)>),
}

/// Why a training run was rejected before induction began.
#[derive(Debug, Clone, Copy, PartialEq, Eq, Structural)]
pub enum TrainError {
    /// The list of candidate classes was empty.
    EmptyClasses,
    /// The labeled training slice was empty.
    EmptyData,
    /// An axis identifier lies outside `[0, arity)` for this dataset.
    AxisOutOfRange,
}

/// `m` is the majority class of `s`: it occurs, no class occurs more often,
/// and among equally frequent classes it has the lowest identifier.
pub open spec fn is_majority_of(s: Seq<(Seq<i64>, Class)>, m: Class) -> bool {
    &&& ccount(s, m) >= 1
    &&& forall|c: Class| #[trigger] ccount(s, c) <= ccount(s, m)
    &&& forall|c: Class| #[trigger] ccount(s, c) == ccount(s, m) ==> m.0 <= c.0
}

/// Every criterion in the tree uses an axis identifier below `arity`.
pub open spec fn tree_closed(t: DecisionTree, arity: int) -> bool
    decreases t,
{
    match t {
        DecisionTree::Branch(c, l, r) => axis_in_range(c.axis, arity) && tree_closed(*l, arity)
            && tree_closed(*r, arity),
        DecisionTree::Leaf(_) => true,
    }
}

/// The classes of the tree's leaves, left to right.
pub open spec fn leaf_classes(t: DecisionTree) -> Seq<Class>
    decreases t,
{
    match t {
        DecisionTree::Branch(_, l, r) => leaf_classes(*l) + leaf_classes(*r),
        DecisionTree::Leaf(c) => seq![c],
    }
}

/// The number of points of `s` the induction would stop on: at the depth
/// ceiling, at or below the size floor, or with no valid split available.
pub open spec fn stops(
    axises: Seq<Axis>,
    s: Seq<(Seq<i64>, Class)>,
    depth: int,
    max_depth: int,
    min_split: int,
    steps: int,
) -> bool {
    ||| depth >= max_depth
    ||| s.len() <= min_split
    ||| forall|c: Criterion| !(#[trigger] is_candidate(axises, s, steps, c))
}

/// Complete specification of training: `t` is exactly the tree the
/// induction yields on slice `s` at `depth`.  On a stop the tree is the
/// majority-class leaf of the slice; otherwise it branches on the unique
/// first-seen optimal candidate and trains each side on its partition.
pub open spec fn trains(
    axises: Seq<Axis>,
    classes: Seq<Class>,
    s: Seq<(Seq<i64>, Class)>,
    depth: int,
    max_depth: int,
    min_split: int,
    steps: int,
    t: DecisionTree,
) -> bool
    decreases max_depth - depth,
{
    if stops(axises, s, depth, max_depth, min_split, steps) {
        match t {
            DecisionTree::Leaf(m) => is_majority_of(s, m),
            _ => false,
        }
    } else {
        match t {
            DecisionTree::Branch(c, l, r) => {
                &&& is_candidate(axises, s, steps, c)
                &&& forall|c2: Criterion|
                    #[trigger] is_candidate(axises, s, steps, c2) ==> !better(classes, s, c2, c)
                &&& forall|c2: Criterion|
                    #[trigger] is_candidate(axises, s, steps, c2) && earlier(axises, c2, c)
                        ==> better(classes, s, c, c2)
                &&& trains(
                    axises,
                    classes,
                    part(s, c, true),
                    depth + 1,
                    max_depth,
                    min_split,
                    steps,
                    *l,
                )
                &&& trains(
                    axises,
                    classes,
                    part(s, c, false),
                    depth + 1,
                    max_depth,
                    min_split,
                    steps,
                    *r,
                )
            },
            _ => false,
        }
    }
}

/// Induction-phase counterpart of `trains` over the raw tree: leaves hold
/// exactly the slice that reached them.
spec fn grows(
    axises: Seq<Axis>,
    classes: Seq<Class>,
    s: Seq<(Seq<i64>, Class)>,
    depth: int,
    max_depth: int,
    min_split: int,
    steps: int,
    t: TrainTree,
) -> bool
    decreases max_depth - depth,
{
    if stops(axises, s, depth, max_depth, min_split, steps) {
        match t {
            TrainTree::Leaf(v) => lview(v@) == s,
            _ => false,
        }
    } else {
        match t {
            TrainTree::Branch(c, l, r) => {
                &&& is_candidate(axises, s, steps, c)
                &&& forall|c2: Criterion|
                    #[trigger] is_candidate(axises, s, steps, c2) ==> !better(classes, s, c2, c)
                &&& forall|c2: Criterion|
                    #[trigger] is_candidate(axises, s, steps, c2) && earlier(axises, c2, c)
                        ==> better(classes, s, c, c2)
                &&& grows(
                    axises,
                    classes,
                    part(s, c, true),
                    depth + 1,
                    max_depth,
                    min_split,
                    steps,
                    *l,
                )
                &&& grows(
                    axises,
                    classes,
                    part(s, c, false),
                    depth + 1,
                    max_depth,
                    min_split,
                    steps,
                    *r,
                )
            },
            _ => false,
        }
    }
}

/// Every raw leaf of the tree holds a non-empty slice.
spec fn tt_leaves_nonempty(t: TrainTree) -> bool
    decreases t,
{
    match t {
        TrainTree::Branch(_, l, r) => tt_leaves_nonempty(*l) && tt_leaves_nonempty(*r),
        TrainTree::Leaf(v) => v@.len() >= 1,
    }
}

/// `d` is the finalization of `t`: the same branches, each raw leaf
/// collapsed to its majority class.
spec fn finalized(t: TrainTree, d: DecisionTree) -> bool
    decreases t,
{
    match t {
        TrainTree::Branch(c, l, r) => match d {
            DecisionTree::Branch(c2, l2, r2) => c2 == c && finalized(*l, *l2) && finalized(*r, *r2),
            _ => false,
        },
        TrainTree::Leaf(v) => match d {
            DecisionTree::Leaf(m) => is_majority_of(lview(v@), m),
            _ => false,
        },
    }
}

/// The majority class of a slice is unique.
pub proof fn lemma_majority_unique(s: Seq<(Seq<i64>, Class)>, m1: Class, m2: Class)
    requires
        is_majority_of(s, m1),
        is_majority_of(s, m2),
    ensures
        m1 == m2,
{
    assert(ccount(s, m1) <= ccount(s, m2));
    assert(ccount(s, m2) <= ccount(s, m1));
    assert(m1.0 <= m2.0);
    assert(m2.0 <= m1.0);
}

/// The class with the highest occurrence count in a non-empty labeled
/// slice; ties go to the lowest class identifier.
pub fn majority_class(data: &Vec<(DataPoint, Class)>) -> (m: Class)
    requires
        data@.len() >= 1,
    ensures
        is_majority_of(lview(data@), m),
{
    let ghost s = lview(data@);
    let mut best = data[0].1;
    let mut best_cnt = crate::gini::count_class(data, best);
    proof {
        assert(s[0].1 == data@[0].1);
        crate::gini::lemma_ccount_at(s, best, 0);
    }
    let mut i: usize = 1;
    while i < data.len()
        invariant
            1 <= i <= data@.len(),
            s == lview(data@),
            best_cnt == ccount(s, best),
            best_cnt >= 1,
            forall|j: int|
                0 <= j < i ==> ccount(s, #[trigger] s[j].1) <= best_cnt as int && (ccount(
                    s,
                    s[j].1,
                ) == best_cnt as int ==> best.0 <= s[j].1.0),
        decreases data@.len() - i,
    {
        let cand = data[i].1;
        proof {
            assert(s[i as int].1 == data@[i as int].1);
        }
        let cnt = crate::gini::count_class(data, cand);
        if cnt > best_cnt || (cnt == best_cnt && cand.0 < best.0) {
            proof {
                assert forall|j: int| 0 <= j <= i implies ccount(s, #[trigger] s[j].1)
                    <= cnt as int && (ccount(s, s[j].1) == cnt as int ==> cand.0 <= s[j].1.0) by {
                    if j < i as int {
                        assert(ccount(s, s[j].1) <= best_cnt as int);
                    }
                }
            }
            best = cand;
            best_cnt = cnt;
        } else {
            proof {
                assert(s[i as int].1 == cand);
                assert(ccount(s, cand) <= best_cnt as int);
            }
        }
        i = i + 1;
    }
    proof {
        assert forall|c: Class| #[trigger] ccount(s, c) <= ccount(s, best) by {
            crate::gini::lemma_ccount_bounds(s, c);
            if ccount(s, c) >= 1 {
                lemma_ccount_pos_witness(s, c);
                let j = choose|j: int| 0 <= j < s.len() && s[j].1 == c;
                assert(ccount(s, s[j].1) <= best_cnt as int);
            }
        }
        assert forall|c: Class| #[trigger] ccount(s, c) == ccount(s, best) implies best.0
            <= c.0 by {
            lemma_ccount_pos_witness(s, c);
            let j = choose|j: int| 0 <= j < s.len() && s[j].1 == c;
            assert(ccount(s, s[j].1) == best_cnt as int);
        }
    }
    best
}

/// Grows the raw tree for one slice: stop conditions produce a raw leaf,
/// otherwise the slice is split on the best criterion and both sides are
/// grown one level deeper.
fn grow(
    axises: &Vec<Axis>,
    classes: &Vec<Class>,
    data: Vec<(DataPoint, Class)>,
    depth: usize,
    max_depth: usize,
    min_split: usize,
    steps: usize,
) -> (t: TrainTree)
    requires
        1 <= data@.len() <= MAX_TRAIN_POINTS,
        1 <= steps <= 0x1000_0000,
        classes@.no_duplicates(),
        axises@.no_duplicates(),
        labels_in(lview(data@), classes@),
        features_bounded(lview(data@)),
        forall|i: int, k: int|
            #![trigger lview(data@)[i], axises@[k]]
            0 <= i < data@.len() && 0 <= k < axises@.len() ==> axis_in_range(
                axises@[k],
                lview(data@)[i].0.len() as int,
            ),
    ensures
        grows(
            axises@,
            classes@,
            lview(data@),
            depth as int,
            max_depth as int,
            min_split as int,
            steps as int,
            t,
        ),
    decreases max_depth - depth,
{
    let ghost s = lview(data@);
    if depth < max_depth && data.len() > min_split {
        match find_criterion(axises, classes, &data, steps) {
            Some(c) => {
                proof {
                    assert(!stops(
                        axises@,
                        s,
                        depth as int,
                        max_depth as int,
                        min_split as int,
                        steps as int,
                    ));
                    lemma_part_len(s, c);
                    lemma_labels_in_part(classes@, s, c, true);
                    lemma_labels_in_part(classes@, s, c, false);
                    lemma_part_bounded(s, c, true);
                    lemma_part_bounded(s, c, false);
                    lemma_part_in_range(s, axises@, c, true);
                    lemma_part_in_range(s, axises@, c, false);
                    lemma_axis_pos(axises@, c.axis);
                    let p = axis_pos(axises@, c.axis);
                    assert(axises@[p] == c.axis);
                    assert forall|i2: int| 0 <= i2 < data@.len() implies axis_in_range(
                        c.axis,
                        #[trigger] data@[i2].0@.len() as int,
                    ) by {
                        let e = s[i2];
                        assert(e.0 == data@[i2].0@);
                        assert(axis_in_range(axises@[p], s[i2].0.len() as int));
                    }
                }
                let (left, right) = c.split(&data);
                let lt = grow(axises, classes, left, depth + 1, max_depth, min_split, steps);
                let rt = grow(axises, classes, right, depth + 1, max_depth, min_split, steps);
                TrainTree::Branch(c, Box::new(lt), Box::new(rt))
            },
            None => TrainTree::Leaf(data),
        }
    } else {
        TrainTree::Leaf(data)
    }
}

impl DecisionTree {
    /// Finalization pass: collapses every raw leaf into its majority class,
    /// keeping the branch structure.
    fn from(value: TrainTree) -> (d: DecisionTree)
        requires
            tt_leaves_nonempty(value),
        ensures
            finalized(value, d),
        decreases value,
    {
        match value {
            TrainTree::Branch(c, l, r) => DecisionTree::Branch(
                c,
                Box::new(DecisionTree::from(*l)),
                Box::new(DecisionTree::from(*r)),
            ),
            TrainTree::Leaf(v) => DecisionTree::Leaf(majority_class(&v)),
        }
    }
}

/// A grown tree over a non-empty slice has only non-empty leaves.
proof fn lemma_grows_nonempty(
    axises: Seq<Axis>,
    classes: Seq<Class>,
    s: Seq<(Seq<i64>, Class)>,
    depth: int,
    max_depth: int,
    min_split: int,
    steps: int,
    t: TrainTree,
)
    requires
        grows(axises, classes, s, depth, max_depth, min_split, steps, t),
        s.len() >= 1,
    ensures
        tt_leaves_nonempty(t),
    decreases t,
{
    if !stops(axises, s, depth, max_depth, min_split, steps) {
        match t {
            TrainTree::Branch(c, l, r) => {
                lemma_grows_nonempty(
                    axises,
                    classes,
                    part(s, c, true),
                    depth + 1,
                    max_depth,
                    min_split,
                    steps,
                    *l,
                );
                lemma_grows_nonempty(
                    axises,
                    classes,
                    part(s, c, false),
                    depth + 1,
                    max_depth,
                    min_split,
                    steps,
                    *r,
                );
            },
            TrainTree::Leaf(_) => {},
        }
    }
}

/// Finalizing a grown tree yields exactly the trained tree.
proof fn lemma_finalize(
    axises: Seq<Axis>,
    classes: Seq<Class>,
    s: Seq<(Seq<i64>, Class)>,
    depth: int,
    max_depth: int,
    min_split: int,
    steps: int,
    t: TrainTree,
    d: DecisionTree,
)
    requires
        grows(axises, classes, s, depth, max_depth, min_split, steps, t),
        finalized(t, d),
    ensures
        trains(axises, classes, s, depth, max_depth, min_split, steps, d),
    decreases t,
{
    if stops(axises, s, depth, max_depth, min_split, steps) {
    } else {
        match t {
            TrainTree::Branch(c, l, r) => {
                match d {
                    DecisionTree::Branch(c2, l2, r2) => {
                        lemma_finalize(
                            axises,
                            classes,
                            part(s, c, true),
                            depth + 1,
                            max_depth,
                            min_split,
                            steps,
                            *l,
                            *l2,
                        );
                        lemma_finalize(
                            axises,
                            classes,
                            part(s, c, false),
                            depth + 1,
                            max_depth,
                            min_split,
                            steps,
                            *r,
                            *r2,
                        );
                    },
                    _ => {},
                }
            },
            _ => {},
        }
    }
}


/// Every label in the slice is the single class `c`.
pub open spec fn all_labeled(s: Seq<(Seq<i64>, Class)>, c: Class) -> bool {
    forall|i: int| 0 <= i < s.len() ==> (#[trigger] s[i]).1 == c
}

/// A slice at or below the size floor trains to the single majority-class
/// leaf of that slice, regardless of impurity.
pub proof fn lemma_trained_small(
    axises: Seq<Axis>,
    classes: Seq<Class>,
    s: Seq<(Seq<i64>, Class)>,
    depth: int,
    max_depth: int,
    min_split: int,
    steps: int,
    t: DecisionTree,
)
    requires
        trains(axises, classes, s, depth, max_depth, min_split, steps, t),
        s.len() <= min_split,
    ensures
        t is Leaf,
        is_majority_of(s, t->Leaf_0),
{
}

/// When every listed axis is constant over the slice, no split exists and
/// the node trains to a leaf rather than raising an error.
pub proof fn lemma_trained_constant_axes(
    axises: Seq<Axis>,
    classes: Seq<Class>,
    s: Seq<(Seq<i64>, Class)>,
    depth: int,
    max_depth: int,
    min_split: int,
    steps: int,
    t: DecisionTree,
)
    requires
        trains(axises, classes, s, depth, max_depth, min_split, steps, t),
        steps >= 1,
        forall|k: int|
            0 <= k < axises.len() ==> hi_of(s, (#[trigger] axises[k]).0 as int) == lo_of(
                s,
                axises[k].0 as int,
            ),
    ensures
        t is Leaf,
        is_majority_of(s, t->Leaf_0),
{
    assert forall|cr: Criterion| !(#[trigger] is_candidate(axises, s, steps, cr)) by {
        if is_candidate(axises, s, steps, cr) {
            let k = choose|k: int| 0 <= k < axises.len() && axises[k] == cr.axis;
            let ax = axises[k];
            assert(hi_of(s, ax.0 as int) == lo_of(s, ax.0 as int));
            vstd::arithmetic::div_mod::lemma_div_of0(steps);
            assert(step_of(s, cr.axis.0 as int, steps) == 0);
            assert(!on_grid(s, cr.axis.0 as int, steps, cr.split as int));
        }
    }
    assert(stops(axises, s, depth, max_depth, min_split, steps));
}

/// A single-class slice trains to a tree whose every leaf carries that
/// class, whatever its branch structure.
pub proof fn lemma_trained_single_class(
    axises: Seq<Axis>,
    classes: Seq<Class>,
    s: Seq<(Seq<i64>, Class)>,
    depth: int,
    max_depth: int,
    min_split: int,
    steps: int,
    t: DecisionTree,
    c: Class,
)
    requires
        trains(axises, classes, s, depth, max_depth, min_split, steps, t),
        s.len() >= 1,
        all_labeled(s, c),
    ensures
        forall|j: int| 0 <= j < leaf_classes(t).len() ==> leaf_classes(t)[j] == c,
    decreases max_depth - depth,
{
    if stops(axises, s, depth, max_depth, min_split, steps) {
        let m = t->Leaf_0;
        lemma_ccount_pos_witness(s, m);
        let w = choose|w: int| 0 <= w < s.len() && s[w].1 == m;
        assert(m == c);
    } else {
        match t {
            DecisionTree::Branch(cr, l, r) => {
                let sl = part(s, cr, true);
                let sr = part(s, cr, false);
                lemma_part_elems(s, cr, true);
                lemma_part_elems(s, cr, false);
                assert forall|i: int| 0 <= i < sl.len() implies (#[trigger] sl[i]).1 == c by {
                    let j = choose|j: int| 0 <= j < s.len() && s[j] == sl[i];
                    assert(s[j].1 == c);
                }
                assert forall|i: int| 0 <= i < sr.len() implies (#[trigger] sr[i]).1 == c by {
                    let j = choose|j: int| 0 <= j < s.len() && s[j] == sr[i];
                    assert(s[j].1 == c);
                }
                lemma_trained_single_class(
                    axises,
                    classes,
                    sl,
                    depth + 1,
                    max_depth,
                    min_split,
                    steps,
                    *l,
                    c,
                );
                lemma_trained_single_class(
                    axises,
                    classes,
                    sr,
                    depth + 1,
                    max_depth,
                    min_split,
                    steps,
                    *r,
                    c,
                );
                assert forall|j: int| 0 <= j < leaf_classes(t).len() implies leaf_classes(t)[j]
                    == c by {
                    let ll = leaf_classes(*l);
                    if j < ll.len() {
                        assert(leaf_classes(t)[j] == ll[j]);
                    } else {
                        assert(leaf_classes(t)[j] == leaf_classes(*r)[j - ll.len()]);
                    }
                }
            },
            _ => {},
        }
    }
}

/// Every leaf class of a trained tree comes from the candidate class list:
/// classification can never emit a class outside the set supplied to
/// training.
pub proof fn lemma_trained_classes(
    axises: Seq<Axis>,
    classes: Seq<Class>,
    s: Seq<(Seq<i64>, Class)>,
    depth: int,
    max_depth: int,
    min_split: int,
    steps: int,
    t: DecisionTree,
)
    requires
        trains(axises, classes, s, depth, max_depth, min_split, steps, t),
        s.len() >= 1,
        labels_in(s, classes),
    ensures
        forall|j: int|
            0 <= j < leaf_classes(t).len() ==> classes.contains(#[trigger] leaf_classes(t)[j]),
    decreases max_depth - depth,
{
    if stops(axises, s, depth, max_depth, min_split, steps) {
        let m = t->Leaf_0;
        lemma_ccount_pos_witness(s, m);
        let w = choose|w: int| 0 <= w < s.len() && s[w].1 == m;
        assert(classes.contains(s[w].1));
    } else {
        match t {
            DecisionTree::Branch(cr, l, r) => {
                let sl = part(s, cr, true);
                let sr = part(s, cr, false);
                lemma_labels_in_part(classes, s, cr, true);
                lemma_labels_in_part(classes, s, cr, false);
                lemma_trained_classes(
                    axises,
                    classes,
                    sl,
                    depth + 1,
                    max_depth,
                    min_split,
                    steps,
                    *l,
                );
                lemma_trained_classes(
                    axises,
                    classes,
                    sr,
                    depth + 1,
                    max_depth,
                    min_split,
                    steps,
                    *r,
                );
                assert forall|j: int| 0 <= j < leaf_classes(t).len() implies classes.contains(
                    #[trigger] leaf_classes(t)[j],
                ) by {
                    let ll = leaf_classes(*l);
                    if j < ll.len() {
                        assert(leaf_classes(t)[j] == ll[j]);
                    } else {
                        assert(leaf_classes(t)[j] == leaf_classes(*r)[j - ll.len()]);
                    }
                }
            },
            _ => {},
        }
    }
}

/// A trained tree only tests axes from the supplied list, so a constant
/// axis that yields no candidate is never referenced by any criterion.
pub proof fn lemma_trained_axes(
    axises: Seq<Axis>,
    classes: Seq<Class>,
    s: Seq<(Seq<i64>, Class)>,
    depth: int,
    max_depth: int,
    min_split: int,
    steps: int,
    t: DecisionTree,
)
    requires
        trains(axises, classes, s, depth, max_depth, min_split, steps, t),
    ensures
        tree_axes_in(t, axises),
    decreases max_depth - depth,
{
    if !stops(axises, s, depth, max_depth, min_split, steps) {
        match t {
            DecisionTree::Branch(cr, l, r) => {
                lemma_trained_axes(
                    axises,
                    classes,
                    part(s, cr, true),
                    depth + 1,
                    max_depth,
                    min_split,
                    steps,
                    *l,
                );
                lemma_trained_axes(
                    axises,
                    classes,
                    part(s, cr, false),
                    depth + 1,
                    max_depth,
                    min_split,
                    steps,
                    *r,
                );
            },
            _ => {},
        }
    }
}

/// Every branch criterion of the tree tests an axis from the given list.
pub open spec fn tree_axes_in(t: DecisionTree, axises: Seq<Axis>) -> bool
    decreases t,
{
    match t {
        DecisionTree::Branch(c, l, r) => axises.contains(c.axis) && tree_axes_in(*l, axises)
            && tree_axes_in(*r, axises),
        DecisionTree::Leaf(_) => true,
    }
}


/// Training is deterministic: the `trains` specification admits exactly one
/// tree for a given slice and configuration, because ties in the split
/// search fall to the first-enumerated candidate and ties in the majority
/// vote fall to the lowest class identifier.
pub proof fn lemma_trains_unique(
    axises: Seq<Axis>,
    classes: Seq<Class>,
    s: Seq<(Seq<i64>, Class)>,
    depth: int,
    max_depth: int,
    min_split: int,
    steps: int,
    t1: DecisionTree,
    t2: DecisionTree,
)
    requires
        trains(axises, classes, s, depth, max_depth, min_split, steps, t1),
        trains(axises, classes, s, depth, max_depth, min_split, steps, t2),
    ensures
        t1 == t2,
    decreases max_depth - depth,
{
    if stops(axises, s, depth, max_depth, min_split, steps) {
        lemma_majority_unique(s, t1->Leaf_0, t2->Leaf_0);
    } else {
        let c1 = t1->Branch_0;
        let c2 = t2->Branch_0;
        assert(c1 == c2) by {
            if c1 != c2 {
                lemma_axis_pos(axises, c1.axis);
                lemma_axis_pos(axises, c2.axis);
                if c1.axis != c2.axis {
                    assert(axises[axis_pos(axises, c1.axis)] == c1.axis);
                    assert(axises[axis_pos(axises, c2.axis)] == c2.axis);
                    assert(axis_pos(axises, c1.axis) != axis_pos(axises, c2.axis));
                    if axis_pos(axises, c1.axis) < axis_pos(axises, c2.axis) {
                        assert(earlier(axises, c1, c2));
                        assert(better(classes, s, c2, c1));
                        assert(!better(classes, s, c2, c1));
                    } else {
                        assert(earlier(axises, c2, c1));
                        assert(better(classes, s, c1, c2));
                        assert(!better(classes, s, c1, c2));
                    }
                } else {
                    if c1.split < c2.split {
                        assert(earlier(axises, c1, c2));
                        assert(better(classes, s, c2, c1));
                        assert(!better(classes, s, c2, c1));
                    } else {
                        assert(earlier(axises, c2, c1));
                        assert(better(classes, s, c1, c2));
                        assert(!better(classes, s, c1, c2));
                    }
                }
            }
        }
        lemma_trains_unique(
            axises,
            classes,
            part(s, c1, true),
            depth + 1,
            max_depth,
            min_split,
            steps,
            *t1->Branch_1,
            *t2->Branch_1,
        );
        lemma_trains_unique(
            axises,
            classes,
            part(s, c1, false),
            depth + 1,
            max_depth,
            min_split,
            steps,
            *t1->Branch_2,
            *t2->Branch_2,
        );
    }
}


/// A tree trained over in-range axes only tests axes below the arity, so
/// classification accepts any point of that arity.
pub proof fn lemma_trained_closed(
    axises: Seq<Axis>,
    classes: Seq<Class>,
    s: Seq<(Seq<i64>, Class)>,
    depth: int,
    max_depth: int,
    min_split: int,
    steps: int,
    t: DecisionTree,
    arity: int,
)
    requires
        trains(axises, classes, s, depth, max_depth, min_split, steps, t),
        forall|k: int| 0 <= k < axises.len() ==> axis_in_range(#[trigger] axises[k], arity),
    ensures
        tree_closed(t, arity),
    decreases max_depth - depth,
{
    if !stops(axises, s, depth, max_depth, min_split, steps) {
        match t {
            DecisionTree::Branch(cr, l, r) => {
                let k = choose|k: int| 0 <= k < axises.len() && axises[k] == cr.axis;
                assert(axis_in_range(axises[k], arity));
                lemma_trained_closed(
                    axises,
                    classes,
                    part(s, cr, true),
                    depth + 1,
                    max_depth,
                    min_split,
                    steps,
                    *l,
                    arity,
                );
                lemma_trained_closed(
                    axises,
                    classes,
                    part(s, cr, false),
                    depth + 1,
                    max_depth,
                    min_split,
                    steps,
                    *r,
                    arity,
                );
            },
            _ => {},
        }
    }
}


/// The slices of `s` that reach each leaf of the tree, left to right: at a
/// branch the slice is bipartitioned by its criterion, at a leaf the whole
/// remaining slice arrives.
pub open spec fn leaf_slices(s: Seq<(Seq<i64>, Class)>, t: DecisionTree) -> Seq<
    Seq<(Seq<i64>, Class)>,
>
    decreases t,
{
    match t {
        DecisionTree::Branch(c, l, r) => leaf_slices(part(s, c, true), *l) + leaf_slices(
            part(s, c, false),
            *r,
        ),
        DecisionTree::Leaf(_) => seq![s],
    }
}

/// The union of a list of slices, as a multiset of labeled points.
pub open spec fn slices_total(ss: Seq<Seq<(Seq<i64>, Class)>>) -> Multiset<(Seq<i64>, Class)>
    decreases ss.len(),
{
    if ss.len() == 0 {
        Multiset::empty()
    } else {
        slices_total(ss.drop_last()).add(ss.last().to_multiset())
    }
}

proof fn lemma_empty_lmset(s: Seq<(Seq<i64>, Class)>)
    requires
        s.len() == 0,
    ensures
        s.to_multiset() =~= Multiset::<(Seq<i64>, Class)>::empty(),
{
    s.to_multiset_ensures();
    assert forall|x: (Seq<i64>, Class)| #[trigger] s.to_multiset().count(x) == 0 by {
        if s.to_multiset().count(x) > 0 {
            assert(s.contains(x));
        }
    }
}

/// One split keeps every labeled point exactly once across its two sides.
pub proof fn lemma_part_mset(s: Seq<(Seq<i64>, Class)>, c: Criterion)
    ensures
        part(s, c, true).to_multiset().add(part(s, c, false).to_multiset()) == s.to_multiset(),
    decreases s.len(),
{
    if s.len() == 0 {
        lemma_empty_lmset(s);
        lemma_empty_lmset(part(s, c, true));
        lemma_empty_lmset(part(s, c, false));
        assert(part(s, c, true).to_multiset().add(part(s, c, false).to_multiset())
            =~= s.to_multiset());
    } else {
        let head = s.drop_last();
        let e = s.last();
        lemma_part_mset(head, c);
        head.to_multiset_ensures();
        part(head, c, true).to_multiset_ensures();
        part(head, c, false).to_multiset_ensures();
        assert(head.push(e) =~= s);
        assert(part(s, c, true).to_multiset().add(part(s, c, false).to_multiset())
            =~= s.to_multiset());
    }
}

proof fn lemma_slices_total_concat(a: Seq<Seq<(Seq<i64>, Class)>>, b: Seq<Seq<(Seq<i64>, Class)>>)
    ensures
        slices_total(a + b) == slices_total(a).add(slices_total(b)),
    decreases b.len(),
{
    if b.len() == 0 {
        assert(a + b =~= a);
        assert(slices_total(a).add(slices_total(b)) =~= slices_total(a));
    } else {
        lemma_slices_total_concat(a, b.drop_last());
        assert(a + b =~= (a + b.drop_last()).push(b.last()));
        assert((a + b.drop_last()).push(b.last()).drop_last() =~= a + b.drop_last());
        assert(slices_total(a + b) =~= slices_total(a).add(slices_total(b)));
    }
}

/// The leaf partitions of a tree over a slice are pairwise disjoint and
/// their union reconstructs the slice exactly: together the per-leaf slices
/// hold every labeled point exactly as often as the slice does, so none is
/// lost or duplicated.  For a trained tree and its training slice this is
/// the partition of the training set induced by the tree's criteria.
pub proof fn lemma_leaf_partition(s: Seq<(Seq<i64>, Class)>, t: DecisionTree)
    ensures
        slices_total(leaf_slices(s, t)) == s.to_multiset(),
        leaf_slices(s, t).len() == leaf_classes(t).len(),
    decreases t,
{
    match t {
        DecisionTree::Branch(c, l, r) => {
            lemma_leaf_partition(part(s, c, true), *l);
            lemma_leaf_partition(part(s, c, false), *r);
            lemma_slices_total_concat(
                leaf_slices(part(s, c, true), *l),
                leaf_slices(part(s, c, false), *r),
            );
            lemma_part_mset(s, c);
        },
        DecisionTree::Leaf(_) => {
            let ss = leaf_slices(s, t);
            assert(ss.drop_last() =~= Seq::<Seq<(Seq<i64>, Class)>>::empty());
            assert(ss.last() == s);
            assert(slices_total(ss.drop_last()) == Multiset::<(Seq<i64>, Class)>::empty());
            assert(slices_total(ss) == slices_total(ss.drop_last()).add(s.to_multiset()));
            assert(slices_total(ss) =~= s.to_multiset());
        },
    }
}

/// Arity of a dataset: the feature count of its first point.
pub open spec fn arity_of(s: Seq<(Seq<i64>, Class)>) -> int {
    s[0].0.len() as int
}

/// Trains a decision tree with explicit stopping knobs and grid resolution.
///
/// The input is rejected before induction begins when the class list or the
/// slice is empty or an axis identifier is out of the dataset's range; the
/// `ensures` states each error exactly.  On success the returned tree
/// satisfies `trains`, which determines it uniquely.
#[verifier::loop_isolation(false)]
pub fn train_with(
    axises: &Vec<Axis>,
    classes: &Vec<Class>,
    vec: Vec<(DataPoint, Class)>,
    max_depth: usize,
    min_elements_to_split: usize,
    steps: usize,
) -> (r: Result<DecisionTree, TrainError>)
    requires
        vec@.len() <= MAX_TRAIN_POINTS,
        1 <= steps <= 0x1000_0000,
        classes@.no_duplicates(),
        axises@.no_duplicates(),
        labels_in(lview(vec@), classes@),
        features_bounded(lview(vec@)),
        arity_is(lview(vec@), arity_of(lview(vec@))),
    ensures
        r is Ok <==> (classes@.len() > 0 && vec@.len() > 0 && (forall|k: int|
            0 <= k < axises@.len() ==> axis_in_range(
                #[trigger] axises@[k],
                arity_of(lview(vec@)),
            ))),
        classes@.len() == 0 ==> r == Result::<DecisionTree, TrainError>::Err(
            TrainError::EmptyClasses,
        ),
        classes@.len() > 0 && vec@.len() == 0 ==> r == Result::<DecisionTree, TrainError>::Err(
            TrainError::EmptyData,
        ),
        classes@.len() > 0 && vec@.len() > 0 && !(forall|k: int|
            0 <= k < axises@.len() ==> axis_in_range(#[trigger] axises@[k], arity_of(lview(vec@))))
            ==> r == Result::<DecisionTree, TrainError>::Err(TrainError::AxisOutOfRange),
        r is Ok ==> trains(
            axises@,
            classes@,
            lview(vec@),
            0,
            max_depth as int,
            min_elements_to_split as int,
            steps as int,
            r->Ok_0,
        ),
        r is Ok ==> tree_closed(r->Ok_0, arity_of(lview(vec@))),
{
    let ghost s = lview(vec@);
    if classes.len() == 0 {
        return Err(TrainError::EmptyClasses);
    }
    if vec.len() == 0 {
        return Err(TrainError::EmptyData);
    }
    let arity = vec[0].0.0.len();
    proof {
        assert(s[0].0 == vec@[0].0@);
        assert(arity as int == arity_of(s));
    }
    let mut k: usize = 0;
    while k < axises.len()
        invariant
            k <= axises@.len(),
            arity as int == arity_of(s),
            forall|kk: int|
                0 <= kk < k ==> axis_in_range(#[trigger] axises@[kk], arity_of(lview(vec@))),
        decreases axises@.len() - k,
    {
        let ax = axises[k];
        if ax.0 < 0 {
            proof {
                assert(!axis_in_range(axises@[k as int], arity_of(lview(vec@))));
            }
            return Err(TrainError::AxisOutOfRange);
        }
        let axu = ax.0 as usize;
        proof {
            assert(axu as int == ax.0 as int);
        }
        if axu >= arity {
            proof {
                assert(!axis_in_range(axises@[k as int], arity_of(lview(vec@))));
            }
            return Err(TrainError::AxisOutOfRange);
        }
        proof {
            assert(axis_in_range(axises@[k as int], arity_of(lview(vec@))));
        }
        k = k + 1;
    }
    proof {
        assert forall|i: int, kk: int|
            #![trigger lview(vec@)[i], axises@[kk]]
            0 <= i < vec@.len() && 0 <= kk < axises@.len() implies axis_in_range(
            axises@[kk],
            lview(vec@)[i].0.len() as int,
        ) by {
            assert(s[i].0.len() == arity_of(s));
            assert(axis_in_range(axises@[kk], arity_of(lview(vec@))));
        }
    }
    let tt = grow(axises, classes, vec, 0, max_depth, min_elements_to_split, steps);
    proof {
        lemma_grows_nonempty(
            axises@,
            classes@,
            s,
            0,
            max_depth as int,
            min_elements_to_split as int,
            steps as int,
            tt,
        );
    }
    let d = DecisionTree::from(tt);
    proof {
        lemma_finalize(
            axises@,
            classes@,
            s,
            0,
            max_depth as int,
            min_elements_to_split as int,
            steps as int,
            tt,
            d,
        );
        lemma_trained_closed(
            axises@,
            classes@,
            s,
            0,
            max_depth as int,
            min_elements_to_split as int,
            steps as int,
            d,
            arity_of(s),
        );
    }
    Ok(d)
}

/// Trains a decision tree with the default knobs: depth at most
/// `MAX_DEPTH`, slices of at most `MIN_ELEMENTS_TO_SPLIT` points become
/// leaves, and `SPLIT_STEPS` grid steps per axis.
pub fn train(
    axises: &Vec<Axis>,
    classes: &Vec<Class>,
    vec: Vec<(DataPoint, Class)>,
) -> (r: Result<DecisionTree, TrainError>)
    requires
        vec@.len() <= MAX_TRAIN_POINTS,
        classes@.no_duplicates(),
        axises@.no_duplicates(),
        labels_in(lview(vec@), classes@),
        features_bounded(lview(vec@)),
        arity_is(lview(vec@), arity_of(lview(vec@))),
    ensures
        r is Ok <==> (classes@.len() > 0 && vec@.len() > 0 && (forall|k: int|
            0 <= k < axises@.len() ==> axis_in_range(
                #[trigger] axises@[k],
                arity_of(lview(vec@)),
            ))),
        classes@.len() == 0 ==> r == Result::<DecisionTree, TrainError>::Err(
            TrainError::EmptyClasses,
        ),
        classes@.len() > 0 && vec@.len() == 0 ==> r == Result::<DecisionTree, TrainError>::Err(
            TrainError::EmptyData,
        ),
        classes@.len() > 0 && vec@.len() > 0 && !(forall|k: int|
            0 <= k < axises@.len() ==> axis_in_range(#[trigger] axises@[k], arity_of(lview(vec@))))
            ==> r == Result::<DecisionTree, TrainError>::Err(TrainError::AxisOutOfRange),
        r is Ok ==> trains(
            axises@,
            classes@,
            lview(vec@),
            0,
            MAX_DEPTH as int,
            MIN_ELEMENTS_TO_SPLIT as int,
            SPLIT_STEPS as int,
            r->Ok_0,
        ),
        r is Ok ==> tree_closed(r->Ok_0, arity_of(lview(vec@))),
{
    train_with(axises, classes, vec, MAX_DEPTH, MIN_ELEMENTS_TO_SPLIT, SPLIT_STEPS)
}


} // verus!
