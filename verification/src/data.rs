//! Opaque identifiers for features and labels, fixed-arity feature vectors,
//! and the split predicate `point[axis] < split`.
//!
//! Feature values are fixed-point integers chosen by the caller (for example
//! thousandths); the engine never interprets the scale, it only compares and
//! subdivides ranges, so all arithmetic stays exact.

use vstd::prelude::*;

verus! {

/// Largest magnitude a feature value may have.  Range arithmetic in the
/// split search (`hi - lo`, stepping past `hi` once) stays inside `i64`
/// under this bound.
pub const FEATURE_LIMIT: i64 = 0x2000_0000_0000_0000;

/// Largest number of labeled points one training run accepts.  Split scores
/// are compared by cross-multiplication, whose products stay inside `u128`
/// under this bound.
pub const MAX_TRAIN_POINTS: usize = 0x100_0000;

/// Opaque integer identifier for one feature column; valid identifiers for a
/// dataset of arity `a` lie in `[0, a)`.
#[derive(Clone, Copy, PartialEq, Eq, Hash, Debug, Structural)]
pub struct Axis(pub i32);

/// Opaque integer identifier for a label category.
#[derive(Clone, Copy, PartialEq, Eq, Hash, Debug, Structural)]
pub struct Class(pub i32);

/// An ordered, fixed-length sequence of fixed-point feature values,
/// indexed by `Axis`.
#[derive(Debug)]
pub struct DataPoint(pub Vec<i64>);

/// The predicate `point[axis] < split`, used to bipartition a slice of
/// points into "left" (predicate true) and "right" (predicate false).
#[derive(Clone, Copy, PartialEq, Eq, Hash, Debug, Structural)]
pub struct Criterion {
    pub axis: Axis,
    pub split: i64,
}

impl Clone for DataPoint {
    fn clone(&self) -> (r: DataPoint)
        ensures
            r@ == self@,
    {
        let mut v: Vec<i64> = Vec::new();
        let mut i: usize = 0;
        while i < self.0.len()
            invariant
                i <= self.0.len(),
                v@ == self.0@.subrange(0, i as int),
            decreases self.0.len() - i,
        {
            v.push(self.0[i]);
            i = i + 1;
        }
        assert(v@ == self.0@);
        DataPoint(v)
    }
}

impl View for DataPoint {
    type V = Seq<i64>;

    open spec fn view(&self) -> Seq<i64> {
        self.0@
    }
}

/// The labeled slice a training run works on, seen abstractly: each element
/// is a feature vector together with its label.
pub open spec fn lview(v: Seq<(DataPoint, Class)>) -> Seq<(Seq<i64>, Class)> {
    v.map_values(|e: (DataPoint, Class)| (e.0@, e.1))
}

/// An unlabeled slice, seen abstractly.
pub open spec fn uview(v: Seq<DataPoint>) -> Seq<Seq<i64>> {
    v.map_values(|p: DataPoint| p@)
}

/// Whether a point falls on the left side of a criterion.
pub open spec fn sat(c: Criterion, p: Seq<i64>) -> bool {
    p[c.axis.0 as int] < c.split
}

/// Every point in the slice has exactly `arity` features.
pub open spec fn arity_is(s: Seq<(Seq<i64>, Class)>, arity: int) -> bool {
    forall|i: int| 0 <= i < s.len() ==> #[trigger] s[i].0.len() == arity
}

/// Every feature value of one point stays within `FEATURE_LIMIT`.
pub open spec fn point_bounded(p: Seq<i64>) -> bool {
    forall|j: int| 0 <= j < p.len() ==> -FEATURE_LIMIT <= #[trigger] p[j] <= FEATURE_LIMIT
}

/// Every feature value in the slice stays within `FEATURE_LIMIT`.
pub open spec fn features_bounded(s: Seq<(Seq<i64>, Class)>) -> bool {
    forall|i: int| #![trigger s[i]] 0 <= i < s.len() ==> point_bounded(s[i].0)
}

/// Every label in the slice comes from `classes`.
pub open spec fn labels_in(s: Seq<(Seq<i64>, Class)>, classes: Seq<Class>) -> bool {
    forall|i: int| 0 <= i < s.len() ==> classes.contains(#[trigger] s[i].1)
}

/// An axis identifier usable on points of the given arity.
pub open spec fn axis_in_range(a: Axis, arity: int) -> bool {
    0 <= a.0 && (a.0 as int) < arity
}

/// The sub-slice of `s` on the chosen side of criterion `c`, in order:
/// the left side when `keep` is true, the right side otherwise.
pub open spec fn part(s: Seq<(Seq<i64>, Class)>, c: Criterion, keep: bool) -> Seq<(Seq<i64>, Class)>
    decreases s.len(),
{
    if s.len() == 0 {
        Seq::empty()
    } else {
        let rest = part(s.drop_last(), c, keep);
        if sat(c, s.last().0) == keep {
            rest.push(s.last())
        } else {
            rest
        }
    }
}

/// The unlabeled counterpart of `part`.
pub open spec fn upart(s: Seq<Seq<i64>>, c: Criterion, keep: bool) -> Seq<Seq<i64>>
    decreases s.len(),
{
    if s.len() == 0 {
        Seq::empty()
    } else {
        let rest = upart(s.drop_last(), c, keep);
        if sat(c, s.last()) == keep {
            rest.push(s.last())
        } else {
            rest
        }
    }
}

/// Both sides of a split together have exactly the elements of `s`.
pub proof fn lemma_part_len(s: Seq<(Seq<i64>, Class)>, c: Criterion)
    ensures
        part(s, c, true).len() + part(s, c, false).len() == s.len(),
        part(s, c, true).len() <= s.len(),
        part(s, c, false).len() <= s.len(),
    decreases s.len(),
{
    if s.len() > 0 {
        lemma_part_len(s.drop_last(), c);
    }
}

/// Every element of a split side comes from `s` and lies on that side.
pub proof fn lemma_part_elems(s: Seq<(Seq<i64>, Class)>, c: Criterion, keep: bool)
    ensures
        forall|i: int|
            0 <= i < part(s, c, keep).len() ==> s.contains(#[trigger] part(s, c, keep)[i]) && sat(
                c,
                part(s, c, keep)[i].0,
            ) == keep,
    decreases s.len(),
{
    if s.len() > 0 {
        let head = s.drop_last();
        lemma_part_elems(head, c, keep);
        assert forall|i: int| 0 <= i < part(s, c, keep).len() implies s.contains(
            #[trigger] part(s, c, keep)[i],
        ) && sat(c, part(s, c, keep)[i].0) == keep by {
            let p = part(s, c, keep);
            if i < part(head, c, keep).len() {
                assert(p[i] == part(head, c, keep)[i]);
                let j = choose|j: int| 0 <= j < head.len() && head[j] == p[i];
                assert(s[j] == p[i]);
            } else {
                assert(p[i] == s.last());
                assert(s[s.len() - 1] == s.last());
            }
        }
    }
}


/// Split sides inherit bounded features.
pub proof fn lemma_part_bounded(s: Seq<(Seq<i64>, Class)>, c: Criterion, keep: bool)
    requires
        features_bounded(s),
    ensures
        features_bounded(part(s, c, keep)),
{
    lemma_part_elems(s, c, keep);
    let p = part(s, c, keep);
    assert forall|i: int| #![trigger p[i]] 0 <= i < p.len() implies point_bounded(p[i].0) by {
        assert(s.contains(p[i]));
        let j = choose|j: int| 0 <= j < s.len() && s[j] == p[i];
        let e = s[j];
        assert(point_bounded(e.0));
    }
}

/// Split sides inherit usable axis identifiers.
pub proof fn lemma_part_in_range(
    s: Seq<(Seq<i64>, Class)>,
    axises: Seq<Axis>,
    c: Criterion,
    keep: bool,
)
    requires
        forall|i: int, k: int|
            #![trigger s[i], axises[k]]
            0 <= i < s.len() && 0 <= k < axises.len() ==> axis_in_range(
                axises[k],
                s[i].0.len() as int,
            ),
    ensures
        forall|i: int, k: int|
            #![trigger part(s, c, keep)[i], axises[k]]
            0 <= i < part(s, c, keep).len() && 0 <= k < axises.len() ==> axis_in_range(
                axises[k],
                part(s, c, keep)[i].0.len() as int,
            ),
{
    lemma_part_elems(s, c, keep);
    let p = part(s, c, keep);
    assert forall|i: int, k: int|
        #![trigger p[i], axises[k]]
        0 <= i < p.len() && 0 <= k < axises.len() implies axis_in_range(
        axises[k],
        p[i].0.len() as int,
    ) by {
        assert(s.contains(p[i]));
        let j = choose|j: int| 0 <= j < s.len() && s[j] == p[i];
        let e = s[j];
        assert(axis_in_range(axises[k], e.0.len() as int));
    }
}


/// Each point appears on its own side of the split.
pub proof fn lemma_upart_mem(s: Seq<Seq<i64>>, c: Criterion, keep: bool, i: int)
    requires
        0 <= i < s.len(),
        sat(c, s[i]) == keep,
    ensures
        upart(s, c, keep).contains(s[i]),
    decreases s.len(),
{
    if i == s.len() - 1 {
        assert(s[i] == s.last());
        let p = upart(s, c, keep);
        assert(p[p.len() - 1] == s.last());
    } else {
        let head = s.drop_last();
        assert(head[i] == s[i]);
        lemma_upart_mem(head, c, keep, i);
        let j = choose|j: int|
            0 <= j < upart(head, c, keep).len() && upart(head, c, keep)[j] == s[i];
        assert(upart(s, c, keep)[j] == s[i]);
    }
}

/// Every element of an unlabeled split side comes from `s` and lies on that
/// side.
pub proof fn lemma_upart_elems(s: Seq<Seq<i64>>, c: Criterion, keep: bool)
    ensures
        forall|i: int|
            0 <= i < upart(s, c, keep).len() ==> s.contains(#[trigger] upart(s, c, keep)[i]) && sat(
                c,
                upart(s, c, keep)[i],
            ) == keep,
    decreases s.len(),
{
    if s.len() > 0 {
        let head = s.drop_last();
        lemma_upart_elems(head, c, keep);
        assert forall|i: int| 0 <= i < upart(s, c, keep).len() implies s.contains(
            #[trigger] upart(s, c, keep)[i],
        ) && sat(c, upart(s, c, keep)[i]) == keep by {
            let p = upart(s, c, keep);
            if i < upart(head, c, keep).len() {
                assert(p[i] == upart(head, c, keep)[i]);
                let j = choose|j: int| 0 <= j < head.len() && head[j] == p[i];
                assert(s[j] == p[i]);
            } else {
                assert(p[i] == s.last());
                assert(s[s.len() - 1] == s.last());
            }
        }
    }
}

impl Criterion {
    /// Bipartitions a labeled slice: points with `point[axis] < split` go
    /// left, the rest go right, both in input order.
    pub fn split(&self, data: &Vec<(DataPoint, Class)>) -> (r: (
        Vec<(DataPoint, Class)>,
        Vec<(DataPoint, Class)>,
    ))
        requires
            forall|i: int|
                0 <= i < data@.len() ==> axis_in_range(self.axis, #[trigger] data@[i].0@.len() as int),
        ensures
            lview(r.0@) == part(lview(data@), *self, true),
            lview(r.1@) == part(lview(data@), *self, false),
    {
        let mut left: Vec<(DataPoint, Class)> = Vec::new();
        let mut right: Vec<(DataPoint, Class)> = Vec::new();
        let mut i: usize = 0;
        while i < data.len()
            invariant
                i <= data.len(),
                forall|k: int|
                    0 <= k < data@.len() ==> axis_in_range(self.axis, #[trigger] data@[k].0@.len() as int),
                lview(left@) == part(lview(data@.subrange(0, i as int)), *self, true),
                lview(right@) == part(lview(data@.subrange(0, i as int)), *self, false),
            decreases data.len() - i,
        {
            let ghost pre = lview(data@.subrange(0, i as int));
            let ghost post = lview(data@.subrange(0, i as int + 1));
            proof {
                assert(data@.subrange(0, i as int + 1).drop_last() =~= data@.subrange(0, i as int));
                assert(post.drop_last() =~= pre);
                assert(post.last() == (data@[i as int].0@, data@[i as int].1));
            }
            let (dp, class) = (&data[i].0, data[i].1);
            if dp.0[self.axis.0 as usize] < self.split {
                let dpc = dp.clone();
                assert(dpc@ == data@[i as int].0@);
                assert(sat(*self, post.last().0));
                left.push((dpc, class));
                proof {
                    assert(lview(left@).last() == post.last());
                    assert(lview(left@).drop_last() =~~= part(pre, *self, true));
                    assert(lview(left@) =~~= part(post, *self, true));
                }
            } else {
                let dpc = dp.clone();
                assert(dpc@ == data@[i as int].0@);
                assert(!sat(*self, post.last().0));
                right.push((dpc, class));
                proof {
                    assert(lview(right@).last() == post.last());
                    assert(lview(right@).drop_last() =~~= part(pre, *self, false));
                    assert(lview(right@) =~~= part(post, *self, false));
                }
            }
            i = i + 1;
        }
        proof {
            assert(data@.subrange(0, data@.len() as int) =~= data@);
        }
        (left, right)
    }

    /// Bipartitions an unlabeled slice the same way.
    pub fn classify(&self, data: &Vec<DataPoint>) -> (r: (Vec<DataPoint>, Vec<DataPoint>))
        requires
            forall|i: int|
                0 <= i < data@.len() ==> axis_in_range(self.axis, #[trigger] data@[i]@.len() as int),
        ensures
            uview(r.0@) == upart(uview(data@), *self, true),
            uview(r.1@) == upart(uview(data@), *self, false),
    {
        let mut left: Vec<DataPoint> = Vec::new();
        let mut right: Vec<DataPoint> = Vec::new();
        let mut i: usize = 0;
        while i < data.len()
            invariant
                i <= data.len(),
                forall|k: int|
                    0 <= k < data@.len() ==> axis_in_range(self.axis, #[trigger] data@[k]@.len() as int),
                uview(left@) == upart(uview(data@.subrange(0, i as int)), *self, true),
                uview(right@) == upart(uview(data@.subrange(0, i as int)), *self, false),
            decreases data.len() - i,
        {
            let ghost pre = uview(data@.subrange(0, i as int));
            let ghost post = uview(data@.subrange(0, i as int + 1));
            proof {
                assert(data@.subrange(0, i as int + 1).drop_last() =~= data@.subrange(0, i as int));
                assert(post.drop_last() =~= pre);
                assert(post.last() == data@[i as int]@);
            }
            let dp = &data[i];
            if dp.0[self.axis.0 as usize] < self.split {
                let dpc = dp.clone();
                assert(dpc@ == data@[i as int]@);
                assert(sat(*self, post.last()));
                left.push(dpc);
                proof {
                    assert(uview(left@).last() == post.last());
                    assert(uview(left@).drop_last() =~~= upart(pre, *self, true));
                    assert(uview(left@) =~~= upart(post, *self, true));
                }
            } else {
                let dpc = dp.clone();
                assert(dpc@ == data@[i as int]@);
                assert(!sat(*self, post.last()));
                right.push(dpc);
                proof {
                    assert(uview(right@).last() == post.last());
                    assert(uview(right@).drop_last() =~~= upart(pre, *self, false));
                    assert(uview(right@) =~~= upart(post, *self, false));
                }
            }
            i = i + 1;
        }
        proof {
            assert(data@.subrange(0, data@.len() as int) =~= data@);
        }
        (left, right)
    }
}

} // verus!
