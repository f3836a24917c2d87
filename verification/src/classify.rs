//! The classifier: routes unlabeled points through a trained tree and
//! groups them by predicted class.
//!
//! At a branch each point follows the side its criterion chooses; at a leaf
//! every arriving point is assigned that leaf's class.  Sibling results are
//! merged by concatenating per-class lists, so a point's position inside its
//! class group may differ from input order, but every input point appears in
//! exactly one group exactly once, the group keys are pairwise distinct, and
//! they are exactly the classes to which at least one input point routes:
//! no group is ever empty.

use vstd::prelude::*;

use vstd::multiset::Multiset;

use crate::data::{
    axis_in_range, labels_in, lemma_upart_elems, lemma_upart_mem, sat, upart, uview, Axis, Class,
    Criterion,
    DataPoint,
};
use crate::tree::{leaf_classes, lemma_trained_classes, trains, tree_closed, DecisionTree};

verus! {

/// The class a point reaches by walking the tree.
pub open spec fn route(t: DecisionTree, p: Seq<i64>) -> Class
    decreases t,
{
    match t {
        DecisionTree::Branch(c, l, r) => if sat(c, p) {
            route(*l, p)
        } else {
            route(*r, p)
        },
        DecisionTree::Leaf(c) => c,
    }
}

/// The points of `s` that route to class `c`, in input order.
pub open spec fn routed(t: DecisionTree, s: Seq<Seq<i64>>, c: Class) -> Seq<Seq<i64>>
    decreases s.len(),
{
    if s.len() == 0 {
        Seq::empty()
    } else {
        let rest = routed(t, s.drop_last(), c);
        if route(t, s.last()) == c {
            rest.push(s.last())
        } else {
            rest
        }
    }
}

/// A grouping seen abstractly: each entry is a class and the points
/// assigned to it.
pub open spec fn rview(g: Seq<(Class, Vec<DataPoint>)>) -> Seq<(Class, Seq<Seq<i64>>)> {
    g.map_values(|e: (Class, Vec<DataPoint>)| (e.0, uview(e.1@)))
}

/// The keys of a grouping, in order.
pub open spec fn gkeys(g: Seq<(Class, Seq<Seq<i64>>)>) -> Seq<Class> {
    g.map_values(|e: (Class, Seq<Seq<i64>>)| e.0)
}

/// All points grouped under class `c`, as a multiset.
pub open spec fn gmset(g: Seq<(Class, Seq<Seq<i64>>)>, c: Class) -> Multiset<Seq<i64>>
    decreases g.len(),
{
    if g.len() == 0 {
        Multiset::empty()
    } else {
        let rest = gmset(g.drop_last(), c);
        if g.last().0 == c {
            rest.add(g.last().1.to_multiset())
        } else {
            rest
        }
    }
}

/// All points of the grouping together, as a multiset.
pub open spec fn total_mset(g: Seq<(Class, Seq<Seq<i64>>)>) -> Multiset<Seq<i64>>
    decreases g.len(),
{
    if g.len() == 0 {
        Multiset::empty()
    } else {
        total_mset(g.drop_last()).add(g.last().1.to_multiset())
    }
}

/// Exact contract of classification: the group keys are pairwise distinct,
/// each group holds exactly the input points that route to its class
/// (order inside a group is free), no group is empty, and every input
/// point's class is keyed -- so the keys are exactly the classes to which
/// at least one input point routes.
pub open spec fn grouping_ok(
    t: DecisionTree,
    s: Seq<Seq<i64>>,
    g: Seq<(Class, Seq<Seq<i64>>)>,
) -> bool {
    &&& gkeys(g).no_duplicates()
    &&& forall|i: int| 0 <= i < g.len() ==> (#[trigger] g[i]).1.len() > 0
    &&& forall|i: int|
        0 <= i < g.len() ==> (#[trigger] g[i]).1.to_multiset() == routed(t, s, g[i].0).to_multiset()
    &&& forall|i: int| 0 <= i < s.len() ==> gkeys(g).contains(route(t, #[trigger] s[i]))
}

/// An empty sequence of points has the empty multiset.
proof fn lemma_empty_seq_mset(s: Seq<Seq<i64>>)
    requires
        s.len() == 0,
    ensures
        s.to_multiset() =~= Multiset::<Seq<i64>>::empty(),
{
    s.to_multiset_ensures();
    assert forall|x: Seq<i64>| #[trigger] s.to_multiset().count(x) == 0 by {
        if s.to_multiset().count(x) > 0 {
            assert(s.contains(x));
        }
    }
}

/// Every point routes to one of the tree's leaf classes.
pub proof fn lemma_route_in_leaves(t: DecisionTree, p: Seq<i64>)
    ensures
        leaf_classes(t).contains(route(t, p)),
    decreases t,
{
    match t {
        DecisionTree::Branch(c, l, r) => {
            let ll = leaf_classes(*l);
            let lr = leaf_classes(*r);
            if sat(c, p) {
                lemma_route_in_leaves(*l, p);
                let i = choose|i: int| 0 <= i < ll.len() && ll[i] == route(*l, p);
                assert(leaf_classes(t)[i] == route(t, p));
            } else {
                lemma_route_in_leaves(*r, p);
                let i = choose|i: int| 0 <= i < lr.len() && lr[i] == route(*r, p);
                assert(leaf_classes(t)[ll.len() + i] == route(t, p));
            }
        },
        DecisionTree::Leaf(_) => {
            assert(leaf_classes(t)[0] == route(t, p));
        },
    }
}

/// When every point of `s` routes to `c`, the routed subsequence is `s`.
pub proof fn lemma_routed_all(t: DecisionTree, s: Seq<Seq<i64>>, c: Class)
    requires
        forall|i: int| 0 <= i < s.len() ==> route(t, #[trigger] s[i]) == c,
    ensures
        routed(t, s, c) == s,
    decreases s.len(),
{
    if s.len() > 0 {
        let head = s.drop_last();
        assert(forall|i: int| 0 <= i < head.len() ==> head[i] == s[i]);
        lemma_routed_all(t, head, c);
        assert(s[s.len() - 1] == s.last());
        assert(head.push(s.last()) =~= s);
    }
}


/// Every routed point comes from the input and routes to that class.
pub proof fn lemma_routed_elems(t: DecisionTree, s: Seq<Seq<i64>>, c: Class)
    ensures
        forall|i: int|
            0 <= i < routed(t, s, c).len() ==> s.contains(#[trigger] routed(t, s, c)[i]) && route(
                t,
                routed(t, s, c)[i],
            ) == c,
    decreases s.len(),
{
    if s.len() > 0 {
        let head = s.drop_last();
        lemma_routed_elems(t, head, c);
        assert forall|i: int| 0 <= i < routed(t, s, c).len() implies s.contains(
            #[trigger] routed(t, s, c)[i],
        ) && route(t, routed(t, s, c)[i]) == c by {
            let p = routed(t, s, c);
            if i < routed(t, head, c).len() {
                assert(p[i] == routed(t, head, c)[i]);
                let j = choose|j: int| 0 <= j < head.len() && head[j] == p[i];
                assert(s[j] == p[i]);
            } else {
                assert(p[i] == s.last());
                assert(s[s.len() - 1] == s.last());
            }
        }
    }
}

/// A keyed class received at least one input point.
pub proof fn lemma_key_has_point(
    t: DecisionTree,
    s: Seq<Seq<i64>>,
    g: Seq<(Class, Seq<Seq<i64>>)>,
    c: Class,
)
    requires
        grouping_ok(t, s, g),
        gkeys(g).contains(c),
    ensures
        exists|j: int| 0 <= j < s.len() && route(t, #[trigger] s[j]) == c,
{
    let i = choose|i: int| 0 <= i < gkeys(g).len() && gkeys(g)[i] == c;
    assert(g[i].0 == c);
    assert(g[i].1.len() > 0);
    g[i].1.to_multiset_ensures();
    routed(t, s, c).to_multiset_ensures();
    assert(routed(t, s, c).len() > 0);
    lemma_routed_elems(t, s, c);
    let p = routed(t, s, c)[0];
    assert(s.contains(p));
    let j = choose|j: int| 0 <= j < s.len() && s[j] == p;
    assert(route(t, s[j]) == c);
}

/// With distinct keys, the per-class multiset is the one entry of that key.
pub proof fn lemma_gmset_entry(g: Seq<(Class, Seq<Seq<i64>>)>, j: int)
    requires
        gkeys(g).no_duplicates(),
        0 <= j < g.len(),
    ensures
        gmset(g, g[j].0) == g[j].1.to_multiset(),
    decreases g.len(),
{
    let head = g.drop_last();
    assert(gkeys(head) =~= gkeys(g).drop_last());
    assert(gkeys(head).no_duplicates());
    if j == g.len() - 1 {
        assert(g[j] == g.last());
        assert(!gkeys(head).contains(g.last().0)) by {
            if gkeys(head).contains(g.last().0) {
                let i = choose|i: int|
                    0 <= i < gkeys(head).len() && gkeys(head)[i] == g.last().0;
                assert(gkeys(g)[i] == gkeys(g)[g.len() - 1]);
            }
        }
        lemma_gmset_absent(head, g.last().0);
        assert(gmset(g, g[j].0) =~= g[j].1.to_multiset());
    } else {
        assert(head[j] == g[j]);
        lemma_gmset_entry(head, j);
        assert(gkeys(g)[j] == g[j].0);
        assert(gkeys(g)[g.len() - 1] == g.last().0);
        assert(g.last().0 != g[j].0);
    }
}

/// A class that keys no entry groups no points.
pub proof fn lemma_gmset_absent(g: Seq<(Class, Seq<Seq<i64>>)>, c: Class)
    requires
        !gkeys(g).contains(c),
    ensures
        gmset(g, c) == Multiset::<Seq<i64>>::empty(),
    decreases g.len(),
{
    if g.len() > 0 {
        let head = g.drop_last();
        assert(gkeys(head) =~= gkeys(g).drop_last());
        assert forall|i: int| 0 <= i < gkeys(head).len() implies gkeys(head)[i] != c by {
            assert(gkeys(g)[i] == gkeys(head)[i]);
        }
        lemma_gmset_absent(head, c);
        assert(gkeys(g)[g.len() - 1] == g.last().0);
        assert(g.last().0 != c);
    }
}

/// Under `grouping_ok`, grouping by class agrees with routing by class for
/// every class, keyed or not.
pub proof fn lemma_gmset_routed(
    t: DecisionTree,
    s: Seq<Seq<i64>>,
    g: Seq<(Class, Seq<Seq<i64>>)>,
    c: Class,
)
    requires
        grouping_ok(t, s, g),
    ensures
        gmset(g, c) == routed(t, s, c).to_multiset(),
{
    if gkeys(g).contains(c) {
        let j = choose|j: int| 0 <= j < gkeys(g).len() && gkeys(g)[j] == c;
        assert(g[j].0 == c);
        lemma_gmset_entry(g, j);
        assert(g[j].1.to_multiset() == routed(t, s, g[j].0).to_multiset());
    } else {
        lemma_gmset_absent(g, c);
        assert(routed(t, s, c).len() == 0) by {
            if routed(t, s, c).len() > 0 {
                lemma_routed_elems(t, s, c);
                let p = routed(t, s, c)[0];
                assert(s.contains(p));
                let j = choose|j: int| 0 <= j < s.len() && s[j] == p;
                assert(gkeys(g).contains(route(t, s[j])));
            }
        }
        lemma_empty_seq_mset(routed(t, s, c));
    }
}

/// Two groupings of the same input through the same tree are identical:
/// same key set and, class for class, the same multiset of points.
pub proof fn lemma_classify_deterministic(
    t: DecisionTree,
    s: Seq<Seq<i64>>,
    g1: Seq<(Class, Seq<Seq<i64>>)>,
    g2: Seq<(Class, Seq<Seq<i64>>)>,
)
    requires
        grouping_ok(t, s, g1),
        grouping_ok(t, s, g2),
    ensures
        gkeys(g1).to_set() == gkeys(g2).to_set(),
        forall|c: Class| #[trigger] gmset(g1, c) == gmset(g2, c),
{
    assert forall|c: Class| #[trigger] gmset(g1, c) == gmset(g2, c) by {
        lemma_gmset_routed(t, s, g1, c);
        lemma_gmset_routed(t, s, g2, c);
    }
    assert(gkeys(g1).to_set() =~= gkeys(g2).to_set()) by {
        assert forall|c: Class| #[trigger] gkeys(g1).to_set().contains(c) implies gkeys(
            g2,
        ).to_set().contains(c) by {
            lemma_key_has_point(t, s, g1, c);
            let j = choose|j: int| 0 <= j < s.len() && route(t, #[trigger] s[j]) == c;
            assert(gkeys(g2).contains(route(t, s[j])));
        }
        assert forall|c: Class| #[trigger] gkeys(g2).to_set().contains(c) implies gkeys(
            g1,
        ).to_set().contains(c) by {
            lemma_key_has_point(t, s, g2, c);
            let j = choose|j: int| 0 <= j < s.len() && route(t, #[trigger] s[j]) == c;
            assert(gkeys(g1).contains(route(t, s[j])));
        }
    }
}

/// Sum of the routed multisets over a duplicate-free key list that covers
/// every point's route: exactly the input multiset.
proof fn lemma_routed_total(t: DecisionTree, s: Seq<Seq<i64>>, keys: Seq<Class>)
    requires
        keys.no_duplicates(),
        forall|i: int| 0 <= i < s.len() ==> keys.contains(route(t, #[trigger] s[i])),
    ensures
        routed_total(t, s, keys) == s.to_multiset(),
    decreases s.len(),
{
    if s.len() == 0 {
        lemma_routed_total_empty(t, s, keys);
        lemma_empty_seq_mset(s);
    } else {
        let head = s.drop_last();
        let p = s.last();
        assert(forall|i: int| 0 <= i < head.len() ==> head[i] == s[i]);
        lemma_routed_total(t, head, keys);
        assert(s[s.len() - 1] == p);
        assert(keys.contains(route(t, p)));
        lemma_routed_total_push(t, head, keys, p);
        assert(head.push(p) =~= s);
        assert(head.push(p).to_multiset() =~= head.to_multiset().insert(p)) by {
            head.to_multiset_ensures();
        }
    }
}

/// Sum of the routed multisets over `keys`.
spec fn routed_total(t: DecisionTree, s: Seq<Seq<i64>>, keys: Seq<Class>) -> Multiset<Seq<i64>>
    decreases keys.len(),
{
    if keys.len() == 0 {
        Multiset::empty()
    } else {
        routed_total(t, s, keys.drop_last()).add(routed(t, s, keys.last()).to_multiset())
    }
}

proof fn lemma_routed_total_empty(t: DecisionTree, s: Seq<Seq<i64>>, keys: Seq<Class>)
    requires
        s.len() == 0,
    ensures
        routed_total(t, s, keys) == Multiset::<Seq<i64>>::empty(),
    decreases keys.len(),
{
    if keys.len() > 0 {
        lemma_routed_total_empty(t, s, keys.drop_last());
        lemma_empty_seq_mset(routed(t, s, keys.last()));
        assert(routed_total(t, s, keys) =~= Multiset::<Seq<i64>>::empty());
    }
}

/// Appending one point adds it to exactly the group of its route.
proof fn lemma_routed_total_push(
    t: DecisionTree,
    s: Seq<Seq<i64>>,
    keys: Seq<Class>,
    p: Seq<i64>,
)
    requires
        keys.no_duplicates(),
        keys.contains(route(t, p)),
    ensures
        routed_total(t, s.push(p), keys) == routed_total(t, s, keys).insert(p),
    decreases keys.len(),
{
    let head = keys.drop_last();
    assert(head.no_duplicates());
    let c = keys.last();
    assert(s.push(p).drop_last() =~= s);
    assert(s.push(p).last() == p);
    if route(t, p) == c {
        assert(!head.contains(route(t, p))) by {
            if head.contains(route(t, p)) {
                let i = choose|i: int| 0 <= i < head.len() && head[i] == route(t, p);
                assert(keys[i] == keys[keys.len() - 1]);
            }
        }
        lemma_routed_total_stable(t, s, head, p);
        assert(routed(t, s.push(p), c) == routed(t, s, c).push(p));
        assert(routed(t, s, c).push(p).to_multiset() =~= routed(t, s, c).to_multiset().insert(p))
            by {
            routed(t, s, c).to_multiset_ensures();
        }
        assert(routed_total(t, s.push(p), keys) =~= routed_total(t, s, keys).insert(p));
    } else {
        assert(head.contains(route(t, p))) by {
            let i = choose|i: int| 0 <= i < keys.len() && keys[i] == route(t, p);
            assert(head[i] == route(t, p));
        }
        lemma_routed_total_push(t, s, head, p);
        assert(routed(t, s.push(p), c) == routed(t, s, c));
        assert(routed_total(t, s.push(p), keys) =~= routed_total(t, s, keys).insert(p));
    }
}

/// Appending a point leaves every group it does not route to unchanged.
proof fn lemma_routed_total_stable(
    t: DecisionTree,
    s: Seq<Seq<i64>>,
    keys: Seq<Class>,
    p: Seq<i64>,
)
    requires
        !keys.contains(route(t, p)),
    ensures
        routed_total(t, s.push(p), keys) == routed_total(t, s, keys),
    decreases keys.len(),
{
    if keys.len() > 0 {
        let head = keys.drop_last();
        assert forall|i: int| 0 <= i < head.len() implies head[i] != route(t, p) by {
            assert(keys[i] == head[i]);
        }
        lemma_routed_total_stable(t, s, head, p);
        let c = keys.last();
        assert(keys[keys.len() - 1] == c);
        assert(c != route(t, p));
        assert(s.push(p).drop_last() =~= s);
        assert(s.push(p).last() == p);
        assert(routed(t, s.push(p), c) == routed(t, s, c));
    }
}

/// The grouping's per-entry multisets add up over its key list.
proof fn lemma_total_is_routed_total(
    t: DecisionTree,
    s: Seq<Seq<i64>>,
    g: Seq<(Class, Seq<Seq<i64>>)>,
)
    requires
        forall|i: int|
            0 <= i < g.len() ==> (#[trigger] g[i]).1.to_multiset() == routed(
                t,
                s,
                g[i].0,
            ).to_multiset(),
    ensures
        total_mset(g) == routed_total(t, s, gkeys(g)),
    decreases g.len(),
{
    if g.len() > 0 {
        let head = g.drop_last();
        assert(forall|i: int| 0 <= i < head.len() ==> head[i] == g[i]);
        lemma_total_is_routed_total(t, s, head);
        assert(gkeys(head) =~= gkeys(g).drop_last());
        assert(gkeys(g).last() == g.last().0);
        assert(g[g.len() - 1] == g.last());
    }
}

/// The leaf partitions are pairwise disjoint and their union is exactly the
/// input: every point appears in exactly one group exactly once.
pub proof fn lemma_grouping_partitions(
    t: DecisionTree,
    s: Seq<Seq<i64>>,
    g: Seq<(Class, Seq<Seq<i64>>)>,
)
    requires
        grouping_ok(t, s, g),
    ensures
        total_mset(g) == s.to_multiset(),
        forall|c1: Class, c2: Class|
            #![trigger gmset(g, c1), gmset(g, c2)]
            c1 != c2 ==> gmset(g, c1).intersection_with(gmset(g, c2)) =~= Multiset::<
                Seq<i64>,
            >::empty(),
{
    lemma_total_is_routed_total(t, s, g);
    lemma_routed_total(t, s, gkeys(g));
    assert forall|c1: Class, c2: Class|
        #![trigger gmset(g, c1), gmset(g, c2)]
        c1 != c2 implies gmset(g, c1).intersection_with(gmset(g, c2)) =~= Multiset::<
        Seq<i64>,
    >::empty() by {
        lemma_gmset_routed(t, s, g, c1);
        lemma_gmset_routed(t, s, g, c2);
        assert forall|p: Seq<i64>|
            #[trigger] gmset(g, c1).intersection_with(gmset(g, c2)).count(p) == 0 by {
            vstd::multiset::lemma_intersection_count(gmset(g, c1), gmset(g, c2), p);
            if route(t, p) == c1 {
                lemma_routed_count(t, s, c2, p);
            } else {
                lemma_routed_count(t, s, c1, p);
            }
        }
    }
}

/// A point only counts toward the group of its own route.
proof fn lemma_routed_count(t: DecisionTree, s: Seq<Seq<i64>>, c: Class, p: Seq<i64>)
    requires
        route(t, p) != c,
    ensures
        routed(t, s, c).to_multiset().count(p) == 0,
    decreases s.len(),
{
    if s.len() == 0 {
        lemma_empty_seq_mset(routed(t, s, c));
    } else {
        lemma_routed_count(t, s.drop_last(), c, p);
        let rest = routed(t, s.drop_last(), c);
        if route(t, s.last()) == c {
            assert(s.last() != p);
            assert(rest.push(s.last()).to_multiset() =~= rest.to_multiset().insert(s.last())) by {
                rest.to_multiset_ensures();
            }
        }
    }
}


/// Concatenation adds multisets.
proof fn lemma_mset_concat(a: Seq<Seq<i64>>, b: Seq<Seq<i64>>)
    ensures
        (a + b).to_multiset() == a.to_multiset().add(b.to_multiset()),
    decreases b.len(),
{
    if b.len() == 0 {
        assert(a + b =~= a);
        lemma_empty_seq_mset(b);
        assert(a.to_multiset().add(b.to_multiset()) =~= a.to_multiset());
    } else {
        lemma_mset_concat(a, b.drop_last());
        assert(a + b =~= (a + b.drop_last()).push(b.last()));
        (a + b.drop_last()).to_multiset_ensures();
        b.drop_last().to_multiset_ensures();
        assert(b.drop_last().push(b.last()) =~= b);
        assert((a + b).to_multiset() =~= a.to_multiset().add(b.to_multiset()));
    }
}

/// Routing through a branch distributes over its partition.
proof fn lemma_routed_split(t: DecisionTree, s: Seq<Seq<i64>>, c: Class)
    requires
        t is Branch,
    ensures
        routed(t, s, c).to_multiset() == routed(
            *t->Branch_1,
            upart(s, t->Branch_0, true),
            c,
        ).to_multiset().add(routed(*t->Branch_2, upart(s, t->Branch_0, false), c).to_multiset()),
    decreases s.len(),
{
    let cr = t->Branch_0;
    let lt = *t->Branch_1;
    let rt = *t->Branch_2;
    if s.len() == 0 {
        lemma_empty_seq_mset(routed(t, s, c));
        lemma_empty_seq_mset(routed(lt, upart(s, cr, true), c));
        lemma_empty_seq_mset(routed(rt, upart(s, cr, false), c));
        assert(routed(t, s, c).to_multiset() =~= routed(lt, upart(s, cr, true), c).to_multiset().add(
            routed(rt, upart(s, cr, false), c).to_multiset(),
        ));
    } else {
        let head = s.drop_last();
        let p = s.last();
        lemma_routed_split(t, head, c);
        let xl = upart(head, cr, true);
        let xr = upart(head, cr, false);
        routed(t, head, c).to_multiset_ensures();
        routed(lt, xl, c).to_multiset_ensures();
        routed(rt, xr, c).to_multiset_ensures();
        if sat(cr, p) {
            assert(upart(s, cr, true) == xl.push(p));
            assert(upart(s, cr, false) == xr);
            assert(xl.push(p).drop_last() =~= xl);
            assert(xl.push(p).last() == p);
            if route(lt, p) == c {
                assert(routed(lt, xl.push(p), c) == routed(lt, xl, c).push(p));
                assert(routed(t, s, c) == routed(t, head, c).push(p));
            } else {
                assert(routed(lt, xl.push(p), c) == routed(lt, xl, c));
                assert(routed(t, s, c) == routed(t, head, c));
            }
        } else {
            assert(upart(s, cr, false) == xr.push(p));
            assert(upart(s, cr, true) == xl);
            assert(xr.push(p).drop_last() =~= xr);
            assert(xr.push(p).last() == p);
            if route(rt, p) == c {
                assert(routed(rt, xr.push(p), c) == routed(rt, xr, c).push(p));
                assert(routed(t, s, c) == routed(t, head, c).push(p));
            } else {
                assert(routed(rt, xr.push(p), c) == routed(rt, xr, c));
                assert(routed(t, s, c) == routed(t, head, c));
            }
        }
        assert(routed(t, s, c).to_multiset() =~= routed(lt, upart(s, cr, true), c).to_multiset().add(
            routed(rt, upart(s, cr, false), c).to_multiset(),
        ));
    }
}

/// Whether some group in `g` is keyed by `c`.
fn contains_key(g: &Vec<(Class, Vec<DataPoint>)>, c: Class) -> (b: bool)
    ensures
        b == gkeys(rview(g@)).contains(c),
{
    let mut i: usize = 0;
    while i < g.len()
        invariant
            i <= g@.len(),
            forall|j: int| 0 <= j < i ==> gkeys(rview(g@))[j] != c,
        decreases g@.len() - i,
    {
        if g[i].0 == c {
            proof {
                assert(gkeys(rview(g@))[i as int] == c);
            }
            return true;
        }
        proof {
            assert(gkeys(rview(g@))[i as int] == g@[i as int].0);
        }
        i = i + 1;
    }
    proof {
        if gkeys(rview(g@)).contains(c) {
            let j = choose|j: int| 0 <= j < gkeys(rview(g@)).len() && gkeys(rview(g@))[j] == c;
        }
    }
    false
}

/// Copies every point grouped under `c` out of `g`.
#[verifier::loop_isolation(false)]
fn take_group(g: &Vec<(Class, Vec<DataPoint>)>, c: Class) -> (r: Vec<DataPoint>)
    ensures
        uview(r@).to_multiset() == gmset(rview(g@), c),
{
    let mut r: Vec<DataPoint> = Vec::new();
    proof {
        lemma_empty_seq_mset(uview(r@));
        lemma_gmset_prefix_empty(rview(g@));
    }
    let mut i: usize = 0;
    while i < g.len()
        invariant
            i <= g@.len(),
            uview(r@).to_multiset() == gmset(rview(g@).subrange(0, i as int), c),
        decreases g@.len() - i,
    {
        let ghost pre = rview(g@).subrange(0, i as int);
        let ghost post = rview(g@).subrange(0, i as int + 1);
        proof {
            assert(post.drop_last() =~= pre);
            assert(post.last() == rview(g@)[i as int]);
            assert(rview(g@)[i as int] == (g@[i as int].0, uview(g@[i as int].1@)));
        }
        if g[i].0 == c {
            let entry = &g[i].1;
            proof {
                lemma_empty_seq_mset(uview(entry@.subrange(0, 0)));
                assert(uview(r@).to_multiset() =~= gmset(rview(g@).subrange(0, i as int), c).add(
                    uview(entry@.subrange(0, 0)).to_multiset(),
                ));
            }
            let mut j: usize = 0;
            while j < entry.len()
                invariant
                    j <= entry@.len(),
                    uview(r@).to_multiset() == gmset(rview(g@).subrange(0, i as int), c).add(
                        uview(entry@.subrange(0, j as int)).to_multiset(),
                    ),
                decreases entry@.len() - j,
            {
                let ghost upre = uview(entry@.subrange(0, j as int));
                let ghost upost = uview(entry@.subrange(0, j as int + 1));
                proof {
                    assert(entry@.subrange(0, j as int + 1).drop_last() =~= entry@.subrange(
                        0,
                        j as int,
                    ));
                    assert(upost.drop_last() =~= upre);
                    assert(upost.last() == entry@[j as int]@);
                    upre.to_multiset_ensures();
                }
                let ghost rv = uview(r@);
                let dp = entry[j].clone();
                proof {
                    assert(dp@ == entry@[j as int]@);
                }
                r.push(dp);
                proof {
                    assert(uview(r@) =~~= rv.push(dp@));
                    rv.to_multiset_ensures();
                    assert(upost =~~= upre.push(upost.last()));
                    assert(gmset(rview(g@).subrange(0, i as int), c).add(upost.to_multiset())
                        =~= rv.to_multiset().insert(dp@));
                }
                j = j + 1;
            }
            proof {
                assert(entry@.subrange(0, entry@.len() as int) =~= entry@);
                assert(uview(entry@) == post.last().1);
                assert(gmset(post, c) == gmset(pre, c).add(post.last().1.to_multiset()));
            }
        } else {
            proof {
                assert(post.last().0 != c);
                assert(gmset(post, c) == gmset(pre, c));
            }
        }
        i = i + 1;
    }
    proof {
        assert(rview(g@).subrange(0, g@.len() as int) =~= rview(g@));
    }
    r
}

/// An empty prefix groups nothing.
proof fn lemma_gmset_prefix_empty(g: Seq<(Class, Seq<Seq<i64>>)>)
    ensures
        forall|c: Class| #[trigger] gmset(g.subrange(0, 0), c) == Multiset::<Seq<i64>>::empty(),
{
    assert forall|c: Class| #[trigger] gmset(g.subrange(0, 0), c) == Multiset::<
        Seq<i64>,
    >::empty() by {
        assert(g.subrange(0, 0).len() == 0);
    }
}


/// Merges sibling groupings by concatenating per-class lists.  Keys stay
/// pairwise distinct, the key set becomes the union, and the points grouped
/// under each class become the sum of both sides' groups.
#[verifier::loop_isolation(false)]
fn merge_result(
    left: Vec<(Class, Vec<DataPoint>)>,
    right: Vec<(Class, Vec<DataPoint>)>,
) -> (out: Vec<(Class, Vec<DataPoint>)>)
    requires
        gkeys(rview(left@)).no_duplicates(),
        gkeys(rview(right@)).no_duplicates(),
        forall|k: int| 0 <= k < left@.len() ==> (#[trigger] rview(left@)[k]).1.len() > 0,
        forall|k: int| 0 <= k < right@.len() ==> (#[trigger] rview(right@)[k]).1.len() > 0,
    ensures
        gkeys(rview(out@)).no_duplicates(),
        gkeys(rview(out@)).to_set() == gkeys(rview(left@)).to_set().union(
            gkeys(rview(right@)).to_set(),
        ),
        forall|k: int| 0 <= k < out@.len() ==> (#[trigger] rview(out@)[k]).1.len() > 0,
        forall|c: Class|
            #[trigger] gmset(rview(out@), c) == gmset(rview(left@), c).add(gmset(rview(right@), c)),
{
    let ghost lv = rview(left@);
    let ghost rv = rview(right@);
    let mut out: Vec<(Class, Vec<DataPoint>)> = Vec::new();
    let mut i: usize = 0;
    while i < left.len()
        invariant
            i <= left@.len(),
            gkeys(rview(out@)) == gkeys(lv).subrange(0, i as int),
            forall|k: int| 0 <= k < out@.len() ==> (#[trigger] rview(out@)[k]).1.len() > 0,
            forall|k: int|
                0 <= k < out@.len() ==> (#[trigger] rview(out@)[k]).0 == lv[k].0 && rview(
                    out@,
                )[k].1.to_multiset() == gmset(lv, lv[k].0).add(gmset(rv, lv[k].0)),
        decreases left@.len() - i,
    {
        let c = left[i].0;
        proof {
            assert(lv[i as int].0 == c);
        }
        let mut v = take_group(&left, c);
        let mut vr = take_group(&right, c);
        let ghost va = uview(v@);
        let ghost vb = uview(vr@);
        let ghost prev = rview(out@);
        v.append(&mut vr);
        proof {
            assert(uview(v@) =~~= va + vb);
            lemma_mset_concat(va, vb);
            assert(gkeys(lv)[i as int] == c);
            lemma_gmset_entry(lv, i as int);
            assert(lv[i as int].1.len() > 0);
            lv[i as int].1.to_multiset_ensures();
            va.to_multiset_ensures();
            assert(va.to_multiset().len() > 0);
            assert(va.len() > 0);
            assert(uview(v@).len() > 0);
        }
        out.push((c, v));
        proof {
            assert(rview(out@) =~~= prev.push((c, va + vb)));
            assert(gkeys(rview(out@)) =~= gkeys(lv).subrange(0, i as int + 1));
            assert forall|k: int|
                0 <= k < out@.len() implies (#[trigger] rview(out@)[k]).0 == lv[k].0 && rview(
                out@,
            )[k].1.to_multiset() == gmset(lv, lv[k].0).add(gmset(rv, lv[k].0)) by {
                if k < prev.len() {
                    assert(rview(out@)[k] == prev[k]);
                } else {
                    assert(rview(out@)[k] == (c, va + vb));
                }
            }
        }
        i = i + 1;
    }
    proof {
        assert(gkeys(lv).subrange(0, lv.len() as int) =~= gkeys(lv));
        assert(gkeys(rview(out@)) == gkeys(lv));
        assert forall|k: int|
            0 <= k < out@.len() implies (gkeys(lv).contains((#[trigger] rview(out@)[k]).0)
                || gkeys(rv).contains(rview(out@)[k].0)) && rview(out@)[k].1.to_multiset()
                == gmset(lv, rview(out@)[k].0).add(gmset(rv, rview(out@)[k].0)) by {
            assert(gkeys(lv)[k] == lv[k].0);
            assert(rview(out@)[k].0 == lv[k].0);
        }
    }
    let mut j: usize = 0;
    while j < right.len()
        invariant
            j <= right@.len(),
            gkeys(rview(out@)).no_duplicates(),
            forall|k: int| 0 <= k < out@.len() ==> (#[trigger] rview(out@)[k]).1.len() > 0,
            forall|k: int|
                0 <= k < out@.len() ==> (gkeys(lv).contains((#[trigger] rview(out@)[k]).0)
                    || gkeys(rv).contains(rview(out@)[k].0)) && rview(out@)[k].1.to_multiset()
                    == gmset(lv, rview(out@)[k].0).add(gmset(rv, rview(out@)[k].0)),
            forall|c: Class|
                #[trigger] gkeys(lv).contains(c) ==> gkeys(rview(out@)).contains(c),
            forall|jj: int|
                0 <= jj < j ==> gkeys(rview(out@)).contains((#[trigger] rv[jj]).0),
            forall|jj: int|
                j <= jj < rv.len() ==> (gkeys(rview(out@)).contains((#[trigger] rv[jj]).0)
                    ==> gkeys(lv).contains(rv[jj].0)),
        decreases right@.len() - j,
    {
        let c = right[j].0;
        proof {
            assert(rv[j as int].0 == c);
        }
        if !contains_key(&left, c) {
            let v = take_group(&right, c);
            let ghost prev = rview(out@);
            proof {
                assert(!gkeys(rview(out@)).contains(c));
                lemma_gmset_absent(lv, c);
                assert(gkeys(rv)[j as int] == c);
                lemma_gmset_entry(rv, j as int);
                assert(rv[j as int].1.len() > 0);
                rv[j as int].1.to_multiset_ensures();
                uview(v@).to_multiset_ensures();
                assert(uview(v@).to_multiset().len() > 0);
                assert(uview(v@).len() > 0);
            }
            out.push((c, v));
            proof {
                assert(rview(out@) =~~= prev.push((c, uview(v@))));
                assert(gkeys(rview(out@)) =~= gkeys(prev).push(c));
                assert forall|k: int|
                    0 <= k < gkeys(rview(out@)).len() && gkeys(rview(out@))[k] == c implies k
                    == gkeys(rview(out@)).len() - 1 by {
                    if k < gkeys(prev).len() {
                        assert(gkeys(prev)[k] == c);
                    }
                }
                assert(gkeys(rview(out@)).no_duplicates()) by {
                    assert forall|a: int, b: int|
                        0 <= a < b < gkeys(rview(out@)).len() implies gkeys(rview(out@))[a]
                        != gkeys(rview(out@))[b] by {
                        if b < gkeys(prev).len() {
                            assert(gkeys(prev)[a] == gkeys(rview(out@))[a]);
                            assert(gkeys(prev)[b] == gkeys(rview(out@))[b]);
                        } else {
                            assert(gkeys(rview(out@))[b] == c);
                            assert(gkeys(prev)[a] == gkeys(rview(out@))[a]);
                            if gkeys(rview(out@))[a] == c {
                                assert(gkeys(prev).contains(c));
                            }
                        }
                    }
                }
                assert(gmset(lv, c).add(gmset(rv, c)) =~= uview(v@).to_multiset());
                assert forall|k: int|
                    0 <= k < out@.len() implies (gkeys(lv).contains(
                    (#[trigger] rview(out@)[k]).0,
                ) || gkeys(rv).contains(rview(out@)[k].0)) && rview(out@)[k].1.to_multiset()
                    == gmset(lv, rview(out@)[k].0).add(gmset(rv, rview(out@)[k].0)) by {
                    if k < prev.len() {
                        assert(rview(out@)[k] == prev[k]);
                    } else {
                        assert(rview(out@)[k] == (c, uview(v@)));
                        assert(gkeys(rv)[j as int] == c);
                    }
                }
                assert forall|c2: Class| #[trigger] gkeys(lv).contains(c2) implies gkeys(
                    rview(out@),
                ).contains(c2) by {
                    let k = choose|k: int|
                        0 <= k < gkeys(prev).len() && gkeys(prev)[k] == c2;
                    assert(gkeys(rview(out@))[k] == c2);
                }
                assert forall|jj: int| 0 <= jj < j + 1 implies gkeys(rview(out@)).contains(
                    (#[trigger] rv[jj]).0,
                ) by {
                    if jj < j as int {
                        let k = choose|k: int|
                            0 <= k < gkeys(prev).len() && gkeys(prev)[k] == rv[jj].0;
                        assert(gkeys(rview(out@))[k] == rv[jj].0);
                    } else {
                        assert(gkeys(rview(out@))[gkeys(rview(out@)).len() - 1] == c);
                    }
                }
                assert forall|jj: int|
                    j + 1 <= jj < rv.len() && gkeys(rview(out@)).contains(
                        (#[trigger] rv[jj]).0,
                    ) implies gkeys(lv).contains(rv[jj].0) by {
                    let k = choose|k: int|
                        0 <= k < gkeys(rview(out@)).len() && gkeys(rview(out@))[k] == rv[jj].0;
                    assert(gkeys(rv)[jj] == rv[jj].0);
                    assert(gkeys(rv)[j as int] == c);
                    if k < gkeys(prev).len() {
                        assert(gkeys(prev)[k] == rv[jj].0);
                    } else {
                        assert(rv[jj].0 == c);
                    }
                }
            }
        } else {
            proof {
                assert(gkeys(rview(out@)).contains(c));
            }
        }
        j = j + 1;
    }
    proof {
        assert(gkeys(rview(out@)).to_set() =~= gkeys(lv).to_set().union(gkeys(rv).to_set())) by {
            assert forall|c: Class| #[trigger] gkeys(rview(out@)).to_set().contains(c) implies
                gkeys(lv).to_set().contains(c) || gkeys(rv).to_set().contains(c) by {
                let k = choose|k: int|
                    0 <= k < gkeys(rview(out@)).len() && gkeys(rview(out@))[k] == c;
                assert(rview(out@)[k].0 == c);
            }
            assert forall|c: Class|
                gkeys(lv).to_set().contains(c) || gkeys(rv).to_set().contains(c) implies #[trigger]
                gkeys(rview(out@)).to_set().contains(c) by {
                if gkeys(rv).contains(c) && !gkeys(lv).contains(c) {
                    let jj = choose|jj: int|
                        0 <= jj < gkeys(rv).len() && gkeys(rv)[jj] == c;
                    assert(rv[jj].0 == c);
                    assert(gkeys(rview(out@)).contains(rv[jj].0));
                }
            }
        }
        assert forall|c: Class|
            #[trigger] gmset(rview(out@), c) == gmset(lv, c).add(gmset(rv, c)) by {
            if gkeys(rview(out@)).contains(c) {
                let k = choose|k: int|
                    0 <= k < gkeys(rview(out@)).len() && gkeys(rview(out@))[k] == c;
                assert(rview(out@)[k].0 == c);
                lemma_gmset_entry(rview(out@), k);
            } else {
                lemma_gmset_absent(rview(out@), c);
                assert(!gkeys(lv).contains(c));
                assert(!gkeys(rv).contains(c)) by {
                    if gkeys(rv).contains(c) {
                        let jj = choose|jj: int|
                            0 <= jj < gkeys(rv).len() && gkeys(rv)[jj] == c;
                        assert(rv[jj].0 == c);
                        assert(gkeys(rview(out@)).contains(rv[jj].0));
                    }
                }
                lemma_gmset_absent(lv, c);
                lemma_gmset_absent(rv, c);
                assert(gmset(lv, c).add(gmset(rv, c)) =~= Multiset::<Seq<i64>>::empty());
            }
        }
    }
    out
}


/// Routes every point through the tree and groups the points by the class
/// of the leaf each one reaches.
///
/// The result's keys are pairwise distinct and are exactly the classes to
/// which at least one input point routes, so no group is empty; the group of
/// each class holds exactly the input points routed to it, each appearing
/// exactly once over the whole result.  The tree is read only and the
/// outcome is deterministic up to order within one group.
pub fn classify(tree: &DecisionTree, data: Vec<DataPoint>) -> (r: Vec<(Class, Vec<DataPoint>)>)
    requires
        forall|i: int|
            0 <= i < data@.len() ==> tree_closed(*tree, (#[trigger] data@[i])@.len() as int),
    ensures
        grouping_ok(*tree, uview(data@), rview(r@)),
    decreases *tree,
{
    let ghost s = uview(data@);
    match tree {
        DecisionTree::Branch(c, lt, rt) => {
            proof {
                assert forall|i: int| 0 <= i < data@.len() implies axis_in_range(
                    c.axis,
                    (#[trigger] data@[i])@.len() as int,
                ) by {
                    assert(tree_closed(*tree, data@[i]@.len() as int));
                }
            }
            let (ld, rd) = c.classify(&data);
            proof {
                lemma_upart_elems(s, *c, true);
                lemma_upart_elems(s, *c, false);
                assert forall|i: int| 0 <= i < ld@.len() implies tree_closed(
                    **lt,
                    (#[trigger] ld@[i])@.len() as int,
                ) by {
                    assert(uview(ld@)[i] == ld@[i]@);
                    assert(s.contains(uview(ld@)[i]));
                    let j = choose|j: int| 0 <= j < s.len() && s[j] == uview(ld@)[i];
                    assert(s[j] == data@[j]@);
                    assert(tree_closed(*tree, data@[j]@.len() as int));
                }
                assert forall|i: int| 0 <= i < rd@.len() implies tree_closed(
                    **rt,
                    (#[trigger] rd@[i])@.len() as int,
                ) by {
                    assert(uview(rd@)[i] == rd@[i]@);
                    assert(s.contains(uview(rd@)[i]));
                    let j = choose|j: int| 0 <= j < s.len() && s[j] == uview(rd@)[i];
                    assert(s[j] == data@[j]@);
                    assert(tree_closed(*tree, data@[j]@.len() as int));
                }
            }
            let ghost sl = uview(ld@);
            let ghost sr = uview(rd@);
            let lg = classify(&**lt, ld);
            let rg = classify(&**rt, rd);
            let ghost lgv = rview(lg@);
            let ghost rgv = rview(rg@);
            let out = merge_result(lg, rg);
            proof {
                let t = *tree;
                let g = rview(out@);
                assert forall|i: int| 0 <= i < s.len() implies gkeys(g).contains(route(
                    t,
                    #[trigger] s[i],
                )) by {
                    let p = s[i];
                    if sat(*c, p) {
                        lemma_upart_mem(s, *c, true, i);
                        let i2 = choose|i2: int| 0 <= i2 < sl.len() && sl[i2] == p;
                        assert(gkeys(lgv).contains(route(**lt, sl[i2])));
                        assert(gkeys(lgv).to_set().contains(route(**lt, p)));
                        assert(gkeys(g).to_set().contains(route(**lt, p)));
                        assert(route(t, p) == route(**lt, p));
                    } else {
                        lemma_upart_mem(s, *c, false, i);
                        let i2 = choose|i2: int| 0 <= i2 < sr.len() && sr[i2] == p;
                        assert(gkeys(rgv).contains(route(**rt, sr[i2])));
                        assert(gkeys(rgv).to_set().contains(route(**rt, p)));
                        assert(gkeys(g).to_set().contains(route(**rt, p)));
                        assert(route(t, p) == route(**rt, p));
                    }
                }
                assert forall|k: int|
                    0 <= k < g.len() implies (#[trigger] g[k]).1.to_multiset() == routed(
                    t,
                    s,
                    g[k].0,
                ).to_multiset() by {
                    let key = g[k].0;
                    assert(gmset(g, key) == gmset(lgv, key).add(gmset(rgv, key)));
                    lemma_gmset_entry(g, k);
                    lemma_gmset_routed(**lt, sl, lgv, key);
                    lemma_gmset_routed(**rt, sr, rgv, key);
                    lemma_routed_split(t, s, key);
                    assert(t->Branch_0 == *c);
                    assert(*t->Branch_1 == **lt);
                    assert(*t->Branch_2 == **rt);
                    assert(sl == upart(s, *c, true));
                    assert(sr == upart(s, *c, false));
                }
            }
            out
        },
        DecisionTree::Leaf(cl) => {
            proof {
                assert forall|i: int| 0 <= i < s.len() implies route(*tree, #[trigger] s[i])
                    == *cl by {}
                lemma_routed_all(*tree, s, *cl);
            }
            let mut out: Vec<(Class, Vec<DataPoint>)> = Vec::new();
            if data.len() > 0 {
                out.push((*cl, data));
                proof {
                    let g = rview(out@);
                    assert(g =~~= seq![(*cl, s)]);
                    assert(gkeys(g) =~= seq![*cl]);
                    assert forall|k: int|
                        0 <= k < g.len() implies (#[trigger] g[k]).1.to_multiset() == routed(
                        *tree,
                        s,
                        g[k].0,
                    ).to_multiset() by {
                        assert(g[k] == (*cl, s));
                        assert(routed(*tree, s, *cl) == s);
                    }
                    assert forall|i: int| 0 <= i < s.len() implies gkeys(g).contains(route(
                        *tree,
                        #[trigger] s[i],
                    )) by {
                        assert(gkeys(g)[0] == *cl);
                    }
                }
            } else {
                proof {
                    let g = rview(out@);
                    assert(g =~~= Seq::<(Class, Seq<Seq<i64>>)>::empty());
                    assert(gkeys(g) =~= Seq::<Class>::empty());
                    assert(s.len() == 0);
                }
            }
            out
        },
    }
}


/// Classification never returns a class outside the set supplied to
/// training: every group key of a grouping produced through a trained tree
/// is one of the training classes.
pub proof fn lemma_classified_classes(
    axises: Seq<Axis>,
    classes: Seq<Class>,
    train_data: Seq<(Seq<i64>, Class)>,
    depth: int,
    max_depth: int,
    min_split: int,
    steps: int,
    t: DecisionTree,
    s: Seq<Seq<i64>>,
    g: Seq<(Class, Seq<Seq<i64>>)>,
)
    requires
        trains(axises, classes, train_data, depth, max_depth, min_split, steps, t),
        train_data.len() >= 1,
        labels_in(train_data, classes),
        grouping_ok(t, s, g),
    ensures
        forall|k: int| 0 <= k < g.len() ==> classes.contains((#[trigger] g[k]).0),
{
    lemma_trained_classes(axises, classes, train_data, depth, max_depth, min_split, steps, t);
    assert forall|k: int| 0 <= k < g.len() implies classes.contains((#[trigger] g[k]).0) by {
        assert(gkeys(g)[k] == g[k].0);
        assert(gkeys(g).contains(g[k].0));
        lemma_key_has_point(t, s, g, g[k].0);
        let j = choose|j: int| 0 <= j < s.len() && route(t, #[trigger] s[j]) == g[k].0;
        lemma_route_in_leaves(t, s[j]);
        let w = choose|w: int|
            0 <= w < leaf_classes(t).len() && leaf_classes(t)[w] == route(t, s[j]);
        assert(classes.contains(leaf_classes(t)[w]));
    }
}

} // verus!
