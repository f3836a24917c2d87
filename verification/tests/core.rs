use decision_tree::classify;
use decision_tree::gini::gini_loss;
use decision_tree::split::find_criterion;
use decision_tree::tree::majority_class;
use decision_tree::{train, train_with, Axis, Class, DataPoint, DecisionTree, TrainError};

fn dp(vals: &[i64]) -> DataPoint {
    DataPoint(vals.to_vec())
}

fn labeled(rows: &[(&[i64], i32)]) -> Vec<(DataPoint, Class)> {
    rows.iter().map(|(vals, c)| (dp(vals), Class(*c))).collect()
}

fn group<'a>(r: &'a [(Class, Vec<DataPoint>)], c: Class) -> &'a Vec<DataPoint> {
    &r.iter().find(|e| e.0 == c).expect("class group missing").1
}

fn values(g: &[DataPoint]) -> Vec<Vec<i64>> {
    g.iter().map(|p| p.0.clone()).collect()
}

/// Every branch criterion in the tree avoids the given axis.
fn assert_never_splits_on(tree: &DecisionTree, axis: Axis) {
    match tree {
        DecisionTree::Branch(c, l, r) => {
            assert_ne!(c.axis, axis);
            assert_never_splits_on(l, axis);
            assert_never_splits_on(r, axis);
        }
        DecisionTree::Leaf(_) => {}
    }
}

fn leaf_class_list(tree: &DecisionTree, out: &mut Vec<Class>) {
    match tree {
        DecisionTree::Branch(_, l, r) => {
            leaf_class_list(l, out);
            leaf_class_list(r, out);
        }
        DecisionTree::Leaf(c) => out.push(*c),
    }
}

#[test]
fn gini_half_half() {
    let classes = vec![Class(0), Class(1)];
    let data = labeled(&[(&[1000], 0), (&[1000], 0), (&[9000], 1), (&[9000], 1)]);
    let r = gini_loss(&classes, &data);
    // two of four in each class: impurity 1/2 as 8/16
    assert_eq!(r.num, 8);
    assert_eq!(r.den, 16);
}

#[test]
fn gini_single_class_is_zero() {
    let classes = vec![Class(0), Class(1)];
    let data = labeled(&[(&[1], 0), (&[2], 0), (&[3], 0)]);
    let r = gini_loss(&classes, &data);
    assert_eq!(r.num, 0);
    assert_eq!(r.den, 9);
}

#[test]
fn gini_three_one() {
    let classes = vec![Class(0), Class(1)];
    let data = labeled(&[(&[1], 0), (&[2], 0), (&[3], 0), (&[4], 1)]);
    let r = gini_loss(&classes, &data);
    // counts 3 and 1 over 4 points: (3*1 + 1*3) / 16 = 3/8
    assert_eq!(r.num, 6);
    assert_eq!(r.den, 16);
}

#[test]
fn gini_stays_in_upper_bound() {
    // k = 3 classes, one point each: impurity 2/3 == 1 - 1/k exactly
    let classes = vec![Class(0), Class(1), Class(2)];
    let data = labeled(&[(&[1], 0), (&[2], 1), (&[3], 2)]);
    let r = gini_loss(&classes, &data);
    assert_eq!(r.num, 6);
    assert_eq!(r.den, 9);
    assert!(r.num * classes.len() as u64 <= (classes.len() as u64 - 1) * r.den);
}

#[test]
fn find_criterion_two_clusters() {
    let axes = vec![Axis(0)];
    let classes = vec![Class(0), Class(1)];
    let data = labeled(&[(&[1000], 0), (&[1000], 0), (&[9000], 1), (&[9000], 1)]);
    let c = find_criterion(&axes, &classes, &data, 100).expect("a split must exist");
    // range 8000 gives step 80; the first threshold 1080 already separates
    // the clusters perfectly and first-seen minima win ties
    assert_eq!(c.axis, Axis(0));
    assert_eq!(c.split, 1080);
}

#[test]
fn find_criterion_constant_axis_is_none() {
    let axes = vec![Axis(0)];
    let classes = vec![Class(0), Class(1)];
    let data = labeled(&[(&[7], 0), (&[7], 0), (&[7], 1), (&[7], 1)]);
    assert!(find_criterion(&axes, &classes, &data, 100).is_none());
}

#[test]
fn scenario_two_clusters_split_with_pure_leaves() {
    let axes = vec![Axis(0)];
    let classes = vec![Class(0), Class(1)];
    let data = labeled(&[(&[1000], 0), (&[1000], 0), (&[9000], 1), (&[9000], 1)]);
    let tree = train(&axes, &classes, data).expect("training succeeds");
    match &tree {
        DecisionTree::Branch(c, l, r) => {
            assert_eq!(c.axis, Axis(0));
            assert!(1000 < c.split && c.split <= 9000);
            assert!(matches!(**l, DecisionTree::Leaf(Class(0))));
            assert!(matches!(**r, DecisionTree::Leaf(Class(1))));
        }
        DecisionTree::Leaf(_) => panic!("expected a branch"),
    }
    // only the class that received the point is keyed: no empty groups
    let high = classify(&tree, vec![dp(&[5500])]);
    assert_eq!(high.len(), 1);
    assert_eq!(high[0].0, Class(1));
    assert_eq!(values(&high[0].1), vec![vec![5500]]);
    let low = classify(&tree, vec![dp(&[500])]);
    assert_eq!(low.len(), 1);
    assert_eq!(low[0].0, Class(0));
    assert_eq!(values(&low[0].1), vec![vec![500]]);
}

#[test]
fn scenario_single_class_dataset_yields_single_leaf() {
    let axes = vec![Axis(0)];
    let classes = vec![Class(3)];
    let rows: Vec<(DataPoint, Class)> = (0..10).map(|_| (dp(&[7]), Class(3))).collect();
    let tree = train(&axes, &classes, rows).expect("training succeeds");
    assert!(matches!(tree, DecisionTree::Leaf(Class(3))));
    let r = classify(&tree, vec![dp(&[1]), dp(&[100])]);
    assert_eq!(r.len(), 1);
    assert_eq!(r[0].0, Class(3));
    assert_eq!(values(&r[0].1), vec![vec![1], vec![100]]);
}

#[test]
fn single_class_varied_features_still_maps_everything_to_it() {
    let axes = vec![Axis(0)];
    let classes = vec![Class(3)];
    let rows: Vec<(DataPoint, Class)> =
        (1..=10).map(|i| (dp(&[i * 1000]), Class(3))).collect();
    let tree = train(&axes, &classes, rows).expect("training succeeds");
    let mut leaves = Vec::new();
    leaf_class_list(&tree, &mut leaves);
    assert!(leaves.iter().all(|c| *c == Class(3)));
    let r = classify(&tree, vec![dp(&[1500]), dp(&[9500])]);
    assert_eq!(r.len(), 1);
    assert_eq!(r[0].0, Class(3));
    assert_eq!(r[0].1.len(), 2);
}

#[test]
fn scenario_constant_axis_is_never_referenced() {
    let axes = vec![Axis(0), Axis(1)];
    let classes = vec![Class(0), Class(1)];
    let data = labeled(&[
        (&[5, 1000], 0),
        (&[5, 1500], 0),
        (&[5, 9000], 1),
        (&[5, 9500], 1),
        (&[5, 1200], 0),
        (&[5, 9200], 1),
    ]);
    let tree = train(&axes, &classes, data).expect("training succeeds");
    assert!(matches!(tree, DecisionTree::Branch(..)));
    assert_never_splits_on(&tree, Axis(0));
}

#[test]
fn scenario_small_dataset_becomes_majority_leaf() {
    let axes = vec![Axis(0)];
    let classes = vec![Class(1), Class(2)];
    let data = labeled(&[(&[1], 1), (&[2], 1), (&[9000], 2)]);
    let tree = train(&axes, &classes, data).expect("training succeeds");
    assert!(matches!(tree, DecisionTree::Leaf(Class(1))));
}

#[test]
fn all_axes_constant_becomes_leaf_not_error() {
    let axes = vec![Axis(0), Axis(1)];
    let classes = vec![Class(1), Class(2)];
    let data = labeled(&[
        (&[4, 4], 1),
        (&[4, 4], 1),
        (&[4, 4], 2),
        (&[4, 4], 2),
        (&[4, 4], 2),
    ]);
    let tree = train(&axes, &classes, data).expect("training succeeds");
    assert!(matches!(tree, DecisionTree::Leaf(Class(2))));
}

#[test]
fn majority_tie_breaks_to_lowest_class_identifier() {
    let data = labeled(&[(&[1], 5), (&[2], 2)]);
    assert_eq!(majority_class(&data), Class(2));
    let axes = vec![Axis(0)];
    let classes = vec![Class(2), Class(5)];
    let tree = train(&axes, &classes, data).expect("training succeeds");
    assert!(matches!(tree, DecisionTree::Leaf(Class(2))));
}

#[test]
fn empty_classes_rejected() {
    let r = train(&vec![], &vec![], vec![]);
    assert_eq!(r.unwrap_err(), TrainError::EmptyClasses);
}

#[test]
fn empty_data_rejected() {
    let r = train(&vec![Axis(0)], &vec![Class(0)], vec![]);
    assert_eq!(r.unwrap_err(), TrainError::EmptyData);
}

#[test]
fn out_of_range_axis_rejected() {
    let data = labeled(&[(&[1], 0), (&[2], 0)]);
    let r = train(&vec![Axis(2)], &vec![Class(0)], data);
    assert_eq!(r.unwrap_err(), TrainError::AxisOutOfRange);
}

#[test]
fn negative_axis_rejected() {
    let data = labeled(&[(&[1], 0), (&[2], 0)]);
    let r = train(&vec![Axis(-1)], &vec![Class(0)], data);
    assert_eq!(r.unwrap_err(), TrainError::AxisOutOfRange);
}

#[test]
fn classify_partitions_input_exactly_once() {
    let axes = vec![Axis(0)];
    let classes = vec![Class(0), Class(1)];
    let rows = labeled(&[
        (&[1000], 0),
        (&[2000], 0),
        (&[3000], 0),
        (&[7000], 1),
        (&[8000], 1),
        (&[9000], 1),
    ]);
    let points: Vec<DataPoint> = rows.iter().map(|(p, _)| dp(&p.0)).collect();
    let tree = train(&axes, &classes, rows).expect("training succeeds");
    let r = classify(&tree, points);
    let total: usize = r.iter().map(|e| e.1.len()).sum();
    assert_eq!(total, 6);
    // keys are pairwise distinct and every input value occurs exactly once
    for i in 0..r.len() {
        for j in 0..r.len() {
            if i != j {
                assert_ne!(r[i].0, r[j].0);
            }
        }
    }
    for v in [1000i64, 2000, 3000, 7000, 8000, 9000] {
        let occurrences: usize = r
            .iter()
            .map(|e| e.1.iter().filter(|p| p.0 == vec![v]).count())
            .sum();
        assert_eq!(occurrences, 1);
    }
}

#[test]
fn classify_is_deterministic_across_calls() {
    let axes = vec![Axis(0)];
    let classes = vec![Class(0), Class(1)];
    let rows = labeled(&[
        (&[1000], 0),
        (&[2000], 0),
        (&[8000], 1),
        (&[9000], 1),
        (&[1500], 0),
    ]);
    let tree = train(&axes, &classes, rows).expect("training succeeds");
    let input = vec![dp(&[1200]), dp(&[8800]), dp(&[400]), dp(&[9999])];
    let again: Vec<DataPoint> = input.iter().map(|p| dp(&p.0)).collect();
    let r1 = classify(&tree, input);
    let r2 = classify(&tree, again);
    assert_eq!(r1.len(), r2.len());
    for e in &r1 {
        assert_eq!(values(&e.1), values(group(&r2, e.0)));
    }
}

#[test]
fn classify_keys_stay_inside_training_classes() {
    let axes = vec![Axis(0)];
    let classes = vec![Class(0), Class(1)];
    let rows = labeled(&[
        (&[1000], 0),
        (&[2000], 0),
        (&[8000], 1),
        (&[9000], 1),
        (&[1500], 0),
        (&[8500], 1),
    ]);
    let tree = train(&axes, &classes, rows).expect("training succeeds");
    let r = classify(&tree, vec![dp(&[100]), dp(&[5000]), dp(&[12000])]);
    for e in &r {
        assert!(classes.contains(&e.0));
    }
}

#[test]
fn criterion_split_partitions_by_threshold() {
    let data = labeled(&[(&[1], 0), (&[5], 0), (&[9], 1)]);
    let c = decision_tree::Criterion {
        axis: Axis(0),
        split: 5,
    };
    let (left, right) = c.split(&data);
    assert_eq!(values(&left.iter().map(|e| dp(&e.0 .0)).collect::<Vec<_>>()), vec![vec![1]]);
    assert_eq!(left.len(), 1);
    assert_eq!(right.len(), 2);
    assert_eq!(right[0].0 .0, vec![5]);
    assert_eq!(right[1].0 .0, vec![9]);
}

#[test]
fn train_with_explicit_knobs_controls_depth() {
    let axes = vec![Axis(0)];
    let classes = vec![Class(0), Class(1)];
    let rows = labeled(&[
        (&[1000], 0),
        (&[2000], 0),
        (&[3000], 0),
        (&[7000], 1),
        (&[8000], 1),
        (&[9000], 1),
    ]);
    // a zero depth ceiling stops immediately at a majority leaf
    let tree = train_with(&axes, &classes, rows, 0, 3, 100).expect("training succeeds");
    assert!(matches!(tree, DecisionTree::Leaf(Class(0))));
}

fn tree_eq(a: &DecisionTree, b: &DecisionTree) -> bool {
    match (a, b) {
        (DecisionTree::Branch(ca, la, ra), DecisionTree::Branch(cb, lb, rb)) => {
            ca == cb && tree_eq(la, lb) && tree_eq(ra, rb)
        }
        (DecisionTree::Leaf(ca), DecisionTree::Leaf(cb)) => ca == cb,
        _ => false,
    }
}

#[test]
fn training_is_reproducible() {
    let axes = vec![Axis(0), Axis(1)];
    let classes = vec![Class(0), Class(1), Class(2)];
    let rows = || {
        labeled(&[
            (&[1000, 200], 0),
            (&[1200, 300], 0),
            (&[8000, 250], 1),
            (&[9000, 230], 1),
            (&[5000, 9000], 2),
            (&[5200, 9100], 2),
            (&[1100, 210], 0),
            (&[8500, 260], 1),
        ])
    };
    let t1 = train(&axes, &classes, rows()).expect("training succeeds");
    let t2 = train(&axes, &classes, rows()).expect("training succeeds");
    assert!(tree_eq(&t1, &t2));
}

#[test]
fn negative_features_are_handled_exactly() {
    let axes = vec![Axis(0)];
    let classes = vec![Class(0), Class(1)];
    let data = labeled(&[(&[-9000], 0), (&[-8000], 0), (&[8000], 1), (&[9000], 1)]);
    let tree = train(&axes, &classes, data).expect("training succeeds");
    let r = classify(&tree, vec![dp(&[-8500]), dp(&[7000])]);
    assert_eq!(values(group(&r, Class(0))), vec![vec![-8500]]);
    assert_eq!(values(group(&r, Class(1))), vec![vec![7000]]);
}

#[test]
fn single_grid_step_splits_at_the_maximum() {
    let axes = vec![Axis(0)];
    let classes = vec![Class(0), Class(1)];
    let rows = labeled(&[(&[1000], 0), (&[1000], 0), (&[9000], 1), (&[9000], 1)]);
    // with one step the only threshold is the maximum itself
    let tree = train_with(&axes, &classes, rows, 7, 3, 1).expect("training succeeds");
    match &tree {
        DecisionTree::Branch(c, l, r) => {
            assert_eq!(c.split, 9000);
            assert!(matches!(**l, DecisionTree::Leaf(Class(0))));
            assert!(matches!(**r, DecisionTree::Leaf(Class(1))));
        }
        DecisionTree::Leaf(_) => panic!("expected a branch"),
    }
}

#[test]
fn narrow_range_axis_still_splits() {
    // the whole value range (4 units) is far below the step count, so the
    // grid step floors at one unit and thresholds still appear
    let axes = vec![Axis(0)];
    let classes = vec![Class(0), Class(1)];
    let data = labeled(&[(&[1], 0), (&[2], 0), (&[3], 0), (&[4], 1), (&[5], 1)]);
    let c = find_criterion(&axes, &classes, &data, 100).expect("a split must exist");
    assert_eq!(c.axis, Axis(0));
    assert_eq!(c.split, 4);
    let tree = train(&axes, &classes, data).expect("training succeeds");
    match &tree {
        DecisionTree::Branch(cr, l, r) => {
            assert_eq!(cr.split, 4);
            assert!(matches!(**l, DecisionTree::Leaf(Class(0))));
            assert!(matches!(**r, DecisionTree::Leaf(Class(1))));
        }
        DecisionTree::Leaf(_) => panic!("expected a branch"),
    }
}

#[test]
fn classify_empty_input_yields_empty_grouping() {
    let axes = vec![Axis(0)];
    let classes = vec![Class(0), Class(1)];
    let rows = labeled(&[(&[1000], 0), (&[2000], 0), (&[8000], 1), (&[9000], 1)]);
    let tree = train(&axes, &classes, rows).expect("training succeeds");
    let r = classify(&tree, vec![]);
    assert!(r.is_empty());
}

#[test]
fn classify_never_emits_an_empty_group() {
    let axes = vec![Axis(0)];
    let classes = vec![Class(0), Class(1)];
    let rows = labeled(&[(&[1000], 0), (&[2000], 0), (&[8000], 1), (&[9000], 1), (&[1500], 0)]);
    let tree = train(&axes, &classes, rows).expect("training succeeds");
    // all points land on one side: only that class is keyed
    let r = classify(&tree, vec![dp(&[8100]), dp(&[9900])]);
    assert_eq!(r.len(), 1);
    assert_eq!(r[0].0, Class(1));
    assert_eq!(r[0].1.len(), 2);
}
