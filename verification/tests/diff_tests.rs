use keyed_each::diff::diff;
use keyed_each::diff::DiffOp;

#[test]
fn no_op_diff_is_empty() {
    let a: Vec<u64> = vec![10, 20, 30];
    let d = diff(&a, &a);
    assert_eq!(d.ops.len(), 0);
    assert_eq!(d.moving, 0);
    assert_eq!(d.added_delta, 0);
}

#[test]
fn no_op_diff_on_empty() {
    let a: Vec<u64> = vec![];
    let d = diff(&a, &a);
    assert_eq!(d.ops.len(), 0);
    assert_eq!(d.moving, 0);
    assert_eq!(d.added_delta, 0);
}

#[test]
fn swap_of_two_keys_reports_both_positions_moved() {
    // Old [k1, k2, k3], new [k1, k3, k2]: both k2 and k3 sit at changed
    // indices, so the intersection rule reports a move for each, and
    // nothing is removed or added.
    let a: Vec<u64> = vec![1, 2, 3];
    let b: Vec<u64> = vec![1, 3, 2];
    let d = diff(&a, &b);
    assert_eq!(d.added_delta, 0);
    assert_eq!(d.moving, 2);
    assert_eq!(d.ops.len(), 2);
    assert_eq!(d.ops[0], DiffOp::Move { from: 2, to: 1 });
    assert_eq!(d.ops[1], DiffOp::Move { from: 1, to: 2 });
}

#[test]
fn remove_move_add_in_order() {
    // Old [k1, k2], new [k2, k3]: k1 removed at old index 0, k2 kept but
    // shifted (a move, not an add), k3 added at new index 1.
    let a: Vec<u64> = vec![1, 2];
    let b: Vec<u64> = vec![2, 3];
    let d = diff(&a, &b);
    assert_eq!(d.ops.len(), 3);
    assert_eq!(d.ops[0], DiffOp::Remove { at: 0 });
    assert_eq!(d.ops[1], DiffOp::Move { from: 1, to: 0 });
    assert_eq!(d.ops[2], DiffOp::Add { at: 1 });
    assert_eq!(d.moving, 1);
    assert_eq!(d.added_delta, 0);
}

#[test]
fn pure_removal() {
    let a: Vec<u64> = vec![1, 2, 3];
    let b: Vec<u64> = vec![2];
    let d = diff(&a, &b);
    assert_eq!(d.ops.len(), 3);
    assert_eq!(d.ops[0], DiffOp::Remove { at: 0 });
    assert_eq!(d.ops[1], DiffOp::Remove { at: 2 });
    assert_eq!(d.ops[2], DiffOp::Move { from: 1, to: 0 });
    assert_eq!(d.moving, 1);
    assert_eq!(d.added_delta, -2);
}

#[test]
fn pure_addition() {
    let a: Vec<u64> = vec![1];
    let b: Vec<u64> = vec![1, 2, 3];
    let d = diff(&a, &b);
    assert_eq!(d.ops.len(), 2);
    assert_eq!(d.ops[0], DiffOp::Add { at: 1 });
    assert_eq!(d.ops[1], DiffOp::Add { at: 2 });
    assert_eq!(d.moving, 0);
    assert_eq!(d.added_delta, 2);
}

#[test]
fn disjoint_snapshots_replace_everything() {
    let a: Vec<u64> = vec![1, 2];
    let b: Vec<u64> = vec![3, 4, 5];
    let d = diff(&a, &b);
    assert_eq!(d.ops.len(), 5);
    assert_eq!(d.ops[0], DiffOp::Remove { at: 0 });
    assert_eq!(d.ops[1], DiffOp::Remove { at: 1 });
    assert_eq!(d.ops[2], DiffOp::Add { at: 0 });
    assert_eq!(d.ops[3], DiffOp::Add { at: 1 });
    assert_eq!(d.ops[4], DiffOp::Add { at: 2 });
    assert_eq!(d.moving, 0);
    assert_eq!(d.added_delta, 1);
}

#[test]
fn minimality_on_overlapping_snapshots() {
    // Symmetric difference by key is {1, 5}: one remove plus one add,
    // never more; moves never exceed either snapshot's size.
    let a: Vec<u64> = vec![1, 2, 3, 4];
    let b: Vec<u64> = vec![4, 2, 3, 5];
    let d = diff(&a, &b);
    let removes = d.ops.iter().filter(|op| matches!(op, DiffOp::Remove { .. })).count();
    let adds = d.ops.iter().filter(|op| matches!(op, DiffOp::Add { .. })).count();
    let moves = d.ops.iter().filter(|op| matches!(op, DiffOp::Move { .. })).count();
    assert_eq!(removes + adds, 2);
    assert!(moves <= 4);
    assert_eq!(moves, d.moving);
    assert_eq!(d.ops.len(), removes + moves + adds);
}

#[test]
fn ops_are_grouped_removes_then_moves_then_adds() {
    let a: Vec<u64> = vec![7, 8, 9, 10];
    let b: Vec<u64> = vec![10, 8, 11, 12];
    let d = diff(&a, &b);
    let mut phase = 0;
    for op in &d.ops {
        let this = match op {
            DiffOp::Remove { .. } => 0,
            DiffOp::Move { .. } => 1,
            DiffOp::Add { .. } => 2,
        };
        assert!(this >= phase);
        phase = this;
    }
}
