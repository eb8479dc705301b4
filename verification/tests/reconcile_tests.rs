use keyed_each::each::Each;
use keyed_each::slots::get_next_closest_mounted_sibling;
use keyed_each::slots::Child;
use keyed_each::slots::NodeRef;
use keyed_each::slots::Slot;

fn keys_of(e: &Each) -> Vec<u64> {
    let mut out = Vec::new();
    let mut i = 0;
    while i < e.len() {
        out.push(e.key_at(i));
        i += 1;
    }
    out
}

fn ids_of(e: &Each) -> Vec<u64> {
    let mut out = Vec::new();
    let mut i = 0;
    while i < e.len() {
        out.push(e.child_id_at(i));
        i += 1;
    }
    out
}

#[test]
fn initial_mount_in_source_order() {
    // First run: every item mounted before the trailing boundary, in
    // source order, without any diffing.
    let mut e = Each::new();
    let mounts = e.update(&vec![1, 2]);
    assert_eq!(keys_of(&e), vec![1, 2]);
    assert_eq!(mounts.len(), 2);
    assert_eq!(mounts[0], (0, NodeRef::ListClosing));
    assert_eq!(mounts[1], (1, NodeRef::ListClosing));
    assert_eq!(ids_of(&e), vec![0, 1]);
}

#[test]
fn initial_mount_empty() {
    let mut e = Each::new();
    let mounts = e.update(&vec![]);
    assert_eq!(e.len(), 0);
    assert_eq!(mounts.len(), 0);
}

#[test]
fn reorder_preserves_every_instance() {
    // Old [k1, k2, k3], new [k1, k3, k2]: the final key order matches the
    // new snapshot and every subtree is the same instance as before.
    let mut e = Each::new();
    e.update(&vec![1, 2, 3]);
    let before = ids_of(&e);
    let mounts = e.update(&vec![1, 3, 2]);
    assert_eq!(keys_of(&e), vec![1, 3, 2]);
    let after = ids_of(&e);
    assert_eq!(after[0], before[0]);
    assert_eq!(after[1], before[2]);
    assert_eq!(after[2], before[1]);
    // Two deferred move insertions, no add.
    assert_eq!(mounts.len(), 2);
}

#[test]
fn remove_move_add_cycle() {
    // Old [k1, k2], new [k2, k3]: k1 removed, k2 kept as the same
    // instance at its new position (reported as a move, not re-rendered),
    // k3 freshly rendered.
    let mut e = Each::new();
    e.update(&vec![1, 2]);
    let before = ids_of(&e);
    e.update(&vec![2, 3]);
    assert_eq!(keys_of(&e), vec![2, 3]);
    let after = ids_of(&e);
    assert_eq!(after[0], before[1]);
    assert!(after[1] >= 2);
}

#[test]
fn no_op_update_changes_nothing() {
    let mut e = Each::new();
    e.update(&vec![4, 5, 6]);
    let before = ids_of(&e);
    let mounts = e.update(&vec![4, 5, 6]);
    assert_eq!(keys_of(&e), vec![4, 5, 6]);
    assert_eq!(ids_of(&e), before);
    assert_eq!(mounts.len(), 0);
}

#[test]
fn growing_update_appends_and_keeps() {
    let mut e = Each::new();
    e.update(&vec![1]);
    let before = ids_of(&e);
    e.update(&vec![1, 2, 3]);
    assert_eq!(keys_of(&e), vec![1, 2, 3]);
    let after = ids_of(&e);
    assert_eq!(after[0], before[0]);
    assert_ne!(after[1], before[0]);
    assert_ne!(after[2], before[0]);
}

#[test]
fn shrinking_update_trims_the_list() {
    // The slot list is trimmed to the new snapshot's length once the
    // vacated trailing slots are confirmed empty.
    let mut e = Each::new();
    e.update(&vec![1, 2, 3, 4]);
    let before = ids_of(&e);
    e.update(&vec![3]);
    assert_eq!(e.len(), 1);
    assert_eq!(keys_of(&e), vec![3]);
    assert_eq!(e.child_id_at(0), before[2]);
}

#[test]
fn replace_everything() {
    let mut e = Each::new();
    e.update(&vec![1, 2]);
    e.update(&vec![9, 8, 7]);
    assert_eq!(keys_of(&e), vec![9, 8, 7]);
    // All three are fresh instances.
    for id in ids_of(&e) {
        assert!(id >= 2);
    }
}

#[test]
fn several_cycles_in_a_row() {
    let mut e = Each::new();
    e.update(&vec![1, 2, 3]);
    e.update(&vec![3, 1]);
    assert_eq!(keys_of(&e), vec![3, 1]);
    e.update(&vec![2, 3, 1]);
    assert_eq!(keys_of(&e), vec![2, 3, 1]);
    e.update(&vec![]);
    assert_eq!(e.len(), 0);
    e.update(&vec![5]);
    assert_eq!(keys_of(&e), vec![5]);
}

#[test]
fn anchor_scan_finds_first_mounted_slot() {
    let slots = vec![
        Slot { child: None },
        Slot { child: None },
        Slot { child: Some(Child { id: 7, key: 1 }) },
        Slot { child: Some(Child { id: 8, key: 2 }) },
    ];
    assert_eq!(get_next_closest_mounted_sibling(&slots, 0), NodeRef::SlotOpening(2));
    assert_eq!(get_next_closest_mounted_sibling(&slots, 3), NodeRef::SlotOpening(3));
}

#[test]
fn anchor_scan_falls_back_to_boundary() {
    let slots = vec![Slot { child: None }, Slot { child: None }];
    assert_eq!(get_next_closest_mounted_sibling(&slots, 0), NodeRef::ListClosing);
    assert_eq!(get_next_closest_mounted_sibling(&slots, 7), NodeRef::ListClosing);
}

#[test]
fn deferred_moves_land_before_the_first_mounted_sibling() {
    // Old [1, 2, 3, 4], new [1, 3, 2, 4]: keys 2 and 3 are extracted, so
    // when each is re-inserted the forward scan skips the transiently
    // empty slots and finds slot 3 (key 4) as the anchor.
    let mut e = Each::new();
    e.update(&vec![1, 2, 3, 4]);
    let mounts = e.update(&vec![1, 3, 2, 4]);
    assert_eq!(keys_of(&e), vec![1, 3, 2, 4]);
    assert_eq!(mounts, vec![(2, NodeRef::SlotOpening(3)), (1, NodeRef::SlotOpening(3))]);
}

#[test]
fn add_falls_back_to_the_boundary_when_later_slots_are_empty() {
    // Old [1, 3], new [1, 2, 3]: key 3 is extracted before the add runs,
    // so the add for key 2 finds no mounted slot after its position and
    // mounts before the trailing boundary; the deferred move then does
    // the same, restoring the order 1, 2, 3.
    let mut e = Each::new();
    e.update(&vec![1, 3]);
    let mounts = e.update(&vec![1, 2, 3]);
    assert_eq!(keys_of(&e), vec![1, 2, 3]);
    assert_eq!(mounts, vec![(2, NodeRef::ListClosing), (1, NodeRef::ListClosing)]);
}
