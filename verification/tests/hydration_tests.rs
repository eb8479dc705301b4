use keyed_each::hydration::HydrationCtx;

#[test]
fn labels_in_both_forms() {
    assert_eq!(HydrationCtx::to_string(0, false, false), "_0");
    assert_eq!(HydrationCtx::to_string(0, true, false), "_0");
    assert_eq!(HydrationCtx::to_string(0, false, true), "_0o");
    assert_eq!(HydrationCtx::to_string(0, true, true), "_0c");
    assert_eq!(HydrationCtx::to_string(7, false, false), "_7");
    assert_eq!(HydrationCtx::to_string(12, true, true), "_12c");
    assert_eq!(HydrationCtx::to_string(12345, false, false), "_12345");
    assert_eq!(HydrationCtx::to_string(904, false, true), "_904o");
}

#[test]
fn ids_strictly_increase_from_zero() {
    let mut ctx = HydrationCtx::new(false);
    let a = ctx.id();
    let b = ctx.id();
    let c = ctx.id();
    assert_eq!(a, 0);
    assert_eq!(b, 1);
    assert_eq!(c, 2);
    assert!(a < b && b < c);
}

#[test]
fn probe_detects_first_marker_plain() {
    let labels = vec![String::from("banner"), String::from("_0")];
    assert!(HydrationCtx::probe(&labels));
}

#[test]
fn probe_detects_first_marker_diagnostic() {
    let labels = vec![String::from("_0o")];
    assert!(HydrationCtx::probe(&labels));
}

#[test]
fn probe_rejects_other_labels() {
    assert!(!HydrationCtx::probe(&vec![]));
    assert!(!HydrationCtx::probe(&vec![String::from("_1"), String::from("_00")]));
    assert!(!HydrationCtx::probe(&vec![String::from("_0c")]));
    assert!(!HydrationCtx::probe(&vec![String::from("x_0")]));
}

#[test]
fn hydrating_mode_follows_the_probe() {
    let hydrating = HydrationCtx::new(HydrationCtx::probe(&vec![String::from("_0")]));
    assert!(hydrating.is_hydrating());
    let fresh = HydrationCtx::new(HydrationCtx::probe(&vec![String::from("other")]));
    assert!(!fresh.is_hydrating());
}

#[test]
fn stop_hydrating_is_idempotent_and_keeps_the_counter() {
    let mut ctx = HydrationCtx::new(true);
    let first = ctx.id();
    assert_eq!(first, 0);
    ctx.stop_hydrating();
    assert!(!ctx.is_hydrating());
    ctx.stop_hydrating();
    assert!(!ctx.is_hydrating());
    assert_eq!(ctx.id(), 1);
}
