use kpsolver::unbound_struct::unbound;

const TEST_U32: u32 = 1;

#[test]
fn unbound_add_self() {
    assert_eq!(unbound + unbound, unbound);
}

#[test]
fn unbound_add_usize() {
    assert_eq!(unbound + TEST_U32, unbound);
}

#[test]
fn unbound_addassign_self() {
    let mut val = unbound;
    val += unbound;

    assert_eq!(val, unbound);
}

#[test]
fn unbound_addassign_usize() {
    let mut val = unbound;
    val += TEST_U32;

    assert_eq!(val, unbound);
}

#[test]
fn unbound_sub_unbound() {
    assert_eq!(unbound - unbound, unbound);
}

#[test]
fn unbound_sub_usize() {
    assert_eq!(unbound - TEST_U32, unbound);
}

#[test]
fn unbound_subassign_unbound() {
    let mut val = unbound;
    val -= unbound;

    assert_eq!(val, unbound);

    val -= TEST_U32;

    assert_eq!(val, unbound);
}

#[test]
fn unbound_subassign_usize() {
    let mut val = unbound;
    val -= TEST_U32;

    assert_eq!(val, unbound);
}

#[test]
fn unbound_mul_unbound() {
    assert_eq!(unbound * unbound, Some(unbound));
}

#[test]
fn unbound_mul_usize() {
    assert_eq!(unbound * TEST_U32, Some(unbound));
}

#[test]
fn unbound_partialeq_unbound() {
    assert_eq!(unbound, unbound);
}

#[test]
#[should_panic]
fn unbound_partialeq_usize() {
    assert_eq!(unbound, TEST_U32);
}

#[test]
#[should_panic]
fn unbound_partialord_lt_unbound() {
    assert!(unbound < unbound);
}

#[test]
#[should_panic]
fn unbound_partialord_lt_usize() {
    assert!(unbound < TEST_U32);
}

#[test]
fn unbound_partialord_le_unbound() {
    assert!(unbound <= unbound);
}

#[test]
#[should_panic]
fn unbound_partialord_le_usize() {
    assert!(unbound <= TEST_U32);
}

#[test]
#[should_panic]
fn unbound_partialord_gt_unbound() {
    assert!(unbound > unbound);
}

#[test]
fn unbound_partialord_gt_usize() {
    assert!(unbound > TEST_U32);
}

#[test]
fn unbound_partialord_ge_unbound() {
    assert!(unbound >= unbound);
}

#[test]
fn unbound_partialord_ge_usize() {
    assert!(unbound >= TEST_U32);
}
