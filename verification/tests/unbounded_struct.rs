use kpsolver::unbounded_struct::unbounded;

const TEST_U32: u32 = 1;

#[test]
fn unbounded_add_self() {
    assert_eq!(unbounded + unbounded, unbounded);
}

#[test]
fn unbounded_add_usize() {
    assert_eq!(unbounded + TEST_U32, unbounded);
}

#[test]
fn unbounded_addassign_self() {
    let mut val = unbounded;
    val += unbounded;

    assert_eq!(val, unbounded);
}

#[test]
fn unbounded_addassign_usize() {
    let mut val = unbounded;
    val += TEST_U32;

    assert_eq!(val, unbounded);
}

#[test]
fn unbounded_sub_unbounded() {
    assert_eq!(unbounded - unbounded, unbounded);
}

#[test]
fn unbounded_sub_usize() {
    assert_eq!(unbounded - TEST_U32, unbounded);
}

#[test]
fn unbounded_subassign_unbounded() {
    let mut val = unbounded;
    val -= unbounded;

    assert_eq!(val, unbounded);

    val -= TEST_U32;

    assert_eq!(val, unbounded);
}

#[test]
fn unbounded_subassign_usize() {
    let mut val = unbounded;
    val -= TEST_U32;

    assert_eq!(val, unbounded);
}

#[test]
fn unbounded_mul_unbounded() {
    assert_eq!(unbounded * unbounded, Some(unbounded));
}

#[test]
fn unbounded_mul_usize() {
    assert_eq!(unbounded * TEST_U32, Some(unbounded));
}

#[test]
fn unbounded_partialeq_unbounded() {
    assert_eq!(unbounded, unbounded);
}

#[test]
#[should_panic]
fn unbounded_partialeq_usize() {
    assert_eq!(unbounded, TEST_U32);
}

#[test]
#[should_panic]
fn unbounded_partialord_lt_unbounded() {
    assert!(unbounded < unbounded);
}

#[test]
#[should_panic]
fn unbounded_partialord_lt_usize() {
    assert!(unbounded < TEST_U32);
}

#[test]
fn unbounded_partialord_le_unbounded() {
    assert!(unbounded <= unbounded);
}

#[test]
#[should_panic]
fn unbounded_partialord_le_usize() {
    assert!(unbounded <= TEST_U32);
}

#[test]
#[should_panic]
fn unbounded_partialord_gt_unbounded() {
    assert!(unbounded > unbounded);
}

#[test]
fn unbounded_partialord_gt_usize() {
    assert!(unbounded > TEST_U32);
}

#[test]
fn unbounded_partialord_ge_unbounded() {
    assert!(unbounded >= unbounded);
}

#[test]
fn unbounded_partialord_ge_usize() {
    assert!(unbounded >= TEST_U32);
}
