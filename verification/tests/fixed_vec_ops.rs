use subcase::fixed_vec::FixedVec;

#[test]
fn fresh_stack_is_empty() {
    let v: FixedVec<4> = FixedVec::default();
    assert_eq!(v.len(), 0);
    assert!(v.is_empty());
}

#[test]
fn push_exposes_zero_counters() {
    let mut v: FixedVec<4> = FixedVec::default();
    v.push();
    v.push();
    assert_eq!(v.len(), 2);
    assert!(!v.is_empty());
    assert_eq!(v.get(0), 0);
    assert_eq!(v.get(1), 0);
}

#[test]
fn increment_bumps_one_counter() {
    let mut v: FixedVec<4> = FixedVec::default();
    v.push();
    v.push();
    v.increment_at(1);
    v.increment_at(1);
    v.increment_at(0);
    assert_eq!(v.get(0), 1);
    assert_eq!(v.get(1), 2);
}

#[test]
fn pop_rezeroes_the_freed_slot() {
    let mut v: FixedVec<4> = FixedVec::default();
    v.push();
    v.increment_at(0);
    assert_eq!(v.get(0), 1);
    v.pop();
    assert_eq!(v.len(), 0);
    v.push();
    // the slot was re-zeroed on pop, so the fresh counter starts at zero
    assert_eq!(v.get(0), 0);
}

#[test]
fn clear_empties_the_stack() {
    let mut v: FixedVec<4> = FixedVec::default();
    v.push();
    v.push();
    v.increment_at(0);
    v.clear();
    assert!(v.is_empty());
    v.push();
    assert_eq!(v.get(0), 0);
}

#[test]
fn coincides_till_compares_prefixes() {
    let mut a: FixedVec<4> = FixedVec::default();
    let mut b: FixedVec<4> = FixedVec::default();
    a.push();
    a.push();
    b.push();
    b.push();
    a.increment_at(0);
    b.increment_at(0);
    a.increment_at(1);
    assert!(a.coincides_till(&b, 0));
    assert!(a.coincides_till(&b, 1));
    assert!(!a.coincides_till(&b, 2));
    b.increment_at(1);
    assert!(a.coincides_till(&b, 2));
}
