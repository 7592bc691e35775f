use ecs_core::{Access, AccessError, AccessSet};

fn set(reads: &[usize], writes: &[usize]) -> AccessSet {
    let mut s = AccessSet::new();
    for &r in reads {
        s.add_read(r);
    }
    for &w in writes {
        s.add_write(w);
    }
    s
}

#[test]
fn disjoint_sets_do_not_conflict() {
    let a = set(&[1, 2], &[3]);
    let b = set(&[4], &[5]);
    assert!(a.is_compatible(&b));
    assert!(b.is_compatible(&a));
}

#[test]
fn shared_reads_do_not_conflict() {
    let a = set(&[1, 2], &[]);
    let b = set(&[2], &[]);
    assert!(a.is_compatible(&b));
}

#[test]
fn shared_write_conflicts_either_side() {
    let mut a = set(&[1], &[]);
    let b = set(&[2], &[]);
    assert!(a.is_compatible(&b));
    a.add_write(2);
    assert!(!a.is_compatible(&b));
    assert!(!b.is_compatible(&a));
    let c = set(&[], &[7]);
    let d = set(&[7], &[]);
    assert!(!d.is_compatible(&c));
}

#[test]
fn write_implies_read() {
    let a = set(&[], &[3]);
    assert!(a.has_read(3));
    assert!(a.has_write(3));
    assert!(!a.has_write(4));
}

#[test]
fn extend_unions() {
    let mut a = set(&[1], &[2]);
    let b = set(&[3], &[4]);
    a.extend(&b);
    assert!(a.has_read(1) && a.has_read(2) && a.has_read(3) && a.has_read(4));
    assert!(a.has_write(2) && a.has_write(4));
    assert!(!a.has_write(1) && !a.has_write(3));
}

#[test]
fn system_conflicts_by_resource_and_archetype_component() {
    let mut a = Access::new();
    let mut b = Access::new();
    a.resources.add_read(1);
    b.resources.add_read(1);
    a.archetype_components.add_write(10);
    b.archetype_components.add_write(11);
    assert!(!a.conflicts_with(&b));
    b.resources.add_write(1);
    assert!(a.conflicts_with(&b));
    assert!(b.conflicts_with(&a));
    let mut c = Access::new();
    c.archetype_components.add_read(10);
    assert!(a.conflicts_with(&c));
    // the same component type, in archetypes that share nothing, does not conflict
    let mut d = Access::new();
    d.components.add_write(5);
    d.archetype_components.add_write(20);
    let mut e = Access::new();
    e.components.add_write(5);
    e.archetype_components.add_write(21);
    assert!(!d.conflicts_with(&e));
}

#[test]
fn self_conflicting_params_are_rejected() {
    let mut system = Access::new();
    let mut q1 = Access::new();
    q1.components.add_write(5);
    let mut q2 = Access::new();
    q2.components.add_read(5);
    let mut q3 = Access::new();
    q3.components.add_read(6);
    q3.resources.add_write(2);
    assert_eq!(system.add_param(&q1), Ok(()));
    assert_eq!(system.add_param(&q3), Ok(()));
    assert_eq!(system.add_param(&q2), Err(AccessError::ConflictingParams));
    assert!(!system.components.has_read(5) || system.components.has_write(5));
    let mut r = Access::new();
    r.resources.add_read(2);
    assert_eq!(system.add_param(&r), Err(AccessError::ConflictingParams));
    assert!(system.components.has_read(6));
}

#[test]
fn param_set_unites_members_without_checking_them() {
    let mut q1 = Access::new();
    q1.components.add_write(5);
    q1.archetype_components.add_write(50);
    let mut q2 = Access::new();
    q2.components.add_read(5);
    q2.archetype_components.add_read(50);
    let set = Access::param_set(&vec![q1, q2]);
    assert!(set.components.has_write(5));
    assert!(set.archetype_components.has_write(50));
    let mut system = Access::new();
    assert_eq!(system.add_param(&set), Ok(()));
    let mut other = Access::new();
    other.components.add_read(5);
    assert_eq!(system.add_param(&other), Err(AccessError::ConflictingParams));
    let mut reader = Access::new();
    reader.archetype_components.add_read(50);
    assert!(set.conflicts_with(&reader));
    let empty = Access::param_set(&vec![]);
    assert!(!empty.conflicts_with(&reader));
}
