use vizia_core::entity::{Entity, IdManager, MAX_GENERATION};

#[test]
fn root_and_null_are_distinct() {
    assert_eq!(Entity::root(), Entity::new(0, 0));
    assert!(Entity::null().is_null());
    assert!(!Entity::root().is_null());
    assert_ne!(Entity::root(), Entity::null());
    assert_eq!(Entity::new(7, 3).index(), 7);
    assert_eq!(Entity::new(7, 3).generation(), 3);
}

#[test]
fn accesskit_id_packs_generation_and_index() {
    assert_eq!(Entity::root().accesskit_id(), 1);
    assert_eq!(Entity::new(5, 0).accesskit_id(), 6);
    assert_eq!(Entity::new(5, 2).accesskit_id(), 2 * 0x1_0000_0000 + 5 + 1);
    assert_eq!(Entity::null().accesskit_id(), 0);
    assert_eq!(Entity::new(0xffff_ffff, 0).accesskit_id(), 0x1_0000_0000);
    assert_eq!(Entity::new(0xffff_fffe, 0xffff_ffff).accesskit_id(), u64::MAX);
}

#[test]
fn accesskit_id_round_trips() {
    assert_eq!(Entity::from_accesskit_id(0), None);
    assert_eq!(Entity::from_accesskit_id(1), Some(Entity::root()));
    for e in [Entity::new(5, 2), Entity::new(0, 9), Entity::new(0xffff_fffe, 0xffff_ffff)] {
        assert_eq!(Entity::from_accesskit_id(e.accesskit_id()), Some(e));
    }
}

#[test]
fn manager_hands_out_fresh_indices_in_order() {
    let mut m = IdManager::new();
    assert_eq!(m.create(), Some(Entity::new(0, 0)));
    assert_eq!(m.create(), Some(Entity::new(1, 0)));
    assert_eq!(m.create(), Some(Entity::new(2, 0)));
    assert!(m.is_alive(Entity::new(1, 0)));
    assert!(!m.is_alive(Entity::new(3, 0)));
    assert!(!m.is_alive(Entity::new(1, 1)));
}

#[test]
fn destroyed_identifier_returns_with_higher_generation() {
    let mut m = IdManager::new();
    let a = m.create().unwrap();
    let b = m.create().unwrap();
    assert!(m.destroy(a));
    assert!(!m.is_alive(a));
    assert!(m.is_alive(b));
    let c = m.create().unwrap();
    assert_eq!(c, Entity::new(a.index, a.generation + 1));
    assert_ne!(c, a);
    assert!(!m.is_alive(a));
    assert!(m.is_alive(c));
}

#[test]
fn destroying_twice_changes_nothing() {
    let mut m = IdManager::new();
    let a = m.create().unwrap();
    assert!(m.destroy(a));
    assert!(!m.destroy(a));
    assert!(!m.destroy(Entity::new(17, 0)));
    assert_eq!(m.create(), Some(Entity::new(0, 1)));
    assert_eq!(m.create(), Some(Entity::new(1, 0)));
}

#[test]
fn freed_indices_are_used_again_oldest_first() {
    let mut m = IdManager::new();
    let a = m.create().unwrap();
    let b = m.create().unwrap();
    let c = m.create().unwrap();
    m.destroy(b);
    m.destroy(a);
    m.destroy(c);
    assert_eq!(m.create(), Some(Entity::new(1, 1)));
    assert_eq!(m.create(), Some(Entity::new(0, 1)));
    assert_eq!(m.create(), Some(Entity::new(2, 1)));
    assert_eq!(m.create(), Some(Entity::new(3, 0)));
}

#[test]
fn exhausted_manager_refuses() {
    let mut m = IdManager::with_limit(2);
    assert_eq!(m.available(), 2);
    let a = m.create().unwrap();
    let _b = m.create().unwrap();
    assert_eq!(m.available(), 0);
    assert_eq!(m.create(), None);
    m.destroy(a);
    assert_eq!(m.available(), 1);
    assert_eq!(m.create(), Some(Entity::new(0, 1)));
    assert_eq!(m.create(), None);
}

#[test]
fn generation_limit_is_below_null() {
    assert_eq!(MAX_GENERATION, 0xffff_fffe);
    assert!(Entity::new(0, MAX_GENERATION).accesskit_id() != 0);
}
