use vizia_core::entity::Entity;
use vizia_core::tree::{Tree, TreeError};

fn e(i: u32) -> Entity {
    Entity::new(i, 0)
}

/// root ─ 1 ─ 3
///      │   └ 4 ─ 6
///      └ 2 ─ 5
fn sample() -> Tree {
    let mut t = Tree::new();
    assert_eq!(t.insert(e(1), Entity::root(), 0), Ok(()));
    assert_eq!(t.insert(e(2), Entity::root(), 1), Ok(()));
    assert_eq!(t.insert(e(3), e(1), 0), Ok(()));
    assert_eq!(t.insert(e(4), e(1), 1), Ok(()));
    assert_eq!(t.insert(e(5), e(2), 0), Ok(()));
    assert_eq!(t.insert(e(6), e(4), 0), Ok(()));
    t
}

#[test]
fn new_tree_holds_the_root() {
    let t = Tree::new();
    assert!(t.has(Entity::root()));
    assert!(!t.has(e(1)));
    assert_eq!(t.get_parent(Entity::root()), None);
    assert_eq!(t.get_num_children(Entity::root()), 0);
    assert_eq!(t.layout_iter(), vec![Entity::root()]);
}

#[test]
fn insert_links_parent_and_child() {
    let t = sample();
    assert_eq!(t.get_parent(e(3)), Some(e(1)));
    assert_eq!(t.get_parent(e(6)), Some(e(4)));
    assert_eq!(t.get_num_children(e(1)), 2);
    assert_eq!(t.get_child(e(1), 0), Some(e(3)));
    assert_eq!(t.get_child(e(1), 1), Some(e(4)));
    assert_eq!(t.get_child(e(1), 2), None);
    assert_eq!(t.get_first_child(Entity::root()), Some(e(1)));
    assert_eq!(t.get_last_child(Entity::root()), Some(e(2)));
    assert_eq!(t.get_first_child(e(6)), None);
}

#[test]
fn insert_at_position_shifts_later_children() {
    let mut t = sample();
    assert_eq!(t.insert(e(7), e(1), 1), Ok(()));
    assert_eq!(t.get_child(e(1), 0), Some(e(3)));
    assert_eq!(t.get_child(e(1), 1), Some(e(7)));
    assert_eq!(t.get_child(e(1), 2), Some(e(4)));
    assert_eq!(t.insert(e(8), e(1), 0), Ok(()));
    assert_eq!(t.get_child(e(1), 0), Some(e(8)));
}

#[test]
fn insert_refuses_bad_input() {
    let mut t = sample();
    assert_eq!(t.insert(Entity::null(), Entity::root(), 0), Err(TreeError::NullEntity));
    assert_eq!(t.insert(e(3), Entity::root(), 0), Err(TreeError::AlreadyExists));
    assert_eq!(t.insert(Entity::new(3, 1), Entity::root(), 0), Err(TreeError::AlreadyExists));
    assert_eq!(t.insert(e(9), e(20), 0), Err(TreeError::InvalidParent));
    assert_eq!(t.insert(e(9), Entity::new(1, 1), 0), Err(TreeError::InvalidParent));
    assert_eq!(t.insert(e(9), e(1), 3), Err(TreeError::InvalidPosition));
    assert!(!t.has(e(9)));
    assert_eq!(t.insert(e(9), e(1), 2), Ok(()));
}

#[test]
fn remove_takes_a_leaf_out() {
    let mut t = sample();
    assert_eq!(t.remove(e(3)), Ok(()));
    assert!(!t.has(e(3)));
    assert_eq!(t.get_num_children(e(1)), 1);
    assert_eq!(t.get_child(e(1), 0), Some(e(4)));
    assert_eq!(t.get_parent(e(3)), None);
}

#[test]
fn remove_refuses_bad_input() {
    let mut t = sample();
    assert_eq!(t.remove(e(9)), Err(TreeError::NoEntity));
    assert_eq!(t.remove(Entity::root()), Err(TreeError::RootRemoval));
    assert_eq!(t.remove(e(1)), Err(TreeError::HasChildren));
    assert_eq!(t.remove(Entity::new(3, 1)), Err(TreeError::NoEntity));
    assert!(t.has(e(1)));
}

#[test]
fn removed_index_can_be_filled_again() {
    let mut t = sample();
    assert_eq!(t.remove(e(5)), Ok(()));
    assert_eq!(t.insert(Entity::new(5, 1), e(3), 0), Ok(()));
    assert!(t.has(Entity::new(5, 1)));
    assert!(!t.has(e(5)));
    assert_eq!(t.get_parent(Entity::new(5, 1)), Some(e(3)));
    assert_eq!(t.get_num_children(e(2)), 0);
}

#[test]
fn ancestors_run_from_the_entity_to_the_root() {
    let t = sample();
    assert_eq!(t.parent_iter(e(6)), vec![e(6), e(4), e(1), Entity::root()]);
    assert_eq!(t.parent_iter(Entity::root()), vec![Entity::root()]);
    assert_eq!(t.parent_iter(e(9)), Vec::<Entity>::new());
}

#[test]
fn branch_lists_parents_before_children() {
    let t = sample();
    assert_eq!(t.branch_iter(e(1)), vec![e(1), e(3), e(4), e(6)]);
    assert_eq!(t.branch_iter(e(5)), vec![e(5)]);
    assert_eq!(t.branch_iter(e(9)), Vec::<Entity>::new());
    assert_eq!(
        t.layout_iter(),
        vec![Entity::root(), e(1), e(3), e(4), e(6), e(2), e(5)]
    );
}

#[test]
fn descendant_test_follows_the_ancestors() {
    let t = sample();
    assert!(t.is_descendant_of(e(6), e(1)));
    assert!(t.is_descendant_of(e(6), e(6)));
    assert!(t.is_descendant_of(e(6), Entity::root()));
    assert!(!t.is_descendant_of(e(6), e(2)));
    assert!(!t.is_descendant_of(e(1), e(6)));
    assert!(!t.is_descendant_of(e(9), Entity::root()));
}

#[test]
fn siblings_are_found_by_position() {
    let t = sample();
    assert_eq!(t.child_position(e(4)), Some(1));
    assert_eq!(t.child_position(Entity::root()), None);
    assert_eq!(t.get_prev_sibling(e(4)), Some(e(3)));
    assert_eq!(t.get_prev_sibling(e(3)), None);
    assert_eq!(t.get_next_sibling(e(3)), Some(e(4)));
    assert_eq!(t.get_next_sibling(e(4)), None);
    assert_eq!(t.get_next_sibling(e(1)), Some(e(2)));
    assert_eq!(t.get_prev_sibling(Entity::root()), None);
}

#[test]
fn remove_subtree_takes_everything_below() {
    let mut t = sample();
    assert!(t.remove_subtree(e(1)));
    for gone in [1, 3, 4, 6] {
        assert!(!t.has(e(gone)));
    }
    assert_eq!(t.layout_iter(), vec![Entity::root(), e(2), e(5)]);
    assert_eq!(t.get_num_children(Entity::root()), 1);
    assert!(!t.remove_subtree(e(1)));
    assert!(!t.remove_subtree(Entity::root()));
    assert!(t.has(Entity::root()));
}

#[test]
fn focus_lock_is_found_on_the_way_up() {
    let mut t = sample();
    assert_eq!(t.lock_focus_within(e(6)), Entity::root());
    assert!(t.set_lock_focus_within(e(4), true));
    assert!(t.is_lock_focus_within(e(4)));
    assert_eq!(t.lock_focus_within(e(6)), e(4));
    assert_eq!(t.lock_focus_within(e(4)), e(4));
    assert_eq!(t.lock_focus_within(e(3)), Entity::root());
    assert!(t.set_lock_focus_within(e(4), false));
    assert_eq!(t.lock_focus_within(e(6)), Entity::root());
    assert!(!t.set_lock_focus_within(e(9), true));
    assert_eq!(t.lock_focus_within(e(9)), Entity::root());
}
