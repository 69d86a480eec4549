use vizia_core::cascade::{list_specificity, specificity, Specificity};
use vizia_core::entity::Entity;
use vizia_core::flags::PseudoClass;
use vizia_core::matching::{matches_selector, matches_selector_list};
use vizia_core::selector::{Combinator, Component, Selector, SelectorList};
use vizia_core::sparse_set::SparseSet;
use vizia_core::style::StyleData;
use vizia_core::tree::Tree;

fn two_entities() -> (Tree, SparseSet<StyleData>, Entity, Entity) {
    let root = Entity::new(0, 0);
    let child = Entity::new(1, 0);
    let mut tree = Tree::new();
    tree.insert(child, root, 0).unwrap();
    let mut store = SparseSet::new();
    store.insert(root, StyleData::new());
    store.insert(child, StyleData::new());
    (tree, store, root, child)
}

fn list(selectors: Vec<Selector>) -> SelectorList {
    SelectorList::new(selectors)
}

#[test]
fn asterisk_match() {
    let (tree, mut store, root, child) = two_entities();
    store.get_mut(root).unwrap().element = Some(String::from("window"));
    store.get_mut(child).unwrap().element = Some(String::from("button"));

    let selector_list = list(vec![Selector::new(vec![Component::Universal])]);
    let _result = matches_selector_list(&tree, &store, &selector_list, root);
}

#[test]
fn element_match() {
    let (tree, mut store, root, child) = two_entities();
    store.get_mut(root).unwrap().element = Some(String::from("window"));
    store.get_mut(child).unwrap().element = Some(String::from("button"));

    let selector_list = list(vec![Selector::new(vec![Component::element("window")])]);

    let result = matches_selector_list(&tree, &store, &selector_list, root);
    assert!(result);

    let result = matches_selector_list(&tree, &store, &selector_list, child);
    assert!(!result);
}

#[test]
fn class_match() {
    let (tree, mut store, root, child) = two_entities();
    store.get_mut(root).unwrap().classes.push(String::from("foo"));
    store.get_mut(root).unwrap().classes.push(String::from("bar"));
    store.get_mut(child).unwrap().classes.push(String::from("bar"));

    let selector_list = list(vec![Selector::new(vec![Component::class("foo")])]);
    let result = matches_selector_list(&tree, &store, &selector_list, root);
    assert!(result);
    let result = matches_selector_list(&tree, &store, &selector_list, child);
    assert!(!result);

    let selector_list = list(vec![Selector::new(vec![Component::class("bar")])]);
    let result = matches_selector_list(&tree, &store, &selector_list, root);
    assert!(result);
    let result = matches_selector_list(&tree, &store, &selector_list, child);
    assert!(result);

    let selector_list =
        list(vec![Selector::new(vec![Component::class("foo"), Component::class("bar")])]);
    let result = matches_selector_list(&tree, &store, &selector_list, root);
    assert!(result);
    let result = matches_selector_list(&tree, &store, &selector_list, child);
    assert!(!result);

    let selector_list = list(vec![
        Selector::new(vec![Component::class("foo")]),
        Selector::new(vec![Component::class("bar")]),
    ]);
    let result = matches_selector_list(&tree, &store, &selector_list, root);
    assert!(result);
    let result = matches_selector_list(&tree, &store, &selector_list, child);
    assert!(result);
}

#[test]
fn pseudoclass_match() {
    let (tree, mut store, root, child) = two_entities();
    store.get_mut(root).unwrap().element = Some(String::from("window"));
    store.get_mut(root).unwrap().pseudo_classes.set(PseudoClass::Hover, true);
    store.get_mut(child).unwrap().element = Some(String::from("child"));

    let selector_list = list(vec![Selector::new(vec![
        Component::element("window"),
        Component::PseudoClass(PseudoClass::Hover),
    ])]);

    let result = matches_selector_list(&tree, &store, &selector_list, root);
    assert!(result);

    let result = matches_selector_list(&tree, &store, &selector_list, child);
    assert!(!result);
}

#[test]
fn universal_matches_entities_of_the_tree_only() {
    let (tree, store, root, child) = two_entities();
    let any = Selector::new(vec![Component::Universal]);
    assert!(matches_selector(&tree, &store, &any, root));
    assert!(matches_selector(&tree, &store, &any, child));
    assert!(!matches_selector(&tree, &store, &any, Entity::new(9, 0)));
    assert!(!matches_selector(&tree, &store, &any, Entity::new(1, 1)));
}

#[test]
fn id_match() {
    let (tree, mut store, root, child) = two_entities();
    store.get_mut(child).unwrap().id = Some(String::from("ok"));
    let sel = Selector::new(vec![Component::id("ok")]);
    assert!(matches_selector(&tree, &store, &sel, child));
    assert!(!matches_selector(&tree, &store, &sel, root));
    let other = Selector::new(vec![Component::id("cancel")]);
    assert!(!matches_selector(&tree, &store, &other, child));
}

#[test]
fn entity_without_style_matches_nothing_but_universal() {
    let root = Entity::root();
    let child = Entity::new(1, 0);
    let mut tree = Tree::new();
    tree.insert(child, root, 0).unwrap();
    let store: SparseSet<StyleData> = SparseSet::new();
    assert!(matches_selector(&tree, &store, &Selector::new(vec![Component::Universal]), child));
    assert!(!matches_selector(&tree, &store, &Selector::new(vec![Component::class("a")]), child));
    assert!(!matches_selector(
        &tree,
        &store,
        &Selector::new(vec![Component::PseudoClass(PseudoClass::Hover)]),
        child
    ));
}

/// root(window) ─ 1(.panel) ─ 3(label)
///              │           └ 4(button) ─ 6(label)
///              └ 2(button)
fn family() -> (Tree, SparseSet<StyleData>) {
    let mut tree = Tree::new();
    let e = |i: u32| Entity::new(i, 0);
    tree.insert(e(1), Entity::root(), 0).unwrap();
    tree.insert(e(2), Entity::root(), 1).unwrap();
    tree.insert(e(3), e(1), 0).unwrap();
    tree.insert(e(4), e(1), 1).unwrap();
    tree.insert(e(6), e(4), 0).unwrap();
    let mut store = SparseSet::new();
    for (i, element) in [(0, "window"), (1, "vstack"), (2, "button"), (3, "label"), (4, "button"), (6, "label")] {
        let mut d = StyleData::new();
        d.element = Some(String::from(element));
        store.insert(e(i), d);
    }
    store.get_mut(e(1)).unwrap().classes.push(String::from("panel"));
    (tree, store)
}

#[test]
fn child_combinator_looks_at_the_parent_only() {
    let (tree, store) = family();
    let e = |i: u32| Entity::new(i, 0);
    // .panel > label
    let sel = Selector::new(vec![Component::element("label")])
        .with(Combinator::Child, vec![Component::class("panel")]);
    assert!(matches_selector(&tree, &store, &sel, e(3)));
    assert!(!matches_selector(&tree, &store, &sel, e(6)));
    assert!(!matches_selector(&tree, &store, &sel, e(4)));
}

#[test]
fn descendant_combinator_looks_at_every_ancestor() {
    let (tree, store) = family();
    let e = |i: u32| Entity::new(i, 0);
    // .panel label
    let sel = Selector::new(vec![Component::element("label")])
        .with(Combinator::Descendant, vec![Component::class("panel")]);
    assert!(matches_selector(&tree, &store, &sel, e(3)));
    assert!(matches_selector(&tree, &store, &sel, e(6)));
    assert!(!matches_selector(&tree, &store, &sel, e(1)));
    // window button matches both buttons; window > button only the direct child
    let deep = Selector::new(vec![Component::element("button")])
        .with(Combinator::Descendant, vec![Component::element("window")]);
    assert!(matches_selector(&tree, &store, &deep, e(2)));
    assert!(matches_selector(&tree, &store, &deep, e(4)));
    let direct = Selector::new(vec![Component::element("button")])
        .with(Combinator::Child, vec![Component::element("window")]);
    assert!(matches_selector(&tree, &store, &direct, e(2)));
    assert!(!matches_selector(&tree, &store, &direct, e(4)));
}

#[test]
fn descendant_combinator_backtracks() {
    let (tree, store) = family();
    let e = |i: u32| Entity::new(i, 0);
    // window > vstack label: the label 6 lies below button 4, whose parent is
    // the vstack; the vstack must be found two steps up.
    let sel = Selector::new(vec![Component::element("label")])
        .with(Combinator::Descendant, vec![Component::element("vstack")])
        .with(Combinator::Child, vec![Component::element("window")]);
    assert!(matches_selector(&tree, &store, &sel, e(6)));
    assert!(matches_selector(&tree, &store, &sel, e(3)));
    let none = Selector::new(vec![Component::element("label")])
        .with(Combinator::Descendant, vec![Component::element("button")])
        .with(Combinator::Child, vec![Component::element("window")]);
    assert!(!matches_selector(&tree, &store, &none, e(6)));
}

#[test]
fn sibling_combinators_look_left() {
    let (tree, store) = family();
    let e = |i: u32| Entity::new(i, 0);
    // label + button
    let next = Selector::new(vec![Component::element("button")])
        .with(Combinator::NextSibling, vec![Component::element("label")]);
    assert!(matches_selector(&tree, &store, &next, e(4)));
    assert!(!matches_selector(&tree, &store, &next, e(2)));
    // vstack ~ button
    let later = Selector::new(vec![Component::element("button")])
        .with(Combinator::LaterSibling, vec![Component::element("vstack")]);
    assert!(matches_selector(&tree, &store, &later, e(2)));
    assert!(!matches_selector(&tree, &store, &later, e(4)));
    // button ~ vstack: the button comes after the vstack, not before
    let wrong = Selector::new(vec![Component::element("vstack")])
        .with(Combinator::LaterSibling, vec![Component::element("button")]);
    assert!(!matches_selector(&tree, &store, &wrong, e(1)));
}

#[test]
fn specificity_counts_ids_classes_elements() {
    let sel = Selector::new(vec![
        Component::element("button"),
        Component::class("a"),
        Component::PseudoClass(PseudoClass::Hover),
        Component::Universal,
    ])
    .with(Combinator::Descendant, vec![Component::id("main"), Component::class("b")]);
    assert_eq!(specificity(&sel), Specificity { ids: 1, classes: 3, elements: 1 });
    assert_eq!(
        specificity(&Selector::new(vec![Component::Universal])),
        Specificity { ids: 0, classes: 0, elements: 0 }
    );
}

#[test]
fn specificity_orders_ids_before_classes_before_elements() {
    let id = Specificity { ids: 1, classes: 0, elements: 0 };
    let classes = Specificity { ids: 0, classes: 9, elements: 9 };
    let element = Specificity { ids: 0, classes: 0, elements: 1 };
    assert!(classes.is_at_most(id));
    assert!(!id.is_at_most(classes));
    assert!(element.is_at_most(classes));
    assert!(id.is_at_most(id));
    assert!(!Specificity { ids: 0, classes: 1, elements: 2 }
        .is_at_most(Specificity { ids: 0, classes: 1, elements: 1 }));
}

#[test]
fn list_specificity_is_that_of_the_most_specific_match() {
    let (tree, mut store, root, child) = two_entities();
    store.get_mut(root).unwrap().element = Some(String::from("window"));
    store.get_mut(root).unwrap().classes.push(String::from("foo"));
    let l = list(vec![
        Selector::new(vec![Component::element("window")]),
        Selector::new(vec![Component::class("foo"), Component::element("window")]),
        Selector::new(vec![Component::id("nobody")]),
    ]);
    assert_eq!(
        list_specificity(&tree, &store, &l, root),
        Some(Specificity { ids: 0, classes: 1, elements: 1 })
    );
    assert_eq!(list_specificity(&tree, &store, &l, child), None);
}
