use vizia_core::cascade::{compute_properties, Specificity, Winners};
use vizia_core::entity::Entity;
use vizia_core::flags::{Abilities, Ability, PseudoClass, PseudoClassFlags};
use vizia_core::selector::{Component, Selector, SelectorList};
use vizia_core::sparse_set::SparseSet;
use vizia_core::style::{Declaration, Live, Properties, Role, Rule, Style, StyleData};
use vizia_core::style_system::restyle;
use vizia_core::tree::Tree;

fn rule(parts: Vec<Component>, declarations: Vec<Declaration>) -> Rule {
    Rule { selectors: SelectorList::new(vec![Selector::new(parts)]), declarations }
}

#[test]
fn flags_set_and_clear_one_state() {
    let mut f = PseudoClassFlags::empty();
    assert!(!f.contains(PseudoClass::Hover));
    f.set(PseudoClass::Hover, true);
    f.set(PseudoClass::Checked, true);
    assert!(f.contains(PseudoClass::Hover));
    assert!(f.contains(PseudoClass::Checked));
    assert!(!f.contains(PseudoClass::Focus));
    f.set(PseudoClass::Hover, false);
    assert!(!f.contains(PseudoClass::Hover));
    assert!(f.contains(PseudoClass::Checked));
    f.set(PseudoClass::Hover, false);
    assert!(!f.contains(PseudoClass::Hover));
    assert_eq!(f.bits, 1 << 7);
}

#[test]
fn abilities_set_and_clear_one_ability() {
    let mut a = Abilities::empty();
    a.set(Ability::Navigable, true);
    assert!(a.contains(Ability::Navigable));
    assert!(!a.contains(Ability::Checkable));
    a.set(Ability::Checkable, true);
    a.set(Ability::Navigable, false);
    assert!(!a.contains(Ability::Navigable));
    assert!(a.contains(Ability::Checkable));
    assert_eq!(a.bits, 1 << 2);
}

#[test]
fn inline_properties_go_before_computed_ones() {
    let inline = Properties { role: Some(Role::Label), disabled: None, hidden: Some(false), live: None };
    let computed = Properties {
        role: Some(Role::Button),
        disabled: Some(true),
        hidden: Some(true),
        live: None,
    };
    assert_eq!(
        inline.or(computed),
        Properties { role: Some(Role::Label), disabled: Some(true), hidden: Some(false), live: None }
    );
    assert_eq!(Properties::none().or(computed), computed);
}

#[test]
fn winners_yield_to_equal_or_higher_specificity() {
    let low = Specificity { ids: 0, classes: 0, elements: 1 };
    let high = Specificity { ids: 0, classes: 1, elements: 0 };
    let w = Winners::none().apply(high, Declaration::Role(Role::Button));
    assert_eq!(w.properties().role, Some(Role::Button));
    // A less specific declaration that comes later loses.
    let w = w.apply(low, Declaration::Role(Role::Label));
    assert_eq!(w.properties().role, Some(Role::Button));
    // An equally specific declaration that comes later wins.
    let w = w.apply(high, Declaration::Role(Role::Slider));
    assert_eq!(w.properties().role, Some(Role::Slider));
    // Other properties are untouched.
    assert_eq!(w.properties().disabled, None);
    let w = w.apply(low, Declaration::Disabled(true)).apply(low, Declaration::Live(Live::Polite));
    assert_eq!(
        w.properties(),
        Properties {
            role: Some(Role::Slider),
            disabled: Some(true),
            hidden: None,
            live: Some(Live::Polite)
        }
    );
}

fn styled_pair() -> (Tree, Style, Entity, Entity) {
    let root = Entity::root();
    let child = Entity::new(1, 0);
    let mut tree = Tree::new();
    tree.insert(child, root, 0).unwrap();
    let mut style = Style::new();
    style.data.insert(root, StyleData::new());
    style.data.insert(child, StyleData::new());
    (tree, style, root, child)
}

#[test]
fn cascade_prefers_specificity_then_order() {
    let (tree, mut style, _root, child) = styled_pair();
    {
        let d = style.data.get_mut(child).unwrap();
        d.element = Some(String::from("button"));
        d.classes.push(String::from("foo"));
        d.id = Some(String::from("ok"));
    }
    let rules = vec![
        rule(vec![Component::id("ok")], vec![Declaration::Role(Role::Button)]),
        rule(
            vec![Component::class("foo")],
            vec![Declaration::Role(Role::Label), Declaration::Hidden(true)],
        ),
        rule(vec![Component::element("button")], vec![Declaration::Hidden(false), Declaration::Disabled(true)]),
        rule(vec![Component::class("foo")], vec![Declaration::Live(Live::Polite)]),
        rule(vec![Component::class("bar")], vec![Declaration::Live(Live::Assertive)]),
        rule(vec![Component::class("foo")], vec![Declaration::Live(Live::Off)]),
    ];
    assert_eq!(
        compute_properties(&tree, &style.data, &rules, child),
        Properties {
            role: Some(Role::Button),
            disabled: Some(true),
            hidden: Some(true),
            live: Some(Live::Off),
        }
    );
    assert_eq!(
        compute_properties(&tree, &style.data, &rules, Entity::root()),
        Properties::none()
    );
}

#[test]
fn later_declaration_in_one_rule_wins() {
    let (tree, mut style, _root, child) = styled_pair();
    style.data.get_mut(child).unwrap().classes.push(String::from("foo"));
    let rules = vec![rule(
        vec![Component::class("foo")],
        vec![Declaration::Role(Role::Label), Declaration::Role(Role::Button)],
    )];
    assert_eq!(compute_properties(&tree, &style.data, &rules, child).role, Some(Role::Button));
}

#[test]
fn restyle_gives_class_rule_to_matching_child_only() {
    // create root, create child C with class "foo", apply the rule
    // `.foo { role: button }`, restyle.
    let (tree, mut style, root, child) = styled_pair();
    style.data.get_mut(child).unwrap().classes.push(String::from("foo"));
    style.rules.push(rule(vec![Component::class("foo")], vec![Declaration::Role(Role::Button)]));
    style.needs_restyle = true;

    restyle(&tree, &mut style);

    assert_eq!(style.properties(child).role, Some(Role::Button));
    assert_eq!(style.properties(root).role, None);
    assert_eq!(style.computed.get(root), Some(&Properties::none()));
    assert!(!style.needs_restyle);
    assert!(style.needs_relayout);
    assert!(style.needs_redraw);
}

#[test]
fn restyle_marks_entities_whose_properties_changed() {
    let (tree, mut style, root, child) = styled_pair();
    style.data.get_mut(child).unwrap().classes.push(String::from("foo"));
    style.rules.push(rule(vec![Component::class("foo")], vec![Declaration::Role(Role::Button)]));
    restyle(&tree, &mut style);
    // Both entities got computed properties for the first time.
    assert!(style.reaccess.contains(root));
    assert!(style.reaccess.contains(child));
    style.reaccess.clear();

    // Nothing changed: a second pass marks nothing.
    restyle(&tree, &mut style);
    assert!(!style.reaccess.contains(root));
    assert!(!style.reaccess.contains(child));

    // The class goes: the child changes, the root does not.
    style.data.get_mut(child).unwrap().classes.clear();
    restyle(&tree, &mut style);
    assert!(!style.reaccess.contains(root));
    assert!(style.reaccess.contains(child));
    assert_eq!(style.properties(child).role, None);
}

#[test]
fn restyle_reconsiders_pseudo_classes() {
    let (tree, mut style, _root, child) = styled_pair();
    style.rules.push(rule(
        vec![Component::PseudoClass(PseudoClass::Hover)],
        vec![Declaration::Live(Live::Assertive)],
    ));
    restyle(&tree, &mut style);
    assert_eq!(style.properties(child).live, None);
    style.data.get_mut(child).unwrap().pseudo_classes.set(PseudoClass::Hover, true);
    restyle(&tree, &mut style);
    assert_eq!(style.properties(child).live, Some(Live::Assertive));
}

#[test]
fn modify_marks_everything_due() {
    let (_tree, mut style, _root, child) = styled_pair();
    assert!(!style.needs_restyle);
    match style.modify(child) {
        Some(d) => d.name = Some(String::from("child")),
        None => panic!("the child has style data"),
    }
    assert!(style.needs_restyle && style.needs_relayout && style.needs_redraw);
    assert!(style.reaccess.contains(child));
    assert_eq!(style.data.get(child).unwrap().name, Some(String::from("child")));

    let mut other = Style::new();
    assert!(other.modify(child).is_none());
    assert!(!other.needs_restyle && !other.needs_relayout && !other.needs_redraw);
    assert!(!other.reaccess.contains(child));
}

#[test]
fn style_remove_erases_all_stores() {
    let (tree, mut style, _root, child) = styled_pair();
    restyle(&tree, &mut style);
    style.mark_reaccess(child);
    style.remove(child);
    assert!(!style.data.contains(child));
    assert!(!style.computed.contains(child));
    assert!(!style.reaccess.contains(child));
    let empty: SparseSet<StyleData> = SparseSet::new();
    assert_eq!(empty.len(), 0);
}
