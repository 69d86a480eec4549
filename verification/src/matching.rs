//! Matching of compiled selectors against the entities of the live tree.
//!
//! Combinators walk the relations of the tree itself; simple selectors read
//! what the style store says of the entity.

use crate::entity::Entity;
use crate::selector::{Combinator, Component, Compound, Selector, SelectorList};
use crate::sparse_set::SparseSet;
use crate::style::StyleData;
use crate::tree::Tree;
use vstd::prelude::*;

verus! {

/// Whether the entity meets one condition.
pub open spec fn spec_component_matches(
    styles: Map<Entity, StyleData>,
    c: &Component,
    e: Entity,
) -> bool {
    match c {
        Component::Universal => true,
        Component::Element(name) => styles.contains_key(e) && styles[e].element is Some
            && styles[e].element.unwrap()@ == name@,
        Component::Id(name) => styles.contains_key(e) && styles[e].id is Some
            && styles[e].id.unwrap()@ == name@,
        Component::Class(name) => styles.contains_key(e) && styles[e].has_class(name@),
        Component::PseudoClass(state) => styles.contains_key(e) && styles[e].pseudo_classes.has(
            *state,
        ),
    }
}

/// Whether the entity meets every condition of the compound selector.
pub open spec fn spec_compound_matches(
    styles: Map<Entity, StyleData>,
    compound: &Compound,
    e: Entity,
) -> bool {
    forall|i: int|
        0 <= i < compound.parts.len() ==> spec_component_matches(
            styles,
            #[trigger] &compound.parts[i],
            e,
        )
}

/// The compound selector at level `k` of a selector: level 0 is the subject,
/// level `k` the `k`-th compound to its left.
pub open spec fn level_compound(sel: &Selector, k: nat) -> &Compound {
    if k == 0 {
        &sel.subject
    } else {
        &sel.context[k - 1].compound
    }
}

/// Whether the entity matches the selector from level `k` leftwards: it is in
/// the tree, meets the compound at level `k`, and stands to some entity that
/// matches from the next level as the combinator between the two levels
/// says.
pub open spec fn spec_matches_from(
    tree: &Tree,
    styles: Map<Entity, StyleData>,
    sel: &Selector,
    k: nat,
    e: Entity,
) -> bool
    decreases sel.context.len() - k,
{
    &&& tree.contains(e)
    &&& spec_compound_matches(styles, level_compound(sel, k), e)
    &&& (k >= sel.context.len() || match sel.context[k as int].combinator {
        Combinator::Child => tree.parent_of(e) is Some && spec_matches_from(
            tree,
            styles,
            sel,
            k + 1,
            tree.parent_of(e).unwrap(),
        ),
        Combinator::Descendant => exists|i: int|
            1 <= i < tree.ancestors(e).len() && spec_matches_from(
                tree,
                styles,
                sel,
                k + 1,
                #[trigger] tree.ancestors(e)[i],
            ),
        Combinator::NextSibling => tree.prev_sibling_of(e) is Some && spec_matches_from(
            tree,
            styles,
            sel,
            k + 1,
            tree.prev_sibling_of(e).unwrap(),
        ),
        Combinator::LaterSibling => tree.parent_of(e) is Some && exists|i: int|
            0 <= i < tree.position_of(e) && spec_matches_from(
                tree,
                styles,
                sel,
                k + 1,
                #[trigger] tree.children_of(tree.parent_of(e).unwrap())[i],
            ),
    })
}

/// Whether the entity matches the selector.
pub open spec fn spec_matches_selector(
    tree: &Tree,
    styles: Map<Entity, StyleData>,
    sel: &Selector,
    e: Entity,
) -> bool {
    spec_matches_from(tree, styles, sel, 0, e)
}

/// Whether the entity matches one of the selectors of the list.
pub open spec fn spec_matches_selector_list(
    tree: &Tree,
    styles: Map<Entity, StyleData>,
    list: &SelectorList,
    e: Entity,
) -> bool {
    exists|i: int|
        0 <= i < list.selectors.len() && spec_matches_selector(
            tree,
            styles,
            #[trigger] &list.selectors[i],
            e,
        )
}

/// Whether the entity meets one condition.
pub fn component_matches(styles: &SparseSet<StyleData>, c: &Component, e: Entity) -> (b: bool)
    requires
        styles.wf(),
    ensures
        b == spec_component_matches(styles@, c, e),
{
    match c {
        Component::Universal => true,
        Component::Element(name) => match styles.get(e) {
            Some(d) => match &d.element {
                Some(s) => *s == *name,
                None => false,
            },
            None => false,
        },
        Component::Id(name) => match styles.get(e) {
            Some(d) => match &d.id {
                Some(s) => *s == *name,
                None => false,
            },
            None => false,
        },
        Component::Class(name) => match styles.get(e) {
            Some(d) => {
                let mut k: usize = 0;
                while k < d.classes.len()
                    invariant
                        k <= d.classes.len(),
                        styles@.contains_key(e),
                        *d == styles@[e],
                        *c == Component::Class(*name),
                        forall|j: int| 0 <= j < k ==> (#[trigger] d.classes[j])@ != name@,
                    decreases d.classes.len() - k,
                {
                    if d.classes[k] == *name {
                        assert(d.classes[k as int]@ == name@);
                        return true;
                    }
                    k += 1;
                }
                false
            },
            None => false,
        },
        Component::PseudoClass(state) => match styles.get(e) {
            Some(d) => d.pseudo_classes.contains(*state),
            None => false,
        },
    }
}

/// Whether the entity meets every condition of the compound selector.
pub fn compound_matches(styles: &SparseSet<StyleData>, compound: &Compound, e: Entity) -> (b: bool)
    requires
        styles.wf(),
    ensures
        b == spec_compound_matches(styles@, compound, e),
{
    let mut i: usize = 0;
    while i < compound.parts.len()
        invariant
            styles.wf(),
            i <= compound.parts.len(),
            forall|j: int|
                0 <= j < i ==> spec_component_matches(styles@, #[trigger] &compound.parts[j], e),
        decreases compound.parts.len() - i,
    {
        if !component_matches(styles, &compound.parts[i], e) {
            return false;
        }
        i += 1;
    }
    true
}

/// Whether the entity matches the selector from level `k` leftwards.
#[verifier::loop_isolation(false)]
pub fn matches_from(
    tree: &Tree,
    styles: &SparseSet<StyleData>,
    sel: &Selector,
    k: usize,
    e: Entity,
) -> (b: bool)
    requires
        tree.wf(),
        styles.wf(),
        k <= sel.context.len(),
    ensures
        b == spec_matches_from(tree, styles@, sel, k as nat, e),
    decreases sel.context.len() - k,
{
    if !tree.has(e) {
        return false;
    }
    let compound = if k == 0 {
        &sel.subject
    } else {
        &sel.context[k - 1].compound
    };
    if !compound_matches(styles, compound, e) {
        return false;
    }
    if k == sel.context.len() {
        return true;
    }
    match sel.context[k].combinator {
        Combinator::Child => match tree.get_parent(e) {
            Some(p) => matches_from(tree, styles, sel, k + 1, p),
            None => false,
        },
        Combinator::Descendant => {
            let chain = tree.parent_iter(e);
            let mut i: usize = 1;
            while i < chain.len()
                invariant
                    tree.wf(),
                    styles.wf(),
                    k < sel.context.len(),
                    chain@ == tree.ancestors(e),
                    1 <= i,
                    forall|j: int|
                        1 <= j < i ==> !spec_matches_from(
                            tree,
                            styles@,
                            sel,
                            (k + 1) as nat,
                            #[trigger] tree.ancestors(e)[j],
                        ),
                decreases chain.len() - i,
            {
                if matches_from(tree, styles, sel, k + 1, chain[i]) {
                    assert(tree.ancestors(e)[i as int] == chain[i as int]);
                    return true;
                }
                i += 1;
            }
            false
        },
        Combinator::NextSibling => match tree.get_prev_sibling(e) {
            Some(s) => matches_from(tree, styles, sel, k + 1, s),
            None => false,
        },
        Combinator::LaterSibling => match tree.child_position(e) {
            None => false,
            Some(position) => {
                let parent = tree.get_parent(e).unwrap();
                let mut i: usize = 0;
                while i < position
                    invariant
                        tree.wf(),
                        styles.wf(),
                        k < sel.context.len(),
                        tree.parent_of(e) == Some(parent),
                        position as int == tree.position_of(e),
                        position < tree.children_of(parent).len(),
                        forall|j: int|
                            0 <= j < i ==> !spec_matches_from(
                                tree,
                                styles@,
                                sel,
                                (k + 1) as nat,
                                #[trigger] tree.children_of(parent)[j],
                            ),
                    decreases position - i,
                {
                    let sibling = tree.get_child(parent, i).unwrap();
                    if matches_from(tree, styles, sel, k + 1, sibling) {
                        assert(tree.children_of(parent)[i as int] == sibling);
                        return true;
                    }
                    i += 1;
                }
                false
            },
        },
    }
}

/// Whether the entity matches the selector.
pub fn matches_selector(
    tree: &Tree,
    styles: &SparseSet<StyleData>,
    sel: &Selector,
    e: Entity,
) -> (b: bool)
    requires
        tree.wf(),
        styles.wf(),
    ensures
        b == spec_matches_selector(tree, styles@, sel, e),
{
    matches_from(tree, styles, sel, 0, e)
}

/// Whether the entity matches one of the selectors of the list.
pub fn matches_selector_list(
    tree: &Tree,
    styles: &SparseSet<StyleData>,
    list: &SelectorList,
    e: Entity,
) -> (b: bool)
    requires
        tree.wf(),
        styles.wf(),
    ensures
        b == spec_matches_selector_list(tree, styles@, list, e),
{
    let mut i: usize = 0;
    while i < list.selectors.len()
        invariant
            tree.wf(),
            styles.wf(),
            i <= list.selectors.len(),
            forall|j: int|
                0 <= j < i ==> !spec_matches_selector(
                    tree,
                    styles@,
                    #[trigger] &list.selectors[j],
                    e,
                ),
        decreases list.selectors.len() - i,
    {
        if matches_selector(tree, styles, &list.selectors[i], e) {
            return true;
        }
        i += 1;
    }
    false
}

} // verus!
