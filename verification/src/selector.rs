//! Compiled selectors.

use crate::flags::PseudoClass;
use vstd::prelude::*;

verus! {

/// A simple selector: one condition on an entity.
pub enum Component {
    /// `*`: every entity.
    Universal,
    /// `name`: the entities whose element has this name.
    Element(String),
    /// `#name`: the entity with this identifier.
    Id(String),
    /// `.name`: the entities with this class.
    Class(String),
    /// `:state`: the entities in this state.
    PseudoClass(PseudoClass),
}

/// A compound selector: an entity matches if it meets every condition.
pub struct Compound {
    pub parts: Vec<Component>,
}

/// How two compound selectors that stand side by side are related.
#[derive(Clone, Copy, Debug, PartialEq, Eq, Structural)]
pub enum Combinator {
    /// `a b`: the entity on the right lies somewhere below the one on the
    /// left.
    Descendant,
    /// `a > b`: the entity on the right is a child of the one on the left.
    Child,
    /// `a + b`: the entity on the right follows the one on the left at once
    /// among the children of their parent.
    NextSibling,
    /// `a ~ b`: the entity on the right follows the one on the left among
    /// the children of their parent.
    LaterSibling,
}

/// A compound selector with the combinator that ties it to its right
/// neighbour.
pub struct Step {
    pub combinator: Combinator,
    pub compound: Compound,
}

/// A complex selector, read from the right: the compound that the entity
/// itself must match, then, going left, what must hold of the entities it is
/// related to.
pub struct Selector {
    pub subject: Compound,
    pub context: Vec<Step>,
}

/// A list of selectors: an entity matches if it matches one of them.
pub struct SelectorList {
    pub selectors: Vec<Selector>,
}

impl Component {
    /// The selector `name`.
    pub fn element(name: &str) -> (c: Component)
        ensures
            c matches Component::Element(n) && n@ == name@,
    {
        Component::Element(name.to_owned())
    }

    /// The selector `#name`.
    pub fn id(name: &str) -> (c: Component)
        ensures
            c matches Component::Id(n) && n@ == name@,
    {
        Component::Id(name.to_owned())
    }

    /// The selector `.name`.
    pub fn class(name: &str) -> (c: Component)
        ensures
            c matches Component::Class(n) && n@ == name@,
    {
        Component::Class(name.to_owned())
    }
}

impl Selector {
    /// The selector that asks of an entity that it meet every condition of
    /// `parts`, and nothing of its relations.
    pub fn new(parts: Vec<Component>) -> (sel: Selector)
        ensures
            sel.subject.parts == parts,
            sel.context@.len() == 0,
    {
        Selector { subject: Compound { parts }, context: Vec::new() }
    }

    /// The selector with one more compound on its left: the entity that
    /// matched the leftmost compound so far must stand to an entity that
    /// meets every condition of `parts` as `combinator` says.
    pub fn with(self, combinator: Combinator, parts: Vec<Component>) -> (sel: Selector)
        ensures
            sel.subject == self.subject,
            sel.context@ == self.context@.push(Step { combinator, compound: Compound { parts } }),
    {
        let mut sel = self;
        sel.context.push(Step { combinator, compound: Compound { parts } });
        sel
    }
}

impl SelectorList {
    /// The list of the given selectors.
    pub fn new(selectors: Vec<Selector>) -> (list: SelectorList)
        ensures
            list.selectors == selectors,
    {
        SelectorList { selectors }
    }
}

} // verus!
