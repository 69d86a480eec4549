//! The cascade: which declaration of which rule gives an entity each of its
//! properties.
//!
//! Of the declarations of a property in the rules that match an entity, the
//! one of the rule with the most specific matching selector wins; among
//! equals, the one that comes last.

use crate::entity::Entity;
use crate::matching::{matches_selector, spec_matches_selector};
use crate::selector::{Component, Compound, Selector, SelectorList, Step};
use crate::sparse_set::SparseSet;
use crate::style::{Declaration, Live, Properties, Role, Rule, StyleData};
use crate::tree::Tree;
use vstd::prelude::*;

verus! {

/// How specific a selector is: the number of id selectors in it, then the
/// number of class and pseudo-class selectors, then the number of element
/// selectors. Each number stops at the largest that fits.
#[derive(Clone, Copy, Debug, PartialEq, Eq, Structural)]
pub struct Specificity {
    pub ids: u32,
    pub classes: u32,
    pub elements: u32,
}

impl Specificity {
    /// `self` is no more specific than `other`: the numbers are compared in
    /// their order, the first difference decides.
    pub open spec fn le(self, other: Specificity) -> bool {
        self.ids < other.ids || (self.ids == other.ids && (self.classes < other.classes || (
        self.classes == other.classes && self.elements <= other.elements)))
    }

    /// Whether `self` is no more specific than `other`.
    pub fn is_at_most(self, other: Specificity) -> (b: bool)
        ensures
            b == self.le(other),
    {
        self.ids < other.ids || (self.ids == other.ids && (self.classes < other.classes || (
        self.classes == other.classes && self.elements <= other.elements)))
    }
}

/// What a simple selector counts as: 0 for an id, 1 for a class or a
/// pseudo-class, 2 for an element, 3 for the universal selector, which
/// counts as nothing.
pub open spec fn component_kind(c: &Component) -> int {
    match c {
        Component::Id(_) => 0,
        Component::Class(_) => 1,
        Component::PseudoClass(_) => 1,
        Component::Element(_) => 2,
        Component::Universal => 3,
    }
}

/// How many of the simple selectors count as `kind`.
pub open spec fn count_parts(parts: Seq<Component>, kind: int) -> nat
    decreases parts.len(),
{
    if parts.len() == 0 {
        0
    } else {
        count_parts(parts.drop_last(), kind) + if component_kind(&parts.last()) == kind {
            1nat
        } else {
            0nat
        }
    }
}

/// How many of the simple selectors of the steps count as `kind`.
pub open spec fn count_context(steps: Seq<Step>, kind: int) -> nat
    decreases steps.len(),
{
    if steps.len() == 0 {
        0
    } else {
        count_context(steps.drop_last(), kind) + count_parts(steps.last().compound.parts@, kind)
    }
}

/// A number cut off at the largest that fits.
pub open spec fn clamp(n: nat) -> u32 {
    if n > u32::MAX {
        u32::MAX
    } else {
        n as u32
    }
}

/// The specificity of a selector.
pub open spec fn spec_specificity(sel: &Selector) -> Specificity {
    Specificity {
        ids: clamp(count_parts(sel.subject.parts@, 0) + count_context(sel.context@, 0)),
        classes: clamp(count_parts(sel.subject.parts@, 1) + count_context(sel.context@, 1)),
        elements: clamp(count_parts(sel.subject.parts@, 2) + count_context(sel.context@, 2)),
    }
}

/// The sum, cut off at the largest number that fits.
fn add_clamped(a: u32, b: u32) -> (r: u32)
    ensures
        r == clamp((a + b) as nat),
{
    if a > u32::MAX - b {
        u32::MAX
    } else {
        a + b
    }
}

/// What the simple selectors of a compound selector count as.
fn count_compound(compound: &Compound) -> (r: Specificity)
    ensures
        r.ids == clamp(count_parts(compound.parts@, 0)),
        r.classes == clamp(count_parts(compound.parts@, 1)),
        r.elements == clamp(count_parts(compound.parts@, 2)),
{
    let mut r = Specificity { ids: 0, classes: 0, elements: 0 };
    let mut i: usize = 0;
    while i < compound.parts.len()
        invariant
            i <= compound.parts.len(),
            r.ids == clamp(count_parts(compound.parts@.take(i as int), 0)),
            r.classes == clamp(count_parts(compound.parts@.take(i as int), 1)),
            r.elements == clamp(count_parts(compound.parts@.take(i as int), 2)),
        decreases compound.parts.len() - i,
    {
        proof {
            let next = compound.parts@.take(i + 1);
            assert(next.drop_last() =~= compound.parts@.take(i as int));
            assert(next.last() == compound.parts@[i as int]);
        }
        match &compound.parts[i] {
            Component::Id(_) => {
                r.ids = add_clamped(r.ids, 1);
            },
            Component::Class(_) => {
                r.classes = add_clamped(r.classes, 1);
            },
            Component::PseudoClass(_) => {
                r.classes = add_clamped(r.classes, 1);
            },
            Component::Element(_) => {
                r.elements = add_clamped(r.elements, 1);
            },
            Component::Universal => {},
        }
        i += 1;
    }
    assert(compound.parts@.take(i as int) =~= compound.parts@);
    r
}

/// The specificity of a selector.
pub fn specificity(sel: &Selector) -> (r: Specificity)
    ensures
        r == spec_specificity(sel),
{
    let mut r = count_compound(&sel.subject);
    let mut i: usize = 0;
    while i < sel.context.len()
        invariant
            i <= sel.context.len(),
            r.ids == clamp(
                count_parts(sel.subject.parts@, 0) + count_context(sel.context@.take(i as int), 0),
            ),
            r.classes == clamp(
                count_parts(sel.subject.parts@, 1) + count_context(sel.context@.take(i as int), 1),
            ),
            r.elements == clamp(
                count_parts(sel.subject.parts@, 2) + count_context(sel.context@.take(i as int), 2),
            ),
        decreases sel.context.len() - i,
    {
        proof {
            let next = sel.context@.take(i + 1);
            assert(next.drop_last() =~= sel.context@.take(i as int));
            assert(next.last() == sel.context@[i as int]);
        }
        let c = count_compound(&sel.context[i].compound);
        r = Specificity {
            ids: add_clamped(r.ids, c.ids),
            classes: add_clamped(r.classes, c.classes),
            elements: add_clamped(r.elements, c.elements),
        };
        i += 1;
    }
    assert(sel.context@.take(i as int) =~= sel.context@);
    r
}

/// The specificity of the most specific of the first `n` selectors of the
/// list that match the entity; `None` if none of them matches.
pub open spec fn spec_list_specificity(
    tree: &Tree,
    styles: Map<Entity, StyleData>,
    list: &SelectorList,
    n: nat,
    e: Entity,
) -> Option<Specificity>
    decreases n,
{
    if n == 0 {
        None
    } else {
        let before = spec_list_specificity(tree, styles, list, (n - 1) as nat, e);
        let sel = &list.selectors[n - 1];
        if spec_matches_selector(tree, styles, sel, e) && !(before is Some && spec_specificity(
            sel,
        ).le(before.unwrap())) {
            Some(spec_specificity(sel))
        } else {
            before
        }
    }
}

/// What `spec_list_specificity` is: `None` exactly if no selector matches,
/// and else the specificity of a selector that matches, which none that
/// matches exceeds.
pub proof fn lemma_list_specificity(
    tree: &Tree,
    styles: Map<Entity, StyleData>,
    list: &SelectorList,
    n: nat,
    e: Entity,
)
    requires
        n <= list.selectors.len(),
    ensures
        spec_list_specificity(tree, styles, list, n, e) is None <==> forall|i: int|
            0 <= i < n ==> !spec_matches_selector(tree, styles, #[trigger] &list.selectors[i], e),
        spec_list_specificity(tree, styles, list, n, e) matches Some(s) ==> {
            &&& exists|i: int|
                0 <= i < n && spec_matches_selector(tree, styles, #[trigger] &list.selectors[i], e)
                    && spec_specificity(&list.selectors[i]) == s
            &&& forall|i: int|
                0 <= i < n && spec_matches_selector(tree, styles, #[trigger] &list.selectors[i], e)
                    ==> spec_specificity(&list.selectors[i]).le(s)
        },
    decreases n,
{
    if n > 0 {
        lemma_list_specificity(tree, styles, list, (n - 1) as nat, e);
        let before = spec_list_specificity(tree, styles, list, (n - 1) as nat, e);
        let now = spec_list_specificity(tree, styles, list, n, e);
        let sel = &list.selectors[n - 1];
        if spec_matches_selector(tree, styles, sel, e) {
            if before is Some && spec_specificity(sel).le(before.unwrap()) {
                let i = choose|i: int|
                    0 <= i < n - 1 && spec_matches_selector(
                        tree,
                        styles,
                        #[trigger] &list.selectors[i],
                        e,
                    ) && spec_specificity(&list.selectors[i]) == before.unwrap();
                assert(spec_matches_selector(tree, styles, &list.selectors[i], e));
            } else {
                assert(spec_matches_selector(tree, styles, &list.selectors[n - 1], e));
            }
        } else if before is Some {
            let i = choose|i: int|
                0 <= i < n - 1 && spec_matches_selector(
                    tree,
                    styles,
                    #[trigger] &list.selectors[i],
                    e,
                ) && spec_specificity(&list.selectors[i]) == before.unwrap();
            assert(spec_matches_selector(tree, styles, &list.selectors[i], e));
        }
    }
}

/// The specificity of the most specific selector of the list that matches
/// the entity.
pub fn list_specificity(
    tree: &Tree,
    styles: &SparseSet<StyleData>,
    list: &SelectorList,
    e: Entity,
) -> (r: Option<Specificity>)
    requires
        tree.wf(),
        styles.wf(),
    ensures
        r == spec_list_specificity(tree, styles@, list, list.selectors.len() as nat, e),
{
    let mut best: Option<Specificity> = None;
    let mut i: usize = 0;
    while i < list.selectors.len()
        invariant
            tree.wf(),
            styles.wf(),
            i <= list.selectors.len(),
            best == spec_list_specificity(tree, styles@, list, i as nat, e),
        decreases list.selectors.len() - i,
    {
        let sel = &list.selectors[i];
        if matches_selector(tree, styles, sel, e) {
            let s = specificity(sel);
            let keep = match best {
                Some(b) => s.is_at_most(b),
                None => false,
            };
            if !keep {
                best = Some(s);
            }
        }
        i += 1;
    }
    best
}

/// For each property, the value that wins so far and the specificity it won
/// with.
#[derive(Clone, Copy, Debug)]
pub struct Winners {
    pub role: Option<(Specificity, Role)>,
    pub disabled: Option<(Specificity, bool)>,
    pub hidden: Option<(Specificity, bool)>,
    pub live: Option<(Specificity, Live)>,
}

impl Winners {
    /// Nothing has won yet.
    pub open spec fn spec_none() -> Winners {
        Winners { role: None, disabled: None, hidden: None, live: None }
    }

    /// Nothing has won yet.
    #[verifier::when_used_as_spec(spec_none)]
    pub fn none() -> (w: Winners)
        ensures
            w == Winners::spec_none(),
    {
        Winners { role: None, disabled: None, hidden: None, live: None }
    }

    /// The values that have won.
    pub open spec fn spec_properties(self) -> Properties {
        Properties {
            role: if self.role is Some { Some(self.role.unwrap().1) } else { None },
            disabled: if self.disabled is Some { Some(self.disabled.unwrap().1) } else { None },
            hidden: if self.hidden is Some { Some(self.hidden.unwrap().1) } else { None },
            live: if self.live is Some { Some(self.live.unwrap().1) } else { None },
        }
    }

    /// The values that have won.
    #[verifier::when_used_as_spec(spec_properties)]
    pub fn properties(self) -> (p: Properties)
        ensures
            p == self.spec_properties(),
    {
        Properties {
            role: match self.role {
                Some(w) => Some(w.1),
                None => None,
            },
            disabled: match self.disabled {
                Some(w) => Some(w.1),
                None => None,
            },
            hidden: match self.hidden {
                Some(w) => Some(w.1),
                None => None,
            },
            live: match self.live {
                Some(w) => Some(w.1),
                None => None,
            },
        }
    }

    /// Whether a declaration made with specificity `s` takes the place of
    /// the holder: it does unless the holder is more specific.
    pub open spec fn yields<T>(holder: Option<(Specificity, T)>, s: Specificity) -> bool {
        holder is None || holder.unwrap().0.le(s)
    }

    /// The winners after a declaration made with specificity `s`.
    pub open spec fn spec_apply(self, s: Specificity, d: Declaration) -> Winners {
        match d {
            Declaration::Role(v) => if Winners::yields(self.role, s) {
                Winners { role: Some((s, v)), ..self }
            } else {
                self
            },
            Declaration::Disabled(v) => if Winners::yields(self.disabled, s) {
                Winners { disabled: Some((s, v)), ..self }
            } else {
                self
            },
            Declaration::Hidden(v) => if Winners::yields(self.hidden, s) {
                Winners { hidden: Some((s, v)), ..self }
            } else {
                self
            },
            Declaration::Live(v) => if Winners::yields(self.live, s) {
                Winners { live: Some((s, v)), ..self }
            } else {
                self
            },
        }
    }

    /// The winners after a declaration made with specificity `s`.
    #[verifier::when_used_as_spec(spec_apply)]
    pub fn apply(self, s: Specificity, d: Declaration) -> (w: Winners)
        ensures
            w == self.spec_apply(s, d),
    {
        let mut w = self;
        match d {
            Declaration::Role(v) => {
                let yields = match self.role {
                    Some(h) => h.0.is_at_most(s),
                    None => true,
                };
                if yields {
                    w.role = Some((s, v));
                }
            },
            Declaration::Disabled(v) => {
                let yields = match self.disabled {
                    Some(h) => h.0.is_at_most(s),
                    None => true,
                };
                if yields {
                    w.disabled = Some((s, v));
                }
            },
            Declaration::Hidden(v) => {
                let yields = match self.hidden {
                    Some(h) => h.0.is_at_most(s),
                    None => true,
                };
                if yields {
                    w.hidden = Some((s, v));
                }
            },
            Declaration::Live(v) => {
                let yields = match self.live {
                    Some(h) => h.0.is_at_most(s),
                    None => true,
                };
                if yields {
                    w.live = Some((s, v));
                }
            },
        }
        w
    }
}

/// The winners after the declarations of a rule, in their order, each made
/// with specificity `s`.
pub open spec fn apply_declarations(w: Winners, s: Specificity, decls: Seq<Declaration>) -> Winners
    decreases decls.len(),
{
    if decls.len() == 0 {
        w
    } else {
        apply_declarations(w, s, decls.drop_last()).spec_apply(s, decls.last())
    }
}

/// The winners after a rule: its declarations count if one of its selectors
/// matches the entity, with the specificity of the most specific that does.
pub open spec fn apply_rule(
    tree: &Tree,
    styles: Map<Entity, StyleData>,
    w: Winners,
    rule: &Rule,
    e: Entity,
) -> Winners {
    match spec_list_specificity(
        tree,
        styles,
        &rule.selectors,
        rule.selectors.selectors.len() as nat,
        e,
    ) {
        Some(s) => apply_declarations(w, s, rule.declarations@),
        None => w,
    }
}

/// The winners after the rules in their order.
pub open spec fn cascade(
    tree: &Tree,
    styles: Map<Entity, StyleData>,
    rules: Seq<Rule>,
    e: Entity,
) -> Winners
    decreases rules.len(),
{
    if rules.len() == 0 {
        Winners::spec_none()
    } else {
        apply_rule(tree, styles, cascade(tree, styles, rules.drop_last(), e), &rules.last(), e)
    }
}

/// The properties that the rules give to the entity.
pub open spec fn computed_properties(
    tree: &Tree,
    styles: Map<Entity, StyleData>,
    rules: Seq<Rule>,
    e: Entity,
) -> Properties {
    cascade(tree, styles, rules, e).spec_properties()
}

/// The properties that the rules give to the entity.
pub fn compute_properties(
    tree: &Tree,
    styles: &SparseSet<StyleData>,
    rules: &Vec<Rule>,
    e: Entity,
) -> (p: Properties)
    requires
        tree.wf(),
        styles.wf(),
    ensures
        p == computed_properties(tree, styles@, rules@, e),
{
    let mut w = Winners::none();
    let mut i: usize = 0;
    while i < rules.len()
        invariant
            tree.wf(),
            styles.wf(),
            i <= rules.len(),
            w == cascade(tree, styles@, rules@.take(i as int), e),
        decreases rules.len() - i,
    {
        proof {
            let next = rules@.take(i + 1);
            assert(next.drop_last() =~= rules@.take(i as int));
            assert(next.last() == rules@[i as int]);
        }
        let rule = &rules[i];
        match list_specificity(tree, styles, &rule.selectors, e) {
            Some(s) => {
                let mut j: usize = 0;
                let ghost start = w;
                while j < rule.declarations.len()
                    invariant
                        j <= rule.declarations.len(),
                        w == apply_declarations(start, s, rule.declarations@.take(j as int)),
                    decreases rule.declarations.len() - j,
                {
                    proof {
                        let next = rule.declarations@.take(j + 1);
                        assert(next.drop_last() =~= rule.declarations@.take(j as int));
                        assert(next.last() == rule.declarations@[j as int]);
                    }
                    w = w.apply(s, rule.declarations[j]);
                    j += 1;
                }
                assert(rule.declarations@.take(j as int) =~= rule.declarations@);
            },
            None => {},
        }
        i += 1;
    }
    assert(rules@.take(i as int) =~= rules@);
    w.properties()
}

} // verus!
