//! What is known of the style of each entity, the rules that apply to it,
//! and the flags that say which passes are due.

use crate::entity::Entity;
use crate::flags::{Abilities, PseudoClassFlags};
use crate::selector::SelectorList;
use crate::sparse_set::SparseSet;
use vstd::prelude::*;

verus! {

/// The part that an entity plays for assistive technology.
#[derive(Clone, Copy, Debug, PartialEq, Eq, Hash, Structural)]
pub enum Role {
    Unknown,
    Window,
    Group,
    Label,
    Button,
    CheckBox,
    RadioButton,
    Switch,
    TextInput,
    Slider,
    SpinButton,
    ProgressIndicator,
    List,
    ListItem,
    Menu,
    MenuItem,
    Tab,
    TabList,
    TabPanel,
    ScrollView,
    Image,
    Link,
    Dialog,
}

/// How changes to an entity are announced.
#[derive(Clone, Copy, Debug, PartialEq, Eq, Hash, Structural)]
pub enum Live {
    Off,
    Polite,
    Assertive,
}

/// The properties that a style rule can give to an entity. A property that
/// is `None` is not given.
#[derive(Clone, Copy, Debug, PartialEq, Eq, Structural)]
pub struct Properties {
    pub role: Option<Role>,
    pub disabled: Option<bool>,
    pub hidden: Option<bool>,
    pub live: Option<Live>,
}

impl Properties {
    /// No property given.
    pub fn none() -> (p: Properties)
        ensures
            p == (Properties { role: None, disabled: None, hidden: None, live: None }),
    {
        Properties { role: None, disabled: None, hidden: None, live: None }
    }

    /// The properties of `self` where it gives them, and those of `other`
    /// elsewhere.
    pub open spec fn spec_or(self, other: Properties) -> Properties {
        Properties {
            role: if self.role is Some { self.role } else { other.role },
            disabled: if self.disabled is Some { self.disabled } else { other.disabled },
            hidden: if self.hidden is Some { self.hidden } else { other.hidden },
            live: if self.live is Some { self.live } else { other.live },
        }
    }

    /// The properties of `self` where it gives them, and those of `other`
    /// elsewhere.
    #[verifier::when_used_as_spec(spec_or)]
    pub fn or(self, other: Properties) -> (p: Properties)
        ensures
            p == self.spec_or(other),
    {
        Properties {
            role: if self.role.is_some() { self.role } else { other.role },
            disabled: if self.disabled.is_some() { self.disabled } else { other.disabled },
            hidden: if self.hidden.is_some() { self.hidden } else { other.hidden },
            live: if self.live.is_some() { self.live } else { other.live },
        }
    }
}

/// One property with its value, as a style rule declares it.
#[derive(Clone, Copy, Debug, PartialEq, Eq, Structural)]
pub enum Declaration {
    Role(Role),
    Disabled(bool),
    Hidden(bool),
    Live(Live),
}

/// A style rule: the entities that one of the selectors matches get the
/// declared properties.
pub struct Rule {
    pub selectors: SelectorList,
    pub declarations: Vec<Declaration>,
}

/// What the application has said of one entity.
pub struct StyleData {
    /// The name of the kind of view, which type selectors match.
    pub element: Option<String>,
    /// The identifier, which id selectors match.
    pub id: Option<String>,
    /// The class names, which class selectors match.
    pub classes: Vec<String>,
    pub pseudo_classes: PseudoClassFlags,
    pub abilities: Abilities,
    /// Properties set on the entity itself. They go before those of rules.
    pub inline: Properties,
    pub name: Option<String>,
    pub text_value: Option<String>,
    pub numeric_value: Option<i64>,
    pub min_numeric_value: Option<i64>,
    pub max_numeric_value: Option<i64>,
    pub numeric_value_step: Option<i64>,
    /// The entity whose text labels this one.
    pub labelled_by: Option<Entity>,
}

impl StyleData {
    /// Whether the entity has the class.
    pub open spec fn has_class(&self, name: Seq<char>) -> bool {
        exists|k: int| 0 <= k < self.classes.len() && (#[trigger] self.classes[k])@ == name
    }

    /// Nothing has been said of the entity.
    pub open spec fn is_blank(&self) -> bool {
        &&& self.element is None
        &&& self.id is None
        &&& self.classes@.len() == 0
        &&& self.pseudo_classes.bits == 0
        &&& self.abilities.bits == 0
        &&& self.inline == (Properties { role: None, disabled: None, hidden: None, live: None })
        &&& self.name is None
        &&& self.text_value is None
        &&& self.numeric_value is None
        &&& self.min_numeric_value is None
        &&& self.max_numeric_value is None
        &&& self.numeric_value_step is None
        &&& self.labelled_by is None
    }

    /// The data of an entity of which nothing has been said.
    pub fn new() -> (d: StyleData)
        ensures
            d.is_blank(),
            forall|state: crate::flags::PseudoClass| !d.pseudo_classes.has(state),
            forall|ability: crate::flags::Ability| !d.abilities.has(ability),
    {
        StyleData {
            element: None,
            id: None,
            classes: Vec::new(),
            pseudo_classes: PseudoClassFlags::empty(),
            abilities: Abilities::empty(),
            inline: Properties::none(),
            name: None,
            text_value: None,
            numeric_value: None,
            min_numeric_value: None,
            max_numeric_value: None,
            numeric_value_step: None,
            labelled_by: None,
        }
    }
}

/// The style of all entities.
pub struct Style {
    /// What the application has said of each entity.
    pub data: SparseSet<StyleData>,
    /// What the rules give to each entity, as of the last restyle.
    pub computed: SparseSet<Properties>,
    /// The entities whose accessibility node must be made anew.
    pub reaccess: SparseSet<()>,
    pub rules: Vec<Rule>,
    pub needs_restyle: bool,
    pub needs_relayout: bool,
    pub needs_redraw: bool,
    pub default_font: String,
}

impl Style {
    /// The invariant of the stores.
    pub open spec fn wf(&self) -> bool {
        self.data.wf() && self.computed.wf() && self.reaccess.wf()
    }

    /// Whether one of the stores holds an entry for the entity.
    pub open spec fn mentions(&self, e: Entity) -> bool {
        self.data@.contains_key(e) || self.computed@.contains_key(e) || self.reaccess@.contains_key(e)
    }

    /// The properties in force for the entity: those set on it, then those
    /// that the rules gave it.
    pub open spec fn properties_of(&self, e: Entity) -> Properties {
        let inline = if self.data@.contains_key(e) {
            self.data@[e].inline
        } else {
            Properties { role: None, disabled: None, hidden: None, live: None }
        };
        let computed = if self.computed@.contains_key(e) {
            self.computed@[e]
        } else {
            Properties { role: None, disabled: None, hidden: None, live: None }
        };
        inline.spec_or(computed)
    }

    /// No entity, no rule, no pass due.
    pub fn new() -> (s: Style)
        ensures
            s.wf(),
            s.data@ == Map::<Entity, StyleData>::empty(),
            s.computed@ == Map::<Entity, Properties>::empty(),
            s.reaccess@ == Map::<Entity, ()>::empty(),
            s.rules@.len() == 0,
            !s.needs_restyle && !s.needs_relayout && !s.needs_redraw,
            s.default_font@.len() == 0,
    {
        Style {
            data: SparseSet::new(),
            computed: SparseSet::new(),
            reaccess: SparseSet::new(),
            rules: Vec::new(),
            needs_restyle: false,
            needs_relayout: false,
            needs_redraw: false,
            default_font: String::new(),
        }
    }

    /// The properties in force for the entity.
    pub fn properties(&self, e: Entity) -> (p: Properties)
        requires
            self.wf(),
        ensures
            p == self.properties_of(e),
    {
        let inline = match self.data.get(e) {
            Some(d) => d.inline,
            None => Properties::none(),
        };
        let computed = match self.computed.get(e) {
            Some(c) => *c,
            None => Properties::none(),
        };
        inline.or(computed)
    }

    /// Erases what the stores hold of the entity.
    pub fn remove(&mut self, e: Entity)
        requires
            old(self).wf(),
        ensures
            final(self).wf(),
            final(self).data@ == old(self).data@.remove(e),
            final(self).computed@ == old(self).computed@.remove(e),
            final(self).reaccess@ == old(self).reaccess@.remove(e),
            final(self).rules == old(self).rules,
            final(self).needs_restyle == old(self).needs_restyle,
            final(self).needs_relayout == old(self).needs_relayout,
            final(self).needs_redraw == old(self).needs_redraw,
            final(self).default_font == old(self).default_font,
    {
        self.data.remove(e);
        self.computed.remove(e);
        self.reaccess.remove(e);
    }

    /// Marks the accessibility node of the entity as due to be made anew.
    pub fn mark_reaccess(&mut self, e: Entity)
        requires
            old(self).wf(),
            e.index < 0xffff_ffff,
        ensures
            final(self).wf(),
            final(self).reaccess@ == crate::sparse_set::map_with(old(self).reaccess@, e, ()),
            final(self).data == old(self).data,
            final(self).computed == old(self).computed,
            final(self).rules == old(self).rules,
            final(self).needs_restyle == old(self).needs_restyle,
            final(self).needs_relayout == old(self).needs_relayout,
            final(self).needs_redraw == old(self).needs_redraw,
            final(self).default_font == old(self).default_font,
    {
        self.reaccess.insert(e, ());
    }

    /// Opens what is said of the entity to change. Because the change may
    /// show, all three passes become due and the accessibility node of the
    /// entity is marked; nothing happens if nothing is said of the entity.
    pub fn modify(&mut self, e: Entity) -> (r: Option<&mut StyleData>)
        requires
            old(self).wf(),
        ensures
            final(self).wf(),
            final(self).computed == old(self).computed,
            final(self).rules == old(self).rules,
            final(self).default_font == old(self).default_font,
            match r {
                Some(d) => {
                    &&& old(self).data@.contains_key(e)
                    &&& *d == old(self).data@[e]
                    &&& final(self).data@ == old(self).data@.insert(e, *final(d))
                    &&& final(self).reaccess@ == crate::sparse_set::map_with(
                        old(self).reaccess@,
                        e,
                        (),
                    )
                    &&& final(self).needs_restyle
                    &&& final(self).needs_relayout
                    &&& final(self).needs_redraw
                },
                None => {
                    &&& !old(self).data@.contains_key(e)
                    &&& final(self).data@ == old(self).data@
                    &&& final(self).reaccess@ == old(self).reaccess@
                    &&& final(self).needs_restyle == old(self).needs_restyle
                    &&& final(self).needs_relayout == old(self).needs_relayout
                    &&& final(self).needs_redraw == old(self).needs_redraw
                },
            },
    {
        if self.data.contains(e) {
            proof {
                self.data.lemma_key_bound(e);
            }
            self.reaccess.insert(e, ());
            self.needs_restyle = true;
            self.needs_relayout = true;
            self.needs_redraw = true;
        }
        self.data.get_mut(e)
    }
}

} // verus!
