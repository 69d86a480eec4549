//! The focus: which entity has it, and the pseudo-classes that show it.

use crate::context::Context;
use crate::entity::Entity;
use crate::events::{Event, Message, Propagation, WindowEvent};
use crate::flags::{PseudoClass, PseudoClassFlags};
use crate::sparse_set::lemma_map_with_insert;
use crate::style::StyleData;
use crate::tree::Tree;
use crate::seq_lemmas::{lemma_seen_step, seen};
use crate::tree_lemmas::lemma_ancestors;
use vstd::prelude::*;

verus! {

/// The pseudo-classes of an entity after the focus has come to the target
/// (`enabled`) or left it. The target and each of its ancestors get or lose
/// `FocusWithin`. The target gets or loses `Focus`; it loses `FocusVisible`
/// with the focus, and gets it with the focus if the focus is to show.
pub open spec fn focus_flags(
    flags: PseudoClassFlags,
    is_target: bool,
    enabled: bool,
    visible: bool,
) -> PseudoClassFlags {
    let within = flags.with_state(PseudoClass::FocusWithin, enabled);
    if is_target {
        let focus = within.with_state(PseudoClass::Focus, enabled);
        if !enabled || visible {
            focus.with_state(PseudoClass::FocusVisible, enabled)
        } else {
            focus
        }
    } else {
        within
    }
}

/// What `focus_flags` does to each pseudo-class: `FocusWithin` follows the
/// focus; on the target `Focus` follows it too, and `FocusVisible` unless
/// the focus comes without showing; every other pseudo-class stays.
pub proof fn lemma_focus_flags(
    flags: PseudoClassFlags,
    is_target: bool,
    enabled: bool,
    visible: bool,
    state: PseudoClass,
)
    ensures
        focus_flags(flags, is_target, enabled, visible).has(state) == (if state
            == PseudoClass::FocusWithin {
            enabled
        } else if is_target && state == PseudoClass::Focus {
            enabled
        } else if is_target && state == PseudoClass::FocusVisible && (!enabled || visible) {
            enabled
        } else {
            flags.has(state)
        }),
{
    let within = flags.with_state(PseudoClass::FocusWithin, enabled);
    let focus = within.with_state(PseudoClass::Focus, enabled);
    flags.lemma_with_state(PseudoClass::FocusWithin, enabled, state);
    within.lemma_with_state(PseudoClass::Focus, enabled, state);
    focus.lemma_with_state(PseudoClass::FocusVisible, enabled, state);
}

/// What is said of the entity `x` after the focus has come to the target or
/// left it: the pseudo-classes change if the target is `x` or lies below it,
/// and nothing else does.
pub open spec fn focus_data(
    tree: &Tree,
    target: Entity,
    enabled: bool,
    visible: bool,
    x: Entity,
    d: StyleData,
) -> StyleData {
    if tree.is_within(x, target) {
        StyleData { pseudo_classes: focus_flags(d.pseudo_classes, x == target, enabled, visible), ..d }
    } else {
        d
    }
}

impl<V, M, E, G> Context<V, M, E, G> {
    /// Sets or clears the pseudo-classes that show the focus, on `target` and
    /// on its ancestors, and marks the accessibility node of each entity
    /// whose pseudo-classes it touched. Nothing changes if the target is not
    /// in the tree.
    pub fn set_focus_pseudo_classes(&mut self, target: Entity, enabled: bool, visible: bool)
        requires
            old(self).wf(),
        ensures
            final(self).wf(),
            final(self).style.data@.dom() == old(self).style.data@.dom(),
            forall|x: Entity|
                #[trigger] old(self).style.data@.contains_key(x) ==> final(self).style.data@[x]
                    == focus_data(
                    &old(self).tree,
                    target,
                    enabled,
                    visible,
                    x,
                    old(self).style.data@[x],
                ),
            forall|x: Entity|
                #[trigger] final(self).style.reaccess@.contains_key(x) <==> old(self).style.reaccess@.contains_key(x) || (old(self).tree.is_within(x, target) && old(self).style.data@.contains_key(x)),
            final(self).style.computed == old(self).style.computed,
            final(self).style.rules == old(self).style.rules,
            final(self).style.default_font == old(self).style.default_font,
            final(self).style.needs_restyle == old(self).style.needs_restyle,
            final(self).style.needs_relayout == old(self).style.needs_relayout,
            final(self).style.needs_redraw == old(self).style.needs_redraw,
            *final(self) == (Context { style: final(self).style, ..*old(self) }),
    {
        let chain = self.tree.parent_iter(target);
        proof {
            if self.tree.contains(target) {
                lemma_ancestors(self.tree, target);
            }
        }
        let mut i: usize = 0;
        while i < chain.len()
            invariant
                old(self).wf(),
                self.wf(),
                i <= chain.len(),
                chain@ == old(self).tree.ancestors(target),
                self.tree.contains(target) || chain@.len() == 0,
                forall|a: int, b: int|
                    0 <= a < b < chain@.len() ==> old(self).tree.rank(chain@[b]) < old(self).tree.rank(chain@[a]),
                chain@.len() > 0 ==> chain@[0] == target,
                self.style.data@.dom() == old(self).style.data@.dom(),
                forall|x: Entity|
                    #[trigger] old(self).style.data@.contains_key(x) ==> self.style.data@[x] == (
                    if seen(chain@, i as int, x) {
                        StyleData {
                            pseudo_classes: focus_flags(
                                old(self).style.data@[x].pseudo_classes,
                                x == target,
                                enabled,
                                visible,
                            ),
                            ..old(self).style.data@[x]
                        }
                    } else {
                        old(self).style.data@[x]
                    }),
                forall|x: Entity|
                    #[trigger] self.style.reaccess@.contains_key(x) <==> old(self).style.reaccess@.contains_key(x) || (seen(chain@, i as int, x) && old(self).style.data@.contains_key(x)),
                self.style.computed == old(self).style.computed,
                self.style.rules == old(self).style.rules,
                self.style.default_font == old(self).style.default_font,
                self.style.needs_restyle == old(self).style.needs_restyle,
                self.style.needs_relayout == old(self).style.needs_relayout,
                self.style.needs_redraw == old(self).style.needs_redraw,
                *self == (Context { style: self.style, ..*old(self) }),
            decreases chain.len() - i,
        {
            let x = chain[i];
            let ghost before = *self;
            proof {
                assert(!seen(chain@, i as int, x)) by {
                    if seen(chain@, i as int, x) {
                        let j = choose|j: int| 0 <= j < i && chain@[j] == x;
                        assert(old(self).tree.rank(chain@[i as int]) < old(self).tree.rank(
                            chain@[j],
                        ));
                    }
                }
                assert((x == target) == (i == 0)) by {
                    if i > 0 {
                        assert(old(self).tree.rank(chain@[i as int]) < old(self).tree.rank(
                            chain@[0],
                        ));
                    }
                }
            }
            let touched = match self.style.data.get_mut(x) {
                Some(d) => {
                    d.pseudo_classes.set(PseudoClass::FocusWithin, enabled);
                    if i == 0 {
                        d.pseudo_classes.set(PseudoClass::Focus, enabled);
                        if !enabled || visible {
                            d.pseudo_classes.set(PseudoClass::FocusVisible, enabled);
                        }
                    }
                    true
                },
                None => false,
            };
            if touched {
                proof {
                    assert(self.tree.contains(x));
                    assert forall|k: Entity| self.style.reaccess@.contains_key(k) && k.index
                        == x.index implies k == x by {
                        assert(self.tree.contains(k));
                        self.tree.lemma_indices(x, k);
                    }
                    self.tree.lemma_indices(x, x);
                    lemma_map_with_insert(self.style.reaccess@, x, ());
                }
                self.style.reaccess.insert(x, ());
            }
            i += 1;
            proof {
                lemma_seen_step(chain@, i - 1);
                assert(self.style.data@.dom() =~= old(self).style.data@.dom());
                assert forall|y: Entity| #[trigger]
                    old(self).style.data@.contains_key(y) implies self.style.data@[y] == (if seen(
                    chain@,
                    i as int,
                    y,
                ) {
                    StyleData {
                        pseudo_classes: focus_flags(
                            old(self).style.data@[y].pseudo_classes,
                            y == target,
                            enabled,
                            visible,
                        ),
                        ..old(self).style.data@[y]
                    }
                } else {
                    old(self).style.data@[y]
                }) by {
                    assert(before.style.data@.contains_key(y));
                    if y != x {
                        assert(seen(chain@, i as int, y) == seen(chain@, i - 1, y));
                    }
                }
                assert forall|y: Entity| #[trigger]
                    self.style.reaccess@.contains_key(y) <==> old(self).style.reaccess@.contains_key(y) || (seen(chain@, i as int, y) && old(self).style.data@.contains_key(y)) by {
                    if y != x {
                        assert(seen(chain@, i as int, y) == seen(chain@, i - 1, y));
                        assert(self.style.reaccess@.contains_key(y)
                            == before.style.reaccess@.contains_key(y));
                    }
                }
            }
        }
        proof {
            assert forall|x: Entity| seen(chain@, chain@.len() as int, x) <==> old(self).tree.is_within(x, target) by {
                if seen(chain@, chain@.len() as int, x) {
                    let j = choose|j: int| 0 <= j < chain@.len() && chain@[j] == x;
                    assert(chain@.contains(chain@[j]));
                }
                if old(self).tree.is_within(x, target) {
                    let j = choose|j: int| 0 <= j < chain@.len() && chain@[j] == x;
                    assert(0 <= j < chain@.len() && chain@[j] == x);
                }
            }
            assert forall|x: Entity| #[trigger]
                old(self).style.data@.contains_key(x) implies self.style.data@[x] == focus_data(
                &old(self).tree,
                target,
                enabled,
                visible,
                x,
                old(self).style.data@[x],
            ) by {
                assert(seen(chain@, chain@.len() as int, x) <==> old(self).tree.is_within(
                    x,
                    target,
                ));
            }
            assert forall|x: Entity| #[trigger]
                self.style.reaccess@.contains_key(x) <==> old(self).style.reaccess@.contains_key(x)
                    || (old(self).tree.is_within(x, target) && old(self).style.data@.contains_key(
                    x,
                )) by {
                assert(seen(chain@, chain@.len() as int, x) <==> old(self).tree.is_within(
                    x,
                    target,
                ));
            }
        }
    }

    /// The message that tells an entity that it has lost the focus, as it is
    /// queued when the focus moves while `current` is the current entity.
    pub open spec fn focus_out_event(current: Entity, target: Entity) -> Event<E> {
        Event {
            message: Message::Window(WindowEvent::FocusOut),
            origin: current,
            target,
            propagation: Propagation::Direct,
            consumed: false,
        }
    }

    /// The message that tells an entity that it has got the focus.
    pub open spec fn focus_in_event(current: Entity, target: Entity) -> Event<E> {
        Event {
            message: Message::Window(WindowEvent::FocusIn),
            origin: current,
            target,
            propagation: Propagation::Direct,
            consumed: false,
        }
    }

    /// Gives the focus to the current entity; `visible` says whether the
    /// focus is to show.
    ///
    /// The pseudo-classes of the focus are cleared on the entity that had the
    /// focus and on its ancestors, and set on the current entity and on its
    /// ancestors. If the focus moves, the entity that had it is told so and
    /// the current entity is told that it has it, each by an event that goes
    /// to it directly. All three passes become due.
    pub fn focus_with_visibility(&mut self, visible: bool)
        requires
            old(self).wf(),
        ensures
            final(self).wf(),
            final(self).focused == old(self).current,
            old(self).current == old(self).focused ==> final(self).event_queue@ == old(self).event_queue@,
            old(self).current != old(self).focused ==> final(self).event_queue@ == old(self).event_queue@.push(
                Self::focus_out_event(old(self).current, old(self).focused),
            ).push(Self::focus_in_event(old(self).current, old(self).current)),
            final(self).style.data@.dom() == old(self).style.data@.dom(),
            forall|x: Entity|
                #[trigger] old(self).style.data@.contains_key(x) ==> final(self).style.data@[x]
                    == focus_data(
                    &old(self).tree,
                    old(self).current,
                    true,
                    visible,
                    x,
                    focus_data(
                        &old(self).tree,
                        old(self).focused,
                        false,
                        visible,
                        x,
                        old(self).style.data@[x],
                    ),
                ),
            forall|x: Entity|
                #[trigger] final(self).style.reaccess@.contains_key(x) <==> old(self).style.reaccess@.contains_key(x) || (old(self).style.data@.contains_key(x) && (old(self).tree.is_within(x, old(self).focused) || old(self).tree.is_within(
                    x,
                    old(self).current,
                ))),
            final(self).style.needs_restyle,
            final(self).style.needs_relayout,
            final(self).style.needs_redraw,
            final(self).style.computed == old(self).style.computed,
            final(self).style.rules == old(self).style.rules,
            final(self).style.default_font == old(self).style.default_font,
            *final(self) == (Context {
                style: final(self).style,
                event_queue: final(self).event_queue,
                focused: old(self).current,
                ..*old(self)
            }),
    {
        let old_focus = self.focused;
        let new_focus = self.current;
        self.set_focus_pseudo_classes(old_focus, false, visible);
        if self.current != self.focused {
            self.emit_to(old_focus, Message::Window(WindowEvent::FocusOut));
            self.emit_to(new_focus, Message::Window(WindowEvent::FocusIn));
            self.focused = self.current;
        }
        let ghost mid = *self;
        self.set_focus_pseudo_classes(new_focus, true, visible);
        self.style.needs_relayout = true;
        self.style.needs_redraw = true;
        self.style.needs_restyle = true;
        proof {
            assert(mid.tree == old(self).tree);
            assert forall|x: Entity| #[trigger]
                old(self).style.data@.contains_key(x) implies self.style.data@[x] == focus_data(
                &old(self).tree,
                old(self).current,
                true,
                visible,
                x,
                focus_data(
                    &old(self).tree,
                    old(self).focused,
                    false,
                    visible,
                    x,
                    old(self).style.data@[x],
                ),
            ) by {
                assert(mid.style.data@.contains_key(x));
            }
            assert forall|x: Entity| #[trigger]
                self.style.reaccess@.contains_key(x) <==> old(self).style.reaccess@.contains_key(x)
                    || (old(self).style.data@.contains_key(x) && (old(self).tree.is_within(
                    x,
                    old(self).focused,
                ) || old(self).tree.is_within(x, old(self).current))) by {
                assert(mid.style.reaccess@.contains_key(x) <==> old(self).style.reaccess@.contains_key(x) || (old(self).tree.is_within(x, old_focus)
                    && old(self).style.data@.contains_key(x)));
                assert(mid.style.data@.contains_key(x) == old(self).style.data@.contains_key(x));
            }
        }
    }

    /// Whether the focus shows on the entity that has it.
    pub open spec fn focus_is_visible(&self) -> bool {
        self.style.data@.contains_key(self.focused) && self.style.data@[self.focused].pseudo_classes.has(
            PseudoClass::FocusVisible,
        )
    }

    /// Gives the focus to the current entity. The focus shows if it showed on
    /// the entity that had it.
    pub fn focus(&mut self)
        requires
            old(self).wf(),
        ensures
            final(self).wf(),
            final(self).focused == old(self).current,
            old(self).current == old(self).focused ==> final(self).event_queue@ == old(self).event_queue@,
            old(self).current != old(self).focused ==> final(self).event_queue@ == old(self).event_queue@.push(
                Self::focus_out_event(old(self).current, old(self).focused),
            ).push(Self::focus_in_event(old(self).current, old(self).current)),
            final(self).style.data@.dom() == old(self).style.data@.dom(),
            forall|x: Entity|
                #[trigger] old(self).style.data@.contains_key(x) ==> final(self).style.data@[x]
                    == focus_data(
                    &old(self).tree,
                    old(self).current,
                    true,
                    old(self).focus_is_visible(),
                    x,
                    focus_data(
                        &old(self).tree,
                        old(self).focused,
                        false,
                        old(self).focus_is_visible(),
                        x,
                        old(self).style.data@[x],
                    ),
                ),
            forall|x: Entity|
                #[trigger] final(self).style.reaccess@.contains_key(x) <==> old(self).style.reaccess@.contains_key(x) || (old(self).style.data@.contains_key(x) && (old(self).tree.is_within(x, old(self).focused) || old(self).tree.is_within(
                    x,
                    old(self).current,
                ))),
            final(self).style.needs_restyle,
            final(self).style.needs_relayout,
            final(self).style.needs_redraw,
            final(self).style.computed == old(self).style.computed,
            final(self).style.rules == old(self).style.rules,
            final(self).style.default_font == old(self).style.default_font,
            *final(self) == (Context {
                style: final(self).style,
                event_queue: final(self).event_queue,
                focused: old(self).current,
                ..*old(self)
            }),
    {
        let visible = match self.style.data.get(self.focused) {
            Some(d) => d.pseudo_classes.contains(PseudoClass::FocusVisible),
            None => false,
        };
        self.focus_with_visibility(visible)
    }

    /// Sets or clears the pseudo-class `Selected` on the current entity, if
    /// anything is said of it, and marks its accessibility node. All three
    /// passes become due in any case.
    pub fn set_selected(&mut self, flag: bool)
        requires
            old(self).wf(),
        ensures
            final(self).wf(),
            final(self).style.data@.dom() == old(self).style.data@.dom(),
            forall|x: Entity|
                #[trigger] old(self).style.data@.contains_key(x) ==> final(self).style.data@[x] == (
                if x == old(self).current {
                    StyleData {
                        pseudo_classes: old(self).style.data@[x].pseudo_classes.with_state(
                            PseudoClass::Selected,
                            flag,
                        ),
                        ..old(self).style.data@[x]
                    }
                } else {
                    old(self).style.data@[x]
                }),
            forall|x: Entity|
                #[trigger] final(self).style.reaccess@.contains_key(x) <==> old(self).style.reaccess@.contains_key(x) || (x == old(self).current && old(self).style.data@.contains_key(x)),
            final(self).style.needs_restyle,
            final(self).style.needs_relayout,
            final(self).style.needs_redraw,
            final(self).style.computed == old(self).style.computed,
            final(self).style.rules == old(self).style.rules,
            final(self).style.default_font == old(self).style.default_font,
            *final(self) == (Context { style: final(self).style, ..*old(self) }),
    {
        let current = self.current;
        proof {
            if self.style.data@.contains_key(current) {
                assert(self.tree.contains(current));
                assert forall|k: Entity| self.style.reaccess@.contains_key(k) && k.index
                    == current.index implies k == current by {
                    assert(self.tree.contains(k));
                    self.tree.lemma_indices(current, k);
                }
                lemma_map_with_insert(self.style.reaccess@, current, ());
            }
        }
        match self.style.modify(current) {
            Some(d) => {
                d.pseudo_classes.set(PseudoClass::Selected, flag);
            },
            None => {},
        }
        self.style.needs_restyle = true;
        self.style.needs_relayout = true;
        self.style.needs_redraw = true;
        proof {
            assert(self.style.data@.dom() =~= old(self).style.data@.dom());
        }
    }
}

} // verus!
