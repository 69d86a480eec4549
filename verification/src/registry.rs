//! What the context does with themes, stylesheets, fonts, images and the
//! identifiers of entities.

use crate::context::Context;
use crate::entity::Entity;
use crate::resource::{
    font_position, image_position, lemma_font_position, lemma_image_position,
    ImageRetentionPolicy, StoredFont, StoredImage,
};
use crate::sparse_set::{lemma_map_with_insert, SparseSet};
use crate::style::{Rule, StyleData};
use crate::style_system::{restyle, restyle_changes};
use crate::cascade::computed_properties;
use vstd::prelude::*;
use vstd::slice::slice_to_vec;

verus! {

/// The first of the entities of `order` from place `i` on whose identifier
/// is `identity`.
pub open spec fn first_with_id(
    styles: Map<Entity, StyleData>,
    order: Seq<Entity>,
    i: int,
    identity: Seq<char>,
) -> Option<Entity>
    decreases order.len() - i,
{
    if i < 0 || i >= order.len() {
        None
    } else if styles.contains_key(order[i]) && styles[order[i]].id is Some
        && styles[order[i]].id.unwrap()@ == identity {
        Some(order[i])
    } else {
        first_with_id(styles, order, i + 1, identity)
    }
}

impl<V, M, E, G> Context<V, M, E, G> {
    /// Adds a font from memory under a name. Nothing changes if a font has
    /// the name already.
    pub fn add_font_mem(&mut self, name: &str, data: &[u8])
        requires
            old(self).wf(),
        ensures
            final(self).wf(),
            font_position(old(self).resource_manager.fonts@, name@) < old(self).resource_manager.fonts@.len() ==> *final(self) == *old(self),
            font_position(old(self).resource_manager.fonts@, name@) >= old(self).resource_manager.fonts@.len() ==> {
                &&& final(self).resource_manager.fonts@.len() == old(self).resource_manager.fonts@.len() + 1
                &&& final(self).resource_manager.fonts@.drop_last() == old(self).resource_manager.fonts@
                &&& final(self).resource_manager.fonts@.last().name@ == name@
                &&& final(self).resource_manager.fonts@.last().data@ == data@
                &&& final(self).resource_manager.themes == old(self).resource_manager.themes
                &&& final(self).resource_manager.stylesheets == old(self).resource_manager.stylesheets
                &&& final(self).resource_manager.images == old(self).resource_manager.images
                &&& *final(self) == (Context {
                    resource_manager: final(self).resource_manager,
                    ..*old(self)
                })
            },
    {
        let owned = name.to_owned();
        let k = self.resource_manager.find_font(&owned);
        if k < self.resource_manager.fonts.len() {
            return ;
        }
        proof {
            lemma_font_position(self.resource_manager.fonts@, name@);
        }
        self.resource_manager.fonts.push(StoredFont { name: owned, data: slice_to_vec(data) });
        assert(self.resource_manager.fonts@.drop_last() =~= old(self).resource_manager.fonts@);
    }

    /// Names the font that is used where no other is asked for.
    pub fn set_default_font(&mut self, name: &str)
        ensures
            final(self).style.default_font@ == name@,
            final(self).style.data == old(self).style.data,
            final(self).style.computed == old(self).style.computed,
            final(self).style.reaccess == old(self).style.reaccess,
            final(self).style.rules == old(self).style.rules,
            final(self).style.needs_restyle == old(self).style.needs_restyle,
            final(self).style.needs_relayout == old(self).style.needs_relayout,
            final(self).style.needs_redraw == old(self).style.needs_redraw,
            *final(self) == (Context { style: final(self).style, ..*old(self) }),
    {
        self.style.default_font = name.to_owned();
    }

    /// Puts the rules that were read from the themes and the stylesheets in
    /// the place of the rules in force, and marks all three passes as due.
    /// Nothing changes if there is neither a theme nor a stylesheet.
    pub fn reload_styles(&mut self, rules: Vec<Rule>)
        ensures
            old(self).resource_manager.themes@.len() == 0 && old(self).resource_manager.stylesheets@.len() == 0 ==> *final(self) == *old(self),
            old(self).resource_manager.themes@.len() > 0 || old(self).resource_manager.stylesheets@.len() > 0 ==> {
                &&& final(self).style.rules == rules
                &&& final(self).style.needs_restyle
                &&& final(self).style.needs_relayout
                &&& final(self).style.needs_redraw
                &&& final(self).style.data == old(self).style.data
                &&& final(self).style.computed == old(self).style.computed
                &&& final(self).style.reaccess == old(self).style.reaccess
                &&& final(self).style.default_font == old(self).style.default_font
                &&& *final(self) == (Context { style: final(self).style, ..*old(self) })
            },
    {
        if self.resource_manager.themes.len() == 0 && self.resource_manager.stylesheets.len() == 0 {
            return ;
        }
        self.style.rules = rules;
        self.style.needs_restyle = true;
        self.style.needs_relayout = true;
        self.style.needs_redraw = true;
    }

    /// Adds a theme, and puts `rules`, the rules read from all themes and
    /// stylesheets with the new theme among them, in force.
    pub fn add_theme(&mut self, theme: &str, rules: Vec<Rule>)
        ensures
            final(self).resource_manager.themes@.len() == old(self).resource_manager.themes@.len()
                + 1,
            final(self).resource_manager.themes@.drop_last() == old(self).resource_manager.themes@,
            final(self).resource_manager.themes@.last()@ == theme@,
            final(self).resource_manager.stylesheets == old(self).resource_manager.stylesheets,
            final(self).resource_manager.fonts == old(self).resource_manager.fonts,
            final(self).resource_manager.images == old(self).resource_manager.images,
            final(self).style.rules == rules,
            final(self).style.needs_restyle,
            final(self).style.needs_relayout,
            final(self).style.needs_redraw,
            final(self).style.data == old(self).style.data,
            final(self).style.computed == old(self).style.computed,
            final(self).style.reaccess == old(self).style.reaccess,
            final(self).style.default_font == old(self).style.default_font,
            *final(self) == (Context {
                style: final(self).style,
                resource_manager: final(self).resource_manager,
                ..*old(self)
            }),
    {
        self.resource_manager.themes.push(theme.to_owned());
        assert(self.resource_manager.themes@.drop_last() =~= old(self).resource_manager.themes@);
        self.reload_styles(rules);
    }

    /// Forgets the themes of the application and goes back to the default
    /// layout and, unless the default theme is to be ignored, the default
    /// theme; `rules` are the rules read from what is left.
    pub fn remove_user_themes(&mut self, default_layout: &str, default_theme: &str, rules: Vec<Rule>)
        ensures
            old(self).ignore_default_theme ==> final(self).resource_manager.themes@.len() == 1,
            !old(self).ignore_default_theme ==> final(self).resource_manager.themes@.len() == 2
                && final(self).resource_manager.themes@[1]@ == default_theme@,
            final(self).resource_manager.themes@[0]@ == default_layout@,
            final(self).resource_manager.stylesheets == old(self).resource_manager.stylesheets,
            final(self).resource_manager.fonts == old(self).resource_manager.fonts,
            final(self).resource_manager.images == old(self).resource_manager.images,
            final(self).style.rules == rules,
            final(self).style.needs_restyle,
            final(self).style.needs_relayout,
            final(self).style.needs_redraw,
            final(self).style.data == old(self).style.data,
            final(self).style.computed == old(self).style.computed,
            final(self).style.reaccess == old(self).style.reaccess,
            final(self).style.default_font == old(self).style.default_font,
            *final(self) == (Context {
                style: final(self).style,
                resource_manager: final(self).resource_manager,
                ..*old(self)
            }),
    {
        self.resource_manager.themes.clear();
        self.resource_manager.themes.push(default_layout.to_owned());
        if !self.ignore_default_theme {
            self.resource_manager.themes.push(default_theme.to_owned());
        }
        self.reload_styles(rules);
    }

    /// Adds a stylesheet that was read from `path`: the path is remembered
    /// and the rules of the sheet are added behind the rules in force.
    pub fn add_stylesheet(&mut self, path: &str, rules: Vec<Rule>)
        ensures
            final(self).resource_manager.stylesheets@.len() == old(self).resource_manager.stylesheets@.len() + 1,
            final(self).resource_manager.stylesheets@.drop_last() == old(self).resource_manager.stylesheets@,
            final(self).resource_manager.stylesheets@.last()@ == path@,
            final(self).resource_manager.themes == old(self).resource_manager.themes,
            final(self).resource_manager.fonts == old(self).resource_manager.fonts,
            final(self).resource_manager.images == old(self).resource_manager.images,
            final(self).style.rules@ == old(self).style.rules@ + rules@,
            final(self).style.needs_restyle == old(self).style.needs_restyle,
            final(self).style.needs_relayout == old(self).style.needs_relayout,
            final(self).style.needs_redraw == old(self).style.needs_redraw,
            final(self).style.data == old(self).style.data,
            final(self).style.computed == old(self).style.computed,
            final(self).style.reaccess == old(self).style.reaccess,
            final(self).style.default_font == old(self).style.default_font,
            *final(self) == (Context {
                style: final(self).style,
                resource_manager: final(self).resource_manager,
                ..*old(self)
            }),
    {
        self.resource_manager.stylesheets.push(path.to_owned());
        assert(self.resource_manager.stylesheets@.drop_last() =~= old(self).resource_manager.stylesheets@);
        let mut rules = rules;
        self.style.rules.append(&mut rules);
    }

    /// Takes note of an image that was loaded from `path`. If the registry
    /// knows the path already, the image is marked as changed and gets the
    /// policy; else it enters the registry as used, unchanged and without
    /// observers. Layout and drawing become due.
    pub fn load_image(&mut self, path: String, policy: ImageRetentionPolicy)
        requires
            old(self).wf(),
        ensures
            final(self).wf(),
            ({
                let images = old(self).resource_manager.images@;
                let k = image_position(images, path@);
                if k < images.len() {
                    &&& final(self).resource_manager.images@.len() == images.len()
                    &&& forall|i: int|
                        0 <= i < images.len() && i != k ==> (
                        #[trigger] final(self).resource_manager.images@[i]) == images[i]
                    &&& final(self).resource_manager.images@[k].path == images[k].path
                    &&& final(self).resource_manager.images@[k].observers == images[k].observers
                    &&& final(self).resource_manager.images@[k].used == images[k].used
                    &&& final(self).resource_manager.images@[k].dirty
                    &&& final(self).resource_manager.images@[k].retention_policy == policy
                } else {
                    &&& final(self).resource_manager.images@.len() == images.len() + 1
                    &&& final(self).resource_manager.images@.drop_last() == images
                    &&& final(self).resource_manager.images@.last().path == path
                    &&& final(self).resource_manager.images@.last().retention_policy == policy
                    &&& final(self).resource_manager.images@.last().used
                    &&& !final(self).resource_manager.images@.last().dirty
                    &&& final(self).resource_manager.images@.last().observers@ == Map::<
                        Entity,
                        (),
                    >::empty()
                }
            }),
            final(self).resource_manager.themes == old(self).resource_manager.themes,
            final(self).resource_manager.stylesheets == old(self).resource_manager.stylesheets,
            final(self).resource_manager.fonts == old(self).resource_manager.fonts,
            final(self).style.needs_redraw,
            final(self).style.needs_relayout,
            final(self).style.needs_restyle == old(self).style.needs_restyle,
            final(self).style.data == old(self).style.data,
            final(self).style.computed == old(self).style.computed,
            final(self).style.reaccess == old(self).style.reaccess,
            final(self).style.rules == old(self).style.rules,
            final(self).style.default_font == old(self).style.default_font,
            *final(self) == (Context {
                style: final(self).style,
                resource_manager: final(self).resource_manager,
                ..*old(self)
            }),
    {
        let k = self.resource_manager.find_image(&path);
        proof {
            lemma_image_position(self.resource_manager.images@, path@);
        }
        if k < self.resource_manager.images.len() {
            let image = &mut self.resource_manager.images[k];
            image.dirty = true;
            image.retention_policy = policy;
        } else {
            self.resource_manager.images.push(
                StoredImage {
                    path,
                    retention_policy: policy,
                    used: true,
                    dirty: false,
                    observers: SparseSet::new(),
                },
            );
            assert(self.resource_manager.images@.drop_last() =~= old(self).resource_manager.images@);
        }
        self.style.needs_redraw = true;
        self.style.needs_relayout = true;
    }

    /// Notes that the entity shows the image with the path. Returns whether
    /// it was noted: the registry must know the path and the entity must be
    /// in the tree.
    pub fn add_image_observer(&mut self, path: &String, e: Entity) -> (added: bool)
        requires
            old(self).wf(),
        ensures
            final(self).wf(),
            added == (old(self).tree.contains(e) && image_position(
                old(self).resource_manager.images@,
                path@,
            ) < old(self).resource_manager.images@.len()),
            !added ==> *final(self) == *old(self),
            added ==> ({
                let images = old(self).resource_manager.images@;
                let k = image_position(images, path@);
                &&& final(self).resource_manager.images@.len() == images.len()
                &&& forall|i: int|
                    0 <= i < images.len() && i != k ==> (
                    #[trigger] final(self).resource_manager.images@[i]) == images[i]
                &&& final(self).resource_manager.images@[k].path == images[k].path
                &&& final(self).resource_manager.images@[k].used == images[k].used
                &&& final(self).resource_manager.images@[k].dirty == images[k].dirty
                &&& final(self).resource_manager.images@[k].retention_policy
                    == images[k].retention_policy
                &&& final(self).resource_manager.images@[k].observers@
                    == images[k].observers@.insert(e, ())
                &&& final(self).resource_manager.themes == old(self).resource_manager.themes
                &&& final(self).resource_manager.stylesheets == old(self).resource_manager.stylesheets
                &&& final(self).resource_manager.fonts == old(self).resource_manager.fonts
                &&& *final(self) == (Context {
                    resource_manager: final(self).resource_manager,
                    ..*old(self)
                })
            }),
    {
        if !self.tree.has(e) {
            return false;
        }
        let k = self.resource_manager.find_image(path);
        if k >= self.resource_manager.images.len() {
            return false;
        }
        proof {
            let observers = self.resource_manager.images@[k as int].observers;
            assert forall|x: Entity| observers@.contains_key(x) && x.index == e.index implies x
                == e by {
                assert(self.tree.contains(x));
                self.tree.lemma_indices(e, x);
            }
            self.tree.lemma_indices(e, e);
            lemma_map_with_insert(observers@, e, ());
        }
        self.resource_manager.images[k].observers.insert(e, ());
        true
    }

    /// The first entity in the order of layout that has the identifier.
    pub fn resolve_entity_identifier(&self, identity: &str) -> (r: Option<Entity>)
        requires
            self.wf(),
        ensures
            r == first_with_id(self.style.data@, self.tree.layout_order(), 0, identity@),
    {
        let wanted = identity.to_owned();
        let order = self.tree.layout_iter();
        let mut i: usize = 0;
        while i < order.len()
            invariant
                self.wf(),
                i <= order.len(),
                order@ == self.tree.layout_order(),
                wanted@ == identity@,
                first_with_id(self.style.data@, order@, i as int, identity@) == first_with_id(
                    self.style.data@,
                    order@,
                    0,
                    identity@,
                ),
            decreases order.len() - i,
        {
            let e = order[i];
            match self.style.data.get(e) {
                Some(d) => match &d.id {
                    Some(id) => {
                        if *id == wanted {
                            return Some(e);
                        }
                    },
                    None => {},
                },
                None => {},
            }
            i += 1;
        }
        None
    }

    /// Runs the restyle pass if one is due.
    pub fn restyle(&mut self)
        requires
            old(self).wf(),
        ensures
            final(self).wf(),
            !old(self).style.needs_restyle ==> *final(self) == *old(self),
            old(self).style.needs_restyle ==> {
                &&& final(self).style.data == old(self).style.data
                &&& final(self).style.rules == old(self).style.rules
                &&& final(self).style.default_font == old(self).style.default_font
                &&& !final(self).style.needs_restyle
                &&& final(self).style.needs_relayout
                &&& final(self).style.needs_redraw
                &&& forall|x: Entity|
                    #[trigger] final(self).style.computed@.contains_key(x) <==> old(self).tree.contains(x)
                &&& forall|x: Entity|
                    #[trigger] old(self).tree.contains(x) ==> final(self).style.computed@[x]
                        == computed_properties(
                        &old(self).tree,
                        old(self).style.data@,
                        old(self).style.rules@,
                        x,
                    )
                &&& forall|x: Entity|
                    #[trigger] final(self).style.reaccess@.contains_key(x) <==> old(self).style.reaccess@.contains_key(x) || (old(self).tree.contains(x)
                        && restyle_changes(&old(self).tree, &old(self).style, x))
                &&& *final(self) == (Context { style: final(self).style, ..*old(self) })
            },
    {
        if self.style.needs_restyle {
            restyle(&self.tree, &mut self.style);
        }
    }
}

} // verus!
