//! The restyle pass: every rule is held against every entity of the tree.

use crate::cascade::{compute_properties, computed_properties};
use crate::entity::Entity;
use crate::sparse_set::lemma_map_with_insert;
use crate::style::Style;
use crate::tree::Tree;
use crate::seq_lemmas::{lemma_seen_step, seen};
use crate::tree_lemmas::lemma_layout_order;
use vstd::prelude::*;

verus! {

/// Whether a restyle changes what the rules give to the entity.
pub open spec fn restyle_changes(tree: &Tree, style: &Style, e: Entity) -> bool {
    !(style.computed@.contains_key(e) && style.computed@[e] == computed_properties(
        tree,
        style.data@,
        style.rules@,
        e,
    ))
}

/// The stores that a restyle writes hold entries for entities of the tree
/// only.
pub open spec fn restyle_ready(tree: &Tree, style: &Style) -> bool {
    &&& forall|x: Entity| style.computed@.contains_key(x) ==> tree.contains(x)
    &&& forall|x: Entity| style.reaccess@.contains_key(x) ==> tree.contains(x)
}

/// Gives every entity of the tree the properties that the rules give it.
///
/// The pass is a full reconciliation: it does not ask what changed since the
/// last one. The accessibility node of each entity whose properties come out
/// different is marked as due. Afterwards no restyle is due, and layout and
/// drawing are.
pub fn restyle(tree: &Tree, style: &mut Style)
    requires
        tree.wf(),
        old(style).wf(),
        restyle_ready(tree, old(style)),
    ensures
        final(style).wf(),
        restyle_ready(tree, final(style)),
        final(style).data == old(style).data,
        final(style).rules == old(style).rules,
        final(style).default_font == old(style).default_font,
        !final(style).needs_restyle,
        final(style).needs_relayout,
        final(style).needs_redraw,
        forall|x: Entity| final(style).computed@.contains_key(x) <==> tree.contains(x),
        forall|x: Entity|
            tree.contains(x) ==> final(style).computed@[x] == computed_properties(
                tree,
                old(style).data@,
                old(style).rules@,
                x,
            ),
        forall|x: Entity|
            #[trigger] final(style).reaccess@.contains_key(x) <==> old(style).reaccess@.contains_key(
                x,
            ) || (tree.contains(x) && restyle_changes(tree, old(style), x)),
{
    let order = tree.layout_iter();
    proof {
        lemma_layout_order(*tree);
    }
    let mut i: usize = 0;
    while i < order.len()
        invariant
            tree.wf(),
            style.wf(),
            i <= order.len(),
            order@ == tree.layout_order(),
            order@.no_duplicates(),
            forall|x: Entity| #[trigger] order@.contains(x) <==> tree.contains(x),
            restyle_ready(tree, style),
            style.data == old(style).data,
            style.rules == old(style).rules,
            style.default_font == old(style).default_font,
            forall|x: Entity|
                seen(order@, i as int, x) ==> style.computed@.contains_key(x) && style.computed@[x]
                    == computed_properties(tree, old(style).data@, old(style).rules@, x),
            forall|x: Entity|
                !seen(order@, i as int, x) ==> style.computed@.contains_key(x) == old(style).computed@.contains_key(x) && (style.computed@.contains_key(x)
                    ==> style.computed@[x] == old(style).computed@[x]),
            forall|x: Entity|
                #[trigger] style.reaccess@.contains_key(x) <==> old(style).reaccess@.contains_key(x)
                    || (seen(order@, i as int, x) && restyle_changes(tree, old(style), x)),
        decreases order.len() - i,
    {
        let e = order[i];
        let ghost before = *style;
        proof {
            assert(order@.contains(e));
            assert(!seen(order@, i as int, e)) by {
                if seen(order@, i as int, e) {
                    let j = choose|j: int| 0 <= j < i && order@[j] == e;
                    assert(order@[j] == order@[i as int]);
                }
            }
            assert(tree.contains(e));
            assert forall|k: Entity| style.reaccess@.contains_key(k) && k.index
                == e.index implies k == e by {
                tree.lemma_indices(e, k);
            }
            assert forall|k: Entity| style.computed@.contains_key(k) && k.index
                == e.index implies k == e by {
                tree.lemma_indices(e, k);
            }
            tree.lemma_indices(e, e);
            lemma_map_with_insert(style.reaccess@, e, ());
        }
        let p = compute_properties(tree, &style.data, &style.rules, e);
        let same = match style.computed.get(e) {
            Some(c) => *c == p,
            None => false,
        };
        if !same {
            proof {
                lemma_map_with_insert(style.computed@, e, p);
            }
            style.computed.insert(e, p);
            style.reaccess.insert(e, ());
        }
        i += 1;
        proof {
            lemma_seen_step(order@, i - 1);
            assert(style.computed@.contains_key(e));
            assert(style.computed@[e] == p);
            assert forall|x: Entity| seen(order@, i as int, x) implies style.computed@.contains_key(x)
                && style.computed@[x] == computed_properties(
                tree,
                old(style).data@,
                old(style).rules@,
                x,
            ) by {
                if x != e {
                    assert(seen(order@, (i - 1), x));
                }
            }
            assert forall|x: Entity| !seen(order@, i as int, x) implies style.computed@.contains_key(
                x,
            ) == old(style).computed@.contains_key(x) && (style.computed@.contains_key(x)
                ==> style.computed@[x] == old(style).computed@[x]) by {
                assert(!seen(order@, (i - 1), x));
                assert(x != e);
            }
            assert forall|x: Entity|
                #[trigger] style.reaccess@.contains_key(x) <==> old(style).reaccess@.contains_key(x)
                    || (seen(order@, i as int, x) && restyle_changes(tree, old(style), x)) by {
                if x != e {
                    assert(seen(order@, i as int, x) == seen(order@, (i - 1), x));
                    assert(style.reaccess@.contains_key(x) == before.reaccess@.contains_key(x));
                } else {
                    assert(!seen(order@, (i - 1), e));
                }
            }
        }
    }
    style.needs_restyle = false;
    style.needs_relayout = true;
    style.needs_redraw = true;
    proof {
        assert forall|x: Entity| seen(order@, order@.len() as int, x) <==> tree.contains(x) by {
            if tree.contains(x) {
                assert(order@.contains(x));
                let j = choose|j: int| 0 <= j < order@.len() && order@[j] == x;
                assert(0 <= j < order@.len() && order@[j] == x);
            }
            if seen(order@, order@.len() as int, x) {
                let j = choose|j: int| 0 <= j < order@.len() && order@[j] == x;
                assert(order@.contains(order@[j]));
            }
        }
        assert forall|x: Entity|
            #[trigger] style.reaccess@.contains_key(x) <==> old(style).reaccess@.contains_key(x) || (
            tree.contains(x) && restyle_changes(tree, old(style), x)) by {
            assert(seen(order@, order@.len() as int, x) <==> tree.contains(x));
        }
        assert forall|x: Entity| style.computed@.contains_key(x) <==> tree.contains(x) by {
            assert(seen(order@, order@.len() as int, x) <==> tree.contains(x));
        }
        assert forall|x: Entity| tree.contains(x) implies style.computed@[x]
            == computed_properties(tree, old(style).data@, old(style).rules@, x) by {
            assert(seen(order@, order@.len() as int, x) <==> tree.contains(x));
        }
    }
}

} // verus!
