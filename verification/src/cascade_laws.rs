//! What the cascade comes to: of the declarations of a property in the rules
//! that match an entity, the winner.

use crate::cascade::{
    apply_declarations, apply_rule, cascade, spec_list_specificity, Specificity, Winners,
};
use crate::entity::Entity;
use crate::style::{Declaration, Rule, StyleData};
use crate::tree::Tree;
use vstd::prelude::*;

verus! {

/// The property that a declaration is about: 0 for the role, 1 for
/// `disabled`, 2 for `hidden`, 3 for `live`.
pub open spec fn kind_of(d: Declaration) -> int {
    match d {
        Declaration::Role(_) => 0,
        Declaration::Disabled(_) => 1,
        Declaration::Hidden(_) => 2,
        Declaration::Live(_) => 3,
    }
}

/// The declaration that holds a property so far, with the specificity it
/// won with.
pub open spec fn slot(w: Winners, kind: int) -> Option<(Specificity, Declaration)> {
    if kind == 0 {
        match w.role {
            Some(h) => Some((h.0, Declaration::Role(h.1))),
            None => None,
        }
    } else if kind == 1 {
        match w.disabled {
            Some(h) => Some((h.0, Declaration::Disabled(h.1))),
            None => None,
        }
    } else if kind == 2 {
        match w.hidden {
            Some(h) => Some((h.0, Declaration::Hidden(h.1))),
            None => None,
        }
    } else if kind == 3 {
        match w.live {
            Some(h) => Some((h.0, Declaration::Live(h.1))),
            None => None,
        }
    } else {
        None
    }
}

/// The specificity with which rule `i` applies to the entity; `None` if it
/// does not apply.
pub open spec fn rule_specificity(
    tree: &Tree,
    styles: Map<Entity, StyleData>,
    rules: Seq<Rule>,
    i: int,
    e: Entity,
) -> Option<Specificity> {
    spec_list_specificity(
        tree,
        styles,
        &rules[i].selectors,
        rules[i].selectors.selectors.len() as nat,
        e,
    )
}

/// Declaration `j` of rule `i` is a declaration of the property in a rule
/// that applies to the entity.
pub open spec fn is_candidate(
    tree: &Tree,
    styles: Map<Entity, StyleData>,
    rules: Seq<Rule>,
    e: Entity,
    kind: int,
    i: int,
    j: int,
) -> bool {
    &&& 0 <= i < rules.len()
    &&& rule_specificity(tree, styles, rules, i, e) is Some
    &&& 0 <= j < rules[i].declarations@.len()
    &&& kind_of(rules[i].declarations@[j]) == kind
}

/// The declaration at `(i, j)`, made with specificity `s`, is not beaten by
/// the one at `(i2, j2)`, made with specificity `s2`: the other is no more
/// specific, and if it is as specific, it does not come later.
pub open spec fn holds_against(s: Specificity, i: int, j: int, s2: Specificity, i2: int, j2: int) -> bool {
    s2.le(s) && (s.le(s2) ==> i2 < i || (i2 == i && j2 <= j))
}

/// The place of the last declaration of the property among the first `n`
/// declarations; -1 if there is none.
pub open spec fn last_of_kind(decls: Seq<Declaration>, kind: int, n: int) -> int
    decreases n,
{
    if n <= 0 {
        -1
    } else if kind_of(decls[n - 1]) == kind {
        n - 1
    } else {
        last_of_kind(decls, kind, n - 1)
    }
}

/// What `last_of_kind` finds is a declaration of the property, and none
/// follows it.
proof fn lemma_last_of_kind(decls: Seq<Declaration>, kind: int, n: int)
    requires
        0 <= n <= decls.len(),
    ensures
        -1 <= last_of_kind(decls, kind, n) < n,
        last_of_kind(decls, kind, n) >= 0 ==> kind_of(decls[last_of_kind(decls, kind, n)]) == kind,
        forall|j: int| last_of_kind(decls, kind, n) < j < n ==> kind_of(decls[j]) != kind,
    decreases n,
{
    if n > 0 && kind_of(decls[n - 1]) != kind {
        lemma_last_of_kind(decls, kind, n - 1);
    }
}

/// One declaration takes the place of the holder of its property if the
/// holder yields, and changes nothing else.
proof fn lemma_apply_slot(w: Winners, s: Specificity, d: Declaration, kind: int)
    ensures
        slot(w.spec_apply(s, d), kind) == (if kind_of(d) == kind && (slot(w, kind) is None || slot(
            w,
            kind,
        ).unwrap().0.le(s)) {
            Some((s, d))
        } else {
            slot(w, kind)
        }),
{
}

/// The declarations of one rule: if the holder of the property yields to the
/// specificity of the rule, the last declaration of the property in the rule
/// takes its place; else the holder stays.
proof fn lemma_declarations_slot(w: Winners, s: Specificity, decls: Seq<Declaration>, kind: int)
    ensures
        slot(apply_declarations(w, s, decls), kind) == (if last_of_kind(
            decls,
            kind,
            decls.len() as int,
        ) >= 0 && (slot(w, kind) is None || slot(w, kind).unwrap().0.le(s)) {
            Some((s, decls[last_of_kind(decls, kind, decls.len() as int)]))
        } else {
            slot(w, kind)
        }),
    decreases decls.len(),
{
    if decls.len() > 0 {
        let front = decls.drop_last();
        lemma_declarations_slot(w, s, front, kind);
        let before = apply_declarations(w, s, front);
        lemma_apply_slot(before, s, decls.last(), kind);
        lemma_last_of_kind(front, kind, front.len() as int);
        assert(last_of_kind(decls, kind, decls.len() - 1) == last_of_kind(
            front,
            kind,
            front.len() as int,
        )) by {
            lemma_last_of_kind_prefix(decls, front, kind, front.len() as int);
        }
        let l = last_of_kind(front, kind, front.len() as int);
        if l >= 0 {
            assert(front[l] == decls[l]);
        }
    }
}

/// `last_of_kind` looks at the first `n` declarations only.
proof fn lemma_last_of_kind_prefix(a: Seq<Declaration>, b: Seq<Declaration>, kind: int, n: int)
    requires
        0 <= n <= a.len(),
        n <= b.len(),
        forall|j: int| 0 <= j < n ==> a[j] == b[j],
    ensures
        last_of_kind(a, kind, n) == last_of_kind(b, kind, n),
    decreases n,
{
    if n > 0 && kind_of(a[n - 1]) != kind {
        lemma_last_of_kind_prefix(a, b, kind, n - 1);
    }
}

/// Being no more specific is a total preorder.
proof fn lemma_le(a: Specificity, b: Specificity, c: Specificity)
    ensures
        a.le(a),
        a.le(b) || b.le(a),
        a.le(b) && b.le(c) ==> a.le(c),
        a.le(b) && b.le(a) ==> a == b,
{
}

/// The winner of the cascade. For each property, the cascade gives none if
/// no rule that applies to the entity declares the property. Else it gives
/// the declaration of the property that no other beats: one in a rule that
/// applies with the highest specificity, and among those the one that comes
/// last.
pub proof fn lemma_cascade_winner(
    tree: &Tree,
    styles: Map<Entity, StyleData>,
    rules: Seq<Rule>,
    e: Entity,
    kind: int,
)
    requires
        0 <= kind < 4,
    ensures
        slot(cascade(tree, styles, rules, e), kind) is None <==> forall|i: int, j: int|
            !#[trigger] is_candidate(tree, styles, rules, e, kind, i, j),
        slot(cascade(tree, styles, rules, e), kind) matches Some(h) ==> exists|i: int, j: int|
            {
                &&& #[trigger] is_candidate(tree, styles, rules, e, kind, i, j)
                &&& h.0 == rule_specificity(tree, styles, rules, i, e).unwrap()
                &&& h.1 == rules[i].declarations@[j]
                &&& forall|i2: int, j2: int|
                    #[trigger] is_candidate(tree, styles, rules, e, kind, i2, j2) ==> holds_against(
                        h.0,
                        i,
                        j,
                        rule_specificity(tree, styles, rules, i2, e).unwrap(),
                        i2,
                        j2,
                    )
            },
    decreases rules.len(), 1nat,
{
    if rules.len() > 0 {
        lemma_cascade_step(tree, styles, rules, e, kind);
    }
}

/// The step of `lemma_cascade_winner` from the rules but the last to all
/// rules.
proof fn lemma_cascade_step(
    tree: &Tree,
    styles: Map<Entity, StyleData>,
    rules: Seq<Rule>,
    e: Entity,
    kind: int,
)
    requires
        0 <= kind < 4,
        rules.len() > 0,
    ensures
        slot(cascade(tree, styles, rules, e), kind) is None <==> forall|i: int, j: int|
            !#[trigger] is_candidate(tree, styles, rules, e, kind, i, j),
        slot(cascade(tree, styles, rules, e), kind) matches Some(h) ==> exists|i: int, j: int|
            {
                &&& #[trigger] is_candidate(tree, styles, rules, e, kind, i, j)
                &&& h.0 == rule_specificity(tree, styles, rules, i, e).unwrap()
                &&& h.1 == rules[i].declarations@[j]
                &&& forall|i2: int, j2: int|
                    #[trigger] is_candidate(tree, styles, rules, e, kind, i2, j2) ==> holds_against(
                        h.0,
                        i,
                        j,
                        rule_specificity(tree, styles, rules, i2, e).unwrap(),
                        i2,
                        j2,
                    )
            },
    decreases rules.len(), 0nat,
{
    let front = rules.drop_last();
    let n = rules.len() - 1;
    let rule = rules.last();
    lemma_cascade_winner(tree, styles, front, e, kind);
    let before = cascade(tree, styles, front, e);
    let after = cascade(tree, styles, rules, e);
    assert(after == apply_rule(tree, styles, before, &rule, e));
    let decls = rule.declarations@;
    let last = last_of_kind(decls, kind, decls.len() as int);
    lemma_last_of_kind(decls, kind, decls.len() as int);
    // The candidates of the rules before are the candidates with a rule
    // before the last.
    assert forall|i: int, j: int| i < n implies is_candidate(tree, styles, front, e, kind, i, j)
        == is_candidate(tree, styles, rules, e, kind, i, j) by {
        if 0 <= i {
            assert(front[i] == rules[i]);
        }
    }
    assert forall|i: int| 0 <= i < n implies rule_specificity(tree, styles, front, i, e)
        == rule_specificity(tree, styles, rules, i, e) by {
        assert(front[i] == rules[i]);
    }
    let s_rule = rule_specificity(tree, styles, rules, n, e);
    let takes = s_rule is Some && last >= 0 && (slot(before, kind) is None || slot(
        before,
        kind,
    ).unwrap().0.le(s_rule.unwrap()));
    if s_rule is Some {
        lemma_declarations_slot(before, s_rule.unwrap(), decls, kind);
    }
    if takes {
        let s = s_rule.unwrap();
        assert(slot(after, kind) == Some((s, decls[last])));
        assert(is_candidate(tree, styles, rules, e, kind, n, last));
        assert forall|i2: int, j2: int| #[trigger]
            is_candidate(tree, styles, rules, e, kind, i2, j2) implies holds_against(
            s,
            n,
            last,
            rule_specificity(tree, styles, rules, i2, e).unwrap(),
            i2,
            j2,
        ) by {
            let s2 = rule_specificity(tree, styles, rules, i2, e).unwrap();
            if i2 < n {
                assert(is_candidate(tree, styles, front, e, kind, i2, j2));
                let h = slot(before, kind).unwrap();
                let (i, j) = choose|i: int, j: int|
                    {
                        &&& #[trigger] is_candidate(tree, styles, front, e, kind, i, j)
                        &&& h.0 == rule_specificity(tree, styles, front, i, e).unwrap()
                        &&& h.1 == front[i].declarations@[j]
                        &&& forall|i3: int, j3: int|
                            #[trigger] is_candidate(tree, styles, front, e, kind, i3, j3)
                                ==> holds_against(
                                h.0,
                                i,
                                j,
                                rule_specificity(tree, styles, front, i3, e).unwrap(),
                                i3,
                                j3,
                            )
                    };
                assert(holds_against(
                    h.0,
                    i,
                    j,
                    rule_specificity(tree, styles, front, i2, e).unwrap(),
                    i2,
                    j2,
                ));
                lemma_le(s2, h.0, s);
            } else {
                lemma_le(s, s, s);
            }
        }
    } else {
        assert(slot(after, kind) == slot(before, kind));
        if slot(before, kind) is None {
            assert forall|i: int, j: int| !#[trigger] is_candidate(
                tree,
                styles,
                rules,
                e,
                kind,
                i,
                j,
            ) by {
                if is_candidate(tree, styles, rules, e, kind, i, j) {
                    if i < n {
                        assert(is_candidate(tree, styles, front, e, kind, i, j));
                    } else {
                        assert(kind_of(decls[j]) == kind);
                    }
                }
            }
        } else {
            let h = slot(before, kind).unwrap();
            let (i, j) = choose|i: int, j: int|
                {
                    &&& #[trigger] is_candidate(tree, styles, front, e, kind, i, j)
                    &&& h.0 == rule_specificity(tree, styles, front, i, e).unwrap()
                    &&& h.1 == front[i].declarations@[j]
                    &&& forall|i3: int, j3: int|
                        #[trigger] is_candidate(tree, styles, front, e, kind, i3, j3)
                            ==> holds_against(
                            h.0,
                            i,
                            j,
                            rule_specificity(tree, styles, front, i3, e).unwrap(),
                            i3,
                            j3,
                        )
                };
            assert(front[i] == rules[i]);
            assert(is_candidate(tree, styles, rules, e, kind, i, j));
            assert forall|i2: int, j2: int| #[trigger]
                is_candidate(tree, styles, rules, e, kind, i2, j2) implies holds_against(
                h.0,
                i,
                j,
                rule_specificity(tree, styles, rules, i2, e).unwrap(),
                i2,
                j2,
            ) by {
                if i2 < n {
                    assert(is_candidate(tree, styles, front, e, kind, i2, j2));
                    assert(holds_against(
                        h.0,
                        i,
                        j,
                        rule_specificity(tree, styles, front, i2, e).unwrap(),
                        i2,
                        j2,
                    ));
                } else {
                    // The last rule applies and declares the property, yet
                    // did not take the place of the holder: it is less
                    // specific.
                    assert(kind_of(decls[j2]) == kind);
                    assert(last >= 0);
                    lemma_le(h.0, s_rule.unwrap(), h.0);
                }
            }
        }
    }
}

} // verus!
