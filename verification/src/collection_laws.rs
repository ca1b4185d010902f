use vstd::prelude::*;
use crate::canonical_collection::{
    CanonicalCollection, closure_of, has_next, initial_item, initial_production, items_closed,
    lemma_closure_least, shifted, spawn_set,
};
use crate::first_and_follow::{
    Family, first_family, lemma_first_of_registered, nullable_prefix, walk,
};
use crate::grammar::Grammar;
use crate::lr1_item::{ItemView, advanced, after_dot};
use crate::production::registered;
use crate::symbol::Symbol;

verus! {

/// The production of the item is the initial production or one of the grammar, and the dot
/// is within it.
pub open spec fn tame(g: &Grammar, it: ItemView) -> bool {
    &&& it.production == initial_production(g) || g.has_rule(it.production)
    &&& it.dot <= it.production.rhs.len()
}

/// What is in a closure and was not in the set it was taken of is called for by an item of
/// the closure.
pub proof fn lemma_closure_added(g: &Grammar, f: Family, items: Set<ItemView>, x: ItemView) -> (it:
    ItemView)
    requires
        closure_of(g, f, items).contains(x),
        !items.contains(x),
    ensures
        closure_of(g, f, items).contains(it),
        spawn_set(g, f, it).contains(x),
{
    let c = closure_of(g, f, items);
    let j = Set::new(
        |y: ItemView|
            c.contains(y) && (items.contains(y) || exists|w: ItemView|
                c.contains(w) && #[trigger] spawn_set(g, f, w).contains(y)),
    );
    lemma_closure_least(g, f, items);
    assert(items_closed(g, f, j)) by {
        assert forall|w: ItemView, y: ItemView|
            j.contains(w) && #[trigger] spawn_set(g, f, w).contains(y) implies j.contains(y) by {
            assert(c.contains(w));
            assert(c.contains(y));
        }
    }
    assert(items.subset_of(j));
    assert(j.contains(x));
    choose|w: ItemView| c.contains(w) && #[trigger] spawn_set(g, f, w).contains(x)
}

/// The set that state `j` is the closure of: the initial item for state 0, and for another
/// state the items shifted along a transition that leads to it.
proof fn lemma_state_kernel(cc: CanonicalCollection, g: &Grammar, j: int) -> (kernel: Set<ItemView>)
    requires
        cc.wf(),
        cc.complete(g, first_family(g)),
        0 <= j < cc.spec_len(),
    ensures
        cc.spec_sets()[j] == closure_of(g, first_family(g), kernel),
        j == 0 ==> kernel == set![initial_item(g)],
        j != 0 ==> exists|i: int, x: Symbol|
            0 <= i < j && #[trigger] cc.spec_target(i, x) == Some(j as u32) && kernel == shifted(
                cc.spec_sets()[i],
                x,
            ),
{
    let f = first_family(g);
    cc.lemma_wf();
    if j == 0 {
        set![initial_item(g)]
    } else {
        assert(cc.rooted(j));
        let (i, x) = choose|i: int, x: Symbol|
            0 <= i < j && #[trigger] cc.spec_target(i, x) == Some(j as u32);
        assert(cc.edge_ok(g, f, i, x));
        shifted(cc.spec_sets()[i], x)
    }
}

/// Every item of every state of the collection is tame.
pub proof fn lemma_states_tame(cc: CanonicalCollection, g: &Grammar, j: int, it: ItemView)
    requires
        g.wf(),
        cc.wf(),
        cc.complete(g, first_family(g)),
        0 <= j < cc.spec_len(),
        cc.spec_sets()[j].contains(it),
    ensures
        tame(g, it),
    decreases j, 1int,
{
    let f = first_family(g);
    let kernel = lemma_state_kernel(cc, g, j);
    if kernel.contains(it) {
        if j != 0 {
            let (i, x) = choose|i: int, x: Symbol|
                0 <= i < j && #[trigger] cc.spec_target(i, x) == Some(j as u32) && kernel
                    == shifted(cc.spec_sets()[i], x);
            let it0 = choose|it0: ItemView|
                cc.spec_sets()[i].contains(it0) && after_dot(it0).len() > 0 && after_dot(it0)[0]
                    == x && it == #[trigger] advanced(it0);
            lemma_states_tame(cc, g, i, it0);
        }
    } else {
        let w = lemma_closure_added(g, f, kernel, it);
    }
}

/// The symbols of every item of every state of the collection are symbols of the grammar.
pub proof fn lemma_states_registered(cc: CanonicalCollection, g: &Grammar, j: int, it: ItemView)
    requires
        g.wf(),
        cc.wf(),
        cc.complete(g, first_family(g)),
        0 <= j < cc.spec_len(),
        cc.spec_sets()[j].contains(it),
    ensures
        registered(g.db(), it.production),
        g.db().contains(it.lookahead),
    decreases j,
{
    let f = first_family(g);
    let kernel = lemma_state_kernel(cc, g, j);
    g.lemma_wf();
    g.db().lemma_reserved();
    if kernel.contains(it) {
        if j != 0 {
            let (i, x) = choose|i: int, x: Symbol|
                0 <= i < j && #[trigger] cc.spec_target(i, x) == Some(j as u32) && kernel
                    == shifted(cc.spec_sets()[i], x);
            let it0 = choose|it0: ItemView|
                cc.spec_sets()[i].contains(it0) && after_dot(it0).len() > 0 && after_dot(it0)[0]
                    == x && it == #[trigger] advanced(it0);
            lemma_states_registered(cc, g, i, it0);
        }
    } else {
        let w = lemma_closure_added(g, f, kernel, it);
        g.lemma_rule_registered(it.production);
        let sentence = after_dot(w).skip(1).push(w.lookahead);
        assert(walk(f, sentence).contains(it.lookahead));
        let q = choose|q: int|
            0 <= q < sentence.len() && #[trigger] f(sentence[q]).contains(it.lookahead)
                && nullable_prefix(f, sentence, q);
        lemma_first_of_registered(g, sentence[q], it.lookahead);
    }
}

/// An item with the dot at the start, other than the initial item, is called for by an
/// item of its state: its production is one of the grammar, and a transition leads from
/// the state on the symbol that it rewrites.
pub proof fn lemma_fresh_has_parent(cc: CanonicalCollection, g: &Grammar, j: int, it: ItemView)
    requires
        g.wf(),
        cc.wf(),
        cc.complete(g, first_family(g)),
        0 <= j < cc.spec_len(),
        cc.spec_sets()[j].contains(it),
        it.dot == 0,
        it != initial_item(g),
    ensures
        g.has_rule(it.production),
        cc.spec_target(j, it.production.lhs) is Some,
{
    let f = first_family(g);
    let kernel = lemma_state_kernel(cc, g, j);
    if kernel.contains(it) {
        let (i, x) = choose|i: int, x: Symbol|
            0 <= i < j && #[trigger] cc.spec_target(i, x) == Some(j as u32) && kernel == shifted(
                cc.spec_sets()[i],
                x,
            );
        let it0 = choose|it0: ItemView|
            cc.spec_sets()[i].contains(it0) && after_dot(it0).len() > 0 && after_dot(it0)[0] == x
                && it == #[trigger] advanced(it0);
        assert(false);
    }
    let w = lemma_closure_added(g, f, kernel, it);
    assert(after_dot(w)[0] == it.production.lhs);
    assert(has_next(cc.spec_sets()[j], it.production.lhs));
    assert(cc.explored(j));
}

} // verus!
