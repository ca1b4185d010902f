use vstd::prelude::*;
use crate::action::ActionView;
use crate::canonical_collection::{
    CanonicalCollection, closure_of, initial_item, initial_production, items_closed,
    lemma_closure_least, shifted, spawn_set,
};
use crate::first_and_follow::{Family, first_family};
use crate::grammar::Grammar;
use crate::lr1_item::{ItemView, advanced, after_dot};
use crate::parse_tables::ParseTables;
use crate::parse_tree::{leaf_places, leaf_places_of};
use crate::parser::{
    Config, STEP_LIMIT, Step, consecutive, effective_len, initial_config, lemma_step_tidy,
    parse_shape, run, step, tidy,
};
use crate::production::ProductionView;
use crate::symbol::{Symbol, SymbolDb};

verus! {

/// The goal symbol stands in no right-hand side of the grammar.
pub open spec fn goal_apart(g: &Grammar) -> bool {
    forall|p: ProductionView|
        #[trigger] g.spec_productions().contains(p) ==> !p.rhs.contains(SymbolDb::spec_goal())
}

/// The goal symbol is not in the right-hand side of the item, and an item of the goal
/// symbol is the initial item or the initial item with the dot moved once.
pub open spec fn clean(g: &Grammar, it: ItemView) -> bool {
    &&& !it.production.rhs.contains(SymbolDb::spec_goal())
    &&& it.production.lhs == SymbolDb::spec_goal() ==> it.production == initial_production(g)
        && it.dot <= 1 && it.lookahead == SymbolDb::spec_eoi()
}

/// Every item of the set is clean.
pub open spec fn all_clean(g: &Grammar, items: Set<ItemView>) -> bool {
    forall|it: ItemView| #[trigger] items.contains(it) ==> clean(g, it)
}

/// The closure of clean items adds only items of productions that rewrite other symbols
/// than the goal, with the dot at the start.
pub proof fn lemma_closure_members(g: &Grammar, f: Family, items: Set<ItemView>, x: ItemView)
    requires
        g.wf(),
        goal_apart(g),
        all_clean(g, items),
        closure_of(g, f, items).contains(x),
    ensures
        items.contains(x) || (x.dot == 0 && g.has_rule(x.production) && x.production.lhs
            != SymbolDb::spec_goal()),
        clean(g, x),
{
    let goal = SymbolDb::spec_goal();
    let j = Set::new(
        |y: ItemView|
            items.contains(y) || (y.dot == 0 && g.has_rule(y.production) && y.production.lhs != goal),
    );
    assert(items_closed(g, f, j)) by {
        assert forall|it: ItemView, y: ItemView|
            j.contains(it) && #[trigger] spawn_set(g, f, it).contains(y) implies j.contains(y) by {
            let rhs = it.production.rhs;
            assert(after_dot(it)[0] == rhs[it.dot as int]);
            assert(rhs.contains(rhs[it.dot as int]));
            if items.contains(it) {
                assert(clean(g, it));
            } else {
                assert(g.spec_productions().contains(it.production));
            }
        }
    }
    assert(items.subset_of(j));
    assert(j.contains(x));
    if !items.contains(x) {
        assert(g.spec_productions().contains(x.production));
    }
}

/// Moving the dot of clean items gives clean items, and an item of the goal symbol among
/// them has the dot after its one symbol.
pub proof fn lemma_shifted_clean(g: &Grammar, items: Set<ItemView>, x: Symbol)
    requires
        all_clean(g, items),
    ensures
        all_clean(g, shifted(items, x)),
        forall|y: ItemView|
            #[trigger] shifted(items, x).contains(y) && y.production.lhs == SymbolDb::spec_goal()
                ==> y.dot == 1,
{
    assert forall|y: ItemView| #[trigger] shifted(items, x).contains(y) implies clean(g, y) && (
    y.production.lhs == SymbolDb::spec_goal() ==> y.dot == 1) by {
        let it = choose|it: ItemView|
            items.contains(it) && after_dot(it).len() > 0 && after_dot(it)[0] == x && y
                == #[trigger] advanced(it);
        assert(clean(g, it));
    }
}

/// In the collection of a grammar that keeps the goal symbol apart every item is clean, and
/// an item of the goal symbol has its dot at the start in state 0 and nowhere else.
pub proof fn lemma_states_clean(cc: CanonicalCollection, g: &Grammar, j: int)
    requires
        g.wf(),
        goal_apart(g),
        cc.wf(),
        cc.complete(g, first_family(g)),
        0 <= j < cc.spec_len(),
    ensures
        all_clean(g, cc.spec_sets()[j]),
        forall|it: ItemView|
            #[trigger] cc.spec_sets()[j].contains(it) && it.production.lhs == SymbolDb::spec_goal()
                ==> (it.dot == 0 <==> j == 0),
        j == 0 ==> forall|it: ItemView| #[trigger] cc.spec_sets()[j].contains(it) ==> it.dot == 0,
    decreases j,
{
    let f = first_family(g);
    let goal = SymbolDb::spec_goal();
    g.lemma_wf();
    g.db().lemma_reserved();
    cc.lemma_wf();
    if j == 0 {
        let start = set![initial_item(g)];
        assert(all_clean(g, start)) by {
            let last = g.spec_productions().last();
            assert(g.spec_productions().contains(last));
            assert(last.rhs[0] == g.spec_start());
            assert(last.rhs.contains(g.spec_start()));
            assert forall|it: ItemView| #[trigger] start.contains(it) implies clean(g, it) by {
                assert(it == initial_item(g));
                if it.production.rhs.contains(goal) {
                    let w = choose|w: int|
                        0 <= w < it.production.rhs.len() && it.production.rhs[w] == goal;
                    assert(it.production.rhs[w] == g.spec_start());
                }
            }
        }
        assert forall|it: ItemView| #[trigger] cc.spec_sets()[0].contains(it) implies clean(g, it)
            && it.dot == 0 by {
            lemma_closure_members(g, f, start, it);
        }
    } else {
        assert(cc.rooted(j));
        let (i, x) = choose|i: int, x: Symbol|
            0 <= i < j && #[trigger] cc.spec_target(i, x) == Some(j as u32);
        lemma_states_clean(cc, g, i);
        assert(cc.edge_ok(g, f, i, x));
        let kernel = shifted(cc.spec_sets()[i], x);
        lemma_shifted_clean(g, cc.spec_sets()[i], x);
        assert forall|it: ItemView| #[trigger] cc.spec_sets()[j].contains(it) implies clean(g, it)
            && (it.production.lhs == goal ==> it.dot != 0) by {
            lemma_closure_members(g, f, kernel, it);
        }
    }
}

/// No transition of the collection leads to state 0.
pub proof fn lemma_no_way_back(cc: CanonicalCollection, g: &Grammar, i: int, x: Symbol)
    requires
        g.wf(),
        goal_apart(g),
        cc.wf(),
        cc.complete(g, first_family(g)),
    ensures
        cc.spec_target(i, x) != Some(0u32),
{
    let f = first_family(g);
    if cc.spec_target(i, x) == Some(0u32) {
        cc.lemma_wf();
        assert(cc.edge_ok(g, f, i, x));
        let it = choose|it: ItemView|
            cc.spec_sets()[i].contains(it) && after_dot(it).len() > 0 && (#[trigger] after_dot(it))[0]
                == x;
        assert(shifted(cc.spec_sets()[i], x).contains(advanced(it)));
        lemma_closure_least(g, f, shifted(cc.spec_sets()[i], x));
        assert(cc.spec_sets()[0].contains(advanced(it)));
        lemma_states_clean(cc, g, 0);
    }
}

/// The states on the stack are a walk through the collection from state 0, along the
/// symbols of the subtrees.
pub open spec fn on_path(cc: CanonicalCollection, c: Config) -> bool {
    &&& c.states.len() == c.nodes.len() + 1
    &&& c.states[0] == 0
    &&& forall|q: int|
        0 <= q < c.nodes.len() ==> cc.spec_target(c.states[q] as int, (#[trigger] c.nodes[q]).symbol)
            == Some(c.states[q + 1])
}

/// A step of the parser with the tables of a grammar keeps the stack a walk through the
/// collection.
pub proof fn lemma_step_on_path(g: &Grammar, t: ParseTables, syms: Seq<Symbol>, c: Config)
    requires
        t.built_from(g),
        on_path(t.spec_collection(), c),
    ensures
        match step(t, syms, c) {
            Step::Next(c2) => on_path(t.spec_collection(), c2),
            _ => true,
        },
{
    let cc = t.spec_collection();
    let state = c.states.last();
    let a = syms[c.cursor];
    match step(t, syms, c) {
        Step::Next(c2) => {
            match t.spec_action(state, a) {
                Some(ActionView::Shift(n)) => {
                    t.lemma_action_from_item(g, state, a);
                    assert forall|q: int| 0 <= q < c2.nodes.len() implies cc.spec_target(
                        c2.states[q] as int,
                        (#[trigger] c2.nodes[q]).symbol,
                    ) == Some(c2.states[q + 1]) by {
                        if q < c.nodes.len() {
                            assert(c2.nodes[q] == c.nodes[q]);
                        }
                    }
                },
                Some(ActionView::Reduce(p)) => {
                    let k = effective_len(p.rhs);
                    let kept = c.states.take(c.states.len() - k);
                    t.lemma_goto_from_transition(g, kept.last(), p.lhs);
                    assert forall|q: int| 0 <= q < c2.nodes.len() implies cc.spec_target(
                        c2.states[q] as int,
                        (#[trigger] c2.nodes[q]).symbol,
                    ) == Some(c2.states[q + 1]) by {
                        if q < c.nodes.len() - k {
                            assert(c2.nodes[q] == c.nodes[q]);
                        }
                    }
                },
                _ => {},
            }
        },
        _ => {},
    }
}

/// Where the parser accepts with the tables of a grammar that keeps the goal symbol apart,
/// one subtree has been built: the parse tree.
pub proof fn lemma_accept_single(g: &Grammar, t: ParseTables, syms: Seq<Symbol>, c: Config)
    requires
        g.wf(),
        goal_apart(g),
        t.built_from(g),
        on_path(t.spec_collection(), c),
        step(t, syms, c) is Done,
        step(t, syms, c)->Done_0 is Ok,
    ensures
        c.nodes.len() == 1,
        c.nodes[0].symbol == g.spec_start(),
{
    let cc = t.spec_collection();
    let f = first_family(g);
    let goal = SymbolDb::spec_goal();
    let n = c.nodes.len() as int;
    let s = c.states.last();
    let a = syms[c.cursor];
    assert(t.spec_action(s, a) == Some(ActionView::Accept));
    let it = t.lemma_action_from_item(g, s, a);
    cc.lemma_wf();
    lemma_states_clean(cc, g, s as int);
    assert(clean(g, it));
    assert(it.production == initial_production(g));
    assert(it.dot == 1);
    assert(s != 0);
    assert(n >= 1);
    let i = c.states[n - 1] as int;
    let x = c.nodes[n - 1].symbol;
    assert(cc.spec_target(i, x) == Some(s));
    assert(cc.edge_ok(g, f, i, x));
    lemma_states_clean(cc, g, i);
    let kernel = shifted(cc.spec_sets()[i], x);
    lemma_shifted_clean(g, cc.spec_sets()[i], x);
    lemma_closure_members(g, f, kernel, it);
    assert(kernel.contains(it));
    let it0 = choose|it0: ItemView|
        cc.spec_sets()[i].contains(it0) && after_dot(it0).len() > 0 && after_dot(it0)[0] == x && it
            == #[trigger] advanced(it0);
    assert(it0.dot == 0);
    assert(i == 0);
    assert(it0.production.rhs[0] == x);
    if n - 1 >= 1 {
        let q = n - 2;
        assert(cc.spec_target(c.states[q] as int, c.nodes[q].symbol) == Some(c.states[q + 1]));
        lemma_no_way_back(cc, g, c.states[q] as int, c.nodes[q].symbol);
    }
}

/// A parse that ends with a tree has read all tokens before the one at which it accepted
/// into the leaves of that tree.
proof fn lemma_run_covers(
    g: &Grammar,
    t: ParseTables,
    syms: Seq<Symbol>,
    c: Config,
    fuel: nat,
) -> (b: int)
    requires
        g.wf(),
        goal_apart(g),
        t.built_from(g),
        on_path(t.spec_collection(), c),
        tidy(syms, c),
        run(t, syms, c, fuel) is Ok,
    ensures
        0 <= b < syms.len(),
        syms[b] == SymbolDb::spec_eoi(),
        leaf_places(run(t, syms, c, fuel)->Ok_0) == consecutive(0, b),
    decreases fuel,
{
    lemma_step_tidy(t, syms, c);
    lemma_step_on_path(g, t, syms, c);
    match step(t, syms, c) {
        Step::Next(c2) => lemma_run_covers(g, t, syms, c2, (fuel - 1) as nat),
        Step::Done(r) => {
            lemma_accept_single(g, t, syms, c);
            t.lemma_action_from_item(g, c.states.last(), syms[c.cursor]);
            let shape = r->Ok_0;
            assert(leaf_places_of(c.nodes, 1) =~= leaf_places(shape)) by {
                assert(leaf_places_of(c.nodes, 0) =~= Seq::<int>::empty());
            }
            c.cursor
        },
    }
}

/// With the tables of a grammar that keeps the goal symbol apart, the leaves of a parse
/// tree, read from left to right, stand for all tokens of the input before the end of
/// input at which it was accepted, in their order.
pub proof fn lemma_tree_covers_input(g: &Grammar, t: ParseTables, syms: Seq<Symbol>) -> (b: int)
    requires
        g.wf(),
        goal_apart(g),
        t.built_from(g),
        parse_shape(t, syms) is Ok,
    ensures
        0 <= b < syms.len(),
        syms[b] == SymbolDb::spec_eoi(),
        leaf_places(parse_shape(t, syms)->Ok_0) == consecutive(0, b),
{
    assert(leaf_places_of(initial_config().nodes, 0) =~= consecutive(0, 0));
    lemma_run_covers(g, t, syms, initial_config(), STEP_LIMIT as nat)
}

} // verus!
