use vstd::prelude::*;
use crate::acceptance::{lemma_accept_single, lemma_step_on_path, on_path};
use crate::action::ActionView;
use crate::grammar::Grammar;
use crate::parse_tables::ParseTables;
use crate::parse_tree::{Shape, leaf_places, leaf_places_of};
use crate::parser::{
    Config, STEP_LIMIT, Step, consecutive, effective_len, initial_config, lemma_step_tidy,
    not_epsilon, parse_shape, run, step, tidy,
};
use crate::production::ProductionView;
use crate::stack_safety::{lemma_reduce_fits, lemma_step_safe, no_epsilon_nodes, proper};
use crate::symbol::{Symbol, SymbolDb};

verus! {

/// The symbols of the subtrees of a shape, in their order.
pub open spec fn child_symbols(s: Shape) -> Seq<Symbol> {
    Seq::new(s.children.len(), |i: int| s.children[i].symbol)
}

/// The shape is a derivation tree of the grammar over the symbols `syms`: a leaf stands for
/// the terminal at its place; an inner node stands for a production of the grammar that
/// rewrites its symbol to the symbols of its subtrees, epsilon left out, and its subtrees
/// are derivation trees.
pub open spec fn derivation(g: &Grammar, syms: Seq<Symbol>, s: Shape) -> bool
    decreases s,
{
    if s.leaf {
        &&& 0 <= s.place < syms.len()
        &&& s.symbol == syms[s.place]
        &&& g.db().spec_is_terminal(s.symbol)
        &&& s.children.len() == 0
    } else {
        &&& exists|p: ProductionView|
            #[trigger] g.has_rule(p) && p.lhs == s.symbol && p.rhs.filter(not_epsilon())
                == child_symbols(s)
        &&& forall|i: int|
            0 <= i < s.children.len() ==> derivation(g, syms, #[trigger] s.children[i])
    }
}

/// Every subtree built so far is a derivation tree.
pub open spec fn derived_nodes(g: &Grammar, syms: Seq<Symbol>, c: Config) -> bool {
    forall|q: int| 0 <= q < c.nodes.len() ==> derivation(g, syms, #[trigger] c.nodes[q])
}

/// With the tables of a proper grammar a step of the parser builds derivation trees from
/// derivation trees.
pub proof fn lemma_step_derives(g: &Grammar, t: ParseTables, syms: Seq<Symbol>, c: Config)
    requires
        g.wf(),
        proper(g),
        t.built_from(g),
        on_path(t.spec_collection(), c),
        no_epsilon_nodes(c),
        derived_nodes(g, syms, c),
        0 <= c.cursor < syms.len(),
    ensures
        match step(t, syms, c) {
            Step::Next(c2) => derived_nodes(g, syms, c2),
            _ => true,
        },
{
    let s = c.states.last();
    let a = syms[c.cursor];
    let n = c.nodes.len() as int;
    match step(t, syms, c) {
        Step::Next(c2) => {
            match t.spec_action(s, a) {
                Some(ActionView::Shift(_)) => {
                    let it = t.lemma_action_from_item(g, s, a);
                    assert forall|q: int| 0 <= q < c2.nodes.len() implies derivation(
                        g,
                        syms,
                        #[trigger] c2.nodes[q],
                    ) by {
                        if q < n {
                            assert(c2.nodes[q] == c.nodes[q]);
                        }
                    }
                },
                Some(ActionView::Reduce(p)) => {
                    lemma_reduce_fits(g, t, syms, c, p);
                    let k = effective_len(p.rhs);
                    let node = c2.nodes[n - k];
                    assert(node.children == c.nodes.skip(n - k));
                    assert(child_symbols(node) =~= p.rhs.filter(not_epsilon())) by {
                        assert forall|m: int| 0 <= m < k implies child_symbols(node)[m]
                            == p.rhs.filter(not_epsilon())[m] by {
                            assert(node.children[m] == c.nodes[n - k + m]);
                        }
                    }
                    assert(g.has_rule(p) && p.lhs == node.symbol);
                    assert forall|i: int| 0 <= i < node.children.len() implies derivation(
                        g,
                        syms,
                        #[trigger] node.children[i],
                    ) by {
                        assert(node.children[i] == c.nodes[n - k + i]);
                    }
                    assert(derivation(g, syms, node));
                    assert forall|q: int| 0 <= q < c2.nodes.len() implies derivation(
                        g,
                        syms,
                        #[trigger] c2.nodes[q],
                    ) by {
                        if q < n - k {
                            assert(c2.nodes[q] == c.nodes[q]);
                        }
                    }
                },
                _ => {},
            }
        },
        _ => {},
    }
}

/// A parse that ends with a tree ends with a derivation tree for the start symbol whose
/// leaves are the tokens before the end of input at which it accepted.
proof fn lemma_run_derives(g: &Grammar, t: ParseTables, syms: Seq<Symbol>, c: Config, fuel: nat) -> (b:
    int)
    requires
        g.wf(),
        proper(g),
        t.built_from(g),
        on_path(t.spec_collection(), c),
        no_epsilon_nodes(c),
        derived_nodes(g, syms, c),
        tidy(syms, c),
        run(t, syms, c, fuel) is Ok,
    ensures
        0 <= b < syms.len(),
        syms[b] == SymbolDb::spec_eoi(),
        derivation(g, syms, run(t, syms, c, fuel)->Ok_0),
        run(t, syms, c, fuel)->Ok_0.symbol == g.spec_start(),
        leaf_places(run(t, syms, c, fuel)->Ok_0) == consecutive(0, b),
    decreases fuel,
{
    lemma_step_tidy(t, syms, c);
    lemma_step_safe(g, t, syms, c);
    lemma_step_derives(g, t, syms, c);
    match step(t, syms, c) {
        Step::Next(c2) => lemma_run_derives(g, t, syms, c2, (fuel - 1) as nat),
        Step::Done(r) => {
            lemma_accept_single(g, t, syms, c);
            t.lemma_action_from_item(g, c.states.last(), syms[c.cursor]);
            let shape = r->Ok_0;
            assert(leaf_places_of(c.nodes, 1) =~= leaf_places(shape)) by {
                assert(leaf_places_of(c.nodes, 0) =~= Seq::<int>::empty());
            }
            c.cursor
        },
    }
}

/// What the parser accepts is derived by the grammar. With the tables of a proper grammar,
/// a parse tree is a derivation tree for the start symbol, and its leaves, read from left
/// to right, stand for all tokens of the input before the end of input at which it was
/// accepted, in their order.
pub proof fn lemma_accepted_is_derived(g: &Grammar, t: ParseTables, syms: Seq<Symbol>) -> (b: int)
    requires
        g.wf(),
        proper(g),
        t.built_from(g),
        parse_shape(t, syms) is Ok,
    ensures
        0 <= b < syms.len(),
        syms[b] == SymbolDb::spec_eoi(),
        derivation(g, syms, parse_shape(t, syms)->Ok_0),
        parse_shape(t, syms)->Ok_0.symbol == g.spec_start(),
        leaf_places(parse_shape(t, syms)->Ok_0) == consecutive(0, b),
{
    assert(leaf_places_of(initial_config().nodes, 0) =~= consecutive(0, 0));
    lemma_run_derives(g, t, syms, initial_config(), STEP_LIMIT as nat)
}

} // verus!
