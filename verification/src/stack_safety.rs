use vstd::prelude::*;
use crate::acceptance::{clean, goal_apart, lemma_states_clean, lemma_step_on_path, on_path};
use crate::action::ActionView;
use crate::canonical_collection::{
    CanonicalCollection, initial_item, initial_production, shifted,
};
use crate::collection_laws::{lemma_closure_added, lemma_fresh_has_parent, lemma_states_tame};
use crate::errors::ParseError;
use crate::first_and_follow::first_family;
use crate::grammar::Grammar;
use crate::lr1_item::{ItemView, advanced, after_dot};
use crate::parse_tables::ParseTables;
use crate::parser::{
    Config, STEP_LIMIT, Step, effective_len, initial_config, not_epsilon, parse_shape, run, step,
};
use crate::production::ProductionView;
use crate::symbol::{Symbol, SymbolDb};

verus! {

/// Epsilon stands in a right-hand side of the grammar only where it is the whole of it.
pub open spec fn epsilon_alone(g: &Grammar) -> bool {
    forall|p: ProductionView|
        #[trigger] g.spec_productions().contains(p) && p.rhs.contains(SymbolDb::spec_epsilon())
            ==> p.rhs == seq![SymbolDb::spec_epsilon()]
}

/// The grammar is of the usual form: the start symbol is a nonterminal, the goal symbol
/// stands in no right-hand side, and epsilon only stands for an empty right-hand side.
pub open spec fn proper(g: &Grammar) -> bool {
    &&& g.db().spec_is_nonterminal(g.spec_start())
    &&& goal_apart(g)
    &&& epsilon_alone(g)
}

/// The configuration without its last state and subtree.
pub open spec fn popped(c: Config) -> Config {
    Config {
        states: c.states.take(c.states.len() - 1),
        nodes: c.nodes.take(c.nodes.len() - 1),
        cursor: c.cursor,
    }
}

/// The symbols before the dot of an item of the state on top are the symbols of the last
/// subtrees, and the state below them holds the item with the dot at the start.
pub proof fn lemma_stack_spells(cc: CanonicalCollection, g: &Grammar, c: Config, it: ItemView)
    requires
        g.wf(),
        goal_apart(g),
        cc.wf(),
        cc.complete(g, first_family(g)),
        on_path(cc, c),
        c.states.last() < cc.spec_len(),
        cc.spec_sets()[c.states.last() as int].contains(it),
    ensures
        it.dot <= c.nodes.len(),
        forall|m: int|
            0 <= m < it.dot ==> it.production.rhs[m] == (#[trigger] c.nodes[c.nodes.len() - it.dot
                + m]).symbol,
        c.states[c.nodes.len() - it.dot] < cc.spec_len(),
        cc.spec_sets()[c.states[c.nodes.len() - it.dot] as int].contains(
            ItemView { production: it.production, dot: 0, lookahead: it.lookahead },
        ),
    decreases it.dot,
{
    let f = first_family(g);
    let n = c.nodes.len() as int;
    let s = c.states.last() as int;
    cc.lemma_wf();
    if it.dot > 0 {
        lemma_states_clean(cc, g, s);
        if n == 0 {
            assert(s == 0);
            assert(false);
        }
        let i = c.states[n - 1] as int;
        let x = c.nodes[n - 1].symbol;
        assert(cc.spec_target(i, x) == Some(c.states[n]));
        assert(cc.edge_ok(g, f, i, x));
        let kernel = shifted(cc.spec_sets()[i], x);
        if !kernel.contains(it) {
            let w = lemma_closure_added(g, f, kernel, it);
            assert(false);
        }
        let it0 = choose|it0: ItemView|
            cc.spec_sets()[i].contains(it0) && after_dot(it0).len() > 0 && after_dot(it0)[0] == x
                && it == #[trigger] advanced(it0);
        let c0 = popped(c);
        assert(on_path(cc, c0)) by {
            assert forall|q: int| 0 <= q < c0.nodes.len() implies cc.spec_target(
                c0.states[q] as int,
                (#[trigger] c0.nodes[q]).symbol,
            ) == Some(c0.states[q + 1]) by {
                assert(c0.nodes[q] == c.nodes[q]);
            }
        }
        assert(c0.states.last() == c.states[n - 1]);
        lemma_stack_spells(cc, g, c0, it0);
        assert(it0.production.rhs[it0.dot as int] == x);
        assert forall|m: int| 0 <= m < it.dot implies it.production.rhs[m] == (#[trigger] c.nodes[n
            - it.dot + m]).symbol by {
            if m < it.dot - 1 {
                assert(c0.nodes[c0.nodes.len() - it0.dot + m] == c.nodes[n - it.dot + m]);
            }
        }
        assert(c0.states[c0.nodes.len() - it0.dot] == c.states[n - it.dot]);
    }
}

/// Leaving epsilon out of a row without epsilon leaves the row as it is.
pub proof fn lemma_effective_full(rhs: Seq<Symbol>)
    requires
        !rhs.contains(SymbolDb::spec_epsilon()),
    ensures
        rhs.filter(not_epsilon()) == rhs,
        effective_len(rhs) == rhs.len(),
    decreases rhs.len(),
{
    reveal(Seq::filter);
    if rhs.len() > 0 {
        let shorter = rhs.drop_last();
        assert forall|j: int| 0 <= j < shorter.len() implies shorter[j] != SymbolDb::spec_epsilon() by {
            assert(rhs[j] == shorter[j]);
            assert(rhs.contains(rhs[j]));
        }
        lemma_effective_full(shorter);
        assert(rhs.contains(rhs.last()));
        assert(shorter.push(rhs.last()) =~= rhs);
    }
}

/// No subtree on the stack carries epsilon.
pub open spec fn no_epsilon_nodes(c: Config) -> bool {
    forall|q: int| 0 <= q < c.nodes.len() ==> (#[trigger] c.nodes[q]).symbol != SymbolDb::spec_epsilon()
}

/// With the tables of a proper grammar a reduction fits the stack: the production is one
/// of the grammar, its symbols other than epsilon are the symbols of the last subtrees, and
/// GOTO has an entry for the state below them.
pub proof fn lemma_reduce_fits(
    g: &Grammar,
    t: ParseTables,
    syms: Seq<Symbol>,
    c: Config,
    p: ProductionView,
)
    requires
        g.wf(),
        proper(g),
        t.built_from(g),
        on_path(t.spec_collection(), c),
        no_epsilon_nodes(c),
        t.spec_action(c.states.last(), syms[c.cursor]) == Some(ActionView::Reduce(p)),
    ensures
        g.has_rule(p),
        effective_len(p.rhs) <= c.nodes.len(),
        forall|m: int|
            0 <= m < effective_len(p.rhs) ==> p.rhs.filter(not_epsilon())[m] == (#[trigger] c.nodes[c.nodes.len()
                - effective_len(p.rhs) + m]).symbol,
        t.spec_goto(c.states[c.nodes.len() - effective_len(p.rhs)], p.lhs) is Some,
{
    let cc = t.spec_collection();
    let eps = SymbolDb::spec_epsilon();
    let n = c.nodes.len() as int;
    let s = c.states.last();
    let a = syms[c.cursor];
    g.lemma_wf();
    g.db().lemma_reserved();
    cc.lemma_wf();
    let it = t.lemma_action_from_item(g, s, a);
    lemma_states_tame(cc, g, s as int, it);
    lemma_states_clean(cc, g, s as int);
    Symbol::lemma_id_injective(g.spec_start(), eps);
    if p == initial_production(g) {
        assert(clean(g, it));
        assert(after_dot(it).len() > 0);
        assert(p.rhs[it.dot as int] == g.spec_start());
        assert(false);
    }
    assert(g.spec_productions().contains(p));
    if after_dot(it).len() > 0 {
        assert(p.rhs[it.dot as int] == eps);
        assert(p.rhs.contains(eps));
        assert(p.rhs == seq![eps]);
        assert(it.dot == 0);
        crate::parser::lemma_epsilon_takes_nothing();
        lemma_fresh_has_parent(cc, g, s as int, it);
        assert(t.goto_filled(g.db(), s));
    } else {
        assert(it.dot == p.rhs.len());
        lemma_stack_spells(cc, g, c, it);
        if p.rhs.contains(eps) {
            assert(p.rhs == seq![eps]);
            assert(p.rhs[0] == c.nodes[n - 1 + 0].symbol);
            assert(false);
        }
        lemma_effective_full(p.rhs);
        let below = c.states[n - it.dot];
        let it0 = ItemView { production: p, dot: 0, lookahead: it.lookahead };
        lemma_fresh_has_parent(cc, g, below as int, it0);
        assert(t.goto_filled(g.db(), below));
    }
}

/// With the tables of a proper grammar a step of the parser never asks for more subtrees
/// than have been built and never misses an entry of GOTO.
pub proof fn lemma_step_safe(g: &Grammar, t: ParseTables, syms: Seq<Symbol>, c: Config)
    requires
        g.wf(),
        proper(g),
        t.built_from(g),
        on_path(t.spec_collection(), c),
        no_epsilon_nodes(c),
    ensures
        match step(t, syms, c) {
            Step::Next(c2) => no_epsilon_nodes(c2) && on_path(t.spec_collection(), c2),
            Step::Done(Err(ParseError::StackUnderflow)) => false,
            Step::Done(Err(ParseError::MissingGoto { state, nonterminal })) => false,
            _ => true,
        },
{
    let cc = t.spec_collection();
    let eps = SymbolDb::spec_epsilon();
    let s = c.states.last();
    let a = syms[c.cursor];
    g.lemma_wf();
    g.db().lemma_reserved();
    cc.lemma_wf();
    lemma_step_on_path(g, t, syms, c);
    match t.spec_action(s, a) {
        None => {},
        Some(ActionView::Shift(_)) => {
            let it = t.lemma_action_from_item(g, s, a);
            assert(a != eps);
        },
        Some(ActionView::Accept) => {
            let it = t.lemma_action_from_item(g, s, a);
            lemma_states_clean(cc, g, s as int);
            assert(it.production == initial_production(g));
            assert(it.dot == 1);
            assert(s != 0);
        },
        Some(ActionView::Reduce(p)) => {
            lemma_reduce_fits(g, t, syms, c, p);
            assert(p.lhs != eps) by {
                Symbol::lemma_id_injective(p.lhs, eps);
            }
            let k = effective_len(p.rhs);
            let kept = c.states.take(c.states.len() - k);
            assert(kept.last() == c.states[c.nodes.len() - k]);
            match step(t, syms, c) {
                Step::Next(c2) => {
                    assert forall|q: int| 0 <= q < c2.nodes.len() implies (#[trigger] c2.nodes[q]).symbol
                        != eps by {
                        if q < c2.nodes.len() - 1 {
                            assert(c2.nodes[q] == c.nodes[q]);
                        }
                    }
                },
                _ => {},
            }
        },
    }
}

/// With the tables of a proper grammar no parse fails for want of subtrees or of an entry
/// of GOTO.
proof fn lemma_run_safe(g: &Grammar, t: ParseTables, syms: Seq<Symbol>, c: Config, fuel: nat)
    requires
        g.wf(),
        proper(g),
        t.built_from(g),
        on_path(t.spec_collection(), c),
        no_epsilon_nodes(c),
    ensures
        match run(t, syms, c, fuel) {
            Err(ParseError::StackUnderflow) => false,
            Err(ParseError::MissingGoto { state, nonterminal }) => false,
            _ => true,
        },
    decreases fuel,
{
    if fuel > 0 {
        lemma_step_safe(g, t, syms, c);
        match step(t, syms, c) {
            Step::Next(c2) => lemma_run_safe(g, t, syms, c2, (fuel - 1) as nat),
            _ => {},
        }
    }
}

/// With the tables of a proper grammar a parse ends with a tree, with a token for which
/// the state has no action, with the end of the tokens, or for want of steps: it never
/// asks for more subtrees than have been built, and never misses an entry of GOTO.
pub proof fn lemma_parse_safe(g: &Grammar, t: ParseTables, syms: Seq<Symbol>)
    requires
        g.wf(),
        proper(g),
        t.built_from(g),
    ensures
        match parse_shape(t, syms) {
            Err(ParseError::StackUnderflow) => false,
            Err(ParseError::MissingGoto { state, nonterminal }) => false,
            _ => true,
        },
{
    if syms.len() > 0 {
        lemma_run_safe(g, t, syms, initial_config(), STEP_LIMIT as nat);
    }
}

} // verus!
