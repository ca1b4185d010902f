use vstd::prelude::*;
use crate::grammar::Grammar;
use crate::production::{Production, ProductionView};
use crate::symbol::{Symbol, SymbolDb};
use crate::symbol_set::{
    SymbolSet, grid_below, grid_count, grid_size, lemma_grid_bound, lemma_grid_refl,
    lemma_grid_same_size, lemma_grid_strict, lemma_grid_trans,
};

verus! {

/// An assignment of a set of symbols to every symbol.
pub type Family = spec_fn(Symbol) -> Set<Symbol>;

/// The assignment that a row of sets stands for: the set at a symbol's number, and the empty
/// set where the row has none.
pub open spec fn family(sets: Seq<SymbolSet>) -> Family {
    |x: Symbol|
        if x.id() < sets.len() {
            sets[x.id() as int]@
        } else {
            Set::<Symbol>::empty()
        }
}

/// The row of sets as a table of marks.
pub open spec fn grid_of(sets: Seq<SymbolSet>) -> Seq<Seq<bool>> {
    Seq::new(sets.len(), |i: int| sets[i].marks())
}

/// Every set of the row ranges over the symbols numbered below `n`, and there are `n` sets.
pub open spec fn sets_fit(sets: Seq<SymbolSet>, n: nat) -> bool {
    &&& sets.len() == n
    &&& forall|i: int| 0 <= i < n ==> (#[trigger] sets[i]).capacity() == n
}

/// Each of the first `k` symbols of `s` has epsilon in its set.
pub open spec fn nullable_prefix(f: Family, s: Seq<Symbol>, k: int) -> bool {
    forall|j: int| 0 <= j < k ==> (#[trigger] f(s[j])).contains(SymbolDb::spec_epsilon())
}

/// What the first `k` symbols of `s` can begin with: the members of the set of each symbol
/// before which all symbols have epsilon in their sets.
pub open spec fn walk_upto(f: Family, s: Seq<Symbol>, k: int) -> Set<Symbol> {
    Set::new(
        |t: Symbol| exists|i: int| 0 <= i < k && #[trigger] f(s[i]).contains(t) && nullable_prefix(f, s, i),
    )
}

/// What the row `s` can begin with, epsilon among it where some set on the way holds it.
pub open spec fn walk(f: Family, s: Seq<Symbol>) -> Set<Symbol> {
    walk_upto(f, s, s.len() as int)
}

/// What a right-hand side gives to the set of its left-hand side: what it can begin with,
/// and epsilon only where every symbol of it has epsilon in its set.
pub open spec fn contribution(f: Family, rhs: Seq<Symbol>) -> Set<Symbol> {
    if nullable_prefix(f, rhs, rhs.len() as int) {
        walk(f, rhs)
    } else {
        walk(f, rhs).remove(SymbolDb::spec_epsilon())
    }
}

/// What a row of symbols can begin with, without epsilon.
pub open spec fn sentence_first(f: Family, s: Seq<Symbol>) -> Set<Symbol> {
    walk(f, s).remove(SymbolDb::spec_epsilon())
}

/// The set of the left-hand side of `p` holds all that the right-hand side gives.
pub open spec fn rule_closed(f: Family, p: ProductionView) -> bool {
    contribution(f, p.rhs).subset_of(f(p.lhs))
}

/// `f` holds each terminal in its own set and is closed under every production that
/// rewrites a nonterminal.
pub open spec fn first_closed(g: &Grammar, f: Family) -> bool {
    &&& forall|t: Symbol| g.db().spec_is_terminal(t) ==> #[trigger] f(t).contains(t)
    &&& forall|p: ProductionView| #[trigger] g.has_rule(p) ==> rule_closed(f, p)
}

/// FIRST of `x`: what is in the set of `x` under every closed assignment, that is, under the
/// least one. It is empty for a symbol that the grammar does not hold.
pub open spec fn first_of(g: &Grammar, x: Symbol) -> Set<Symbol> {
    Set::new(
        |t: Symbol|
            g.db().contains(x) && forall|f: Family| #[trigger] first_closed(g, f) ==> f(x).contains(t),
    )
}

/// FIRST as an assignment.
pub open spec fn first_family(g: &Grammar) -> Family {
    |x: Symbol| first_of(g, x)
}

/// A larger assignment gives a larger contribution.
pub proof fn lemma_contribution_monotone(f1: Family, f2: Family, s: Seq<Symbol>)
    requires
        forall|x: Symbol| #[trigger] f1(x).subset_of(f2(x)),
    ensures
        contribution(f1, s).subset_of(contribution(f2, s)),
        walk(f1, s).subset_of(walk(f2, s)),
{
    let eps = SymbolDb::spec_epsilon();
    assert forall|k: int| nullable_prefix(f1, s, k) implies nullable_prefix(f2, s, k) by {
        assert forall|j: int| 0 <= j < k implies (#[trigger] f2(s[j])).contains(eps) by {
            assert(f1(s[j]).contains(eps));
            assert(f1(s[j]).subset_of(f2(s[j])));
        }
    }
    assert forall|t: Symbol| walk(f1, s).contains(t) implies walk(f2, s).contains(t) by {
        let i = choose|i: int|
            0 <= i < s.len() && #[trigger] f1(s[i]).contains(t) && nullable_prefix(f1, s, i);
        assert(f1(s[i]).subset_of(f2(s[i])));
        assert(f2(s[i]).contains(t) && nullable_prefix(f2, s, i));
    }
    assert forall|t: Symbol| contribution(f1, s).contains(t) implies contribution(f2, s).contains(
        t,
    ) by {
        assert(walk(f1, s).contains(t));
        if t == eps {
            assert(nullable_prefix(f1, s, s.len() as int));
        }
    }
}

/// The least closed assignment is closed.
pub proof fn lemma_first_family_closed(g: &Grammar)
    requires
        g.wf(),
    ensures
        first_closed(g, first_family(g)),
{
    let ff = first_family(g);
    g.lemma_wf();
    assert forall|p: ProductionView| #[trigger] g.has_rule(p) implies rule_closed(ff, p) by {
        assert forall|t: Symbol| contribution(ff, p.rhs).contains(t) implies ff(p.lhs).contains(
            t,
        ) by {
            assert forall|f: Family| #[trigger] first_closed(g, f) implies f(p.lhs).contains(t) by {
                assert forall|x: Symbol| #[trigger] ff(x).subset_of(f(x)) by {}
                lemma_contribution_monotone(ff, f, p.rhs);
                assert(rule_closed(f, p));
            }
        }
    }
}

/// Every member of a FIRST set is a symbol of the grammar.
pub proof fn lemma_first_of_registered(g: &Grammar, x: Symbol, t: Symbol)
    requires
        g.wf(),
        first_of(g, x).contains(t),
    ensures
        g.db().contains(t),
        g.db().contains(x),
{
    let f: Family = |y: Symbol| Set::new(|u: Symbol| g.db().contains(u));
    assert(first_closed(g, f)) by {
        assert forall|p: ProductionView| #[trigger] g.has_rule(p) implies rule_closed(f, p) by {
            assert forall|u: Symbol| contribution(f, p.rhs).contains(u) implies f(p.lhs).contains(
                u,
            ) by {
                assert(walk(f, p.rhs).contains(u));
                let i = choose|i: int|
                    0 <= i < p.rhs.len() && #[trigger] f(p.rhs[i]).contains(u) && nullable_prefix(
                        f,
                        p.rhs,
                        i,
                    );
            }
        }
    }
    assert(f(x).contains(t));
}

/// FIRST of a terminal is the terminal alone.
pub proof fn lemma_first_of_terminal(g: &Grammar, t: Symbol)
    requires
        g.wf(),
        g.db().spec_is_terminal(t),
    ensures
        first_of(g, t) == set![t],
{
    let f: Family = |x: Symbol|
        if g.db().spec_is_terminal(x) {
            set![x]
        } else {
            Set::<Symbol>::full()
        };
    assert(first_closed(g, f)) by {
        assert forall|p: ProductionView| #[trigger] g.has_rule(p) implies rule_closed(f, p) by {
            assert(f(p.lhs) == Set::<Symbol>::full());
        }
    }
    assert(f(t) == set![t]);
    assert forall|u: Symbol| first_of(g, t).contains(u) implies u == t by {
        assert(f(t).contains(u));
    }
    assert(first_of(g, t) =~= set![t]);
}

/// FIRST of a nonterminal with an epsilon production holds epsilon.
pub proof fn lemma_first_of_epsilon_rule(g: &Grammar, a: Symbol)
    requires
        g.wf(),
        g.has_rule(ProductionView { lhs: a, rhs: seq![SymbolDb::spec_epsilon()] }),
    ensures
        first_of(g, a).contains(SymbolDb::spec_epsilon()),
{
    let eps = SymbolDb::spec_epsilon();
    let p = ProductionView { lhs: a, rhs: seq![eps] };
    g.lemma_wf();
    g.db().lemma_reserved();
    assert forall|f: Family| #[trigger] first_closed(g, f) implies f(a).contains(eps) by {
        assert(rule_closed(f, p));
        assert(f(eps).contains(eps));
        assert(p.rhs[0] == eps);
        assert(nullable_prefix(f, p.rhs, 0));
        assert(nullable_prefix(f, p.rhs, 1));
        assert(f(p.rhs[0]).contains(eps));
        assert(walk(f, p.rhs).contains(eps));
        assert(contribution(f, p.rhs).contains(eps));
    }
}

/// Every member of every set of the row is in FIRST of its symbol.
pub open spec fn first_sound(g: &Grammar, sets: Seq<SymbolSet>) -> bool {
    forall|x: Symbol| #[trigger] family(sets)(x).subset_of(first_of(g, x))
}

/// What a production contributes under a sound row is in FIRST of its left-hand side.
proof fn lemma_first_step_sound(g: &Grammar, sets: Seq<SymbolSet>, p: ProductionView)
    requires
        g.wf(),
        first_sound(g, sets),
        g.has_rule(p),
    ensures
        contribution(family(sets), p.rhs).subset_of(first_of(g, p.lhs)),
{
    let cur = family(sets);
    assert forall|t: Symbol| contribution(cur, p.rhs).contains(t) implies first_of(
        g,
        p.lhs,
    ).contains(t) by {
        assert forall|f: Family| #[trigger] first_closed(g, f) implies f(p.lhs).contains(t) by {
            assert forall|x: Symbol| #[trigger] cur(x).subset_of(f(x)) by {
                assert(family(sets)(x).subset_of(first_of(g, x)));
            }
            lemma_contribution_monotone(cur, f, p.rhs);
            assert(rule_closed(f, p));
        }
    }
}

/// The productions met so far in a pass over the nonterminals are closed under `f`: all
/// those of the symbols numbered below `x`, and the first `k` of the symbol numbered `x`.
pub open spec fn closed_so_far(g: &Grammar, f: Family, x: nat, k: nat) -> bool {
    forall|y: Symbol, j: int|
        g.db().spec_is_nonterminal(y) && 0 <= j < g.spec_rules(y).len() && (y.id() < x || (y.id()
            == x && j < k)) ==> rule_closed(f, #[trigger] g.spec_rules(y)[j])
}

/// What `rhs` contributes under the row `sets`.
fn contribution_of(sets: &Vec<SymbolSet>, rhs: &Vec<Symbol>, eps: Symbol) -> (r: SymbolSet)
    requires
        sets_fit(sets@, sets@.len()),
        eps == SymbolDb::spec_epsilon(),
        forall|j: int| 0 <= j < rhs@.len() ==> (#[trigger] rhs@[j]).id() < sets@.len(),
    ensures
        r@ == contribution(family(sets@), rhs@),
        r.capacity() == sets@.len(),
{
    let n = sets.len();
    let ghost f = family(sets@);
    let mut acc = SymbolSet::new(n);
    let mut i: usize = 0;
    assert(acc@ =~= walk_upto(f, rhs@, 0));
    while i < rhs.len()
        invariant
            i <= rhs@.len(),
            n == sets@.len(),
            f == family(sets@),
            sets_fit(sets@, n as nat),
            eps == SymbolDb::spec_epsilon(),
            forall|j: int| 0 <= j < rhs@.len() ==> (#[trigger] rhs@[j]).id() < sets@.len(),
            acc.capacity() == n,
            acc@ == walk_upto(f, rhs@, i as int),
            nullable_prefix(f, rhs@, i as int),
        decreases rhs@.len() - i,
    {
        let a = rhs[i];
        let fs = &sets[a.index()];
        let ghost before = acc@;
        acc.absorb(fs);
        proof {
            assert(f(rhs@[i as int]) == fs@);
            assert(acc@ =~= walk_upto(f, rhs@, i + 1)) by {
                assert forall|t: Symbol| acc@.contains(t) implies walk_upto(
                    f,
                    rhs@,
                    i + 1,
                ).contains(t) by {
                    if before.contains(t) {
                        let w = choose|w: int|
                            0 <= w < i && #[trigger] f(rhs@[w]).contains(t) && nullable_prefix(
                                f,
                                rhs@,
                                w,
                            );
                        assert(0 <= w < i + 1);
                    } else {
                        assert(f(rhs@[i as int]).contains(t));
                    }
                }
                assert forall|t: Symbol| walk_upto(f, rhs@, i + 1).contains(t) implies acc@.contains(
                    t,
                ) by {
                    let w = choose|w: int|
                        0 <= w < i + 1 && #[trigger] f(rhs@[w]).contains(t) && nullable_prefix(
                            f,
                            rhs@,
                            w,
                        );
                    if w < i {
                        assert(before.contains(t));
                    }
                }
            }
        }
        if !fs.contains(&eps) {
            acc.remove(eps);
            proof {
                assert(!nullable_prefix(f, rhs@, rhs@.len() as int)) by {
                    assert(!f(rhs@[i as int]).contains(eps));
                }
                assert(walk(f, rhs@) =~= walk_upto(f, rhs@, i + 1)) by {
                    assert forall|t: Symbol| walk(f, rhs@).contains(t) implies walk_upto(
                        f,
                        rhs@,
                        i + 1,
                    ).contains(t) by {
                        let w = choose|w: int|
                            0 <= w < rhs@.len() && #[trigger] f(rhs@[w]).contains(t)
                                && nullable_prefix(f, rhs@, w);
                        if w > i {
                            assert(f(rhs@[i as int]).contains(eps));
                        }
                    }
                }
            }
            return acc;
        }
        i += 1;
    }
    acc
}

/// Adds to the set of the left-hand side of `p` what its right-hand side contributes, and
/// says whether that set grew.
fn first_step(sets: &mut Vec<SymbolSet>, p: &Production, eps: Symbol) -> (grew: bool)
    requires
        sets_fit(old(sets)@, old(sets)@.len()),
        eps == SymbolDb::spec_epsilon(),
        p@.lhs.id() < old(sets)@.len(),
        forall|j: int| 0 <= j < p@.rhs.len() ==> (#[trigger] p@.rhs[j]).id() < old(sets)@.len(),
    ensures
        sets_fit(final(sets)@, old(sets)@.len()),
        final(sets)@[p@.lhs.id() as int]@ == old(sets)@[p@.lhs.id() as int]@.union(
            contribution(family(old(sets)@), p@.rhs),
        ),
        forall|y: int|
            0 <= y < old(sets)@.len() && y != p@.lhs.id() ==> final(sets)@[y] == old(sets)@[y],
        !grew ==> final(sets)@ == old(sets)@,
        grid_below(grid_of(old(sets)@), grid_of(final(sets)@)),
        grew ==> grid_count(grid_of(old(sets)@)) < grid_count(grid_of(final(sets)@)),
{
    let add = contribution_of(sets, p.rhs(), eps);
    let lhs = p.lhs().index();
    let grew = sets[lhs].absorb(&add);
    proof {
        let a = grid_of(old(sets)@);
        let b = grid_of(sets@);
        old(sets)@[lhs as int].lemma_marks();
        sets@[lhs as int].lemma_marks();
        assert(grid_below(a, b)) by {
            assert forall|r: int| 0 <= r < a.len() implies (#[trigger] a[r]).len() == (
            #[trigger] b[r]).len() by {
                old(sets)@[r].lemma_marks();
                sets@[r].lemma_marks();
            }
            assert forall|r: int, i: int|
                0 <= r < a.len() && 0 <= i < a[r].len() && #[trigger] a[r][i] implies #[trigger] b[r][i] by {
                old(sets)@[r].lemma_marks();
            }
        }
        if grew {
            let j = choose|j: int|
                0 <= j < old(sets)@[lhs as int].capacity() && !old(sets)@[lhs as int].marks()[j]
                    && sets@[lhs as int].marks()[j];
            lemma_grid_strict(a, b, lhs as int, j);
        } else {
            assert(sets@ =~= old(sets)@);
        }
    }
    grew
}

/// The FIRST sets of the grammar, one for each symbol, at the symbol's number.
pub fn first(grammar: &Grammar) -> (sets: Vec<SymbolSet>)
    requires
        grammar.wf(),
    ensures
        sets_fit(sets@, grammar.spec_symbols()),
        forall|x: Symbol|
            grammar.db().contains(x) ==> (#[trigger] sets@[x.id() as int])@ == first_of(grammar, x),
{
    let db = grammar.symbol_db();
    proof {
        grammar.lemma_wf();
        db.lemma_reserved();
    }
    let n = db.len();
    let eps = db.epsilon();
    let mut sets: Vec<SymbolSet> = Vec::new();
    let mut x: usize = 0;
    while x < n
        invariant
            x <= n,
            n == db@.len(),
            db.wf(),
            *db == grammar.db(),
            sets@.len() == x,
            forall|i: int| 0 <= i < x ==> (#[trigger] sets@[i]).capacity() == n,
            forall|i: int, t: Symbol|
                0 <= i < x ==> (#[trigger] sets@[i]@.contains(t) <==> (db.spec_is_terminal(t) && t.id()
                    == i)),
        decreases n - x,
    {
        let mut s = SymbolSet::new(n);
        let sym = Symbol::from_index(x);
        if db.is_terminal(&sym) {
            s.insert(sym);
        }
        proof {
            assert forall|t: Symbol| s@.contains(t) <==> (db.spec_is_terminal(t) && t.id() == x) by {
                Symbol::lemma_id_injective(t, sym);
            }
        }
        sets.push(s);
        x += 1;
    }
    proof {
        assert forall|y: Symbol| #[trigger] family(sets@)(y).subset_of(first_of(grammar, y)) by {
            assert forall|t: Symbol| family(sets@)(y).contains(t) implies first_of(
                grammar,
                y,
            ).contains(t) by {
                Symbol::lemma_id_injective(t, y);
            }
        }
    }
    let mut done = false;
    while !done
        invariant
            n == db@.len(),
            db.wf(),
            *db == grammar.db(),
            grammar.wf(),
            eps == SymbolDb::spec_epsilon(),
            sets_fit(sets@, n as nat),
            first_sound(grammar, sets@),
            forall|t: Symbol| db.spec_is_terminal(t) ==> (#[trigger] sets@[t.id() as int])@.contains(t),
            done ==> closed_so_far(grammar, family(sets@), n as nat, 0),
        decreases
            grid_size(grid_of(sets@)) - grid_count(grid_of(sets@)),
            if done { 0int } else { 1int },
    {
        done = true;
        let ghost at_start = sets@;
        proof {
            lemma_grid_bound(grid_of(sets@));
        }
        let mut x: usize = 0;
        while x < n
            invariant
                x <= n,
                n == db@.len(),
                db.wf(),
                *db == grammar.db(),
                grammar.wf(),
                eps == SymbolDb::spec_epsilon(),
                sets_fit(sets@, n as nat),
                sets_fit(at_start, n as nat),
                first_sound(grammar, sets@),
                forall|t: Symbol|
                    db.spec_is_terminal(t) ==> (#[trigger] sets@[t.id() as int])@.contains(t),
                grid_below(grid_of(at_start), grid_of(sets@)),
                done ==> sets@ == at_start,
                !done ==> grid_count(grid_of(at_start)) < grid_count(grid_of(sets@)),
                done ==> closed_so_far(grammar, family(sets@), x as nat, 0),
            decreases n - x,
        {
            let sym = Symbol::from_index(x);
            if db.is_nonterminal(&sym) {
                match grammar.productions(&sym) {
                    Some(ps) => {
                        let mut k: usize = 0;
                        while k < ps.len()
                            invariant
                                k <= ps@.len(),
                                x < n,
                                sym.id() == x,
                                db.spec_is_nonterminal(sym),
                                crate::grammar::views(ps@) == grammar.spec_rules(sym),
                                n == db@.len(),
                                db.wf(),
                                *db == grammar.db(),
                                grammar.wf(),
                                eps == SymbolDb::spec_epsilon(),
                                sets_fit(sets@, n as nat),
                                sets_fit(at_start, n as nat),
                                first_sound(grammar, sets@),
                                forall|t: Symbol|
                                    db.spec_is_terminal(t) ==> (#[trigger] sets@[t.id() as int])@.contains(
                                        t,
                                    ),
                                grid_below(grid_of(at_start), grid_of(sets@)),
                                done ==> sets@ == at_start,
                                !done ==> grid_count(grid_of(at_start)) < grid_count(grid_of(sets@)),
                                done ==> closed_so_far(grammar, family(sets@), x as nat, k as nat),
                            decreases ps@.len() - k,
                        {
                            let p = &ps[k];
                            let ghost before = sets@;
                            proof {
                                assert(p@ == grammar.spec_rules(sym)[k as int]);
                                grammar.lemma_rules(sym, p@);
                                assert(grammar.spec_rules(sym).contains(p@));
                                grammar.lemma_rule_registered(p@);
                                lemma_first_step_sound(grammar, before, p@);
                            }
                            let grew = first_step(&mut sets, p, eps);
                            proof {
                                lemma_grid_trans(grid_of(at_start), grid_of(before), grid_of(sets@));
                                assert(first_sound(grammar, sets@)) by {
                                    assert forall|y: Symbol| #[trigger]
                                        family(sets@)(y).subset_of(first_of(grammar, y)) by {
                                        assert(family(before)(y).subset_of(first_of(grammar, y)));
                                        Symbol::lemma_id_injective(y, p@.lhs);
                                        if y.id() < n && y != p@.lhs {
                                            assert(sets@[y.id() as int] == before[y.id() as int]);
                                        }
                                    }
                                }
                                assert forall|t: Symbol| db.spec_is_terminal(t) implies (
                                #[trigger] sets@[t.id() as int])@.contains(t) by {
                                    assert(before[t.id() as int]@.contains(t));
                                    if t.id() != p@.lhs.id() {
                                        assert(sets@[t.id() as int] == before[t.id() as int]);
                                    }
                                }
                            }
                            if grew {
                                done = false;
                            } else {
                                proof {
                                    if done {
                                        let f = family(sets@);
                                        assert(rule_closed(f, p@)) by {
                                            assert(f(p@.lhs) == sets@[p@.lhs.id() as int]@);
                                            assert(sets@[p@.lhs.id() as int]@ =~= before[p@.lhs.id() as int]@.union(
                                                contribution(family(before), p@.rhs),
                                            ));
                                        }
                                        assert(closed_so_far(grammar, f, x as nat, (k + 1) as nat)) by {
                                            assert forall|y: Symbol, j: int|
                                                db.spec_is_nonterminal(y) && 0 <= j
                                                    < grammar.spec_rules(y).len() && (y.id() < x
                                                    || (y.id() == x && j < k + 1)) implies rule_closed(
                                                f,
                                                #[trigger] grammar.spec_rules(y)[j],
                                            ) by {
                                                if y.id() == x && j == k {
                                                    Symbol::lemma_id_injective(y, sym);
                                                }
                                            }
                                        }
                                    }
                                }
                            }
                            k += 1;
                        }
                    },
                    None => {},
                }
            }
            proof {
                if done {
                    let f = family(sets@);
                    assert(closed_so_far(grammar, f, (x + 1) as nat, 0)) by {
                        assert forall|y: Symbol, j: int|
                            db.spec_is_nonterminal(y) && 0 <= j < grammar.spec_rules(y).len() && (
                            y.id() < x + 1 || (y.id() == x + 1 && j < 0)) implies rule_closed(
                            f,
                            #[trigger] grammar.spec_rules(y)[j],
                        ) by {
                            if y.id() == x {
                                Symbol::lemma_id_injective(y, sym);
                            }
                        }
                    }
                }
            }
            x += 1;
        }
        proof {
            lemma_grid_same_size(grid_of(at_start), grid_of(sets@));
            lemma_grid_bound(grid_of(sets@));
        }
    }
    proof {
        let f = family(sets@);
        assert(first_closed(grammar, f)) by {
            assert forall|t: Symbol| db.spec_is_terminal(t) implies #[trigger] f(t).contains(t) by {
                assert(sets@[t.id() as int]@.contains(t));
            }
            assert forall|p: ProductionView| #[trigger] grammar.has_rule(p) implies rule_closed(
                f,
                p,
            ) by {
                grammar.lemma_rules(p.lhs, p);
                let j = choose|j: int|
                    0 <= j < grammar.spec_rules(p.lhs).len() && grammar.spec_rules(p.lhs)[j] == p;
                assert(rule_closed(f, grammar.spec_rules(p.lhs)[j]));
            }
        }
        assert forall|y: Symbol| grammar.db().contains(y) implies (#[trigger] sets@[y.id() as int])@
            == first_of(grammar, y) by {
            assert(family(sets@)(y).subset_of(first_of(grammar, y)));
            assert forall|t: Symbol| first_of(grammar, y).contains(t) implies sets@[y.id() as int]@.contains(
                t,
            ) by {
                assert(f(y).contains(t));
            }
            assert(sets@[y.id() as int]@ =~= first_of(grammar, y));
        }
    }
    sets
}

/// What follows a symbol `b` of a right-hand side, given what follows the rest: `b` itself
/// where `b` is a terminal; what `b` can begin with, and what follows the rest as well where
/// `b` can be empty.
pub open spec fn tail_step(g: &Grammar, f1: Family, b: Symbol, rest: Set<Symbol>) -> Set<Symbol> {
    if g.db().spec_is_terminal(b) {
        set![b]
    } else if f1(b).contains(SymbolDb::spec_epsilon()) {
        rest.union(f1(b).remove(SymbolDb::spec_epsilon()))
    } else {
        f1(b)
    }
}

/// What can follow the symbol just before place `j` of the right-hand side of `p`, under the
/// assignment `w` of follow sets and `f1` of first sets. Past the end it is what follows the
/// left-hand side.
pub open spec fn tail_before(g: &Grammar, w: Family, f1: Family, p: ProductionView, j: int) -> Set<
    Symbol,
>
    decreases p.rhs.len() - j,
{
    if j >= p.rhs.len() {
        w(p.lhs)
    } else {
        tail_step(g, f1, p.rhs[j], tail_before(g, w, f1, p, j + 1))
    }
}

/// The set of the symbol at place `i` of `p` holds all that can follow that place.
pub open spec fn position_closed(g: &Grammar, w: Family, f1: Family, p: ProductionView, i: int) -> bool {
    tail_before(g, w, f1, p, i + 1).subset_of(w(p.rhs[i]))
}

/// `w` is closed at every place of `p` that holds a nonterminal.
pub open spec fn follow_rule_closed(g: &Grammar, w: Family, f1: Family, p: ProductionView) -> bool {
    forall|i: int|
        0 <= i < p.rhs.len() && g.db().spec_is_nonterminal(p.rhs[i]) ==> #[trigger] position_closed(
            g,
            w,
            f1,
            p,
            i,
        )
}

/// `w` gives the end of input to the goal symbol and is closed under every production that
/// rewrites a nonterminal.
pub open spec fn follow_closed(g: &Grammar, w: Family) -> bool {
    &&& w(SymbolDb::spec_goal()).contains(SymbolDb::spec_eoi())
    &&& forall|p: ProductionView| #[trigger]
        g.has_rule(p) ==> follow_rule_closed(g, w, first_family(g), p)
}

/// FOLLOW of `x`: what is in the set of `x` under every closed assignment. It is empty for
/// what is not a nonterminal of the grammar.
pub open spec fn follow_of(g: &Grammar, x: Symbol) -> Set<Symbol> {
    Set::new(
        |t: Symbol|
            g.db().spec_is_nonterminal(x) && forall|w: Family| #[trigger]
                follow_closed(g, w) ==> w(x).contains(t),
    )
}

/// A larger assignment lets more follow every place.
pub proof fn lemma_tail_monotone(
    g: &Grammar,
    w1: Family,
    w2: Family,
    f1: Family,
    p: ProductionView,
    j: int,
)
    requires
        forall|x: Symbol| #[trigger] w1(x).subset_of(w2(x)),
        0 <= j,
    ensures
        tail_before(g, w1, f1, p, j).subset_of(tail_before(g, w2, f1, p, j)),
    decreases p.rhs.len() - j,
{
    if j >= p.rhs.len() {
        assert(w1(p.lhs).subset_of(w2(p.lhs)));
    } else {
        lemma_tail_monotone(g, w1, w2, f1, p, j + 1);
    }
}

/// Every member of every set of the row is in FOLLOW of its symbol.
pub open spec fn follow_sound(g: &Grammar, sets: Seq<SymbolSet>) -> bool {
    forall|x: Symbol| #[trigger] family(sets)(x).subset_of(follow_of(g, x))
}

/// Under a sound row, what can follow a nonterminal place of a production is in FOLLOW of
/// the symbol at that place.
proof fn lemma_follow_step_sound(g: &Grammar, sets: Seq<SymbolSet>, p: ProductionView, i: int)
    requires
        g.wf(),
        follow_sound(g, sets),
        g.has_rule(p),
        0 <= i < p.rhs.len(),
        g.db().spec_is_nonterminal(p.rhs[i]),
    ensures
        tail_before(g, family(sets), first_family(g), p, i + 1).subset_of(follow_of(g, p.rhs[i])),
{
    let cur = family(sets);
    let f1 = first_family(g);
    assert forall|t: Symbol| tail_before(g, cur, f1, p, i + 1).contains(t) implies follow_of(
        g,
        p.rhs[i],
    ).contains(t) by {
        assert forall|w: Family| #[trigger] follow_closed(g, w) implies w(p.rhs[i]).contains(t) by {
            assert forall|x: Symbol| #[trigger] cur(x).subset_of(w(x)) by {
                assert(family(sets)(x).subset_of(follow_of(g, x)));
            }
            lemma_tail_monotone(g, cur, w, f1, p, i + 1);
            assert(follow_rule_closed(g, w, f1, p));
            assert(position_closed(g, w, f1, p, i));
        }
    }
}

/// Passes what can follow each place of `p` on to the set of the nonterminal at that place,
/// from the last place to the first, and says whether any set grew.
fn follow_step(
    grammar: &Grammar,
    first: &Vec<SymbolSet>,
    sets: &mut Vec<SymbolSet>,
    p: &Production,
) -> (grew: bool)
    requires
        grammar.wf(),
        grammar.has_rule(p@),
        sets_fit(first@, grammar.spec_symbols()),
        sets_fit(old(sets)@, grammar.spec_symbols()),
        family(first@) == first_family(grammar),
        follow_sound(grammar, old(sets)@),
    ensures
        sets_fit(final(sets)@, grammar.spec_symbols()),
        follow_sound(grammar, final(sets)@),
        forall|y: int|
            0 <= y < old(sets)@.len() ==> (#[trigger] old(sets)@[y])@.subset_of(final(sets)@[y]@),
        !grew ==> final(sets)@ == old(sets)@,
        !grew ==> follow_rule_closed(grammar, family(old(sets)@), first_family(grammar), p@),
        grid_below(grid_of(old(sets)@), grid_of(final(sets)@)),
        grew ==> grid_count(grid_of(old(sets)@)) < grid_count(grid_of(final(sets)@)),
{
    let db = grammar.symbol_db();
    proof {
        grammar.lemma_wf();
        grammar.lemma_rule_registered(p@);
        lemma_grid_refl(grid_of(sets@));
    }
    let eps = db.epsilon();
    let n = db.len();
    let rhs = p.rhs();
    let ghost w0 = family(old(sets)@);
    let ghost f1 = first_family(grammar);
    let mut tail = sets[p.lhs().index()].clone();
    let mut grew = false;
    let mut idx: usize = rhs.len();
    while idx > 0
        invariant
            idx <= rhs@.len(),
            rhs@ == p@.rhs,
            grammar.wf(),
            grammar.has_rule(p@),
            *db == grammar.db(),
            db.wf(),
            n == db@.len(),
            eps == SymbolDb::spec_epsilon(),
            w0 == family(old(sets)@),
            f1 == first_family(grammar),
            family(first@) == f1,
            sets_fit(first@, n as nat),
            sets_fit(sets@, n as nat),
            sets_fit(old(sets)@, n as nat),
            follow_sound(grammar, old(sets)@),
            follow_sound(grammar, sets@),
            forall|j: int| 0 <= j < p@.rhs.len() ==> db.contains(#[trigger] p@.rhs[j]),
            tail.capacity() == n,
            tail@ == tail_before(grammar, w0, f1, p@, idx as int),
            forall|y: int|
                0 <= y < old(sets)@.len() ==> (#[trigger] old(sets)@[y])@.subset_of(sets@[y]@),
            !grew ==> sets@ == old(sets)@,
            !grew ==> forall|i: int|
                idx <= i < p@.rhs.len() && db.spec_is_nonterminal(p@.rhs[i])
                    ==> #[trigger] position_closed(grammar, w0, f1, p@, i),
            grid_below(grid_of(old(sets)@), grid_of(sets@)),
            grew ==> grid_count(grid_of(old(sets)@)) < grid_count(grid_of(sets@)),
        decreases idx,
    {
        idx -= 1;
        let b = rhs[idx];
        let ghost before = sets@;
        let ghost rest = tail@;
        assert(db.contains(p@.rhs[idx as int]));
        if db.is_terminal(&b) {
            tail.clear();
            tail.insert(b);
            assert(tail@ =~= set![b]);
        } else {
            proof {
                lemma_follow_step_sound(grammar, old(sets)@, p@, idx as int);
            }
            let g1 = sets[b.index()].absorb(&tail);
            proof {
                let a = grid_of(before);
                let c = grid_of(sets@);
                assert(grid_below(a, c)) by {
                    assert forall|r: int| 0 <= r < a.len() implies (#[trigger] a[r]).len() == (
                    #[trigger] c[r]).len() by {
                        before[r].lemma_marks();
                        sets@[r].lemma_marks();
                    }
                    assert forall|r: int, i: int|
                        0 <= r < a.len() && 0 <= i < a[r].len() && #[trigger] a[r][i] implies #[trigger] c[r][i] by {
                        before[r].lemma_marks();
                    }
                }
                lemma_grid_trans(grid_of(old(sets)@), a, c);
                if g1 {
                    before[b.id() as int].lemma_marks();
                    sets@[b.id() as int].lemma_marks();
                    let j = choose|j: int|
                        0 <= j < before[b.id() as int].capacity() && !before[b.id() as int].marks()[j]
                            && sets@[b.id() as int].marks()[j];
                    lemma_grid_strict(a, c, b.id() as int, j);
                } else {
                    assert(sets@ =~= before);
                    if !grew {
                        assert(w0(b) == before[b.id() as int]@);
                        assert(rest.subset_of(w0(b))) by {
                            assert(sets@[b.id() as int]@ == before[b.id() as int]@.union(rest));
                            assert forall|t: Symbol| rest.contains(t) implies w0(b).contains(t) by {
                                assert(before[b.id() as int]@.union(rest).contains(t));
                            }
                        }
                        assert(position_closed(grammar, w0, f1, p@, idx as int));
                    }
                }
                assert(follow_sound(grammar, sets@)) by {
                    assert forall|y: Symbol| #[trigger]
                        family(sets@)(y).subset_of(follow_of(grammar, y)) by {
                        assert(family(before)(y).subset_of(follow_of(grammar, y)));
                        Symbol::lemma_id_injective(y, b);
                        if y.id() < n && y != b {
                            assert(sets@[y.id() as int] == before[y.id() as int]);
                        }
                    }
                }
                assert forall|y: int| 0 <= y < old(sets)@.len() implies (#[trigger] old(sets)@[y])@.subset_of(
                    sets@[y]@,
                ) by {
                    assert(old(sets)@[y]@.subset_of(before[y]@));
                    if y != b.id() {
                        assert(sets@[y] == before[y]);
                    }
                }
            }
            if g1 {
                grew = true;
            }
            let fb = &first[b.index()];
            assert(fb@ == f1(b)) by {
                assert(family(first@)(b) == fb@);
            }
            if fb.contains(&eps) {
                tail.absorb_except(fb, Some(eps));
            } else {
                tail = fb.clone();
            }
        }
        assert(tail@ == tail_step(grammar, f1, b, rest));
    }
    grew
}

/// The productions met so far in a pass over the nonterminals are closed under `w`.
pub open spec fn follow_closed_so_far(g: &Grammar, w: Family, x: nat, k: nat) -> bool {
    forall|y: Symbol, j: int|
        g.db().spec_is_nonterminal(y) && 0 <= j < g.spec_rules(y).len() && (y.id() < x || (y.id()
            == x && j < k)) ==> follow_rule_closed(
            g,
            w,
            first_family(g),
            #[trigger] g.spec_rules(y)[j],
        )
}

/// The FOLLOW sets of the grammar, one for each symbol, at the symbol's number; `first` holds
/// the FIRST sets.
pub fn follow(grammar: &Grammar, first: &Vec<SymbolSet>) -> (sets: Vec<SymbolSet>)
    requires
        grammar.wf(),
        sets_fit(first@, grammar.spec_symbols()),
        forall|x: Symbol|
            grammar.db().contains(x) ==> (#[trigger] first@[x.id() as int])@ == first_of(grammar, x),
    ensures
        sets_fit(sets@, grammar.spec_symbols()),
        forall|x: Symbol|
            grammar.db().contains(x) ==> (#[trigger] sets@[x.id() as int])@ == follow_of(grammar, x),
{
    let db = grammar.symbol_db();
    proof {
        grammar.lemma_wf();
        db.lemma_reserved();
        assert(family(first@) =~= first_family(grammar)) by {
            assert forall|x: Symbol| #[trigger] family(first@)(x) == first_family(grammar)(x) by {
                if !grammar.db().contains(x) {
                    assert(first_of(grammar, x) =~= Set::<Symbol>::empty());
                }
            }
        }
    }
    let n = db.len();
    let goal = db.goal();
    let eoi = db.eoi();
    let mut sets: Vec<SymbolSet> = Vec::new();
    let mut x: usize = 0;
    while x < n
        invariant
            x <= n,
            sets@.len() == x,
            forall|i: int| 0 <= i < x ==> (#[trigger] sets@[i]).capacity() == n,
            forall|i: int| 0 <= i < x ==> (#[trigger] sets@[i])@ == Set::<Symbol>::empty(),
        decreases n - x,
    {
        sets.push(SymbolSet::new(n));
        x += 1;
    }
    let ghost empty = sets@;
    sets[goal.index()].insert(eoi);
    proof {
        assert forall|y: Symbol| #[trigger] family(sets@)(y).subset_of(follow_of(grammar, y)) by {
            assert forall|t: Symbol| family(sets@)(y).contains(t) implies follow_of(
                grammar,
                y,
            ).contains(t) by {
                if y.id() < n && y.id() != goal.id() {
                    assert(sets@[y.id() as int] == empty[y.id() as int]);
                }
                Symbol::lemma_id_injective(y, goal);
            }
        }
        assert forall|i: int| 0 <= i < n implies (#[trigger] sets@[i]).capacity() == n by {
            if i != goal.id() {
                assert(sets@[i] == empty[i]);
            }
        }
    }
    let mut done = false;
    while !done
        invariant
            n == db@.len(),
            db.wf(),
            *db == grammar.db(),
            grammar.wf(),
            goal == SymbolDb::spec_goal(),
            goal.id() == 0,
            n >= 3,
            eoi == SymbolDb::spec_eoi(),
            sets_fit(sets@, n as nat),
            sets_fit(first@, n as nat),
            family(first@) == first_family(grammar),
            follow_sound(grammar, sets@),
            sets@[goal.id() as int]@.contains(eoi),
            done ==> follow_closed_so_far(grammar, family(sets@), n as nat, 0),
        decreases
            grid_size(grid_of(sets@)) - grid_count(grid_of(sets@)),
            if done { 0int } else { 1int },
    {
        done = true;
        let ghost at_start = sets@;
        proof {
            lemma_grid_bound(grid_of(sets@));
            lemma_grid_refl(grid_of(sets@));
        }
        let mut x: usize = 0;
        while x < n
            invariant
                x <= n,
                n == db@.len(),
                db.wf(),
                *db == grammar.db(),
                grammar.wf(),
                goal == SymbolDb::spec_goal(),
                goal.id() == 0,
                n >= 3,
            goal.id() == 0,
            n >= 3,
                eoi == SymbolDb::spec_eoi(),
                sets_fit(sets@, n as nat),
                sets_fit(at_start, n as nat),
                sets_fit(first@, n as nat),
                family(first@) == first_family(grammar),
                follow_sound(grammar, sets@),
                sets@[goal.id() as int]@.contains(eoi),
                grid_below(grid_of(at_start), grid_of(sets@)),
                done ==> sets@ == at_start,
                !done ==> grid_count(grid_of(at_start)) < grid_count(grid_of(sets@)),
                done ==> follow_closed_so_far(grammar, family(sets@), x as nat, 0),
            decreases n - x,
        {
            let sym = Symbol::from_index(x);
            if db.is_nonterminal(&sym) {
                match grammar.productions(&sym) {
                    Some(ps) => {
                        let mut k: usize = 0;
                        while k < ps.len()
                            invariant
                                k <= ps@.len(),
                                x < n,
                                sym.id() == x,
                                db.spec_is_nonterminal(sym),
                                crate::grammar::views(ps@) == grammar.spec_rules(sym),
                                n == db@.len(),
                                db.wf(),
                                *db == grammar.db(),
                                grammar.wf(),
                                goal == SymbolDb::spec_goal(),
                                goal.id() == 0,
                                n >= 3,
                goal.id() == 0,
                n >= 3,
            goal.id() == 0,
            n >= 3,
                                eoi == SymbolDb::spec_eoi(),
                                sets_fit(sets@, n as nat),
                                sets_fit(at_start, n as nat),
                                sets_fit(first@, n as nat),
                                family(first@) == first_family(grammar),
                                follow_sound(grammar, sets@),
                                sets@[goal.id() as int]@.contains(eoi),
                                grid_below(grid_of(at_start), grid_of(sets@)),
                                done ==> sets@ == at_start,
                                !done ==> grid_count(grid_of(at_start)) < grid_count(grid_of(sets@)),
                                done ==> follow_closed_so_far(
                                    grammar,
                                    family(sets@),
                                    x as nat,
                                    k as nat,
                                ),
                            decreases ps@.len() - k,
                        {
                            let p = &ps[k];
                            let ghost before = sets@;
                            proof {
                                assert(p@ == grammar.spec_rules(sym)[k as int]);
                                grammar.lemma_rules(sym, p@);
                                assert(grammar.spec_rules(sym).contains(p@));
                            }
                            let grew = follow_step(grammar, first, &mut sets, p);
                            proof {
                                lemma_grid_trans(grid_of(at_start), grid_of(before), grid_of(sets@));
                                assert(before[goal.id() as int]@.subset_of(sets@[goal.id() as int]@));
                            }
                            if grew {
                                done = false;
                            } else {
                                proof {
                                    if done {
                                        let w = family(sets@);
                                        assert(follow_closed_so_far(
                                            grammar,
                                            w,
                                            x as nat,
                                            (k + 1) as nat,
                                        )) by {
                                            assert forall|y: Symbol, j: int|
                                                db.spec_is_nonterminal(y) && 0 <= j
                                                    < grammar.spec_rules(y).len() && (y.id() < x
                                                    || (y.id() == x && j < k + 1)) implies follow_rule_closed(
                                                grammar,
                                                w,
                                                first_family(grammar),
                                                #[trigger] grammar.spec_rules(y)[j],
                                            ) by {
                                                if y.id() == x && j == k {
                                                    Symbol::lemma_id_injective(y, sym);
                                                }
                                            }
                                        }
                                    }
                                }
                            }
                            k += 1;
                        }
                    },
                    None => {},
                }
            }
            proof {
                if done {
                    let w = family(sets@);
                    assert(follow_closed_so_far(grammar, w, (x + 1) as nat, 0)) by {
                        assert forall|y: Symbol, j: int|
                            db.spec_is_nonterminal(y) && 0 <= j < grammar.spec_rules(y).len() && (
                            y.id() < x + 1 || (y.id() == x + 1 && j < 0)) implies follow_rule_closed(
                            grammar,
                            w,
                            first_family(grammar),
                            #[trigger] grammar.spec_rules(y)[j],
                        ) by {
                            if y.id() == x {
                                Symbol::lemma_id_injective(y, sym);
                            }
                        }
                    }
                }
            }
            x += 1;
        }
        proof {
            lemma_grid_same_size(grid_of(at_start), grid_of(sets@));
            lemma_grid_bound(grid_of(sets@));
        }
    }
    proof {
        let w = family(sets@);
        assert(follow_closed(grammar, w)) by {
            assert(w(goal) == sets@[goal.id() as int]@);
            assert forall|p: ProductionView| #[trigger] grammar.has_rule(p) implies follow_rule_closed(
                grammar,
                w,
                first_family(grammar),
                p,
            ) by {
                grammar.lemma_rules(p.lhs, p);
                let j = choose|j: int|
                    0 <= j < grammar.spec_rules(p.lhs).len() && grammar.spec_rules(p.lhs)[j] == p;
                assert(follow_rule_closed(
                    grammar,
                    w,
                    first_family(grammar),
                    grammar.spec_rules(p.lhs)[j],
                ));
            }
        }
        assert forall|y: Symbol| grammar.db().contains(y) implies (#[trigger] sets@[y.id() as int])@
            == follow_of(grammar, y) by {
            assert(family(sets@)(y).subset_of(follow_of(grammar, y)));
            assert forall|t: Symbol| follow_of(grammar, y).contains(t) implies sets@[y.id() as int]@.contains(
                t,
            ) by {
                assert(w(y).contains(t));
            }
            assert(sets@[y.id() as int]@ =~= follow_of(grammar, y));
        }
    }
    sets
}

/// The end of input can follow the goal symbol.
pub proof fn lemma_follow_of_goal(g: &Grammar)
    requires
        g.wf(),
    ensures
        follow_of(g, SymbolDb::spec_goal()).contains(SymbolDb::spec_eoi()),
{
    g.lemma_wf();
    g.db().lemma_reserved();
}

/// No production that rewrites a nonterminal has epsilon right after a nonterminal.
pub open spec fn no_epsilon_after_nonterminal(g: &Grammar) -> bool {
    forall|p: ProductionView, i: int|
        #![trigger g.has_rule(p), p.rhs[i]]
        g.has_rule(p) && 0 <= i && i + 1 < p.rhs.len() && g.db().spec_is_nonterminal(p.rhs[i])
            ==> p.rhs[i + 1] != SymbolDb::spec_epsilon()
}

/// The assignment that gives every symbol all symbols but epsilon.
pub open spec fn all_but_epsilon() -> Family {
    |x: Symbol| Set::new(|t: Symbol| t != SymbolDb::spec_epsilon())
}

/// Where epsilon can follow the symbol before place `j` although no set holds it, it stands
/// at some later place, and only nonterminals stand between.
proof fn lemma_epsilon_in_tail(g: &Grammar, p: ProductionView, j: int) -> (m: int)
    requires
        g.wf(),
        g.has_rule(p),
        0 <= j,
        tail_before(g, all_but_epsilon(), first_family(g), p, j).contains(SymbolDb::spec_epsilon()),
    ensures
        j <= m < p.rhs.len(),
        p.rhs[m] == SymbolDb::spec_epsilon(),
        forall|q: int| j <= q < m ==> g.db().spec_is_nonterminal(#[trigger] p.rhs[q]),
    decreases p.rhs.len() - j,
{
    let eps = SymbolDb::spec_epsilon();
    let w = all_but_epsilon();
    let f1 = first_family(g);
    if j >= p.rhs.len() {
        assert(!w(p.lhs).contains(eps));
        0
    } else {
        let b = p.rhs[j];
        g.lemma_rule_registered(p);
        assert(g.db().contains(b));
        if g.db().spec_is_terminal(b) {
            j
        } else {
            let m = lemma_epsilon_in_tail(g, p, j + 1);
            assert forall|q: int| j <= q < m implies g.db().spec_is_nonterminal(
                #[trigger] p.rhs[q],
            ) by {}
            m
        }
    }
}

/// Epsilon can follow no symbol, in a grammar that puts epsilon after no nonterminal.
pub proof fn lemma_follow_no_epsilon(g: &Grammar, x: Symbol)
    requires
        g.wf(),
        no_epsilon_after_nonterminal(g),
    ensures
        !follow_of(g, x).contains(SymbolDb::spec_epsilon()),
{
    let eps = SymbolDb::spec_epsilon();
    let w = all_but_epsilon();
    let f1 = first_family(g);
    g.lemma_wf();
    g.db().lemma_reserved();
    Symbol::lemma_id_injective(SymbolDb::spec_eoi(), eps);
    assert(follow_closed(g, w)) by {
        assert(w(SymbolDb::spec_goal()).contains(SymbolDb::spec_eoi()));
        assert forall|p: ProductionView| #[trigger] g.has_rule(p) implies follow_rule_closed(
            g,
            w,
            f1,
            p,
        ) by {
            assert forall|i: int|
                0 <= i < p.rhs.len() && g.db().spec_is_nonterminal(
                    p.rhs[i],
                ) implies #[trigger] position_closed(g, w, f1, p, i) by {
                if tail_before(g, w, f1, p, i + 1).contains(eps) {
                    let m = lemma_epsilon_in_tail(g, p, i + 1);
                    assert(g.db().spec_is_nonterminal(p.rhs[m - 1]));
                    assert(p.rhs[m - 1 + 1] != eps);
                }
            }
        }
    }
    assert(!w(x).contains(eps));
}

/// The FIRST and FOLLOW sets of a grammar.
#[derive(Debug)]
pub struct FirstAndFollow {
    first: Vec<SymbolSet>,
    follow: Vec<SymbolSet>,
    nonterminal: Vec<bool>,
}

impl FirstAndFollow {
    /// The number of symbols that the sets range over.
    pub closed spec fn spec_symbols(&self) -> nat {
        self.first@.len()
    }

    /// The FIRST sets as an assignment.
    pub closed spec fn first_sets(&self) -> Family {
        family(self.first@)
    }

    /// The FOLLOW sets as an assignment.
    pub closed spec fn follow_sets(&self) -> Family {
        family(self.follow@)
    }

    /// The symbols that have a FOLLOW set: the nonterminals.
    pub closed spec fn has_follow(&self, x: Symbol) -> bool {
        x.id() < self.nonterminal@.len() && self.nonterminal@[x.id() as int]
    }

    /// There is a FIRST and a FOLLOW set for every symbol number, and each ranges over all
    /// symbol numbers.
    pub closed spec fn wf(&self) -> bool {
        &&& sets_fit(self.first@, self.first@.len())
        &&& sets_fit(self.follow@, self.first@.len())
        &&& self.nonterminal@.len() == self.first@.len()
    }

    /// The sets are those of the grammar `g`.
    pub open spec fn describes(&self, g: &Grammar) -> bool {
        &&& self.spec_symbols() == g.spec_symbols()
        &&& self.first_sets() == first_family(g)
        &&& forall|x: Symbol| #[trigger] self.follow_sets()(x) == follow_of(g, x)
        &&& forall|x: Symbol| #[trigger] self.has_follow(x) == g.db().spec_is_nonterminal(x)
    }

    /// Every member of a FIRST set is a symbol below the number of symbols.
    pub proof fn lemma_first_members(&self, x: Symbol, t: Symbol)
        requires
            self.wf(),
            self.first_sets()(x).contains(t),
        ensures
            t.id() < self.spec_symbols(),
            x.id() < self.spec_symbols(),
    {
        self.first@[x.id() as int].lemma_members();
    }

    /// A symbol numbered beyond the sets has an empty FIRST set.
    pub proof fn lemma_no_first(&self, x: Symbol)
        requires
            x.id() >= self.spec_symbols(),
        ensures
            self.first_sets()(x) == Set::<Symbol>::empty(),
    {
    }

    /// The number of symbols that the sets range over.
    pub fn symbols(&self) -> (n: usize)
        ensures
            n == self.spec_symbols(),
    {
        self.first.len()
    }

    /// Computes the FIRST and FOLLOW sets of `grammar`.
    pub fn new(grammar: &Grammar) -> (ff: FirstAndFollow)
        requires
            grammar.wf(),
        ensures
            ff.wf(),
            ff.describes(grammar),
    {
        let first = first(grammar);
        let follow = follow(grammar, &first);
        let db = grammar.symbol_db();
        proof {
            grammar.lemma_wf();
        }
        let n = db.len();
        let mut nonterminal: Vec<bool> = Vec::new();
        let mut x: usize = 0;
        while x < n
            invariant
                x <= n,
                n == db@.len(),
                db.wf(),
                nonterminal@.len() == x,
                forall|y: Symbol|
                    y.id() < x ==> #[trigger] nonterminal@[y.id() as int] == db.spec_is_nonterminal(y),
            decreases n - x,
        {
            let sym = Symbol::from_index(x);
            let b = db.is_nonterminal(&sym);
            let ghost before = nonterminal@;
            nonterminal.push(b);
            proof {
                assert forall|y: Symbol| y.id() < x + 1 implies #[trigger] nonterminal@[y.id() as int]
                    == db.spec_is_nonterminal(y) by {
                    if y.id() < x {
                        assert(before[y.id() as int] == db.spec_is_nonterminal(y));
                    } else {
                        Symbol::lemma_id_injective(y, sym);
                    }
                }
            }
            x += 1;
        }
        let ff = FirstAndFollow { first, follow, nonterminal };
        proof {
            assert(ff.first_sets() =~= first_family(grammar)) by {
                assert forall|y: Symbol| #[trigger] ff.first_sets()(y) == first_family(grammar)(y) by {
                    if !grammar.db().contains(y) {
                        assert(first_of(grammar, y) =~= Set::<Symbol>::empty());
                    }
                }
            }
            assert forall|y: Symbol| #[trigger] ff.follow_sets()(y) == follow_of(grammar, y) by {
                if !grammar.db().contains(y) {
                    assert(follow_of(grammar, y) =~= Set::<Symbol>::empty());
                }
            }
        }
        ff
    }

    /// The FIRST set of `s`, if `s` is a symbol of the grammar.
    pub fn first(&self, s: &Symbol) -> (r: Option<&SymbolSet>)
        requires
            self.wf(),
        ensures
            match r {
                Some(set) => {
                    &&& s.id() < self.spec_symbols()
                    &&& set@ == self.first_sets()(*s)
                    &&& set.capacity() == self.spec_symbols()
                },
                None => s.id() >= self.spec_symbols(),
            },
    {
        let i = s.index();
        if i < self.first.len() {
            Some(&self.first[i])
        } else {
            None
        }
    }

    /// The FOLLOW set of `s`, if `s` is a nonterminal of the grammar.
    pub fn follow(&self, s: &Symbol) -> (r: Option<&SymbolSet>)
        requires
            self.wf(),
        ensures
            match r {
                Some(set) => {
                    &&& self.has_follow(*s)
                    &&& set@ == self.follow_sets()(*s)
                    &&& set.capacity() == self.spec_symbols()
                },
                None => !self.has_follow(*s),
            },
    {
        let i = s.index();
        if i < self.nonterminal.len() && self.nonterminal[i] {
            Some(&self.follow[i])
        } else {
            None
        }
    }
}

} // verus!
