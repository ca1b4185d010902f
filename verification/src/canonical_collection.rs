use vstd::prelude::*;
use vstd::slice::slice_subrange;
use crate::errors::TableConflictError;
use crate::first_and_follow::{
    Family, FirstAndFollow, first_family, nullable_prefix, sentence_first, walk, walk_upto,
};
use crate::grammar::{Grammar, views};
use crate::item_set::ItemSet;
use crate::lr1_item::{ItemView, LR1Item, advanced, after_dot};
use crate::production::{Production, ProductionView};
use crate::symbol::{Symbol, SymbolDb};
use crate::table::{lemma_row_push, row_find, row_lookup};
use crate::symbol_set::{SymbolSet, grid_below, grid_count, grid_size, lemma_grid_bound, lemma_grid_strict};

verus! {

/// The item of `p` with the dot at the start and lookahead `b`.
pub open spec fn fresh_item(p: ProductionView, b: Symbol) -> ItemView {
    ItemView { production: p, dot: 0, lookahead: b }
}

/// The item `it` calls for the item of `p` with lookahead `b`: a nonterminal stands after
/// its dot, `p` rewrites it, and `b` can begin what follows, the lookahead of `it` included.
pub open spec fn spawned(g: &Grammar, f: Family, it: ItemView, p: ProductionView, b: Symbol) -> bool {
    &&& after_dot(it).len() > 0
    &&& g.has_rule(p)
    &&& p.lhs == after_dot(it)[0]
    &&& sentence_first(f, after_dot(it).skip(1).push(it.lookahead)).contains(b)
}

/// The items that `it` calls for.
pub open spec fn spawn_set(g: &Grammar, f: Family, it: ItemView) -> Set<ItemView> {
    Set::new(|x: ItemView| x.dot == 0 && spawned(g, f, it, x.production, x.lookahead))
}

/// `items` holds every item that one of its items calls for.
pub open spec fn items_closed(g: &Grammar, f: Family, items: Set<ItemView>) -> bool {
    forall|it: ItemView, x: ItemView|
        items.contains(it) && #[trigger] spawn_set(g, f, it).contains(x) ==> items.contains(x)
}

/// The closure of `items`: what every closed set that holds `items` holds, that is, the
/// least such set.
pub open spec fn closure_of(g: &Grammar, f: Family, items: Set<ItemView>) -> Set<ItemView> {
    Set::new(
        |x: ItemView|
            forall|j: Set<ItemView>|
                #[trigger] items_closed(g, f, j) && items.subset_of(j) ==> j.contains(x),
    )
}

/// The items of `items` that have `x` after the dot, with the dot moved past it.
pub open spec fn shifted(items: Set<ItemView>, x: Symbol) -> Set<ItemView> {
    Set::new(
        |y: ItemView|
            exists|it: ItemView|
                items.contains(it) && after_dot(it).len() > 0 && after_dot(it)[0] == x && y
                    == #[trigger] advanced(it),
    )
}

/// The set reached from `items` on `x`: the closure of the shifted items.
pub open spec fn goto_of(g: &Grammar, f: Family, items: Set<ItemView>, x: Symbol) -> Set<ItemView> {
    closure_of(g, f, shifted(items, x))
}

/// The closure holds the items it was taken of, is closed, and lies in every closed set
/// that holds those items.
pub proof fn lemma_closure_least(g: &Grammar, f: Family, items: Set<ItemView>)
    ensures
        items.subset_of(closure_of(g, f, items)),
        items_closed(g, f, closure_of(g, f, items)),
        forall|j: Set<ItemView>|
            #[trigger] items_closed(g, f, j) && items.subset_of(j) ==> closure_of(g, f, items).subset_of(j),
{
    let c = closure_of(g, f, items);
    assert forall|it: ItemView, x: ItemView|
        c.contains(it) && #[trigger] spawn_set(g, f, it).contains(x) implies c.contains(x) by {
        assert forall|j: Set<ItemView>|
            #[trigger] items_closed(g, f, j) && items.subset_of(j) implies j.contains(x) by {
            assert(j.contains(it));
        }
    }
}

/// The closure of a closure is that closure: taking the closure twice adds nothing.
pub proof fn lemma_closure_idempotent(g: &Grammar, f: Family, items: Set<ItemView>)
    ensures
        closure_of(g, f, closure_of(g, f, items)) == closure_of(g, f, items),
{
    let c = closure_of(g, f, items);
    lemma_closure_least(g, f, items);
    lemma_closure_least(g, f, c);
    assert(items_closed(g, f, c) && c.subset_of(c));
    assert(closure_of(g, f, c).subset_of(c));
    assert(closure_of(g, f, c) =~= c);
}

/// What the set reached on `x` is: the closure of the items shifted on `x`.
pub proof fn lemma_goto_is_closure_of_shifted(g: &Grammar, f: Family, items: Set<ItemView>, x: Symbol)
    ensures
        goto_of(g, f, items, x) == closure_of(g, f, shifted(items, x)),
        forall|y: ItemView|
            #[trigger] shifted(items, x).contains(y) <==> exists|it: ItemView|
                items.contains(it) && after_dot(it).len() > 0 && after_dot(it)[0] == x && y
                    == #[trigger] advanced(it),
{
}

/// What the row `symbols` can begin with, epsilon left out.
pub fn first(grammar: &Grammar, first_and_follow: &FirstAndFollow, symbols: &[Symbol]) -> (r:
    SymbolSet)
    requires
        first_and_follow.wf(),
    ensures
        r@ == sentence_first(first_and_follow.first_sets(), symbols@),
        r.capacity() == first_and_follow.spec_symbols(),
{
    let eps = grammar.symbol_db().epsilon();
    let ghost f = first_and_follow.first_sets();
    let n = first_and_follow.symbols();
    let mut acc = SymbolSet::new(n);
    let mut i: usize = 0;
    assert(acc@ =~= walk_upto(f, symbols@, 0));
    while i < symbols.len()
        invariant
            i <= symbols@.len(),
            first_and_follow.wf(),
            f == first_and_follow.first_sets(),
            n == first_and_follow.spec_symbols(),
            eps == SymbolDb::spec_epsilon(),
            acc.capacity() == n,
            acc@ == walk_upto(f, symbols@, i as int),
            nullable_prefix(f, symbols@, i as int),
        decreases symbols@.len() - i,
    {
        let a = symbols[i];
        let ghost before = acc@;
        let ghost fa = f(symbols@[i as int]);
        let mut nullable = false;
        match first_and_follow.first(&a) {
            Some(fs) => {
                acc.absorb(fs);
                nullable = fs.contains(&eps);
            },
            None => {
                proof {
                    first_and_follow.lemma_no_first(a);
                }
            },
        }
        proof {
            assert(acc@ == before.union(fa));
            assert(nullable == fa.contains(eps));
            assert(acc@ =~= walk_upto(f, symbols@, i + 1)) by {
                assert forall|t: Symbol| acc@.contains(t) implies walk_upto(
                    f,
                    symbols@,
                    i + 1,
                ).contains(t) by {
                    if before.contains(t) {
                        let w = choose|w: int|
                            0 <= w < i && #[trigger] f(symbols@[w]).contains(t) && nullable_prefix(
                                f,
                                symbols@,
                                w,
                            );
                        assert(0 <= w < i + 1);
                    } else {
                        assert(f(symbols@[i as int]).contains(t));
                    }
                }
                assert forall|t: Symbol| walk_upto(f, symbols@, i + 1).contains(t) implies acc@.contains(
                    t,
                ) by {
                    let w = choose|w: int|
                        0 <= w < i + 1 && #[trigger] f(symbols@[w]).contains(t) && nullable_prefix(
                            f,
                            symbols@,
                            w,
                        );
                    if w < i {
                        assert(before.contains(t));
                    }
                }
            }
        }
        if !nullable {
            proof {
                assert(walk(f, symbols@) =~= walk_upto(f, symbols@, i + 1)) by {
                    assert forall|t: Symbol| walk(f, symbols@).contains(t) implies walk_upto(
                        f,
                        symbols@,
                        i + 1,
                    ).contains(t) by {
                        let w = choose|w: int|
                            0 <= w < symbols@.len() && #[trigger] f(symbols@[w]).contains(t)
                                && nullable_prefix(f, symbols@, w);
                        if w > i {
                            assert(f(symbols@[i as int]).contains(eps));
                        }
                    }
                }
            }
            acc.remove(eps);
            return acc;
        }
        i += 1;
    }
    acc.remove(eps);
    acc
}

/// Adds to `updates` the items of `p` with the dot at the start, one for each lookahead of
/// `lookaheads`.
fn spawn_for(updates: &mut ItemSet, p: &Production, lookaheads: &Vec<Symbol>)
    requires
        old(updates).wf(),
    ensures
        final(updates).wf(),
        final(updates)@ == old(updates)@.union(
            Set::new(|x: ItemView| x.dot == 0 && x.production == p@ && lookaheads@.contains(x.lookahead)),
        ),
{
    let mut m: usize = 0;
    assert(updates@ =~= old(updates)@.union(
        Set::new(
            |x: ItemView|
                x.dot == 0 && x.production == p@ && lookaheads@.take(0).contains(x.lookahead),
        ),
    ));
    while m < lookaheads.len()
        invariant
            m <= lookaheads@.len(),
            updates.wf(),
            updates@ == old(updates)@.union(
                Set::new(
                    |x: ItemView|
                        x.dot == 0 && x.production == p@ && lookaheads@.take(m as int).contains(
                            x.lookahead,
                        ),
                ),
            ),
        decreases lookaheads@.len() - m,
    {
        let b = lookaheads[m];
        let ghost before = updates@;
        updates.insert(LR1Item::new(p.clone(), 0, b));
        proof {
            let a = lookaheads@.take(m as int);
            let c = lookaheads@.take(m + 1);
            assert(c =~= a.push(b));
            let sa = Set::new(|x: ItemView| x.dot == 0 && x.production == p@ && a.contains(x.lookahead));
            let sc = Set::new(|x: ItemView| x.dot == 0 && x.production == p@ && c.contains(x.lookahead));
            assert forall|x: ItemView| sc.contains(x) <==> sa.insert(fresh_item(p@, b)).contains(
                x,
            ) by {
                if c.contains(x.lookahead) {
                    let w = choose|w: int| 0 <= w < c.len() && c[w] == x.lookahead;
                    if w < m {
                        assert(a[w] == x.lookahead);
                    }
                }
                if a.contains(x.lookahead) {
                    let w = choose|w: int| 0 <= w < a.len() && a[w] == x.lookahead;
                    assert(c[w] == x.lookahead);
                }
                assert(c[m as int] == b);
            }
            assert(sc =~= sa.insert(fresh_item(p@, b)));
            assert(updates@ =~= old(updates)@.union(sc));
        }
        m += 1;
    }
    assert(lookaheads@.take(m as int) =~= lookaheads@);
}

/// Adds to `updates` the items that `item` calls for.
fn spawn(first_and_follow: &FirstAndFollow, grammar: &Grammar, item: &LR1Item, updates: &mut ItemSet)
    requires
        grammar.wf(),
        first_and_follow.wf(),
        old(updates).wf(),
    ensures
        final(updates).wf(),
        final(updates)@ == old(updates)@.union(
            spawn_set(grammar, first_and_follow.first_sets(), item@),
        ),
{
    let db = grammar.symbol_db();
    let ghost f = first_and_follow.first_sets();
    let ghost target = spawn_set(grammar, f, item@);
    proof {
        grammar.lemma_wf();
    }
    let mut unseen = item.symbols_after_dot();
    if unseen.len() == 0 {
        assert(updates@ =~= updates@.union(target));
        return ;
    }
    let s = unseen[0];
    if db.is_terminal(&s) {
        assert(updates@ =~= updates@.union(target));
        return ;
    }
    unseen.push(*item.lookahead());
    let fs = first(grammar, first_and_follow, slice_subrange(unseen.as_slice(), 1, unseen.len()));
    assert(unseen@.subrange(1, unseen@.len() as int) =~= after_dot(item@).skip(1).push(
        item@.lookahead,
    ));
    match grammar.productions(&s) {
        Some(ps) => {
            let bs = fs.members();
            let ghost rules = grammar.spec_rules(s);
            let mut k: usize = 0;
            assert(updates@ =~= old(updates)@.union(
                Set::new(
                    |x: ItemView|
                        x.dot == 0 && rules.take(0).contains(x.production) && fs@.contains(
                            x.lookahead,
                        ),
                ),
            ));
            while k < ps.len()
                invariant
                    k <= ps@.len(),
                    views(ps@) == rules,
                    forall|b: Symbol| #[trigger] bs@.contains(b) <==> fs@.contains(b),
                    updates.wf(),
                    updates@ == old(updates)@.union(
                        Set::new(
                            |x: ItemView|
                                x.dot == 0 && rules.take(k as int).contains(x.production)
                                    && fs@.contains(x.lookahead),
                        ),
                    ),
                decreases ps@.len() - k,
            {
                let ghost before = updates@;
                spawn_for(updates, &ps[k], &bs);
                proof {
                    let p = rules[k as int];
                    assert(p == ps@[k as int]@);
                    let a = rules.take(k as int);
                    let c = rules.take(k + 1);
                    assert(c =~= a.push(p));
                    let sa = Set::new(
                        |x: ItemView| x.dot == 0 && a.contains(x.production) && fs@.contains(x.lookahead),
                    );
                    let sc = Set::new(
                        |x: ItemView| x.dot == 0 && c.contains(x.production) && fs@.contains(x.lookahead),
                    );
                    let sp = Set::new(
                        |x: ItemView| x.dot == 0 && x.production == p && bs@.contains(x.lookahead),
                    );
                    assert forall|x: ItemView| sc.contains(x) <==> sa.union(sp).contains(x) by {
                        if c.contains(x.production) {
                            let w = choose|w: int| 0 <= w < c.len() && c[w] == x.production;
                            if w < k {
                                assert(a[w] == x.production);
                            }
                        }
                        if a.contains(x.production) {
                            let w = choose|w: int| 0 <= w < a.len() && a[w] == x.production;
                            assert(c[w] == x.production);
                        }
                        assert(c[k as int] == p);
                    }
                    assert(sc =~= sa.union(sp));
                    assert(updates@ =~= old(updates)@.union(sc));
                }
                k += 1;
            }
            proof {
                assert(rules.take(k as int) =~= rules);
                let sc = Set::new(
                    |x: ItemView|
                        x.dot == 0 && rules.contains(x.production) && fs@.contains(x.lookahead),
                );
                assert forall|x: ItemView| sc.contains(x) <==> target.contains(x) by {
                    grammar.lemma_rules(s, x.production);
                    if rules.contains(x.production) {
                        grammar.lemma_rule_registered(x.production);
                    }
                }
                assert(sc =~= target);
            }
        },
        None => {
            proof {
                assert forall|x: ItemView| !target.contains(x) by {
                    grammar.lemma_rules(s, x.production);
                }
                assert(updates@ =~= updates@.union(target));
            }
        },
    }
}

/// What the first `i` items of the row `s` call for.
pub open spec fn spawn_upto(g: &Grammar, f: Family, s: Seq<ItemView>, i: int) -> Set<ItemView> {
    Set::new(|x: ItemView| exists|j: int| 0 <= j < i && #[trigger] spawn_set(g, f, s[j]).contains(x))
}

/// For each production of the grammar and each symbol number below `n`, whether `items`
/// holds the item of that production with the dot at the start and that lookahead.
pub open spec fn cover(g: &Grammar, n: nat, items: Set<ItemView>) -> Seq<Seq<bool>> {
    Seq::new(
        g.spec_productions().len(),
        |r: int|
            Seq::new(n, |c: int| items.contains(fresh_item(g.spec_productions()[r], Symbol::at(c as nat)))),
    )
}

/// A set that gains an item which one of its items calls for covers more than before.
proof fn lemma_cover_grows(
    g: &Grammar,
    ff: &FirstAndFollow,
    a: Set<ItemView>,
    b: Set<ItemView>,
    it: ItemView,
    x: ItemView,
)
    requires
        ff.wf(),
        a.subset_of(b),
        !a.contains(x),
        b.contains(x),
        spawn_set(g, ff.first_sets(), it).contains(x),
    ensures
        grid_count(cover(g, ff.spec_symbols(), a)) < grid_count(cover(g, ff.spec_symbols(), b)),
        grid_size(cover(g, ff.spec_symbols(), a)) == grid_size(cover(g, ff.spec_symbols(), b)),
        grid_count(cover(g, ff.spec_symbols(), b)) <= grid_size(cover(g, ff.spec_symbols(), b)),
{
    let f = ff.first_sets();
    let n = ff.spec_symbols();
    let list = g.spec_productions();
    let p = x.production;
    let la = x.lookahead;
    let r = choose|r: int| 0 <= r < list.len() && list[r] == p;
    let sentence = after_dot(it).skip(1).push(it.lookahead);
    assert(walk(f, sentence).contains(la));
    let w = choose|w: int|
        0 <= w < sentence.len() && #[trigger] f(sentence[w]).contains(la) && nullable_prefix(
            f,
            sentence,
            w,
        );
    ff.lemma_first_members(sentence[w], la);
    Symbol::lemma_id_at(la);
    let ga = cover(g, n, a);
    let gb = cover(g, n, b);
    assert(x == fresh_item(list[r], Symbol::at(la.id())));
    assert(grid_below(ga, gb));
    assert(!ga[r][la.id() as int]);
    assert(gb[r][la.id() as int]);
    lemma_grid_strict(ga, gb, r, la.id() as int);
}

/// The closure of `items`.
pub fn closure(first_and_follow: &FirstAndFollow, grammar: &Grammar, items: ItemSet) -> (r: ItemSet)
    requires
        grammar.wf(),
        first_and_follow.wf(),
        items.wf(),
    ensures
        r.wf(),
        r@ == closure_of(grammar, first_and_follow.first_sets(), items@),
{
    let ghost f = first_and_follow.first_sets();
    let ghost given = items@;
    let ghost n = first_and_follow.spec_symbols();
    let mut result = items;
    let mut done = false;
    proof {
        lemma_closure_least(grammar, f, given);
        lemma_grid_bound(cover(grammar, n, result@));
    }
    while !done
        invariant
            grammar.wf(),
            first_and_follow.wf(),
            f == first_and_follow.first_sets(),
            n == first_and_follow.spec_symbols(),
            result.wf(),
            given.subset_of(result@),
            result@.subset_of(closure_of(grammar, f, given)),
            done ==> items_closed(grammar, f, result@),
            grid_count(cover(grammar, n, result@)) <= grid_size(cover(grammar, n, result@)),
        decreases
            grid_size(cover(grammar, n, result@)) - grid_count(cover(grammar, n, result@)),
            if done { 0int } else { 1int },
    {
        let mut updates = ItemSet::new();
        let mut i: usize = 0;
        let ghost row = result.seq();
        assert(updates@ =~= spawn_upto(grammar, f, row, 0));
        while i < result.len()
            invariant
                i <= row.len(),
                row == result.seq(),
                grammar.wf(),
                first_and_follow.wf(),
                f == first_and_follow.first_sets(),
                updates.wf(),
                updates@ == spawn_upto(grammar, f, row, i as int),
            decreases row.len() - i,
        {
            spawn(first_and_follow, grammar, result.get(i), &mut updates);
            proof {
                assert forall|x: ItemView| updates@.contains(x) <==> spawn_upto(
                    grammar,
                    f,
                    row,
                    i + 1,
                ).contains(x) by {
                    if spawn_upto(grammar, f, row, i + 1).contains(x) {
                        let j = choose|j: int|
                            0 <= j < i + 1 && #[trigger] spawn_set(grammar, f, row[j]).contains(x);
                        if j < i {
                            assert(spawn_upto(grammar, f, row, i as int).contains(x));
                        }
                    }
                    if spawn_upto(grammar, f, row, i as int).contains(x) {
                        let j = choose|j: int|
                            0 <= j < i && #[trigger] spawn_set(grammar, f, row[j]).contains(x);
                        assert(0 <= j < i + 1);
                    }
                    if spawn_set(grammar, f, row[i as int]).contains(x) {
                        assert(0 <= i < i + 1);
                    }
                }
                assert(updates@ =~= spawn_upto(grammar, f, row, i + 1));
            }
            i += 1;
        }
        let ghost before = result@;
        proof {
            result.lemma_seq();
            lemma_closure_least(grammar, f, given);
            assert forall|x: ItemView| updates@.contains(x) implies closure_of(
                grammar,
                f,
                given,
            ).contains(x) by {
                let j = choose|j: int|
                    0 <= j < row.len() && #[trigger] spawn_set(grammar, f, row[j]).contains(x);
                assert(row.contains(row[j]));
                assert(before.contains(row[j]));
            }
        }
        let grew = result.absorb(&updates);
        if !grew {
            done = true;
            proof {
                assert(result@ =~= before);
                assert forall|it: ItemView, x: ItemView|
                    result@.contains(it) && #[trigger] spawn_set(grammar, f, it).contains(
                        x,
                    ) implies result@.contains(x) by {
                    assert(row.contains(it));
                    let j = choose|j: int| 0 <= j < row.len() && row[j] == it;
                    assert(spawn_set(grammar, f, row[j]).contains(x));
                    assert(updates@.contains(x));
                }
            }
        } else {
            proof {
                let x = choose|x: ItemView| updates@.contains(x) && !before.contains(x);
                let j = choose|j: int|
                    0 <= j < row.len() && #[trigger] spawn_set(grammar, f, row[j]).contains(x);
                lemma_cover_grows(grammar, first_and_follow, before, result@, row[j], x);
            }
        }
    }
    proof {
        lemma_closure_least(grammar, f, given);
        assert(closure_of(grammar, f, given).subset_of(result@));
        assert(result@ =~= closure_of(grammar, f, given));
    }
    result
}

/// The items among the first `i` of the row `s` that have `x` after the dot, with the dot
/// moved past it.
pub open spec fn shifted_upto(s: Seq<ItemView>, i: int, x: Symbol) -> Set<ItemView> {
    Set::new(
        |y: ItemView|
            exists|j: int|
                0 <= j < i && after_dot(s[j]).len() > 0 && after_dot(s[j])[0] == x && y
                    == advanced(#[trigger] s[j]),
    )
}

/// The set reached from `items` on `symbol`: the closure of the items that have `symbol`
/// after the dot, with the dot moved past it.
pub fn go_to(
    first_and_follow: &FirstAndFollow,
    grammar: &Grammar,
    items: &ItemSet,
    symbol: &Symbol,
) -> (r: ItemSet)
    requires
        grammar.wf(),
        first_and_follow.wf(),
        items.wf(),
    ensures
        r.wf(),
        r@ == goto_of(grammar, first_and_follow.first_sets(), items@, *symbol),
{
    let mut kernel = ItemSet::new();
    let ghost row = items.seq();
    let mut i: usize = 0;
    assert(kernel@ =~= shifted_upto(row, 0, *symbol));
    while i < items.len()
        invariant
            i <= row.len(),
            row == items.seq(),
            kernel.wf(),
            kernel@ == shifted_upto(row, i as int, *symbol),
        decreases row.len() - i,
    {
        let item = items.get(i);
        let ghost before = kernel@;
        match item.next_symbol() {
            Some(x) => {
                if x == *symbol {
                    kernel.insert(
                        LR1Item::new(
                            item.production().clone(),
                            item.dot_position() + 1,
                            *item.lookahead(),
                        ),
                    );
                    assert(kernel@ == before.insert(advanced(row[i as int])));
                }
            },
            None => {},
        }
        proof {
            assert forall|y: ItemView| kernel@.contains(y) <==> shifted_upto(
                row,
                i + 1,
                *symbol,
            ).contains(y) by {
                if shifted_upto(row, i + 1, *symbol).contains(y) {
                    let j = choose|j: int|
                        0 <= j < i + 1 && after_dot(row[j]).len() > 0 && after_dot(row[j])[0]
                            == *symbol && y == advanced(#[trigger] row[j]);
                    if j < i {
                        assert(shifted_upto(row, i as int, *symbol).contains(y));
                    }
                }
                if before.contains(y) {
                    let j = choose|j: int|
                        0 <= j < i && after_dot(row[j]).len() > 0 && after_dot(row[j])[0] == *symbol
                            && y == advanced(#[trigger] row[j]);
                    assert(0 <= j < i + 1);
                }
            }
            assert(kernel@ =~= shifted_upto(row, i + 1, *symbol));
        }
        i += 1;
    }
    proof {
        items.lemma_seq();
        assert forall|y: ItemView| kernel@.contains(y) <==> shifted(items@, *symbol).contains(y) by {
            if kernel@.contains(y) {
                let j = choose|j: int|
                    0 <= j < row.len() && after_dot(row[j]).len() > 0 && after_dot(row[j])[0]
                        == *symbol && y == advanced(#[trigger] row[j]);
                assert(row.contains(row[j]));
                assert(items@.contains(row[j]));
            }
            if shifted(items@, *symbol).contains(y) {
                let it = choose|it: ItemView|
                    items@.contains(it) && after_dot(it).len() > 0 && after_dot(it)[0] == *symbol
                        && y == #[trigger] advanced(it);
                assert(row.contains(it));
                let j = choose|j: int| 0 <= j < row.len() && row[j] == it;
                assert(y == advanced(row[j]));
            }
        }
        assert(kernel@ =~= shifted(items@, *symbol));
    }
    closure(first_and_follow, grammar, kernel)
}

/// The item that every collection starts from: the goal becomes the start symbol, with the
/// dot at the start and the end of input as lookahead.
pub open spec fn initial_item(g: &Grammar) -> ItemView {
    ItemView { production: initial_production(g), dot: 0, lookahead: SymbolDb::spec_eoi() }
}

/// The production of the initial item: the goal becomes the start symbol.
pub open spec fn initial_production(g: &Grammar) -> ProductionView {
    ProductionView { lhs: SymbolDb::spec_goal(), rhs: seq![g.spec_start()] }
}

/// Some item of `items` has `x` right after its dot.
pub open spec fn has_next(items: Set<ItemView>, x: Symbol) -> bool {
    exists|it: ItemView| items.contains(it) && after_dot(it).len() > 0 && (#[trigger] after_dot(it))[0] == x
}

/// The most states a collection can number.
pub const STATE_LIMIT: usize = 0xffff_ffff;

/// The canonical collection of sets of LR(1) items: the sets, numbered in the order in which
/// they were found, and the transitions between them.
pub struct CanonicalCollection {
    sets: Vec<ItemSet>,
    transitions: Vec<Vec<(Symbol, u32)>>,
    unprocessed: Vec<u32>,
    origin: Ghost<Seq<(int, int)>>,
}

/// The first of two places, by state and then by item, comes before the second.
pub open spec fn place_lt(a: (int, int), b: (int, int)) -> bool {
    a.0 < b.0 || (a.0 == b.0 && a.1 < b.1)
}

/// The first of two places comes before the second or is the second.
pub open spec fn place_le(a: (int, int), b: (int, int)) -> bool {
    a == b || place_lt(a, b)
}

impl CanonicalCollection {
    /// The number of states.
    pub closed spec fn spec_len(&self) -> nat {
        self.sets@.len()
    }

    /// The item sets, each at its state's number.
    pub closed spec fn spec_sets(&self) -> Seq<Set<ItemView>> {
        Seq::new(self.sets@.len(), |i: int| self.sets@[i]@)
    }

    /// The items of each state, in their order.
    pub closed spec fn spec_rows(&self) -> Seq<Seq<ItemView>> {
        Seq::new(self.sets@.len(), |i: int| self.sets@[i].seq())
    }

    /// The row of a state holds the items of its set, in rising order.
    pub proof fn lemma_rows(&self, i: int)
        requires
            self.wf(),
            0 <= i < self.spec_len(),
        ensures
            self.spec_rows().len() == self.spec_len(),
            self.spec_sets().len() == self.spec_len(),
            crate::item_set::rising(self.spec_rows()[i]),
            self.spec_rows()[i].to_set() == self.spec_sets()[i],
            forall|it: ItemView|
                #[trigger] self.spec_sets()[i].contains(it) <==> self.spec_rows()[i].contains(it),
    {
        self.sets@[i].lemma_seq();
    }

    /// The state reached from state `i` on `x`, if a transition is recorded.
    pub closed spec fn spec_target(&self, i: int, x: Symbol) -> Option<u32> {
        if 0 <= i < self.transitions@.len() {
            row_lookup(self.transitions@[i]@, x)
        } else {
            None
        }
    }

    /// For each state but state 0, where it was found: the state and the place of the item
    /// in its row that first led to it.
    pub closed spec fn spec_origin(&self) -> Seq<(int, int)> {
        self.origin@
    }

    /// The item at place `k` of state `i` has a symbol after its dot on which a transition
    /// leads from `i` to state `j`.
    pub open spec fn produces(&self, i: int, k: int, j: int) -> bool {
        &&& 0 <= i < self.spec_len()
        &&& 0 <= k < self.spec_rows()[i].len()
        &&& after_dot(self.spec_rows()[i][k]).len() > 0
        &&& self.spec_target(i, after_dot(self.spec_rows()[i][k])[0]) == Some(j as u32)
    }

    /// The states are numbered in the order in which they were found, up to the place
    /// `bound`: each state but state 0 was found at a place before `bound`, in a state with
    /// a smaller number, no place before that leads to it, and a state with a larger number
    /// was found at a later place.
    pub open spec fn ordered_before(&self, bound: (int, int)) -> bool {
        &&& self.spec_origin().len() == self.spec_len()
        &&& forall|j: int|
            1 <= j < self.spec_len() ==> {
                let o = #[trigger] self.spec_origin()[j];
                self.produces(o.0, o.1, j) && o.0 < j && place_lt(o, bound)
            }
        &&& forall|j1: int, j2: int|
            1 <= j1 < j2 < self.spec_len() ==> place_lt(
                #[trigger] self.spec_origin()[j1],
                #[trigger] self.spec_origin()[j2],
            )
        &&& forall|i: int, k: int, j: int|
            1 <= j < self.spec_len() && #[trigger] self.produces(i, k, j) ==> place_le(
                self.spec_origin()[j],
                (i, k),
            )
    }

    /// The states are numbered in the order in which they were found.
    pub open spec fn ordered(&self) -> bool {
        self.ordered_before((self.spec_len() as int, 0))
    }

    /// The states that are waiting to be explored, in the order in which they were found.
    pub closed spec fn spec_unprocessed(&self) -> Seq<u32> {
        self.unprocessed@
    }

    /// Each state has its row of transitions, each set is in order, and the states can be
    /// numbered.
    pub closed spec fn wf(&self) -> bool {
        &&& self.sets@.len() == self.transitions@.len()
        &&& self.sets@.len() <= STATE_LIMIT
        &&& forall|i: int| 0 <= i < self.sets@.len() ==> (#[trigger] self.sets@[i]).wf()
    }

    /// What a well-formed collection is known to hold.
    pub proof fn lemma_wf(&self)
        requires
            self.wf(),
        ensures
            self.spec_sets().len() == self.spec_len(),
            self.spec_len() <= STATE_LIMIT,
            forall|i: int, x: Symbol| !(0 <= i < self.spec_len()) ==> self.spec_target(i, x) is None,
    {
    }

    /// The transition from state `i` on `x` leads to the set that is reached from the set of
    /// `i` on `x`, and some item of `i` has `x` after its dot.
    pub open spec fn edge_ok(&self, g: &Grammar, f: Family, i: int, x: Symbol) -> bool {
        &&& self.spec_target(i, x).unwrap() < self.spec_len()
        &&& self.spec_sets()[self.spec_target(i, x).unwrap() as int] == goto_of(
            g,
            f,
            self.spec_sets()[i],
            x,
        )
        &&& has_next(self.spec_sets()[i], x)
    }

    /// State 0 is the closure of the initial item, no two states have the same set, and
    /// every transition recorded is right.
    pub open spec fn sound(&self, g: &Grammar, f: Family) -> bool {
        &&& self.spec_len() >= 1
        &&& self.spec_sets()[0] == closure_of(g, f, set![initial_item(g)])
        &&& forall|i: int, j: int|
            0 <= i < j < self.spec_len() ==> #[trigger] self.spec_sets()[i] != #[trigger] self.spec_sets()[j]
        &&& forall|i: int, x: Symbol|
            0 <= i < self.spec_len() && (#[trigger] self.spec_target(i, x)) is Some ==> self.edge_ok(
                g,
                f,
                i,
                x,
            )
    }

    /// State `i` has a transition for every symbol that stands after the dot of one of its
    /// items.
    pub open spec fn explored(&self, i: int) -> bool {
        forall|x: Symbol| has_next(self.spec_sets()[i], x) ==> (#[trigger] self.spec_target(i, x)) is Some
    }

    /// State `j` is state 0 or is reached by a transition from a state with a smaller number.
    pub open spec fn rooted(&self, j: int) -> bool {
        j == 0 || exists|i: int, x: Symbol|
            0 <= i < j && #[trigger] self.spec_target(i, x) == Some(j as u32)
    }

    /// The collection is that of the grammar `g` with the first sets `f`: it is sound, every
    /// state is explored and rooted, the states are numbered in the order in which they were
    /// found, and none is waiting.
    pub open spec fn complete(&self, g: &Grammar, f: Family) -> bool {
        &&& self.sound(g, f)
        &&& forall|i: int| 0 <= i < self.spec_len() ==> #[trigger] self.explored(i)
        &&& forall|j: int| 0 <= j < self.spec_len() ==> #[trigger] self.rooted(j)
        &&& self.ordered()
        &&& self.spec_unprocessed().len() == 0
    }

    /// The states `from`, `from + 1`, ... up to the last are waiting, in this order.
    pub open spec fn waiting_from(&self, from: nat) -> bool {
        &&& from <= self.spec_len()
        &&& self.spec_unprocessed().len() == self.spec_len() - from
        &&& forall|k: int|
            0 <= k < self.spec_unprocessed().len() ==> #[trigger] self.spec_unprocessed()[k] == from + k
    }

    /// The number of the state whose set is `set`, if there is one.
    pub fn index_of(&self, set: &ItemSet) -> (r: Option<u32>)
        requires
            self.wf(),
            set.wf(),
        ensures
            match r {
                Some(j) => j < self.spec_len() && self.spec_sets()[j as int] == set@,
                None => forall|i: int| 0 <= i < self.spec_len() ==> #[trigger] self.spec_sets()[i] != set@,
            },
    {
        let mut i: usize = 0;
        while i < self.sets.len()
            invariant
                i <= self.sets@.len(),
                self.wf(),
                set.wf(),
                forall|k: int| 0 <= k < i ==> #[trigger] self.spec_sets()[k] != set@,
            decreases self.sets@.len() - i,
        {
            if self.sets[i].same_as(set) {
                return Some(i as u32);
            }
            i += 1;
        }
        None
    }

    /// Whether some state has the set `set`.
    pub fn contains(&self, set: &ItemSet) -> (b: bool)
        requires
            self.wf(),
            set.wf(),
        ensures
            b == exists|i: int| 0 <= i < self.spec_len() && #[trigger] self.spec_sets()[i] == set@,
    {
        self.index_of(set).is_some()
    }

    /// The item sets, each at its state's number.
    pub fn sets(&self) -> (v: &Vec<ItemSet>)
        ensures
            v@.len() == self.spec_len(),
            forall|i: int| 0 <= i < v@.len() ==> (#[trigger] v@[i])@ == self.spec_sets()[i],
            forall|i: int| 0 <= i < v@.len() ==> (#[trigger] v@[i]).seq() == self.spec_rows()[i],
            self.wf() ==> forall|i: int| 0 <= i < v@.len() ==> (#[trigger] v@[i]).wf(),
    {
        &self.sets
    }

    /// The transitions, a row for each state: the symbols with the states they lead to.
    pub fn transitions(&self) -> (v: &Vec<Vec<(Symbol, u32)>>)
        ensures
            forall|i: int, x: Symbol|
                0 <= i < v@.len() ==> #[trigger] row_lookup(v@[i]@, x) == self.spec_target(i, x),
            self.wf() ==> v@.len() == self.spec_len(),
    {
        &self.transitions
    }

    /// The state reached from `state` on `on`, if a transition is recorded.
    pub fn transition(&self, state: u32, on: Symbol) -> (r: Option<u32>)
        ensures
            r == self.spec_target(state as int, on),
    {
        let i = state as usize;
        if i < self.transitions.len() {
            match row_find(&self.transitions[i], on) {
                Some(k) => Some(self.transitions[i][k].1),
                None => None,
            }
        } else {
            None
        }
    }

    /// Hands out the states that are waiting to be explored, and leaves none waiting.
    pub fn take_unprocessed(&mut self) -> (v: Vec<u32>)
        ensures
            v@ == old(self).spec_unprocessed(),
            final(self).spec_unprocessed().len() == 0,
            final(self).spec_sets() == old(self).spec_sets(),
            final(self).spec_rows() == old(self).spec_rows(),
            final(self).spec_origin() == old(self).spec_origin(),
            final(self).spec_len() == old(self).spec_len(),
            final(self).wf() == old(self).wf(),
            forall|i: int, x: Symbol| final(self).spec_target(i, x) == old(self).spec_target(i, x),
    {
        let mut v: Vec<u32> = Vec::new();
        std::mem::swap(&mut self.unprocessed, &mut v);
        v
    }

    /// Gives the set `set`, which no state has, the next state number and lets it wait.
    fn add(&mut self, set: ItemSet, found_at: Ghost<(int, int)>) -> (r: Result<
        u32,
        TableConflictError,
    >)
        requires
            old(self).wf(),
            set.wf(),
            forall|i: int| 0 <= i < old(self).spec_len() ==> #[trigger] old(self).spec_sets()[i] != set@,
        ensures
            match r {
                Ok(n) => {
                    &&& n == old(self).spec_len()
                    &&& final(self).wf()
                    &&& final(self).spec_sets() == old(self).spec_sets().push(set@)
                    &&& final(self).spec_rows() == old(self).spec_rows().push(set.seq())
                    &&& final(self).spec_origin() == old(self).spec_origin().push(found_at@)
                    &&& final(self).spec_len() == old(self).spec_len() + 1
                    &&& final(self).spec_unprocessed() == old(self).spec_unprocessed().push(n)
                    &&& forall|i: int, x: Symbol|
                        final(self).spec_target(i, x) == old(self).spec_target(i, x)
                },
                Err(e) => {
                    &&& e == TableConflictError::StateLimit
                    &&& old(self).spec_len() == STATE_LIMIT
                    &&& *final(self) == *old(self)
                },
            },
    {
        let len = self.sets.len();
        if len >= STATE_LIMIT {
            return Err(TableConflictError::StateLimit);
        }
        let n = len as u32;
        self.sets.push(set);
        self.transitions.push(Vec::new());
        self.unprocessed.push(n);
        proof {
            self.origin@ = self.origin@.push(found_at@);
            assert(self.spec_sets() =~= old(self).spec_sets().push(set@));
            assert(self.spec_rows() =~= old(self).spec_rows().push(set.seq()));
            assert forall|i: int, x: Symbol| self.spec_target(i, x) == old(self).spec_target(
                i,
                x,
            ) by {
                if 0 <= i < len {
                    assert(self.transitions@[i] == old(self).transitions@[i]);
                }
            }
        }
        Ok(n)
    }

    /// Records that `on` leads from state `from` to state `to`.
    fn add_transition(&mut self, from: u32, on: Symbol, to: u32)
        requires
            old(self).wf(),
            from < old(self).spec_len(),
            to < old(self).spec_len(),
            old(self).spec_target(from as int, on) is None || old(self).spec_target(from as int, on)
                == Some(to),
        ensures
            final(self).wf(),
            final(self).spec_sets() == old(self).spec_sets(),
            final(self).spec_rows() == old(self).spec_rows(),
            final(self).spec_origin() == old(self).spec_origin(),
            final(self).spec_len() == old(self).spec_len(),
            final(self).spec_unprocessed() == old(self).spec_unprocessed(),
            final(self).spec_target(from as int, on) == Some(to),
            forall|i: int, x: Symbol|
                !(i == from && x == on) ==> final(self).spec_target(i, x) == old(self).spec_target(
                    i,
                    x,
                ),
    {
        let i = from as usize;
        match row_find(&self.transitions[i], on) {
            Some(_) => {},
            None => {
                let ghost row = self.transitions@[i as int]@;
                self.transitions[i].push((on, to));
                proof {
                    assert(self.transitions@[i as int]@ == row.push((on, to)));
                    lemma_row_push(row, on, to, on);
                    assert forall|k: int, x: Symbol| !(k == from && x == on) implies self.spec_target(
                        k,
                        x,
                    ) == old(self).spec_target(k, x) by {
                        if k == from {
                            lemma_row_push(row, on, to, x);
                        } else if 0 <= k < self.transitions@.len() {
                            assert(self.transitions@[k] == old(self).transitions@[k]);
                        }
                    }
                    assert(self.spec_sets() =~= old(self).spec_sets());
                    assert(self.spec_rows() =~= old(self).spec_rows());
                }
            },
        }
    }
}

impl CanonicalCollection {
    /// Every state is state 0 or is reached from a state with a smaller number.
    pub open spec fn all_rooted(&self) -> bool {
        forall|j: int| 0 <= j < self.spec_len() ==> #[trigger] self.rooted(j)
    }

    /// Each of the first `k` items of state `i` that has a symbol after its dot has a
    /// transition on it.
    pub open spec fn served(&self, i: int, k: int) -> bool {
        forall|q: int|
            0 <= q < k && after_dot(#[trigger] self.spec_rows()[i][q]).len() > 0 ==> self.spec_target(
                i,
                after_dot(self.spec_rows()[i][q])[0],
            ) is Some
    }

    /// A collection that is ordered up to a place is ordered up to every later place.
    pub proof fn lemma_ordered_later(&self, bound: (int, int), later: (int, int))
        requires
            self.ordered_before(bound),
            place_le(bound, later),
        ensures
            self.ordered_before(later),
    {
        assert forall|j: int| 1 <= j < self.spec_len() implies {
            let o = #[trigger] self.spec_origin()[j];
            self.produces(o.0, o.1, j) && o.0 < j && place_lt(o, later)
        } by {
            let o = self.spec_origin()[j];
            assert(place_lt(o, bound));
        }
    }

    /// Records that `on`, which stands after the dot of the item at place `k` of state
    /// `from`, leads to the state with the set `target`, which becomes a new state where no
    /// state has that set, and says whether it did.
    fn link(
        &mut self,
        grammar: &Grammar,
        first_and_follow: &FirstAndFollow,
        from: u32,
        k: Ghost<int>,
        on: Symbol,
        target: ItemSet,
    ) -> (r: Result<bool, TableConflictError>)
        requires
            old(self).wf(),
            old(self).sound(grammar, first_and_follow.first_sets()),
            old(self).all_rooted(),
            from < old(self).spec_len(),
            target.wf(),
            target@ == goto_of(
                grammar,
                first_and_follow.first_sets(),
                old(self).spec_sets()[from as int],
                on,
            ),
            has_next(old(self).spec_sets()[from as int], on),
            old(self).ordered_before((from as int, k@)),
            0 <= k@ < old(self).spec_rows()[from as int].len(),
            after_dot(old(self).spec_rows()[from as int][k@]).len() > 0,
            after_dot(old(self).spec_rows()[from as int][k@])[0] == on,
            old(self).served(from as int, k@),
        ensures
            match r {
                Ok(added) => {
                    &&& final(self).wf()
                    &&& final(self).sound(grammar, first_and_follow.first_sets())
                    &&& final(self).all_rooted()
                    &&& final(self).ordered_before((from as int, k@ + 1))
                    &&& final(self).spec_sets() == if added {
                        old(self).spec_sets().push(target@)
                    } else {
                        old(self).spec_sets()
                    }
                    &&& final(self).spec_rows() == if added {
                        old(self).spec_rows().push(target.seq())
                    } else {
                        old(self).spec_rows()
                    }
                    &&& final(self).spec_len() == old(self).spec_len() + if added {
                        1nat
                    } else {
                        0nat
                    }
                    &&& final(self).spec_unprocessed() == if added {
                        old(self).spec_unprocessed().push(old(self).spec_len() as u32)
                    } else {
                        old(self).spec_unprocessed()
                    }
                    &&& final(self).spec_target(from as int, on) is Some
                    &&& forall|i: int, x: Symbol|
                        (#[trigger] old(self).spec_target(i, x)) is Some ==> final(self).spec_target(i, x)
                            == old(self).spec_target(i, x)
                },
                Err(e) => {
                    &&& e == TableConflictError::StateLimit
                    &&& old(self).spec_len() == STATE_LIMIT
                    &&& *final(self) == *old(self)
                    &&& forall|i: int|
                        0 <= i < old(self).spec_len() ==> #[trigger] old(self).spec_sets()[i] != target@
                },
            },
    {
        let ghost f = first_and_follow.first_sets();
        let ghost goal = target@;
        let ghost here = (from as int, k@);
        proof {
            self.lemma_wf();
            self.lemma_rows(from as int);
        }
        let found = self.index_of(&target);
        let to = match found {
            Some(j) => {
                proof {
                    if self.spec_target(from as int, on) is Some {
                        assert(self.edge_ok(grammar, f, from as int, on));
                        let other = self.spec_target(from as int, on).unwrap();
                        if other != j {
                            if other < j {
                                assert(self.spec_sets()[other as int] != self.spec_sets()[j as int]);
                            } else {
                                assert(self.spec_sets()[j as int] != self.spec_sets()[other as int]);
                            }
                        }
                    }
                }
                j
            },
            None => {
                proof {
                    if self.spec_target(from as int, on) is Some {
                        assert(self.edge_ok(grammar, f, from as int, on));
                    }
                }
                match self.add(target, Ghost(here)) {
                    Ok(n) => n,
                    Err(e) => {
                        return Err(e);
                    },
                }
            },
        };
        let ghost mid = *self;
        self.add_transition(from, on, to);
        let added = found.is_none();
        proof {
            self.lemma_wf();
            let len0 = old(self).spec_len() as int;
            assert(self.spec_sets()[to as int] == goal);
            assert(self.spec_sets()[from as int] == old(self).spec_sets()[from as int]);
            assert forall|i: int, x: Symbol| (#[trigger] old(self).spec_target(i, x)) is Some implies self.spec_target(
                i,
                x,
            ) == old(self).spec_target(i, x) by {
                assert(mid.spec_target(i, x) == old(self).spec_target(i, x));
            }
            assert(self.sound(grammar, f)) by {
                assert forall|i: int, j: int| 0 <= i < j < self.spec_len() implies #[trigger] self.spec_sets()[i]
                    != #[trigger] self.spec_sets()[j] by {
                    if j < old(self).spec_len() {
                        assert(old(self).spec_sets()[i] != old(self).spec_sets()[j]);
                    } else {
                        assert(old(self).spec_sets()[i] != goal);
                    }
                }
                assert forall|i: int, x: Symbol|
                    0 <= i < self.spec_len() && (#[trigger] self.spec_target(i, x)) is Some implies self.edge_ok(
                    grammar,
                    f,
                    i,
                    x,
                ) by {
                    if i == from && x == on {
                    } else {
                        assert(self.spec_target(i, x) == mid.spec_target(i, x));
                        assert(mid.spec_target(i, x) == old(self).spec_target(i, x));
                        old(self).lemma_wf();
                        assert(0 <= i < old(self).spec_len());
                        assert(old(self).edge_ok(grammar, f, i, x));
                        let t = old(self).spec_target(i, x).unwrap();
                        assert(self.spec_sets()[t as int] == old(self).spec_sets()[t as int]);
                        assert(self.spec_sets()[i] == old(self).spec_sets()[i]);
                    }
                }
            }
            assert forall|j: int| 0 <= j < self.spec_len() implies #[trigger] self.rooted(j) by {
                if j < old(self).spec_len() {
                    assert(old(self).rooted(j));
                    if j != 0 {
                        let (i, x) = choose|i: int, x: Symbol|
                            0 <= i < j && #[trigger] old(self).spec_target(i, x) == Some(j as u32);
                        assert(self.spec_target(i, x) == Some(j as u32));
                    }
                } else {
                    assert(self.spec_target(from as int, on) == Some(j as u32));
                }
            }
            // the order of discovery
            assert forall|i: int| 0 <= i < len0 implies #[trigger] self.spec_rows()[i] == old(
                self,
            ).spec_rows()[i] by {}
            assert forall|i: int, q: int, j: int| old(self).produces(i, q, j) implies self.produces(
                i,
                q,
                j,
            ) by {
                assert(self.spec_rows()[i] == old(self).spec_rows()[i]);
                let x = after_dot(old(self).spec_rows()[i][q])[0];
                assert(old(self).spec_target(i, x) is Some);
            }
            assert forall|i: int, q: int, j: int|
                1 <= j < self.spec_len() && #[trigger] self.produces(i, q, j) implies place_le(
                self.spec_origin()[j],
                (i, q),
            ) by {
                old(self).lemma_wf();
                let x = after_dot(self.spec_rows()[i][q])[0];
                if i < len0 && old(self).spec_target(i, x) == Some(j as u32) {
                    assert(self.spec_rows()[i] == old(self).spec_rows()[i]);
                    assert(old(self).produces(i, q, j));
                    assert(j < len0);
                } else {
                    if i >= len0 {
                        assert(mid.spec_target(i, x) == old(self).spec_target(i, x));
                        assert(old(self).spec_target(i, x) is None);
                        assert(i == from);
                    }
                    assert(i == from && x == on);
                    assert(j == to);
                    assert(old(self).spec_target(from as int, on) is None);
                    assert(self.spec_rows()[i] == old(self).spec_rows()[i]);
                    if q < k@ {
                        assert(old(self).served(from as int, k@));
                        assert(after_dot(old(self).spec_rows()[from as int][q]).len() > 0);
                        assert(false);
                    }
                    if j < len0 {
                        assert(place_lt(old(self).spec_origin()[j], here));
                    }
                }
            }
            assert forall|j: int| 1 <= j < self.spec_len() implies {
                let o = #[trigger] self.spec_origin()[j];
                self.produces(o.0, o.1, j) && o.0 < j && place_lt(o, (from as int, k@ + 1))
            } by {
                if j < len0 {
                    let o = old(self).spec_origin()[j];
                    assert(old(self).produces(o.0, o.1, j) && o.0 < j && place_lt(o, here));
                } else {
                    assert(self.spec_origin()[j] == here);
                    assert(self.spec_rows()[from as int] == old(self).spec_rows()[from as int]);
                    assert(self.produces(from as int, k@, j));
                }
            }
            assert forall|j1: int, j2: int| 1 <= j1 < j2 < self.spec_len() implies place_lt(
                #[trigger] self.spec_origin()[j1],
                #[trigger] self.spec_origin()[j2],
            ) by {
                if j2 < len0 {
                    assert(place_lt(old(self).spec_origin()[j1], old(self).spec_origin()[j2]));
                } else {
                    let o = old(self).spec_origin()[j1];
                    assert(place_lt(o, here));
                }
            }
        }
        Ok(added)
    }

    /// Builds the canonical collection of `grammar`.
    pub fn new(grammar: &Grammar) -> (r: Result<CanonicalCollection, TableConflictError>)
        requires
            grammar.wf(),
        ensures
            match r {
                Ok(cc) => cc.wf() && cc.complete(grammar, first_family(grammar)),
                Err(e) => e == TableConflictError::StateLimit && state_limit_reached(grammar),
            },
    {
        build(grammar)
    }
}

/// The grammar has more sets of items than there are state numbers: some sound collection
/// has used all numbers, and a set that it lacks is reached from one of its states.
pub open spec fn state_limit_reached(g: &Grammar) -> bool {
    exists|cc: CanonicalCollection, i: int, x: Symbol|
        #![trigger has_next(cc.spec_sets()[i], x)]
        {
            &&& cc.wf()
            &&& cc.sound(g, first_family(g))
            &&& cc.all_rooted()
            &&& cc.spec_len() == STATE_LIMIT
            &&& 0 <= i < cc.spec_len()
            &&& has_next(cc.spec_sets()[i], x)
            &&& forall|j: int|
                0 <= j < cc.spec_len() ==> #[trigger] cc.spec_sets()[j] != goto_of(
                    g,
                    first_family(g),
                    cc.spec_sets()[i],
                    x,
                )
        }
}

/// Builds the canonical collection of `grammar`: state 0 is the closure of the initial item,
/// and each state is explored in turn, by the order of its items; a set that is reached and
/// is not yet a state becomes the next state.
fn build(grammar: &Grammar) -> (r: Result<CanonicalCollection, TableConflictError>)
    requires
        grammar.wf(),
    ensures
        match r {
            Ok(cc) => cc.wf() && cc.complete(grammar, first_family(grammar)),
            Err(e) => e == TableConflictError::StateLimit && state_limit_reached(grammar),
        },
{
    let symbol_db = grammar.symbol_db();
    let first_and_follow = FirstAndFollow::new(grammar);
    let ghost f = first_family(grammar);
    let mut cc = CanonicalCollection {
        sets: Vec::new(),
        transitions: Vec::new(),
        unprocessed: Vec::new(),
        origin: Ghost(Seq::empty()),
    };
    let mut rhs: Vec<Symbol> = Vec::new();
    rhs.push(*grammar.start_symbol());
    let p = Production::new(symbol_db.goal(), rhs);
    let mut initial = ItemSet::new();
    initial.insert(LR1Item::new(p, 0, symbol_db.eoi()));
    proof {
        assert(p@.rhs =~= seq![grammar.spec_start()]);
        assert(initial@ =~= set![initial_item(grammar)]);
    }
    let cc0 = closure(&first_and_follow, grammar, initial);
    let ghost empty = cc;
    match cc.add(cc0, Ghost((0, 0))) {
        Ok(_) => {},
        Err(e) => {
            return Err(e);
        },
    }
    let ghost mut explored_upto: nat = 0;
    proof {
        cc.lemma_wf();
        assert forall|i: int, x: Symbol| cc.spec_target(i, x) is None by {
            assert(empty.spec_target(i, x) is None);
        }
    }
    let mut done = false;
    while !done
        invariant
            grammar.wf(),
            first_and_follow.wf(),
            first_and_follow.first_sets() == f,
            f == first_family(grammar),
            cc.wf(),
            cc.sound(grammar, f),
            cc.all_rooted(),
            cc.ordered_before((explored_upto as int, 0)),
            cc.waiting_from(explored_upto),
            forall|i: int| 0 <= i < explored_upto ==> #[trigger] cc.explored(i),
            done ==> explored_upto == cc.spec_len(),
            cc.spec_len() <= STATE_LIMIT,
        decreases STATE_LIMIT - cc.spec_len(), if done { 0int } else { 1int },
    {
        done = true;
        let ghost before_pass = cc;
        let work = cc.take_unprocessed();
        let ghost start_len = cc.spec_len();
        proof {
            assert forall|j: int| 0 <= j < cc.spec_len() implies #[trigger] cc.rooted(j) by {
                assert(before_pass.rooted(j));
                if j != 0 {
                    let (i, x) = choose|i: int, x: Symbol|
                        0 <= i < j && #[trigger] before_pass.spec_target(i, x) == Some(j as u32);
                    assert(cc.spec_target(i, x) == Some(j as u32));
                }
            }
            assert forall|i: int| 0 <= i < explored_upto implies #[trigger] cc.explored(i) by {
                assert(before_pass.explored(i));
                assert forall|y: Symbol| has_next(cc.spec_sets()[i], y) implies (#[trigger] cc.spec_target(
                    i,
                    y,
                )) is Some by {
                    assert(before_pass.spec_target(i, y) is Some);
                }
            }
            assert(cc.sound(grammar, f)) by {
                assert forall|i: int, x: Symbol|
                    0 <= i < cc.spec_len() && (#[trigger] cc.spec_target(i, x)) is Some implies cc.edge_ok(
                    grammar,
                    f,
                    i,
                    x,
                ) by {
                    assert(before_pass.spec_target(i, x) is Some);
                    assert(before_pass.edge_ok(grammar, f, i, x));
                }
            }
            assert(cc.ordered_before((explored_upto as int, 0))) by {
                assert forall|i: int, q: int, j: int| cc.produces(i, q, j) == before_pass.produces(
                    i,
                    q,
                    j,
                ) by {}
                assert forall|j: int| 1 <= j < cc.spec_len() implies {
                    let o = #[trigger] cc.spec_origin()[j];
                    cc.produces(o.0, o.1, j) && o.0 < j && place_lt(o, (explored_upto as int, 0))
                } by {
                    let o = before_pass.spec_origin()[j];
                    assert(before_pass.produces(o.0, o.1, j));
                }
                assert forall|i: int, q: int, j: int|
                    1 <= j < cc.spec_len() && #[trigger] cc.produces(i, q, j) implies place_le(
                    cc.spec_origin()[j],
                    (i, q),
                ) by {
                    assert(before_pass.produces(i, q, j));
                }
            }
        }
        let mut w: usize = 0;
        while w < work.len()
            invariant
                w <= work@.len(),
                grammar.wf(),
                first_and_follow.wf(),
                first_and_follow.first_sets() == f,
                f == first_family(grammar),
                cc.wf(),
                cc.sound(grammar, f),
                cc.all_rooted(),
                cc.ordered_before((explored_upto + w, 0)),
                explored_upto + work@.len() == start_len,
                forall|k: int| 0 <= k < work@.len() ==> #[trigger] work@[k] == explored_upto + k,
                cc.waiting_from(start_len),
                forall|i: int| 0 <= i < explored_upto + w ==> #[trigger] cc.explored(i),
                done ==> cc.spec_len() == start_len,
                !done ==> cc.spec_len() > start_len,
                cc.spec_len() <= STATE_LIMIT,
            decreases work@.len() - w,
        {
            let state = work[w];
            proof {
                cc.lemma_wf();
                cc.lemma_rows(state as int);
            }
            let cc_i = cc.sets[state as usize].clone();
            let ghost row = cc_i.seq();
            let ghost here = cc.spec_sets()[state as int];
            assert(cc_i@ == here);
            assert(row == cc.spec_rows()[state as int]);
            let mut k: usize = 0;
            while k < cc_i.len()
                invariant
                    k <= row.len(),
                    row == cc_i.seq(),
                    cc_i.wf(),
                    cc_i@ == here,
                    state == explored_upto + w,
                    state < start_len,
                    start_len <= cc.spec_len(),
                    here == cc.spec_sets()[state as int],
                    row == cc.spec_rows()[state as int],
                    grammar.wf(),
                    first_and_follow.wf(),
                    first_and_follow.first_sets() == f,
                    f == first_family(grammar),
                    cc.wf(),
                    cc.sound(grammar, f),
                    cc.all_rooted(),
                    cc.ordered_before((state as int, k as int)),
                    cc.waiting_from(start_len),
                    forall|i: int| 0 <= i < explored_upto + w ==> #[trigger] cc.explored(i),
                    cc.served(state as int, k as int),
                    done ==> cc.spec_len() == start_len,
                    !done ==> cc.spec_len() > start_len,
                    cc.spec_len() <= STATE_LIMIT,
                decreases row.len() - k,
            {
                match cc_i.get(k).next_symbol() {
                    Some(x) => {
                        let temp = go_to(&first_and_follow, grammar, &cc_i, &x);
                        let ghost before = cc;
                        proof {
                            cc_i.lemma_seq();
                            assert(row.contains(row[k as int]));
                            assert(has_next(here, x)) by {
                                assert(here.contains(row[k as int]));
                                assert(after_dot(row[k as int])[0] == x);
                            }
                        }
                        match cc.link(grammar, &first_and_follow, state, Ghost(k as int), x, temp) {
                            Ok(added) => {
                                if added {
                                    done = false;
                                }
                                proof {
                                    cc.lemma_wf();
                                    before.lemma_wf();
                                    assert(cc.spec_rows()[state as int] == row);
                                    assert forall|i: int| 0 <= i < explored_upto + w implies #[trigger] cc.explored(
                                        i,
                                    ) by {
                                        assert(before.explored(i));
                                        assert(cc.spec_sets()[i] == before.spec_sets()[i]);
                                        assert forall|y: Symbol| has_next(cc.spec_sets()[i], y) implies (
                                        #[trigger] cc.spec_target(i, y)) is Some by {
                                            assert(before.spec_target(i, y) is Some);
                                        }
                                    }
                                    assert(cc.served(state as int, k + 1)) by {
                                        assert forall|q: int|
                                            0 <= q < k + 1 && after_dot(
                                                #[trigger] cc.spec_rows()[state as int][q],
                                            ).len() > 0 implies cc.spec_target(
                                            state as int,
                                            after_dot(cc.spec_rows()[state as int][q])[0],
                                        ) is Some by {
                                            if q < k {
                                                assert(before.served(state as int, k as int));
                                                assert(after_dot(
                                                    before.spec_rows()[state as int][q],
                                                ).len() > 0);
                                                assert(before.spec_target(
                                                    state as int,
                                                    after_dot(row[q])[0],
                                                ) is Some);
                                            }
                                        }
                                    }
                                }
                            },
                            Err(e) => {
                                proof {
                                    assert(has_next(cc.spec_sets()[state as int], x));
                                    assert(state_limit_reached(grammar));
                                }
                                return Err(e);
                            },
                        }
                    },
                    None => {
                        proof {
                            cc.lemma_ordered_later((state as int, k as int), (state as int, k + 1));
                        }
                    },
                }
                k += 1;
            }
            proof {
                cc_i.lemma_seq();
                assert(cc.explored(state as int)) by {
                    assert forall|x: Symbol| has_next(cc.spec_sets()[state as int], x) implies (
                    #[trigger] cc.spec_target(state as int, x)) is Some by {
                        let it = choose|it: ItemView|
                            here.contains(it) && after_dot(it).len() > 0 && (#[trigger] after_dot(
                                it,
                            ))[0] == x;
                        assert(row.contains(it));
                        let j = choose|j: int| 0 <= j < row.len() && row[j] == it;
                        assert(after_dot(cc.spec_rows()[state as int][j]).len() > 0);
                    }
                }
                cc.lemma_ordered_later((state as int, k as int), (state + 1, 0));
            }
            w += 1;
        }
        proof {
            explored_upto = start_len;
        }
    }
    Ok(cc)
}

impl CanonicalCollection {
    /// State `j` is reached from state 0 by at most `steps` transitions.
    pub open spec fn reachable_in(&self, j: int, steps: nat) -> bool
        decreases steps,
    {
        j == 0 || (steps > 0 && exists|i: int, x: Symbol|
            0 <= i < self.spec_len() && #[trigger] self.spec_target(i, x) == Some(j as u32)
                && self.reachable_in(i, (steps - 1) as nat))
    }

    /// What is reached by few transitions is reached by more.
    pub proof fn lemma_reachable_more(&self, j: int, steps: nat, more: nat)
        requires
            self.reachable_in(j, steps),
            steps <= more,
        ensures
            self.reachable_in(j, more),
        decreases steps,
    {
        if j != 0 {
            let (i, x) = choose|i: int, x: Symbol|
                0 <= i < self.spec_len() && #[trigger] self.spec_target(i, x) == Some(j as u32)
                    && self.reachable_in(i, (steps - 1) as nat);
            self.lemma_reachable_more(i, (steps - 1) as nat, (more - 1) as nat);
        }
    }

    /// Every state is reached from state 0 by transitions, by no more of them than its number.
    pub proof fn lemma_every_state_reachable(&self, j: int)
        requires
            self.all_rooted(),
            0 <= j < self.spec_len(),
        ensures
            self.reachable_in(j, j as nat),
        decreases j,
    {
        if j != 0 {
            assert(self.rooted(j));
            let (i, x) = choose|i: int, x: Symbol|
                0 <= i < j && #[trigger] self.spec_target(i, x) == Some(j as u32);
            self.lemma_every_state_reachable(i);
            self.lemma_reachable_more(i, i as nat, (j - 1) as nat);
        }
    }
}

} // verus!
