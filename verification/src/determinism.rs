use vstd::prelude::*;
use vstd::relations::injective_on;
use vstd::set_lib::{lemma_int_range, lemma_len_subset, lemma_map_size, set_int_range};
use crate::canonical_collection::{
    CanonicalCollection, STATE_LIMIT, goto_of, has_next, place_le, place_lt, state_limit_reached,
};
use crate::errors::TableConflictError;
use crate::first_and_follow::{Family, first_family};
use crate::grammar::Grammar;
use crate::item_set::lemma_rising_unique;
use crate::lr1_item::after_dot;
use crate::parse_tables::{
    Cells, ParseTables, build_fails, cell, fold_items, fold_states, request,
};
use crate::lr1_item::ItemView;
use crate::symbol::{Symbol, SymbolDb};

verus! {

/// Where two collections of one grammar agree on all states below `j` and the first finds
/// its state `j` no later than the second, they agree on state `j`.
proof fn lemma_next_state_agrees(
    a: CanonicalCollection,
    b: CanonicalCollection,
    g: &Grammar,
    f: Family,
    j: int,
)
    requires
        a.wf(),
        b.wf(),
        a.complete(g, f),
        b.complete(g, f),
        1 <= j < a.spec_len(),
        j < b.spec_len(),
        forall|i: int| 0 <= i < j ==> #[trigger] a.spec_rows()[i] == b.spec_rows()[i],
        place_le(a.spec_origin()[j], b.spec_origin()[j]),
    ensures
        a.spec_sets()[j] == b.spec_sets()[j],
{
    let o = a.spec_origin()[j];
    let i1 = o.0;
    let k1 = o.1;
    assert(a.produces(i1, k1, j) && i1 < j);
    let x = after_dot(a.spec_rows()[i1][k1])[0];
    a.lemma_rows(i1);
    b.lemma_rows(i1);
    a.lemma_wf();
    b.lemma_wf();
    assert(a.spec_rows()[i1] == b.spec_rows()[i1]);
    assert(a.spec_sets()[i1] == b.spec_sets()[i1]);
    assert(a.edge_ok(g, f, i1, x));
    assert(b.explored(i1));
    assert(b.spec_target(i1, x) is Some);
    assert(b.edge_ok(g, f, i1, x));
    let m = b.spec_target(i1, x).unwrap() as int;
    assert(b.spec_sets()[m] == a.spec_sets()[j]);
    assert(b.produces(i1, k1, m));
    if m < j {
        a.lemma_rows(m);
        b.lemma_rows(m);
        assert(a.spec_rows()[m] == b.spec_rows()[m]);
        assert(a.spec_sets()[m] != a.spec_sets()[j]);
    } else if m > j {
        assert(place_le(b.spec_origin()[m], (i1, k1)));
        assert(place_lt(b.spec_origin()[j], b.spec_origin()[m]));
    }
}

/// Two collections of one grammar hold the same items, in the same order, in every state
/// that both have.
pub proof fn lemma_rows_agree(
    a: CanonicalCollection,
    b: CanonicalCollection,
    g: &Grammar,
    f: Family,
    j: int,
)
    requires
        a.wf(),
        b.wf(),
        a.complete(g, f),
        b.complete(g, f),
        0 <= j < a.spec_len(),
        j < b.spec_len(),
    ensures
        a.spec_rows()[j] == b.spec_rows()[j],
        a.spec_sets()[j] == b.spec_sets()[j],
    decreases j,
{
    a.lemma_rows(j);
    b.lemma_rows(j);
    if j > 0 {
        assert forall|i: int| 0 <= i < j implies #[trigger] a.spec_rows()[i] == b.spec_rows()[i] by {
            lemma_rows_agree(a, b, g, f, i);
        }
        let oa = a.spec_origin()[j];
        let ob = b.spec_origin()[j];
        if place_le(oa, ob) {
            lemma_next_state_agrees(a, b, g, f, j);
        } else {
            assert(place_le(ob, oa));
            lemma_next_state_agrees(b, a, g, f, j);
        }
    }
    lemma_rising_unique(a.spec_rows()[j], b.spec_rows()[j]);
}

/// Of two collections of one grammar the second has no more states than the first.
proof fn lemma_not_longer(a: CanonicalCollection, b: CanonicalCollection, g: &Grammar, f: Family)
    requires
        a.wf(),
        b.wf(),
        a.complete(g, f),
        b.complete(g, f),
    ensures
        b.spec_len() <= a.spec_len(),
{
    if a.spec_len() < b.spec_len() {
        let j = a.spec_len() as int;
        let o = b.spec_origin()[j];
        let i2 = o.0;
        let k2 = o.1;
        assert(b.produces(i2, k2, j) && i2 < j);
        let x = after_dot(b.spec_rows()[i2][k2])[0];
        lemma_rows_agree(a, b, g, f, i2);
        a.lemma_wf();
        b.lemma_wf();
        assert(b.edge_ok(g, f, i2, x));
        assert(a.explored(i2));
        assert(a.spec_target(i2, x) is Some);
        assert(a.edge_ok(g, f, i2, x));
        let m = a.spec_target(i2, x).unwrap() as int;
        lemma_rows_agree(a, b, g, f, m);
        assert(b.spec_sets()[m] != b.spec_sets()[j]);
    }
}

/// A transition of one collection of a grammar is a transition of every other.
proof fn lemma_target_carries(
    a: CanonicalCollection,
    b: CanonicalCollection,
    g: &Grammar,
    f: Family,
    i: int,
    x: Symbol,
)
    requires
        a.wf(),
        b.wf(),
        a.complete(g, f),
        b.complete(g, f),
        a.spec_len() == b.spec_len(),
        a.spec_target(i, x) is Some,
    ensures
        b.spec_target(i, x) == a.spec_target(i, x),
{
    a.lemma_wf();
    b.lemma_wf();
    assert(0 <= i < a.spec_len());
    assert(a.edge_ok(g, f, i, x));
    let j = a.spec_target(i, x).unwrap() as int;
    lemma_rows_agree(a, b, g, f, i);
    assert(b.explored(i));
    assert(b.spec_target(i, x) is Some);
    assert(b.edge_ok(g, f, i, x));
    let m = b.spec_target(i, x).unwrap() as int;
    lemma_rows_agree(a, b, g, f, j);
    if m < j {
        assert(b.spec_sets()[m] != b.spec_sets()[j]);
    } else if j < m {
        assert(b.spec_sets()[j] != b.spec_sets()[m]);
    }
}

/// The canonical collection of a grammar is one: two collections of one grammar have the
/// same states, with the same items and under the same numbers, and the same transitions.
pub proof fn lemma_collection_unique(
    a: CanonicalCollection,
    b: CanonicalCollection,
    g: &Grammar,
    f: Family,
)
    requires
        a.wf(),
        b.wf(),
        a.complete(g, f),
        b.complete(g, f),
    ensures
        a.spec_len() == b.spec_len(),
        a.spec_rows() == b.spec_rows(),
        a.spec_sets() == b.spec_sets(),
        forall|i: int, x: Symbol| a.spec_target(i, x) == b.spec_target(i, x),
{
    lemma_not_longer(a, b, g, f);
    lemma_not_longer(b, a, g, f);
    a.lemma_wf();
    b.lemma_wf();
    a.lemma_rows(0);
    b.lemma_rows(0);
    assert forall|j: int| 0 <= j < a.spec_len() implies a.spec_rows()[j] == b.spec_rows()[j]
        && a.spec_sets()[j] == b.spec_sets()[j] by {
        lemma_rows_agree(a, b, g, f, j);
    }
    assert(a.spec_rows() =~= b.spec_rows());
    assert(a.spec_sets() =~= b.spec_sets());
    assert forall|i: int, x: Symbol| a.spec_target(i, x) == b.spec_target(i, x) by {
        if a.spec_target(i, x) is Some {
            lemma_target_carries(a, b, g, f, i, x);
        } else if b.spec_target(i, x) is Some {
            lemma_target_carries(b, a, g, f, i, x);
        }
    }
}

/// Serving the items of a state gives the same cells with two collections that have the
/// same transitions.
proof fn lemma_fold_items_same(
    c: Cells,
    a: CanonicalCollection,
    b: CanonicalCollection,
    db: SymbolDb,
    i: u32,
    row: Seq<ItemView>,
    k: nat,
)
    requires
        forall|s: int, x: Symbol| a.spec_target(s, x) == b.spec_target(s, x),
    ensures
        fold_items(c, a, db, i, row, k) == fold_items(c, b, db, i, row, k),
    decreases k,
{
    if k > 0 {
        lemma_fold_items_same(c, a, b, db, i, row, (k - 1) as nat);
        assert(request(a, db, i as int, row[k - 1]) == request(b, db, i as int, row[k - 1]));
    }
}

/// Serving the states gives the same cells with two collections that have the same rows
/// and transitions.
proof fn lemma_fold_states_same(a: CanonicalCollection, b: CanonicalCollection, db: SymbolDb, n: nat)
    requires
        a.spec_rows() == b.spec_rows(),
        forall|s: int, x: Symbol| a.spec_target(s, x) == b.spec_target(s, x),
    ensures
        fold_states(a, db, n) == fold_states(b, db, n),
    decreases n,
{
    if n > 0 {
        lemma_fold_states_same(a, b, db, (n - 1) as nat);
        match fold_states(a, db, (n - 1) as nat) {
            Ok(c) => {
                lemma_fold_items_same(
                    c,
                    a,
                    b,
                    db,
                    (n - 1) as u32,
                    a.spec_rows()[n - 1],
                    a.spec_rows()[n - 1].len(),
                );
            },
            Err(_) => {},
        }
    }
}

/// The tables of a grammar are one: tables built twice for one grammar have the same number
/// of states, the same ACTION and GOTO entries, and the same conflicts noted.
pub proof fn lemma_tables_unique(g: &Grammar, t1: ParseTables, t2: ParseTables)
    requires
        t1.built_from(g),
        t2.built_from(g),
    ensures
        t1.spec_states() == t2.spec_states(),
        forall|s: u32, x: Symbol| t1.spec_action(s, x) == t2.spec_action(s, x),
        forall|s: u32, x: Symbol| t1.spec_goto(s, x) == t2.spec_goto(s, x),
        t1.spec_diagnostics() == t2.spec_diagnostics(),
{
    let a = t1.spec_collection();
    let b = t2.spec_collection();
    let f = first_family(g);
    lemma_collection_unique(a, b, g, f);
    lemma_fold_states_same(a, b, g.db(), a.spec_len());
    let c = fold_states(a, g.db(), a.spec_len())->Ok_0;
    assert forall|s: u32, x: Symbol| t1.spec_action(s, x) == t2.spec_action(s, x) by {
        assert(t1.spec_action(s, x) == cell(c, s, x));
        assert(t2.spec_action(s, x) == cell(c, s, x));
    }
    assert forall|s: u32, x: Symbol| t1.spec_goto(s, x) == t2.spec_goto(s, x) by {
        if s < t1.spec_states() {
            assert(t1.goto_filled(g.db(), s));
            assert(t2.goto_filled(g.db(), s));
        } else {
            t1.lemma_no_state(s, x);
            t2.lemma_no_state(s, x);
        }
    }
}

/// Whether the tables of a grammar can be built does not depend on the try: the failure of
/// one try is the failure of every try that meets a conflict.
pub proof fn lemma_conflict_unique(
    g: &Grammar,
    a: CanonicalCollection,
    b: CanonicalCollection,
    e1: TableConflictError,
    e2: TableConflictError,
)
    requires
        a.wf(),
        b.wf(),
        a.complete(g, first_family(g)),
        b.complete(g, first_family(g)),
        fold_states(a, g.db(), a.spec_len()) == Err::<Cells, TableConflictError>(e1),
        fold_states(b, g.db(), b.spec_len()) == Err::<Cells, TableConflictError>(e2),
    ensures
        e1 == e2,
{
    lemma_collection_unique(a, b, g, first_family(g));
    lemma_fold_states_same(a, b, g.db(), a.spec_len());
}

/// Every state of a sound collection whose states are all reached is a state of the
/// complete collection.
proof fn lemma_state_found(
    partial: CanonicalCollection,
    cc: CanonicalCollection,
    g: &Grammar,
    f: Family,
    j: int,
) -> (m: int)
    requires
        partial.wf(),
        partial.sound(g, f),
        partial.all_rooted(),
        cc.wf(),
        cc.complete(g, f),
        0 <= j < partial.spec_len(),
    ensures
        0 <= m < cc.spec_len(),
        cc.spec_sets()[m] == partial.spec_sets()[j],
    decreases j,
{
    partial.lemma_wf();
    cc.lemma_wf();
    if j == 0 {
        0
    } else {
        assert(partial.rooted(j));
        let (i, x) = choose|i: int, x: Symbol|
            0 <= i < j && #[trigger] partial.spec_target(i, x) == Some(j as u32);
        assert(partial.edge_ok(g, f, i, x));
        let mi = lemma_state_found(partial, cc, g, f, i);
        assert(cc.explored(mi));
        assert(cc.spec_target(mi, x) is Some);
        assert(cc.edge_ok(g, f, mi, x));
        cc.spec_target(mi, x).unwrap() as int
    }
}

/// A grammar that has a complete collection has not more sets of items than there are
/// state numbers.
pub proof fn lemma_limit_excludes_collection(g: &Grammar, cc: CanonicalCollection)
    requires
        cc.wf(),
        cc.complete(g, first_family(g)),
    ensures
        !state_limit_reached(g),
{
    let f = first_family(g);
    if state_limit_reached(g) {
        let (partial, i, x) = choose|partial: CanonicalCollection, i: int, x: Symbol|
            #![trigger has_next(partial.spec_sets()[i], x)]
            {
                &&& partial.wf()
                &&& partial.sound(g, first_family(g))
                &&& partial.all_rooted()
                &&& partial.spec_len() == STATE_LIMIT
                &&& 0 <= i < partial.spec_len()
                &&& has_next(partial.spec_sets()[i], x)
                &&& forall|j: int|
                    0 <= j < partial.spec_len() ==> #[trigger] partial.spec_sets()[j] != goto_of(
                        g,
                        first_family(g),
                        partial.spec_sets()[i],
                        x,
                    )
            };
        cc.lemma_wf();
        partial.lemma_wf();
        let missing = goto_of(g, f, partial.spec_sets()[i], x);
        let mi = lemma_state_found(partial, cc, g, f, i);
        assert(cc.explored(mi));
        assert(cc.spec_target(mi, x) is Some);
        assert(cc.edge_ok(g, f, mi, x));
        let ms = cc.spec_target(mi, x).unwrap() as int;
        assert(cc.spec_sets()[ms] == missing);
        let phi = |j: int|
            choose|m: int| 0 <= m < cc.spec_len() && cc.spec_sets()[m] == partial.spec_sets()[j];
        let dom = set_int_range(0, STATE_LIMIT as int);
        assert forall|j: int| dom.contains(j) implies 0 <= phi(j) < cc.spec_len() && cc.spec_sets()[phi(
            j,
        )] == partial.spec_sets()[j] by {
            let m = lemma_state_found(partial, cc, g, f, j);
        }
        assert(injective_on(phi, dom)) by {
            assert forall|j1: int, j2: int|
                dom.contains(j1) && dom.contains(j2) && #[trigger] phi(j1) == #[trigger] phi(
                    j2,
                ) implies j1 == j2 by {
                assert(partial.spec_sets()[j1] == partial.spec_sets()[j2]);
                if j1 < j2 {
                    assert(partial.spec_sets()[j1] != partial.spec_sets()[j2]);
                } else if j2 < j1 {
                    assert(partial.spec_sets()[j2] != partial.spec_sets()[j1]);
                }
            }
        }
        let img = dom.map(phi);
        lemma_int_range(0, STATE_LIMIT as int);
        lemma_map_size(dom, img, phi);
        let room = set_int_range(0, cc.spec_len() as int).remove(ms);
        lemma_int_range(0, cc.spec_len() as int);
        assert(img.subset_of(room)) by {
            assert forall|v: int| img.contains(v) implies room.contains(v) by {
                let j = choose|j: int| dom.contains(j) && phi(j) == v;
                assert(partial.spec_sets()[j] != missing);
            }
        }
        lemma_len_subset(img, room);
        assert(room.len() == cc.spec_len() - 1);
    }
}

/// Whether tables can be built for a grammar is settled by the grammar: where they have
/// been built, no building of them fails.
pub proof fn lemma_outcome_unique(g: &Grammar, t: ParseTables, e: TableConflictError)
    requires
        t.built_from(g),
    ensures
        !build_fails(g, e),
{
    let a = t.spec_collection();
    let f = first_family(g);
    lemma_limit_excludes_collection(g, a);
    if build_fails(g, e) {
        let b = choose|b: CanonicalCollection|
            #![trigger b.complete(g, first_family(g))]
            {
                &&& b.wf()
                &&& b.complete(g, first_family(g))
                &&& fold_states(b, g.db(), b.spec_len()) == Err::<Cells, TableConflictError>(e)
            };
        lemma_collection_unique(a, b, g, f);
        lemma_fold_states_same(a, b, g.db(), a.spec_len());
    }
}

} // verus!
