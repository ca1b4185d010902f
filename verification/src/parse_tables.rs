use vstd::prelude::*;
use vstd::string::*;
use crate::action::{Action, ActionView, action_registered, action_text};
use crate::text::{decimal, decimal_text, label_of};
use crate::canonical_collection::{CanonicalCollection, has_next, state_limit_reached};
use crate::collection_laws::lemma_states_registered;
use crate::errors::{TableConflictDiagnostic, TableConflictError};
use crate::first_and_follow::first_family;
use crate::grammar::Grammar;
use crate::lr1_item::{ItemView, after_dot, spec_is_target};
use crate::symbol::{Symbol, SymbolDb};
use crate::table::{lemma_row_push, lemma_row_update, row_find, row_lookup};

verus! {

/// How an action that arrives at a cell meets what the cell holds.
pub enum Merge {
    /// The cell is empty and takes the action.
    Put,
    /// The cell holds the same action.
    Same,
    /// A shift arrives at a reduction: the shift takes the cell, and the conflict is noted.
    ShiftWins,
    /// A reduction arrives at a shift: the shift stays, and the conflict is noted.
    ShiftStays,
    /// The two cannot be reconciled.
    Fatal(TableConflictError),
}

/// How `new` meets `held` in the cell of `state` and `symbol`.
pub open spec fn merge(state: u32, symbol: Symbol, held: Option<ActionView>, new: ActionView) -> Merge {
    match held {
        None => Merge::Put,
        Some(h) => if h == new {
            Merge::Same
        } else {
            match (new, h) {
                (ActionView::Shift(_), ActionView::Reduce(_)) => Merge::ShiftWins,
                (ActionView::Reduce(_), ActionView::Shift(_)) => Merge::ShiftStays,
                (ActionView::Reduce(_), ActionView::Reduce(_)) => Merge::Fatal(
                    TableConflictError::ReduceReduce { state, symbol },
                ),
                (ActionView::Shift(_), ActionView::Shift(_)) => Merge::Fatal(
                    TableConflictError::ShiftShift { state, symbol },
                ),
                _ => Merge::Fatal(TableConflictError::AcceptConflict { state, symbol }),
            }
        },
    }
}

/// What the cell holds after `new` has met `held` without a fatal conflict.
pub open spec fn cell_after(held: Option<ActionView>, new: ActionView, m: Merge) -> Option<ActionView> {
    match m {
        Merge::Put | Merge::ShiftWins => Some(new),
        _ => held,
    }
}

/// The conflicts noted after `new` has arrived at the cell of `state` and `symbol`.
pub open spec fn noted_after(
    noted: Seq<TableConflictDiagnostic>,
    state: u32,
    symbol: Symbol,
    m: Merge,
) -> Seq<TableConflictDiagnostic> {
    match m {
        Merge::ShiftWins | Merge::ShiftStays => noted.push(TableConflictDiagnostic { state, symbol }),
        _ => noted,
    }
}

/// What a row of actions gives for `x`, as a plain value.
pub open spec fn action_lookup(row: Seq<(Symbol, Action)>, x: Symbol) -> Option<ActionView> {
    match row_lookup(row, x) {
        Some(a) => Some(a@),
        None => None,
    }
}

/// The ACTION and GOTO tables of a grammar, with the conflicts between a shift and a
/// reduction that were met on the way.
pub struct ParseTables {
    action_table: Vec<Vec<(Symbol, Action)>>,
    goto_table: Vec<Vec<(Symbol, u32)>>,
    diagnostics: Vec<TableConflictDiagnostic>,
    collection: Ghost<CanonicalCollection>,
}

impl ParseTables {
    /// The number of states.
    pub closed spec fn spec_states(&self) -> nat {
        self.action_table@.len()
    }

    /// ACTION: what to do in `state` on `x`, if anything.
    pub closed spec fn spec_action(&self, state: u32, x: Symbol) -> Option<ActionView> {
        if state < self.action_table@.len() {
            action_lookup(self.action_table@[state as int]@, x)
        } else {
            None
        }
    }

    /// GOTO: the state to go to from `state` after a reduction to `x`, if any.
    pub closed spec fn spec_goto(&self, state: u32, x: Symbol) -> Option<u32> {
        if state < self.goto_table@.len() {
            row_lookup(self.goto_table@[state as int]@, x)
        } else {
            None
        }
    }

    /// The conflicts between a shift and a reduction, in the order in which they were met.
    pub closed spec fn spec_diagnostics(&self) -> Seq<TableConflictDiagnostic> {
        self.diagnostics@
    }

    /// The canonical collection that the tables were built from.
    pub closed spec fn spec_collection(&self) -> CanonicalCollection {
        self.collection@
    }

    /// Both tables have a row for each state.
    pub closed spec fn shaped(&self) -> bool {
        self.action_table@.len() == self.goto_table@.len()
    }

    /// A state beyond the tables has no entries.
    pub proof fn lemma_no_state(&self, state: u32, x: Symbol)
        requires
            self.shaped(),
            state >= self.spec_states(),
        ensures
            self.spec_action(state, x) is None,
            self.spec_goto(state, x) is None,
    {
    }

    /// The action in `state` on `symbol`, if there is one.
    pub fn action(&self, state: u32, symbol: Symbol) -> (r: Option<&Action>)
        ensures
            match r {
                Some(a) => self.spec_action(state, symbol) == Some(a@),
                None => self.spec_action(state, symbol) is None,
            },
    {
        let i = state as usize;
        if i < self.action_table.len() {
            match row_find(&self.action_table[i], symbol) {
                Some(k) => Some(&self.action_table[i][k].1),
                None => None,
            }
        } else {
            None
        }
    }

    /// The state to go to from `state` after a reduction to `symbol`, if there is one.
    pub fn transition(&self, state: u32, symbol: Symbol) -> (r: Option<&u32>)
        ensures
            match r {
                Some(n) => self.spec_goto(state, symbol) == Some(*n),
                None => self.spec_goto(state, symbol) is None,
            },
    {
        let i = state as usize;
        if i < self.goto_table.len() {
            match row_find(&self.goto_table[i], symbol) {
                Some(k) => Some(&self.goto_table[i][k].1),
                None => None,
            }
        } else {
            None
        }
    }

    /// The number of states.
    pub fn states(&self) -> (n: usize)
        ensures
            n == self.spec_states(),
    {
        self.action_table.len()
    }

    /// The conflicts between a shift and a reduction that were settled for the shift.
    pub fn diagnostics(&self) -> (v: &Vec<TableConflictDiagnostic>)
        ensures
            v@ == self.spec_diagnostics(),
    {
        &self.diagnostics
    }

    /// Brings `action` to the cell of `state` and `symbol`. An empty cell takes it; a shift
    /// prevails over a reduction, and the conflict is noted; other conflicts are fatal.
    fn add_action(&mut self, state: u32, symbol: Symbol, action: Action) -> (r: Result<
        (),
        TableConflictError,
    >)
        requires
            old(self).shaped(),
            state < old(self).spec_states(),
        ensures
            final(self).shaped(),
            final(self).spec_states() == old(self).spec_states(),
            final(self).spec_collection() == old(self).spec_collection(),
            forall|s: u32, x: Symbol| final(self).spec_goto(s, x) == old(self).spec_goto(s, x),
            forall|s: u32, x: Symbol|
                !(s == state && x == symbol) ==> final(self).spec_action(s, x) == old(self).spec_action(
                    s,
                    x,
                ),
            final(self).spec_goto_entries() == old(self).spec_goto_entries(),
            final(self).spec_action_entries().len() == old(self).spec_action_entries().len(),
            forall|i: int, k: int|
                0 <= i < final(self).spec_action_entries().len() && 0 <= k < final(self).spec_action_entries()[i].len() ==> (#[trigger] final(self).spec_action_entries()[i][k])
                    == (symbol, action@) || old(self).spec_action_entries()[i].contains(
                    final(self).spec_action_entries()[i][k],
                ),
            match merge(state, symbol, old(self).spec_action(state, symbol), action@) {
                Merge::Fatal(e) => {
                    &&& r == Err::<(), TableConflictError>(e)
                    &&& final(self).spec_action(state, symbol) == old(self).spec_action(state, symbol)
                    &&& final(self).spec_diagnostics() == old(self).spec_diagnostics()
                },
                m => {
                    &&& r is Ok
                    &&& final(self).spec_action(state, symbol) == cell_after(
                        old(self).spec_action(state, symbol),
                        action@,
                        m,
                    )
                    &&& final(self).spec_diagnostics() == noted_after(
                        old(self).spec_diagnostics(),
                        state,
                        symbol,
                        m,
                    )
                },
            },
    {
        let i = state as usize;
        let ghost row = self.action_table@[i as int]@;
        let ghost held = old(self).spec_action(state, symbol);
        match row_find(&self.action_table[i], symbol) {
            Some(k) => {
                assert(held == Some(row[k as int].1@));
                let other = &self.action_table[i][k].1;
                if other.same_as(&action) {
                    proof {
                        self.lemma_entries_kept(*old(self));
                    }
                    return Ok(());
                }
                let shift_wins = match (&action, other) {
                    (Action::Shift(_), Action::Reduce(_)) => true,
                    _ => false,
                };
                let shift_stays = match (&action, other) {
                    (Action::Reduce(_), Action::Shift(_)) => true,
                    _ => false,
                };
                let both_reduce = match (&action, other) {
                    (Action::Reduce(_), Action::Reduce(_)) => true,
                    _ => false,
                };
                let both_shift = match (&action, other) {
                    (Action::Shift(_), Action::Shift(_)) => true,
                    _ => false,
                };
                if shift_wins {
                    let ghost new = action@;
                    self.action_table[i].set(k, (symbol, action));
                    self.diagnostics.push(TableConflictDiagnostic { state, symbol });
                    proof {
                        let after = self.action_table@[i as int]@;
                        assert(after == row.update(k as int, (symbol, after[k as int].1)));
                        assert forall|s: u32, x: Symbol|
                            !(s == state && x == symbol) implies self.spec_action(s, x) == old(self).spec_action(s, x) by {
                            if s == state {
                                lemma_row_update(row, k as int, after[k as int].1, x);
                            } else if s < self.action_table@.len() {
                                assert(self.action_table@[s as int] == old(self).action_table@[s as int]);
                            }
                        }
                        lemma_row_update(row, k as int, after[k as int].1, symbol);
                        assert(after[k as int].1@ == new);
                        assert(self.spec_goto_entries() =~= old(self).spec_goto_entries());
                        assert forall|a: int, b: int|
                            0 <= a < self.spec_action_entries().len() && 0 <= b
                                < self.spec_action_entries()[a].len() implies (
                        #[trigger] self.spec_action_entries()[a][b]) == (symbol, new) || old(self).spec_action_entries()[a].contains(self.spec_action_entries()[a][b]) by {
                            if a == i && b == k {
                            } else {
                                if a != i {
                                    assert(self.action_table@[a] == old(self).action_table@[a]);
                                }
                                assert(old(self).spec_action_entries()[a][b]
                                    == self.spec_action_entries()[a][b]);
                            }
                        }
                    }
                    Ok(())
                } else if shift_stays {
                    self.diagnostics.push(TableConflictDiagnostic { state, symbol });
                    proof {
                        self.lemma_entries_kept(*old(self));
                    }
                    Ok(())
                } else {
                    proof {
                        self.lemma_entries_kept(*old(self));
                    }
                    if both_reduce {
                        Err(TableConflictError::ReduceReduce { state, symbol })
                    } else if both_shift {
                        Err(TableConflictError::ShiftShift { state, symbol })
                    } else {
                        Err(TableConflictError::AcceptConflict { state, symbol })
                    }
                }
            },
            None => {
                let ghost new = action@;
                self.action_table[i].push((symbol, action));
                proof {
                    let after = self.action_table@[i as int]@;
                    let a = after[after.len() - 1].1;
                    assert(after == row.push((symbol, a)));
                    lemma_row_push(row, symbol, a, symbol);
                    assert forall|s: u32, x: Symbol|
                        !(s == state && x == symbol) implies self.spec_action(s, x) == old(self).spec_action(s, x) by {
                        if s == state {
                            lemma_row_push(row, symbol, a, x);
                        } else if s < self.action_table@.len() {
                            assert(self.action_table@[s as int] == old(self).action_table@[s as int]);
                        }
                    }
                    assert(a@ == new);
                    assert(self.spec_goto_entries() =~= old(self).spec_goto_entries());
                    assert forall|p: int, q: int|
                        0 <= p < self.spec_action_entries().len() && 0 <= q
                            < self.spec_action_entries()[p].len() implies (
                    #[trigger] self.spec_action_entries()[p][q]) == (symbol, new) || old(self).spec_action_entries()[p].contains(self.spec_action_entries()[p][q]) by {
                        if p == i && q == row.len() {
                        } else {
                            if p != i {
                                assert(self.action_table@[p] == old(self).action_table@[p]);
                            }
                            assert(old(self).spec_action_entries()[p][q]
                                == self.spec_action_entries()[p][q]);
                        }
                    }
                }
                Ok(())
            },
        }
    }

    /// Tables with the same rows have the same entries.
    proof fn lemma_entries_kept(&self, before: ParseTables)
        requires
            self.action_table@ == before.action_table@,
            self.goto_table@ == before.goto_table@,
        ensures
            self.spec_goto_entries() == before.spec_goto_entries(),
            self.spec_action_entries() == before.spec_action_entries(),
            forall|i: int, k: int|
                0 <= i < self.spec_action_entries().len() && 0 <= k
                    < self.spec_action_entries()[i].len() ==> before.spec_action_entries()[i].contains(
                    #[trigger] self.spec_action_entries()[i][k],
                ),
            forall|i: int, k: int|
                0 <= i < self.spec_goto_entries().len() && 0 <= k < self.spec_goto_entries()[i].len()
                    ==> before.spec_goto_entries()[i].contains(
                    #[trigger] self.spec_goto_entries()[i][k],
                ),
    {
        assert(self.spec_goto_entries() =~= before.spec_goto_entries());
        assert(self.spec_action_entries() =~= before.spec_action_entries());
    }

    /// Records that after a reduction to `on` the parser goes from `from` to `to`. A cell
    /// that is taken is a fatal conflict.
    fn add_transition(&mut self, from: u32, on: Symbol, to: u32) -> (r: Result<
        (),
        TableConflictError,
    >)
        requires
            old(self).shaped(),
            from < old(self).spec_states(),
        ensures
            final(self).shaped(),
            final(self).spec_states() == old(self).spec_states(),
            final(self).spec_collection() == old(self).spec_collection(),
            final(self).spec_diagnostics() == old(self).spec_diagnostics(),
            forall|s: u32, x: Symbol| final(self).spec_action(s, x) == old(self).spec_action(s, x),
            forall|s: u32, x: Symbol|
                !(s == from && x == on) ==> final(self).spec_goto(s, x) == old(self).spec_goto(s, x),
            final(self).spec_action_entries() == old(self).spec_action_entries(),
            final(self).spec_goto_entries().len() == old(self).spec_goto_entries().len(),
            forall|i: int, k: int|
                0 <= i < final(self).spec_goto_entries().len() && 0 <= k < final(self).spec_goto_entries()[i].len() ==> (#[trigger] final(self).spec_goto_entries()[i][k]) == (
                    on,
                    to,
                ) || old(self).spec_goto_entries()[i].contains(final(self).spec_goto_entries()[i][k]),
            match r {
                Ok(_) => old(self).spec_goto(from, on) is None && final(self).spec_goto(from, on)
                    == Some(to),
                Err(e) => {
                    &&& old(self).spec_goto(from, on) is Some
                    &&& e == TableConflictError::Goto { state: from, symbol: on }
                    &&& final(self).spec_goto(from, on) == old(self).spec_goto(from, on)
                },
            },
    {
        let i = from as usize;
        match row_find(&self.goto_table[i], on) {
            Some(_) => {
                proof {
                    self.lemma_entries_kept(*old(self));
                }
                Err(TableConflictError::Goto { state: from, symbol: on })
            },
            None => {
                let ghost row = self.goto_table@[i as int]@;
                self.goto_table[i].push((on, to));
                proof {
                    assert(self.goto_table@[i as int]@ == row.push((on, to)));
                    lemma_row_push(row, on, to, on);
                    assert forall|s: u32, x: Symbol| !(s == from && x == on) implies self.spec_goto(
                        s,
                        x,
                    ) == old(self).spec_goto(s, x) by {
                        if s == from {
                            lemma_row_push(row, on, to, x);
                        } else if s < self.goto_table@.len() {
                            assert(self.goto_table@[s as int] == old(self).goto_table@[s as int]);
                        }
                    }
                    assert(self.spec_action_entries() =~= old(self).spec_action_entries());
                    assert forall|p: int, q: int|
                        0 <= p < self.spec_goto_entries().len() && 0 <= q
                            < self.spec_goto_entries()[p].len() implies (
                    #[trigger] self.spec_goto_entries()[p][q]) == (on, to) || old(self).spec_goto_entries()[p].contains(self.spec_goto_entries()[p][q]) by {
                        if p == i && q == row.len() {
                        } else {
                            if p != i {
                                assert(self.goto_table@[p] == old(self).goto_table@[p]);
                            }
                            assert(old(self).spec_goto_entries()[p][q] == self.spec_goto_entries()[p][q]);
                        }
                    }
                }
                Ok(())
            },
        }
    }
}

/// What an item of state `i` asks of the ACTION table: a shift where a terminal other than
/// epsilon stands after the dot, to the state that the collection gives; acceptance where
/// the item is complete and belongs to the goal with the end of input as lookahead; a
/// reduction on the lookahead where it is complete otherwise or epsilon stands after the dot.
pub open spec fn request(cc: CanonicalCollection, db: SymbolDb, i: int, it: ItemView) -> Option<
    (Symbol, ActionView),
> {
    let rest = after_dot(it);
    if rest.len() > 0 && rest[0] != SymbolDb::spec_epsilon() && cc.spec_target(i, rest[0]) is Some {
        if db.spec_is_terminal(rest[0]) {
            Some((rest[0], ActionView::Shift(cc.spec_target(i, rest[0]).unwrap())))
        } else {
            None
        }
    } else if rest.len() == 0 && spec_is_target(it) {
        Some((SymbolDb::spec_eoi(), ActionView::Accept))
    } else if rest.len() == 0 || rest[0] == SymbolDb::spec_epsilon() {
        Some((it.lookahead, ActionView::Reduce(it.production)))
    } else {
        None
    }
}

/// The cells of an ACTION table, with the conflicts noted while they were filled.
pub struct Cells {
    pub actions: Map<(u32, Symbol), ActionView>,
    pub noted: Seq<TableConflictDiagnostic>,
}

/// What the cell of `state` and `x` holds.
pub open spec fn cell(c: Cells, state: u32, x: Symbol) -> Option<ActionView> {
    if c.actions.contains_key((state, x)) {
        Some(c.actions[(state, x)])
    } else {
        None
    }
}

/// The cells after the request `req` of an item of `state` has been served, or the fatal
/// conflict that it met.
pub open spec fn place(c: Cells, state: u32, req: Option<(Symbol, ActionView)>) -> Result<
    Cells,
    TableConflictError,
> {
    match req {
        None => Ok(c),
        Some((x, a)) => match merge(state, x, cell(c, state, x), a) {
            Merge::Fatal(e) => Err(e),
            m => Ok(
                Cells {
                    actions: match m {
                        Merge::Put | Merge::ShiftWins => c.actions.insert((state, x), a),
                        _ => c.actions,
                    },
                    noted: noted_after(c.noted, state, x, m),
                },
            ),
        },
    }
}

/// The cells after the first `k` items of the row of state `i` have been served in turn.
pub open spec fn fold_items(
    c: Cells,
    cc: CanonicalCollection,
    db: SymbolDb,
    i: u32,
    row: Seq<ItemView>,
    k: nat,
) -> Result<Cells, TableConflictError>
    decreases k,
{
    if k == 0 {
        Ok(c)
    } else {
        match fold_items(c, cc, db, i, row, (k - 1) as nat) {
            Err(e) => Err(e),
            Ok(c1) => place(c1, i, request(cc, db, i as int, row[k - 1])),
        }
    }
}

/// The cells after the items of the first `n` states have been served, state by state and
/// item by item, starting from empty cells.
pub open spec fn fold_states(cc: CanonicalCollection, db: SymbolDb, n: nat) -> Result<
    Cells,
    TableConflictError,
>
    decreases n,
{
    if n == 0 {
        Ok(Cells { actions: Map::empty(), noted: Seq::empty() })
    } else {
        match fold_states(cc, db, (n - 1) as nat) {
            Err(e) => Err(e),
            Ok(c) => fold_items(
                c,
                cc,
                db,
                (n - 1) as u32,
                cc.spec_rows()[n - 1],
                cc.spec_rows()[n - 1].len(),
            ),
        }
    }
}

/// A fatal conflict stays when more items are served.
pub proof fn lemma_fold_items_err(
    c: Cells,
    cc: CanonicalCollection,
    db: SymbolDb,
    i: u32,
    row: Seq<ItemView>,
    k: nat,
    more: nat,
)
    requires
        fold_items(c, cc, db, i, row, k) is Err,
        k <= more,
    ensures
        fold_items(c, cc, db, i, row, more) == fold_items(c, cc, db, i, row, k),
    decreases more,
{
    if more > k {
        lemma_fold_items_err(c, cc, db, i, row, k, (more - 1) as nat);
    }
}

/// A fatal conflict stays when more states are served.
pub proof fn lemma_fold_states_err(cc: CanonicalCollection, db: SymbolDb, n: nat, more: nat)
    requires
        fold_states(cc, db, n) is Err,
        n <= more,
    ensures
        fold_states(cc, db, more) == fold_states(cc, db, n),
    decreases more,
{
    if more > n {
        lemma_fold_states_err(cc, db, n, (more - 1) as nat);
    }
}

impl ParseTables {
    /// The ACTION table holds exactly the cells `c`, and the conflicts noted are those of `c`.
    pub open spec fn holds(&self, c: Cells) -> bool {
        &&& forall|s: u32, x: Symbol| #[trigger] self.spec_action(s, x) == cell(c, s, x)
        &&& self.spec_diagnostics() == c.noted
    }

    /// GOTO of `state` holds the transitions of the collection on nonterminals.
    pub open spec fn goto_filled(&self, db: SymbolDb, state: u32) -> bool {
        forall|x: Symbol|
            #[trigger] self.spec_goto(state, x) == if db.spec_is_nonterminal(x) {
                self.spec_collection().spec_target(state as int, x)
            } else {
                None
            }
    }

    /// The tables are those of the grammar `g`: they were filled from its canonical
    /// collection, the ACTION table by serving the items of each state in turn, the GOTO
    /// table with the transitions on nonterminals.
    pub open spec fn built_from(&self, g: &Grammar) -> bool {
        let cc = self.spec_collection();
        &&& self.shaped()
        &&& cc.wf()
        &&& cc.complete(g, first_family(g))
        &&& self.spec_states() == cc.spec_len()
        &&& match fold_states(cc, g.db(), cc.spec_len()) {
            Ok(c) => self.holds(c),
            Err(_) => false,
        }
        &&& forall|s: u32| s < self.spec_states() ==> #[trigger] self.goto_filled(g.db(), s)
    }

    /// Builds the ACTION and GOTO tables of `grammar`.
    pub fn new(grammar: &Grammar) -> (r: Result<ParseTables, TableConflictError>)
        requires
            grammar.wf(),
        ensures
            match r {
                Ok(t) => t.built_from(grammar) && t.printable(grammar.db()),
                Err(e) => build_fails(grammar, e),
            },
    {
        build(grammar)
    }
}

/// No tables can be built for `g` because of `e`: the states cannot be numbered, or serving
/// the items of the canonical collection meets the fatal conflict `e`.
pub open spec fn build_fails(g: &Grammar, e: TableConflictError) -> bool {
    ||| e == TableConflictError::StateLimit && state_limit_reached(g)
    ||| exists|cc: CanonicalCollection|
        #![trigger cc.complete(g, first_family(g))]
        {
            &&& cc.wf()
            &&& cc.complete(g, first_family(g))
            &&& fold_states(cc, g.db(), cc.spec_len()) == Err::<Cells, TableConflictError>(e)
        }
}

/// The request of `item`, an item of state `i`.
fn request_of(cc: &CanonicalCollection, db: &SymbolDb, i: u32, item: &crate::lr1_item::LR1Item) -> (r:
    Option<(Symbol, Action)>)
    requires
        db.wf(),
    ensures
        match r {
            Some((x, a)) => request(*cc, *db, i as int, item@) == Some((x, a@)),
            None => request(*cc, *db, i as int, item@) is None,
        },
{
    let eps = db.epsilon();
    match item.next_symbol() {
        Some(c) => {
            if c == eps {
                Some((*item.lookahead(), Action::reduce(item.production().clone())))
            } else {
                match cc.transition(i, c) {
                    Some(j) => {
                        if db.is_terminal(&c) {
                            Some((c, Action::shift(j)))
                        } else {
                            None
                        }
                    },
                    None => None,
                }
            }
        },
        None => {
            if item.is_target(db) {
                Some((db.eoi(), Action::accept()))
            } else {
                Some((*item.lookahead(), Action::reduce(item.production().clone())))
            }
        },
    }
}

/// Builds the tables: for each state of the canonical collection the items are served in
/// their order, then the transitions on nonterminals are entered in the GOTO table.
fn build(grammar: &Grammar) -> (r: Result<ParseTables, TableConflictError>)
    requires
        grammar.wf(),
    ensures
        match r {
            Ok(t) => t.built_from(grammar) && t.printable(grammar.db()),
            Err(e) => build_fails(grammar, e),
        },
{
    let symbol_db = grammar.symbol_db();
    proof {
        grammar.lemma_wf();
    }
    let cc = match CanonicalCollection::new(grammar) {
        Ok(cc) => cc,
        Err(e) => {
            return Err(e);
        },
    };
    let ghost f = first_family(grammar);
    let ghost db = grammar.db();
    let sets = cc.sets();
    let n = sets.len();
    proof {
        cc.lemma_wf();
        cc.lemma_rows(0);
    }
    let mut action_table: Vec<Vec<(Symbol, Action)>> = Vec::new();
    let mut goto_table: Vec<Vec<(Symbol, u32)>> = Vec::new();
    let mut s: usize = 0;
    while s < n
        invariant
            s <= n,
            action_table@.len() == s,
            goto_table@.len() == s,
            forall|j: int| 0 <= j < s ==> (#[trigger] action_table@[j])@.len() == 0,
            forall|j: int| 0 <= j < s ==> (#[trigger] goto_table@[j])@.len() == 0,
        decreases n - s,
    {
        action_table.push(Vec::new());
        goto_table.push(Vec::new());
        s += 1;
    }
    let mut tables = ParseTables {
        action_table,
        goto_table,
        diagnostics: Vec::new(),
        collection: Ghost(cc),
    };
    let nts = grammar.nonterminals();
    let ghost mut cells = Cells { actions: Map::empty(), noted: Seq::empty() };
    let mut i: usize = 0;
    while i < n
        invariant
            i <= n,
            n == cc.spec_len(),
            n <= crate::canonical_collection::STATE_LIMIT,
            grammar.wf(),
            *symbol_db == db,
            db == grammar.db(),
            db.wf(),
            cc.wf(),
            cc.complete(grammar, f),
            f == first_family(grammar),
            sets@.len() == n,
            cc.spec_rows().len() == n,
            forall|j: int| 0 <= j < n ==> (#[trigger] sets@[j]).seq() == cc.spec_rows()[j],
            forall|x: Symbol| #[trigger] nts@.contains(x) <==> db.spec_is_nonterminal(x),
            forall|a: int, b: int| 0 <= a < b < nts@.len() ==> nts@[a].id() < nts@[b].id(),
            tables.shaped(),
            tables.spec_states() == n,
            tables.spec_collection() == cc,
            tables.printable(db),
            fold_states(cc, db, i as nat) == Ok::<Cells, TableConflictError>(cells),
            tables.holds(cells),
            forall|st: u32| st < i ==> #[trigger] tables.goto_filled(db, st),
            forall|st: u32, x: Symbol| i <= st ==> (#[trigger] tables.spec_goto(st, x)) is None,
        decreases n - i,
    {
        let state = i as u32;
        let set = &sets[i];
        let ghost row = cc.spec_rows()[i as int];
        let ghost at_state = cells;
        let mut k: usize = 0;
        while k < set.len()
            invariant
                k <= row.len(),
                row == set.seq(),
                row == cc.spec_rows()[i as int],
                state == i,
                i < n,
                n == cc.spec_len(),
                *symbol_db == db,
                db == grammar.db(),
                db.wf(),
                f == first_family(grammar),
                cc.spec_rows().len() == n,
                tables.shaped(),
                tables.spec_states() == n,
                tables.spec_collection() == cc,
                tables.printable(db),
                grammar.wf(),
                fold_states(cc, db, i as nat) == Ok::<Cells, TableConflictError>(at_state),
                fold_items(at_state, cc, db, state, row, k as nat) == Ok::<Cells, TableConflictError>(
                    cells,
                ),
                tables.holds(cells),
                forall|st: u32| st < i ==> #[trigger] tables.goto_filled(db, st),
                forall|st: u32, x: Symbol| i <= st ==> (#[trigger] tables.spec_goto(st, x)) is None,
                cc.wf(),
                cc.complete(grammar, f),
            decreases row.len() - k,
        {
            let item = set.get(k);
            let req = request_of(&cc, symbol_db, state, item);
            match req {
                Some((x, a)) => {
                    let ghost before = tables;
                    let ghost av = a@;
                    proof {
                        cc.lemma_rows(i as int);
                        assert(row.contains(row[k as int]));
                        lemma_states_registered(cc, grammar, i as int, item@);
                        db.lemma_reserved();
                        assert(db.contains(x) && action_registered(db, av));
                    }
                    match tables.add_action(state, x, a) {
                        Ok(_) => {
                            proof {
                                assert(tables.printable(db)) by {
                                    assert forall|p: int, q: int|
                                        0 <= p < tables.spec_action_entries().len() && 0 <= q
                                            < tables.spec_action_entries()[p].len() implies db.contains(
                                        (#[trigger] tables.spec_action_entries()[p][q]).0,
                                    ) && action_registered(db, tables.spec_action_entries()[p][q].1) by {
                                        let e = tables.spec_action_entries()[p][q];
                                        if e != (x, av) {
                                            let w = choose|w: int|
                                                0 <= w < before.spec_action_entries()[p].len()
                                                    && before.spec_action_entries()[p][w] == e;
                                            assert(db.contains(before.spec_action_entries()[p][w].0));
                                        }
                                    }
                                }
                                let m = merge(state, x, cell(cells, state, x), av);
                                let next = place(cells, state, Some((x, av))).unwrap();
                                assert(before.spec_action(state, x) == cell(cells, state, x));
                                assert forall|s2: u32, y: Symbol| #[trigger]
                                    tables.spec_action(s2, y) == cell(next, s2, y) by {
                                    if s2 == state && y == x {
                                    } else {
                                        assert(before.spec_action(s2, y) == cell(cells, s2, y));
                                    }
                                }
                                assert forall|st: u32| st < i implies #[trigger] tables.goto_filled(
                                    db,
                                    st,
                                ) by {
                                    assert(before.goto_filled(db, st));
                                }
                                cells = next;
                            }
                        },
                        Err(e) => {
                            proof {
                                assert(before.spec_action(state, x) == cell(cells, state, x));
                                assert(fold_items(at_state, cc, db, state, row, (k + 1) as nat)
                                    == Err::<Cells, TableConflictError>(e));
                                lemma_fold_items_err(
                                    at_state,
                                    cc,
                                    db,
                                    state,
                                    row,
                                    (k + 1) as nat,
                                    row.len(),
                                );
                                assert(fold_states(cc, db, (i + 1) as nat) == Err::<
                                    Cells,
                                    TableConflictError,
                                >(e));
                                lemma_fold_states_err(cc, db, (i + 1) as nat, n as nat);
                                assert(cc.complete(grammar, first_family(grammar)));
                                assert(fold_states(cc, grammar.db(), cc.spec_len()) == Err::<
                                    Cells,
                                    TableConflictError,
                                >(e));
                                assert(build_fails(grammar, e));
                            }
                            return Err(e);
                        },
                    }
                },
                None => {},
            }
            k += 1;
        }
        let mut m: usize = 0;
        while m < nts.len()
            invariant
                m <= nts@.len(),
                state == i,
                i < n,
                n == cc.spec_len(),
                forall|x: Symbol| #[trigger] nts@.contains(x) <==> db.spec_is_nonterminal(x),
                forall|a: int, b: int| 0 <= a < b < nts@.len() ==> nts@[a].id() < nts@[b].id(),
                tables.shaped(),
                tables.spec_states() == n,
                tables.spec_collection() == cc,
                tables.printable(db),
                tables.holds(cells),
                forall|st: u32| st < i ==> #[trigger] tables.goto_filled(db, st),
                forall|st: u32, x: Symbol| i < st ==> (#[trigger] tables.spec_goto(st, x)) is None,
                forall|x: Symbol|
                    #[trigger] tables.spec_goto(state, x) == if nts@.take(m as int).contains(x) {
                        cc.spec_target(state as int, x)
                    } else {
                        None
                    },
            decreases nts@.len() - m,
        {
            let nt = nts[m];
            let ghost before = tables;
            proof {
                assert(!nts@.take(m as int).contains(nt)) by {
                    if nts@.take(m as int).contains(nt) {
                        let w = choose|w: int| 0 <= w < m && nts@.take(m as int)[w] == nt;
                        assert(nts@[w].id() < nts@[m as int].id());
                    }
                }
                assert(before.spec_goto(state, nt) is None);
            }
            match cc.transition(state, nt) {
                Some(j) => {
                    match tables.add_transition(state, nt, j) {
                        Ok(_) => {},
                        Err(e) => {
                            assert(false);
                            return Err(e);
                        },
                    }
                },
                None => {},
            }
            proof {
                assert(nts@.contains(nt));
                assert(tables.printable(db)) by {
                    assert forall|p: int, q: int|
                        0 <= p < tables.spec_goto_entries().len() && 0 <= q
                            < tables.spec_goto_entries()[p].len() implies db.contains(
                        (#[trigger] tables.spec_goto_entries()[p][q]).0,
                    ) by {
                        let e = tables.spec_goto_entries()[p][q];
                        if e.0 != nt {
                            let w = choose|w: int|
                                0 <= w < before.spec_goto_entries()[p].len()
                                    && before.spec_goto_entries()[p][w] == e;
                            assert(db.contains(before.spec_goto_entries()[p][w].0));
                        }
                    }
                }
                let a = nts@.take(m as int);
                let b = nts@.take(m + 1);
                assert(b =~= a.push(nt));
                assert forall|x: Symbol|
                    #[trigger] tables.spec_goto(state, x) == if b.contains(x) {
                        cc.spec_target(state as int, x)
                    } else {
                        None
                    } by {
                    assert(before.spec_goto(state, x) == if a.contains(x) {
                        cc.spec_target(state as int, x)
                    } else {
                        None
                    });
                    if b.contains(x) {
                        let w = choose|w: int| 0 <= w < b.len() && b[w] == x;
                        if w < m {
                            assert(a[w] == x);
                        }
                    }
                    if a.contains(x) {
                        let w = choose|w: int| 0 <= w < a.len() && a[w] == x;
                        assert(b[w] == x);
                    }
                    assert(b[m as int] == nt);
                }
                assert forall|s2: u32, y: Symbol| #[trigger] tables.spec_action(s2, y) == cell(
                    cells,
                    s2,
                    y,
                ) by {
                    assert(before.spec_action(s2, y) == cell(cells, s2, y));
                }
                assert forall|st: u32| st < i implies #[trigger] tables.goto_filled(db, st) by {
                    assert(before.goto_filled(db, st));
                    assert forall|x: Symbol|
                        #[trigger] tables.spec_goto(st, x) == if db.spec_is_nonterminal(x) {
                            tables.spec_collection().spec_target(st as int, x)
                        } else {
                            None
                        } by {
                        assert(tables.spec_goto(st, x) == before.spec_goto(st, x));
                    }
                }
                assert forall|st: u32, x: Symbol| i < st implies (#[trigger] tables.spec_goto(
                    st,
                    x,
                )) is None by {
                    assert(before.spec_goto(st, x) is None);
                }
            }
            m += 1;
        }
        proof {
            assert(nts@.take(m as int) =~= nts@);
            assert(tables.goto_filled(db, state));
            assert forall|st: u32| st < i + 1 implies #[trigger] tables.goto_filled(db, st) by {}
        }
        i += 1;
    }
    Ok(tables)
}

/// Every cell was asked for by an item of its state.
pub open spec fn justified(c: Cells, cc: CanonicalCollection, db: SymbolDb) -> bool {
    forall|s: u32, x: Symbol|
        #![trigger c.actions.contains_key((s, x))]
        c.actions.contains_key((s, x)) ==> s < cc.spec_len() && exists|it: ItemView|
            cc.spec_rows()[s as int].contains(it) && #[trigger] request(cc, db, s as int, it) == Some(
                (x, c.actions[(s, x)]),
            )
}

/// Serving items of a state keeps every cell justified.
pub proof fn lemma_fold_items_justified(
    c: Cells,
    cc: CanonicalCollection,
    db: SymbolDb,
    i: u32,
    k: nat,
)
    requires
        justified(c, cc, db),
        i < cc.spec_len(),
        cc.spec_rows().len() == cc.spec_len(),
        k <= cc.spec_rows()[i as int].len(),
        fold_items(c, cc, db, i, cc.spec_rows()[i as int], k) is Ok,
    ensures
        justified(fold_items(c, cc, db, i, cc.spec_rows()[i as int], k)->Ok_0, cc, db),
    decreases k,
{
    if k > 0 {
        let row = cc.spec_rows()[i as int];
        lemma_fold_items_justified(c, cc, db, i, (k - 1) as nat);
        let c1 = fold_items(c, cc, db, i, row, (k - 1) as nat)->Ok_0;
        let c2 = fold_items(c, cc, db, i, row, k)->Ok_0;
        let it = row[k - 1];
        assert(row.contains(it));
        assert forall|s: u32, x: Symbol|
            #![trigger c2.actions.contains_key((s, x))]
            c2.actions.contains_key((s, x)) implies s < cc.spec_len() && exists|w: ItemView|
            cc.spec_rows()[s as int].contains(w) && #[trigger] request(cc, db, s as int, w) == Some(
                (x, c2.actions[(s, x)]),
            ) by {
            if c1.actions.contains_key((s, x)) && c1.actions[(s, x)] == c2.actions[(s, x)] {
                let w = choose|w: ItemView|
                    cc.spec_rows()[s as int].contains(w) && #[trigger] request(cc, db, s as int, w)
                        == Some((x, c1.actions[(s, x)]));
                assert(request(cc, db, s as int, w) == Some((x, c2.actions[(s, x)])));
            } else {
                assert(request(cc, db, i as int, it) == Some((x, c2.actions[(s, x)])));
            }
        }
    }
}

/// Serving the states of a collection gives cells that are all justified.
pub proof fn lemma_fold_states_justified(cc: CanonicalCollection, db: SymbolDb, n: nat)
    requires
        n <= cc.spec_len(),
        cc.spec_len() <= u32::MAX,
        cc.spec_rows().len() == cc.spec_len(),
        fold_states(cc, db, n) is Ok,
    ensures
        justified(fold_states(cc, db, n)->Ok_0, cc, db),
    decreases n,
{
    if n > 0 {
        lemma_fold_states_justified(cc, db, (n - 1) as nat);
        let c = fold_states(cc, db, (n - 1) as nat)->Ok_0;
        lemma_fold_items_justified(c, cc, db, (n - 1) as u32, cc.spec_rows()[n - 1].len());
    }
}

impl ParseTables {
    /// Every entry of ACTION was asked for by an item of its state in the canonical
    /// collection: a shift by an item with the terminal after the dot, along a transition
    /// of the collection; acceptance by a complete item of the goal symbol; a reduction by
    /// an item of the production with the symbol as lookahead.
    pub proof fn lemma_action_from_item(&self, g: &Grammar, state: u32, x: Symbol) -> (it: ItemView)
        requires
            self.built_from(g),
            self.spec_action(state, x) is Some,
        ensures
            state < self.spec_states(),
            self.spec_collection().spec_sets()[state as int].contains(it),
            request(self.spec_collection(), g.db(), state as int, it) == Some(
                (x, self.spec_action(state, x)->Some_0),
            ),
            match self.spec_action(state, x)->Some_0 {
                ActionView::Shift(j) => {
                    &&& g.db().spec_is_terminal(x)
                    &&& after_dot(it).len() > 0
                    &&& after_dot(it)[0] == x
                    &&& self.spec_collection().spec_target(state as int, x) == Some(j)
                },
                ActionView::Accept => {
                    &&& x == SymbolDb::spec_eoi()
                    &&& after_dot(it).len() == 0
                    &&& spec_is_target(it)
                },
                ActionView::Reduce(p) => {
                    &&& it.production == p
                    &&& it.lookahead == x
                    &&& (after_dot(it).len() == 0 || after_dot(it)[0] == SymbolDb::spec_epsilon())
                },
            },
    {
        let cc = self.spec_collection();
        let db = g.db();
        cc.lemma_wf();
        cc.lemma_rows(0);
        lemma_fold_states_justified(cc, db, cc.spec_len());
        let c = fold_states(cc, db, cc.spec_len())->Ok_0;
        assert(self.spec_action(state, x) == cell(c, state, x));
        assert(c.actions.contains_key((state, x)));
        let it = choose|it: ItemView|
            cc.spec_rows()[state as int].contains(it) && #[trigger] request(cc, db, state as int, it)
                == Some((x, c.actions[(state, x)]));
        cc.lemma_rows(state as int);
        it
    }

    /// Every entry of GOTO is a transition of the canonical collection on a nonterminal,
    /// which some item of the state has after its dot.
    pub proof fn lemma_goto_from_transition(&self, g: &Grammar, state: u32, x: Symbol)
        requires
            self.built_from(g),
            self.spec_goto(state, x) is Some,
        ensures
            state < self.spec_states(),
            g.db().spec_is_nonterminal(x),
            self.spec_collection().spec_target(state as int, x) == self.spec_goto(state, x),
            has_next(self.spec_collection().spec_sets()[state as int], x),
    {
        let cc = self.spec_collection();
        if state < self.spec_states() {
            assert(self.goto_filled(g.db(), state));
            assert(cc.edge_ok(g, first_family(g), state as int, x));
        } else {
            self.lemma_no_state(state, x);
        }
    }
}

/// An entry of ACTION as a line of text.
pub open spec fn action_line(db: SymbolDb, state: nat, x: Symbol, a: ActionView) -> Seq<char> {
    "    ("@ + decimal_text(state) + ", "@ + label_of(db, x) + ") -> "@ + action_text(db, a) + "\n"@
}

/// The first `k` entries of a row of ACTION as lines of text.
pub open spec fn action_lines(db: SymbolDb, state: nat, row: Seq<(Symbol, ActionView)>, k: nat) -> Seq<
    char,
>
    decreases k,
{
    if k == 0 {
        Seq::<char>::empty()
    } else {
        action_lines(db, state, row, (k - 1) as nat) + action_line(
            db,
            state,
            row[k - 1].0,
            row[k - 1].1,
        )
    }
}

/// The rows of ACTION of the first `n` states as lines of text.
pub open spec fn all_action_lines(db: SymbolDb, rows: Seq<Seq<(Symbol, ActionView)>>, n: nat) -> Seq<
    char,
>
    decreases n,
{
    if n == 0 {
        Seq::<char>::empty()
    } else {
        all_action_lines(db, rows, (n - 1) as nat) + action_lines(
            db,
            (n - 1) as nat,
            rows[n - 1],
            rows[n - 1].len(),
        )
    }
}

/// An entry of GOTO as a line of text.
pub open spec fn goto_line(db: SymbolDb, state: nat, x: Symbol, to: u32) -> Seq<char> {
    "    ("@ + decimal_text(state) + ", "@ + label_of(db, x) + ") -> "@ + decimal_text(to as nat)
        + "\n"@
}

/// The first `k` entries of a row of GOTO as lines of text.
pub open spec fn goto_lines(db: SymbolDb, state: nat, row: Seq<(Symbol, u32)>, k: nat) -> Seq<char>
    decreases k,
{
    if k == 0 {
        Seq::<char>::empty()
    } else {
        goto_lines(db, state, row, (k - 1) as nat) + goto_line(db, state, row[k - 1].0, row[k - 1].1)
    }
}

/// The rows of GOTO of the first `n` states as lines of text.
pub open spec fn all_goto_lines(db: SymbolDb, rows: Seq<Seq<(Symbol, u32)>>, n: nat) -> Seq<char>
    decreases n,
{
    if n == 0 {
        Seq::<char>::empty()
    } else {
        all_goto_lines(db, rows, (n - 1) as nat) + goto_lines(
            db,
            (n - 1) as nat,
            rows[n - 1],
            rows[n - 1].len(),
        )
    }
}

impl ParseTables {
    /// The entries of ACTION, a row for each state, in the order in which the cells were
    /// first filled.
    pub closed spec fn spec_action_entries(&self) -> Seq<Seq<(Symbol, ActionView)>> {
        Seq::new(
            self.action_table@.len(),
            |i: int|
                Seq::new(
                    self.action_table@[i]@.len(),
                    |k: int| (self.action_table@[i]@[k].0, self.action_table@[i]@[k].1@),
                ),
        )
    }

    /// The entries of GOTO, a row for each state, in the order in which they were entered.
    pub closed spec fn spec_goto_entries(&self) -> Seq<Seq<(Symbol, u32)>> {
        Seq::new(self.goto_table@.len(), |i: int| self.goto_table@[i]@)
    }

    /// Every symbol of every entry is registered in `db`.
    pub open spec fn printable(&self, db: SymbolDb) -> bool {
        &&& forall|i: int, k: int|
            0 <= i < self.spec_action_entries().len() && 0 <= k < self.spec_action_entries()[i].len()
                ==> db.contains((#[trigger] self.spec_action_entries()[i][k]).0)
                && action_registered(db, self.spec_action_entries()[i][k].1)
        &&& forall|i: int, k: int|
            0 <= i < self.spec_goto_entries().len() && 0 <= k < self.spec_goto_entries()[i].len()
                ==> db.contains((#[trigger] self.spec_goto_entries()[i][k]).0)
    }

    /// The tables as text: the entries of ACTION and then those of GOTO, a line each.
    pub open spec fn spec_text(&self, db: SymbolDb) -> Seq<char> {
        "actions\n"@ + all_action_lines(
            db,
            self.spec_action_entries(),
            self.spec_action_entries().len(),
        ) + "goto\n"@ + all_goto_lines(db, self.spec_goto_entries(), self.spec_goto_entries().len())
    }

    /// The tables as text, with the labels of `symbol_db`.
    pub fn to_string(&self, symbol_db: &SymbolDb) -> (s: String)
        requires
            symbol_db.wf(),
            self.printable(*symbol_db),
        ensures
            s@ == self.spec_text(*symbol_db),
    {
        let ghost db = *symbol_db;
        let ghost arows = self.spec_action_entries();
        let ghost grows = self.spec_goto_entries();
        let mut out = String::from_str("actions\n");
        let ghost head = out@;
        let mut i: usize = 0;
        assert(out@ =~= head + all_action_lines(db, arows, 0));
        while i < self.action_table.len()
            invariant
                i <= self.action_table@.len(),
                db == *symbol_db,
                symbol_db.wf(),
                self.printable(db),
                arows == self.spec_action_entries(),
                arows.len() == self.action_table@.len(),
                out@ == head + all_action_lines(db, arows, i as nat),
            decreases self.action_table@.len() - i,
        {
            let row = &self.action_table[i];
            let ghost start = out@;
            let ghost entries = arows[i as int];
            let mut k: usize = 0;
            assert(out@ =~= start + action_lines(db, i as nat, entries, 0));
            while k < row.len()
                invariant
                    k <= row@.len(),
                    i < self.action_table@.len(),
                    row@ == self.action_table@[i as int]@,
                    db == *symbol_db,
                    symbol_db.wf(),
                    self.printable(db),
                    arows == self.spec_action_entries(),
                    entries == arows[i as int],
                    entries.len() == row@.len(),
                    out@ == start + action_lines(db, i as nat, entries, k as nat),
                decreases row@.len() - k,
            {
                let x = row[k].0;
                let a = &row[k].1;
                proof {
                    assert(entries[k as int] == (x, a@));
                    assert(db.contains(self.spec_action_entries()[i as int][k as int].0));
                }
                out.append("    (");
                let n = decimal(i);
                out.append(n.as_str());
                out.append(", ");
                match symbol_db.label(&x) {
                    Some(l) => {
                        out.append(l.as_str());
                    },
                    None => {},
                }
                out.append(") -> ");
                let text = a.to_string(symbol_db);
                out.append(text.as_str());
                out.append("\n");
                assert(out@ =~= start + action_lines(db, i as nat, entries, (k + 1) as nat));
                k += 1;
            }
            assert(out@ =~= head + all_action_lines(db, arows, (i + 1) as nat));
            i += 1;
        }
        out.append("goto\n");
        let ghost head2 = out@;
        let mut i: usize = 0;
        assert(out@ =~= head2 + all_goto_lines(db, grows, 0));
        while i < self.goto_table.len()
            invariant
                i <= self.goto_table@.len(),
                db == *symbol_db,
                symbol_db.wf(),
                self.printable(db),
                grows == self.spec_goto_entries(),
                grows.len() == self.goto_table@.len(),
                out@ == head2 + all_goto_lines(db, grows, i as nat),
            decreases self.goto_table@.len() - i,
        {
            let row = &self.goto_table[i];
            let ghost start = out@;
            let ghost entries = grows[i as int];
            let mut k: usize = 0;
            assert(out@ =~= start + goto_lines(db, i as nat, entries, 0));
            while k < row.len()
                invariant
                    k <= row@.len(),
                    i < self.goto_table@.len(),
                    db == *symbol_db,
                    symbol_db.wf(),
                    self.printable(db),
                    grows == self.spec_goto_entries(),
                    entries == grows[i as int],
                    entries == row@,
                    out@ == start + goto_lines(db, i as nat, entries, k as nat),
                decreases row@.len() - k,
            {
                let x = row[k].0;
                let to = row[k].1;
                proof {
                    assert(db.contains(self.spec_goto_entries()[i as int][k as int].0));
                }
                out.append("    (");
                let n = decimal(i);
                out.append(n.as_str());
                out.append(", ");
                match symbol_db.label(&x) {
                    Some(l) => {
                        out.append(l.as_str());
                    },
                    None => {},
                }
                out.append(") -> ");
                let t = decimal(to as usize);
                out.append(t.as_str());
                out.append("\n");
                assert(out@ =~= start + goto_lines(db, i as nat, entries, (k + 1) as nat));
                k += 1;
            }
            assert(out@ =~= head2 + all_goto_lines(db, grows, (i + 1) as nat));
            i += 1;
        }
        out
    }
}

} // verus!
