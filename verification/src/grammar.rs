use vstd::prelude::*;
use vstd::string::*;
use crate::errors::GrammarDefinitionError;
use crate::production::{Production, ProductionView, production_text, registered};
use crate::text::label_of;
use crate::symbol::{Symbol, SymbolDb};

verus! {

/// The productions of a row, each as a plain value.
pub open spec fn views(v: Seq<Production>) -> Seq<ProductionView> {
    Seq::new(v.len(), |i: int| v[i]@)
}

/// The test that a production rewrites `x`.
pub open spec fn rewrites(x: Symbol) -> spec_fn(ProductionView) -> bool {
    |p: ProductionView| p.lhs == x
}

/// The symbols that a production names: its left-hand side, then its right-hand side.
pub open spec fn mentioned(p: ProductionView) -> Seq<Symbol> {
    seq![p.lhs] + p.rhs
}

/// Every symbol that `p` names is registered in `db`.
pub open spec fn production_registered(db: SymbolDb, p: ProductionView) -> bool {
    forall|j: int| 0 <= j < mentioned(p).len() ==> db.contains(#[trigger] mentioned(p)[j])
}

/// The start symbol and every symbol of every production are registered in `db`.
pub open spec fn grammar_registered(db: SymbolDb, start: Symbol, ps: Seq<ProductionView>) -> bool {
    &&& db.contains(start)
    &&& forall|k: int| 0 <= k < ps.len() ==> production_registered(db, #[trigger] ps[k])
}

/// `s` is the first symbol of `syms` that `db` does not hold.
pub open spec fn is_first_unregistered(db: SymbolDb, syms: Seq<Symbol>, s: Symbol) -> bool {
    exists|j: int|
        0 <= j < syms.len() && #[trigger] syms[j] == s && !db.contains(s) && forall|i: int|
            0 <= i < j ==> db.contains(#[trigger] syms[i])
}

/// `s` is the first unregistered symbol met when the start symbol is looked at first and then
/// the productions in their order.
pub open spec fn first_offender(
    db: SymbolDb,
    start: Symbol,
    ps: Seq<ProductionView>,
    s: Symbol,
) -> bool {
    if !db.contains(start) {
        s == start
    } else {
        exists|k: int|
            0 <= k < ps.len() && is_first_unregistered(db, mentioned(#[trigger] ps[k]), s)
                && forall|i: int| 0 <= i < k ==> production_registered(db, #[trigger] ps[i])
    }
}

/// The production that every grammar is given: the goal becomes the start symbol followed by
/// the end of input.
pub open spec fn goal_production(start: Symbol) -> ProductionView {
    ProductionView { lhs: SymbolDb::spec_goal(), rhs: seq![start, SymbolDb::spec_eoi()] }
}

/// The first `k` of the productions `rules` as text, each on a line of its own.
pub open spec fn rule_lines(db: SymbolDb, rules: Seq<ProductionView>, k: nat) -> Seq<char>
    decreases k,
{
    if k == 0 {
        Seq::<char>::empty()
    } else {
        rule_lines(db, rules, (k - 1) as nat) + "    "@ + production_text(db, rules[k - 1]) + "\n"@
    }
}

/// A context-free grammar: a symbol table, a start symbol and productions, which are kept in
/// the order given and also grouped by the symbol they rewrite.
#[derive(Debug)]
pub struct Grammar {
    symbol_db: SymbolDb,
    start_symbol: Symbol,
    all: Vec<Production>,
    productions: Vec<Vec<Production>>,
}

impl Grammar {
    /// The symbol table of the grammar.
    pub closed spec fn db(&self) -> SymbolDb {
        self.symbol_db
    }

    /// The start symbol that the grammar was made with.
    pub closed spec fn spec_start(&self) -> Symbol {
        self.start_symbol
    }

    /// All productions, in the order given, with the goal production last.
    pub closed spec fn spec_productions(&self) -> Seq<ProductionView> {
        views(self.all@)
    }

    /// The productions that rewrite `x`, in the order given.
    pub open spec fn spec_rules(&self, x: Symbol) -> Seq<ProductionView> {
        self.spec_productions().filter(rewrites(x))
    }

    /// `p` is a production of the grammar, and it rewrites a nonterminal.
    pub open spec fn has_rule(&self, p: ProductionView) -> bool {
        self.db().spec_is_nonterminal(p.lhs) && self.spec_productions().contains(p)
    }

    /// The number of symbols of the grammar.
    pub open spec fn spec_symbols(&self) -> nat {
        self.db().spec_len()
    }

    /// The table is well formed, every symbol named is registered, the goal production stands
    /// last, and the groups hold the productions by left-hand side.
    pub closed spec fn wf(&self) -> bool {
        &&& self.symbol_db.wf()
        &&& self.all@.len() > 0
        &&& grammar_registered(self.symbol_db, self.start_symbol, self.spec_productions())
        &&& self.spec_productions().last() == goal_production(self.start_symbol)
        &&& self.productions@.len() == self.symbol_db@.len()
        &&& forall|x: Symbol|
            self.symbol_db.contains(x) ==> views(#[trigger] self.productions@[x.id() as int]@)
                == self.spec_rules(x)
    }

    /// What a well-formed grammar is known to hold.
    pub proof fn lemma_wf(&self)
        requires
            self.wf(),
        ensures
            self.db().wf(),
            self.spec_productions().len() > 0,
            grammar_registered(self.db(), self.spec_start(), self.spec_productions()),
            self.spec_productions().last() == goal_production(self.spec_start()),
    {
    }

    /// Every symbol of a production of a well-formed grammar is registered.
    pub proof fn lemma_rule_registered(&self, p: ProductionView)
        requires
            self.wf(),
            self.spec_productions().contains(p),
        ensures
            self.db().contains(p.lhs),
            forall|j: int| 0 <= j < p.rhs.len() ==> self.db().contains(#[trigger] p.rhs[j]),
    {
        let k = choose|k: int|
            0 <= k < self.spec_productions().len() && self.spec_productions()[k] == p;
        assert(production_registered(self.db(), self.spec_productions()[k]));
        assert(mentioned(p)[0] == p.lhs);
        assert forall|j: int| 0 <= j < p.rhs.len() implies self.db().contains(
            #[trigger] p.rhs[j],
        ) by {
            assert(mentioned(p)[j + 1] == p.rhs[j]);
        }
    }

    /// A production is among those that rewrite `x` exactly when it is a production and
    /// rewrites `x`.
    pub proof fn lemma_rules(&self, x: Symbol, p: ProductionView)
        ensures
            self.spec_rules(x).contains(p) <==> (self.spec_productions().contains(p) && p.lhs == x),
    {
        let ps = self.spec_productions();
        let pred = rewrites(x);
        if ps.filter(pred).contains(p) {
            ps.lemma_filter_contains_rev(pred, p);
            let k = choose|k: int| 0 <= k < ps.filter(pred).len() && ps.filter(pred)[k] == p;
            ps.lemma_filter_pred(pred, k);
        }
        if ps.contains(p) && p.lhs == x {
            let k = choose|k: int| 0 <= k < ps.len() && ps[k] == p;
            ps.lemma_filter_contains(pred, k);
        }
    }

    /// The first symbol of `p` that `db` does not hold, if there is one.
    fn check_production(db: &SymbolDb, p: &Production) -> (r: Option<Symbol>)
        requires
            db.wf(),
        ensures
            match r {
                Some(s) => is_first_unregistered(*db, mentioned(p@), s),
                None => production_registered(*db, p@),
            },
    {
        let n = db.len();
        let ghost m = mentioned(p@);
        if p.lhs().index() >= n {
            assert(m[0] == p@.lhs);
            return Some(*p.lhs());
        }
        let rhs = p.rhs();
        let mut j: usize = 0;
        while j < rhs.len()
            invariant
                j <= rhs@.len(),
                rhs@ == p@.rhs,
                m == mentioned(p@),
                n == db@.len(),
                forall|i: int| 0 <= i < j + 1 ==> db.contains(#[trigger] m[i]),
            decreases rhs@.len() - j,
        {
            assert(m[j + 1] == rhs@[j as int]);
            if rhs[j].index() >= n {
                return Some(rhs[j]);
            }
            j += 1;
        }
        None
    }

    /// The grammar over `symbol_db` with the given start symbol and productions, to which the
    /// goal production is added. A grammar that names a symbol which the table does not hold
    /// is refused.
    pub fn new(symbol_db: SymbolDb, start_symbol: Symbol, productions: Vec<Production>) -> (r:
        Result<Grammar, GrammarDefinitionError>)
        requires
            symbol_db.wf(),
        ensures
            match r {
                Ok(g) => {
                    &&& grammar_registered(symbol_db, start_symbol, views(productions@))
                    &&& g.wf()
                    &&& g.db() == symbol_db
                    &&& g.spec_start() == start_symbol
                    &&& g.spec_productions() == views(productions@).push(
                        goal_production(start_symbol),
                    )
                },
                Err(e) => {
                    &&& !grammar_registered(symbol_db, start_symbol, views(productions@))
                    &&& exists|s: Symbol|
                        e == GrammarDefinitionError::UnregisteredSymbol(s) && first_offender(
                            symbol_db,
                            start_symbol,
                            views(productions@),
                            s,
                        )
                },
            },
    {
        let n = symbol_db.len();
        let ghost given = views(productions@);
        if start_symbol.index() >= n {
            assert(first_offender(symbol_db, start_symbol, given, start_symbol));
            return Err(GrammarDefinitionError::UnregisteredSymbol(start_symbol));
        }
        let mut k: usize = 0;
        while k < productions.len()
            invariant
                k <= productions@.len(),
                symbol_db.wf(),
                given == views(productions@),
                symbol_db.contains(start_symbol),
                forall|i: int| 0 <= i < k ==> production_registered(symbol_db, #[trigger] given[i]),
            decreases productions@.len() - k,
        {
            match Self::check_production(&symbol_db, &productions[k]) {
                Some(s) => {
                    assert(given[k as int] == productions@[k as int]@);
                    assert(!production_registered(symbol_db, given[k as int])) by {
                        let j = choose|j: int|
                            0 <= j < mentioned(given[k as int]).len() && #[trigger] mentioned(
                                given[k as int],
                            )[j] == s && !symbol_db.contains(s);
                    }
                    assert(first_offender(symbol_db, start_symbol, given, s));
                    return Err(GrammarDefinitionError::UnregisteredSymbol(s));
                },
                None => {},
            }
            k += 1;
        }
        let mut all = productions;
        let mut rhs: Vec<Symbol> = Vec::new();
        rhs.push(start_symbol);
        rhs.push(symbol_db.eoi());
        let goal = Production::new(symbol_db.goal(), rhs);
        proof {
            symbol_db.lemma_reserved();
            assert(goal@.rhs =~= goal_production(start_symbol).rhs);
            assert(production_registered(symbol_db, goal@)) by {
                assert forall|j: int| 0 <= j < mentioned(goal@).len() implies symbol_db.contains(
                    #[trigger] mentioned(goal@)[j],
                ) by {}
            }
        }
        all.push(goal);
        let ghost list = views(all@);
        assert(list =~= given.push(goal_production(start_symbol)));
        let mut groups: Vec<Vec<Production>> = Vec::new();
        let mut x: usize = 0;
        while x < n
            invariant
                x <= n,
                groups@.len() == x,
                forall|y: int| 0 <= y < x ==> (#[trigger] groups@[y])@.len() == 0,
            decreases n - x,
        {
            groups.push(Vec::new());
            x += 1;
        }
        let mut k: usize = 0;
        while k < all.len()
            invariant
                k <= all@.len(),
                list == views(all@),
                n == symbol_db@.len(),
                groups@.len() == n,
                forall|i: int| 0 <= i < list.len() ==> production_registered(symbol_db, #[trigger] list[i]),
                forall|y: Symbol|
                    symbol_db.contains(y) ==> views(#[trigger] groups@[y.id() as int]@)
                        == list.take(k as int).filter(rewrites(y)),
            decreases all@.len() - k,
        {
            let p = all[k].clone();
            let lhs = *p.lhs();
            proof {
                assert(p@ == list[k as int]);
                assert(production_registered(symbol_db, list[k as int]));
                assert(mentioned(p@)[0] == lhs);
            }
            let ghost before = groups@;
            groups[lhs.index()].push(p);
            proof {
                assert(list.take(k + 1) =~= list.take(k as int).push(list[k as int]));
                assert forall|y: Symbol| symbol_db.contains(y) implies views(
                    #[trigger] groups@[y.id() as int]@,
                ) == list.take(k + 1).filter(rewrites(y)) by {
                    list.take(k as int).lemma_filter_push(list[k as int], rewrites(y));
                    Symbol::lemma_id_injective(y, lhs);
                    if y == lhs {
                        assert(views(groups@[y.id() as int]@) =~= views(
                            before[y.id() as int]@,
                        ).push(p@));
                    } else {
                        assert(groups@[y.id() as int] == before[y.id() as int]);
                    }
                }
            }
            k += 1;
        }
        proof {
            assert(list.take(k as int) =~= list);
            assert(list.filter(rewrites(SymbolDb::spec_goal())).len() >= 0);
        }
        let g = Grammar { symbol_db, start_symbol, all, productions: groups };
        Ok(g)
    }

    /// The start symbol.
    pub fn start_symbol(&self) -> (s: &Symbol)
        ensures
            *s == self.spec_start(),
    {
        &self.start_symbol
    }

    /// The productions that rewrite `lhs`, in the order given, if there are any.
    pub fn productions(&self, lhs: &Symbol) -> (r: Option<&Vec<Production>>)
        requires
            self.wf(),
        ensures
            match r {
                Some(v) => v@.len() > 0 && views(v@) == self.spec_rules(*lhs),
                None => self.spec_rules(*lhs).len() == 0,
            },
    {
        let i = lhs.index();
        if i < self.productions.len() {
            let v = &self.productions[i];
            assert(views(v@).len() == v@.len());
            if v.len() > 0 {
                Some(v)
            } else {
                None
            }
        } else {
            proof {
                let ps = self.spec_productions();
                assert forall|k: int| 0 <= k < ps.len() implies !(rewrites(*lhs))(
                    #[trigger] ps[k],
                ) by {
                    assert(production_registered(self.symbol_db, ps[k]));
                    assert(mentioned(ps[k])[0] == ps[k].lhs);
                }
                ps.lemma_all_neg_filter_empty(rewrites(*lhs));
            }
            None
        }
    }

    /// The terminals of the grammar, by rising number.
    pub fn terminals(&self) -> (v: Vec<Symbol>)
        requires
            self.wf(),
        ensures
            forall|s: Symbol| #[trigger] v@.contains(s) <==> self.db().spec_is_terminal(s),
            forall|i: int, j: int| 0 <= i < j < v@.len() ==> v@[i].id() < v@[j].id(),
    {
        self.symbol_db.terminals()
    }

    /// The nonterminals of the grammar, by rising number.
    pub fn nonterminals(&self) -> (v: Vec<Symbol>)
        requires
            self.wf(),
        ensures
            forall|s: Symbol| #[trigger] v@.contains(s) <==> self.db().spec_is_nonterminal(s),
            forall|i: int, j: int| 0 <= i < j < v@.len() ==> v@[i].id() < v@[j].id(),
    {
        self.symbol_db.non_terminals()
    }

    /// The symbol table of the grammar.
    pub fn symbol_db(&self) -> (db: &SymbolDb)
        ensures
            *db == self.db(),
    {
        &self.symbol_db
    }
}

impl Grammar {
    /// The productions of the first `n` symbols as text, by the symbol rewritten and then in
    /// the order given.
    pub open spec fn spec_lines(&self, n: nat) -> Seq<char>
        decreases n,
    {
        if n == 0 {
            Seq::<char>::empty()
        } else {
            self.spec_lines((n - 1) as nat) + rule_lines(
                self.db(),
                self.spec_rules(Symbol::at((n - 1) as nat)),
                self.spec_rules(Symbol::at((n - 1) as nat)).len(),
            )
        }
    }

    /// The grammar as text: the start symbol and the productions.
    pub open spec fn spec_text(&self) -> Seq<char> {
        "grammar:\n"@ + "  start symbol = "@ + label_of(self.db(), self.spec_start()) + "\n"@
            + "  productions =\n"@ + self.spec_lines(self.spec_symbols())
    }

    /// The grammar as text.
    pub fn to_string(&self) -> (s: String)
        requires
            self.wf(),
        ensures
            s@ == self.spec_text(),
    {
        let db = &self.symbol_db;
        let mut out = String::from_str("grammar:\n");
        out.append("  start symbol = ");
        match db.label(&self.start_symbol) {
            Some(l) => {
                out.append(l.as_str());
            },
            None => {},
        }
        out.append("\n");
        out.append("  productions =\n");
        let ghost head = out@;
        let n = self.productions.len();
        let mut x: usize = 0;
        assert(out@ =~= head + self.spec_lines(0));
        while x < n
            invariant
                x <= n,
                n == self.spec_symbols(),
                self.wf(),
                *db == self.db(),
                out@ == head + self.spec_lines(x as nat),
            decreases n - x,
        {
            let group = &self.productions[x];
            let ghost sym = Symbol::at(x as nat);
            let ghost rules = self.spec_rules(sym);
            proof {
                Symbol::lemma_at_id(x as nat);
                assert(views(group@) == rules);
            }
            let ghost start = out@;
            let mut k: usize = 0;
            assert(out@ =~= start + rule_lines(*db, rules, 0));
            while k < group.len()
                invariant
                    k <= group@.len(),
                    self.wf(),
                    *db == self.db(),
                    views(group@) == rules,
                    rules == self.spec_rules(sym),
                    out@ == start + rule_lines(*db, rules, k as nat),
                decreases group@.len() - k,
            {
                let p = &group[k];
                proof {
                    assert(p@ == rules[k as int]);
                    self.lemma_rules(sym, p@);
                    assert(rules.contains(p@));
                    self.lemma_rule_registered(p@);
                }
                out.append("    ");
                let text = p.to_string(db);
                out.append(text.as_str());
                out.append("\n");
                assert(out@ =~= start + rule_lines(*db, rules, (k + 1) as nat));
                k += 1;
            }
            assert(out@ =~= head + self.spec_lines((x + 1) as nat));
            x += 1;
        }
        out
    }
}

} // verus!
