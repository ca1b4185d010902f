use vstd::prelude::*;
use vstd::string::*;
use crate::errors::GrammarDefinitionError;

verus! {

/// An interned grammar symbol, identified by a small integer.
#[derive(Clone, Copy, Debug, PartialEq, Eq, Hash, PartialOrd, Ord, Structural)]
pub struct Symbol(usize);

impl Symbol {
    /// The number that identifies this symbol.
    pub closed spec fn id(self) -> nat {
        self.0 as nat
    }

    /// Symbols are the same exactly when their numbers are.
    pub broadcast proof fn lemma_id_injective(a: Symbol, b: Symbol)
        ensures
            #![trigger a.id(), b.id()]
            a.id() == b.id() <==> a == b,
    {
    }

    /// The number that identifies this symbol.
    pub fn index(&self) -> (n: usize)
        ensures
            n == self.id(),
    {
        self.0
    }

    /// The symbol that `n` identifies.
    pub fn from_index(n: usize) -> (s: Symbol)
        ensures
            s.id() == n,
    {
        Symbol(n)
    }

    /// The symbol that `n` identifies, in specifications.
    pub closed spec fn at(n: nat) -> Symbol {
        Symbol(n as usize)
    }

    /// Within the machine's range the symbol that `n` identifies has the number `n`.
    pub broadcast proof fn lemma_at_id(n: nat)
        ensures
            n <= usize::MAX ==> (#[trigger] Symbol::at(n)).id() == n,
    {
    }

    /// A symbol is the symbol that its number identifies, and the number is in the machine's
    /// range.
    pub proof fn lemma_id_at(s: Symbol)
        ensures
            Symbol::at(s.id()) == s,
            s.id() <= usize::MAX,
    {
    }
}

/// What the table records of one symbol.
pub struct SymbolInfo {
    pub label: Seq<char>,
    pub terminal: bool,
}

/// The table of symbols: every symbol has one label and is either a terminal or a
/// nonterminal. The table is born with the goal symbol, the end of input and epsilon.
#[derive(Debug)]
pub struct SymbolDb {
    labels: Vec<String>,
    terminal: Vec<bool>,
}

impl View for SymbolDb {
    type V = Seq<SymbolInfo>;

    closed spec fn view(&self) -> Seq<SymbolInfo> {
        Seq::new(
            self.labels@.len(),
            |i: int| SymbolInfo { label: self.labels@[i]@, terminal: self.terminal@[i] },
        )
    }
}

/// The three entries every table starts with, in this order.
pub open spec fn reserved_symbols() -> Seq<SymbolInfo> {
    seq![
        SymbolInfo { label: "GOAL"@, terminal: false },
        SymbolInfo { label: "$"@, terminal: true },
        SymbolInfo { label: "ε"@, terminal: true },
    ]
}

/// No two entries carry the same label.
pub open spec fn labels_distinct(infos: Seq<SymbolInfo>) -> bool {
    forall|i: int, j: int|
        0 <= i < infos.len() && 0 <= j < infos.len() && i != j ==> infos[i].label != infos[j].label
}

/// Some entry carries `label`.
pub open spec fn has_label(infos: Seq<SymbolInfo>, label: Seq<char>) -> bool {
    exists|i: int| 0 <= i < infos.len() && #[trigger] infos[i].label == label
}

/// The three reserved labels differ from each other.
pub proof fn lemma_reserved_symbols()
    ensures
        reserved_symbols().len() == 3,
        labels_distinct(reserved_symbols()),
        "GOAL"@ != "$"@,
        "GOAL"@ != "ε"@,
        "$"@ != "ε"@,
{
    reveal_strlit("GOAL");
    reveal_strlit("$");
    reveal_strlit("ε");
    assert("GOAL"@.len() == 4);
    assert("$"@.len() == 1);
    assert("ε"@.len() == 1);
    assert("$"@[0] == '$');
    assert("ε"@[0] == 'ε');
}

impl SymbolDb {
    /// The table holds its three reserved symbols first, and labels are unique.
    pub closed spec fn wf(&self) -> bool {
        &&& self.labels@.len() == self.terminal@.len()
        &&& self@.len() >= 3
        &&& self@.subrange(0, 3) == reserved_symbols()
        &&& labels_distinct(self@)
    }

    /// The number of symbols registered.
    pub open spec fn spec_len(&self) -> nat {
        self@.len()
    }

    /// `s` is registered in this table.
    pub open spec fn contains(&self, s: Symbol) -> bool {
        s.id() < self@.len()
    }

    /// `s` is a registered terminal.
    pub open spec fn spec_is_terminal(&self, s: Symbol) -> bool {
        self.contains(s) && self@[s.id() as int].terminal
    }

    /// `s` is a registered nonterminal.
    pub open spec fn spec_is_nonterminal(&self, s: Symbol) -> bool {
        self.contains(s) && !self@[s.id() as int].terminal
    }

    /// The goal symbol: the first entry.
    pub open spec fn spec_goal() -> Symbol {
        Symbol::at(0)
    }

    /// The end of input: the second entry.
    pub open spec fn spec_eoi() -> Symbol {
        Symbol::at(1)
    }

    /// Epsilon: the third entry.
    pub open spec fn spec_epsilon() -> Symbol {
        Symbol::at(2)
    }

    /// What well-formedness says of the reserved symbols.
    pub proof fn lemma_reserved(&self)
        requires
            self.wf(),
        ensures
            self.spec_len() >= 3,
            self.spec_is_nonterminal(Self::spec_goal()),
            self.spec_is_terminal(Self::spec_eoi()),
            self.spec_is_terminal(Self::spec_epsilon()),
            self@[0].label == "GOAL"@,
            self@[1].label == "$"@,
            self@[2].label == "ε"@,
            Self::spec_goal().id() == 0,
            Self::spec_eoi().id() == 1,
            Self::spec_epsilon().id() == 2,
            labels_distinct(self@),
    {
        let r = self@.subrange(0, 3);
        assert(r[0] == self@[0]);
        assert(r[1] == self@[1]);
        assert(r[2] == self@[2]);
    }

    /// A table with the goal symbol, the end of input and epsilon.
    pub fn new() -> (db: SymbolDb)
        ensures
            db.wf(),
            db@ == reserved_symbols(),
    {
        let mut labels: Vec<String> = Vec::new();
        let mut terminal: Vec<bool> = Vec::new();
        labels.push("GOAL".to_owned());
        terminal.push(false);
        labels.push("$".to_owned());
        terminal.push(true);
        labels.push("ε".to_owned());
        terminal.push(true);
        let db = SymbolDb { labels, terminal };
        proof {
            lemma_reserved_symbols();
            assert(db@ =~= reserved_symbols());
            assert(db@.subrange(0, 3) =~= db@);
        }
        db
    }

    /// Whether some symbol carries `label`.
    fn has(&self, label: &String) -> (found: bool)
        requires
            self.wf(),
        ensures
            found == has_label(self@, label@),
    {
        let mut i: usize = 0;
        while i < self.labels.len()
            invariant
                i <= self.labels@.len(),
                self.labels@.len() == self@.len(),
                forall|j: int| 0 <= j < i ==> (#[trigger] self@[j]).label != label@,
            decreases self.labels@.len() - i,
        {
            if self.labels[i] == *label {
                assert(self@[i as int].label == label@);
                return true;
            }
            i += 1;
        }
        false
    }

    /// Registers a symbol of the given kind under `label`, unless the label is taken.
    fn new_symbol(&mut self, label: &str, terminal: bool) -> (r: Result<Symbol, GrammarDefinitionError>)
        requires
            old(self).wf(),
        ensures
            final(self).wf(),
            match r {
                Ok(s) => {
                    &&& !has_label(old(self)@, label@)
                    &&& s.id() == old(self)@.len()
                    &&& final(self)@ == old(self)@.push(SymbolInfo { label: label@, terminal })
                },
                Err(e) => {
                    &&& has_label(old(self)@, label@)
                    &&& e == GrammarDefinitionError::DuplicateLabel
                    &&& final(self)@ == old(self)@
                },
            },
    {
        let owned = label.to_owned();
        if self.has(&owned) {
            return Err(GrammarDefinitionError::DuplicateLabel);
        }
        let n = self.labels.len();
        self.labels.push(owned);
        self.terminal.push(terminal);
        proof {
            let info = SymbolInfo { label: label@, terminal };
            assert(self@ =~= old(self)@.push(info));
            assert(self@.subrange(0, 3) =~= old(self)@.subrange(0, 3));
            assert forall|i: int, j: int|
                0 <= i < self@.len() && 0 <= j < self@.len() && i != j implies self@[i].label
                != self@[j].label by {
                if i < n && j < n {
                    assert(old(self)@[i].label != old(self)@[j].label);
                } else if i < n {
                    assert(old(self)@[i].label != label@);
                } else {
                    assert(old(self)@[j].label != label@);
                }
            }
        }
        Ok(Symbol(n))
    }

    /// Registers a nonterminal under `label`. A label can be registered once.
    pub fn new_nonterminal(&mut self, label: &str) -> (r: Result<Symbol, GrammarDefinitionError>)
        requires
            old(self).wf(),
        ensures
            final(self).wf(),
            match r {
                Ok(s) => {
                    &&& !has_label(old(self)@, label@)
                    &&& s.id() == old(self)@.len()
                    &&& final(self)@ == old(self)@.push(SymbolInfo { label: label@, terminal: false })
                },
                Err(e) => {
                    &&& has_label(old(self)@, label@)
                    &&& e == GrammarDefinitionError::DuplicateLabel
                    &&& final(self)@ == old(self)@
                },
            },
    {
        self.new_symbol(label, false)
    }

    /// Registers a terminal under `label`. A label can be registered once.
    pub fn new_terminal(&mut self, label: &str) -> (r: Result<Symbol, GrammarDefinitionError>)
        requires
            old(self).wf(),
        ensures
            final(self).wf(),
            match r {
                Ok(s) => {
                    &&& !has_label(old(self)@, label@)
                    &&& s.id() == old(self)@.len()
                    &&& final(self)@ == old(self)@.push(SymbolInfo { label: label@, terminal: true })
                },
                Err(e) => {
                    &&& has_label(old(self)@, label@)
                    &&& e == GrammarDefinitionError::DuplicateLabel
                    &&& final(self)@ == old(self)@
                },
            },
    {
        self.new_symbol(label, true)
    }

    /// The number of symbols registered.
    pub fn len(&self) -> (n: usize)
        requires
            self.wf(),
        ensures
            n == self.spec_len(),
            n >= 3,
    {
        self.labels.len()
    }

    /// Whether `s` is a registered terminal.
    pub fn is_terminal(&self, s: &Symbol) -> (b: bool)
        requires
            self.wf(),
        ensures
            b == self.spec_is_terminal(*s),
    {
        s.0 < self.terminal.len() && self.terminal[s.0]
    }

    /// Whether `s` is a registered nonterminal.
    pub fn is_nonterminal(&self, s: &Symbol) -> (b: bool)
        requires
            self.wf(),
        ensures
            b == self.spec_is_nonterminal(*s),
    {
        s.0 < self.terminal.len() && !self.terminal[s.0]
    }

    /// The symbol that marks an empty right-hand side.
    pub fn epsilon(&self) -> (s: Symbol)
        ensures
            s == Self::spec_epsilon(),
    {
        Symbol(2)
    }

    /// The goal symbol, which stands to the left of the one production added to every grammar.
    pub fn goal(&self) -> (s: Symbol)
        ensures
            s == Self::spec_goal(),
    {
        Symbol(0)
    }

    /// The symbol of the end of the input.
    pub fn eoi(&self) -> (s: Symbol)
        ensures
            s == Self::spec_eoi(),
    {
        Symbol(1)
    }

    /// The symbols of the given kind, by rising number.
    fn of_kind(&self, terminal: bool) -> (v: Vec<Symbol>)
        requires
            self.wf(),
        ensures
            forall|s: Symbol|
                #[trigger] v@.contains(s) <==> (self.contains(s) && self@[s.id() as int].terminal
                    == terminal),
            forall|i: int, j: int| 0 <= i < j < v@.len() ==> v@[i].id() < v@[j].id(),
    {
        let mut v: Vec<Symbol> = Vec::new();
        let mut i: usize = 0;
        while i < self.terminal.len()
            invariant
                i <= self.terminal@.len(),
                self.terminal@.len() == self@.len(),
                forall|k: int| 0 <= k < v@.len() ==> (#[trigger] v@[k]).id() < i,
                forall|k: int|
                    0 <= k < v@.len() ==> self@[(#[trigger] v@[k]).id() as int].terminal == terminal,
                forall|s: Symbol|
                    s.id() < i && self@[s.id() as int].terminal == terminal ==> #[trigger] v@.contains(
                        s,
                    ),
                forall|a: int, b: int| 0 <= a < b < v@.len() ==> v@[a].id() < v@[b].id(),
            decreases self.terminal@.len() - i,
        {
            assert(self@[i as int].terminal == self.terminal@[i as int]);
            if self.terminal[i] == terminal {
                let ghost before = v@;
                v.push(Symbol(i));
                assert(v@[before.len() as int] == Symbol(i));
                assert forall|s: Symbol|
                    s.id() < i + 1 && self@[s.id() as int].terminal
                        == terminal implies #[trigger] v@.contains(s) by {
                    if s.id() < i {
                        assert(before.contains(s));
                        let w = choose|w: int| 0 <= w < before.len() && before[w] == s;
                        assert(v@[w] == s);
                    } else {
                        assert(s == Symbol(i));
                    }
                }
            }
            i += 1;
        }
        proof {
            assert forall|s: Symbol| #[trigger]
                v@.contains(s) implies (self.contains(s) && self@[s.id() as int].terminal
                == terminal) by {
                let w = choose|w: int| 0 <= w < v@.len() && v@[w] == s;
                assert(v@[w].id() < i);
            }
        }
        v
    }

    /// The terminals, by rising number.
    pub fn terminals(&self) -> (v: Vec<Symbol>)
        requires
            self.wf(),
        ensures
            forall|s: Symbol| #[trigger] v@.contains(s) <==> self.spec_is_terminal(s),
            forall|i: int, j: int| 0 <= i < j < v@.len() ==> v@[i].id() < v@[j].id(),
    {
        self.of_kind(true)
    }

    /// The nonterminals, by rising number.
    pub fn non_terminals(&self) -> (v: Vec<Symbol>)
        requires
            self.wf(),
        ensures
            forall|s: Symbol| #[trigger] v@.contains(s) <==> self.spec_is_nonterminal(s),
            forall|i: int, j: int| 0 <= i < j < v@.len() ==> v@[i].id() < v@[j].id(),
    {
        self.of_kind(false)
    }

    /// The label of `s`, if `s` is registered.
    pub fn label(&self, s: &Symbol) -> (r: Option<&String>)
        requires
            self.wf(),
        ensures
            match r {
                Some(l) => self.contains(*s) && l@ == self@[s.id() as int].label,
                None => !self.contains(*s),
            },
    {
        if s.0 < self.labels.len() {
            Some(&self.labels[s.0])
        } else {
            None
        }
    }
}

} // verus!
