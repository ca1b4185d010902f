use vstd::prelude::*;
use vstd::string::*;
use crate::symbol::{Symbol, SymbolDb};
use crate::text::{join_labels, joined, label_of};

verus! {

/// How one value stands to another in a total order.
#[derive(Clone, Copy, Debug, PartialEq, Eq, Structural)]
pub enum Order {
    Less,
    Equal,
    Greater,
}

/// `a` comes before `b` in the dictionary order on rows of symbols: at the first place where
/// they differ `a` has the smaller number, or `a` ends there and `b` does not.
pub open spec fn symbols_lt(a: Seq<Symbol>, b: Seq<Symbol>) -> bool
    decreases a.len(),
{
    if b.len() == 0 {
        false
    } else if a.len() == 0 {
        true
    } else if a[0].id() < b[0].id() {
        true
    } else if a[0].id() > b[0].id() {
        false
    } else {
        symbols_lt(a.skip(1), b.skip(1))
    }
}

/// No row comes before itself.
pub proof fn lemma_symbols_lt_irreflexive(a: Seq<Symbol>)
    ensures
        !symbols_lt(a, a),
    decreases a.len(),
{
    if a.len() > 0 {
        lemma_symbols_lt_irreflexive(a.skip(1));
    }
}

/// What comes before a row comes before all that the row comes before.
pub proof fn lemma_symbols_lt_transitive(a: Seq<Symbol>, b: Seq<Symbol>, c: Seq<Symbol>)
    requires
        symbols_lt(a, b),
        symbols_lt(b, c),
    ensures
        symbols_lt(a, c),
    decreases a.len(),
{
    if a.len() > 0 && b.len() > 0 && c.len() > 0 {
        if a[0].id() == b[0].id() && b[0].id() == c[0].id() {
            lemma_symbols_lt_transitive(a.skip(1), b.skip(1), c.skip(1));
        }
    }
}

/// Of two different rows one comes before the other.
pub proof fn lemma_symbols_lt_total(a: Seq<Symbol>, b: Seq<Symbol>)
    ensures
        symbols_lt(a, b) || symbols_lt(b, a) || a == b,
    decreases a.len(),
{
    if a.len() > 0 && b.len() > 0 {
        if a[0].id() == b[0].id() {
            Symbol::lemma_id_injective(a[0], b[0]);
            lemma_symbols_lt_total(a.skip(1), b.skip(1));
            if a.skip(1) == b.skip(1) {
                assert(a.len() == b.len()) by {
                    assert(a.skip(1).len() == b.skip(1).len());
                }
                assert forall|i: int| 0 <= i < a.len() implies a[i] == b[i] by {
                    if i > 0 {
                        assert(a.skip(1)[i - 1] == a[i]);
                        assert(b.skip(1)[i - 1] == b[i]);
                    } else {
                        assert(a[0] == b[0]);
                    }
                }
                assert(a =~= b);
            }
        }
    } else if a.len() == 0 && b.len() == 0 {
        assert(a =~= b);
    }
}

/// Rows that agree on their first `k` places are ordered as what follows those places.
pub proof fn lemma_symbols_lt_skip(a: Seq<Symbol>, b: Seq<Symbol>, k: int)
    requires
        0 <= k <= a.len(),
        k <= b.len(),
        forall|j: int| 0 <= j < k ==> a[j] == b[j],
    ensures
        symbols_lt(a, b) == symbols_lt(a.skip(k), b.skip(k)),
    decreases k,
{
    if k == 0 {
        assert(a.skip(0) =~= a);
        assert(b.skip(0) =~= b);
    } else {
        assert(a[0] == b[0]);
        assert forall|j: int| 0 <= j < k - 1 implies a.skip(1)[j] == b.skip(1)[j] by {
            assert(a[j + 1] == b[j + 1]);
        }
        lemma_symbols_lt_skip(a.skip(1), b.skip(1), k - 1);
        assert(a.skip(1).skip(k - 1) =~= a.skip(k));
        assert(b.skip(1).skip(k - 1) =~= b.skip(k));
    }
}

/// How `a` stands to `b` in the dictionary order.
pub fn order_symbols(a: &Vec<Symbol>, b: &Vec<Symbol>) -> (r: Order)
    ensures
        r == Order::Less <==> symbols_lt(a@, b@),
        r == Order::Equal <==> a@ == b@,
        r == Order::Greater <==> symbols_lt(b@, a@),
{
    let mut i: usize = 0;
    while i < a.len() && i < b.len()
        invariant
            i <= a@.len(),
            i <= b@.len(),
            forall|j: int| 0 <= j < i ==> a@[j] == b@[j],
        decreases a@.len() - i,
    {
        let x = a[i].index();
        let y = b[i].index();
        if x != y {
            proof {
                lemma_symbols_lt_skip(a@, b@, i as int);
                lemma_symbols_lt_skip(b@, a@, i as int);
                assert(a@.skip(i as int)[0] == a@[i as int]);
                assert(b@.skip(i as int)[0] == b@[i as int]);
                assert(a@ != b@);
            }
            if x < y {
                return Order::Less;
            } else {
                return Order::Greater;
            }
        }
        proof {
            Symbol::lemma_id_injective(a@[i as int], b@[i as int]);
        }
        i += 1;
    }
    proof {
        lemma_symbols_lt_skip(a@, b@, i as int);
        lemma_symbols_lt_skip(b@, a@, i as int);
    }
    if a.len() < b.len() {
        Order::Less
    } else if a.len() > b.len() {
        Order::Greater
    } else {
        assert(a@ =~= b@);
        proof {
            lemma_symbols_lt_irreflexive(a@);
        }
        Order::Equal
    }
}

/// A production as a plain value: the symbol it rewrites and the row it rewrites it to.
pub struct ProductionView {
    pub lhs: Symbol,
    pub rhs: Seq<Symbol>,
}

/// `p` comes before `q`: by the left-hand side first, then by the right-hand side.
pub open spec fn production_lt(p: ProductionView, q: ProductionView) -> bool {
    p.lhs.id() < q.lhs.id() || (p.lhs == q.lhs && symbols_lt(p.rhs, q.rhs))
}

/// No production comes before itself.
pub proof fn lemma_production_lt_irreflexive(p: ProductionView)
    ensures
        !production_lt(p, p),
{
    lemma_symbols_lt_irreflexive(p.rhs);
}

/// What comes before a production comes before all that the production comes before.
pub proof fn lemma_production_lt_transitive(p: ProductionView, q: ProductionView, r: ProductionView)
    requires
        production_lt(p, q),
        production_lt(q, r),
    ensures
        production_lt(p, r),
{
    if p.lhs == q.lhs && q.lhs == r.lhs {
        lemma_symbols_lt_transitive(p.rhs, q.rhs, r.rhs);
    }
}

/// Of two different productions one comes before the other.
pub proof fn lemma_production_lt_total(p: ProductionView, q: ProductionView)
    ensures
        production_lt(p, q) || production_lt(q, p) || p == q,
{
    Symbol::lemma_id_injective(p.lhs, q.lhs);
    lemma_symbols_lt_total(p.rhs, q.rhs);
}

/// Every symbol that `p` names is registered in `db`.
pub open spec fn registered(db: SymbolDb, p: ProductionView) -> bool {
    &&& db.contains(p.lhs)
    &&& forall|j: int| 0 <= j < p.rhs.len() ==> db.contains(#[trigger] p.rhs[j])
}

/// A production as text: the label of the left-hand side, an arrow, and the labels of the
/// right-hand side with two blanks between neighbours.
pub open spec fn production_text(db: SymbolDb, p: ProductionView) -> Seq<char> {
    label_of(db, p.lhs) + " -> "@ + joined(db, p.rhs, p.rhs.len())
}

/// A production: a nonterminal and the row of symbols that it can be rewritten to. An empty
/// right-hand side is written as the single symbol epsilon.
#[derive(Debug, PartialEq, Eq, Hash, PartialOrd, Ord)]
pub struct Production {
    lhs: Symbol,
    rhs: Vec<Symbol>,
}

impl View for Production {
    type V = ProductionView;

    closed spec fn view(&self) -> ProductionView {
        ProductionView { lhs: self.lhs, rhs: self.rhs@ }
    }
}

impl Clone for Production {
    fn clone(&self) -> (r: Self)
        ensures
            r@ == self@,
    {
        let mut rhs: Vec<Symbol> = Vec::new();
        let mut i: usize = 0;
        while i < self.rhs.len()
            invariant
                i <= self.rhs@.len(),
                rhs@ == self.rhs@.take(i as int),
            decreases self.rhs@.len() - i,
        {
            rhs.push(self.rhs[i]);
            assert(rhs@ =~= self.rhs@.take(i + 1));
            i += 1;
        }
        assert(rhs@ =~= self.rhs@);
        Production { lhs: self.lhs, rhs }
    }
}

impl Production {
    /// The production that rewrites `lhs` to `rhs`.
    pub fn new(lhs: Symbol, rhs: Vec<Symbol>) -> (p: Production)
        ensures
            p@ == (ProductionView { lhs, rhs: rhs@ }),
    {
        Production { lhs, rhs }
    }

    /// The symbol that the production rewrites.
    pub fn lhs(&self) -> (s: &Symbol)
        ensures
            *s == self@.lhs,
    {
        &self.lhs
    }

    /// The row of symbols that the production rewrites its left-hand side to.
    pub fn rhs(&self) -> (v: &Vec<Symbol>)
        ensures
            v@ == self@.rhs,
    {
        &self.rhs
    }

    /// The production as text, with the labels of `symbol_db`.
    pub fn to_string(&self, symbol_db: &SymbolDb) -> (s: String)
        requires
            symbol_db.wf(),
            registered(*symbol_db, self@),
        ensures
            s@ == production_text(*symbol_db, self@),
    {
        let mut out = String::from_str("");
        proof {
            reveal_strlit("");
        }
        match symbol_db.label(&self.lhs) {
            Some(l) => {
                out.append(l.as_str());
            },
            None => {},
        }
        out.append(" -> ");
        assert forall|j: int| 0 <= j < self.rhs@.len() implies symbol_db.contains(
            #[trigger] self.rhs@[j],
        ) by {
            assert(self@.rhs[j] == self.rhs@[j]);
        }
        let rhs = join_labels(symbol_db, &self.rhs);
        out.append(rhs.as_str());
        assert(out@ =~= production_text(*symbol_db, self@));
        out
    }

    /// How this production stands to `other` in the order of productions.
    pub fn order(&self, other: &Production) -> (r: Order)
        ensures
            r == Order::Less <==> production_lt(self@, other@),
            r == Order::Equal <==> self@ == other@,
            r == Order::Greater <==> production_lt(other@, self@),
    {
        let x = self.lhs.index();
        let y = other.lhs.index();
        proof {
            Symbol::lemma_id_injective(self.lhs, other.lhs);
            lemma_symbols_lt_irreflexive(self.rhs@);
        }
        if x < y {
            Order::Less
        } else if x > y {
            Order::Greater
        } else {
            order_symbols(&self.rhs, &other.rhs)
        }
    }

    /// Whether the two productions have the same left-hand and right-hand sides.
    pub fn same_as(&self, other: &Production) -> (b: bool)
        ensures
            b == (self@ == other@),
    {
        match self.order(other) {
            Order::Equal => true,
            _ => false,
        }
    }
}

} // verus!
