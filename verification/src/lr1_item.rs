use vstd::prelude::*;
use vstd::string::*;
use crate::text::{decimal, decimal_text, label_of};
use crate::production::{
    Order, Production, ProductionView, lemma_production_lt_irreflexive, lemma_production_lt_total,
    lemma_production_lt_transitive, production_lt, production_text, registered,
};
use crate::symbol::{Symbol, SymbolDb};

verus! {

/// An item as a plain value: a production, the place of the dot in its right-hand side, and
/// the terminal that may follow.
pub struct ItemView {
    pub production: ProductionView,
    pub dot: nat,
    pub lookahead: Symbol,
}

/// What stands after the dot: the right-hand side from the dot on, and nothing where the dot
/// is at the end or beyond.
pub open spec fn after_dot(it: ItemView) -> Seq<Symbol> {
    if it.dot <= it.production.rhs.len() {
        it.production.rhs.skip(it.dot as int)
    } else {
        Seq::<Symbol>::empty()
    }
}

/// The item with the dot one place further.
pub open spec fn advanced(it: ItemView) -> ItemView {
    ItemView { production: it.production, dot: it.dot + 1, lookahead: it.lookahead }
}

/// The item is complete for the goal symbol with the end of input as lookahead.
pub open spec fn spec_is_target(it: ItemView) -> bool {
    it.production.lhs == SymbolDb::spec_goal() && it.lookahead == SymbolDb::spec_eoi()
}

/// `a` comes before `b`: by production first, then by the place of the dot, then by the
/// number of the lookahead.
pub open spec fn item_lt(a: ItemView, b: ItemView) -> bool {
    production_lt(a.production, b.production) || (a.production == b.production && (a.dot < b.dot
        || (a.dot == b.dot && a.lookahead.id() < b.lookahead.id())))
}

/// No item comes before itself.
pub proof fn lemma_item_lt_irreflexive(a: ItemView)
    ensures
        !item_lt(a, a),
{
    lemma_production_lt_irreflexive(a.production);
}

/// What comes before an item comes before all that the item comes before.
pub proof fn lemma_item_lt_transitive(a: ItemView, b: ItemView, c: ItemView)
    requires
        item_lt(a, b),
        item_lt(b, c),
    ensures
        item_lt(a, c),
{
    lemma_production_lt_irreflexive(a.production);
    if production_lt(a.production, b.production) && production_lt(b.production, c.production) {
        lemma_production_lt_transitive(a.production, b.production, c.production);
    }
}

/// Of two different items one comes before the other.
pub proof fn lemma_item_lt_total(a: ItemView, b: ItemView)
    ensures
        item_lt(a, b) || item_lt(b, a) || a == b,
{
    lemma_production_lt_total(a.production, b.production);
    Symbol::lemma_id_injective(a.lookahead, b.lookahead);
}

/// An item as text: the production, the place of the dot and the label of the lookahead.
pub open spec fn item_text(db: SymbolDb, it: ItemView) -> Seq<char> {
    "[LR1Item "@ + production_text(db, it.production) + ", "@ + decimal_text(it.dot) + ", "@
        + label_of(db, it.lookahead) + "]"@
}

/// An LR(1) item: a production with a dot in its right-hand side and a lookahead terminal.
#[derive(Debug, PartialEq, Eq, Hash, PartialOrd, Ord)]
pub struct LR1Item {
    production: Production,
    dot_position: usize,
    lookahead: Symbol,
}

impl View for LR1Item {
    type V = ItemView;

    closed spec fn view(&self) -> ItemView {
        ItemView {
            production: self.production@,
            dot: self.dot_position as nat,
            lookahead: self.lookahead,
        }
    }
}

impl Clone for LR1Item {
    fn clone(&self) -> (r: Self)
        ensures
            r@ == self@,
    {
        proof {
            use_type_invariant(self);
        }
        LR1Item {
            production: self.production.clone(),
            dot_position: self.dot_position,
            lookahead: self.lookahead,
        }
    }
}

impl LR1Item {
    /// The dot stands before a place of the right-hand side or at its end.
    #[verifier::type_invariant]
    closed spec fn dot_in_range(&self) -> bool {
        self.dot_position <= self.production@.rhs.len()
    }

    /// The item of `production` with the dot before place `dot_position`, or at the end
    /// where `dot_position` is the length of the right-hand side, and the given lookahead.
    pub fn new(production: Production, dot_position: usize, lookahead: Symbol) -> (it: LR1Item)
        requires
            dot_position <= production@.rhs.len(),
        ensures
            it@ == (ItemView { production: production@, dot: dot_position as nat, lookahead }),
    {
        LR1Item { production, dot_position, lookahead }
    }

    /// The production of the item.
    pub fn production(&self) -> (p: &Production)
        ensures
            p@ == self@.production,
    {
        &self.production
    }

    /// The place of the dot.
    pub fn dot_position(&self) -> (d: usize)
        ensures
            d == self@.dot,
            d <= self@.production.rhs.len(),
    {
        proof {
            use_type_invariant(self);
        }
        self.dot_position
    }

    /// The symbols after the dot, in their order.
    pub fn symbols_after_dot(&self) -> (v: Vec<Symbol>)
        ensures
            v@ == after_dot(self@),
    {
        proof {
            use_type_invariant(self);
        }
        let rhs = self.production.rhs();
        let mut result: Vec<Symbol> = Vec::new();
        let mut i: usize = self.dot_position;
        while i < rhs.len()
            invariant
                self.dot_position <= i <= rhs@.len(),
                rhs@ == self@.production.rhs,
                result@ == rhs@.subrange(self.dot_position as int, i as int),
            decreases rhs@.len() - i,
        {
            result.push(rhs[i]);
            assert(result@ =~= rhs@.subrange(self.dot_position as int, i + 1));
            i += 1;
        }
        assert(result@ =~= after_dot(self@));
        result
    }

    /// The symbol right after the dot, if there is one.
    pub fn next_symbol(&self) -> (r: Option<Symbol>)
        ensures
            match r {
                Some(x) => {
                    &&& after_dot(self@).len() > 0
                    &&& x == after_dot(self@)[0]
                    &&& self@.dot < self@.production.rhs.len()
                    &&& self@.dot < usize::MAX
                },
                None => after_dot(self@).len() == 0,
            },
    {
        let rhs = self.production.rhs();
        if self.dot_position < rhs.len() {
            Some(rhs[self.dot_position])
        } else {
            None
        }
    }

    /// The lookahead of the item.
    pub fn lookahead(&self) -> (s: &Symbol)
        ensures
            *s == self@.lookahead,
    {
        &self.lookahead
    }

    /// Whether the item belongs to the goal symbol and has the end of input as lookahead.
    pub fn is_target(&self, symbol_db: &SymbolDb) -> (b: bool)
        ensures
            b == spec_is_target(self@),
    {
        *self.production.lhs() == symbol_db.goal() && self.lookahead == symbol_db.eoi()
    }

    /// The item as text, with the labels of `symbol_db`.
    pub fn to_string(&self, symbol_db: &SymbolDb) -> (s: String)
        requires
            symbol_db.wf(),
            registered(*symbol_db, self@.production),
            symbol_db.contains(self@.lookahead),
        ensures
            s@ == item_text(*symbol_db, self@),
    {
        let mut out = String::from_str("[LR1Item ");
        let p = self.production.to_string(symbol_db);
        out.append(p.as_str());
        out.append(", ");
        let d = decimal(self.dot_position);
        out.append(d.as_str());
        out.append(", ");
        match symbol_db.label(&self.lookahead) {
            Some(l) => {
                out.append(l.as_str());
            },
            None => {},
        }
        out.append("]");
        out
    }

    /// How this item stands to `other` in the order of items.
    pub fn order(&self, other: &LR1Item) -> (r: Order)
        ensures
            r == Order::Less <==> item_lt(self@, other@),
            r == Order::Equal <==> self@ == other@,
            r == Order::Greater <==> item_lt(other@, self@),
    {
        proof {
            lemma_production_lt_irreflexive(self@.production);
            lemma_production_lt_total(self@.production, other@.production);
            Symbol::lemma_id_injective(self.lookahead, other.lookahead);
            if production_lt(self@.production, other@.production) && production_lt(
                other@.production,
                self@.production,
            ) {
                lemma_production_lt_transitive(
                    self@.production,
                    other@.production,
                    self@.production,
                );
            }
        }
        match self.production.order(&other.production) {
            Order::Less => Order::Less,
            Order::Greater => Order::Greater,
            Order::Equal => {
                if self.dot_position < other.dot_position {
                    Order::Less
                } else if self.dot_position > other.dot_position {
                    Order::Greater
                } else {
                    let x = self.lookahead.index();
                    let y = other.lookahead.index();
                    if x < y {
                        Order::Less
                    } else if x > y {
                        Order::Greater
                    } else {
                        Order::Equal
                    }
                }
            },
        }
    }
}

} // verus!
