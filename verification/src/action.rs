use vstd::prelude::*;
use vstd::string::*;
use crate::production::{Production, ProductionView, production_text, registered};
use crate::symbol::SymbolDb;
use crate::text::{decimal, decimal_text};

verus! {

/// An action as a plain value.
pub enum ActionView {
    Accept,
    Shift(u32),
    Reduce(ProductionView),
}

/// An action as text.
pub open spec fn action_text(db: SymbolDb, a: ActionView) -> Seq<char> {
    match a {
        ActionView::Accept => "Accept"@,
        ActionView::Shift(n) => "Shift("@ + decimal_text(n as nat) + ")"@,
        ActionView::Reduce(p) => "Reduce("@ + production_text(db, p) + ")"@,
    }
}

/// The symbols of the production of a reduction are registered in `db`.
pub open spec fn action_registered(db: SymbolDb, a: ActionView) -> bool {
    match a {
        ActionView::Reduce(p) => registered(db, p),
        _ => true,
    }
}

/// What the parser does in a state on a terminal: accept the input, shift the terminal and
/// go to a state, or reduce by a production.
#[derive(Debug, PartialEq, Eq)]
pub enum Action {
    Accept,
    Shift(u32),
    Reduce(Production),
}

impl View for Action {
    type V = ActionView;

    open spec fn view(&self) -> ActionView {
        match self {
            Action::Accept => ActionView::Accept,
            Action::Shift(n) => ActionView::Shift(*n),
            Action::Reduce(p) => ActionView::Reduce(p@),
        }
    }
}

impl Clone for Action {
    fn clone(&self) -> (r: Self)
        ensures
            r@ == self@,
    {
        match self {
            Action::Accept => Action::Accept,
            Action::Shift(n) => Action::Shift(*n),
            Action::Reduce(p) => Action::Reduce(p.clone()),
        }
    }
}

impl Action {
    /// The action that accepts the input.
    pub fn accept() -> (a: Action)
        ensures
            a@ == ActionView::Accept,
    {
        Action::Accept
    }

    /// The action that shifts and goes to `state`.
    pub fn shift(state: u32) -> (a: Action)
        ensures
            a@ == ActionView::Shift(state),
    {
        Action::Shift(state)
    }

    /// The action that reduces by `p`.
    pub fn reduce(p: Production) -> (a: Action)
        ensures
            a@ == ActionView::Reduce(p@),
    {
        Action::Reduce(p)
    }

    /// The action as text, with the labels of `symbol_db`.
    pub fn to_string(&self, symbol_db: &SymbolDb) -> (s: String)
        requires
            symbol_db.wf(),
            action_registered(*symbol_db, self@),
        ensures
            s@ == action_text(*symbol_db, self@),
    {
        match self {
            Action::Accept => String::from_str("Accept"),
            Action::Shift(n) => {
                let mut out = String::from_str("Shift(");
                let digits = decimal(*n as usize);
                out.append(digits.as_str());
                out.append(")");
                out
            },
            Action::Reduce(p) => {
                let mut out = String::from_str("Reduce(");
                let text = p.to_string(symbol_db);
                out.append(text.as_str());
                out.append(")");
                out
            },
        }
    }

    /// Whether the two actions are the same.
    pub fn same_as(&self, other: &Action) -> (b: bool)
        ensures
            b == (self@ == other@),
    {
        match (self, other) {
            (Action::Accept, Action::Accept) => true,
            (Action::Shift(a), Action::Shift(b)) => *a == *b,
            (Action::Reduce(p), Action::Reduce(q)) => p.same_as(q),
            _ => false,
        }
    }
}

} // verus!
