use vstd::prelude::*;
use crate::symbol::Symbol;

verus! {

/// Why a symbol table or a grammar could not be put together.
#[derive(Clone, Copy, Debug, PartialEq, Eq, Structural)]
pub enum GrammarDefinitionError {
    /// The label is already registered in the symbol table.
    DuplicateLabel,
    /// A production or the start symbol names a symbol that the table does not hold.
    UnregisteredSymbol(Symbol),
}

/// Why no parse tables could be built for a grammar.
#[derive(Clone, Copy, Debug, PartialEq, Eq, Structural)]
pub enum TableConflictError {
    /// Two different productions are to be reduced in one state on one lookahead.
    ReduceReduce { state: u32, symbol: Symbol },
    /// Two shifts to different states meet in one state on one terminal.
    ShiftShift { state: u32, symbol: Symbol },
    /// Accepting meets a shift or a reduction in one state on one terminal.
    AcceptConflict { state: u32, symbol: Symbol },
    /// A state already has a successor for a nonterminal.
    Goto { state: u32, symbol: Symbol },
    /// The grammar has more states than state numbers can count.
    StateLimit,
}

/// A conflict between a shift and a reduction, which was settled for the shift.
#[derive(Clone, Copy, Debug, PartialEq, Eq, Structural)]
pub struct TableConflictDiagnostic {
    pub state: u32,
    pub symbol: Symbol,
}

/// Why an input could not be parsed.
#[derive(Clone, Copy, Debug, PartialEq, Eq, Structural)]
pub enum ParseError {
    /// The tables have no action for the symbol in the state.
    UnexpectedToken { state: u32, symbol: Symbol },
    /// After a reduction the tables have no successor for the nonterminal in the state.
    MissingGoto { state: u32, nonterminal: Symbol },
    /// The tokens ended before the input was accepted.
    UnexpectedEndOfInput,
    /// A reduction or the acceptance asked for more subtrees than had been built.
    StackUnderflow,
    /// The parser gave up after taking as many steps as it can count.
    StepLimit,
}

} // verus!
