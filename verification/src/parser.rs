use vstd::prelude::*;
use crate::action::{Action, ActionView};
use crate::errors::{ParseError, TableConflictError};
use crate::grammar::Grammar;
use crate::parse_tables::{ParseTables, build_fails};
use crate::parse_tree::{ParseTree, Shape, leaf_places, leaf_places_of};
use crate::symbol::{Symbol, SymbolDb};

verus! {

/// The most steps a parse can take.
pub const STEP_LIMIT: u64 = 0xffff_ffff_ffff_ffff;

/// Where a parse stands: the stack of states, the subtrees built so far, and the place of
/// the next token.
pub struct Config {
    pub states: Seq<u32>,
    pub nodes: Seq<Shape>,
    pub cursor: int,
}

/// What one step of a parse leads to: a new configuration, or the end of the parse.
pub enum Step {
    Next(Config),
    Done(Result<Shape, ParseError>),
}

/// The test that a symbol is not epsilon.
pub open spec fn not_epsilon() -> spec_fn(Symbol) -> bool {
    |s: Symbol| s != SymbolDb::spec_epsilon()
}

/// The number of subtrees that a reduction by a production with right-hand side `rhs`
/// takes: the number of its symbols other than epsilon.
pub open spec fn effective_len(rhs: Seq<Symbol>) -> nat {
    rhs.filter(not_epsilon()).len()
}

/// The configuration that every parse starts from.
pub open spec fn initial_config() -> Config {
    Config { states: seq![0u32], nodes: Seq::<Shape>::empty(), cursor: 0 }
}

/// One step of the parser on the symbols `syms` with the tables `t`. The action for the
/// state on top and the symbol at the cursor decides: a shift puts a leaf on the subtrees
/// and moves on, and fails if no token is left; a reduction takes as many subtrees as the
/// production has symbols other than epsilon, makes them the subtrees of a new node and
/// consults GOTO; acceptance ends the parse with the subtree on top.
pub open spec fn step(t: ParseTables, syms: Seq<Symbol>, c: Config) -> Step {
    let state = c.states.last();
    let a = syms[c.cursor];
    match t.spec_action(state, a) {
        None => Step::Done(Err(ParseError::UnexpectedToken { state, symbol: a })),
        Some(ActionView::Shift(n)) => if c.cursor + 1 >= syms.len() {
            Step::Done(Err(ParseError::UnexpectedEndOfInput))
        } else {
            Step::Next(
                Config {
                    states: c.states.push(n),
                    nodes: c.nodes.push(
                        Shape { symbol: a, place: c.cursor, leaf: true, children: Seq::empty() },
                    ),
                    cursor: c.cursor + 1,
                },
            )
        },
        Some(ActionView::Reduce(p)) => {
            let k = effective_len(p.rhs);
            if c.nodes.len() < k {
                Step::Done(Err(ParseError::StackUnderflow))
            } else {
                let kept = c.states.take(c.states.len() - k);
                let node = Shape {
                    symbol: p.lhs,
                    place: c.cursor,
                    leaf: false,
                    children: c.nodes.skip(c.nodes.len() - k),
                };
                match t.spec_goto(kept.last(), p.lhs) {
                    None => Step::Done(
                        Err(ParseError::MissingGoto { state: kept.last(), nonterminal: p.lhs }),
                    ),
                    Some(n) => Step::Next(
                        Config {
                            states: kept.push(n),
                            nodes: c.nodes.take(c.nodes.len() - k).push(node),
                            cursor: c.cursor,
                        },
                    ),
                }
            }
        },
        Some(ActionView::Accept) => if c.nodes.len() == 0 {
            Step::Done(Err(ParseError::StackUnderflow))
        } else {
            Step::Done(Ok(c.nodes.last()))
        },
    }
}

/// The end of the parse that starts at `c` and takes at most `fuel` steps.
pub open spec fn run(t: ParseTables, syms: Seq<Symbol>, c: Config, fuel: nat) -> Result<
    Shape,
    ParseError,
>
    decreases fuel,
{
    if fuel == 0 {
        Err(ParseError::StepLimit)
    } else {
        match step(t, syms, c) {
            Step::Done(r) => r,
            Step::Next(c2) => run(t, syms, c2, (fuel - 1) as nat),
        }
    }
}

/// The shape of the parse tree of the symbols `syms`, or why there is none. An empty input
/// ends before it is accepted.
pub open spec fn parse_shape(t: ParseTables, syms: Seq<Symbol>) -> Result<Shape, ParseError> {
    if syms.len() == 0 {
        Err(ParseError::UnexpectedEndOfInput)
    } else {
        run(t, syms, initial_config(), STEP_LIMIT as nat)
    }
}

/// The tokens of a row of classified tokens.
pub open spec fn tokens_of<T>(input: Seq<(T, Symbol)>) -> Seq<T> {
    Seq::new(input.len(), |i: int| input[i].0)
}

/// The symbols of a row of classified tokens.
pub open spec fn symbols_of<T>(input: Seq<(T, Symbol)>) -> Seq<Symbol> {
    Seq::new(input.len(), |i: int| input[i].1)
}

/// The result `r` is what `expected` asks for: the same failure, or a tree of the expected
/// shape over `tokens`.
pub open spec fn outcome<T: Clone>(
    r: Result<ParseTree<T>, ParseError>,
    expected: Result<Shape, ParseError>,
    tokens: Seq<T>,
) -> bool {
    match r {
        Ok(tree) => expected is Ok && tree.matches(expected->Ok_0, tokens),
        Err(e) => expected == Err::<Shape, ParseError>(e),
    }
}

/// `syms` holds, for each token, a symbol that `classify` can give for it.
pub open spec fn classified<T, F: Fn(&T) -> Symbol>(classify: F, tokens: Seq<T>, syms: Seq<Symbol>) -> bool {
    &&& syms.len() == tokens.len()
    &&& forall|i: int| 0 <= i < tokens.len() ==> call_ensures(classify, (&tokens[i],), #[trigger] syms[i])
}

/// The number of symbols of `rhs` other than epsilon.
fn count_effective(rhs: &Vec<Symbol>, eps: Symbol) -> (k: usize)
    requires
        eps == SymbolDb::spec_epsilon(),
    ensures
        k == effective_len(rhs@),
{
    let mut k: usize = 0;
    let mut i: usize = 0;
    proof {
        reveal(Seq::filter);
        assert(rhs@.take(0).filter(not_epsilon()).len() == 0);
    }
    while i < rhs.len()
        invariant
            i <= rhs@.len(),
            eps == SymbolDb::spec_epsilon(),
            k == rhs@.take(i as int).filter(not_epsilon()).len(),
            k <= i,
        decreases rhs@.len() - i,
    {
        proof {
            assert(rhs@.take(i + 1) =~= rhs@.take(i as int).push(rhs@[i as int]));
            rhs@.take(i as int).lemma_filter_push(rhs@[i as int], not_epsilon());
        }
        if rhs[i] != eps {
            k += 1;
        }
        i += 1;
    }
    assert(rhs@.take(i as int) =~= rhs@);
    k
}

/// A shift-reduce parser for a grammar: the grammar and its tables.
pub struct Parser {
    grammar: Grammar,
    parse_tables: ParseTables,
}

impl Parser {
    /// The grammar of the parser.
    pub closed spec fn spec_grammar(&self) -> Grammar {
        self.grammar
    }

    /// The tables of the parser.
    pub closed spec fn spec_tables(&self) -> ParseTables {
        self.parse_tables
    }

    /// The grammar is well formed and the tables are those of the grammar.
    pub open spec fn wf(&self) -> bool {
        &&& self.spec_grammar().wf()
        &&& self.spec_tables().built_from(&self.spec_grammar())
        &&& self.spec_tables().printable(self.spec_grammar().db())
    }

    /// The parser for `grammar`, unless building its tables meets a fatal conflict.
    pub fn new(grammar: Grammar) -> (r: Result<Parser, TableConflictError>)
        requires
            grammar.wf(),
        ensures
            match r {
                Ok(p) => p.wf() && p.spec_grammar() == grammar,
                Err(e) => build_fails(&grammar, e),
            },
    {
        match ParseTables::new(&grammar) {
            Ok(parse_tables) => Ok(Parser { grammar, parse_tables }),
            Err(e) => Err(e),
        }
    }

    /// The grammar of the parser.
    pub fn grammar(&self) -> (g: &Grammar)
        ensures
            *g == self.spec_grammar(),
    {
        &self.grammar
    }

    /// The tables of the parser.
    pub fn parse_tables(&self) -> (t: &ParseTables)
        ensures
            *t == self.spec_tables(),
    {
        &self.parse_tables
    }

    /// Parses the classified tokens that `rest` holds from the last to the first.
    fn parse_reversed<T: Clone>(&self, rest: Vec<(T, Symbol)>) -> (r: Result<ParseTree<T>, ParseError>)
        ensures
            outcome(
                r,
                parse_shape(self.spec_tables(), symbols_of(rest@.reverse())),
                tokens_of(rest@.reverse()),
            ),
    {
        let ghost input = rest@.reverse();
        let ghost tokens = tokens_of(input);
        let ghost syms = symbols_of(input);
        let ghost total = input.len() as int;
        let ghost t = self.spec_tables();
        let mut pending = rest;
        if pending.len() == 0 {
            return Err(ParseError::UnexpectedEndOfInput);
        }
        let eps = self.grammar.symbol_db().epsilon();
        let mut parse_stack: Vec<ParseTree<T>> = Vec::new();
        let mut state_stack: Vec<u32> = Vec::new();
        state_stack.push(0);
        let mut steps: u64 = 0;
        let ghost mut c = initial_config();
        assert(state_stack@ =~= c.states);
        while steps < STEP_LIMIT
            invariant
                t == self.spec_tables(),
                eps == SymbolDb::spec_epsilon(),
                total == input.len(),
                tokens == tokens_of(input),
                syms == symbols_of(input),
                input == rest@.reverse(),
                0 < pending@.len() <= total,
                forall|j: int|
                    0 <= j < pending@.len() ==> #[trigger] pending@[j] == input[total - 1 - j],
                c.cursor == total - pending@.len(),
                state_stack@ == c.states,
                state_stack@.len() == parse_stack@.len() + 1,
                parse_stack@.len() == c.nodes.len(),
                forall|j: int|
                    0 <= j < parse_stack@.len() ==> (#[trigger] parse_stack@[j]).matches(
                        c.nodes[j],
                        tokens,
                    ),
                parse_shape(t, syms) == run(t, syms, c, (STEP_LIMIT - steps) as nat),
            decreases STEP_LIMIT - steps,
        {
            let state = state_stack[state_stack.len() - 1];
            let symbol = pending[pending.len() - 1].1;
            assert(symbol == syms[c.cursor]);
            assert(state == c.states.last());
            match self.parse_tables.action(state, symbol) {
                None => {
                    return Err(ParseError::UnexpectedToken { state, symbol });
                },
                Some(action) => {
                    match action {
                        Action::Shift(n) => {
                            let ghost place = c.cursor;
                            let (tok, sym) = pending.pop().unwrap();
                            let leaf = ParseTree::new(sym, tok);
                            let ghost shape = Shape {
                                symbol,
                                place,
                                leaf: true,
                                children: Seq::empty(),
                            };
                            proof {
                                leaf.lemma_matches(shape, tokens);
                                assert(tok == tokens[place]);
                            }
                            parse_stack.push(leaf);
                            state_stack.push(*n);
                            if pending.len() == 0 {
                                return Err(ParseError::UnexpectedEndOfInput);
                            }
                            proof {
                                c = Config {
                                    states: c.states.push(*n),
                                    nodes: c.nodes.push(shape),
                                    cursor: c.cursor + 1,
                                };
                            }
                        },
                        Action::Reduce(p) => {
                            let k = count_effective(p.rhs(), eps);
                            if parse_stack.len() < k {
                                return Err(ParseError::StackUnderflow);
                            }
                            let lhs = *p.lhs();
                            let ghost place = c.cursor;
                            let token = pending[pending.len() - 1].0.clone();
                            assert(cloned(tokens[place], token));
                            let mut node = ParseTree::new(lhs, token);
                            let at = parse_stack.len() - k;
                            let ghost before = parse_stack@;
                            let kids = parse_stack.split_off(at);
                            node.add_children(kids);
                            state_stack.truncate(state_stack.len() - k);
                            let ghost shape = Shape {
                                symbol: lhs,
                                place,
                                leaf: false,
                                children: c.nodes.skip(c.nodes.len() - k),
                            };
                            proof {
                                node.lemma_matches(shape, tokens);
                                assert(node.spec_children() =~= before.subrange(
                                    at as int,
                                    before.len() as int,
                                ));
                                assert forall|i: int|
                                    0 <= i < node.spec_children().len() implies (
                                #[trigger] node.spec_children()[i]).matches(
                                    shape.children[i],
                                    tokens,
                                ) by {
                                    assert(node.spec_children()[i] == before[at + i]);
                                    assert(before[at + i].matches(c.nodes[at + i], tokens));
                                }
                                assert(node.matches(shape, tokens));
                            }
                            parse_stack.push(node);
                            let current = state_stack[state_stack.len() - 1];
                            let ghost kept = c.states.take(c.states.len() - k);
                            assert(state_stack@ =~= kept);
                            match self.parse_tables.transition(current, lhs) {
                                Some(next) => {
                                    state_stack.push(*next);
                                    proof {
                                        let nodes = c.nodes.take(c.nodes.len() - k).push(shape);
                                        assert forall|j: int|
                                            0 <= j < parse_stack@.len() implies (
                                        #[trigger] parse_stack@[j]).matches(nodes[j], tokens) by {
                                            if j < at {
                                                assert(parse_stack@[j] == before[j]);
                                                assert(before[j].matches(c.nodes[j], tokens));
                                            }
                                        }
                                        c = Config {
                                            states: kept.push(*next),
                                            nodes,
                                            cursor: c.cursor,
                                        };
                                    }
                                },
                                None => {
                                    return Err(
                                        ParseError::MissingGoto {
                                            state: current,
                                            nonterminal: lhs,
                                        },
                                    );
                                },
                            }
                        },
                        Action::Accept => {
                            let ghost before = parse_stack@;
                            return match parse_stack.pop() {
                                Some(tree) => {
                                    assert(tree == before[before.len() - 1]);
                                    Ok(tree)
                                },
                                None => Err(ParseError::StackUnderflow),
                            };
                        },
                    }
                },
            }
            steps += 1;
        }
        Err(ParseError::StepLimit)
    }

    /// Parses tokens that come with their symbols. The last token is expected to be the end
    /// of input.
    pub fn parse_classified<T: Clone>(&self, input: Vec<(T, Symbol)>) -> (r: Result<
        ParseTree<T>,
        ParseError,
    >)
        ensures
            outcome(r, parse_shape(self.spec_tables(), symbols_of(input@)), tokens_of(input@)),
    {
        let mut input = input;
        let ghost given = input@;
        let mut rest: Vec<(T, Symbol)> = Vec::new();
        while input.len() > 0
            invariant
                input@.len() <= given.len(),
                input@ == given.take(input@.len() as int),
                rest@.len() + input@.len() == given.len(),
                forall|j: int| 0 <= j < rest@.len() ==> #[trigger] rest@[j] == given[given.len() - 1 - j],
            decreases input@.len(),
        {
            let ghost before = input@;
            let x = input.pop().unwrap();
            assert(x == given[before.len() - 1]);
            rest.push(x);
            assert(input@ =~= given.take(input@.len() as int));
        }
        assert(rest@.reverse() =~= given);
        self.parse_reversed(rest)
    }

    /// Parses `tokens`, each of which `token_to_symbol` maps to its terminal. The last token
    /// is expected to map to the end of input.
    pub fn parse<T, F>(&self, tokens: Vec<T>, token_to_symbol: F) -> (r: Result<
        ParseTree<T>,
        ParseError,
    >) where T: Clone, F: Fn(&T) -> Symbol
        requires
            forall|i: int| 0 <= i < tokens@.len() ==> call_requires(token_to_symbol, (&tokens@[i],)),
        ensures
            exists|syms: Seq<Symbol>|
                #![trigger classified(token_to_symbol, tokens@, syms)]
                classified(token_to_symbol, tokens@, syms) && outcome(
                    r,
                    parse_shape(self.spec_tables(), syms),
                    tokens@,
                ),
    {
        let mut tokens = tokens;
        let ghost given = tokens@;
        let mut symbols: Vec<Symbol> = Vec::new();
        let mut i: usize = 0;
        while i < tokens.len()
            invariant
                i <= tokens@.len(),
                tokens@ == given,
                symbols@.len() == i,
                forall|j: int| 0 <= j < given.len() ==> call_requires(token_to_symbol, (&given[j],)),
                forall|j: int|
                    0 <= j < i ==> call_ensures(token_to_symbol, (&given[j],), #[trigger] symbols@[j]),
            decreases tokens@.len() - i,
        {
            let s = token_to_symbol(&tokens[i]);
            symbols.push(s);
            i += 1;
        }
        let ghost syms = symbols@;
        let mut rest: Vec<(T, Symbol)> = Vec::new();
        while tokens.len() > 0
            invariant
                tokens@.len() <= given.len(),
                syms.len() == given.len(),
                tokens@ == given.take(tokens@.len() as int),
                symbols@ == syms.take(tokens@.len() as int),
                rest@.len() + tokens@.len() == given.len(),
                forall|j: int|
                    0 <= j < rest@.len() ==> #[trigger] rest@[j] == (
                        given[given.len() - 1 - j],
                        syms[given.len() - 1 - j],
                    ),
            decreases tokens@.len(),
        {
            let ghost before = tokens@;
            let tok = tokens.pop().unwrap();
            let sym = symbols.pop().unwrap();
            assert(tok == given[before.len() - 1]);
            assert(sym == syms[before.len() - 1]);
            rest.push((tok, sym));
            assert(tokens@ =~= given.take(tokens@.len() as int));
            assert(symbols@ =~= syms.take(tokens@.len() as int));
        }
        proof {
            assert(tokens_of(rest@.reverse()) =~= given);
            assert(symbols_of(rest@.reverse()) =~= syms);
            assert(classified(token_to_symbol, given, syms));
        }
        self.parse_reversed(rest)
    }
}

/// Parsing is a function of the tables and the classified tokens: two results for the same
/// input fail alike or are trees that are alike.
pub proof fn lemma_parse_deterministic<T: Clone>(
    t: ParseTables,
    input: Seq<(T, Symbol)>,
    r1: Result<ParseTree<T>, ParseError>,
    r2: Result<ParseTree<T>, ParseError>,
)
    requires
        outcome(r1, parse_shape(t, symbols_of(input)), tokens_of(input)),
        outcome(r2, parse_shape(t, symbols_of(input)), tokens_of(input)),
    ensures
        match (r1, r2) {
            (Ok(t1), Ok(t2)) => t1.alike(&t2, parse_shape(t, symbols_of(input))->Ok_0),
            (Err(e1), Err(e2)) => e1 == e2,
            _ => false,
        },
{
    match (r1, r2) {
        (Ok(t1), Ok(t2)) => {
            t1.lemma_same_shape_alike(
                &t2,
                parse_shape(t, symbols_of(input))->Ok_0,
                tokens_of(input),
            );
        },
        _ => {},
    }
}

/// The places from `from` up to `to`, in rising order.
pub open spec fn consecutive(from: int, to: int) -> Seq<int> {
    Seq::new((to - from) as nat, |i: int| from + i)
}

/// The leaves of the subtrees built so far stand for the tokens before the cursor, in their
/// order, and the cursor is at a token.
pub open spec fn tidy(syms: Seq<Symbol>, c: Config) -> bool {
    &&& 0 <= c.cursor < syms.len()
    &&& leaf_places_of(c.nodes, c.nodes.len()) == consecutive(0, c.cursor)
}

/// The leaves of the first shapes of a row do not depend on what follows them.
proof fn lemma_leaf_places_prefix(row: Seq<Shape>, m: int, n: nat)
    requires
        n <= m <= row.len(),
    ensures
        leaf_places_of(row, n) == leaf_places_of(row.take(m), n),
    decreases n,
{
    if n > 0 {
        lemma_leaf_places_prefix(row, m, (n - 1) as nat);
        assert(row.take(m)[n - 1] == row[n - 1]);
    }
}

/// The leaves of a row are those of its first shapes followed by those of its last `k`.
proof fn lemma_leaf_places_split(row: Seq<Shape>, k: nat)
    requires
        k <= row.len(),
    ensures
        leaf_places_of(row, row.len()) == leaf_places_of(
            row.take(row.len() - k),
            (row.len() - k) as nat,
        ) + leaf_places_of(row.skip(row.len() - k), k),
    decreases k,
{
    let n = row.len() as int;
    if k == 0 {
        assert(row.take(n) =~= row);
        assert(leaf_places_of(row, row.len()) + Seq::<int>::empty() =~= leaf_places_of(
            row,
            row.len(),
        ));
    } else {
        let shorter = row.drop_last();
        lemma_leaf_places_split(shorter, (k - 1) as nat);
        lemma_leaf_places_prefix(row, n - 1, (n - 1) as nat);
        assert(row.take(n - 1) =~= shorter);
        assert(shorter.take(n - k) =~= row.take(n - k));
        let tail = row.skip(n - k);
        lemma_leaf_places_prefix(tail, k - 1, (k - 1) as nat);
        assert(tail.take(k - 1) =~= shorter.skip(n - k));
        assert(tail[k - 1] == row[n - 1]);
        let a = leaf_places_of(row.take(n - k), (n - k) as nat);
        let b = leaf_places_of(shorter.skip(n - k), (k - 1) as nat);
        let c = leaf_places(row[n - 1]);
        assert((a + b) + c =~= a + (b + c));
    }
}

/// A step keeps the configuration tidy, and the tree that it accepts has as leaves the
/// tokens at consecutive places up to the cursor.
pub proof fn lemma_step_tidy(t: ParseTables, syms: Seq<Symbol>, c: Config)
    requires
        tidy(syms, c),
    ensures
        match step(t, syms, c) {
            Step::Next(c2) => tidy(syms, c2),
            Step::Done(Ok(shape)) => leaf_places(shape) == consecutive(
                c.cursor - leaf_places(shape).len(),
                c.cursor,
            ) && leaf_places(shape).len() <= c.cursor,
            _ => true,
        },
{
    let n = c.nodes.len() as int;
    match step(t, syms, c) {
        Step::Next(c2) => {
            let state = c.states.last();
            let a = syms[c.cursor];
            match t.spec_action(state, a) {
                Some(ActionView::Shift(_)) => {
                    lemma_leaf_places_prefix(c2.nodes, n, n as nat);
                    assert(c2.nodes.take(n) =~= c.nodes);
                    assert(leaf_places(c2.nodes[n]) =~= seq![c.cursor]);
                    assert(consecutive(0, c.cursor) + seq![c.cursor] =~= consecutive(
                        0,
                        c.cursor + 1,
                    ));
                },
                Some(ActionView::Reduce(p)) => {
                    let k = effective_len(p.rhs);
                    lemma_leaf_places_split(c.nodes, k);
                    let m = n - k;
                    lemma_leaf_places_prefix(c2.nodes, m, m as nat);
                    assert(c2.nodes.take(m) =~= c.nodes.take(m));
                    assert(c2.nodes[m].children == c.nodes.skip(m));
                    assert(leaf_places(c2.nodes[m]) == leaf_places_of(c.nodes.skip(m), k));
                },
                _ => {},
            }
        },
        Step::Done(Ok(shape)) => {
            let all = leaf_places_of(c.nodes, c.nodes.len());
            let before = leaf_places_of(c.nodes, (n - 1) as nat);
            assert(all == before + leaf_places(shape));
            assert(all.len() == c.cursor);
            assert forall|i: int| 0 <= i < leaf_places(shape).len() implies leaf_places(shape)[i]
                == c.cursor - leaf_places(shape).len() + i by {
                assert(all[before.len() + i] == leaf_places(shape)[i]);
            }
            assert(leaf_places(shape) =~= consecutive(
                c.cursor - leaf_places(shape).len(),
                c.cursor,
            ));
        },
        _ => {},
    }
}

/// A parse that starts tidy and ends with a tree gives a tree whose leaves stand for the
/// tokens at consecutive places, in their order; the parse was accepted at the place after
/// them.
proof fn lemma_run_tidy(t: ParseTables, syms: Seq<Symbol>, c: Config, fuel: nat) -> (r: (
    int,
    int,
    u32,
))
    requires
        tidy(syms, c),
        run(t, syms, c, fuel) is Ok,
    ensures
        0 <= r.0 <= r.1 < syms.len(),
        leaf_places(run(t, syms, c, fuel)->Ok_0) == consecutive(r.0, r.1),
        t.spec_action(r.2, syms[r.1]) == Some(ActionView::Accept),
    decreases fuel,
{
    lemma_step_tidy(t, syms, c);
    match step(t, syms, c) {
        Step::Next(c2) => lemma_run_tidy(t, syms, c2, (fuel - 1) as nat),
        Step::Done(Ok(shape)) => (c.cursor - leaf_places(shape).len(), c.cursor, c.states.last()),
        _ => (0, 0, 0),
    }
}

/// The leaves of a parse tree, read from left to right, stand for the tokens at consecutive
/// places `r.0`, ..., `r.1 - 1` of the input, in their order. The input was accepted at the
/// token at place `r.1`, in the state `r.2`, and that token is no leaf of the tree.
pub proof fn lemma_leaves_in_order(t: ParseTables, syms: Seq<Symbol>) -> (r: (int, int, u32))
    requires
        parse_shape(t, syms) is Ok,
    ensures
        0 <= r.0 <= r.1 < syms.len(),
        leaf_places(parse_shape(t, syms)->Ok_0) == consecutive(r.0, r.1),
        t.spec_action(r.2, syms[r.1]) == Some(ActionView::Accept),
{
    assert(leaf_places_of(initial_config().nodes, 0) =~= consecutive(0, 0));
    lemma_run_tidy(t, syms, initial_config(), STEP_LIMIT as nat)
}

/// With the tables of a grammar an input is accepted at the end of input only: the token
/// after the leaves of the parse tree is the end of input.
pub proof fn lemma_accepted_at_end(g: &Grammar, t: ParseTables, syms: Seq<Symbol>) -> (r: (int, int))
    requires
        t.built_from(g),
        parse_shape(t, syms) is Ok,
    ensures
        0 <= r.0 <= r.1 < syms.len(),
        leaf_places(parse_shape(t, syms)->Ok_0) == consecutive(r.0, r.1),
        syms[r.1] == SymbolDb::spec_eoi(),
{
    let w = lemma_leaves_in_order(t, syms);
    t.lemma_action_from_item(g, w.2, syms[w.1]);
    (w.0, w.1)
}

/// A reduction by an epsilon production takes no subtree.
pub proof fn lemma_epsilon_takes_nothing()
    ensures
        effective_len(seq![SymbolDb::spec_epsilon()]) == 0,
{
    let rhs = seq![SymbolDb::spec_epsilon()];
    reveal(Seq::filter);
    assert(rhs.drop_last() =~= Seq::<Symbol>::empty());
    assert(rhs.drop_last().filter(not_epsilon()).len() == 0);
    assert(!(not_epsilon())(rhs.last()));
}

} // verus!
