use lr1_parser::errors::{GrammarDefinitionError, ParseError, TableConflictError};
use lr1_parser::first_and_follow::FirstAndFollow;
use lr1_parser::grammar::Grammar;
use lr1_parser::parse_tables::ParseTables;
use lr1_parser::parse_tree::ParseTree;
use lr1_parser::parser::Parser;
use lr1_parser::production::Production;
use lr1_parser::symbol::{Symbol, SymbolDb};

fn leaves(tree: &ParseTree<usize>, db: &SymbolDb, out: &mut Vec<usize>) {
    if db.is_terminal(tree.symbol()) {
        out.push(*tree.token());
    } else {
        for child in tree.children() {
            leaves(child, db, out);
        }
    }
}

fn parse_symbols(p: &Parser, symbols: &Vec<Symbol>) -> Result<ParseTree<usize>, ParseError> {
    let mut input = Vec::new();
    for (i, s) in symbols.iter().enumerate() {
        input.push((i, *s));
    }
    p.parse_classified(input)
}

#[test]
fn balanced_parens_empty_input() {
    let mut db = SymbolDb::new();
    let e = db.new_nonterminal("E").unwrap();
    let lp = db.new_terminal("(").unwrap();
    let rp = db.new_terminal(")").unwrap();
    let eps = db.epsilon();
    let eoi = db.eoi();
    let g = Grammar::new(db, e, vec![Production::new(e, vec![lp, e, rp]), Production::new(e, vec![eps])])
        .unwrap();
    let p = Parser::new(g).unwrap();
    let tree = parse_symbols(&p, &vec![eoi]).unwrap();
    assert_eq!(*tree.symbol(), e);
    assert_eq!(tree.children().len(), 0);
}

#[test]
fn balanced_parens_nested() {
    let mut db = SymbolDb::new();
    let e = db.new_nonterminal("E").unwrap();
    let lp = db.new_terminal("(").unwrap();
    let rp = db.new_terminal(")").unwrap();
    let eps = db.epsilon();
    let eoi = db.eoi();
    let g = Grammar::new(db, e, vec![Production::new(e, vec![lp, e, rp]), Production::new(e, vec![eps])])
        .unwrap();
    let p = Parser::new(g).unwrap();
    let tree = parse_symbols(&p, &vec![lp, lp, rp, rp, eoi]).unwrap();
    assert_eq!(*tree.symbol(), e);
    assert_eq!(tree.children().len(), 3);
    assert_eq!(*tree.children()[0].symbol(), lp);
    assert_eq!(*tree.children()[0].token(), 0);
    assert_eq!(*tree.children()[2].symbol(), rp);
    assert_eq!(*tree.children()[2].token(), 3);
    let inner = &tree.children()[1];
    assert_eq!(*inner.symbol(), e);
    assert_eq!(inner.children().len(), 3);
    assert_eq!(*inner.children()[0].token(), 1);
    assert_eq!(*inner.children()[2].token(), 2);
    let innermost = &inner.children()[1];
    assert_eq!(*innermost.symbol(), e);
    assert_eq!(innermost.children().len(), 0);
    let mut out = Vec::new();
    leaves(&tree, p.grammar().symbol_db(), &mut out);
    assert_eq!(out, vec![0, 1, 2, 3]);
}

#[test]
fn balanced_parens_rejects_unbalanced() {
    let mut db = SymbolDb::new();
    let e = db.new_nonterminal("E").unwrap();
    let lp = db.new_terminal("(").unwrap();
    let rp = db.new_terminal(")").unwrap();
    let eps = db.epsilon();
    let eoi = db.eoi();
    let g = Grammar::new(db, e, vec![Production::new(e, vec![lp, e, rp]), Production::new(e, vec![eps])])
        .unwrap();
    let p = Parser::new(g).unwrap();
    match parse_symbols(&p, &vec![lp, rp, rp, eoi]) {
        Err(ParseError::UnexpectedToken { state: _, symbol }) => assert_eq!(symbol, rp),
        other => panic!("unexpected result {:?}", other.is_ok()),
    }
}

#[test]
fn list_of_atoms_accepts() {
    let mut db = SymbolDb::new();
    let e1 = db.new_nonterminal("E1").unwrap();
    let e2 = db.new_nonterminal("E2").unwrap();
    let e3 = db.new_nonterminal("E3").unwrap();
    let lp = db.new_terminal("(").unwrap();
    let rp = db.new_terminal(")").unwrap();
    let id = db.new_terminal("id").unwrap();
    let eps = db.epsilon();
    let eoi = db.eoi();
    let productions = vec![
        Production::new(e1, vec![id]),
        Production::new(e1, vec![e2]),
        Production::new(e2, vec![lp, e3, rp]),
        Production::new(e3, vec![e1, e3]),
        Production::new(e3, vec![eps]),
    ];
    let g = Grammar::new(db, e1, productions).unwrap();
    let p = Parser::new(g).unwrap();
    let inputs = vec![
        vec![id, eoi],
        vec![lp, id, rp, eoi],
        vec![lp, id, id, rp, eoi],
        vec![lp, id, lp, id, rp, rp, eoi],
    ];
    for input in &inputs {
        let tree = parse_symbols(&p, input).unwrap();
        assert_eq!(*tree.symbol(), e1);
        let mut out = Vec::new();
        leaves(&tree, p.grammar().symbol_db(), &mut out);
        let expected: Vec<usize> = (0..input.len() - 1).collect();
        assert_eq!(out, expected);
    }
}

#[test]
fn parentheses_and_pairs() {
    let mut db = SymbolDb::new();
    let list = db.new_nonterminal("List").unwrap();
    let pair = db.new_nonterminal("Pair").unwrap();
    let lp = db.new_terminal("(").unwrap();
    let rp = db.new_terminal(")").unwrap();
    let eoi = db.eoi();
    let productions = vec![
        Production::new(list, vec![list, pair]),
        Production::new(list, vec![pair]),
        Production::new(pair, vec![lp, pair, rp]),
        Production::new(pair, vec![lp, rp]),
    ];
    let g = Grammar::new(db, list, productions).unwrap();
    let p = Parser::new(g).unwrap();
    let tree = parse_symbols(&p, &vec![lp, rp, lp, lp, rp, rp, eoi]).unwrap();
    assert_eq!(*tree.symbol(), list);
    assert_eq!(tree.children().len(), 2);
    let first = &tree.children()[0];
    assert_eq!(*first.symbol(), list);
    assert_eq!(first.children().len(), 1);
    assert_eq!(*first.children()[0].symbol(), pair);
    assert_eq!(first.children()[0].children().len(), 2);
    let second = &tree.children()[1];
    assert_eq!(*second.symbol(), pair);
    assert_eq!(second.children().len(), 3);
    assert_eq!(*second.children()[1].symbol(), pair);
    let mut out = Vec::new();
    leaves(&tree, p.grammar().symbol_db(), &mut out);
    assert_eq!(out, vec![0, 1, 2, 3, 4, 5]);
}

#[test]
fn arithmetic_expressions() {
    let mut db = SymbolDb::new();
    let e = db.new_nonterminal("E").unwrap();
    let t = db.new_nonterminal("T").unwrap();
    let f = db.new_nonterminal("F").unwrap();
    let plus = db.new_terminal("+").unwrap();
    let minus = db.new_terminal("-").unwrap();
    let times = db.new_terminal("*").unwrap();
    let div = db.new_terminal("/").unwrap();
    let lp = db.new_terminal("(").unwrap();
    let rp = db.new_terminal(")").unwrap();
    let num = db.new_terminal("num").unwrap();
    let name = db.new_terminal("name").unwrap();
    let eoi = db.eoi();
    let productions = vec![
        Production::new(e, vec![e, plus, t]),
        Production::new(e, vec![e, minus, t]),
        Production::new(e, vec![t]),
        Production::new(t, vec![t, times, f]),
        Production::new(t, vec![t, div, f]),
        Production::new(t, vec![f]),
        Production::new(f, vec![lp, e, rp]),
        Production::new(f, vec![num]),
        Production::new(f, vec![name]),
    ];
    let g = Grammar::new(db, e, productions).unwrap();
    let p = Parser::new(g).unwrap();
    assert_eq!(p.parse_tables().diagnostics().len(), 0);
    let tree = parse_symbols(&p, &vec![num, plus, num, times, name, eoi]).unwrap();
    assert_eq!(*tree.symbol(), e);
    assert_eq!(tree.children().len(), 3);
    assert_eq!(*tree.children()[0].symbol(), e);
    assert_eq!(*tree.children()[1].symbol(), plus);
    assert_eq!(*tree.children()[1].token(), 1);
    let right = &tree.children()[2];
    assert_eq!(*right.symbol(), t);
    assert_eq!(right.children().len(), 3);
    assert_eq!(*right.children()[0].symbol(), t);
    assert_eq!(*right.children()[1].symbol(), times);
    assert_eq!(*right.children()[1].token(), 3);
    assert_eq!(*right.children()[2].symbol(), f);
    assert_eq!(*right.children()[2].children()[0].symbol(), name);
    let left = &tree.children()[0];
    assert_eq!(left.children().len(), 1);
    assert_eq!(*left.children()[0].symbol(), t);
    let mut out = Vec::new();
    leaves(&tree, p.grammar().symbol_db(), &mut out);
    assert_eq!(out, vec![0, 1, 2, 3, 4]);
}

#[test]
fn dangling_else_prefers_shift() {
    let mut db = SymbolDb::new();
    let stmt = db.new_nonterminal("stmt").unwrap();
    let if_then = db.new_terminal("if").unwrap();
    let els = db.new_terminal("else").unwrap();
    let atom = db.new_terminal("atom").unwrap();
    let eoi = db.eoi();
    let productions = vec![
        Production::new(stmt, vec![if_then, stmt]),
        Production::new(stmt, vec![if_then, stmt, els, stmt]),
        Production::new(stmt, vec![atom]),
    ];
    let g = Grammar::new(db, stmt, productions).unwrap();
    let p = Parser::new(g).unwrap();
    let noted = p.parse_tables().diagnostics();
    assert_eq!(noted.len(), 1);
    assert_eq!(noted[0].symbol, els);
    let tree = parse_symbols(&p, &vec![if_then, if_then, atom, els, atom, eoi]).unwrap();
    assert_eq!(*tree.symbol(), stmt);
    assert_eq!(tree.children().len(), 2);
    let inner = &tree.children()[1];
    assert_eq!(*inner.symbol(), stmt);
    assert_eq!(inner.children().len(), 4);
    assert_eq!(*inner.children()[2].symbol(), els);
}

#[test]
fn reduce_reduce_conflict_is_rejected() {
    let mut db = SymbolDb::new();
    let s = db.new_nonterminal("S").unwrap();
    let a = db.new_nonterminal("A").unwrap();
    let b = db.new_nonterminal("B").unwrap();
    let x = db.new_terminal("x").unwrap();
    let eoi = db.eoi();
    let productions = vec![
        Production::new(s, vec![a]),
        Production::new(s, vec![b]),
        Production::new(a, vec![x]),
        Production::new(b, vec![x]),
    ];
    let g = Grammar::new(db, s, productions).unwrap();
    match ParseTables::new(&g) {
        Err(TableConflictError::ReduceReduce { state: _, symbol }) => assert_eq!(symbol, eoi),
        Err(e) => panic!("unexpected error {:?}", e),
        Ok(_) => panic!("the grammar was accepted"),
    }
    assert!(Parser::new(g).is_err());
}

#[test]
fn accept_conflict_is_rejected() {
    let mut db = SymbolDb::new();
    let s = db.new_nonterminal("S").unwrap();
    let x = db.new_terminal("x").unwrap();
    let eoi = db.eoi();
    let productions = vec![Production::new(s, vec![s]), Production::new(s, vec![x])];
    let g = Grammar::new(db, s, productions).unwrap();
    match ParseTables::new(&g) {
        Err(TableConflictError::AcceptConflict { state: _, symbol }) => assert_eq!(symbol, eoi),
        Err(e) => panic!("unexpected error {:?}", e),
        Ok(_) => panic!("the grammar was accepted"),
    }
}

#[test]
fn duplicate_label_is_rejected() {
    let mut db = SymbolDb::new();
    let a = db.new_terminal("a").unwrap();
    assert_eq!(db.new_terminal("a"), Err(GrammarDefinitionError::DuplicateLabel));
    assert_eq!(db.new_nonterminal("a"), Err(GrammarDefinitionError::DuplicateLabel));
    assert_eq!(db.new_nonterminal("GOAL"), Err(GrammarDefinitionError::DuplicateLabel));
    assert_eq!(db.new_terminal("$"), Err(GrammarDefinitionError::DuplicateLabel));
    assert_eq!(db.new_terminal("ε"), Err(GrammarDefinitionError::DuplicateLabel));
    let b = db.new_terminal("b").unwrap();
    assert_ne!(a, b);
    assert_eq!(db.label(&a).unwrap(), "a");
    assert_eq!(db.label(&b).unwrap(), "b");
    assert_eq!(db.label(&db.goal()).unwrap(), "GOAL");
    assert_eq!(db.label(&db.eoi()).unwrap(), "$");
    assert_eq!(db.label(&db.epsilon()).unwrap(), "ε");
}

#[test]
fn unregistered_symbol_is_rejected() {
    let mut other = SymbolDb::new();
    other.new_terminal("p").unwrap();
    other.new_terminal("q").unwrap();
    let stranger = other.new_terminal("r").unwrap();
    let mut db = SymbolDb::new();
    let s = db.new_nonterminal("S").unwrap();
    let a = db.new_terminal("a").unwrap();
    let r = Grammar::new(db, s, vec![Production::new(s, vec![a, stranger])]);
    assert_eq!(r.err(), Some(GrammarDefinitionError::UnregisteredSymbol(stranger)));
    let mut db = SymbolDb::new();
    db.new_nonterminal("S").unwrap();
    let r = Grammar::new(db, stranger, vec![]);
    assert_eq!(r.err(), Some(GrammarDefinitionError::UnregisteredSymbol(stranger)));
}

#[test]
fn symbol_kinds_are_disjoint() {
    let mut db = SymbolDb::new();
    let s = db.new_nonterminal("S").unwrap();
    let a = db.new_terminal("a").unwrap();
    let terminals = db.terminals();
    let nonterminals = db.non_terminals();
    assert_eq!(terminals, vec![db.eoi(), db.epsilon(), a]);
    assert_eq!(nonterminals, vec![db.goal(), s]);
    for t in &terminals {
        assert!(db.is_terminal(t));
        assert!(!nonterminals.contains(t));
    }
}

#[test]
fn input_without_end_marker_ends_early() {
    let mut db = SymbolDb::new();
    let s = db.new_nonterminal("S").unwrap();
    let a = db.new_terminal("a").unwrap();
    let g = Grammar::new(db, s, vec![Production::new(s, vec![a])]).unwrap();
    let p = Parser::new(g).unwrap();
    assert_eq!(parse_symbols(&p, &vec![a]).err(), Some(ParseError::UnexpectedEndOfInput));
    assert_eq!(parse_symbols(&p, &vec![]).err(), Some(ParseError::UnexpectedEndOfInput));
    let eoi = p.grammar().symbol_db().eoi();
    assert_eq!(
        parse_symbols(&p, &vec![eoi]).err(),
        Some(ParseError::UnexpectedToken { state: 0, symbol: eoi })
    );
    assert!(parse_symbols(&p, &vec![a, eoi]).is_ok());
    assert!(parse_symbols(&p, &vec![a, eoi, a]).is_ok());
}

#[test]
fn first_of_terminal_is_itself() {
    let mut db = SymbolDb::new();
    let s = db.new_nonterminal("S").unwrap();
    let x = db.new_nonterminal("X").unwrap();
    let a = db.new_terminal("a").unwrap();
    let eps = db.epsilon();
    let eoi = db.eoi();
    let goal = db.goal();
    let productions =
        vec![Production::new(s, vec![x, a]), Production::new(x, vec![eps]), Production::new(x, vec![a])];
    let g = Grammar::new(db, s, productions).unwrap();
    let ff = FirstAndFollow::new(&g);
    for t in g.terminals() {
        let first = ff.first(&t).unwrap();
        assert_eq!(first.len(), 1);
        assert!(first.contains(&t));
        assert!(ff.follow(&t).is_none());
    }
    assert!(ff.first(&x).unwrap().contains(&eps));
    assert!(!ff.first(&s).unwrap().contains(&eps));
    assert!(ff.follow(&goal).unwrap().contains(&eoi));
    for n in g.nonterminals() {
        assert!(!ff.follow(&n).unwrap().contains(&eps));
    }
    assert_eq!(ff.follow(&x).unwrap().members(), vec![a]);
    assert_eq!(ff.follow(&s).unwrap().members(), vec![eoi]);
}

#[test]
fn building_twice_gives_equal_tables() {
    let mut db = SymbolDb::new();
    let list = db.new_nonterminal("List").unwrap();
    let pair = db.new_nonterminal("Pair").unwrap();
    let lp = db.new_terminal("(").unwrap();
    let rp = db.new_terminal(")").unwrap();
    let productions = vec![
        Production::new(list, vec![list, pair]),
        Production::new(list, vec![pair]),
        Production::new(pair, vec![lp, pair, rp]),
        Production::new(pair, vec![lp, rp]),
    ];
    let g = Grammar::new(db, list, productions).unwrap();
    let t1 = ParseTables::new(&g).unwrap();
    let t2 = ParseTables::new(&g).unwrap();
    assert_eq!(t1.states(), t2.states());
    let mut symbols = g.terminals();
    symbols.extend(g.nonterminals());
    let mut filled = 0;
    for state in 0..t1.states() as u32 {
        for x in &symbols {
            assert_eq!(t1.action(state, *x), t2.action(state, *x));
            assert_eq!(t1.transition(state, *x), t2.transition(state, *x));
            if t1.action(state, *x).is_some() {
                filled += 1;
            }
        }
    }
    assert!(filled > 0);
}

#[test]
fn parsing_twice_gives_equal_trees() {
    let mut db = SymbolDb::new();
    let e = db.new_nonterminal("E").unwrap();
    let lp = db.new_terminal("(").unwrap();
    let rp = db.new_terminal(")").unwrap();
    let eps = db.epsilon();
    let eoi = db.eoi();
    let g = Grammar::new(db, e, vec![Production::new(e, vec![lp, e, rp]), Production::new(e, vec![eps])])
        .unwrap();
    let p = Parser::new(g).unwrap();
    let input = vec![lp, lp, rp, rp, eoi];
    let t1 = parse_symbols(&p, &input).unwrap();
    let t2 = parse_symbols(&p, &input).unwrap();
    assert_eq!(format!("{:?}", t1), format!("{:?}", t2));
}

#[test]
fn epsilon_after_a_nonterminal_enters_follow() {
    let mut db = SymbolDb::new();
    let s = db.new_nonterminal("S").unwrap();
    let x = db.new_nonterminal("X").unwrap();
    let a = db.new_terminal("a").unwrap();
    let eps = db.epsilon();
    let g = Grammar::new(db, s, vec![Production::new(s, vec![x, eps]), Production::new(x, vec![a])])
        .unwrap();
    let ff = FirstAndFollow::new(&g);
    assert!(ff.follow(&x).unwrap().contains(&eps));
    assert!(!ff.follow(&s).unwrap().contains(&eps));
}

#[test]
fn epsilon_inside_a_right_hand_side_underflows() {
    let mut db = SymbolDb::new();
    let s = db.new_nonterminal("S").unwrap();
    let a = db.new_terminal("a").unwrap();
    let b = db.new_terminal("b").unwrap();
    let eps = db.epsilon();
    let eoi = db.eoi();
    let g = Grammar::new(db, s, vec![Production::new(s, vec![a, eps, b])]).unwrap();
    let p = Parser::new(g).unwrap();
    assert_eq!(parse_symbols(&p, &vec![a, eoi]).err(), Some(ParseError::StackUnderflow));
}

#[test]
fn epsilon_before_a_symbol_misses_goto() {
    let mut db = SymbolDb::new();
    let s = db.new_nonterminal("S").unwrap();
    let x = db.new_nonterminal("X").unwrap();
    let a = db.new_terminal("a").unwrap();
    let b = db.new_terminal("b").unwrap();
    let eps = db.epsilon();
    let eoi = db.eoi();
    let g = Grammar::new(db, s, vec![Production::new(s, vec![a, x]), Production::new(x, vec![eps, b])])
        .unwrap();
    let p = Parser::new(g).unwrap();
    assert_eq!(
        parse_symbols(&p, &vec![a, eoi]).err(),
        Some(ParseError::MissingGoto { state: 0, nonterminal: x })
    );
}
