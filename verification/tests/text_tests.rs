use lr1_parser::action::Action;
use lr1_parser::grammar::Grammar;
use lr1_parser::lr1_item::LR1Item;
use lr1_parser::parse_tables::ParseTables;
use lr1_parser::production::Production;
use lr1_parser::symbol::SymbolDb;
use lr1_parser::text::decimal;

#[test]
fn decimal_digits() {
    assert_eq!(decimal(0), "0");
    assert_eq!(decimal(7), "7");
    assert_eq!(decimal(10), "10");
    assert_eq!(decimal(4096), "4096");
    assert_eq!(decimal(1234567890), "1234567890");
}

#[test]
fn production_as_text() {
    let mut db = SymbolDb::new();
    let s = db.new_nonterminal("S").unwrap();
    let a = db.new_terminal("a").unwrap();
    let b = db.new_terminal("b").unwrap();
    assert_eq!(Production::new(s, vec![a, s, b]).to_string(&db), "S -> a  S  b");
    assert_eq!(Production::new(s, vec![a]).to_string(&db), "S -> a");
    assert_eq!(Production::new(s, vec![]).to_string(&db), "S -> ");
    assert_eq!(Production::new(s, vec![db.epsilon()]).to_string(&db), "S -> ε");
}

#[test]
fn action_as_text() {
    let mut db = SymbolDb::new();
    let s = db.new_nonterminal("S").unwrap();
    let a = db.new_terminal("a").unwrap();
    assert_eq!(Action::accept().to_string(&db), "Accept");
    assert_eq!(Action::shift(12).to_string(&db), "Shift(12)");
    assert_eq!(Action::reduce(Production::new(s, vec![a, a])).to_string(&db), "Reduce(S -> a  a)");
    assert_eq!(Action::accept(), Action::Accept);
    assert_eq!(Action::shift(3), Action::Shift(3));
}

#[test]
fn item_as_text() {
    let mut db = SymbolDb::new();
    let s = db.new_nonterminal("S").unwrap();
    let a = db.new_terminal("a").unwrap();
    let item = LR1Item::new(Production::new(s, vec![a, s]), 1, db.eoi());
    assert_eq!(item.to_string(&db), "[LR1Item S -> a  S, 1, $]");
    assert_eq!(item.dot_position(), 1);
    assert_eq!(*item.lookahead(), db.eoi());
    assert_eq!(*item.production().lhs(), s);
    assert_eq!(*item.production().rhs(), vec![a, s]);
}

#[test]
fn grammar_as_text() {
    let mut db = SymbolDb::new();
    let s = db.new_nonterminal("S").unwrap();
    let x = db.new_nonterminal("X").unwrap();
    let a = db.new_terminal("a").unwrap();
    let g = Grammar::new(
        db,
        s,
        vec![Production::new(x, vec![a]), Production::new(s, vec![x, a]), Production::new(s, vec![a])],
    )
        .unwrap();
    assert_eq!(
        g.to_string(),
        "grammar:\n  start symbol = S\n  productions =\n    GOAL -> S  $\n    S -> X  a\n    S -> a\n    X -> a\n"
    );
    assert_eq!(*g.start_symbol(), s);
    assert_eq!(g.productions(&s).unwrap().len(), 2);
    assert_eq!(*g.productions(&s).unwrap()[0].rhs(), vec![x, a]);
    assert_eq!(g.productions(&g.symbol_db().goal()).unwrap().len(), 1);
    assert_eq!(*g.productions(&g.symbol_db().goal()).unwrap()[0].rhs(), vec![s, g.symbol_db().eoi()]);
    assert!(g.productions(&a).is_none());
}

#[test]
fn tables_as_text() {
    let mut db = SymbolDb::new();
    let s = db.new_nonterminal("S").unwrap();
    let a = db.new_terminal("a").unwrap();
    let g = Grammar::new(db, s, vec![Production::new(s, vec![a])]).unwrap();
    let t = ParseTables::new(&g).unwrap();
    assert_eq!(
        t.to_string(g.symbol_db()),
        "actions\n    (0, a) -> Shift(2)\n    (1, $) -> Accept\n    (2, $) -> Reduce(S -> a)\ngoto\n    (0, S) -> 1\n"
    );
    assert_eq!(t.states(), 3);
    assert_eq!(t.action(0, a), Some(&Action::Shift(2)));
    assert_eq!(t.action(1, g.symbol_db().eoi()), Some(&Action::Accept));
    assert_eq!(t.action(1, a), None);
    assert_eq!(t.transition(0, s), Some(&1));
    assert_eq!(t.transition(1, s), None);
    assert_eq!(t.transition(7, s), None);
}
