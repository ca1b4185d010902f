use lr1_parser::symbol::SymbolDb;

#[test]
fn symbol_db_01() {
    let db = SymbolDb::new();
    db.epsilon();
    db.goal();
    db.eoi();
}

#[test]
fn symbol_db_02() {
    let mut db = SymbolDb::new();
    let s = db.new_nonterminal("foo").unwrap();
    assert!(!db.is_terminal(&s));
}

#[test]
fn symbol_db_03() {
    let mut db = SymbolDb::new();
    let s = db.new_terminal("foo").unwrap();
    assert!(db.is_terminal(&s));
}
