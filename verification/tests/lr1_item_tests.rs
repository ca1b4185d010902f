use lr1_parser::lr1_item::LR1Item;
use lr1_parser::production::Production;
use lr1_parser::symbol::SymbolDb;

#[test]
fn is_target_01() {
    let mut symbol_db = SymbolDb::new();
    let a = symbol_db.new_terminal("a").unwrap();
    let p = Production::new(symbol_db.goal(), vec![a]);
    let item = LR1Item::new(p, 0, symbol_db.eoi());
    assert!(item.is_target(&symbol_db));
}

#[test]
fn is_target_02() {
    let mut symbol_db = SymbolDb::new();
    let s = symbol_db.new_nonterminal("s").unwrap();
    let a = symbol_db.new_terminal("a").unwrap();
    let p = Production::new(s, vec![a]);
    let item = LR1Item::new(p, 0, symbol_db.eoi());
    assert!(!item.is_target(&symbol_db));
}

#[test]
fn is_target_03() {
    let mut symbol_db = SymbolDb::new();
    let a = symbol_db.new_terminal("a").unwrap();
    let b = symbol_db.new_terminal("b").unwrap();
    let p = Production::new(symbol_db.goal(), vec![a]);
    let item = LR1Item::new(p, 0, b);
    assert!(!item.is_target(&symbol_db));
}

#[test]
fn symbols_after_dot_01() {
    let mut symbol_db = SymbolDb::new();
    let s = symbol_db.new_nonterminal("s").unwrap();
    let a = symbol_db.new_terminal("a").unwrap();
    let b = symbol_db.new_terminal("b").unwrap();
    let c = symbol_db.new_terminal("c").unwrap();
    let d = symbol_db.new_terminal("d").unwrap();
    let e = symbol_db.new_terminal("e").unwrap();
    let p = Production::new(s, vec![a, b, c, d, e]);
    let item = LR1Item::new(p, 0, e);
    let result = item.symbols_after_dot();
    assert_eq!(result, vec![a, b, c, d, e]);
}

#[test]
fn symbols_after_dot_02() {
    let mut symbol_db = SymbolDb::new();
    let s = symbol_db.new_nonterminal("s").unwrap();
    let a = symbol_db.new_terminal("a").unwrap();
    let b = symbol_db.new_terminal("b").unwrap();
    let c = symbol_db.new_terminal("c").unwrap();
    let d = symbol_db.new_terminal("d").unwrap();
    let e = symbol_db.new_terminal("e").unwrap();
    let p = Production::new(s, vec![a, b, c, d, e]);
    let item = LR1Item::new(p, 1, e);
    let result = item.symbols_after_dot();
    assert_eq!(result, vec![b, c, d, e]);
}

#[test]
fn symbols_after_dot_03() {
    let mut symbol_db = SymbolDb::new();
    let s = symbol_db.new_nonterminal("s").unwrap();
    let a = symbol_db.new_terminal("a").unwrap();
    let b = symbol_db.new_terminal("b").unwrap();
    let c = symbol_db.new_terminal("c").unwrap();
    let d = symbol_db.new_terminal("d").unwrap();
    let e = symbol_db.new_terminal("e").unwrap();
    let p = Production::new(s, vec![a, b, c, d, e]);
    let item = LR1Item::new(p, 2, e);
    let result = item.symbols_after_dot();
    assert_eq!(result, vec![c, d, e]);
}

#[test]
fn symbols_after_dot_04() {
    let mut symbol_db = SymbolDb::new();
    let s = symbol_db.new_nonterminal("s").unwrap();
    let a = symbol_db.new_terminal("a").unwrap();
    let b = symbol_db.new_terminal("b").unwrap();
    let c = symbol_db.new_terminal("c").unwrap();
    let d = symbol_db.new_terminal("d").unwrap();
    let e = symbol_db.new_terminal("e").unwrap();
    let p = Production::new(s, vec![a, b, c, d, e]);
    let item = LR1Item::new(p, 3, e);
    let result = item.symbols_after_dot();
    assert_eq!(result, vec![d, e]);
}

#[test]
fn symbols_after_dot_05() {
    let mut symbol_db = SymbolDb::new();
    let s = symbol_db.new_nonterminal("s").unwrap();
    let a = symbol_db.new_terminal("a").unwrap();
    let b = symbol_db.new_terminal("b").unwrap();
    let c = symbol_db.new_terminal("c").unwrap();
    let d = symbol_db.new_terminal("d").unwrap();
    let e = symbol_db.new_terminal("e").unwrap();
    let p = Production::new(s, vec![a, b, c, d, e]);
    let item = LR1Item::new(p, 4, e);
    let result = item.symbols_after_dot();
    assert_eq!(result, vec![e]);
}

#[test]
fn symbols_after_dot_06() {
    let mut symbol_db = SymbolDb::new();
    let s = symbol_db.new_nonterminal("s").unwrap();
    let a = symbol_db.new_terminal("a").unwrap();
    let b = symbol_db.new_terminal("b").unwrap();
    let c = symbol_db.new_terminal("c").unwrap();
    let d = symbol_db.new_terminal("d").unwrap();
    let e = symbol_db.new_terminal("e").unwrap();
    let p = Production::new(s, vec![a, b, c, d, e]);
    let item = LR1Item::new(p, 5, e);
    let result = item.symbols_after_dot();
    assert_eq!(result, vec![]);
}
