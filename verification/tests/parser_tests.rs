use lr1_parser::grammar::Grammar;
use lr1_parser::parser::Parser;
use lr1_parser::production::Production;
use lr1_parser::symbol::SymbolDb;

#[derive(Clone,Debug)]
enum Token {
    ParenLeft,
    ParenRight,
    Identifier,
    EndOfFile,
}

#[test]
fn test01() {
    let mut symbol_db = SymbolDb::new();
    /* grammar:
     *   e1 -> ( e1 ) | ε
     */
    let e1 = symbol_db.new_nonterminal("E1").unwrap();
    let lp = symbol_db.new_terminal("(").unwrap();
    let rp = symbol_db.new_terminal(")").unwrap();
    let epsilon = symbol_db.epsilon();
    let eoi = symbol_db.eoi();
    let productions = vec![
        Production::new(e1, vec![lp, e1, rp]),
        Production::new(e1, vec![epsilon])
    ];
    let g = Grammar::new(symbol_db, e1, productions).unwrap();
    let ttos = |token: &Token| {
        match token {
            Token::ParenLeft => lp.clone(),
            Token::ParenRight => rp.clone(),
            Token::EndOfFile => eoi,
            _ => eoi,
        }
    };
    let p = Parser::new(g).unwrap();
    assert!(p.parse(vec![Token::ParenLeft, Token::ParenLeft, Token::ParenRight, Token::ParenRight, Token::EndOfFile], ttos).is_ok());
}

#[test]
fn test02() {
    let mut symbol_db = SymbolDb::new();
    /* grammar:
     *   e1 -> id | e2
     *   e2 -> ( e3 )
     *   e3 -> e1 e3 | ε
     */
    let e1 = symbol_db.new_nonterminal("E1").unwrap();
    let e2 = symbol_db.new_nonterminal("E2").unwrap();
    let e3 = symbol_db.new_nonterminal("E3").unwrap();
    let lp = symbol_db.new_terminal("(").unwrap();
    let rp = symbol_db.new_terminal(")").unwrap();
    let id = symbol_db.new_terminal("id").unwrap();
    let epsilon = symbol_db.epsilon();
    let eoi = symbol_db.eoi();
    let productions = vec![
        Production::new(e1.clone(), vec![id]),
        Production::new(e1.clone(), vec![e2]),
        Production::new(e2.clone(), vec![lp, e3, rp]),
        Production::new(e3.clone(), vec![e1, e3]),
        Production::new(e3.clone(), vec![epsilon]),
    ];
    let g = Grammar::new(symbol_db, e1, productions).unwrap();

    let ttos = |token: &Token| {
        match token {
            Token::ParenLeft => lp.clone(),
            Token::ParenRight => rp.clone(),
            Token::Identifier => id.clone(),
            Token::EndOfFile => eoi.clone(),
        }
    };

    let p = Parser::new(g).unwrap();


    assert!(p.parse(vec![Token::Identifier, Token::EndOfFile], ttos).is_ok());
    assert!(p.parse(vec![Token::ParenLeft, Token::Identifier, Token::ParenRight, Token::EndOfFile], ttos).is_ok());
    assert!(p.parse(vec![Token::ParenLeft, Token::Identifier, Token::Identifier, Token::ParenRight, Token::EndOfFile], ttos).is_ok());
    assert!(p.parse(vec![Token::ParenLeft, Token::Identifier, Token::ParenLeft, Token::Identifier, Token::ParenRight, Token::ParenRight, Token::EndOfFile], ttos).is_ok());
}
