use lr1_parser::first_and_follow::FirstAndFollow;
use lr1_parser::grammar::Grammar;
use lr1_parser::production::Production;
use lr1_parser::symbol::SymbolDb;

/* grammar:
 *   S - a
 */
#[test]
fn first_01() {
    let mut symbol_db = SymbolDb::new();
    let s = symbol_db.new_nonterminal("S").unwrap();
    let a = symbol_db.new_terminal("a").unwrap();
    let p1 = Production::new(s, vec![a]);
    let g = Grammar::new(symbol_db, s, vec![p1]).unwrap();
    let ff = FirstAndFollow::new(&g);
    let first_s = ff.first(&s).unwrap();
    assert_eq!(first_s.len(), 1);
    assert!(first_s.contains(&a));
}

/* grammar:
 *   S -> S a | a
 */
#[test]
fn first_02() {
    let mut symbol_db = SymbolDb::new();
    let s = symbol_db.new_nonterminal("S").unwrap();
    let a = symbol_db.new_terminal("a").unwrap();
    let p1 = Production::new(s, vec![s, a]);
    let p2 = Production::new(s, vec![a]);
    let g = Grammar::new(symbol_db, s, vec![p1, p2]).unwrap();
    let ff = FirstAndFollow::new(&g);
    let first_s = ff.first(&s).unwrap();
    assert_eq!(first_s.len(), 1);
    assert!(first_s.contains(&a));
}

/* grammar:
 *   S -> S a | a b
 */
#[test]
fn first_03() {
    let mut symbol_db = SymbolDb::new();
    let s = symbol_db.new_nonterminal("S").unwrap();
    let a = symbol_db.new_terminal("a").unwrap();
    let b = symbol_db.new_terminal("b").unwrap();
    let p1 = Production::new(s, vec![s, a]);
    let p2 = Production::new(s, vec![a, b]);
    let g = Grammar::new(symbol_db, s, vec![p1, p2]).unwrap();
    let ff = FirstAndFollow::new(&g);
    let first_s = ff.first(&s).unwrap();
    assert_eq!(first_s.len(), 1);
    assert!(first_s.contains(&a));
}

/* grammar:
 *   S -> X
 *   X -> a b
 */
#[test]
fn first_04() {
    let mut symbol_db = SymbolDb::new();
    let s = symbol_db.new_nonterminal("S").unwrap();
    let x = symbol_db.new_nonterminal("X").unwrap();
    let a = symbol_db.new_terminal("a").unwrap();
    let b = symbol_db.new_terminal("b").unwrap();
    let p1 = Production::new(s, vec![x]);
    let p2 = Production::new(x, vec![a, b]);
    let g = Grammar::new(symbol_db, s, vec![p1, p2]).unwrap();
    let ff = FirstAndFollow::new(&g);
    let first_s = ff.first(&s).unwrap();
    assert_eq!(first_s.len(), 1);
    assert!(first_s.contains(&a));
    let first_x = ff.first(&x).unwrap();
    assert_eq!(first_x.len(), 1);
    assert!(first_x.contains(&a));
}

/* grammar:
 *   S -> X b
 *   X -> a | ε
 */
#[test]
fn first_05() {
    let mut symbol_db = SymbolDb::new();
    let s = symbol_db.new_nonterminal("S").unwrap();
    let x = symbol_db.new_nonterminal("X").unwrap();
    let a = symbol_db.new_terminal("a").unwrap();
    let b = symbol_db.new_terminal("b").unwrap();
    let p1 = Production::new(s, vec![x, b]);
    let p2 = Production::new(x, vec![a]);
    let p3 = Production::new(x, vec![symbol_db.epsilon()]);
    let g = Grammar::new(symbol_db, s, vec![p1, p2, p3]).unwrap();
    let ff = FirstAndFollow::new(&g);
    let first_s = ff.first(&s).unwrap();
    assert_eq!(first_s.len(), 2);
    assert!(first_s.contains(&a));
    assert!(first_s.contains(&b));
    let first_x = ff.first(&x).unwrap();
    assert_eq!(first_x.len(), 2);
    assert!(first_x.contains(&a));
    assert!(first_x.contains(&g.symbol_db().epsilon()));
}

/* grammar:
 *   S -> X Y
 *   X -> a | ε
 *   Y -> S | b
 */
#[test]
fn first_06() {
    let mut symbol_db = SymbolDb::new();
    let s = symbol_db.new_nonterminal("S").unwrap();
    let x = symbol_db.new_nonterminal("X").unwrap();
    let y = symbol_db.new_nonterminal("Y").unwrap();
    let a = symbol_db.new_terminal("a").unwrap();
    let b = symbol_db.new_terminal("b").unwrap();
    let p1 = Production::new(s, vec![x, y]);
    let p2 = Production::new(x, vec![a]);
    let p3 = Production::new(x, vec![symbol_db.epsilon()]);
    let p4 = Production::new(y, vec![s]);
    let p5 = Production::new(y, vec![b]);
    let g = Grammar::new(symbol_db, s, vec![p1, p2, p3, p4, p5]).unwrap();
    let ff = FirstAndFollow::new(&g);
    let first_s = ff.first(&s).unwrap();
    assert_eq!(first_s.len(), 2);
    assert!(first_s.contains(&a));
    assert!(first_s.contains(&b));
    let first_x = ff.first(&x).unwrap();
    assert_eq!(first_x.len(), 2);
    assert!(first_x.contains(&a));
    assert!(first_x.contains(&g.symbol_db().epsilon()));
    let first_y = ff.first(&y).unwrap();
    assert_eq!(first_y.len(), 2);
    assert!(first_y.contains(&a));
    assert!(first_y.contains(&b));
}

/* grammar:
 *   expr -> expr + term | expr - term | term
 *   term -> term * factor | term / factor | factor
 *   factor -> ( expr ) | num | name
 */
#[test]
fn first_07() {
    let mut symbol_db = SymbolDb::new();
    let expr = symbol_db.new_nonterminal("expr").unwrap();
    let term = symbol_db.new_nonterminal("term").unwrap();
    let factor = symbol_db.new_nonterminal("factor").unwrap();
    let plus = symbol_db.new_terminal("+").unwrap();
    let minus = symbol_db.new_terminal("-").unwrap();
    let mult = symbol_db.new_terminal("*").unwrap();
    let div = symbol_db.new_terminal("/").unwrap();
    let left = symbol_db.new_terminal("(").unwrap();
    let right = symbol_db.new_terminal(")").unwrap();
    let num = symbol_db.new_terminal("num").unwrap();
    let name = symbol_db.new_terminal("name").unwrap();
    let p1 = Production::new(expr, vec![expr, plus, term]);
    let p2 = Production::new(expr, vec![expr, minus, term]);
    let p3 = Production::new(expr, vec![term]);
    let p4 = Production::new(term, vec![term, mult, factor]);
    let p5 = Production::new(term, vec![term, div, factor]);
    let p6 = Production::new(term, vec![factor]);
    let p7 = Production::new(factor, vec![left, expr, right]);
    let p8 = Production::new(factor, vec![num]);
    let p9 = Production::new(factor, vec![name]);
    let g = Grammar::new(symbol_db, expr, vec![p1, p2, p3, p4, p5, p6, p7, p8, p9]).unwrap();
    let ff = FirstAndFollow::new(&g);
    let first_expr = ff.first(&expr).unwrap();
    assert_eq!(first_expr.len(), 3);
    assert!(first_expr.contains(&left));
    assert!(first_expr.contains(&num));
    assert!(first_expr.contains(&name));
    let first_term = ff.first(&expr).unwrap();
    assert_eq!(first_term.len(), 3);
    assert!(first_term.contains(&left));
    assert!(first_term.contains(&num));
    assert!(first_term.contains(&name));
}

/* grammar:
 *   expr -> term expr'
 *   expr' -> + term expr' | - term expr' | ε
 *   term -> factor term'
 *   term' -> * factor term' | / factor term' | ε
 */
#[test]
fn first_08() {
    let mut symbol_db = SymbolDb::new();
    let expr = symbol_db.new_nonterminal("expr").unwrap();
    let expr_ = symbol_db.new_nonterminal("expr'").unwrap();
    let term = symbol_db.new_nonterminal("term").unwrap();
    let term_ = symbol_db.new_nonterminal("term'").unwrap();
    let plus = symbol_db.new_terminal("+").unwrap();
    let minus = symbol_db.new_terminal("-").unwrap();
    let mult = symbol_db.new_terminal("*").unwrap();
    let div = symbol_db.new_terminal("/").unwrap();
    let factor = symbol_db.new_terminal("factor").unwrap();
    let p1 = Production::new(expr, vec![term, expr_]);
    let p2 = Production::new(expr_, vec![plus, term, expr_]);
    let p3 = Production::new(expr_, vec![minus, term, expr_]);
    let p4 = Production::new(expr_, vec![symbol_db.epsilon()]);
    let p5 = Production::new(term, vec![factor, term_]);
    let p6 = Production::new(term_, vec![mult, factor, term_]);
    let p7 = Production::new(term_, vec![div, factor, term_]);
    let p8 = Production::new(term_, vec![symbol_db.epsilon()]);
    let g = Grammar::new(symbol_db, expr, vec![p1, p2, p3, p4, p5, p6, p7, p8]).unwrap();
    let ff = FirstAndFollow::new(&g);
    let first_expr = ff.first(&expr).unwrap();
    assert_eq!(first_expr.len(), 1);
    assert!(first_expr.contains(&factor));
    let first_expr_ = ff.first(&expr_).unwrap();
    assert_eq!(first_expr_.len(), 3);
    assert!(first_expr_.contains(&plus));
    assert!(first_expr_.contains(&minus));
    assert!(first_expr_.contains(&g.symbol_db().epsilon()));
    let first_term = ff.first(&term).unwrap();
    assert_eq!(first_term.len(), 1);
    assert!(first_term.contains(&factor));
    let first_term_ = ff.first(&term_).unwrap();
    assert_eq!(first_term_.len(), 3);
    assert!(first_term_.contains(&mult));
    assert!(first_term_.contains(&div));
    assert!(first_term_.contains(&g.symbol_db().epsilon()));
}

/* grammar:
 *   S -> X
 *   X -> Y | ε
 *   Y -> Z | ε
 *   Z -> X a | Y b | c
 */
#[test]
fn first_09() {
    let mut symbol_db = SymbolDb::new();
    let s = symbol_db.new_nonterminal("S").unwrap();
    let x = symbol_db.new_nonterminal("X").unwrap();
    let y = symbol_db.new_nonterminal("Y").unwrap();
    let z = symbol_db.new_nonterminal("Z").unwrap();
    let a = symbol_db.new_terminal("a").unwrap();
    let b = symbol_db.new_terminal("b").unwrap();
    let c = symbol_db.new_terminal("c").unwrap();
    let p1 = Production::new(s, vec![x]);
    let p2 = Production::new(x, vec![y]);
    let p3 = Production::new(x, vec![symbol_db.epsilon()]);
    let p4 = Production::new(y, vec![z]);
    let p5 = Production::new(y, vec![symbol_db.epsilon()]);
    let p6 = Production::new(z, vec![x, a]);
    let p7 = Production::new(z, vec![y, b]);
    let p8 = Production::new(z, vec![c]);
    let g = Grammar::new(symbol_db, s, vec![p1, p2, p3, p4, p5, p6, p7, p8]).unwrap();
    let ff = FirstAndFollow::new(&g);
    let first_s = ff.first(&s).unwrap();
    assert_eq!(first_s.len(), 4);
    assert!(first_s.contains(&a));
    assert!(first_s.contains(&b));
    assert!(first_s.contains(&c));
    assert!(first_s.contains(&g.symbol_db().epsilon()));
}

/* grammar:
 *   S -> X Y
 *   X -> a | ε
 *   Y -> S | b
 */
#[test]
fn follow_01() {
    let mut symbol_db = SymbolDb::new();
    let s = symbol_db.new_nonterminal("S").unwrap();
    let x = symbol_db.new_nonterminal("X").unwrap();
    let y = symbol_db.new_nonterminal("Y").unwrap();
    let a = symbol_db.new_terminal("a").unwrap();
    let b = symbol_db.new_terminal("b").unwrap();
    let epsilon = symbol_db.epsilon();
    let eoi = symbol_db.eoi();
    let p1 = Production::new(s, vec![x, y]);
    let p2 = Production::new(x, vec![a]);
    let p3 = Production::new(x, vec![epsilon]);
    let p4 = Production::new(y, vec![s]);
    let p5 = Production::new(y, vec![b]);
    let g = Grammar::new(symbol_db, s, vec![p1, p2, p3, p4, p5]).unwrap();
    let ff = FirstAndFollow::new(&g);
    {
        let follow = ff.follow(&s).unwrap();
        assert_eq!(follow.len(), 1);
        assert!(follow.contains(&eoi));
    }
    {
        let follow = ff.follow(&x).unwrap();
        assert_eq!(follow.len(), 2);
        assert!(follow.contains(&a));
        assert!(follow.contains(&b));
    }
    {
        let follow = ff.follow(&y).unwrap();
        assert_eq!(follow.len(), 1);
        assert!(follow.contains(&eoi));
    }
}

/* grammar:
 *   expr -> term expr'
 *   expr' -> + term expr' | - term expr' | ε
 *   term -> factor term'
 *   term' -> * factor term' | / factor term' | ε
 *   factor -> ( expr ) | num | name
 */
#[test]
fn follow_02() {
    let mut symbol_db = SymbolDb::new();
    let expr = symbol_db.new_nonterminal("expr").unwrap();
    let expr_ = symbol_db.new_nonterminal("expr'").unwrap();
    let term = symbol_db.new_nonterminal("term").unwrap();
    let term_ = symbol_db.new_nonterminal("term'").unwrap();
    let plus = symbol_db.new_terminal("+").unwrap();
    let minus = symbol_db.new_terminal("-").unwrap();
    let mult = symbol_db.new_terminal("*").unwrap();
    let div = symbol_db.new_terminal("/").unwrap();
    let factor = symbol_db.new_nonterminal("factor").unwrap();
    let left = symbol_db.new_terminal("(").unwrap();
    let right = symbol_db.new_terminal(")").unwrap();
    let num = symbol_db.new_terminal("num").unwrap();
    let name = symbol_db.new_terminal("name").unwrap();
    let p1 = Production::new(expr, vec![term, expr_]);
    let p2 = Production::new(expr_, vec![plus, term, expr_]);
    let p3 = Production::new(expr_, vec![minus, term, expr_]);
    let p4 = Production::new(expr_, vec![symbol_db.epsilon()]);
    let p5 = Production::new(term, vec![factor, term_]);
    let p6 = Production::new(term_, vec![mult, factor, term_]);
    let p7 = Production::new(term_, vec![div, factor, term_]);
    let p8 = Production::new(term_, vec![symbol_db.epsilon()]);
    let p9 = Production::new(factor, vec![left, expr, right]);
    let p10 = Production::new(factor, vec![num]);
    let p11 = Production::new(factor, vec![name]);

    let g = Grammar::new(symbol_db, expr, vec![p1, p2, p3, p4, p5, p6, p7, p8, p9, p10, p11]).unwrap();
    let ff = FirstAndFollow::new(&g);

    let follow_goal = ff.follow(&g.symbol_db().goal()).unwrap();
    assert_eq!(follow_goal.len(), 1);
    assert!(follow_goal.contains(&g.symbol_db().eoi()));

    let follow_expr = ff.follow(&expr).unwrap();
    assert_eq!(follow_expr.len(), 2);
    assert!(follow_expr.contains(&g.symbol_db().eoi()));
    assert!(follow_expr.contains(&right));

    let follow_expr_ = ff.follow(&expr_).unwrap();
    assert_eq!(follow_expr_.len(), 2);
    assert!(follow_expr_.contains(&g.symbol_db().eoi()));
    assert!(follow_expr_.contains(&right));

    let follow_term = ff.follow(&term).unwrap();
    assert_eq!(follow_term.len(), 4);
    assert!(follow_term.contains(&g.symbol_db().eoi()));
    assert!(follow_term.contains(&plus));
    assert!(follow_term.contains(&minus));
    assert!(follow_term.contains(&right));

    let follow_term_ = ff.follow(&term_).unwrap();
    assert_eq!(follow_term_.len(), 4);
    assert!(follow_term_.contains(&g.symbol_db().eoi()));
    assert!(follow_term_.contains(&plus));
    assert!(follow_term_.contains(&minus));
    assert!(follow_term_.contains(&right));

    let follow_factor = ff.follow(&factor).unwrap();
    assert_eq!(follow_factor.len(), 6);
    assert!(follow_factor.contains(&g.symbol_db().eoi()));
    assert!(follow_factor.contains(&plus));
    assert!(follow_factor.contains(&minus));
    assert!(follow_factor.contains(&mult));
    assert!(follow_factor.contains(&div));
    assert!(follow_factor.contains(&right));
}
