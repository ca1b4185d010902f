use lr1_parser::canonical_collection::{closure, go_to};
use lr1_parser::first_and_follow::FirstAndFollow;
use lr1_parser::grammar::Grammar;
use lr1_parser::item_set::ItemSet;
use lr1_parser::lr1_item::LR1Item;
use lr1_parser::production::Production;
use lr1_parser::symbol::{Symbol, SymbolDb};

fn make_item(lhs: Symbol, rhs: Vec<Symbol>, dot: usize, lookahead: Symbol) -> LR1Item {
    LR1Item::new(Production::new(lhs, rhs), dot, lookahead)
}

#[test]
fn closure_01() {
    let mut symbol_db = SymbolDb::new();
    /* grammar:
     *  list -> list pair | pair
     *  pair -> ( pair ) | ( )
     */
    let list = symbol_db.new_nonterminal("list").unwrap();
    let pair = symbol_db.new_nonterminal("pair").unwrap();
    let left = symbol_db.new_terminal("(").unwrap();
    let right = symbol_db.new_terminal(")").unwrap();
    let goal = symbol_db.goal();
    let eoi = symbol_db.eoi();

    let p1 = Production::new(list, vec![list, pair]);
    let p2 = Production::new(list, vec![pair]);
    let p3 = Production::new(pair, vec![left, pair, right]);
    let p4 = Production::new(pair, vec![left, right]);

    let g = Grammar::new(symbol_db, list, vec![p1, p2, p3, p4]).unwrap();
    let ff = FirstAndFollow::new(&g);

    let mut closure_items = ItemSet::new();
    closure_items.insert(make_item(goal, vec![*g.start_symbol()], 0, eoi));
    closure_items.insert(make_item(list, vec![list, pair], 0, eoi));
    closure_items.insert(make_item(list, vec![list, pair], 0, left));
    closure_items.insert(make_item(list, vec![pair], 0, eoi));
    closure_items.insert(make_item(list, vec![pair], 0, left));
    closure_items.insert(make_item(pair, vec![left, pair, right], 0, eoi));
    closure_items.insert(make_item(pair, vec![left, pair, right], 0, left));
    closure_items.insert(make_item(pair, vec![left, right], 0, eoi));
    closure_items.insert(make_item(pair, vec![left, right], 0, left));

    for item in closure_items.items() {
        let mut s = ItemSet::new();
        s.insert(item.clone());
        let result = closure(&ff, &g, s);

        for i in result.items() {
            assert!(closure_items.contains(i))
        }
    }
}

#[test]
fn closure_02() {
    let mut symbol_db = SymbolDb::new();
    /* grammar:
     *  list -> list pair | pair
     *  pair -> ( pair ) | ( )
     */
    let list = symbol_db.new_nonterminal("list").unwrap();
    let pair = symbol_db.new_nonterminal("pair").unwrap();
    let left = symbol_db.new_terminal("(").unwrap();
    let right = symbol_db.new_terminal(")").unwrap();
    let goal = symbol_db.goal();
    let eoi = symbol_db.eoi();

    let p1 = Production::new(list, vec![list, pair]);
    let p2 = Production::new(list, vec![pair]);
    let p3 = Production::new(pair, vec![left, pair, right]);
    let p4 = Production::new(pair, vec![left, right]);

    let g = Grammar::new(symbol_db, list, vec![p1, p2, p3, p4]).unwrap();
    let ff = FirstAndFollow::new(&g);

    let mut closure_items = ItemSet::new();
    closure_items.insert(make_item(goal, vec![list], 1, eoi));
    closure_items.insert(make_item(list, vec![list, pair], 1, eoi));
    closure_items.insert(make_item(list, vec![list, pair], 1, left));
    closure_items.insert(make_item(pair, vec![left, pair, right], 0, eoi));
    closure_items.insert(make_item(pair, vec![left, pair, right], 0, left));
    closure_items.insert(make_item(pair, vec![left, right], 0, eoi));
    closure_items.insert(make_item(pair, vec![left, right], 0, left));

    for item in closure_items.items() {
        let mut s = ItemSet::new();
        s.insert(item.clone());
        let result = closure(&ff, &g, s);

        for i in result.items() {
            assert!(closure_items.contains(i))
        }
    }
}

#[test]
fn go_to_01() {
    let mut symbol_db = SymbolDb::new();
    /* grammar:
     *  list -> list pair | pair
     *  pair -> ( pair ) | ( )
     */
    let list = symbol_db.new_nonterminal("list").unwrap();
    let pair = symbol_db.new_nonterminal("pair").unwrap();
    let left = symbol_db.new_terminal("(").unwrap();
    let right = symbol_db.new_terminal(")").unwrap();
    let goal = symbol_db.goal();
    let eoi = symbol_db.eoi();

    let p1 = Production::new(list, vec![list, pair]);
    let p2 = Production::new(list, vec![pair]);
    let p3 = Production::new(pair, vec![left, pair, right]);
    let p4 = Production::new(pair, vec![left, right]);

    let g = Grammar::new(symbol_db, list, vec![p1, p2, p3, p4]).unwrap();
    let ff = FirstAndFollow::new(&g);

    let mut cc_0 = ItemSet::new();
    cc_0.insert(make_item(goal, vec![*g.start_symbol()], 0, eoi));
    cc_0.insert(make_item(list, vec![list, pair], 0, eoi));
    cc_0.insert(make_item(list, vec![list, pair], 0, left));
    cc_0.insert(make_item(list, vec![pair], 0, eoi));
    cc_0.insert(make_item(list, vec![pair], 0, left));
    cc_0.insert(make_item(pair, vec![left, pair, right], 0, eoi));
    cc_0.insert(make_item(pair, vec![left, pair, right], 0, left));
    cc_0.insert(make_item(pair, vec![left, right], 0, eoi));
    cc_0.insert(make_item(pair, vec![left, right], 0, left));

    let mut cc_1 = ItemSet::new();
    cc_1.insert(make_item(goal, vec![list], 1, eoi));
    cc_1.insert(make_item(list, vec![list, pair], 1, eoi));
    cc_1.insert(make_item(list, vec![list, pair], 1, left));
    cc_1.insert(make_item(pair, vec![left, pair, right], 0, eoi));
    cc_1.insert(make_item(pair, vec![left, pair, right], 0, left));
    cc_1.insert(make_item(pair, vec![left, right], 0, eoi));
    cc_1.insert(make_item(pair, vec![left, right], 0, left));

    let result = go_to(&ff, &g, &cc_0, &list);
    assert_eq!(result, cc_1);
}
