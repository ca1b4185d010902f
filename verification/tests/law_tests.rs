use lr1_parser::action::Action;
use lr1_parser::canonical_collection::{closure, first, go_to, CanonicalCollection};
use lr1_parser::first_and_follow::FirstAndFollow;
use lr1_parser::grammar::Grammar;
use lr1_parser::item_set::ItemSet;
use lr1_parser::lr1_item::LR1Item;
use lr1_parser::parse_tables::ParseTables;
use lr1_parser::parse_tree::ParseTree;
use lr1_parser::production::{Order, Production};
use lr1_parser::symbol::{Symbol, SymbolDb};
use lr1_parser::symbol_set::SymbolSet;

fn pairs_grammar() -> (Grammar, Symbol, Symbol, Symbol, Symbol) {
    let mut db = SymbolDb::new();
    let list = db.new_nonterminal("List").unwrap();
    let pair = db.new_nonterminal("Pair").unwrap();
    let lp = db.new_terminal("(").unwrap();
    let rp = db.new_terminal(")").unwrap();
    let productions = vec![
        Production::new(list, vec![list, pair]),
        Production::new(list, vec![pair]),
        Production::new(pair, vec![lp, pair, rp]),
        Production::new(pair, vec![lp, rp]),
    ];
    (Grammar::new(db, list, productions).unwrap(), list, pair, lp, rp)
}

#[test]
fn closure_is_idempotent() {
    let (g, list, _pair, _lp, _rp) = pairs_grammar();
    let ff = FirstAndFollow::new(&g);
    let mut start = ItemSet::new();
    start.insert(LR1Item::new(
        Production::new(g.symbol_db().goal(), vec![list]),
        0,
        g.symbol_db().eoi(),
    ));
    let once = closure(&ff, &g, start.clone());
    let twice = closure(&ff, &g, once.clone());
    assert_eq!(once, twice);
    assert_eq!(once.len(), 9);
    for item in start.items() {
        assert!(once.contains(item));
    }
}

#[test]
fn goto_is_closure_of_shifted_items() {
    let (g, list, pair, lp, _rp) = pairs_grammar();
    let ff = FirstAndFollow::new(&g);
    let mut start = ItemSet::new();
    start.insert(LR1Item::new(
        Production::new(g.symbol_db().goal(), vec![list]),
        0,
        g.symbol_db().eoi(),
    ));
    let cc0 = closure(&ff, &g, start);
    for x in [list, pair, lp] {
        let mut shifted = ItemSet::new();
        for item in cc0.items() {
            let rest = item.symbols_after_dot();
            if !rest.is_empty() && rest[0] == x {
                shifted.insert(LR1Item::new(
                    item.production().clone(),
                    item.dot_position() + 1,
                    *item.lookahead(),
                ));
            }
        }
        assert!(shifted.len() > 0);
        assert_eq!(go_to(&ff, &g, &cc0, &x), closure(&ff, &g, shifted));
    }
}

#[test]
fn first_of_a_sentence() {
    let mut db = SymbolDb::new();
    let s = db.new_nonterminal("S").unwrap();
    let x = db.new_nonterminal("X").unwrap();
    let a = db.new_terminal("a").unwrap();
    let b = db.new_terminal("b").unwrap();
    let eps = db.epsilon();
    let productions =
        vec![Production::new(s, vec![x, b]), Production::new(x, vec![a]), Production::new(x, vec![eps])];
    let g = Grammar::new(db, s, productions).unwrap();
    let ff = FirstAndFollow::new(&g);
    assert_eq!(first(&g, &ff, &[x, b]).members(), vec![a, b]);
    assert_eq!(first(&g, &ff, &[x]).members(), vec![a]);
    assert_eq!(first(&g, &ff, &[b, a]).members(), vec![b]);
    assert_eq!(first(&g, &ff, &[]).members(), vec![]);
    assert_eq!(first(&g, &ff, &[x, x]).len(), 1);
}

#[test]
fn every_state_is_reachable() {
    let (g, _list, _pair, _lp, _rp) = pairs_grammar();
    let mut cc = CanonicalCollection::new(&g).unwrap();
    let n = cc.sets().len();
    assert!(n > 1);
    assert_eq!(cc.transitions().len(), n);
    let mut reached = vec![false; n];
    reached[0] = true;
    let mut work = vec![0usize];
    while let Some(i) = work.pop() {
        for (x, to) in &cc.transitions()[i] {
            assert_eq!(cc.transition(i as u32, *x), Some(*to));
            if !reached[*to as usize] {
                reached[*to as usize] = true;
                work.push(*to as usize);
            }
        }
    }
    assert!(reached.iter().all(|r| *r));
    for i in 0..n {
        assert!(cc.contains(&cc.sets()[i]));
        assert_eq!(cc.index_of(&cc.sets()[i]), Some(i as u32));
        for j in 0..i {
            assert_ne!(cc.sets()[i], cc.sets()[j]);
        }
    }
    assert!(!cc.contains(&ItemSet::new()));
    assert_eq!(cc.take_unprocessed(), Vec::<u32>::new());
}

#[test]
fn table_entries_come_from_the_collection() {
    let (g, _list, _pair, _lp, _rp) = pairs_grammar();
    let cc = CanonicalCollection::new(&g).unwrap();
    let t = ParseTables::new(&g).unwrap();
    let db = g.symbol_db();
    assert_eq!(t.states(), cc.sets().len());
    let mut accepts = 0;
    for i in 0..t.states() as u32 {
        for x in g.terminals() {
            match t.action(i, x) {
                Some(Action::Shift(j)) => assert_eq!(cc.transition(i, x), Some(*j)),
                Some(Action::Accept) => {
                    assert_eq!(x, db.eoi());
                    accepts += 1;
                    assert_eq!(cc.transition(0, *g.start_symbol()), Some(i));
                }
                Some(Action::Reduce(p)) => {
                    assert!(cc.sets()[i as usize].items().iter().any(|it| it.production() == p
                        && *it.lookahead() == x
                        && it.symbols_after_dot().is_empty()));
                }
                None => {}
            }
        }
        for n in g.nonterminals() {
            assert_eq!(t.transition(i, n).copied(), cc.transition(i, n));
            assert!(t.action(i, n).is_none());
        }
        for x in g.terminals() {
            assert!(t.transition(i, x).is_none());
        }
    }
    assert_eq!(accepts, 1);
}

#[test]
fn items_are_ordered() {
    let mut db = SymbolDb::new();
    let s = db.new_nonterminal("S").unwrap();
    let a = db.new_terminal("a").unwrap();
    let b = db.new_terminal("b").unwrap();
    let short = Production::new(s, vec![a]);
    let long = Production::new(s, vec![a, b]);
    let other = Production::new(s, vec![b]);
    assert_eq!(short.order(&long), Order::Less);
    assert_eq!(long.order(&short), Order::Greater);
    assert_eq!(long.order(&other), Order::Less);
    assert_eq!(short.order(&short.clone()), Order::Equal);
    assert!(short.same_as(&Production::new(s, vec![a])));
    assert!(!short.same_as(&long));
    assert_eq!(Production::new(db.goal(), vec![b, b]).order(&short), Order::Less);
    let i1 = LR1Item::new(short.clone(), 0, b);
    let i2 = LR1Item::new(short.clone(), 1, a);
    let i3 = LR1Item::new(short.clone(), 1, b);
    let i4 = LR1Item::new(long.clone(), 0, a);
    assert_eq!(i1.order(&i2), Order::Less);
    assert_eq!(i2.order(&i3), Order::Less);
    assert_eq!(i3.order(&i4), Order::Less);
    assert_eq!(i4.order(&i1), Order::Greater);
    assert_eq!(i2.order(&i2.clone()), Order::Equal);
    assert_eq!(i1.next_symbol(), Some(a));
    assert_eq!(i2.next_symbol(), None);
    let mut set = ItemSet::new();
    assert!(set.insert(i4.clone()));
    assert!(set.insert(i2.clone()));
    assert!(set.insert(i1.clone()));
    assert!(set.insert(i3.clone()));
    assert!(!set.insert(i2.clone()));
    assert_eq!(set.len(), 4);
    assert_eq!(set.items(), &vec![i1.clone(), i2.clone(), i3.clone(), i4.clone()]);
    assert_eq!(set.get(2), &i3);
    let mut same = ItemSet::new();
    for item in [&i1, &i2, &i3, &i4] {
        same.insert(item.clone());
    }
    assert!(set.same_as(&same));
    let mut less = ItemSet::new();
    less.insert(i1.clone());
    assert!(!set.same_as(&less));
    assert!(less.absorb(&set));
    assert!(!less.absorb(&set));
    assert!(set.same_as(&less));
}

#[test]
fn symbol_sets() {
    let a = Symbol::from_index(1);
    let b = Symbol::from_index(4);
    let c = Symbol::from_index(9);
    let mut s = SymbolSet::new(6);
    assert_eq!(s.len(), 0);
    assert!(s.insert(b));
    assert!(!s.insert(b));
    assert!(s.insert(a));
    assert!(s.contains(&a));
    assert!(!s.contains(&c));
    assert_eq!(s.len(), 2);
    assert_eq!(s.members(), vec![a, b]);
    assert_eq!(a.index(), 1);
    let mut t = SymbolSet::new(6);
    t.insert(Symbol::from_index(0));
    t.insert(b);
    assert!(s.clone().absorb(&t));
    let mut u = s.clone();
    assert!(!u.absorb_except(&t, Some(Symbol::from_index(0))));
    assert_eq!(u.members(), vec![a, b]);
    assert!(u.absorb(&t));
    assert_eq!(u.len(), 3);
    u.remove(b);
    u.remove(c);
    assert_eq!(u.members(), vec![Symbol::from_index(0), a]);
    u.clear();
    assert_eq!(u.len(), 0);
}

#[test]
fn parse_tree_grows_by_children() {
    let s = Symbol::from_index(3);
    let a = Symbol::from_index(4);
    let mut tree = ParseTree::new(s, "root");
    assert_eq!(*tree.symbol(), s);
    assert_eq!(*tree.token(), "root");
    assert!(tree.children().is_empty());
    tree.add_child(ParseTree::new(a, "first"));
    tree.add_child(ParseTree::new(a, "second"));
    tree.add_children(vec![ParseTree::new(s, "third")]);
    assert_eq!(tree.children().len(), 3);
    assert_eq!(*tree.children()[0].token(), "first");
    assert_eq!(*tree.children()[1].token(), "second");
    assert_eq!(*tree.children()[2].token(), "third");
    assert_eq!(*tree.children()[2].symbol(), s);
}

#[test]
fn classifier_is_applied_to_every_token() {
    let mut db = SymbolDb::new();
    let s = db.new_nonterminal("S").unwrap();
    let a = db.new_terminal("a").unwrap();
    let eoi = db.eoi();
    let g = Grammar::new(db, s, vec![Production::new(s, vec![a, s]), Production::new(s, vec![a])])
        .unwrap();
    let p = lr1_parser::parser::Parser::new(g).unwrap();
    let classify = |t: &char| if *t == 'a' { a } else { eoi };
    let tree = p.parse(vec!['a', 'a', 'a', '$'], classify).unwrap();
    assert_eq!(*tree.symbol(), s);
    assert_eq!(*tree.children()[0].token(), 'a');
    let mut depth = 0;
    let mut node = &tree;
    while node.children().len() == 2 {
        node = &node.children()[1];
        depth += 1;
    }
    assert_eq!(depth, 2);
    assert_eq!(node.children().len(), 1);
    let same = p.parse(vec!['a', 'a', 'a', '$'], classify).unwrap();
    assert_eq!(format!("{:?}", tree), format!("{:?}", same));
}
