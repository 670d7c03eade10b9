use regexp::regular::Grammar;
use regexp::regular::Regular;
use regexp::regular::SingleRules;
use regexp::regular::Table;
use regexp::Interner;

#[test]
fn table_indexes_rules_three_ways() {
    let mut it = Interner::new();
    let a = it.intern('A');
    let b = it.intern('B');
    let x = it.intern('a');
    let y = it.intern('b');
    let mut t = Table::new();
    t.insert(a, x, b); // A -> a B
    t.insert(b, y, a); // B -> b A
    let g = Regular::new(a, x, vec![x, y], vec![a, b], t, SingleRules::new());
    assert_eq!(g.first(a, b), Some(x));
    assert_eq!(g.second(a, x), Some(b));
    assert_eq!(g.second(b, y), Some(a));
    assert_eq!(g.second(a, y), None);
    let lefts = g.left(x, b).unwrap();
    assert_eq!(lefts.len(), 1);
    assert!(lefts.contains(&a));
    assert!(g.left(y, b).is_none());
}

#[test]
fn later_rule_overwrites_directed_lookups() {
    let mut it = Interner::new();
    let a = it.intern('A');
    let b = it.intern('B');
    let c = it.intern('C');
    let x = it.intern('a');
    let mut t = Table::new();
    t.insert(a, x, b);
    t.insert(a, x, c);
    let g = Regular::new(a, x, vec![x], vec![a, b, c], t, SingleRules::new());
    // The directed lookup answers with the last-recorded rule.
    assert_eq!(g.second(a, x), Some(c));
    // The reverse index keeps every left side it saw.
    let lefts = g.left(x, c).unwrap();
    assert!(lefts.contains(&a));
}

#[test]
fn single_rules_index_both_sides() {
    let mut it = Interner::new();
    let a = it.intern('A');
    let b = it.intern('B');
    let p = it.intern('p');
    let mut m = SingleRules::new();
    m.insert(a, p); // A -> p
    m.insert(b, p); // B -> p
    let g = Regular::new(a, p, vec![p], vec![a, b], Table::new(), m);
    let lefts = g.single_left(p).unwrap();
    assert_eq!(lefts.len(), 2);
    assert!(lefts.contains(&a));
    assert!(lefts.contains(&b));
    let rights = g.single_right(a).unwrap();
    assert_eq!(rights.len(), 1);
    assert!(rights.contains(&p));
    assert!(g.single_left(a).is_none());
}

#[test]
fn membership_queries_follow_the_declared_sets() {
    let mut it = Interner::new();
    let a = it.intern('A');
    let x = it.intern('a');
    let z = it.intern('z');
    let g = Regular::new(a, x, vec![x], vec![a], Table::new(), SingleRules::new());
    assert!(g.is_non_terminal(a));
    assert!(!g.is_terminal(a));
    assert!(g.is_terminal(x));
    assert!(!g.is_non_terminal(x));
    assert!(g.exist(a));
    assert!(g.exist(x));
    assert!(!g.exist(z));
}
