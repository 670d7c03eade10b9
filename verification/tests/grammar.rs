use regexp::regular_grammar::Accepting;
use regexp::regular_grammar::Grammar;
use regexp::regular_grammar::Table;
use regexp::GrammarError;
use regexp::Interner;
use regexp::Next;
use regexp::RegularGrammar;

fn demo() -> RegularGrammar {
    RegularGrammar::new(
        'A',
        'ε',
        &vec!['A', 'B', 'C'],
        &vec!['a', 'b', 'p', 'q', 'ε'],
        &vec![('A', 'a', 'B'), ('A', 'p', 'C'), ('A', 'q', 'C'), ('B', 'b', 'A')],
        &vec![('C', 'p'), ('C', 'q'), ('C', 'ε')],
    )
    .unwrap()
}

#[test]
fn valid_description_constructs() {
    let g = demo();
    let a = g.from_char('a').unwrap();
    assert!(g.is_terminal(a));
    assert!(!g.is_non_terminal(a));
    assert!(g.exist(a));
    let start = g.start();
    assert!(g.is_non_terminal(start));
    assert!(!g.is_terminal(start));
    assert!(g.exist(start));
    let eps = g.epsilon();
    assert!(g.is_terminal(eps));
}

#[test]
fn undeclared_start_fails_construction() {
    let r = RegularGrammar::new(
        'X',
        'ε',
        &vec!['A'],
        &vec!['a', 'ε'],
        &vec![],
        &vec![('A', 'ε')],
    );
    assert!(matches!(r, Err(GrammarError::StartUndeclared('X'))));
}

#[test]
fn shared_spelling_fails_construction() {
    let r = RegularGrammar::new(
        'A',
        'ε',
        &vec!['A'],
        &vec!['a', 'A', 'ε'],
        &vec![],
        &vec![('A', 'ε')],
    );
    assert!(matches!(r, Err(GrammarError::SharedSpelling('A'))));
}

#[test]
fn undeclared_epsilon_fails_construction() {
    let r = RegularGrammar::new('A', 'ε', &vec!['A'], &vec!['a'], &vec![], &vec![('A', 'a')]);
    assert!(matches!(r, Err(GrammarError::EpsilonUndeclared('ε'))));
}

#[test]
fn rule_with_undeclared_base_fails_construction() {
    let r = RegularGrammar::new(
        'A',
        'ε',
        &vec!['A'],
        &vec!['a', 'ε'],
        &vec![('X', 'a', 'A')],
        &vec![],
    );
    assert!(matches!(r, Err(GrammarError::RuleBaseUndeclared('X'))));
}

#[test]
fn rule_with_undeclared_terminal_fails_construction() {
    let r = RegularGrammar::new(
        'A',
        'ε',
        &vec!['A'],
        &vec!['a', 'ε'],
        &vec![('A', 'z', 'A')],
        &vec![],
    );
    assert!(matches!(r, Err(GrammarError::RuleTerminalUndeclared('z'))));
}

#[test]
fn rule_reading_epsilon_fails_construction() {
    let r = RegularGrammar::new(
        'A',
        'ε',
        &vec!['A'],
        &vec!['a', 'ε'],
        &vec![('A', 'ε', 'A')],
        &vec![],
    );
    assert!(matches!(r, Err(GrammarError::RuleOnEpsilon('A'))));
}

#[test]
fn rule_with_undeclared_target_fails_construction() {
    let r = RegularGrammar::new(
        'A',
        'ε',
        &vec!['A'],
        &vec!['a', 'ε'],
        &vec![('A', 'a', 'X')],
        &vec![],
    );
    assert!(matches!(r, Err(GrammarError::RuleTargetUndeclared('X'))));
}

#[test]
fn end_rule_with_undeclared_base_fails_construction() {
    let r = RegularGrammar::new('A', 'ε', &vec!['A'], &vec!['a', 'ε'], &vec![], &vec![('X', 'a')]);
    assert!(matches!(r, Err(GrammarError::EndRuleBaseUndeclared('X'))));
}

#[test]
fn end_rule_with_undeclared_terminal_fails_construction() {
    let r = RegularGrammar::new('A', 'ε', &vec!['A'], &vec!['a', 'ε'], &vec![], &vec![('A', 'z')]);
    assert!(matches!(r, Err(GrammarError::EndRuleTerminalUndeclared('z'))));
}

#[test]
fn first_violation_wins() {
    // Both the start and a terminal spelling are wrong; the start check runs
    // first.
    let r = RegularGrammar::new(
        'X',
        'ε',
        &vec!['A'],
        &vec!['a', 'A', 'ε'],
        &vec![],
        &vec![],
    );
    assert!(matches!(r, Err(GrammarError::StartUndeclared('X'))));
}

#[test]
fn from_char_maps_only_terminal_spellings() {
    let g = demo();
    assert!(g.from_char('a').is_some());
    assert!(g.from_char('ε').is_some());
    // A non-terminal spelling is not an input symbol.
    assert!(g.from_char('A').is_none());
    // A spelling the grammar never declared.
    assert!(g.from_char('x').is_none());
}

#[test]
fn next_answers_with_two_probes() {
    let g = demo();
    let start = g.start();
    let a = g.from_char('a').unwrap();
    let q = g.from_char('q').unwrap();
    let eps = g.epsilon();
    // A -a-> B.
    let b = match g.next(start, a) {
        Next::Step(s) => s,
        _ => panic!("expected a transition"),
    };
    assert!(g.is_non_terminal(b));
    // B has a transition only on b.
    assert!(matches!(g.next(b, q), Next::Stuck));
    // A -q-> C, and C accepts the end of input.
    let c = match g.next(start, q) {
        Next::Step(s) => s,
        _ => panic!("expected a transition"),
    };
    assert!(matches!(g.next(c, eps), Next::End));
    // A does not accept the end of input.
    assert!(matches!(g.next(start, eps), Next::Stuck));
}

#[test]
fn table_overwrites_on_repeated_keys() {
    let mut it = Interner::new();
    let a = it.intern('A');
    let b = it.intern('B');
    let c = it.intern('C');
    let x = it.intern('a');
    let mut t = Table::new();
    assert_eq!(t.insert(a, x, b), None);
    assert_eq!(t.next(a, x), Some(b));
    // A later insertion under the same key overwrites and hands back the
    // value it replaced.
    assert_eq!(t.insert(a, x, c), Some(b));
    assert_eq!(t.next(a, x), Some(c));
    assert_eq!(t.next(b, x), None);
}

#[test]
fn accepting_records_pairs() {
    let mut it = Interner::new();
    let c = it.intern('C');
    let p = it.intern('p');
    let q = it.intern('q');
    let mut m = Accepting::new();
    assert!(!m.next(c, p));
    m.insert(c, p);
    assert!(m.next(c, p));
    assert!(!m.next(c, q));
}
