use regexp::regular_grammar::Grammar;
use regexp::Diagnostic;
use regexp::InputDiagnostic;
use regexp::Next;
use regexp::Recognizer;
use regexp::RegularGrammar;
use regexp::RuleDiagnostic;

/// The demonstration grammar: non-terminals `{A, B, C}`, terminals
/// `{a, b, p, q, ε}`, start `A`, epsilon `ε`, rules `A->aB | A->pC | A->qC |
/// B->bA`, and from `C` the terminators `p`, `q` or end-of-input accept.
fn demo() -> RegularGrammar {
    RegularGrammar::new(
        'A',
        'ε',
        &vec!['A', 'B', 'C'],
        &vec!['a', 'b', 'p', 'q', 'ε'],
        &vec![('A', 'a', 'B'), ('A', 'p', 'C'), ('A', 'q', 'C'), ('B', 'b', 'A')],
        &vec![('C', 'p'), ('C', 'q'), ('C', 'ε')],
    )
    .unwrap()
}

#[test]
fn accepts_alternating_walk_then_terminator() {
    let g = demo();
    let mut r = Recognizer::new(&g);
    assert_eq!(r.recognize("abababq"), Ok(()));
}

#[test]
fn rejects_end_of_input_without_acceptance() {
    let g = demo();
    let mut r = Recognizer::new(&g);
    // After `a, b` the walk is back in `A`, epsilon is fed, and `A` has no
    // acceptance entry.
    let d = r.recognize("ab").unwrap_err();
    assert_eq!(d, Diagnostic::Rule(RuleDiagnostic::new(g.start(), g.epsilon())));
}

#[test]
fn rejects_unknown_character_with_its_position() {
    let g = demo();
    let mut r = Recognizer::new(&g);
    let d = r.recognize("x").unwrap_err();
    assert_eq!(d, Diagnostic::Input(InputDiagnostic::new('x', 0)));
}

#[test]
fn unknown_character_position_counts_consumed_terminals() {
    let g = demo();
    let mut r = Recognizer::new(&g);
    let d = r.recognize("abx").unwrap_err();
    assert_eq!(d, Diagnostic::Input(InputDiagnostic::new('x', 2)));
}

#[test]
fn rejects_valid_terminal_without_applicable_rule() {
    let g = demo();
    let mut r = Recognizer::new(&g);
    // After `a` the walk stands in `B`, and `q` is a declared terminal, but
    // `B` only transitions on `b`.
    let a = g.from_char('a').unwrap();
    let q = g.from_char('q').unwrap();
    let b = match g.next(g.start(), a) {
        Next::Step(s) => s,
        _ => panic!("expected a transition"),
    };
    let d = r.recognize("aq").unwrap_err();
    assert_eq!(d, Diagnostic::Rule(RuleDiagnostic::new(b, q)));
}

#[test]
fn accepts_single_transition_then_end() {
    let g = demo();
    let mut r = Recognizer::new(&g);
    assert_eq!(r.recognize("q"), Ok(()));
}

#[test]
fn accepts_on_terminator_before_end_of_input() {
    let g = demo();
    let mut r = Recognizer::new(&g);
    // From `C` the terminal `p` is a terminator: recognition stops with
    // success as soon as acceptance is found.
    assert_eq!(r.recognize("qp"), Ok(()));
}

#[test]
fn rejects_empty_input_when_start_does_not_accept() {
    let g = demo();
    let mut r = Recognizer::new(&g);
    let d = r.recognize("").unwrap_err();
    assert_eq!(d, Diagnostic::Rule(RuleDiagnostic::new(g.start(), g.epsilon())));
}

#[test]
fn repeated_runs_on_one_recognizer_agree() {
    let g = demo();
    let mut r = Recognizer::new(&g);
    let first = r.recognize("abababq");
    let second = r.recognize("abababq");
    assert_eq!(first, second);
    // The recognizer stays usable after a rejection.
    let rejected = r.recognize("ab");
    assert!(rejected.is_err());
    assert_eq!(r.recognize("abababq"), first);
}

#[test]
fn independent_recognizers_agree() {
    let g = demo();
    let mut r1 = Recognizer::new(&g);
    let mut r2 = Recognizer::new(&g);
    for s in ["abababq", "ab", "x", "aq", "q", "", "qp", "ababab"] {
        assert_eq!(r1.recognize(s), r2.recognize(s));
    }
}

#[test]
fn later_rule_overwrites_earlier_one_under_the_same_key() {
    // `A -> aB` then `A -> aC`: the later rule wins. From `C` the end of
    // input accepts, from `B` it would not.
    let g = RegularGrammar::new(
        'A',
        'ε',
        &vec!['A', 'B', 'C'],
        &vec!['a', 'ε'],
        &vec![('A', 'a', 'B'), ('A', 'a', 'C')],
        &vec![('C', 'ε')],
    )
    .unwrap();
    let mut r = Recognizer::new(&g);
    assert_eq!(r.recognize("a"), Ok(()));
}

#[test]
fn epsilon_character_in_input_acts_as_a_declared_terminal() {
    let g = demo();
    let mut r = Recognizer::new(&g);
    // A scanned epsilon character maps to the epsilon terminal, which `C`
    // accepts.
    assert_eq!(r.recognize("qε"), Ok(()));
}
