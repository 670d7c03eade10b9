//! The recognizer: a cursor-driven state machine that walks an input string
//! one character at a time against a borrowed grammar and yields success or
//! the first irrecoverable failure.
//!
//! Its behaviour is pinned by `walk`, a specification-level run of the
//! automaton over the grammar's character model: starting from the start
//! state, each scanned character must name a declared terminal and is fed to
//! the table; exhausted input feeds the epsilon terminal instead; a found
//! transition advances, a found acceptance stops with success, and anything
//! else stops with a diagnostic.

use vstd::prelude::*;
use vstd::string::StrSliceExecFns;

use crate::error::Diagnostic;
use crate::error::InputDiagnostic;
use crate::error::RuleDiagnostic;
use crate::regular_grammar::Grammar;
use crate::regular_grammar::Next;
use crate::symbol::Symbol;

verus! {

/// What one recognition step produced.
pub enum NextState {
    /// A transition was taken: the next state.
    Step(Symbol),
    /// Recognition failed with this diagnostic.
    Fail(Diagnostic),
    /// Recognition succeeded.
    Done,
}

/// The outcome of a specification-level recognition run.
#[derive(PartialEq, Eq, Structural)]
pub enum Outcome {
    /// The input was accepted.
    Accepted,
    /// A scanned character named no declared terminal.
    UnknownInput { c: char, at: nat },
    /// A declared terminal had neither a transition nor an acceptance from
    /// the state the run stood in.
    Stuck { state: char, input: char },
}

/// One specification-level recognition run, over the grammar's character
/// model: transition map, acceptance set, terminal alphabet and epsilon.
/// `state` is the current state's spelling, `at` the count of characters
/// already consumed.
pub open spec fn walk(
    trans: Map<(char, char), char>,
    accept: Set<(char, char)>,
    terminals: Set<char>,
    epsilon: char,
    state: char,
    input: Seq<char>,
    at: nat,
) -> Outcome
    decreases input.len(),
{
    if input.len() == 0 {
        if accept.contains((state, epsilon)) {
            Outcome::Accepted
        } else {
            Outcome::Stuck { state, input: epsilon }
        }
    } else {
        let c = input.first();
        if !terminals.contains(c) {
            Outcome::UnknownInput { c, at }
        } else if trans.contains_key((state, c)) {
            walk(trans, accept, terminals, epsilon, trans[(state, c)], input.drop_first(), at + 1)
        } else if accept.contains((state, c)) {
            Outcome::Accepted
        } else {
            Outcome::Stuck { state, input: c }
        }
    }
}

/// How many table queries a specification-level run makes.
pub open spec fn walk_steps(
    trans: Map<(char, char), char>,
    terminals: Set<char>,
    state: char,
    input: Seq<char>,
) -> nat
    decreases input.len(),
{
    if input.len() == 0 {
        1
    } else {
        let c = input.first();
        if terminals.contains(c) && trans.contains_key((state, c)) {
            1 + walk_steps(trans, terminals, trans[(state, c)], input.drop_first())
        } else {
            1
        }
    }
}

/// Linear-time law: a recognition run resolves within one step per input
/// character plus the one synthetic end-of-input step.
pub proof fn lemma_walk_linear(
    trans: Map<(char, char), char>,
    terminals: Set<char>,
    state: char,
    input: Seq<char>,
)
    ensures
        walk_steps(trans, terminals, state, input) <= input.len() + 1,
    decreases input.len(),
{
    if input.len() > 0 {
        let c = input.first();
        if terminals.contains(c) && trans.contains_key((state, c)) {
            lemma_walk_linear(trans, terminals, trans[(state, c)], input.drop_first());
        }
    }
}

/// Taking the recorded transition for the next character advances the run by
/// exactly one consumed character.
proof fn lemma_walk_step(
    trans: Map<(char, char), char>,
    accept: Set<(char, char)>,
    terminals: Set<char>,
    epsilon: char,
    state: char,
    s: Seq<char>,
    i: nat,
    nx: char,
)
    requires
        i < s.len(),
        terminals.contains(s[i as int]),
        trans.contains_key((state, s[i as int])),
        nx == trans[(state, s[i as int])],
    ensures
        walk(trans, accept, terminals, epsilon, state, s.skip(i as int), i) == walk(
            trans,
            accept,
            terminals,
            epsilon,
            nx,
            s.skip(i as int + 1),
            i + 1,
        ),
{
    assert(s.skip(i as int).len() == s.len() - i);
    assert(s.skip(i as int).first() == s[i as int]);
    assert(s.skip(i as int).drop_first() =~= s.skip(i as int + 1));
}

/// What `recognize` promises of its result: it matches the outcome of the
/// specification-level run from the start state. On acceptance the result is
/// `Ok(())`; on an unknown character it is an input diagnostic carrying that
/// character and its position; on a non-productive step it is a rule
/// diagnostic whose symbols spell the run's state and input.
pub open spec fn recognize_result<G: Grammar>(
    g: G,
    input: Seq<char>,
    result: Result<(), Diagnostic>,
) -> bool {
    match walk(
        g.trans_chars(),
        g.accept_chars(),
        g.terminal_chars(),
        g.epsilon_char(),
        g.start_char(),
        input,
        0,
    ) {
        Outcome::Accepted => result == Result::<(), Diagnostic>::Ok(()),
        Outcome::UnknownInput { c, at } => match result {
            Err(d) => match d {
                Diagnostic::Input(i) => i.spec_char() == c && i.spec_index() == at,
                Diagnostic::Rule(_) => false,
            },
            Ok(_) => false,
        },
        Outcome::Stuck { state, input: stuck_on } => match result {
            Err(d) => match d {
                Diagnostic::Rule(rd) => g.holds_sym(rd.spec_base()) && g.spelling_of(
                    rd.spec_base(),
                ) == state && g.holds_sym(rd.spec_input()) && g.spelling_of(rd.spec_input())
                    == stuck_on,
                Diagnostic::Input(_) => false,
            },
            Ok(_) => false,
        },
    }
}

/// Determinism law, at the interface: the contract of `recognize` pins its
/// result, so two results of independent runs over one grammar and one input
/// are equal.
pub proof fn lemma_recognize_deterministic<G: Grammar>(
    g: G,
    input: Seq<char>,
    r1: Result<(), Diagnostic>,
    r2: Result<(), Diagnostic>,
)
    requires
        g.inv(),
        recognize_result(g, input, r1),
        recognize_result(g, input, r2),
    ensures
        r1 == r2,
{
    match walk(
        g.trans_chars(),
        g.accept_chars(),
        g.terminal_chars(),
        g.epsilon_char(),
        g.start_char(),
        input,
        0,
    ) {
        Outcome::Accepted => {
        },
        Outcome::UnknownInput { c, at } => {
            if let (Err(Diagnostic::Input(d1)), Err(Diagnostic::Input(d2))) = (r1, r2) {
                InputDiagnostic::lemma_eq(d1, d2);
            }
        },
        Outcome::Stuck { state, input: stuck_on } => {
            if let (Err(Diagnostic::Rule(d1)), Err(Diagnostic::Rule(d2))) = (r1, r2) {
                g.lemma_sym_unique(d1.spec_base(), d2.spec_base());
                g.lemma_sym_unique(d1.spec_input(), d2.spec_input());
                RuleDiagnostic::lemma_eq(d1, d2);
            }
        },
    }
}

/// Mutable session state bound to one borrowed grammar: the current state
/// and the count of consumed terminals. Each `recognize` call resets both
/// and scans a fresh string; the grammar itself is never mutated, so one
/// grammar may back many recognizers.
pub struct Recognizer<'a, G: Grammar> {
    grammar: &'a G,
    index: usize,
    state: Symbol,
}

impl<'a, G: Grammar> Recognizer<'a, G> {
    /// The borrowed grammar.
    pub closed spec fn spec_grammar(&self) -> G {
        *self.grammar
    }

    pub open spec fn wf(&self) -> bool {
        self.spec_grammar().inv()
    }

    pub fn new(grammar: &'a G) -> (r: Self)
        requires
            grammar.inv(),
        ensures
            r.wf(),
            r.spec_grammar() == *grammar,
    {
        Recognizer { grammar, index: 0, state: grammar.start() }
    }

    /// Whether the grammar accepts `string`. The result equals the
    /// specification-level run `walk` from the start state: `Ok(())` on
    /// acceptance; an input diagnostic carrying the offending character and
    /// its position where a character names no terminal; a rule diagnostic
    /// carrying the state and input symbols where a terminal has neither a
    /// transition nor an acceptance.
    pub fn recognize(&mut self, string: &str) -> (result: Result<(), Diagnostic>)
        requires
            old(self).wf(),
        ensures
            final(self).wf(),
            final(self).spec_grammar() == old(self).spec_grammar(),
            recognize_result(old(self).spec_grammar(), string@, result),
    {
        let ghost g = *self.grammar;
        let ghost tr = g.trans_chars();
        let ghost ac = g.accept_chars();
        let ghost tc = g.terminal_chars();
        let ghost ec = g.epsilon_char();

        let n = string.unicode_len();
        self.index = 0;
        self.state = self.grammar.start();
        proof {
            self.grammar.lemma_inv();
            assert(string@.skip(0) =~= string@);
        }
        loop
            invariant
                *self.grammar == g,
                g == old(self).spec_grammar(),
                g.inv(),
                n as nat == string@.len(),
                tr == g.trans_chars(),
                ac == g.accept_chars(),
                tc == g.terminal_chars(),
                ec == g.epsilon_char(),
                g.holds_sym(self.state),
                self.index <= string@.len(),
                forall|k: (char, char)| #[trigger] tr.contains_key(k) ==> k.1 != ec,
                walk(tr, ac, tc, ec, g.start_char(), string@, 0) == walk(
                    tr,
                    ac,
                    tc,
                    ec,
                    g.spelling_of(self.state),
                    string@.skip(self.index as int),
                    self.index as nat,
                ),
            decreases string@.len() - self.index,
        {
            match self.next(string) {
                NextState::Step(symbol) => {
                    proof {
                        if self.index >= string@.len() {
                            assert(tr.contains_key((g.spelling_of(self.state), ec)));
                            assert(false);
                        }
                        lemma_walk_step(
                            tr,
                            ac,
                            tc,
                            ec,
                            g.spelling_of(self.state),
                            string@,
                            self.index as nat,
                            g.spelling_of(symbol),
                        );
                    }
                    self.state = symbol;
                    self.index = self.index + 1;
                },
                NextState::Done => {
                    proof {
                        let tail = string@.skip(self.index as int);
                        if self.index < string@.len() {
                            assert(tail.first() == string@[self.index as int]);
                        }
                        assert(walk(
                            tr,
                            ac,
                            tc,
                            ec,
                            g.spelling_of(self.state),
                            tail,
                            self.index as nat,
                        ) == Outcome::Accepted);
                    }
                    return Ok(());
                },
                NextState::Fail(diagnostic) => {
                    proof {
                        let tail = string@.skip(self.index as int);
                        if self.index < string@.len() {
                            assert(tail.first() == string@[self.index as int]);
                        }
                    }
                    return Err(diagnostic);
                },
            }
        }
    }

    /// One step: scan the next raw character, or feed epsilon at the end of
    /// the input; map it to a terminal symbol; query the table.
    fn next(&self, string: &str) -> (r: NextState)
        requires
            self.wf(),
            self.spec_grammar().holds_sym(self.state),
            self.index <= string@.len(),
        ensures
            ({
                let g = self.spec_grammar();
                let st = g.spelling_of(self.state);
                if self.index < string@.len() {
                    let c = string@[self.index as int];
                    if !g.terminal_chars().contains(c) {
                        match r {
                            NextState::Fail(d) => match d {
                                Diagnostic::Input(i) => i.spec_char() == c && i.spec_index()
                                    == self.index,
                                Diagnostic::Rule(_) => false,
                            },
                            _ => false,
                        }
                    } else {
                        let k = (st, c);
                        match r {
                            NextState::Step(s) => g.trans_chars().contains_key(k) && g.holds_sym(s)
                                && g.spelling_of(s) == g.trans_chars()[k],
                            NextState::Done => !g.trans_chars().contains_key(k)
                                && g.accept_chars().contains(k),
                            NextState::Fail(d) => !g.trans_chars().contains_key(k)
                                && !g.accept_chars().contains(k) && (match d {
                                Diagnostic::Rule(rd) => rd.spec_base() == self.state && g.holds_sym(
                                    rd.spec_input(),
                                ) && g.spelling_of(rd.spec_input()) == c,
                                Diagnostic::Input(_) => false,
                            }),
                        }
                    }
                } else {
                    let k = (st, g.epsilon_char());
                    match r {
                        NextState::Step(s) => g.trans_chars().contains_key(k) && g.holds_sym(s)
                            && g.spelling_of(s) == g.trans_chars()[k],
                        NextState::Done => !g.trans_chars().contains_key(k)
                            && g.accept_chars().contains(k),
                        NextState::Fail(d) => !g.trans_chars().contains_key(k)
                            && !g.accept_chars().contains(k) && (match d {
                            Diagnostic::Rule(rd) => rd.spec_base() == self.state && g.holds_sym(
                                rd.spec_input(),
                            ) && g.spelling_of(rd.spec_input()) == g.epsilon_char(),
                            Diagnostic::Input(_) => false,
                        }),
                    }
                }
            }),
    {
        if self.index < string.unicode_len() {
            let c = string.get_char(self.index);
            match self.grammar.from_char(c) {
                Some(input) => self.next_state(input),
                None => NextState::Fail(Diagnostic::Input(InputDiagnostic::new(c, self.index))),
            }
        } else {
            self.next_state(self.grammar.epsilon())
        }
    }

    /// Query the table with the current state and one terminal symbol.
    fn next_state(&self, input: Symbol) -> (r: NextState)
        requires
            self.wf(),
            self.spec_grammar().holds_sym(self.state),
            self.spec_grammar().holds_sym(input),
        ensures
            ({
                let g = self.spec_grammar();
                let k = (g.spelling_of(self.state), g.spelling_of(input));
                match r {
                    NextState::Step(s) => g.trans_chars().contains_key(k) && g.holds_sym(s)
                        && g.spelling_of(s) == g.trans_chars()[k],
                    NextState::Done => !g.trans_chars().contains_key(k) && g.accept_chars().contains(
                        k,
                    ),
                    NextState::Fail(d) => !g.trans_chars().contains_key(k)
                        && !g.accept_chars().contains(k) && (match d {
                        Diagnostic::Rule(rd) => rd.spec_base() == self.state && rd.spec_input()
                            == input,
                        Diagnostic::Input(_) => false,
                    }),
                }
            }),
    {
        match self.grammar.next(self.state, input) {
            Next::Step(symbol) => NextState::Step(symbol),
            Next::End => NextState::Done,
            Next::Stuck => NextState::Fail(
                Diagnostic::Rule(RuleDiagnostic::new(self.state, input)),
            ),
        }
    }
}

} // verus!
