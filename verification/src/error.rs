//! Failure values: diagnostics for a rejected input, and the reasons a
//! grammar's declarative description can be refused at construction.

use vstd::prelude::*;

use crate::symbol::Symbol;

verus! {

/// Why a recognition run rejected its input. A value, not a fault: the
/// recognizer stays usable for a fresh run.
#[derive(Clone, Copy, Debug, PartialEq, Eq, Structural)]
pub enum Diagnostic {
    /// A scanned character with no terminal meaning.
    Input(InputDiagnostic),
    /// A known terminal with no transition and no acceptance from the
    /// current state.
    Rule(RuleDiagnostic),
}

/// A scanned character that no declared terminal spells, with its 0-based
/// position in the input.
#[derive(Clone, Copy, Debug, PartialEq, Eq, Structural)]
pub struct InputDiagnostic {
    c: char,
    index: usize,
}

impl InputDiagnostic {
    /// The offending character.
    pub closed spec fn spec_char(&self) -> char {
        self.c
    }

    /// The 0-based count of terminals consumed when the character was read.
    pub closed spec fn spec_index(&self) -> usize {
        self.index
    }

    pub fn new(c: char, index: usize) -> (r: Self)
        ensures
            r.spec_char() == c,
            r.spec_index() == index,
    {
        InputDiagnostic { c, index }
    }

    pub fn character(&self) -> (r: char)
        ensures
            r == self.spec_char(),
    {
        self.c
    }

    pub fn position(&self) -> (r: usize)
        ensures
            r == self.spec_index(),
    {
        self.index
    }

    /// An input diagnostic is nothing but its character and position.
    pub proof fn lemma_eq(a: InputDiagnostic, b: InputDiagnostic)
        requires
            a.spec_char() == b.spec_char(),
            a.spec_index() == b.spec_index(),
        ensures
            a == b,
    {
    }
}

/// A non-productive step: the state the recognizer stood in, and the terminal
/// it read, for which the grammar defines neither a transition nor an
/// acceptance.
#[derive(Clone, Copy, Debug, PartialEq, Eq, Structural)]
pub struct RuleDiagnostic {
    base: Symbol,
    input: Symbol,
}

impl RuleDiagnostic {
    /// The state the recognizer stood in.
    pub closed spec fn spec_base(&self) -> Symbol {
        self.base
    }

    /// The terminal symbol that had no applicable rule.
    pub closed spec fn spec_input(&self) -> Symbol {
        self.input
    }

    pub fn new(base: Symbol, input: Symbol) -> (r: Self)
        ensures
            r.spec_base() == base,
            r.spec_input() == input,
    {
        RuleDiagnostic { base, input }
    }

    pub fn base(&self) -> (r: Symbol)
        ensures
            r == self.spec_base(),
    {
        self.base
    }

    pub fn input(&self) -> (r: Symbol)
        ensures
            r == self.spec_input(),
    {
        self.input
    }

    /// A rule diagnostic is nothing but its state and input symbols.
    pub proof fn lemma_eq(a: RuleDiagnostic, b: RuleDiagnostic)
        requires
            a.spec_base() == b.spec_base(),
            a.spec_input() == b.spec_input(),
        ensures
            a == b,
    {
    }
}

/// Why a declarative grammar description was refused. Each variant carries
/// the offending spelling; an invalid grammar is never handed out.
#[derive(Clone, Copy, Debug, PartialEq, Eq, Structural)]
pub enum GrammarError {
    /// The start spelling is not a declared non-terminal.
    StartUndeclared(char),
    /// A spelling was declared both as a terminal and as a non-terminal.
    SharedSpelling(char),
    /// The epsilon spelling is not a declared terminal.
    EpsilonUndeclared(char),
    /// A binary rule's left side is not a declared non-terminal.
    RuleBaseUndeclared(char),
    /// A binary rule's first right-hand part is not a declared terminal.
    RuleTerminalUndeclared(char),
    /// A binary rule reads the end-of-input marker, which no scanned
    /// character can ever supply.
    RuleOnEpsilon(char),
    /// A binary rule's second right-hand part is not a declared non-terminal.
    RuleTargetUndeclared(char),
    /// A terminal rule's left side is not a declared non-terminal.
    EndRuleBaseUndeclared(char),
    /// A terminal rule's right side is not a declared terminal.
    EndRuleTerminalUndeclared(char),
}

} // verus!
