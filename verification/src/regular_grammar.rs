//! The right-linear grammar: a validating constructor that turns a
//! declarative description into two lookup tables, and the narrow query
//! interface the recognizer consumes.
//!
//! The mathematical model is stated over spellings: a transition map
//! `(state, terminal) -> state` and an acceptance set of `(state, terminal)`
//! pairs, both as characters, derived from the interned tables.

use vstd::prelude::*;

use crate::error::GrammarError;
use crate::symbol::Interner;
use crate::symbol::Symbol;

verus! {

/// What the table answers for one `(state, input)` query.
#[derive(Clone, Copy, Debug, PartialEq, Eq, Structural)]
pub enum Next {
    /// A transition: the next state.
    Step(Symbol),
    /// No transition, but the input may legally end recognition here.
    End,
    /// Neither a transition nor an acceptance.
    Stuck,
}

/// The key of one transition entry: base state and input terminal.
#[derive(Clone, Copy, Debug, PartialEq, Eq, Structural)]
pub struct TableKey(pub Symbol, pub Symbol);

/// The transition entries in insertion order, folded into a map in which a
/// later insertion under the same key overwrites an earlier one.
pub open spec fn assoc_map(entries: Seq<(TableKey, Symbol)>) -> Map<TableKey, Symbol>
    decreases entries.len(),
{
    if entries.len() == 0 {
        Map::empty()
    } else {
        assoc_map(entries.drop_last()).insert(entries.last().0, entries.last().1)
    }
}

/// The transition table `(state, input-terminal) -> next-state`.
pub struct Table {
    entries: Vec<(TableKey, Symbol)>,
}

impl View for Table {
    type V = Seq<(TableKey, Symbol)>;

    closed spec fn view(&self) -> Seq<(TableKey, Symbol)> {
        self.entries@
    }
}

impl Table {
    pub fn new() -> (r: Table)
        ensures
            r@ == Seq::<(TableKey, Symbol)>::empty(),
    {
        Table { entries: Vec::new() }
    }

    /// Records `(base, input) -> next`; a repeated key overwrites, and the
    /// value it replaced comes back, as a map insertion would do.
    pub fn insert(&mut self, base: Symbol, input: Symbol, next: Symbol) -> (prior: Option<Symbol>)
        ensures
            final(self)@ == old(self)@.push((TableKey(base, input), next)),
            prior == (if assoc_map(old(self)@).contains_key(TableKey(base, input)) {
                Some(assoc_map(old(self)@)[TableKey(base, input)])
            } else {
                Option::<Symbol>::None
            }),
    {
        let prior = self.next(base, input);
        self.entries.push((TableKey(base, input), next));
        prior
    }

    /// The transition recorded for `(base, input)`, with a later insertion
    /// winning over an earlier one under the same key.
    pub fn next(&self, base: Symbol, input: Symbol) -> (r: Option<Symbol>)
        ensures
            match r {
                Some(n) => assoc_map(self@).contains_key(TableKey(base, input)) && assoc_map(
                    self@,
                )[TableKey(base, input)] == n,
                None => !assoc_map(self@).contains_key(TableKey(base, input)),
            },
    {
        let k = TableKey(base, input);
        let mut j: usize = self.entries.len();
        proof {
            assert(self@.take(self.entries@.len() as int) =~= self@);
        }
        while j > 0
            invariant
                j <= self@.len(),
                k == TableKey(base, input),
                assoc_map(self@).contains_key(k) == assoc_map(
                    self@.take(j as int),
                ).contains_key(k),
                assoc_map(self@).contains_key(k) ==> assoc_map(self@)[k] == assoc_map(
                    self@.take(j as int),
                )[k],
            decreases j,
        {
            j = j - 1;
            let e = self.entries[j];
            proof {
                assert(self@.take(j as int + 1).drop_last() =~= self@.take(j as int));
                assert(self@.take(j as int + 1).last() == self@[j as int]);
            }
            if e.0 == k {
                return Some(e.1);
            }
        }
        proof {
            assert(self@.take(0) =~= Seq::<(TableKey, Symbol)>::empty());
        }
        None
    }
}

/// The acceptance entries: pairs `(state, terminal)` such that the terminal
/// legally ends recognition from that state.
pub struct Accepting {
    entries: Vec<(Symbol, Symbol)>,
}

impl View for Accepting {
    type V = Seq<(Symbol, Symbol)>;

    closed spec fn view(&self) -> Seq<(Symbol, Symbol)> {
        self.entries@
    }
}

impl Accepting {
    pub fn new() -> (r: Accepting)
        ensures
            r@ == Seq::<(Symbol, Symbol)>::empty(),
    {
        Accepting { entries: Vec::new() }
    }

    pub fn insert(&mut self, base: Symbol, input: Symbol)
        ensures
            final(self)@ == old(self)@.push((base, input)),
    {
        self.entries.push((base, input));
    }

    /// Whether `input` may legally end recognition from `base`.
    pub fn next(&self, base: Symbol, input: Symbol) -> (r: bool)
        ensures
            r == self@.contains((base, input)),
    {
        let n = self.entries.len();
        let mut i: usize = 0;
        while i < n
            invariant
                i <= n,
                n == self@.len(),
                forall|j: int| 0 <= j < i ==> self@[j] != (base, input),
            decreases n - i,
        {
            let e = self.entries[i];
            if e.0 == base && e.1 == input {
                return true;
            }
            i = i + 1;
        }
        false
    }
}

// ---------------------------------------------------------------------------
// Validation of a declarative grammar description.
// ---------------------------------------------------------------------------

/// The first fault that a per-element check finds in a sequence, scanning
/// from the front.
pub open spec fn first_fault<A>(f: spec_fn(A) -> Option<GrammarError>, s: Seq<A>) -> Option<
    GrammarError,
>
    decreases s.len(),
{
    if s.len() == 0 {
        None
    } else {
        match f(s.first()) {
            Some(e) => Some(e),
            None => first_fault(f, s.drop_first()),
        }
    }
}

pub proof fn lemma_first_fault_none<A>(f: spec_fn(A) -> Option<GrammarError>, s: Seq<A>)
    ensures
        (first_fault(f, s) is None) <==> (forall|i: int| 0 <= i < s.len() ==> f(#[trigger] s[i]) is None),
    decreases s.len(),
{
    if s.len() > 0 {
        lemma_first_fault_none(f, s.drop_first());
        assert(forall|i: int|
            0 <= i < s.drop_first().len() ==> #[trigger] s.drop_first()[i] == s[i + 1]);
        if f(s.first()) is None && (forall|i: int|
            0 <= i < s.drop_first().len() ==> f(#[trigger] s.drop_first()[i]) is None) {
            assert forall|i: int| 0 <= i < s.len() implies f(#[trigger] s[i]) is None by {
                if i > 0 {
                    assert(s.drop_first()[i - 1] == s[i]);
                }
            }
        }
    }
}

pub proof fn lemma_first_fault_skip<A>(f: spec_fn(A) -> Option<GrammarError>, s: Seq<A>, j: int)
    requires
        0 <= j <= s.len(),
        forall|i: int| 0 <= i < j ==> f(#[trigger] s[i]) is None,
    ensures
        first_fault(f, s) == first_fault(f, s.skip(j)),
    decreases j,
{
    if j == 0 {
        assert(s.skip(0) =~= s);
    } else {
        lemma_first_fault_skip(f, s, j - 1);
        assert(s.skip(j - 1).len() == s.len() - (j - 1));
        assert(s.skip(j - 1).first() == s[j - 1]);
        assert(s.skip(j - 1).drop_first() =~= s.skip(j));
        assert(first_fault(f, s.skip(j - 1)) == first_fault(f, s.skip(j)));
    }
}

/// A terminal declaration is at fault when its spelling is already a
/// non-terminal.
pub open spec fn terminal_decl_fault(nts: Seq<char>, c: char) -> Option<GrammarError> {
    if nts.contains(c) {
        Some(GrammarError::SharedSpelling(c))
    } else {
        None
    }
}

pub open spec fn terminal_decl_check(nts: Seq<char>) -> spec_fn(char) -> Option<GrammarError> {
    |c: char| terminal_decl_fault(nts, c)
}

/// The fault, if any, in one binary rule `left -> [first, second]`.
pub open spec fn rule_fault(nts: Seq<char>, ts: Seq<char>, epsilon: char, r: (char, char, char)) -> Option<
    GrammarError,
> {
    if !nts.contains(r.0) {
        Some(GrammarError::RuleBaseUndeclared(r.0))
    } else if !ts.contains(r.1) {
        Some(GrammarError::RuleTerminalUndeclared(r.1))
    } else if r.1 == epsilon {
        Some(GrammarError::RuleOnEpsilon(r.0))
    } else if !nts.contains(r.2) {
        Some(GrammarError::RuleTargetUndeclared(r.2))
    } else {
        None
    }
}

pub open spec fn rule_check(nts: Seq<char>, ts: Seq<char>, epsilon: char) -> spec_fn(
    (char, char, char),
) -> Option<GrammarError> {
    |r: (char, char, char)| rule_fault(nts, ts, epsilon, r)
}

/// The fault, if any, in one terminal rule `left -> right`.
pub open spec fn end_rule_fault(nts: Seq<char>, ts: Seq<char>, p: (char, char)) -> Option<
    GrammarError,
> {
    if !nts.contains(p.0) {
        Some(GrammarError::EndRuleBaseUndeclared(p.0))
    } else if !ts.contains(p.1) {
        Some(GrammarError::EndRuleTerminalUndeclared(p.1))
    } else {
        None
    }
}

pub open spec fn end_rule_check(nts: Seq<char>, ts: Seq<char>) -> spec_fn((char, char)) -> Option<
    GrammarError,
> {
    |p: (char, char)| end_rule_fault(nts, ts, p)
}

/// The first violation that construction reports for a declarative grammar
/// description, in the order the checks run; `None` for a valid description.
pub open spec fn build_fault(
    start: char,
    epsilon: char,
    nts: Seq<char>,
    ts: Seq<char>,
    rules: Seq<(char, char, char)>,
    end_rules: Seq<(char, char)>,
) -> Option<GrammarError> {
    if !nts.contains(start) {
        Some(GrammarError::StartUndeclared(start))
    } else {
        match first_fault(terminal_decl_check(nts), ts) {
            Some(e) => Some(e),
            None => if !ts.contains(epsilon) {
                Some(GrammarError::EpsilonUndeclared(epsilon))
            } else {
                match first_fault(rule_check(nts, ts, epsilon), rules) {
                    Some(e) => Some(e),
                    None => first_fault(end_rule_check(nts, ts), end_rules),
                }
            },
        }
    }
}

/// A declarative grammar description is structurally valid: start is a
/// non-terminal, epsilon is a terminal, the two sets share no spelling, and
/// every rule draws its parts from the right set, with no transition reading
/// the end-of-input marker.
pub open spec fn grammar_spec_ok(
    start: char,
    epsilon: char,
    nts: Seq<char>,
    ts: Seq<char>,
    rules: Seq<(char, char, char)>,
    end_rules: Seq<(char, char)>,
) -> bool {
    &&& nts.contains(start)
    &&& forall|i: int| 0 <= i < ts.len() ==> !nts.contains(#[trigger] ts[i])
    &&& ts.contains(epsilon)
    &&& forall|i: int| 0 <= i < rules.len() ==> rule_fault(nts, ts, epsilon, #[trigger] rules[i]) is None
    &&& forall|i: int| 0 <= i < end_rules.len() ==> end_rule_fault(nts, ts, #[trigger] end_rules[i]) is None
}

/// Construction law: a description is refused exactly when it violates an
/// invariant, never silently corrected.
pub proof fn lemma_build_fault_none(
    start: char,
    epsilon: char,
    nts: Seq<char>,
    ts: Seq<char>,
    rules: Seq<(char, char, char)>,
    end_rules: Seq<(char, char)>,
)
    ensures
        (build_fault(start, epsilon, nts, ts, rules, end_rules) is None) <==> grammar_spec_ok(
            start,
            epsilon,
            nts,
            ts,
            rules,
            end_rules,
        ),
{
    lemma_first_fault_none(terminal_decl_check(nts), ts);
    lemma_first_fault_none(rule_check(nts, ts, epsilon), rules);
    lemma_first_fault_none(end_rule_check(nts, ts), end_rules);
}

// ---------------------------------------------------------------------------
// The character-level model derived from the interned tables.
// ---------------------------------------------------------------------------

/// The rules, folded into the transition map; a later rule under the same
/// `(state, terminal)` key overwrites an earlier one.
pub open spec fn trans_of_rules(rules: Seq<(char, char, char)>) -> Map<(char, char), char>
    decreases rules.len(),
{
    if rules.len() == 0 {
        Map::empty()
    } else {
        trans_of_rules(rules.drop_last()).insert(
            (rules.last().0, rules.last().1),
            rules.last().2,
        )
    }
}

/// Every key of the folded map comes from some rule, whose target is the
/// map's value.
pub proof fn lemma_trans_of_rules_key(rules: Seq<(char, char, char)>, k: (char, char))
    requires
        trans_of_rules(rules).contains_key(k),
    ensures
        exists|i: int|
            0 <= i < rules.len() && (#[trigger] rules[i]).0 == k.0 && rules[i].1 == k.1
                && rules[i].2 == trans_of_rules(rules)[k],
    decreases rules.len(),
{
    let r = rules.last();
    if rules.len() > 0 && !(r.0 == k.0 && r.1 == k.1) {
        lemma_trans_of_rules_key(rules.drop_last(), k);
        let i = choose|i: int|
            0 <= i < rules.drop_last().len() && (#[trigger] rules.drop_last()[i]).0 == k.0
                && rules.drop_last()[i].1 == k.1 && rules.drop_last()[i].2 == trans_of_rules(
                rules.drop_last(),
            )[k];
        assert(rules[i] == rules.drop_last()[i]);
    }
}

pub open spec fn spelled_syms(it: Interner, v: Seq<Symbol>) -> Seq<char> {
    v.map_values(|t: Symbol| it.spelling_of(t))
}

pub open spec fn spelled_rules(it: Interner, entries: Seq<(TableKey, Symbol)>) -> Seq<
    (char, char, char),
> {
    entries.map_values(
        |e: (TableKey, Symbol)| (it.spelling_of(e.0.0), it.spelling_of(e.0.1), it.spelling_of(e.1)),
    )
}

pub open spec fn spelled_pairs(it: Interner, entries: Seq<(Symbol, Symbol)>) -> Seq<(char, char)> {
    entries.map_values(|p: (Symbol, Symbol)| (it.spelling_of(p.0), it.spelling_of(p.1)))
}

pub open spec fn syms_held(it: Interner, v: Seq<Symbol>) -> bool {
    forall|j: int| 0 <= j < v.len() ==> it.holds_sym(#[trigger] v[j])
}

pub open spec fn entries_held(it: Interner, entries: Seq<(TableKey, Symbol)>) -> bool {
    forall|j: int|
        0 <= j < entries.len() ==> it.holds_sym((#[trigger] entries[j]).0.0) && it.holds_sym(
            entries[j].0.1,
        ) && it.holds_sym(entries[j].1)
}

pub open spec fn pairs_held(it: Interner, entries: Seq<(Symbol, Symbol)>) -> bool {
    forall|j: int|
        0 <= j < entries.len() ==> it.holds_sym((#[trigger] entries[j]).0) && it.holds_sym(
            entries[j].1,
        )
}

/// The symbol-level table and its spelled fold agree: a symbol pair is a key
/// exactly when its spellings are, and the values correspond.
pub proof fn lemma_assoc_spelled(
    it: Interner,
    entries: Seq<(TableKey, Symbol)>,
    base: Symbol,
    input: Symbol,
)
    requires
        it.wf(),
        entries_held(it, entries),
        it.holds_sym(base),
        it.holds_sym(input),
    ensures
        ({
            let sm = assoc_map(entries);
            let cm = trans_of_rules(spelled_rules(it, entries));
            let k = TableKey(base, input);
            let ck = (it.spelling_of(base), it.spelling_of(input));
            &&& sm.contains_key(k) <==> cm.contains_key(ck)
            &&& sm.contains_key(k) ==> it.holds_sym(sm[k]) && cm[ck] == it.spelling_of(sm[k])
        }),
    decreases entries.len(),
{
    if entries.len() > 0 {
        let front = entries.drop_last();
        assert(entries_held(it, front)) by {
            assert(forall|j: int| 0 <= j < front.len() ==> #[trigger] front[j] == entries[j]);
        }
        lemma_assoc_spelled(it, front, base, input);
        assert(spelled_rules(it, entries).drop_last() =~= spelled_rules(it, front));
        let e = entries.last();
        assert(spelled_rules(it, entries).last() == (
            it.spelling_of(e.0.0),
            it.spelling_of(e.0.1),
            it.spelling_of(e.1),
        ));
        if !(e.0.0 == base && e.0.1 == input) {
            it.lemma_symbol_spelling(e.0.0, base);
            it.lemma_symbol_spelling(e.0.1, input);
        }
    }
}

/// The symbol-level acceptance entries and their spelled fold agree.
pub proof fn lemma_pairs_spelled(
    it: Interner,
    entries: Seq<(Symbol, Symbol)>,
    base: Symbol,
    input: Symbol,
)
    requires
        it.wf(),
        pairs_held(it, entries),
        it.holds_sym(base),
        it.holds_sym(input),
    ensures
        entries.contains((base, input)) <==> spelled_pairs(it, entries).contains(
            (it.spelling_of(base), it.spelling_of(input)),
        ),
{
    let ck = (it.spelling_of(base), it.spelling_of(input));
    if entries.contains((base, input)) {
        let j = choose|j: int| 0 <= j < entries.len() && entries[j] == (base, input);
        assert(spelled_pairs(it, entries)[j] == ck);
    }
    if spelled_pairs(it, entries).contains(ck) {
        let j = choose|j: int|
            0 <= j < spelled_pairs(it, entries).len() && spelled_pairs(it, entries)[j] == ck;
        it.lemma_symbol_spelling(entries[j].0, base);
        it.lemma_symbol_spelling(entries[j].1, input);
        assert(entries[j] == (base, input));
    }
}

// ---------------------------------------------------------------------------
// The grammar's query interface and its validated aggregate.
// ---------------------------------------------------------------------------

/// The narrow query interface the recognizer consumes, together with the
/// character-level model that its answers are stated over.
pub trait Grammar: Sized {
    /// The representation invariant that construction establishes.
    spec fn inv(&self) -> bool;

    /// The symbol was handed out by this grammar's interner.
    spec fn holds_sym(&self, s: Symbol) -> bool;

    /// The spelling behind one of this grammar's symbols.
    spec fn spelling_of(&self, s: Symbol) -> char;

    spec fn start_char(&self) -> char;

    spec fn epsilon_char(&self) -> char;

    spec fn terminal_chars(&self) -> Set<char>;

    spec fn non_terminal_chars(&self) -> Set<char>;

    spec fn trans_chars(&self) -> Map<(char, char), char>;

    spec fn accept_chars(&self) -> Set<(char, char)>;

    /// The structural facts every valid grammar grants: the start state is a
    /// non-terminal, epsilon is a terminal, the two sets are disjoint, and no
    /// transition reads the end-of-input marker.
    proof fn lemma_inv(&self)
        requires
            self.inv(),
        ensures
            self.non_terminal_chars().contains(self.start_char()),
            self.terminal_chars().contains(self.epsilon_char()),
            forall|c: char|
                !(self.terminal_chars().contains(c) && self.non_terminal_chars().contains(c)),
            forall|k: (char, char)| #[trigger]
                self.trans_chars().contains_key(k) ==> k.1 != self.epsilon_char(),
    ;

    /// Interning law, at the grammar level: two of the grammar's symbols
    /// with one spelling are one symbol.
    proof fn lemma_sym_unique(&self, a: Symbol, b: Symbol)
        requires
            self.inv(),
            self.holds_sym(a),
            self.holds_sym(b),
            self.spelling_of(a) == self.spelling_of(b),
        ensures
            a == b,
    ;

    fn start(&self) -> (s: Symbol)
        requires
            self.inv(),
        ensures
            self.holds_sym(s),
            self.spelling_of(s) == self.start_char(),
    ;

    fn epsilon(&self) -> (s: Symbol)
        requires
            self.inv(),
        ensures
            self.holds_sym(s),
            self.spelling_of(s) == self.epsilon_char(),
    ;

    /// The terminal symbol a raw input character spells, or `None` where the
    /// character was never declared as a terminal spelling — the sole source
    /// of unknown-input diagnostics.
    fn from_char(&self, c: char) -> (r: Option<Symbol>)
        requires
            self.inv(),
        ensures
            match r {
                Some(s) => self.holds_sym(s) && self.spelling_of(s) == c
                    && self.terminal_chars().contains(c),
                None => !self.terminal_chars().contains(c),
            },
    ;

    /// Two probes decide each step: the transition map first, then the
    /// acceptance set.
    fn next(&self, base: Symbol, input: Symbol) -> (r: Next)
        requires
            self.inv(),
            self.holds_sym(base),
            self.holds_sym(input),
        ensures
            ({
                let k = (self.spelling_of(base), self.spelling_of(input));
                match r {
                    Next::Step(s) => self.trans_chars().contains_key(k) && self.holds_sym(s)
                        && self.spelling_of(s) == self.trans_chars()[k],
                    Next::End => !self.trans_chars().contains_key(k)
                        && self.accept_chars().contains(k),
                    Next::Stuck => !self.trans_chars().contains_key(k)
                        && !self.accept_chars().contains(k),
                }
            }),
    ;

    fn exist(&self, symbol: Symbol) -> (r: bool)
        requires
            self.inv(),
        ensures
            r == (self.holds_sym(symbol) && (self.terminal_chars().contains(
                self.spelling_of(symbol),
            ) || self.non_terminal_chars().contains(self.spelling_of(symbol)))),
    ;

    fn is_terminal(&self, symbol: Symbol) -> (r: bool)
        requires
            self.inv(),
        ensures
            r == (self.holds_sym(symbol) && self.terminal_chars().contains(
                self.spelling_of(symbol),
            )),
    ;

    fn is_non_terminal(&self, symbol: Symbol) -> (r: bool)
        requires
            self.inv(),
        ensures
            r == (self.holds_sym(symbol) && self.non_terminal_chars().contains(
                self.spelling_of(symbol),
            )),
    ;
}

/// The immutable aggregate: start and epsilon symbols, the two declared
/// sets, and the two lookup tables, all over one interner.
pub struct RegularGrammar {
    interner: Interner,
    start: Symbol,
    epsilon: Symbol,
    terminals: Vec<Symbol>,
    non_terminals: Vec<Symbol>,
    table: Table,
    map: Accepting,
}

fn contains_char(v: &Vec<char>, c: char) -> (r: bool)
    ensures
        r == v@.contains(c),
{
    let n = v.len();
    let mut i: usize = 0;
    while i < n
        invariant
            i <= n,
            n == v@.len(),
            forall|j: int| 0 <= j < i ==> v@[j] != c,
        decreases n - i,
    {
        if v[i] == c {
            return true;
        }
        i = i + 1;
    }
    false
}

pub(crate) fn contains_sym(v: &Vec<Symbol>, s: Symbol) -> (r: bool)
    ensures
        r == v@.contains(s),
{
    let n = v.len();
    let mut i: usize = 0;
    while i < n
        invariant
            i <= n,
            n == v@.len(),
            forall|j: int| 0 <= j < i ==> v@[j] != s,
        decreases n - i,
    {
        if v[i] == s {
            return true;
        }
        i = i + 1;
    }
    false
}

impl RegularGrammar {
    /// Builds a validated grammar from a declarative description, or refuses
    /// it with the first violated invariant, in check order: start must be a
    /// declared non-terminal; no spelling may be both terminal and
    /// non-terminal; epsilon must be a declared terminal; each binary rule
    /// `left -> [first, second]` must draw `left` and `second` from the
    /// non-terminals and `first` from the terminals, and may not read the
    /// end-of-input marker; each terminal rule `left -> right` must draw
    /// `left` from the non-terminals and `right` from the terminals.
    ///
    /// A later binary rule under the same `(state, terminal)` key overwrites
    /// an earlier one.
    pub fn new(
        start: char,
        epsilon: char,
        non_terminals: &Vec<char>,
        terminals: &Vec<char>,
        rules: &Vec<(char, char, char)>,
        terminal_rules: &Vec<(char, char)>,
    ) -> (result: Result<RegularGrammar, GrammarError>)
        ensures
            match result {
                Ok(g) => {
                    &&& build_fault(
                        start,
                        epsilon,
                        non_terminals@,
                        terminals@,
                        rules@,
                        terminal_rules@,
                    ) is None
                    &&& g.inv()
                    &&& g.start_char() == start
                    &&& g.epsilon_char() == epsilon
                    &&& g.terminal_chars() == terminals@.to_set()
                    &&& g.non_terminal_chars() == non_terminals@.to_set()
                    &&& g.trans_chars() == trans_of_rules(rules@)
                    &&& g.accept_chars() == terminal_rules@.to_set()
                },
                Err(e) => Some(e) == build_fault(
                    start,
                    epsilon,
                    non_terminals@,
                    terminals@,
                    rules@,
                    terminal_rules@,
                ),
            },
    {
        let mut interner = Interner::new();

        let mut nts_syms: Vec<Symbol> = Vec::new();
        let mut i: usize = 0;
        while i < non_terminals.len()
            invariant
                interner.wf(),
                i <= non_terminals@.len(),
                nts_syms@.len() == i as int,
                forall|j: int|
                    0 <= j < i ==> interner.holds_sym(#[trigger] nts_syms@[j])
                        && interner.spelling_of(nts_syms@[j]) == non_terminals@[j],
            decreases non_terminals@.len() - i,
        {
            let s = interner.intern(non_terminals[i]);
            nts_syms.push(s);
            i = i + 1;
        }

        if !contains_char(non_terminals, start) {
            return Err(GrammarError::StartUndeclared(start));
        }
        let start_sym = interner.intern(start);

        let mut ts_syms: Vec<Symbol> = Vec::new();
        let mut i: usize = 0;
        while i < terminals.len()
            invariant
                interner.wf(),
                i <= terminals@.len(),
                ts_syms@.len() == i as int,
                non_terminals@.contains(start),
                interner.holds_sym(start_sym),
                interner.spelling_of(start_sym) == start,
                nts_syms@.len() == non_terminals@.len(),
                forall|j: int|
                    0 <= j < nts_syms@.len() ==> interner.holds_sym(#[trigger] nts_syms@[j])
                        && interner.spelling_of(nts_syms@[j]) == non_terminals@[j],
                forall|j: int|
                    0 <= j < i ==> interner.holds_sym(#[trigger] ts_syms@[j])
                        && interner.spelling_of(ts_syms@[j]) == terminals@[j],
                forall|j: int| 0 <= j < i ==> !non_terminals@.contains(#[trigger] terminals@[j]),
            decreases terminals@.len() - i,
        {
            let c = terminals[i];
            if contains_char(non_terminals, c) {
                proof {
                    lemma_first_fault_skip(terminal_decl_check(non_terminals@), terminals@, i as int);
                    assert(terminals@.skip(i as int).first() == terminals@[i as int]);
                }
                return Err(GrammarError::SharedSpelling(c));
            }
            let s = interner.intern(c);
            ts_syms.push(s);
            i = i + 1;
        }
        proof {
            lemma_first_fault_none(terminal_decl_check(non_terminals@), terminals@);
        }

        if !contains_char(terminals, epsilon) {
            return Err(GrammarError::EpsilonUndeclared(epsilon));
        }
        let eps_sym = interner.intern(epsilon);

        let mut table = Table::new();
        let mut i: usize = 0;
        while i < rules.len()
            invariant
                interner.wf(),
                i <= rules@.len(),
                table@.len() == i as int,
                non_terminals@.contains(start),
                terminals@.contains(epsilon),
                interner.holds_sym(start_sym),
                interner.spelling_of(start_sym) == start,
                interner.holds_sym(eps_sym),
                interner.spelling_of(eps_sym) == epsilon,
                nts_syms@.len() == non_terminals@.len(),
                ts_syms@.len() == terminals@.len(),
                forall|j: int|
                    0 <= j < nts_syms@.len() ==> interner.holds_sym(#[trigger] nts_syms@[j])
                        && interner.spelling_of(nts_syms@[j]) == non_terminals@[j],
                forall|j: int|
                    0 <= j < ts_syms@.len() ==> interner.holds_sym(#[trigger] ts_syms@[j])
                        && interner.spelling_of(ts_syms@[j]) == terminals@[j],
                forall|j: int|
                    0 <= j < terminals@.len() ==> !non_terminals@.contains(#[trigger] terminals@[j]),
                entries_held(interner, table@),
                forall|j: int|
                    0 <= j < i ==> spelled_rules(interner, table@)[j] == #[trigger] rules@[j],
                forall|j: int|
                    0 <= j < i ==> rule_fault(non_terminals@, terminals@, epsilon, #[trigger] rules@[j]) is None,
            decreases rules@.len() - i,
        {
            let r = rules[i];
            let fault = if !contains_char(non_terminals, r.0) {
                Some(GrammarError::RuleBaseUndeclared(r.0))
            } else if !contains_char(terminals, r.1) {
                Some(GrammarError::RuleTerminalUndeclared(r.1))
            } else if r.1 == epsilon {
                Some(GrammarError::RuleOnEpsilon(r.0))
            } else if !contains_char(non_terminals, r.2) {
                Some(GrammarError::RuleTargetUndeclared(r.2))
            } else {
                None
            };
            if let Some(e) = fault {
                proof {
                    lemma_first_fault_none(terminal_decl_check(non_terminals@), terminals@);
                    lemma_first_fault_skip(
                        rule_check(non_terminals@, terminals@, epsilon),
                        rules@,
                        i as int,
                    );
                    assert(rules@.skip(i as int).first() == rules@[i as int]);
                }
                return Err(e);
            }
            let left = interner.intern(r.0);
            let first_sym = interner.intern(r.1);
            let second = interner.intern(r.2);
            table.insert(left, first_sym, second);
            proof {
                assert(spelled_rules(interner, table@).last() == (r.0, r.1, r.2));
            }
            i = i + 1;
        }
        proof {
            lemma_first_fault_none(rule_check(non_terminals@, terminals@, epsilon), rules@);
        }

        let mut map = Accepting::new();
        let mut i: usize = 0;
        while i < terminal_rules.len()
            invariant
                interner.wf(),
                i <= terminal_rules@.len(),
                map@.len() == i as int,
                non_terminals@.contains(start),
                terminals@.contains(epsilon),
                interner.holds_sym(start_sym),
                interner.spelling_of(start_sym) == start,
                interner.holds_sym(eps_sym),
                interner.spelling_of(eps_sym) == epsilon,
                nts_syms@.len() == non_terminals@.len(),
                ts_syms@.len() == terminals@.len(),
                forall|j: int|
                    0 <= j < nts_syms@.len() ==> interner.holds_sym(#[trigger] nts_syms@[j])
                        && interner.spelling_of(nts_syms@[j]) == non_terminals@[j],
                forall|j: int|
                    0 <= j < ts_syms@.len() ==> interner.holds_sym(#[trigger] ts_syms@[j])
                        && interner.spelling_of(ts_syms@[j]) == terminals@[j],
                forall|j: int|
                    0 <= j < terminals@.len() ==> !non_terminals@.contains(#[trigger] terminals@[j]),
                entries_held(interner, table@),
                table@.len() == rules@.len(),
                forall|j: int|
                    0 <= j < rules@.len() ==> spelled_rules(interner, table@)[j] == #[trigger] rules@[j],
                forall|j: int|
                    0 <= j < rules@.len() ==> rule_fault(non_terminals@, terminals@, epsilon, #[trigger] rules@[j]) is None,
                pairs_held(interner, map@),
                forall|j: int|
                    0 <= j < i ==> spelled_pairs(interner, map@)[j] == #[trigger] terminal_rules@[j],
                forall|j: int|
                    0 <= j < i ==> end_rule_fault(non_terminals@, terminals@, #[trigger] terminal_rules@[j]) is None,
            decreases terminal_rules@.len() - i,
        {
            let p = terminal_rules[i];
            let fault = if !contains_char(non_terminals, p.0) {
                Some(GrammarError::EndRuleBaseUndeclared(p.0))
            } else if !contains_char(terminals, p.1) {
                Some(GrammarError::EndRuleTerminalUndeclared(p.1))
            } else {
                None
            };
            if let Some(e) = fault {
                proof {
                    lemma_first_fault_none(terminal_decl_check(non_terminals@), terminals@);
                    lemma_first_fault_none(
                        rule_check(non_terminals@, terminals@, epsilon),
                        rules@,
                    );
                    lemma_first_fault_skip(
                        end_rule_check(non_terminals@, terminals@),
                        terminal_rules@,
                        i as int,
                    );
                    assert(terminal_rules@.skip(i as int).first() == terminal_rules@[i as int]);
                }
                return Err(e);
            }
            let left = interner.intern(p.0);
            let right = interner.intern(p.1);
            map.insert(left, right);
            proof {
                assert(spelled_pairs(interner, map@).last() == (p.0, p.1));
            }
            i = i + 1;
        }

        let g = RegularGrammar {
            interner,
            start: start_sym,
            epsilon: eps_sym,
            terminals: ts_syms,
            non_terminals: nts_syms,
            table,
            map,
        };
        proof {
            lemma_first_fault_none(terminal_decl_check(non_terminals@), terminals@);
            lemma_first_fault_none(rule_check(non_terminals@, terminals@, epsilon), rules@);
            lemma_first_fault_none(end_rule_check(non_terminals@, terminals@), terminal_rules@);

            assert(spelled_syms(g.interner, g.non_terminals@) =~= non_terminals@);
            assert(spelled_syms(g.interner, g.terminals@) =~= terminals@);
            assert(spelled_rules(g.interner, g.table@) =~= rules@);
            assert(spelled_pairs(g.interner, g.map@) =~= terminal_rules@);

            assert forall|c: char|
                !(g.terminal_chars().contains(c) && g.non_terminal_chars().contains(c)) by {
                if g.terminal_chars().contains(c) && g.non_terminal_chars().contains(c) {
                    let j = choose|j: int| 0 <= j < terminals@.len() && terminals@[j] == c;
                    assert(!non_terminals@.contains(terminals@[j]));
                }
            }
        }
        Ok(g)
    }
}

impl Grammar for RegularGrammar {
    closed spec fn inv(&self) -> bool {
        &&& self.interner.wf()
        &&& self.interner.holds_sym(self.start)
        &&& self.interner.holds_sym(self.epsilon)
        &&& syms_held(self.interner, self.non_terminals@)
        &&& syms_held(self.interner, self.terminals@)
        &&& entries_held(self.interner, self.table@)
        &&& pairs_held(self.interner, self.map@)
        &&& self.non_terminal_chars().contains(self.start_char())
        &&& self.terminal_chars().contains(self.epsilon_char())
        &&& (forall|c: char|
            !(self.terminal_chars().contains(c) && self.non_terminal_chars().contains(c)))
        &&& (forall|j: int|
            0 <= j < self.table@.len() ==> rule_fault(
                spelled_syms(self.interner, self.non_terminals@),
                spelled_syms(self.interner, self.terminals@),
                self.epsilon_char(),
                #[trigger] spelled_rules(self.interner, self.table@)[j],
            ) is None)
        &&& (forall|j: int|
            0 <= j < self.map@.len() ==> end_rule_fault(
                spelled_syms(self.interner, self.non_terminals@),
                spelled_syms(self.interner, self.terminals@),
                #[trigger] spelled_pairs(self.interner, self.map@)[j],
            ) is None)
    }

    closed spec fn holds_sym(&self, s: Symbol) -> bool {
        self.interner.holds_sym(s)
    }

    closed spec fn spelling_of(&self, s: Symbol) -> char {
        self.interner.spelling_of(s)
    }

    closed spec fn start_char(&self) -> char {
        self.interner.spelling_of(self.start)
    }

    closed spec fn epsilon_char(&self) -> char {
        self.interner.spelling_of(self.epsilon)
    }

    closed spec fn terminal_chars(&self) -> Set<char> {
        spelled_syms(self.interner, self.terminals@).to_set()
    }

    closed spec fn non_terminal_chars(&self) -> Set<char> {
        spelled_syms(self.interner, self.non_terminals@).to_set()
    }

    closed spec fn trans_chars(&self) -> Map<(char, char), char> {
        trans_of_rules(spelled_rules(self.interner, self.table@))
    }

    closed spec fn accept_chars(&self) -> Set<(char, char)> {
        spelled_pairs(self.interner, self.map@).to_set()
    }

    proof fn lemma_inv(&self) {
        assert forall|k: (char, char)| #[trigger]
            self.trans_chars().contains_key(k) implies k.1 != self.epsilon_char() by {
            lemma_trans_of_rules_key(spelled_rules(self.interner, self.table@), k);
        }
    }

    proof fn lemma_sym_unique(&self, a: Symbol, b: Symbol) {
        self.interner.lemma_symbol_spelling(a, b);
    }

    fn start(&self) -> (s: Symbol) {
        self.start
    }

    fn epsilon(&self) -> (s: Symbol) {
        self.epsilon
    }

    fn from_char(&self, c: char) -> (r: Option<Symbol>) {
        match self.interner.lookup(c) {
            Some(s) => {
                if contains_sym(&self.terminals, s) {
                    proof {
                        let j = choose|j: int|
                            0 <= j < self.terminals@.len() && self.terminals@[j] == s;
                        assert(spelled_syms(self.interner, self.terminals@)[j]
                            == self.interner.spelling_of(s));
                    }
                    Some(s)
                } else {
                    proof {
                        if self.terminal_chars().contains(c) {
                            let sc = spelled_syms(self.interner, self.terminals@);
                            let j = choose|j: int| 0 <= j < sc.len() && sc[j] == c;
                            self.interner.lemma_symbol_spelling(self.terminals@[j], s);
                            assert(false);
                        }
                    }
                    None
                }
            },
            None => {
                proof {
                    if self.terminal_chars().contains(c) {
                        let sc = spelled_syms(self.interner, self.terminals@);
                        let j = choose|j: int| 0 <= j < sc.len() && sc[j] == c;
                        self.interner.lemma_spelling_present(self.terminals@[j]);
                        assert(false);
                    }
                }
                None
            },
        }
    }

    fn next(&self, base: Symbol, input: Symbol) -> (r: Next) {
        proof {
            lemma_assoc_spelled(self.interner, self.table@, base, input);
            lemma_pairs_spelled(self.interner, self.map@, base, input);
        }
        match self.table.next(base, input) {
            Some(s) => Next::Step(s),
            None => {
                if self.map.next(base, input) {
                    Next::End
                } else {
                    Next::Stuck
                }
            },
        }
    }

    fn exist(&self, symbol: Symbol) -> (r: bool) {
        let t = self.is_terminal(symbol);
        let n = self.is_non_terminal(symbol);
        t || n
    }

    fn is_terminal(&self, symbol: Symbol) -> (r: bool) {
        let r = contains_sym(&self.terminals, symbol);
        proof {
            if r {
                let j = choose|j: int| 0 <= j < self.terminals@.len() && self.terminals@[j] == symbol;
                assert(spelled_syms(self.interner, self.terminals@)[j]
                    == self.interner.spelling_of(symbol));
            } else {
                if self.holds_sym(symbol) && self.terminal_chars().contains(
                    self.spelling_of(symbol),
                ) {
                    let sc = spelled_syms(self.interner, self.terminals@);
                    let j = choose|j: int|
                        0 <= j < sc.len() && sc[j] == self.interner.spelling_of(symbol);
                    self.interner.lemma_symbol_spelling(self.terminals@[j], symbol);
                    assert(false);
                }
            }
        }
        r
    }

    fn is_non_terminal(&self, symbol: Symbol) -> (r: bool) {
        let r = contains_sym(&self.non_terminals, symbol);
        proof {
            if r {
                let j = choose|j: int|
                    0 <= j < self.non_terminals@.len() && self.non_terminals@[j] == symbol;
                assert(spelled_syms(self.interner, self.non_terminals@)[j]
                    == self.interner.spelling_of(symbol));
            } else {
                if self.holds_sym(symbol) && self.non_terminal_chars().contains(
                    self.spelling_of(symbol),
                ) {
                    let sc = spelled_syms(self.interner, self.non_terminals@);
                    let j = choose|j: int|
                        0 <= j < sc.len() && sc[j] == self.interner.spelling_of(symbol);
                    self.interner.lemma_symbol_spelling(self.non_terminals@[j], symbol);
                    assert(false);
                }
            }
        }
        r
    }
}

} // verus!
