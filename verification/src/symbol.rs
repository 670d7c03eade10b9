//! Symbol interning: spellings mapped to small, cheaply comparable handles.

use vstd::prelude::*;

verus! {

/// An interned handle over a spelling (one character). Two symbols handed out
/// by the same interner are equal exactly when their spellings are equal.
#[derive(Clone, Copy, Debug, PartialEq, Eq, Structural)]
pub struct Symbol {
    id: usize,
}

/// The append-only table that assigns each spelling its symbol. It is scoped
/// to one grammar build rather than process-wide, which leaves the system
/// without shared mutable state; nothing is ever removed from it.
pub struct Interner {
    spellings: Vec<char>,
}

impl View for Interner {
    type V = Seq<char>;

    closed spec fn view(&self) -> Seq<char> {
        self.spellings@
    }
}

impl Interner {
    /// Distinct positions of the table hold distinct spellings.
    pub open spec fn wf(&self) -> bool {
        self@.no_duplicates()
    }

    /// The spelling has been interned.
    pub open spec fn has_spelling(&self, c: char) -> bool {
        self@.contains(c)
    }

    /// The symbol was handed out by this interner.
    pub closed spec fn holds_sym(&self, s: Symbol) -> bool {
        s.id < self@.len()
    }

    /// The spelling behind a symbol of this interner.
    pub closed spec fn spelling_of(&self, s: Symbol) -> char {
        self@[s.id as int]
    }

    pub fn new() -> (r: Interner)
        ensures
            r.wf(),
            r@ == Seq::<char>::empty(),
    {
        Interner { spellings: Vec::new() }
    }

    /// Interning is idempotent: a spelling seen before hands back the same
    /// symbol and leaves the table unchanged; a new spelling is appended.
    pub fn intern(&mut self, c: char) -> (s: Symbol)
        requires
            old(self).wf(),
        ensures
            final(self).wf(),
            final(self).holds_sym(s),
            final(self).spelling_of(s) == c,
            final(self).has_spelling(c),
            old(self).has_spelling(c) ==> *final(self) == *old(self),
            !old(self).has_spelling(c) ==> final(self)@ == old(self)@.push(c),
            forall|t: Symbol|
                old(self).holds_sym(t) ==> final(self).holds_sym(t) && final(self).spelling_of(t)
                    == old(self).spelling_of(t),
    {
        let n = self.spellings.len();
        let mut i: usize = 0;
        while i < n
            invariant
                n == self.spellings.len(),
                i <= n,
                forall|j: int| 0 <= j < i ==> self@[j] != c,
                *self == *old(self),
                old(self).wf(),
            decreases n - i,
        {
            if self.spellings[i] == c {
                return Symbol { id: i };
            }
            i = i + 1;
        }
        proof {
            assert(!old(self).has_spelling(c));
        }
        self.spellings.push(c);
        proof {
            let s0 = old(self)@;
            assert forall|p: int, q: int| 0 <= p < q < self@.len() implies self@[p] != self@[q] by {
                if q < s0.len() {
                    assert(s0[p] != s0[q]);
                } else {
                    assert(self@[q] == c);
                    assert(self@[p] == s0[p]);
                    assert(!s0.contains(c));
                }
            }
            assert(self@[s0.len() as int] == c);
        }
        Symbol { id: n }
    }

    /// The symbol behind a spelling, where one was interned; `None` for a
    /// spelling this interner has never seen.
    pub fn lookup(&self, c: char) -> (r: Option<Symbol>)
        ensures
            match r {
                Some(s) => self.holds_sym(s) && self.spelling_of(s) == c,
                None => !self.has_spelling(c),
            },
    {
        let n = self.spellings.len();
        let mut i: usize = 0;
        while i < n
            invariant
                n == self.spellings.len(),
                i <= n,
                forall|j: int| 0 <= j < i ==> self@[j] != c,
            decreases n - i,
        {
            if self.spellings[i] == c {
                return Some(Symbol { id: i });
            }
            i = i + 1;
        }
        None
    }

    /// A symbol's display form is recoverable from the handle.
    pub fn spelling(&self, s: Symbol) -> (c: char)
        requires
            self.holds_sym(s),
        ensures
            c == self.spelling_of(s),
    {
        self.spellings[s.id]
    }

    /// A symbol handed out by this interner spells a character the interner
    /// has seen.
    pub proof fn lemma_spelling_present(&self, s: Symbol)
        requires
            self.holds_sym(s),
        ensures
            self.has_spelling(self.spelling_of(s)),
    {
        assert(self@[s.id as int] == self.spelling_of(s));
    }

    /// Interning law: under one well-formed interner, two symbols are equal
    /// exactly when their spellings are equal.
    pub proof fn lemma_symbol_spelling(&self, a: Symbol, b: Symbol)
        requires
            self.wf(),
            self.holds_sym(a),
            self.holds_sym(b),
        ensures
            (a == b) <==> (self.spelling_of(a) == self.spelling_of(b)),
    {
        if self.spelling_of(a) == self.spelling_of(b) && a.id != b.id {
            if a.id < b.id {
                assert(self@[a.id as int] != self@[b.id as int]);
            } else {
                assert(self@[b.id as int] != self@[a.id as int]);
            }
        }
    }
}

} // verus!
