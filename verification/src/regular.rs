//! An earlier grammar-representation variant kept alongside the table-driven
//! one: it indexes each binary rule `left -> [first, second]` from all three
//! directions, and each single rule `left -> right` from both sides, and
//! exposes membership queries over the declared symbol sets.
//!
//! Contracts here are stated at the symbol level, over the insertion logs of
//! the lookup structures: `assoc_map` folds a log into a last-wins map, and a
//! multi-valued query answers with every recorded partner of its key.

use vstd::prelude::*;

use crate::regular_grammar::assoc_map;
use crate::regular_grammar::contains_sym;
pub use crate::regular_grammar::TableKey;
use crate::symbol::Symbol;

verus! {

/// The last-wins lookup over an insertion log of `(key, value)` entries.
fn assoc_lookup(entries: &Vec<(TableKey, Symbol)>, key: TableKey) -> (r: Option<Symbol>)
    ensures
        match r {
            Some(n) => assoc_map(entries@).contains_key(key) && assoc_map(entries@)[key] == n,
            None => !assoc_map(entries@).contains_key(key),
        },
{
    let mut j: usize = entries.len();
    proof {
        assert(entries@.take(entries@.len() as int) =~= entries@);
    }
    while j > 0
        invariant
            j <= entries@.len(),
            assoc_map(entries@).contains_key(key) == assoc_map(
                entries@.take(j as int),
            ).contains_key(key),
            assoc_map(entries@).contains_key(key) ==> assoc_map(entries@)[key] == assoc_map(
                entries@.take(j as int),
            )[key],
        decreases j,
    {
        j = j - 1;
        let e = entries[j];
        proof {
            assert(entries@.take(j as int + 1).drop_last() =~= entries@.take(j as int));
            assert(entries@.take(j as int + 1).last() == entries@[j as int]);
        }
        if e.0 == key {
            return Some(e.1);
        }
    }
    proof {
        assert(entries@.take(0) =~= Seq::<(TableKey, Symbol)>::empty());
    }
    None
}

/// Every value recorded under a key, in insertion order; `None` when the key
/// was never inserted.
fn matches_of_key(entries: &Vec<(TableKey, Symbol)>, key: TableKey) -> (r: Option<Vec<Symbol>>)
    ensures
        match r {
            Some(v) => v@.len() > 0 && (forall|x: Symbol|
                v@.contains(x) <==> entries@.contains((key, x))),
            None => forall|x: Symbol| !entries@.contains((key, x)),
        },
{
    let n = entries.len();
    let mut found: Vec<Symbol> = Vec::new();
    let mut i: usize = 0;
    while i < n
        invariant
            i <= n,
            n == entries@.len(),
            forall|x: Symbol|
                found@.contains(x) <==> exists|j: int| 0 <= j < i && entries@[j] == (key, x),
        decreases n - i,
    {
        let e = entries[i];
        if e.0 == key {
            let ghost pre = found@;
            found.push(e.1);
            proof {
                assert(entries@[i as int] == (key, e.1));
                assert forall|x: Symbol|
                    found@.contains(x) <==> exists|j: int|
                        0 <= j < i + 1 && entries@[j] == (key, x) by {
                    if found@.contains(x) {
                        let jj = choose|jj: int| 0 <= jj < found@.len() && found@[jj] == x;
                        if jj < pre.len() {
                            assert(pre[jj] == x);
                            assert(pre.contains(x));
                        } else {
                            assert(entries@[i as int] == (key, x));
                        }
                    }
                    if exists|j: int| 0 <= j < i + 1 && entries@[j] == (key, x) {
                        let j = choose|j: int| 0 <= j < i + 1 && entries@[j] == (key, x);
                        if j < i {
                            assert(pre.contains(x));
                            let jj = choose|jj: int| 0 <= jj < pre.len() && pre[jj] == x;
                            assert(found@[jj] == x);
                        } else {
                            assert(found@.last() == x);
                        }
                        assert(found@.contains(x));
                    }
                }
            }
        } else {
            proof {
                assert forall|x: Symbol|
                    found@.contains(x) <==> exists|j: int|
                        0 <= j < i + 1 && entries@[j] == (key, x) by {
                    if exists|j: int| 0 <= j < i + 1 && entries@[j] == (key, x) {
                        let j = choose|j: int| 0 <= j < i + 1 && entries@[j] == (key, x);
                        assert(j < i);
                    }
                }
            }
        }
        i = i + 1;
    }
    proof {
        assert forall|x: Symbol|
            entries@.contains((key, x)) <==> exists|j: int|
                0 <= j < n && entries@[j] == (key, x) by {
            if entries@.contains((key, x)) {
                let j = choose|j: int| 0 <= j < entries@.len() && entries@[j] == (key, x);
                assert(0 <= j < n && entries@[j] == (key, x));
            }
            if exists|j: int| 0 <= j < n && entries@[j] == (key, x) {
                let j = choose|j: int| 0 <= j < n && entries@[j] == (key, x);
                assert(entries@.contains((key, x)));
            }
        }
    }
    if found.len() == 0 {
        proof {
            assert forall|x: Symbol| !entries@.contains((key, x)) by {
                if entries@.contains((key, x)) {
                    assert(found@.contains(x));
                }
            }
        }
        None
    } else {
        proof {
            assert forall|x: Symbol| found@.contains(x) <==> entries@.contains((key, x)) by {
                if found@.contains(x) {
                    assert(exists|j: int| 0 <= j < n && entries@[j] == (key, x));
                }
                if entries@.contains((key, x)) {
                    assert(exists|j: int| 0 <= j < n && entries@[j] == (key, x));
                }
            }
        }
        Some(found)
    }
}

/// As `matches_of_key`, over pairs keyed by their first component.
fn matches_of_sym(entries: &Vec<(Symbol, Symbol)>, key: Symbol) -> (r: Option<Vec<Symbol>>)
    ensures
        match r {
            Some(v) => v@.len() > 0 && (forall|x: Symbol|
                v@.contains(x) <==> entries@.contains((key, x))),
            None => forall|x: Symbol| !entries@.contains((key, x)),
        },
{
    let n = entries.len();
    let mut found: Vec<Symbol> = Vec::new();
    let mut i: usize = 0;
    while i < n
        invariant
            i <= n,
            n == entries@.len(),
            forall|x: Symbol|
                found@.contains(x) <==> exists|j: int| 0 <= j < i && entries@[j] == (key, x),
        decreases n - i,
    {
        let e = entries[i];
        if e.0 == key {
            let ghost pre = found@;
            found.push(e.1);
            proof {
                assert(entries@[i as int] == (key, e.1));
                assert forall|x: Symbol|
                    found@.contains(x) <==> exists|j: int|
                        0 <= j < i + 1 && entries@[j] == (key, x) by {
                    if found@.contains(x) {
                        let jj = choose|jj: int| 0 <= jj < found@.len() && found@[jj] == x;
                        if jj < pre.len() {
                            assert(pre[jj] == x);
                            assert(pre.contains(x));
                        } else {
                            assert(entries@[i as int] == (key, x));
                        }
                    }
                    if exists|j: int| 0 <= j < i + 1 && entries@[j] == (key, x) {
                        let j = choose|j: int| 0 <= j < i + 1 && entries@[j] == (key, x);
                        if j < i {
                            assert(pre.contains(x));
                            let jj = choose|jj: int| 0 <= jj < pre.len() && pre[jj] == x;
                            assert(found@[jj] == x);
                        } else {
                            assert(found@.last() == x);
                        }
                        assert(found@.contains(x));
                    }
                }
            }
        } else {
            proof {
                assert forall|x: Symbol|
                    found@.contains(x) <==> exists|j: int|
                        0 <= j < i + 1 && entries@[j] == (key, x) by {
                    if exists|j: int| 0 <= j < i + 1 && entries@[j] == (key, x) {
                        let j = choose|j: int| 0 <= j < i + 1 && entries@[j] == (key, x);
                        assert(j < i);
                    }
                }
            }
        }
        i = i + 1;
    }
    proof {
        assert forall|x: Symbol|
            entries@.contains((key, x)) <==> exists|j: int|
                0 <= j < n && entries@[j] == (key, x) by {
            if entries@.contains((key, x)) {
                let j = choose|j: int| 0 <= j < entries@.len() && entries@[j] == (key, x);
                assert(0 <= j < n && entries@[j] == (key, x));
            }
            if exists|j: int| 0 <= j < n && entries@[j] == (key, x) {
                let j = choose|j: int| 0 <= j < n && entries@[j] == (key, x);
                assert(entries@.contains((key, x)));
            }
        }
    }
    if found.len() == 0 {
        proof {
            assert forall|x: Symbol| !entries@.contains((key, x)) by {
                if entries@.contains((key, x)) {
                    assert(found@.contains(x));
                }
            }
        }
        None
    } else {
        proof {
            assert forall|x: Symbol| found@.contains(x) <==> entries@.contains((key, x)) by {
                if found@.contains(x) {
                    assert(exists|j: int| 0 <= j < n && entries@[j] == (key, x));
                }
                if entries@.contains((key, x)) {
                    assert(exists|j: int| 0 <= j < n && entries@[j] == (key, x));
                }
            }
        }
        Some(found)
    }
}

/// The binary rules, indexed three ways: by `(first, second)` to the set of
/// left sides, by `(left, second)` to the first part, and by `(left, first)`
/// to the second part.
pub struct Table {
    lefts: Vec<(TableKey, Symbol)>,
    firsts: Vec<(TableKey, Symbol)>,
    seconds: Vec<(TableKey, Symbol)>,
}

impl Table {
    pub closed spec fn lefts_log(&self) -> Seq<(TableKey, Symbol)> {
        self.lefts@
    }

    pub closed spec fn firsts_log(&self) -> Seq<(TableKey, Symbol)> {
        self.firsts@
    }

    pub closed spec fn seconds_log(&self) -> Seq<(TableKey, Symbol)> {
        self.seconds@
    }

    pub fn new() -> (r: Table)
        ensures
            r.lefts_log() == Seq::<(TableKey, Symbol)>::empty(),
            r.firsts_log() == Seq::<(TableKey, Symbol)>::empty(),
            r.seconds_log() == Seq::<(TableKey, Symbol)>::empty(),
    {
        Table { lefts: Vec::new(), firsts: Vec::new(), seconds: Vec::new() }
    }

    /// Records one binary rule `left -> [first, second]` in all three
    /// indexes.
    pub fn insert(&mut self, left: Symbol, first: Symbol, second: Symbol)
        ensures
            final(self).lefts_log() == old(self).lefts_log().push((TableKey(first, second), left)),
            final(self).firsts_log() == old(self).firsts_log().push(
                (TableKey(left, second), first),
            ),
            final(self).seconds_log() == old(self).seconds_log().push(
                (TableKey(left, first), second),
            ),
    {
        self.lefts.push((TableKey(first, second), left));
        self.firsts.push((TableKey(left, second), first));
        self.seconds.push((TableKey(left, first), second));
    }

    fn left(&self, first: Symbol, second: Symbol) -> (r: Option<Vec<Symbol>>)
        ensures
            match r {
                Some(v) => v@.len() > 0 && (forall|x: Symbol|
                    v@.contains(x) <==> self.lefts_log().contains((TableKey(first, second), x))),
                None => forall|x: Symbol|
                    !self.lefts_log().contains((TableKey(first, second), x)),
            },
    {
        matches_of_key(&self.lefts, TableKey(first, second))
    }

    fn first(&self, left: Symbol, second: Symbol) -> (r: Option<Symbol>)
        ensures
            match r {
                Some(n) => assoc_map(self.firsts_log()).contains_key(TableKey(left, second))
                    && assoc_map(self.firsts_log())[TableKey(left, second)] == n,
                None => !assoc_map(self.firsts_log()).contains_key(TableKey(left, second)),
            },
    {
        assoc_lookup(&self.firsts, TableKey(left, second))
    }

    fn second(&self, left: Symbol, first: Symbol) -> (r: Option<Symbol>)
        ensures
            match r {
                Some(n) => assoc_map(self.seconds_log()).contains_key(TableKey(left, first))
                    && assoc_map(self.seconds_log())[TableKey(left, first)] == n,
                None => !assoc_map(self.seconds_log()).contains_key(TableKey(left, first)),
            },
    {
        assoc_lookup(&self.seconds, TableKey(left, first))
    }
}

/// The single rules `left -> right`, indexed from both sides: by the right
/// part to the set of left sides, and by the left part to the set of right
/// parts.
pub struct SingleRules {
    lefts: Vec<(Symbol, Symbol)>,
    rights: Vec<(Symbol, Symbol)>,
}

impl SingleRules {
    /// Pairs `(right, left)`, keyed by a rule's right part.
    pub closed spec fn lefts_log(&self) -> Seq<(Symbol, Symbol)> {
        self.lefts@
    }

    /// Pairs `(left, right)`, keyed by a rule's left part.
    pub closed spec fn rights_log(&self) -> Seq<(Symbol, Symbol)> {
        self.rights@
    }

    pub fn new() -> (r: SingleRules)
        ensures
            r.lefts_log() == Seq::<(Symbol, Symbol)>::empty(),
            r.rights_log() == Seq::<(Symbol, Symbol)>::empty(),
    {
        SingleRules { lefts: Vec::new(), rights: Vec::new() }
    }

    /// Records one single rule `left -> right` in both indexes.
    pub fn insert(&mut self, left: Symbol, right: Symbol)
        ensures
            final(self).lefts_log() == old(self).lefts_log().push((right, left)),
            final(self).rights_log() == old(self).rights_log().push((left, right)),
    {
        self.lefts.push((right, left));
        self.rights.push((left, right));
    }

    fn left(&self, right: Symbol) -> (r: Option<Vec<Symbol>>)
        ensures
            match r {
                Some(v) => v@.len() > 0 && (forall|x: Symbol|
                    v@.contains(x) <==> self.lefts_log().contains((right, x))),
                None => forall|x: Symbol| !self.lefts_log().contains((right, x)),
            },
    {
        matches_of_sym(&self.lefts, right)
    }

    fn right(&self, left: Symbol) -> (r: Option<Vec<Symbol>>)
        ensures
            match r {
                Some(v) => v@.len() > 0 && (forall|x: Symbol|
                    v@.contains(x) <==> self.rights_log().contains((left, x))),
                None => forall|x: Symbol| !self.rights_log().contains((left, x)),
            },
    {
        matches_of_sym(&self.rights, left)
    }
}

/// The query interface this variant exposes: rule lookups from every
/// direction, and membership tests over the declared sets.
pub trait Grammar: Sized {
    spec fn lefts_log(&self) -> Seq<(TableKey, Symbol)>;

    spec fn firsts_log(&self) -> Seq<(TableKey, Symbol)>;

    spec fn seconds_log(&self) -> Seq<(TableKey, Symbol)>;

    spec fn single_lefts_log(&self) -> Seq<(Symbol, Symbol)>;

    spec fn single_rights_log(&self) -> Seq<(Symbol, Symbol)>;

    spec fn terminal_syms(&self) -> Set<Symbol>;

    spec fn non_terminal_syms(&self) -> Set<Symbol>;

    /// The left sides of the binary rules whose right-hand side is
    /// `[first, second]`.
    fn left(&self, first: Symbol, second: Symbol) -> (r: Option<Vec<Symbol>>)
        ensures
            match r {
                Some(v) => v@.len() > 0 && (forall|x: Symbol|
                    v@.contains(x) <==> self.lefts_log().contains((TableKey(first, second), x))),
                None => forall|x: Symbol|
                    !self.lefts_log().contains((TableKey(first, second), x)),
            },
    ;

    /// The first right-hand part of the last-recorded rule
    /// `left -> [_, second]`.
    fn first(&self, left: Symbol, second: Symbol) -> (r: Option<Symbol>)
        ensures
            match r {
                Some(n) => assoc_map(self.firsts_log()).contains_key(TableKey(left, second))
                    && assoc_map(self.firsts_log())[TableKey(left, second)] == n,
                None => !assoc_map(self.firsts_log()).contains_key(TableKey(left, second)),
            },
    ;

    /// The second right-hand part of the last-recorded rule
    /// `left -> [first, _]`.
    fn second(&self, left: Symbol, first: Symbol) -> (r: Option<Symbol>)
        ensures
            match r {
                Some(n) => assoc_map(self.seconds_log()).contains_key(TableKey(left, first))
                    && assoc_map(self.seconds_log())[TableKey(left, first)] == n,
                None => !assoc_map(self.seconds_log()).contains_key(TableKey(left, first)),
            },
    ;

    /// The left sides of the single rules whose right part is `right`.
    fn single_left(&self, right: Symbol) -> (r: Option<Vec<Symbol>>)
        ensures
            match r {
                Some(v) => v@.len() > 0 && (forall|x: Symbol|
                    v@.contains(x) <==> self.single_lefts_log().contains((right, x))),
                None => forall|x: Symbol| !self.single_lefts_log().contains((right, x)),
            },
    ;

    /// The right parts of the single rules whose left side is `left`.
    fn single_right(&self, left: Symbol) -> (r: Option<Vec<Symbol>>)
        ensures
            match r {
                Some(v) => v@.len() > 0 && (forall|x: Symbol|
                    v@.contains(x) <==> self.single_rights_log().contains((left, x))),
                None => forall|x: Symbol| !self.single_rights_log().contains((left, x)),
            },
    ;

    fn exist(&self, symbol: Symbol) -> (r: bool)
        ensures
            r == (self.non_terminal_syms().contains(symbol) || self.terminal_syms().contains(
                symbol,
            )),
    ;

    fn is_terminal(&self, symbol: Symbol) -> (r: bool)
        ensures
            r == self.terminal_syms().contains(symbol),
    ;

    fn is_non_terminal(&self, symbol: Symbol) -> (r: bool)
        ensures
            r == self.non_terminal_syms().contains(symbol),
    ;
}

/// The aggregate of this variant: start and epsilon symbols, the declared
/// sets, and the two rule stores.
pub struct Regular {
    start: Symbol,
    epsilon: Symbol,
    terminals: Vec<Symbol>,
    non_terminals: Vec<Symbol>,
    table: Table,
    map: SingleRules,
}

impl Regular {
    pub closed spec fn spec_start(&self) -> Symbol {
        self.start
    }

    pub closed spec fn spec_epsilon(&self) -> Symbol {
        self.epsilon
    }

    pub fn new(
        start: Symbol,
        epsilon: Symbol,
        terminals: Vec<Symbol>,
        non_terminals: Vec<Symbol>,
        table: Table,
        map: SingleRules,
    ) -> (r: Regular)
        ensures
            r.spec_start() == start,
            r.spec_epsilon() == epsilon,
            r.terminal_syms() == terminals@.to_set(),
            r.non_terminal_syms() == non_terminals@.to_set(),
            r.lefts_log() == table.lefts_log(),
            r.firsts_log() == table.firsts_log(),
            r.seconds_log() == table.seconds_log(),
            r.single_lefts_log() == map.lefts_log(),
            r.single_rights_log() == map.rights_log(),
    {
        Regular { start, epsilon, terminals, non_terminals, table, map }
    }
}

impl Grammar for Regular {
    closed spec fn lefts_log(&self) -> Seq<(TableKey, Symbol)> {
        self.table.lefts_log()
    }

    closed spec fn firsts_log(&self) -> Seq<(TableKey, Symbol)> {
        self.table.firsts_log()
    }

    closed spec fn seconds_log(&self) -> Seq<(TableKey, Symbol)> {
        self.table.seconds_log()
    }

    closed spec fn single_lefts_log(&self) -> Seq<(Symbol, Symbol)> {
        self.map.lefts_log()
    }

    closed spec fn single_rights_log(&self) -> Seq<(Symbol, Symbol)> {
        self.map.rights_log()
    }

    closed spec fn terminal_syms(&self) -> Set<Symbol> {
        self.terminals@.to_set()
    }

    closed spec fn non_terminal_syms(&self) -> Set<Symbol> {
        self.non_terminals@.to_set()
    }

    fn left(&self, first: Symbol, second: Symbol) -> (r: Option<Vec<Symbol>>) {
        self.table.left(first, second)
    }

    fn first(&self, left: Symbol, second: Symbol) -> (r: Option<Symbol>) {
        self.table.first(left, second)
    }

    fn second(&self, left: Symbol, first: Symbol) -> (r: Option<Symbol>) {
        self.table.second(left, first)
    }

    fn single_left(&self, right: Symbol) -> (r: Option<Vec<Symbol>>) {
        self.map.left(right)
    }

    fn single_right(&self, left: Symbol) -> (r: Option<Vec<Symbol>>) {
        self.map.right(left)
    }

    fn exist(&self, symbol: Symbol) -> (r: bool) {
        let n = contains_sym(&self.non_terminals, symbol);
        let t = contains_sym(&self.terminals, symbol);
        n || t
    }

    fn is_terminal(&self, symbol: Symbol) -> (r: bool) {
        contains_sym(&self.terminals, symbol)
    }

    fn is_non_terminal(&self, symbol: Symbol) -> (r: bool) {
        contains_sym(&self.non_terminals, symbol)
    }
}

} // verus!
