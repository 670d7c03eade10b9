use regexp::Interner;

#[test]
fn intern_is_idempotent() {
    let mut it = Interner::new();
    let a1 = it.intern('a');
    let a2 = it.intern('a');
    assert_eq!(a1, a2);
}

#[test]
fn distinct_spellings_get_distinct_symbols() {
    let mut it = Interner::new();
    let a = it.intern('a');
    let b = it.intern('b');
    assert_ne!(a, b);
    let a_again = it.intern('a');
    assert_eq!(a, a_again);
    assert_ne!(a_again, b);
}

#[test]
fn spelling_is_recoverable_from_the_handle() {
    let mut it = Interner::new();
    let x = it.intern('x');
    let y = it.intern('y');
    assert_eq!(it.spelling(x), 'x');
    assert_eq!(it.spelling(y), 'y');
}

#[test]
fn lookup_finds_only_interned_spellings() {
    let mut it = Interner::new();
    let a = it.intern('a');
    assert_eq!(it.lookup('a'), Some(a));
    assert_eq!(it.lookup('z'), None);
}
