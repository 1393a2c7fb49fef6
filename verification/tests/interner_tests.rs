use fbf_wasm_api::interner::StringInterner;

#[test]
fn test_preallocate() {
    let mut interner = StringInterner::new();

    let (id, offset) = interner.preallocate(5);
    assert_eq!(id, 0);
    assert_eq!(offset, 0);
    assert_eq!(interner.len(), 1);
    assert_eq!(interner.get(0).len(), 5);

    let (id2, offset2) = interner.preallocate(10);
    assert_eq!(id2, 1);
    assert_eq!(offset2, 5);
    assert_eq!(interner.len(), 2);
    assert_eq!(interner.get(1).len(), 10);
}

#[test]
fn test_get() {
    let mut interner = StringInterner::new();

    let (id, _) = interner.preallocate(5);
    interner.fill(id, b"hello");

    let retrieved = interner.get(id);
    assert_eq!(retrieved, b"hello");

    let (id2, _) = interner.preallocate(6);
    interner.fill(id2, b"world!");

    assert_eq!(interner.get(id), b"hello");
    assert_eq!(interner.get(id2), b"world!");
}

#[test]
#[should_panic]
fn test_get_invalid_id() {
    let interner = StringInterner::new();
    interner.get(0); // Should panic as no strings have been interned
}

#[test]
fn preallocated_strings_start_zeroed() {
    let mut interner = StringInterner::new();
    let (id, _) = interner.preallocate(3);
    assert_eq!(interner.get(id), &[0, 0, 0]);
}
