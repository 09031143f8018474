use score::{SimError, Store, Time};

#[test]
fn mising_key() {
    let store = Store::new();
    match store.get_int("foo") {
        Err(SimError::MissingKey { key }) => assert_eq!(key, "foo"),
        _ => panic!("expected a missing key"),
    }
}

#[test]
fn has_value() {
    let mut store = Store::new();
    store.set_int("weight", 120, Time(0)).unwrap();
    let weight = store.get_int("weight").unwrap();
    assert_eq!(weight, 120);
}

#[test]
fn has_new_value() {
    let mut store = Store::new();
    store.set_int("weight", 120, Time(0)).unwrap();
    store.set_int("weight", 130, Time(1)).unwrap();
    let weight = store.get_int("weight").unwrap();
    assert_eq!(weight, 130);
}

#[test]
fn changing_value() {
    let mut store = Store::new();
    store.set_int("weight", 120, Time(1)).unwrap();
    match store.set_int("weight", 130, Time(1)) {
        Err(SimError::AlreadySet { key }) => assert_eq!(key, "weight"),
        _ => panic!("expected already set"),
    }
    assert_eq!(store.get_int("weight").unwrap(), 120);
}

#[test]
fn same_value_same_instant_is_accepted() {
    let mut store = Store::new();
    store.set_int("weight", 120, Time(1)).unwrap();
    assert_eq!(store.edition(), 1);
    store.set_int("weight", 120, Time(1)).unwrap();
    assert_eq!(store.edition(), 1);
    assert_eq!(store.get_int("weight").unwrap(), 120);
}

#[test]
fn rewriting_same_value_counts_once() {
    let mut store = Store::new();
    store.set_string("name", "bob", Time(1)).unwrap();
    store.set_string("name", "bob", Time(2)).unwrap();
    store.set_string("name", "bob", Time(3)).unwrap();
    assert_eq!(store.edition(), 1);
    assert_eq!(store.get_string("name").unwrap(), "bob");
    store.set_string("name", "al", Time(4)).unwrap();
    assert_eq!(store.edition(), 2);
}

#[test]
fn edition_counts_changes() {
    let mut store = Store::new();
    store.set_int("a", 1, Time(0)).unwrap();
    store.set_int("b", 1, Time(0)).unwrap();
    store.set_int("a", 1, Time(5)).unwrap();
    store.set_int("a", 2, Time(6)).unwrap();
    assert_eq!(store.edition(), 3);
}

#[test]
fn empty_key_is_refused() {
    let mut store = Store::new();
    assert_eq!(store.set_int("", 1, Time(0)), Err(SimError::InvalidKey));
    assert_eq!(store.set_float("", 0, Time(0)), Err(SimError::InvalidKey));
    assert_eq!(store.set_string("", "x", Time(0)), Err(SimError::InvalidKey));
    assert_eq!(store.edition(), 0);
}

#[test]
fn kinds_are_separate() {
    let mut store = Store::new();
    store.set_float("x", 2.5f64.to_bits(), Time(0)).unwrap();
    assert!(store.contains("x"));
    assert!(!store.contains("y"));
    assert_eq!(f64::from_bits(store.get_float("x").unwrap()), 2.5);
    assert!(store.get_int("x").is_err());
    assert!(store.get_string("x").is_err());
    store.set_int("x", 7, Time(0)).unwrap();
    assert_eq!(store.get_int("x").unwrap(), 7);
}
