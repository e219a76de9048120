use lazy_list::cell::Lazy;

#[test]
fn cell_protocol_runs_once() {
    let mut cell: Lazy<u32, u32> = Lazy::new(5);
    assert!(cell.try_get().is_none());
    let producer = cell.begin();
    assert_eq!(producer, 5);
    // while production is underway a read answers nothing
    assert!(cell.try_get().is_none());
    cell.complete(producer * 2);
    assert_eq!(cell.try_get(), Some(&10));
    // repeated reads answer the identical cached value
    assert_eq!(cell.try_get(), Some(&10));
    assert_eq!(cell.try_get(), Some(&10));
}

#[test]
fn cell_force_memoizes() {
    let mut cell: Lazy<u32, u32> = Lazy::new(21);
    let v = cell.force(|p| p * 2).copied();
    assert_eq!(v, Some(42));
    // the producer is gone; a second force answers the cached value and the
    // new closure never runs
    let v2 = cell.force(|_p| 0).copied();
    assert_eq!(v2, Some(42));
}

#[test]
fn cell_from_value_needs_no_producer() {
    let cell: Lazy<u32, u32> = Lazy::from_value(42);
    assert_eq!(cell.try_get(), Some(&42));
}

#[test]
fn cell_abort_poisons() {
    let mut cell: Lazy<u32, u32> = Lazy::new(1);
    let _producer = cell.begin();
    cell.abort();
    // a poisoned cell never yields a value
    assert!(cell.try_get().is_none());
}
