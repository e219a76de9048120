use lazy_list::list::LazyList;

#[test]
fn len_count() {
    let src: Vec<i32> = (0..10).collect();
    let mut list: LazyList<i32> = LazyList::from_iter(src);
    assert_eq!(list.len(), 10);
}

#[test]
fn iter_test() {
    let src: Vec<i32> = (0..10).collect();
    let list: LazyList<i32> = LazyList::from_iter(src);
    let mut k = 0;
    let mut it = list.clone().iter();
    while let Some(n) = it.next() {
        assert_eq!(n, k);
        k += 1;
    }
    assert!(k == 10);
    let mut list = list;
    assert_eq!(list.get(5), Some(5));
}

#[test]
fn singleton() {
    let list: LazyList<i32> = LazyList::new();
    let mut list = list.prepend(0);
    assert_eq!(list.len(), 1);
}

#[test]
fn empty() {
    let mut list: LazyList<u32> = LazyList::from_iter(Vec::new());
    assert_eq!(list.len(), 0);
}

#[test]
fn primes() {
    let primes = LazyList::new_cyclic(|l: Vec<u64>| match l.len() {
        0 => Some(2),
        1 => Some(3),
        100 => None, // Make sure termination works for cyclic lists
        _ => {
            let mut n = *l.last().unwrap();
            'candidate: loop {
                for &factor in l.iter() {
                    if n % factor == 0 {
                        n += 2;
                        continue 'candidate;
                    }
                }
                break n;
            }
            .into()
        }
    });
    // Check the 100th prime
    let mut last = None;
    let mut it = primes.iter();
    while let Some(p) = it.next() {
        last = Some(p);
    }
    assert_eq!(last.unwrap(), 541);
}

#[test]
fn empty_list_properties() {
    let mut list: LazyList<i32> = LazyList::new();
    assert!(list.is_empty());
    assert_eq!(list.len(), 0);
    assert_eq!(list.get(0), None);
}

#[test]
fn index_reads_within_range() {
    let src: Vec<i32> = vec![8, 6, 7];
    let mut list: LazyList<i32> = LazyList::from_iter(src);
    assert_eq!(list.index(2), 7);
    assert_eq!(list.index(0), 8);
}

#[test]
fn default_is_empty() {
    let mut list: LazyList<i32> = Default::default();
    assert!(list.is_empty());
}

#[test]
fn round_trip_matches_source() {
    let src: Vec<i32> = vec![3, 1, 4, 1, 5];
    let mut list: LazyList<i32> = LazyList::from_iter(src.clone());
    let mut it = list.clone().iter();
    let mut collected = Vec::new();
    while let Some(x) = it.next() {
        collected.push(x);
    }
    assert_eq!(collected, src);
    assert_eq!(list.len(), src.len());
}

#[test]
fn prepend_shares_structure() {
    let src: Vec<i32> = vec![10, 20, 30];
    let list1: LazyList<i32> = LazyList::from_iter(src);
    let mut list2 = list1.clone().prepend(5);
    let mut list1 = list1;
    assert_eq!(list2.get(0), Some(5));
    for i in 0..4 {
        assert_eq!(list2.get(i + 1), list1.get(i));
    }
    // the base list is unchanged and independently iterable
    let mut it = list1.clone().iter();
    assert_eq!(it.next(), Some(10));
    assert_eq!(it.next(), Some(20));
    assert_eq!(it.next(), Some(30));
    assert_eq!(it.next(), None);
}

#[test]
fn producer_runs_once_per_position() {
    let count = std::cell::Cell::new(0u32);
    let mut list = LazyList::new_cyclic(|l: Vec<u32>| {
        count.set(count.get() + 1);
        if l.len() < 4 {
            Some(l.len() as u32)
        } else {
            None
        }
    });
    assert_eq!(list.get(3), Some(3));
    let after_first = count.get();
    assert_eq!(after_first, 4);
    // repeated reads answer from the cache: no producer runs again
    assert_eq!(list.get(3), Some(3));
    assert_eq!(list.get(1), Some(1));
    assert_eq!(count.get(), after_first);
}

#[test]
fn is_empty_forces_head_only() {
    let count = std::cell::Cell::new(0u32);
    let mut list = LazyList::new_cyclic(|l: Vec<u32>| {
        count.set(count.get() + 1);
        if l.len() < 2 {
            Some(7)
        } else {
            None
        }
    });
    assert!(!list.is_empty());
    assert_eq!(count.get(), 1);
}

#[test]
fn reentrant_read_sees_nothing() {
    let mut list = LazyList::new_cyclic(|l: Vec<u32>| {
        // try to read the element currently being produced
        assert!(l.get(l.len()).is_none());
        if l.len() < 3 {
            Some(l.len() as u32)
        } else {
            None
        }
    });
    assert_eq!(list.get(0), Some(0));
    assert_eq!(list.get(2), Some(2));
    assert_eq!(list.get(3), None);
}

#[test]
fn cyclic_list_sees_only_its_own_chain() {
    // elements prepended in front of a cyclic chain stay out of the step
    // function's view
    let list = LazyList::new_cyclic(|l: Vec<u32>| {
        if l.len() < 2 {
            Some(l.len() as u32 + 100)
        } else {
            None
        }
    });
    let mut list = list.prepend(1).prepend(0);
    assert_eq!(list.get(0), Some(0));
    assert_eq!(list.get(1), Some(1));
    assert_eq!(list.get(2), Some(100));
    assert_eq!(list.get(3), Some(101));
    assert_eq!(list.get(4), None);
}
