use std::collections::HashMap;

use symbol_map::{SymbolId, Table};

const VALUES: &[usize] = &[101, 203, 500, 30, 0, 1];

#[test]
fn symbol_id_ok() {
    let id: usize = Default::default();
    assert_eq!(id.as_usize(), 0);
    assert_eq!(id.next().as_usize(), 1);
    assert_eq!(id.next().next().as_usize(), 2);
    assert_eq!(id.as_usize(), 0);
}

#[test]
fn new_table_empty_ok() {
    let t = Table::<usize, usize>::new();
    assert!(t.iter().next().is_none());
    assert_eq!(t.iter().size_hint(), (0, Some(0)));
    assert_eq!(t.len(), 0);
}

#[test]
fn table_insert_ok() {
    let mut t = Table::<usize, usize>::new();
    for (i, v) in VALUES.iter().enumerate() {
        t.insert(*v);
        assert_eq!(t.len(), i + 1);
        assert_eq!(t.iter().size_hint(), (i + 1, Some(i + 1)));
        assert_eq!(t.iter().next().map(|x| *x.data()), Some(*v));
    }
    assert_eq!(t.len(), VALUES.len());

    let mut x = t.iter();
    let mut count = 0;
    let mut vs = VALUES.iter().rev().enumerate();
    loop {
        match x.next() {
            None => break,
            Some(symbol) => {
                let (i, v) = vs.next().unwrap();
                assert_eq!(i, count);
                assert_eq!(symbol.data(), v);
                count += 1;
            }
        }
    }
    assert_eq!(vs.next(), None);
}

#[test]
fn table_empty_iter_ok() {
    let t = Table::<usize, usize>::new();
    let mut i = t.iter();
    assert_eq!(i.size_hint(), (0, Some(0)));
    assert!(i.next().is_none());
    assert_eq!(i.size_hint(), (0, Some(0)));
}

#[test]
fn table_iter_ok() {
    let mut t = Table::<usize, u32>::new();
    for v in VALUES.iter() {
        t.insert(*v);
    }
    assert_eq!(t.len(), VALUES.len());

    let mut i = t.iter();
    let mut expected_len = t.len();
    let mut vs = VALUES.iter().rev();
    assert_eq!(i.size_hint(), (expected_len, Some(expected_len)));
    while let Some(symbol) = i.next() {
        expected_len -= 1;
        assert_eq!(i.size_hint(), (expected_len, Some(expected_len)));
        assert_eq!(Some(symbol.data()), vs.next());
    }
    assert_eq!(i.size_hint(), (0, Some(0)));
}

#[test]
fn remap_empty_ok() {
    let mut t = Table::<usize, u8>::new();
    assert_eq!(t.len(), 0);
    t.remap(|symbol| Some(*symbol.id()));
    assert_eq!(t.len(), 0);
}

#[test]
fn remap_noop_ok() {
    let mut t1 = Table::<usize, u8>::new();
    for v in VALUES.iter() {
        t1.insert(*v);
    }

    let mut t2 = Table::<usize, u8>::new();
    for v in VALUES.iter() {
        t2.insert(*v);
    }
    t2.remap(|symbol| Some(*symbol.id()));

    assert_eq!(t2.len(), t1.len());
    assert_eq!(t2.to_hash_map(), t1.to_hash_map());
}

#[test]
fn remap_all_ok() {
    let mut t = Table::<usize, u8>::new();
    for v in VALUES.iter() {
        t.insert(*v);
    }
    // The remap function is invoked newest to oldest, so handing out fresh
    // sequential identifiers in walk order gives the entry with identifier
    // `i` the new identifier `5 - i`.
    let last = (VALUES.len() - 1) as u8;
    let mut expected_associations = HashMap::new();
    for (i, v) in VALUES.iter().enumerate() {
        expected_associations.insert(*v, last - i as u8);
    }
    t.remap(|symbol| Some(last - *symbol.id()));
    assert_eq!(t.to_hash_map(), expected_associations);
}

#[test]
fn remap_some_ok() {
    let mut t = Table::<usize, u8>::new();
    for v in VALUES.iter() {
        t.insert(*v);
    }
    // Entries with even identifiers {0, 2, 4} survive; walking newest to
    // oldest hands them fresh identifiers 4 -> 0, 2 -> 1, 0 -> 2, which is
    // `2 - id / 2`.
    let mut expected_associations = HashMap::new();
    for (i, v) in VALUES.iter().enumerate() {
        if i % 2 == 0 {
            expected_associations.insert(*v, 2 - (i as u8) / 2);
        }
    }
    t.remap(|symbol| {
        if *symbol.id() % 2 == 0 {
            Some(2 - *symbol.id() / 2)
        } else {
            None
        }
    });
    assert_eq!(t.to_hash_map(), expected_associations);
}

#[test]
fn remap_none_ok() {
    let mut t = Table::<usize, u8>::new();
    for v in VALUES.iter() {
        t.insert(*v);
    }
    t.remap(|_| None);
    assert_eq!(t.len(), 0);
}

#[test]
fn table_empty_into_iter_ok() {
    let t = Table::<usize, u8>::new();
    assert!(t.into_iter().next().is_none());
}

#[test]
fn table_into_iter_ok() {
    let mut t = Table::<usize, u32>::new();
    for v in VALUES.iter() {
        t.insert(*v);
    }
    assert_eq!(t.len(), VALUES.len());

    let mut expected_len = t.len();
    let mut i = t.into_iter();
    let mut vs = VALUES.iter().rev();
    assert_eq!(i.size_hint(), (expected_len, Some(expected_len)));
    while let Some(symbol) = i.next() {
        expected_len -= 1;
        assert_eq!(i.size_hint(), (expected_len, Some(expected_len)));
        assert_eq!(Some(symbol.data()), vs.next());
    }
    assert_eq!(i.size_hint(), (0, Some(0)));
}
