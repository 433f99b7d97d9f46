use symbol_map::indexing::{HashIndexing, Indexing, Insertion};
use symbol_map::Table;

const VALUES: &[usize] = &[101, 203, 500, 30, 0, 1];

#[test]
fn hash_indexing_empty_ok() {
    let t = Table::<usize, usize>::new();
    assert_eq!(t.len(), 0);
    let i = HashIndexing::from_table(t);
    assert_eq!(i.table().len(), 0);
    assert!(i.get_symbol(&0).is_none());
}

#[test]
fn hash_indexing_from_table_ok() {
    let mut t = Table::<usize, usize>::new();
    for v in VALUES.iter() {
        t.insert(*v);
    }
    let expected_len = t.len();
    let expected_values: Vec<(usize, usize)> = {
        let mut pairs = Vec::new();
        let mut iter = t.iter();
        while let Some(s) = iter.next() {
            pairs.push((*s.data(), *s.id()));
        }
        pairs
    };

    let i = HashIndexing::from_table(t);
    assert_eq!(i.table().len(), expected_len);
    for (data, id) in expected_values.into_iter() {
        assert_eq!(i.get(&data).unwrap().data(), &data);
        assert_eq!(i.get(&data).unwrap().id(), &id);
        assert_eq!(i.get_symbol(&id).unwrap().data(), &data);
    }
}

#[test]
fn hash_indexing_empty_insertion_ok() {
    let mut i = HashIndexing::<usize, usize>::default();

    for v in VALUES.iter() {
        assert!(i.get(v).is_none());
        let id = match i.get_or_insert(*v) {
            Insertion::Present(_) => panic!(),
            Insertion::New(symbol) => {
                assert_eq!(symbol.data(), v);
                *symbol.id()
            }
        };
        assert_eq!(i.get_symbol(&id).unwrap().data(), v);
    }
}

#[test]
fn indexed_present_ok() {
    let mut t = Table::<usize, usize>::new();
    for v in VALUES.iter() {
        t.insert(*v);
    }

    let mut i = HashIndexing::from_table(t);
    for v in VALUES.iter() {
        assert_eq!(i.get(v).unwrap().data(), v);
        let id = match i.get_or_insert(*v) {
            Insertion::New(_) => panic!(),
            Insertion::Present(symbol) => {
                assert_eq!(symbol.data(), v);
                *symbol.id()
            }
        };
        assert_eq!(i.get_symbol(&id).unwrap().data(), v);
    }
}

#[test]
fn insertion_map_and_unwrap_ok() {
    let mut index = HashIndexing::<String, usize>::default();
    let id1: Insertion<usize> = index
        .get_or_insert(String::from("value1"))
        .map(|symbol| *symbol.id());
    let id2: Insertion<usize> = index
        .get_or_insert(String::from("value1"))
        .map(|symbol| *symbol.id());
    let id3: Insertion<usize> = index
        .get_or_insert(String::from("value2"))
        .map(|symbol| *symbol.id());
    // The `Insertion` values differ because one was an insertion and the
    // other a retrieval.
    assert!(id1 != id2);
    assert!(id1 != id3);
    // But the symbol identifiers for identical values are the same.
    assert!(id1.unwrap() == id2.unwrap());
    assert!(matches!(id3, Insertion::New(1)));
}

#[test]
fn duplicate_values_collapse_ok() {
    // Duplicates inserted by bypassing the index: the value lookup
    // collapses them to one entry, the identifier lookup stays exact.
    let mut t = Table::<usize, usize>::new();
    t.insert(7);
    t.insert(7);
    t.insert(9);
    let i = HashIndexing::from_table(t);
    let winner = i.get(&7).unwrap();
    assert!(*winner.id() == 0 || *winner.id() == 1);
    assert_eq!(winner.data(), &7);
    assert_eq!(i.get_symbol(&0).unwrap().data(), &7);
    assert_eq!(i.get_symbol(&1).unwrap().data(), &7);
    assert_eq!(i.get_symbol(&2).unwrap().data(), &9);
    assert!(i.get_symbol(&3).is_none());
}

#[test]
fn id_capacity_edge_ok() {
    // A `u8`-identified table can hold entries 0 through 254 and stays
    // exact at that size.
    let mut t = Table::<usize, u8>::new();
    for v in 0..255usize {
        t.insert(v);
    }
    assert_eq!(t.len(), 255);
    let i = HashIndexing::from_table(t);
    assert_eq!(i.get_symbol(&254u8).unwrap().data(), &254);
    assert_eq!(*i.get(&0).unwrap().id(), 0u8);
}
