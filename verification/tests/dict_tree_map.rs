use rust_dex::index_map::{DictTreeMapImpl, MAX_LEAVES, MAX_MIDDLES};

#[test]
fn test_new_dict_tree_map() {
    let tree_map = DictTreeMapImpl::new();
    assert_eq!(tree_map.root, -1);
    assert_eq!(tree_map.first_free_leaf, MAX_MIDDLES as i16);
    assert_eq!(tree_map.first_free_middle, 0);
    assert_eq!(tree_map.size, 0);
    assert_eq!(tree_map.len(), 0);
}

#[test]
fn test_insert_and_get() {
    let mut tree_map = DictTreeMapImpl::new();

    tree_map.insert(1, 100).unwrap();
    assert_eq!(tree_map.len(), 1);
    assert_eq!(tree_map.get(1).unwrap(), Some(100));
    assert!(tree_map.contains_key(1));

    tree_map.insert(2, 200).unwrap();
    assert_eq!(tree_map.len(), 2);
    assert_eq!(tree_map.get(2).unwrap(), Some(200));
    assert!(tree_map.contains_key(2));

    tree_map.insert(1, 300).unwrap();
    assert_eq!(tree_map.len(), 2);
    assert_eq!(tree_map.get(1).unwrap(), Some(300));
}

#[test]
fn test_get_nonexistent_key() {
    let mut tree_map = DictTreeMapImpl::new();

    assert_eq!(tree_map.get(1).unwrap(), None);
    assert!(!tree_map.contains_key(1));

    tree_map.insert(5, 100).unwrap();
    assert_eq!(tree_map.get(10).unwrap(), None);
    assert!(!tree_map.contains_key(10));
}

#[test]
fn test_remove() {
    let mut tree_map = DictTreeMapImpl::new();

    assert_eq!(tree_map.remove(1).unwrap(), None);

    tree_map.insert(1, 100).unwrap();
    assert_eq!(tree_map.remove(1).unwrap(), Some(100));
    assert_eq!(tree_map.len(), 0);
    assert_eq!(tree_map.get(1).unwrap(), None);
    assert!(!tree_map.contains_key(1));

    tree_map.insert(1, 100).unwrap();
    tree_map.insert(2, 200).unwrap();
    assert_eq!(tree_map.remove(1).unwrap(), Some(100));
    assert_eq!(tree_map.len(), 1);
    assert_eq!(tree_map.get(1).unwrap(), None);
    assert_eq!(tree_map.get(2).unwrap(), Some(200));
}

#[test]
fn test_many_inserts_and_removes() {
    let mut tree_map = DictTreeMapImpl::new();

    for i in 1..=10 {
        tree_map.insert(i, i * 100).unwrap();
    }
    assert_eq!(tree_map.len(), 10);

    for i in 1..=10 {
        assert_eq!(tree_map.get(i).unwrap(), Some(i * 100));
    }

    for i in 1..=5 {
        assert_eq!(tree_map.remove(i).unwrap(), Some(i * 100));
    }
    assert_eq!(tree_map.len(), 5);

    for i in 1..=5 {
        assert_eq!(tree_map.get(i).unwrap(), None);
    }
    for i in 6..=10 {
        assert_eq!(tree_map.get(i).unwrap(), Some(i * 100));
    }
}

#[test]
fn test_max_leaves_error() {
    let mut tree_map = DictTreeMapImpl::new();

    let result = (0..(MAX_LEAVES as u64 + 1)).map(|i| tree_map.insert(i, i)).collect::<Vec<_>>();

    for i in 0..MAX_LEAVES {
        assert!(result[i].is_ok());
    }

    assert!(result[MAX_LEAVES].is_err());
}

#[test]
fn test_swap_exchanges_values() {
    let mut tree_map = DictTreeMapImpl::new();
    tree_map.insert(7, 70).unwrap();
    tree_map.insert(9, 90).unwrap();
    tree_map.swap(7, 9).unwrap();
    assert_eq!(tree_map.get(7).unwrap(), Some(90));
    assert_eq!(tree_map.get(9).unwrap(), Some(70));
    assert!(tree_map.swap(7, 12).is_err());
    assert_eq!(tree_map.get(7).unwrap(), Some(90));
}

#[test]
fn test_distant_keys() {
    let mut tree_map = DictTreeMapImpl::new();
    tree_map.insert(0, 1).unwrap();
    tree_map.insert(1u64 << 63, 2).unwrap();
    assert_eq!(tree_map.get(0).unwrap(), Some(1));
    assert_eq!(tree_map.get(1u64 << 63).unwrap(), Some(2));
    assert_eq!(tree_map.remove(1u64 << 63).unwrap(), Some(2));
    assert_eq!(tree_map.get(0).unwrap(), Some(1));
    assert_eq!(tree_map.len(), 1);
}
