use bst::tree::BST;
use rand::seq::SliceRandom;
use rand::thread_rng;

fn shuffled(n: i32) -> Vec<i32> {
    let mut vec: Vec<i32> = (0..n).collect();
    vec.shuffle(&mut thread_rng());
    vec
}

#[test]
fn second_test_empty() {
    let _bst: BST<i32> = Default::default();
}

#[test]
fn second_test_insert() {
    let mut bst: BST<i32> = Default::default();
    for i in 0..10000 {
        bst.insert(i);
    }
}

#[test]
fn second_test_search() {
    let mut bst: BST<i32> = Default::default();
    for i in 0..10000 {
        bst.insert(i);
        assert_eq!(bst.search(&i), true);
    }
}

#[test]
fn second_test_negative() {
    let mut bst: BST<i32> = Default::default();
    for i in 0..10000 {
        bst.insert(i);
        assert_eq!(bst.search(&(i + 1)), false);
    }
}

#[test]
fn test_into_iter() {
    let mut bst: BST<i32> = Default::default();
    for i in shuffled(100000).into_iter() {
        bst.insert(i);
    }
    let mut n = 0;
    for i in bst.into_values() {
        assert_eq!(i, n);
        n += 1;
    }
    assert_eq!(n, 100000);
}

#[test]
fn test_into_iter_ref() {
    let mut bst: BST<i32> = Default::default();
    for i in shuffled(100000).into_iter() {
        bst.insert(i);
    }
    let mut n = 0;
    for i in bst.values() {
        assert_eq!(*i, n);
        n += 1;
    }
    assert_eq!(n, 100000);
}

#[test]
fn test_into_iter_mut() {
    let mut bst: BST<i32> = Default::default();
    for i in shuffled(100000).into_iter() {
        bst.insert(i);
    }
    let mut n = 0;
    for i in bst.values_mut() {
        assert_eq!(*i, n);
        *i = *i + 10;
        n += 1;
    }

    n = 10;
    for i in bst.values() {
        assert_eq!(*i, n);
        n += 1;
    }
    assert_eq!(n, 100010);
}

#[test]
fn two_inserts_then_search_and_consume() {
    let mut bst: BST<i32> = BST::new();
    assert!(bst.insert(0));
    assert!(bst.insert(1));
    assert!(bst.search(&0));
    assert!(!bst.search(&2));
    assert_eq!(bst.into_values(), vec![0, 1]);
}

#[test]
fn duplicate_insert_is_rejected() {
    let mut bst: BST<i32> = BST::new();
    assert!(bst.insert(5));
    assert!(bst.insert(3));
    assert!(bst.insert(8));
    assert!(!bst.insert(3));
    assert_eq!(bst.values().len(), 3);
    assert!(bst.search(&3));
    assert_eq!(bst.into_values(), vec![3, 5, 8]);
}

#[test]
fn ascending_chain_search() {
    let mut bst: BST<i32> = BST::new();
    for i in 0..10000 {
        assert!(bst.insert(i));
    }
    for i in 0..10000 {
        assert!(bst.search(&i));
    }
    assert!(!bst.search(&-1));
    assert!(!bst.search(&10000));
    let all: Vec<i32> = bst.values().into_iter().copied().collect();
    assert_eq!(all, (0..10000).collect::<Vec<i32>>());
}

#[test]
fn distinct_keys_found_others_not() {
    let keys = [50, 20, 80, 10, 30, 70, 90, 25, 75];
    let mut bst: BST<i32> = BST::new();
    for k in keys.iter() {
        assert!(bst.insert(*k));
    }
    for k in 0..100 {
        assert_eq!(bst.search(&k), keys.contains(&k));
    }
}

#[test]
fn empty_tree_traversals() {
    let mut bst: BST<i32> = BST::new();
    assert!(!bst.search(&0));
    assert!(bst.values().is_empty());
    assert!(bst.values_mut().is_empty());
    assert!(bst.into_values().is_empty());
}

#[test]
fn insertion_order_does_not_show() {
    let orders: [[i32; 6]; 4] = [
        [1, 2, 3, 4, 5, 6],
        [6, 5, 4, 3, 2, 1],
        [4, 2, 6, 1, 3, 5],
        [3, 6, 1, 5, 2, 4],
    ];
    for order in orders.iter() {
        let mut bst: BST<i32> = BST::new();
        for k in order.iter() {
            bst.insert(*k);
        }
        let shared: Vec<i32> = bst.values().into_iter().copied().collect();
        let exclusive: Vec<i32> = bst.values_mut().into_iter().map(|x| *x).collect();
        let consumed = bst.into_values();
        assert_eq!(shared, vec![1, 2, 3, 4, 5, 6]);
        assert_eq!(exclusive, vec![1, 2, 3, 4, 5, 6]);
        assert_eq!(consumed, vec![1, 2, 3, 4, 5, 6]);
    }
}

#[test]
fn round_trip_reflects_changes() {
    let mut bst: BST<i32> = BST::new();
    for k in [7, 3, 11, 1, 5].iter() {
        bst.insert(*k);
    }
    let shared: Vec<i32> = bst.values().into_iter().copied().collect();
    assert_eq!(shared, vec![1, 3, 5, 7, 11]);
    for (i, x) in bst.values_mut().into_iter().enumerate() {
        *x = *x * 2 + i as i32;
    }
    assert!(bst.search(&17));
    assert!(!bst.search(&11));
    assert_eq!(bst.into_values(), vec![2, 7, 12, 17, 26]);
}

#[test]
fn strings_are_ordered_too() {
    let mut bst: BST<String> = BST::new();
    for w in ["pear", "apple", "fig", "apple"].iter() {
        bst.insert(w.to_string());
    }
    assert!(bst.search(&"fig".to_string()));
    assert!(!bst.search(&"plum".to_string()));
    assert_eq!(bst.into_values(), vec!["apple".to_string(), "fig".to_string(), "pear".to_string()]);
}

#[test]
fn traversals_sort_after_order_is_broken() {
    let mut bst: BST<i32> = BST::new();
    for k in [2, 1, 3].iter() {
        bst.insert(*k);
    }
    let new_values = [30, 20, 10];
    for (x, v) in bst.values_mut().into_iter().zip(new_values.iter()) {
        *x = *v;
    }
    let shared: Vec<i32> = bst.values().into_iter().copied().collect();
    assert_eq!(shared, vec![10, 20, 30]);
    let exclusive: Vec<i32> = bst.values_mut().into_iter().map(|x| *x).collect();
    assert_eq!(exclusive, vec![10, 20, 30]);
    assert_eq!(bst.into_values(), vec![10, 20, 30]);
}

#[test]
fn traversals_keep_repeated_values() {
    let mut bst: BST<i32> = BST::new();
    for k in [4, 2, 6].iter() {
        bst.insert(*k);
    }
    for x in bst.values_mut() {
        *x = 7;
    }
    assert_eq!(bst.into_values(), vec![7, 7, 7]);
}
