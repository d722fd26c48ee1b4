use std::rc::Rc;
use trie_map::TrieMap;

#[test]
fn trie_insert() {
    let mut trie = TrieMap::<usize>::new_empty();
    let len = 10;

    for i in 0..len {
        let s = format!("{:08}", i).into_bytes();
        trie.insert(&s, i);
    }

    assert_eq!(trie.len(), len);
}

#[test]
fn trie_get() {
    let mut trie = TrieMap::<usize>::new_empty();
    let len = 10;

    let mut values = vec![];
    for i in 0..len {
        let s = format!("{:08}", i).into_bytes();
        trie.insert(&s, i);
        values.push((s, i));
    }

    assert_eq!(trie.len(), len);
    assert_eq!(trie.get("100".as_bytes()), None);
    for v in values {
        assert_eq!(trie.get(&v.0), Some(Rc::new(v.1)));
    }
}

#[test]
fn round_trip_distinct_keys() {
    let mut trie = TrieMap::<u32>::new_empty();
    let keys: [&[u8]; 5] = [b"a", b"ab", b"abc", b"b", b"ba"];
    for (i, k) in keys.iter().enumerate() {
        trie.insert(k, i as u32);
    }
    assert_eq!(trie.len(), 5);
    for (i, k) in keys.iter().enumerate() {
        assert_eq!(trie.get(k), Some(Rc::new(i as u32)));
    }
}

#[test]
fn overwrite_keeps_len() {
    let mut trie = TrieMap::<u32>::new_empty();
    trie.insert(b"ab", 1);
    assert_eq!(trie.len(), 1);
    trie.insert(b"ab", 2);
    assert_eq!(trie.len(), 1);
    assert_eq!(trie.get(b"ab"), Some(Rc::new(2)));
}

#[test]
fn prefix_never_inserted_is_absent() {
    let mut trie = TrieMap::<u32>::new_empty();
    trie.insert(b"ab", 7);
    assert_eq!(trie.get(b"a"), None);
    assert_eq!(trie.get(b"ab"), Some(Rc::new(7)));
    assert_eq!(trie.len(), 1);
}

#[test]
fn empty_key_is_a_no_op() {
    let mut trie = TrieMap::<u32>::new_empty();
    trie.insert(b"", 1);
    assert_eq!(trie.len(), 0);
    assert_eq!(trie.get(b""), None);
    assert_eq!(trie.remove(b""), None);
    trie.insert(b"x", 2);
    trie.insert(b"", 3);
    assert_eq!(trie.len(), 1);
    assert_eq!(trie.get(b""), None);
}

#[test]
fn remove_then_reinsert() {
    let mut trie = TrieMap::<u32>::new_empty();
    trie.insert(b"abc", 5);
    trie.insert(b"abd", 6);
    assert_eq!(trie.len(), 2);
    assert_eq!(trie.remove(b"abc"), Some(Rc::new(5)));
    assert_eq!(trie.get(b"abc"), None);
    assert_eq!(trie.len(), 1);
    trie.insert(b"abc", 5);
    assert_eq!(trie.get(b"abc"), Some(Rc::new(5)));
    assert_eq!(trie.len(), 2);
}

#[test]
fn remove_missing_key() {
    let mut trie = TrieMap::<u32>::new_empty();
    trie.insert(b"abc", 5);
    assert_eq!(trie.remove(b"zz"), None);
    assert_eq!(trie.remove(b"ab"), None);
    assert_eq!(trie.remove(b"abcd"), None);
    assert_eq!(trie.len(), 1);
}

#[test]
fn append_disjoint_maps() {
    let mut a = TrieMap::<u32>::new_empty();
    a.insert(b"aa", 1);
    a.insert(b"ab", 2);
    let mut b = TrieMap::<u32>::new_empty();
    b.insert(b"b", 3);
    b.insert(b"c", 4);
    a.append(&mut b);
    assert_eq!(a.len(), 4);
    assert_eq!(a.get(b"aa"), Some(Rc::new(1)));
    assert_eq!(a.get(b"ab"), Some(Rc::new(2)));
    assert_eq!(a.get(b"b"), Some(Rc::new(3)));
    assert_eq!(a.get(b"c"), Some(Rc::new(4)));
    assert_eq!(b.len(), 0);
    assert_eq!(b.get(b"b"), None);
}

#[test]
fn append_collision_takes_other() {
    let mut a = TrieMap::<u32>::new_empty();
    a.insert(b"k", 1);
    a.insert(b"only", 9);
    let mut b = TrieMap::<u32>::new_empty();
    b.insert(b"k", 2);
    a.append(&mut b);
    assert_eq!(a.len(), 2);
    assert_eq!(a.get(b"k"), Some(Rc::new(2)));
    assert_eq!(a.get(b"only"), Some(Rc::new(9)));
}

#[test]
fn ten_padded_keys_by_index() {
    let mut trie = TrieMap::<usize>::new_empty();
    let mut keys = vec![];
    for i in 0..10 {
        let s = format!("{:08}", i).into_bytes();
        trie.insert(&s, i);
        keys.push(s);
    }
    assert_eq!(trie.len(), 10);
    assert_eq!(trie.get("00000100".as_bytes()), None);
    for (i, k) in keys.iter().enumerate() {
        assert_eq!(trie.get(k), Some(Rc::new(i)));
    }
}

#[test]
fn remove_prunes_but_keeps_siblings() {
    let mut trie = TrieMap::<u32>::new_empty();
    trie.insert(b"a", 3);
    trie.insert(b"abcx", 1);
    trie.insert(b"abd", 2);
    assert_eq!(trie.remove(b"abcx"), Some(Rc::new(1)));
    assert_eq!(trie.get(b"abcx"), None);
    assert_eq!(trie.get(b"abc"), None);
    assert_eq!(trie.get(b"abd"), Some(Rc::new(2)));
    assert_eq!(trie.get(b"a"), Some(Rc::new(3)));
    assert_eq!(trie.len(), 2);
    trie.insert(b"abcx", 4);
    assert_eq!(trie.get(b"abcx"), Some(Rc::new(4)));
    assert_eq!(trie.len(), 3);
    // removing the last key under a whole branch prunes up to the root
    let mut solo = TrieMap::<u32>::new_empty();
    solo.insert(b"deep", 9);
    assert_eq!(solo.remove(b"deep"), Some(Rc::new(9)));
    assert_eq!(solo.len(), 0);
    assert_eq!(solo.get(b"deep"), None);
    solo.insert(b"deep", 10);
    assert_eq!(solo.get(b"deep"), Some(Rc::new(10)));
}

#[test]
fn get_returns_shared_handle() {
    let mut trie = TrieMap::<String>::new_empty();
    trie.insert(b"key", String::from("payload"));
    let first = trie.get(b"key").unwrap();
    let second = trie.get(b"key").unwrap();
    assert_eq!(*first, "payload");
    assert!(Rc::ptr_eq(&first, &second));
    // the handle outlives removal of its key
    let detached = trie.remove(b"key").unwrap();
    assert!(Rc::ptr_eq(&first, &detached));
    assert_eq!(trie.get(b"key"), None);
}
