use skiplist::SkipList;

#[test]
fn insert_and_lookup_same_order() {
    let mut l = SkipList::new(8);
    for i in 0..10 {
        l.insert(i);
    }

    for i in 0..10i64 {
        assert!(l.contains(&i));
    }
}

#[test]
fn insert_and_lookup_different_order() {
    let mut l = SkipList::new(9);
    let mut nums = Vec::new();
    for _ in 0..200 {
        let i = fastrand::i32(..);
        l.insert(i as i64);
        nums.push(i);
    }
    fastrand::shuffle(nums.as_mut());

    for i in nums.into_iter() {
        assert!(l.contains(&(i as i64)));
    }
}

#[test]
fn empty_and_missing_lookups() {
    let l = SkipList::new(5);
    assert_eq!(l.len(), 0);
    assert!(!l.contains(&0));
    assert_eq!(l.find(&3), None);
    assert!(l.values().is_empty());
}

#[test]
fn node_constructors() {
    let h = skiplist::SkipListNode::new_head(4);
    assert!(h.is_head());
    assert_eq!(h.val(), None);
    let n = skiplist::SkipListNode::new(7, 2, Some(0), 4);
    assert_eq!(n.val(), Some(7));
    assert!(!n.is_head());
}
