use skiplist::SkipList;

#[test]
fn scenario_insert_and_traverse() {
    let mut l = SkipList::new(4);
    for v in [5i64, 1, 9, 3] {
        l.insert(v);
    }
    assert!(l.contains(&3));
    assert!(!l.contains(&7));
    assert_eq!(l.values(), vec![1i64, 3, 5, 9]);
    assert_eq!(l.len(), 4);
}

#[test]
fn invalid_level_configurations_refused() {
    assert!(SkipList::try_new(0).is_none());
    assert!(SkipList::try_new(65).is_none());
    assert!(SkipList::try_new(1).is_some());
    assert!(SkipList::try_new(64).is_some());
}

#[test]
fn seeded_random_inserts_all_found() {
    let mut rng = fastrand::Rng::with_seed(0x5eed_cafe);
    let mut l = SkipList::with_seed(9, 12345);
    let mut vals: Vec<i64> = Vec::new();
    while vals.len() < 200 {
        // odd values only, so the even probes below are disjoint
        let v = rng.i64(..) | 1;
        if !vals.contains(&v) {
            vals.push(v);
            l.insert(v);
        }
    }
    rng.shuffle(vals.as_mut_slice());
    for v in &vals {
        assert!(l.contains(v));
    }
    for _ in 0..50 {
        let w = rng.i64(..) & !1;
        assert!(!l.contains(&w));
    }
}

#[test]
fn duplicate_values_found() {
    let mut l = SkipList::new(4);
    l.insert(42);
    l.insert(42);
    assert_eq!(l.find(&42), Some(42));
    assert_eq!(l.len(), 2);
}

#[test]
fn find_node_lands_on_last_equal() {
    let mut l = SkipList::with_seed(4, 5);
    l.insert(7);
    l.insert(7);
    l.insert(7);
    let base = l.level_nodes(0);
    assert_eq!(base.len(), 3);
    let r = l.find_node(&7);
    assert_eq!(r, *base.last().unwrap());
    let h = l.find_node(&6);
    assert_eq!(h, 0);
}

#[test]
fn traversal_yields_sorted_sequence() {
    let mut rng = fastrand::Rng::with_seed(7);
    let mut l = SkipList::new(8);
    for _ in 0..100 {
        l.insert(rng.i64(-50..50));
    }
    let vs = l.values();
    assert_eq!(vs.len(), 100);
    for w in vs.windows(2) {
        assert!(w[0] <= w[1]);
    }
}

#[test]
fn towers_reachable_at_each_level_up_to_height() {
    let mut l = SkipList::with_seed(6, 99);
    for i in 0..80 {
        l.insert(i);
    }
    let base = l.level_nodes(0);
    assert_eq!(base.len(), 80);
    for k in 0..6usize {
        let chain = l.level_nodes(k);
        for &j in &chain {
            let h = l.node_level(j);
            assert!(h >= k && h <= 5);
            for k2 in 0..k {
                assert!(l.level_nodes(k2).contains(&j));
            }
        }
        for &j in &base {
            if l.node_level(j) >= k {
                assert!(chain.contains(&j));
            } else {
                assert!(!chain.contains(&j));
            }
        }
    }
}

#[test]
fn level_distribution_truncated_geometric() {
    let mut l = SkipList::with_seed(16, 2024);
    let n = 20000usize;
    let mut counts = [0usize; 16];
    for _ in 0..n {
        let lv = l.gen_level();
        assert!(lv < 16);
        counts[lv] += 1;
    }
    let mut ge = [0usize; 17];
    for k in (0..16).rev() {
        ge[k] = ge[k + 1] + counts[k];
    }
    assert_eq!(ge[0], n);
    // P(level >= k) is about 2^-k: with this fixed seed the sampled
    // frequencies stay well within a factor of two of that
    for k in 1..6 {
        let expected = n >> k;
        assert!(2 * ge[k] >= expected);
        assert!(ge[k] <= 2 * expected);
    }
}

#[test]
fn level_from_bits_counts_trailing_ones() {
    assert_eq!(skiplist::level_from_bits(0b0111, 8), 3);
    assert_eq!(skiplist::level_from_bits(0b0110, 8), 0);
    assert_eq!(skiplist::level_from_bits(u64::MAX, 8), 7);
    assert_eq!(skiplist::level_from_bits(u64::MAX, 64), 63);
    assert_eq!(skiplist::level_from_bits(0, 1), 0);
    assert_eq!(skiplist::level_from_bits(0b1011_1111, 8), 6);
}
