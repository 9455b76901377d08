use sync_naive_lru::Cache;
use sync_naive_lru::IntoIter;
use sync_naive_lru::Node;
use sync_naive_lru::SyncNaiveLru;

fn setup_lru_with_capacity_3() -> SyncNaiveLru<i32, i32> {
    let mut lru = SyncNaiveLru::new(3);
    vec![(1, 2), (3, 4), (5, 6)]
        .iter()
        .for_each(|kv| lru.insert(kv.0, kv.1));
    lru
}

fn drain(mut it: IntoIter<i32, i32>) -> Vec<(i32, i32)> {
    let mut out = Vec::new();
    while let Some(pair) = it.next() {
        out.push(pair);
    }
    out
}

#[test]
fn just_insert() {
    let lru = setup_lru_with_capacity_3();
    let tail = lru.to_vec()[0];
    assert_eq!(tail, (1, 2));
    assert_eq!(drain(lru.into_iter()), vec![(1, 2), (3, 4), (5, 6)]);
}

#[test]
fn detach_head() {
    let mut lru = setup_lru_with_capacity_3();
    lru.detach(&5);
    assert_eq!(drain(lru.into_iter()), vec![(1, 2), (3, 4)]);
}

#[test]
fn detach_middle() {
    let mut lru = setup_lru_with_capacity_3();
    lru.detach(&3);
    assert_eq!(drain(lru.into_iter()), vec![(1, 2), (5, 6)]);
}

#[test]
fn detach_tail() {
    let mut lru = setup_lru_with_capacity_3();
    lru.detach(&1);
    assert_eq!(drain(lru.into_iter()), vec![(3, 4), (5, 6)]);
}

#[test]
fn exceeding_insert() {
    let mut lru = SyncNaiveLru::new(3);
    let expected = vec![(1, 2), (3, 4), (5, 6), (7, 8)];
    expected.iter().for_each(|kv| lru.insert(kv.0, kv.1));

    assert_eq!(lru.get(&1), None);
    assert_eq!(drain(lru.into_iter()), vec![(3, 4), (5, 6), (7, 8)]);
}

#[test]
fn get_reorders_entry() {
    let mut lru = setup_lru_with_capacity_3();
    assert_eq!(lru.get(&3), Some(4));
    assert_eq!(drain(lru.into_iter()), vec![(1, 2), (5, 6), (3, 4)]);
}

#[test]
fn capacity_is_never_exceeded() {
    let mut lru = SyncNaiveLru::new(2);
    for k in 0..50 {
        lru.insert(k, k * 10);
        assert!(lru.to_vec().len() <= 2);
    }
    assert_eq!(lru.to_vec(), vec![(48, 480), (49, 490)]);
}

#[test]
fn reinsert_overwrites_and_promotes() {
    let mut lru = setup_lru_with_capacity_3();
    lru.insert(1, 9);
    assert_eq!(lru.to_vec(), vec![(3, 4), (5, 6), (1, 9)]);
    assert_eq!(lru.get(&1), Some(9));
}

#[test]
fn reinsert_does_not_evict() {
    let mut lru = setup_lru_with_capacity_3();
    lru.insert(3, 40);
    assert_eq!(lru.to_vec(), vec![(1, 2), (5, 6), (3, 40)]);
}

#[test]
fn get_absent_changes_nothing() {
    let mut lru = setup_lru_with_capacity_3();
    assert_eq!(lru.get(&42), None);
    assert_eq!(lru.to_vec(), vec![(1, 2), (3, 4), (5, 6)]);
}

#[test]
fn single_entry_detach_empties() {
    let mut lru = SyncNaiveLru::new(3);
    lru.insert(7, 70);
    lru.detach(&7);
    assert!(lru.is_empty());
    assert_eq!(lru.to_vec(), vec![]);
}

#[test]
fn capacity_zero_self_evicts() {
    let mut lru = SyncNaiveLru::new(0);
    lru.insert(1, 2);
    assert!(lru.is_empty());
    assert_eq!(lru.get(&1), None);
}

#[test]
fn detach_absent_changes_nothing() {
    let mut lru = setup_lru_with_capacity_3();
    lru.detach(&42);
    assert_eq!(lru.to_vec(), vec![(1, 2), (3, 4), (5, 6)]);
}

#[test]
fn to_vec_does_not_consume() {
    let lru = setup_lru_with_capacity_3();
    assert_eq!(lru.to_vec(), lru.to_vec());
    assert_eq!(drain(lru.into_iter()), vec![(1, 2), (3, 4), (5, 6)]);
}

#[test]
fn iterator_is_one_shot() {
    let lru = setup_lru_with_capacity_3();
    let mut it = lru.into_iter();
    assert_eq!(it.next(), Some((1, 2)));
    assert_eq!(it.next(), Some((3, 4)));
    assert_eq!(it.next(), Some((5, 6)));
    assert_eq!(it.next(), None);
    assert_eq!(it.next(), None);
}

#[test]
fn node_new_is_unlinked() {
    let n: Node<i32, i32> = Node::new(1, 2);
    assert_eq!(n.key, 1);
    assert_eq!(n.value, 2);
    assert!(n.next.is_none());
    assert!(n.prev.is_none());
}

fn through_trait<C: Cache<i32, i32>>(c: &mut C) -> Option<i32> {
    c.insert(1, 7);
    c.get(&1)
}

#[test]
fn cache_trait_reaches_the_lru() {
    let mut lru: SyncNaiveLru<i32, i32> = SyncNaiveLru::new(2);
    assert_eq!(through_trait(&mut lru), Some(7));
}

#[test]
fn recency_follows_gets_under_eviction() {
    let mut lru = SyncNaiveLru::new(3);
    lru.insert(1, 2);
    lru.insert(3, 4);
    lru.insert(5, 6);
    assert_eq!(lru.get(&1), Some(2));
    lru.insert(7, 8);
    assert_eq!(lru.get(&3), None);
    assert_eq!(lru.to_vec(), vec![(5, 6), (1, 2), (7, 8)]);
}
