use tagstore::lrucache::LRUCache;

#[test]
fn get_refreshes_and_capacity_drops_least_recent() {
    let mut c = LRUCache::<i32, usize>::new(2);
    c.insert(1, 10);
    c.insert(2, 20);
    assert_eq!(c.get(&1), Some(&10));
    c.insert(3, 30);
    assert_eq!(c.len(), 2);
    assert_eq!(c.get(&2), None);
    assert_eq!(c.get(&1), Some(&10));
    assert_eq!(c.get(&3), Some(&30));
}
