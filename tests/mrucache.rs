use tagstore::mrucache::MRUCache;

fn collect(c: &MRUCache<i32, usize>) -> Vec<(i32, usize)> {
    let mut it = c.iter();
    let mut out = Vec::new();
    while let Some(x) = it.next() {
        out.push(x);
    }
    out
}

#[test]
fn test_insert() {
    let mut mruc = MRUCache::<i32, usize>::new(16);
    mruc.insert(1, 1);
    mruc.insert(2, 0);

    let result = collect(&mruc);
    assert_eq!(result.len(), 2);
    assert_eq!(result[0], (1, 1));
    assert_eq!(result[1], (2, 0));
}

#[test]
fn test_get() {
    let mut mruc = MRUCache::<i32, usize>::new(16);
    mruc.insert(1, 1);
    mruc.insert(2, 0);
    mruc.insert(3, 5);

    let v = mruc.get(&2);
    assert_eq!(v, Some(&0));

    let result = collect(&mruc);
    assert_eq!(result.len(), 3);
    assert_eq!(result[0], (1, 1));
    assert_eq!(result[2], (3, 5));
    assert_eq!(result[1], (2, 0));
}

#[test]
fn capacity_drops_the_oldest() {
    let mut c = MRUCache::<i32, usize>::new(2);
    c.insert(1, 10);
    c.insert(2, 20);
    c.insert(3, 30);
    assert_eq!(c.len(), 2);
    assert_eq!(c.get(&1), None);
    assert_eq!(collect(&c), vec![(2, 20), (3, 30)]);
}

#[test]
fn reinserting_a_key_replaces_it() {
    let mut c = MRUCache::<i32, usize>::new(4);
    c.insert(1, 10);
    c.insert(2, 20);
    c.insert(1, 11);
    assert_eq!(collect(&c), vec![(2, 20), (1, 11)]);
}
