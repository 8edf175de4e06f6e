use tagstore::functional::{Either, Lazy};

#[test]
fn either_maps_one_side() {
    let l: Either<i32, String> = Either::Left(2);
    let m = l.map_left(|x| x * 10);
    assert_eq!(m.left_option(), Some(20));
    let r: Either<i32, i32> = Either::Right(5);
    assert_eq!(r.map_left(|x| x + 1).unwrap_right(), 5);
    let r: Either<i32, i32> = Either::Right(5);
    assert_eq!(r.left_option(), None);
}

#[test]
fn lazy_loads_once() {
    let mut v: Lazy<i32> = Lazy::new();
    assert!(!v.loaded());
    assert_eq!(v.get_if_loaded(), None);
    assert_eq!(*v.get(|| 7), 7);
    assert_eq!(*v.get(|| 9), 7);
    assert!(v.loaded());
    let w = Lazy::new_loaded(3);
    assert_eq!(w.get_if_loaded(), Some(&3));
}
