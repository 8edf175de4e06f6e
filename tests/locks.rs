use tagstore::locks::{LockMode, LockTable, Resource};

#[test]
fn writer_excludes_readers_until_released() {
    let mut t = LockTable::new();
    let write = [(Resource::FileMetadata, LockMode::Write), (Resource::File, LockMode::Read)];
    let read = [(Resource::FileMetadata, LockMode::Read)];
    assert!(t.try_acquire(&write));
    assert!(!t.try_acquire(&read));
    assert!(!t.try_acquire(&write));
    t.release(&write);
    assert!(t.try_acquire(&read));
    assert!(t.try_acquire(&read));
    assert_eq!(t.state(Resource::FileMetadata).readers, 2);
    assert!(!t.try_acquire(&write));
}

#[test]
fn disjoint_requests_do_not_wait() {
    let mut t = LockTable::new();
    let a = [(Resource::File, LockMode::Write), (Resource::Directory, LockMode::Read)];
    let b = [(Resource::DirectoryMetadata, LockMode::Write), (Resource::Directory, LockMode::Read)];
    assert!(t.try_acquire(&a));
    assert!(t.try_acquire(&b));
    t.release(&a);
    t.release(&b);
    assert_eq!(t.state(Resource::Directory).readers, 0);
}

#[test]
fn refused_request_takes_nothing() {
    let mut t = LockTable::new();
    assert!(t.try_acquire(&[(Resource::Directory, LockMode::Write)]));
    assert!(!t.try_acquire(&[(Resource::File, LockMode::Write), (Resource::Directory, LockMode::Read)]));
    assert!(!t.state(Resource::File).writer);
}
