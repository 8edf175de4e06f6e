use tagstore::args::Args;
use tagstore::lex::lex;
use tagstore::models::Entry;
use tagstore::parse::{parse, OrQuery};
use tagstore::store::{Store, StoreError};

fn query_of(args: &[&str]) -> OrQuery {
    let mut q = match lex(&Args::new(args)) {
        Ok(q) => q,
        Err(_) => panic!("lexing failed"),
    };
    match parse(&mut q) {
        Ok(o) => o,
        Err(_) => panic!("parse failed"),
    }
}

fn dir_paths(entries: &[Entry]) -> Vec<String> {
    let mut v: Vec<String> = entries
        .iter()
        .map(|e| match e {
            Entry::Directory(d) => d.path.clone(),
            Entry::File(f) => format!("file:{}", f.filename),
        })
        .collect();
    v.sort();
    v
}

#[test]
fn add_directory_is_idempotent() {
    let mut s = Store::new();
    let (d1, created1) = s.add_directory("/a/b").unwrap();
    assert!(created1);
    assert_eq!(d1.path, "/a/b");
    assert!(matches!(s.get_entry("/a"), Some(Entry::Directory(_))));
    assert!(matches!(s.get_entry("/"), Some(Entry::Directory(_))));
    let (d2, created2) = s.add_directory("/a/b/").unwrap();
    assert!(!created2);
    assert_eq!(d2.id, d1.id);
}

#[test]
fn add_file_creates_its_directories() {
    let mut s = Store::new();
    let (f, created) = s.add_file("/x/y/z.txt", &[1, 2, 3]).unwrap();
    assert!(created);
    assert_eq!(f.filename, "z.txt");
    assert_eq!(f.hash, vec![1, 2, 3]);
    match s.get_entry("/x/y") {
        Some(Entry::Directory(d)) => assert_eq!(d.id, f.directory_id),
        _ => panic!("parent directory missing"),
    }
    let (again, created) = s.add_file("/x/y/z.txt", &[9]).unwrap();
    assert!(!created);
    assert_eq!(again.id, f.id);
    assert_eq!(again.hash, vec![1, 2, 3]);
}

#[test]
fn paths_cannot_be_both_kinds() {
    let mut s = Store::new();
    s.add_file("/a/f", &[]).unwrap();
    assert!(matches!(s.add_directory("/a/f"), Err(StoreError::PathConflict)));
    assert!(matches!(s.add_directory("/a/f/g"), Err(StoreError::PathConflict)));
    assert!(matches!(s.add_file("/a", &[]), Err(StoreError::PathConflict)));
    assert!(matches!(s.add_file("/", &[]), Err(StoreError::NoParent)));
}

#[test]
fn metadata_upsert_and_delete() {
    let mut s = Store::new();
    let (d, _) = s.add_directory("/e").unwrap();
    let e = Entry::Directory(d);
    assert_eq!(s.entry_metadata_set(&e, "k", Some("v1")).unwrap(), None);
    assert_eq!(s.entry_metadata_set(&e, "k", Some("v2")).unwrap(), Some("v1".to_string()));
    assert_eq!(s.entry_metadata_get(&e, "k"), Some("v2".to_string()));
    assert_eq!(s.entry_metadata_set(&e, "k", None).unwrap(), Some("v2".to_string()));
    assert_eq!(s.entry_metadata_get(&e, "k"), None);
    assert!(s.entry_metadata(&e).is_empty());
}

#[test]
fn metadata_of_missing_entry_is_an_error() {
    let mut s = Store::new();
    let (f, _) = s.add_file("/f", &[]).unwrap();
    let e = Entry::File(f);
    assert!(s.remove_entry(&e).unwrap());
    assert!(matches!(s.entry_metadata_set(&e, "k", Some("v")), Err(StoreError::MissingEntry)));
}

fn tagged_store() -> (Store, Entry, Entry, Entry) {
    let mut s = Store::new();
    let (a, _) = s.add_file("/one", &[]).unwrap();
    let (b, _) = s.add_file("/two", &[]).unwrap();
    let (c, _) = s.add_file("/three", &[]).unwrap();
    let (a, b, c) = (Entry::File(a), Entry::File(b), Entry::File(c));
    s.entry_metadata_set(&a, "color", Some("red")).unwrap();
    s.entry_metadata_set(&b, "color", Some("blue")).unwrap();
    s.entry_metadata_set(&c, "size", Some("big")).unwrap();
    (s, a, b, c)
}

#[test]
fn query_selects_by_tags() {
    let (s, _, _, _) = tagged_store();
    let r = s.query(&query_of(&["color=red or size=big"]));
    assert_eq!(dir_paths(&r), vec!["file:one".to_string(), "file:three".to_string()]);
    let r = s.query(&query_of(&["color", "in", "(red,", "blue)"]));
    assert_eq!(dir_paths(&r), vec!["file:one".to_string(), "file:two".to_string()]);
    let r = s.query(&query_of(&["color"]));
    assert_eq!(r.len(), 2);
    let r = s.query(&query_of(&["color", "matches", "'^b'"]));
    assert_eq!(dir_paths(&r), vec!["file:two".to_string()]);
    let r = s.query(&query_of(&["color", "matches", "'('"]));
    assert!(r.is_empty());
    let r = s.query(&query_of(&["color=red", "and", "size=big"]));
    assert!(r.is_empty());
}

#[test]
fn removing_entries() {
    let mut s = Store::new();
    let (d, _) = s.add_directory("/d").unwrap();
    let (f, _) = s.add_file("/d/f", &[]).unwrap();
    let root = match s.get_entry("/") {
        Some(e) => e,
        None => panic!("no root"),
    };
    assert!(!s.remove_entry(&root).unwrap());
    let de = Entry::Directory(d);
    assert!(matches!(s.remove_entry(&de), Err(StoreError::NotEmpty)));
    let fe = Entry::File(f);
    s.entry_metadata_set(&fe, "k", Some("v")).unwrap();
    assert!(s.remove_entry(&fe).unwrap());
    assert!(s.get_entry("/d/f").is_none());
    assert!(!s.remove_entry(&fe).unwrap());
    assert!(s.remove_entry(&de).unwrap());
    assert!(s.get_entry("/d").is_none());
}

#[test]
fn directory_entries_lists_the_subtree() {
    let mut s = Store::new();
    s.add_file("/a/b/f1", &[]).unwrap();
    s.add_file("/a/f2", &[]).unwrap();
    s.add_file("/ab/f3", &[]).unwrap();
    let a = match s.get_entry("/a") {
        Some(Entry::Directory(d)) => d,
        _ => panic!("no /a"),
    };
    let r = s.directory_entries(&a);
    assert_eq!(dir_paths(&r), vec!["/a/b".to_string(), "file:f1".to_string(), "file:f2".to_string()]);
}

#[test]
fn batch_lookup_and_listing() {
    let mut s = Store::new();
    s.add_file("/p/q", &[]).unwrap();
    let r = s.get_entries(&["/p", "/p/q", "/missing", "/q"]);
    assert_eq!(dir_paths(&r), vec!["/p".to_string(), "file:q".to_string()]);
    let e = r.into_iter().find(|e| matches!(e, Entry::File(_))).unwrap();
    s.entry_metadata_set(&e, "a", Some("1")).unwrap();
    s.entry_metadata_set(&e, "b", Some("2")).unwrap();
    let mut pairs = s.entry_metadata(&e);
    pairs.sort();
    assert_eq!(pairs, vec![("a".to_string(), "1".to_string()), ("b".to_string(), "2".to_string())]);
    assert_eq!(s.entry_metadata_clear(&e), 2);
    assert!(s.entry_metadata(&e).is_empty());
}

#[test]
fn split_entries_by_kind() {
    let mut s = Store::new();
    s.add_file("/s/t", &[]).unwrap();
    let entries = s.get_entries(&["/s", "/s/t"]);
    let (files, dirs) = Entry::iter_split(entries);
    assert_eq!(files.len(), 1);
    assert_eq!(dirs.len(), 1);
    assert_eq!(files[0].filename, "t");
    assert_eq!(dirs[0].path, "/s");
}

#[test]
fn batch_additions_count_new_rows() {
    let mut s = Store::new();
    assert_eq!(s.add_directories(&["/a/b", "/a/c", "/a"]).unwrap(), 3);
    assert_eq!(s.add_directories(&["/a/b"]).unwrap(), 0);
    assert_eq!(s.add_files(&[("/a/b/f", &[1u8][..]), ("/d/g", &[2u8][..])]).unwrap(), 3);
    assert!(matches!(s.add_directories(&["/x", "/a/b/f/y"]), Err(StoreError::PathConflict)));
    assert!(s.get_entry("/x").is_some());
    assert!(matches!(s.add_files(&[("/", &[][..])]), Err(StoreError::NoParent)));
}

#[test]
fn batch_metadata_is_all_or_nothing() {
    let mut s = Store::new();
    let (a, _) = s.add_file("/a", &[]).unwrap();
    let (b, _) = s.add_file("/b", &[]).unwrap();
    let (gone, _) = s.add_file("/gone", &[]).unwrap();
    let gone = Entry::File(gone);
    assert!(s.remove_entry(&gone).unwrap());
    let entries = vec![Entry::File(a), Entry::File(b)];
    let prev = s.entries_metadata_set(&entries, "t", Some("x")).unwrap();
    assert_eq!(prev, vec![None, None]);
    let with_gone = vec![entries[0].clone(), gone];
    assert!(matches!(s.entries_metadata_set(&with_gone, "t", Some("y")), Err(StoreError::MissingEntry)));
    assert_eq!(s.entry_metadata_get(&entries[0], "t"), Some("x".to_string()));
    let got = s.entries_metadata_get(&entries, "t");
    assert_eq!(got.len(), 2);
    assert!(got.iter().all(|(_, v)| v == "x"));
}

#[test]
fn file_directory_finds_the_parent() {
    let mut s = Store::new();
    let (f, _) = s.add_file("/p/q/r", &[]).unwrap();
    let d = s.file_directory(&f).unwrap();
    assert_eq!(d.path, "/p/q");
    assert_eq!(d.id, f.directory_id);
}

#[test]
fn directory_entry_by_name() {
    let mut s = Store::new();
    s.add_file("/m/n.txt", &[]).unwrap();
    s.add_directory("/m/sub").unwrap();
    let m = match s.get_entry("/m") {
        Some(Entry::Directory(d)) => d,
        _ => panic!("no /m"),
    };
    assert!(matches!(s.directory_entry(&m, "n.txt"), Some(Entry::File(_))));
    assert!(matches!(s.directory_entry(&m, "sub"), Some(Entry::Directory(_))));
    assert!(s.directory_entry(&m, "other").is_none());
    let root = match s.get_entry("/") {
        Some(Entry::Directory(d)) => d,
        _ => panic!("no root"),
    };
    assert!(matches!(s.directory_entry(&root, "m"), Some(Entry::Directory(_))));
}

#[test]
fn batch_clear_counts_pairs() {
    let mut s = Store::new();
    let (a, _) = s.add_file("/a", &[]).unwrap();
    let (b, _) = s.add_file("/b", &[]).unwrap();
    let entries = vec![Entry::File(a), Entry::File(b)];
    assert_eq!(s.entries_metadata_clear(&entries), 0);
    s.entries_metadata_set(&entries, "x", Some("1")).unwrap();
    s.entry_metadata_set(&entries[0], "y", Some("2")).unwrap();
    assert_eq!(s.entries_metadata_clear(&entries), 3);
    assert!(s.entry_metadata(&entries[0]).is_empty());
    assert!(s.entry_metadata(&entries[1]).is_empty());
}

#[test]
fn tagged_subtree_listing() {
    let mut s = Store::new();
    let (f1, _) = s.add_file("/t/a", &[]).unwrap();
    let (f2, _) = s.add_file("/t/b", &[]).unwrap();
    let (f3, _) = s.add_file("/u/c", &[]).unwrap();
    s.entry_metadata_set(&Entry::File(f1), "k", Some("1")).unwrap();
    s.entry_metadata_set(&Entry::File(f2), "k", Some("2")).unwrap();
    s.entry_metadata_set(&Entry::File(f3), "k", Some("1")).unwrap();
    let t = match s.get_entry("/t") {
        Some(Entry::Directory(d)) => d,
        _ => panic!("no /t"),
    };
    assert_eq!(dir_paths(&s.directory_entries_with_key(&t, "k")), vec!["file:a".to_string(), "file:b".to_string()]);
    assert_eq!(dir_paths(&s.directory_entries_with_key_and_value(&t, "k", "2")), vec!["file:b".to_string()]);
    let all = s.get_entries(&["/t/a", "/t/b"]);
    let meta = s.entries_metadata(&all);
    assert_eq!(meta.len(), 2);
    assert!(meta.iter().all(|(_, pairs)| pairs.len() == 1));
}

#[test]
fn batch_removal_stops_at_a_full_directory() {
    let mut s = Store::new();
    let (f, _) = s.add_file("/r/x", &[]).unwrap();
    let (d, _) = s.add_directory("/r").unwrap();
    let (e, _) = s.add_directory("/empty").unwrap();
    let list = vec![Entry::Directory(e), Entry::Directory(d.clone()), Entry::File(f.clone())];
    assert!(matches!(s.remove_entries(&list), Err(StoreError::NotEmpty)));
    assert!(s.get_entry("/empty").is_none());
    let list = vec![Entry::File(f), Entry::Directory(d)];
    assert_eq!(s.remove_entries(&list).unwrap(), 2);
    assert!(s.get_entry("/r").is_none());
}
