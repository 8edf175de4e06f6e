use tagstore::path::Path;

#[test]
fn test_filename() {
    let cases = [("/foo", "foo"), ("/foo/bar", "bar"), ("/", "")];

    let paths = cases.iter().map(|x| Path::new(x.0)).collect::<Vec<Path>>();

    for (path, exp) in paths.iter().zip(cases.iter().map(|x| x.1)) {
        assert_eq!(path.filename(), exp);
    }
}

#[test]
fn test_pop() {
    let cases = [("/foo", "/"), ("/foo/bar", "/foo"), ("/", "/")];

    let paths = cases.iter().map(|x| Path::new(x.0)).collect::<Vec<Path>>();

    for (path, exp) in paths.iter().zip(cases.iter().map(|x| x.1)) {
        assert_eq!(path.parent(), exp);
    }
}

#[test]
fn trailing_slash_is_dropped() {
    assert!(Path::new("/foo/") == Path::new("/foo"));
    assert_eq!(Path::new("/foo///").str(), "/foo");
}

#[test]
fn leading_slash_is_forced_and_double_collapsed() {
    assert_eq!(Path::new("foo/bar").str(), "/foo/bar");
    assert_eq!(Path::new("//foo").str(), "/foo");
    assert_eq!(Path::new("").str(), "/");
    assert_eq!(Path::new("/").str(), "/");
}

#[test]
fn parent_and_filename_rebuild_the_path() {
    for raw in ["/a", "/a/b", "/a/b/c", "/x/y.txt"] {
        let p = Path::new(raw);
        let parent = p.parent();
        let rebuilt = if parent == "/" {
            format!("/{}", p.filename())
        } else {
            format!("{}/{}", parent, p.filename())
        };
        assert_eq!(rebuilt, raw);
    }
}

#[test]
fn pop_moves_to_the_parent() {
    let mut p = Path::new("/a/b/c");
    assert_eq!(p.pop(), "c");
    assert_eq!(p.str(), "/a/b");
    assert_eq!(p.pop(), "b");
    assert_eq!(p.pop(), "a");
    assert_eq!(p.str(), "/");
    assert_eq!(p.pop(), "");
    assert_eq!(p.str(), "/");
}

#[test]
fn parent_str_of_plain_strings() {
    assert_eq!(Path::parent_str("/a//b"), "/a");
    assert_eq!(Path::parent_str("name"), "/");
    assert_eq!(Path::parent_str(""), "/");
}
