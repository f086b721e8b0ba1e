use pandt::foldertree::{FolderPath, FolderTreeError};

fn segs(items: Vec<&str>) -> FolderPath {
    FolderPath::from_vec(items.into_iter().map(|s| s.to_string()).collect())
}

#[test]
fn path_parsing() {
    assert_eq!(FolderPath::from_string("").unwrap(), segs(vec![]));
    assert!(FolderPath::from_string("").unwrap().is_root());
    assert_eq!(FolderPath::from_string("/foo/bar").unwrap(), segs(vec!["foo", "bar"]));
    match FolderPath::from_string("foo") {
        Err(FolderTreeError::InvalidFolderPath(s)) => assert_eq!(s, "foo"),
        x => panic!("Unexpected result: {:?}", x),
    }
    match FolderPath::from_string("foo/bar") {
        Err(FolderTreeError::InvalidFolderPath(s)) => assert_eq!(s, "foo/bar"),
        x => panic!("Unexpected result: {:?}", x),
    }
    match FolderPath::from_string(" /foo") {
        Err(FolderTreeError::InvalidFolderPath(s)) => assert_eq!(s, " /foo"),
        x => panic!("Unexpected result: {:?}", x),
    }
}

#[test]
fn path_parsing_keeps_empty_pieces() {
    assert_eq!(FolderPath::from_string("/").unwrap(), segs(vec![""]));
    assert_eq!(FolderPath::from_string("//a").unwrap(), segs(vec!["", "a"]));
    assert_eq!(FolderPath::from_string("/a/").unwrap(), segs(vec!["a", ""]));
    assert_eq!(FolderPath::from_string("/a//b").unwrap(), segs(vec!["a", "", "b"]));
}

#[test]
fn path_parsing_counts_characters() {
    assert_eq!(
        FolderPath::from_string("/caf\u{e9}/\u{fc}ber/\u{65e5}\u{672c}").unwrap(),
        segs(vec!["caf\u{e9}", "\u{fc}ber", "\u{65e5}\u{672c}"])
    );
    match FolderPath::from_string("\u{e9}/a") {
        Err(FolderTreeError::InvalidFolderPath(s)) => assert_eq!(s, "\u{e9}/a"),
        x => panic!("Unexpected result: {:?}", x),
    }
}

#[test]
fn parse_is_from_string() {
    let parsed: FolderPath = "/usr/bin".parse().unwrap();
    assert_eq!(parsed, FolderPath::from_string("/usr/bin").unwrap());
    assert!("usr".parse::<FolderPath>().is_err());
}

#[test]
fn rendering() {
    assert_eq!(segs(vec![]).to_string(), "");
    assert_eq!(segs(vec!["foo"]).to_string(), "/foo");
    assert_eq!(segs(vec!["foo", "bar"]).to_string(), "/foo/bar");
    assert_eq!(segs(vec![""]).to_string(), "/");
    assert_eq!(segs(vec!["a/b"]).to_string(), "/a/b");
}

#[test]
fn rendering_undoes_parsing() {
    for text in vec!["", "/", "/a", "/a/b/c", "//", "/a//b/", "/\u{e9}/x"] {
        assert_eq!(FolderPath::from_string(text).unwrap().to_string(), text);
    }
}

#[test]
fn parsing_undoes_rendering() {
    for path in vec![segs(vec![]), segs(vec!["a"]), segs(vec!["a", "b"]), segs(vec!["", ""])] {
        assert_eq!(FolderPath::from_string(&path.to_string()).unwrap(), path);
    }
    assert_eq!(
        FolderPath::from_string(&segs(vec!["a/b"]).to_string()).unwrap(),
        segs(vec!["a", "b"])
    );
}

#[test]
fn root_and_children() {
    let root = segs(vec![]);
    assert!(root.is_root());
    assert!(!segs(vec!["a"]).is_root());
    assert!(!segs(vec![""]).is_root());
    assert_eq!(root.child("a".to_string()), segs(vec!["a"]));
    assert_eq!(segs(vec!["a"]).child("b".to_string()), segs(vec!["a", "b"]));
    assert_eq!(
        segs(vec!["a"]).descendant(vec!["b".to_string(), "c".to_string()]),
        segs(vec!["a", "b", "c"])
    );
    assert_eq!(segs(vec!["a"]).descendant(vec![]), segs(vec!["a"]));
    assert_eq!(root.descendant(vec!["x".to_string()]), segs(vec!["x"]));
}

#[test]
fn up_splits_off_the_last_segment() {
    assert_eq!(segs(vec![]).up(), None);
    assert_eq!(segs(vec!["a"]).up(), Some((segs(vec![]), "a".to_string())));
    assert_eq!(segs(vec!["a", "b", "c"]).up(), Some((segs(vec!["a", "b"]), "c".to_string())));
}

#[test]
fn is_child_of_is_the_prefix_relation() {
    let usr = segs(vec!["usr"]);
    let usr_bin = segs(vec!["usr", "bin"]);
    let root = segs(vec![]);
    assert!(usr.is_child_of(&usr));
    assert!(root.is_child_of(&root));
    assert!(usr_bin.is_child_of(&usr));
    assert!(usr_bin.is_child_of(&root));
    assert!(!usr.is_child_of(&usr_bin));
    assert!(!root.is_child_of(&usr));
    assert!(!segs(vec!["usb", "bin"]).is_child_of(&usr));
    assert!(!segs(vec!["bin", "usr"]).is_child_of(&usr));
}

#[test]
fn relative_to_gives_the_rest() {
    let long = segs(vec!["a", "b", "c"]);
    assert_eq!(long.relative_to(&segs(vec!["a"])).unwrap(), segs(vec!["b", "c"]));
    assert_eq!(long.relative_to(&segs(vec![])).unwrap(), long);
    assert_eq!(long.relative_to(&long).unwrap(), segs(vec![]));
    match long.relative_to(&segs(vec!["b"])) {
        Err(FolderTreeError::NotRelative(path, ancestor)) => {
            assert_eq!(path, long);
            assert_eq!(ancestor, segs(vec!["b"]));
        }
        x => panic!("Unexpected result: {:?}", x),
    }
    match segs(vec!["a"]).relative_to(&long) {
        Err(FolderTreeError::NotRelative(path, ancestor)) => {
            assert_eq!(path, segs(vec!["a"]));
            assert_eq!(ancestor, long);
        }
        x => panic!("Unexpected result: {:?}", x),
    }
}

#[test]
fn paths_are_equal_by_their_segments() {
    assert_eq!(segs(vec!["a", "b"]), segs(vec!["a", "b"]));
    assert_ne!(segs(vec!["a", "b"]), segs(vec!["a"]));
    assert_ne!(segs(vec!["a", "b"]), segs(vec!["a", "c"]));
    assert_ne!(segs(vec!["a/b"]), segs(vec!["a", "b"]));
    assert_ne!(segs(vec![""]), segs(vec![]));
    let copy = segs(vec!["a", "b"]).clone();
    assert_eq!(copy, segs(vec!["a", "b"]));
    assert!(segs(vec!["a"]) < segs(vec!["b"]));
}
