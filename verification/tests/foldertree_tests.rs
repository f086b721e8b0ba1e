use pandt::foldertree::{FolderPath, FolderTree, FolderTreeError};
use std::collections::HashSet;
use std::iter::FromIterator;

fn fpath(s: &str) -> FolderPath {
    s.parse().expect("Couldn't parse string as FolderPath")
}

fn names(tree: &FolderTree<String>, path: &str) -> HashSet<String> {
    HashSet::from_iter(tree.get_children(&fpath(path)).unwrap().iter().cloned())
}

#[test]
fn get_root() {
    let ftree = FolderTree::new("Root node!".to_string());
    assert_eq!(ftree.get(&fpath("")).unwrap(), &"Root node!".to_string())
}

#[test]
fn get_nonexistent() {
    let ftree = FolderTree::new("Root node!".to_string());
    let path = fpath("/a");
    match ftree.get(&path) {
        Ok(x) => panic!("Should not have been successful: {:?}", x),
        Err(FolderTreeError::FolderNotFound(errpath)) => assert_eq!(errpath, path),
        Err(x) => panic!("Got unexpected error: {:?}", x),
    }
}

#[test]
fn make_folders() {
    let mut ftree = FolderTree::new("Root node!".to_string());
    ftree.make_folders(&fpath("/usr/bin"), "Folder!".to_string());
    assert_eq!(ftree.get(&fpath("/usr")).unwrap(), &"Folder!".to_string());
    match ftree.get(&fpath("/bin")) {
        Ok(x) => panic!("unexpected success: {:?}", x),
        Err(FolderTreeError::FolderNotFound(errpath)) => {
            assert_eq!(errpath, fpath("/bin"));
        }
        Err(x) => panic!("Unexpected error: {:?}", x),
    }
    assert_eq!(ftree.get(&fpath("/usr/bin")).unwrap(), &"Folder!".to_string());
}

#[test]
fn make_folder_existing() {
    let mut ftree = FolderTree::new("Root node!".to_string());
    ftree.make_folders(&fpath("/foo"), "Folder".to_string());
    let result = ftree.make_folder(&fpath(""), "foo".to_string(), "other folder".to_string());
    match result {
        Ok(x) => panic!("Got some successful result when I shouldn't have: {:?}", x),
        Err(FolderTreeError::FolderExists(path)) => assert_eq!(path, fpath("/foo")),
        Err(x) => panic!("Got some unexpected error {:?}", x),
    }
}

#[test]
fn get_mut_root() {
    let mut ftree = FolderTree::new("Root node!".to_string());
    {
        let root_node = ftree.get_mut(&fpath("")).unwrap();
        assert_eq!(root_node, &mut "Root node!".to_string());
        root_node.push_str(" Okay.");
    }
    let root_node = ftree.get(&fpath("")).unwrap();
    assert_eq!(root_node, &"Root node! Okay.".to_string());
}

#[test]
fn move_folder() {
    let mut ftree = FolderTree::new("Root node".to_string());
    ftree.make_folder(&fpath(""), "usr".to_string(), "usr folder".to_string()).unwrap();
    ftree.make_folder(&fpath(""), "home".to_string(), "home folder".to_string()).unwrap();
    ftree.move_folder(&fpath("/usr"), &fpath("/home")).unwrap();
    match ftree.get(&fpath("/usr")) {
        Err(FolderTreeError::FolderNotFound(p)) => assert_eq!(p, fpath("/usr")),
        x => panic!("Bad result: {:?}", x),
    }
    assert_eq!(ftree.get(&fpath("/home/usr")).unwrap(), &"usr folder".to_string());
    assert_eq!(names(&ftree, ""), HashSet::from_iter(vec!["home".to_string()]));
    assert_eq!(names(&ftree, "/home"), HashSet::from_iter(vec!["usr".to_string()]));
}

#[test]
fn move_folder_no_target() {
    let mut ftree = FolderTree::new("Root node".to_string());
    ftree.make_folder(&fpath(""), "usr".to_string(), "usr folder".to_string()).unwrap();
    match ftree.move_folder(&fpath("/usr"), &fpath("/home")) {
        Err(FolderTreeError::FolderNotFound(p)) => assert_eq!(p, fpath("/home")),
        x => panic!("Bad result: {:?}", x),
    }
}

#[test]
fn move_folder_no_src() {
    let mut ftree = FolderTree::new("Root node".to_string());
    ftree.make_folder(&fpath(""), "usr".to_string(), "usr folder".to_string()).unwrap();
    match ftree.move_folder(&fpath("/foobar"), &fpath("/usr")) {
        Err(FolderTreeError::FolderNotFound(p)) => assert_eq!(p, fpath("/foobar")),
        x => panic!("Bad result: {:?}", x),
    }
}

#[test]
fn move_folder_duplicate() {
    let mut ftree = FolderTree::new("Root node".to_string());
    ftree.make_folder(&fpath(""), "usr".to_string(), "usr folder".to_string()).unwrap();
    ftree.make_folder(&fpath(""), "home".to_string(), "home folder".to_string()).unwrap();
    ftree.make_folder(&fpath("/home"), "usr".to_string(), "home/usr folder".to_string()).unwrap();

    match ftree.move_folder(&fpath("/usr"), &fpath("/home")) {
        Err(FolderTreeError::FolderExists(p)) => assert_eq!(p, fpath("/home/usr")),
        x => panic!("Bad result: {:?}", x),
    }
}

#[test]
fn move_folder_with_children() {
    let mut ftree = FolderTree::new("Root node".to_string());
    ftree.make_folder(&fpath(""), "usr".to_string(), "usr folder".to_string()).unwrap();
    ftree.make_folder(&fpath("/usr"), "bin".to_string(), "/usr/bin folder".to_string()).unwrap();
    ftree
        .make_folder(&fpath("/usr"), "share".to_string(), "/usr/share folder".to_string())
        .unwrap();
    ftree.make_folder(&fpath(""), "home".to_string(), "home folder".to_string()).unwrap();
    ftree.move_folder(&fpath("/usr"), &fpath("/home")).unwrap();
    for path in vec![fpath("/usr"), fpath("/usr/bin"), fpath("/usr/share")].iter() {
        match ftree.get(path) {
            Err(FolderTreeError::FolderNotFound(p)) => assert_eq!(p, *path),
            x => panic!("Bad result: {:?}", x),
        }
    }
    assert_eq!(ftree.get(&fpath("/home")).unwrap(), &"home folder".to_string());
    assert_eq!(ftree.get(&fpath("/home/usr")).unwrap(), &"usr folder".to_string());
    assert_eq!(ftree.get(&fpath("/home/usr/bin")).unwrap(), &"/usr/bin folder".to_string());
    assert_eq!(ftree.get(&fpath("/home/usr/share")).unwrap(), &"/usr/share folder".to_string());
    assert_eq!(names(&ftree, "/home"), HashSet::from_iter(vec!["usr".to_string()]));
}

#[test]
fn move_folder_to_descendant() {
    let mut ftree = FolderTree::new("Root node".to_string());
    ftree.make_folder(&fpath(""), "usr".to_string(), "usr folder".to_string()).unwrap();
    ftree.make_folder(&fpath("/usr"), "bin".to_string(), "/usr/bin folder".to_string()).unwrap();
    match ftree.move_folder(&fpath("/usr"), &fpath("/usr/bin")) {
        Err(FolderTreeError::ImpossibleMove(from, to)) => {
            assert_eq!(from, fpath("/usr"));
            assert_eq!(to, fpath("/usr/bin"));
        }
        x => panic!("Bad result: {:?}", x),
    }
}

#[test]
fn rename_folder_root() {
    let mut ftree = FolderTree::new("Root node!".to_string());
    match ftree.rename_folder(&fpath(""), "foo".to_string()) {
        Err(FolderTreeError::CannotRenameRoot) => {}
        x => panic!("Bad result: {:?}", x),
    }
}

#[test]
fn rename_folder_dup() {
    let mut ftree = FolderTree::new("Root node!".to_string());
    ftree.make_folder(&fpath(""), "foo".to_string(), "foo folder".to_string()).unwrap();
    ftree.make_folder(&fpath(""), "bar".to_string(), "bar folder".to_string()).unwrap();
    match ftree.rename_folder(&fpath("/foo"), "bar".to_string()) {
        Err(FolderTreeError::FolderExists(p)) => assert_eq!(p, fpath("/bar")),
        x => panic!("Bad result: {:?}", x),
    }
}

#[test]
fn rename_folder() {
    let mut ftree = FolderTree::new("Root node!".to_string());
    ftree.make_folder(&fpath(""), "foo".to_string(), "foo folder".to_string()).unwrap();
    ftree.rename_folder(&fpath("/foo"), "bar".to_string()).unwrap();
    assert_eq!(names(&ftree, ""), HashSet::from_iter(vec!["bar".to_string()]));
    match ftree.get(&fpath("/foo")) {
        Err(FolderTreeError::FolderNotFound(p)) => assert_eq!(p, fpath("/foo")),
        x => panic!("Bad result: {:?}", x),
    }
    assert_eq!(ftree.get(&fpath("/bar")).unwrap(), &"foo folder".to_string());
}

#[test]
fn folderpath_from_str() {
    assert_eq!(fpath(""), FolderPath::from_vec(vec![]));
    assert_eq!(fpath("/foo"), FolderPath::from_vec(vec!["foo".to_string()]));
    match "foo".parse::<FolderPath>() {
        Err(FolderTreeError::InvalidFolderPath(p)) => assert_eq!(p, "foo".to_string()),
        x => panic!("Unexpected result: {:?}", x),
    }
}

#[test]
fn folderpath_to_str() {
    assert_eq!(fpath("").to_string(), "");
    assert_eq!(fpath("/foo/bar").to_string(), "/foo/bar");
}
