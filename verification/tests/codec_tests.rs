use pandt::foldertree::{FolderPath, FolderTree, FolderTreeError, NestedFolder};
use serde_json::Value;

fn fpath(s: &str) -> FolderPath {
    s.parse().expect("Couldn't parse string as FolderPath")
}

fn json_folder(data: &str, children: Vec<(&str, Value)>) -> Value {
    let mut by_name = serde_json::Map::new();
    for (name, child) in children {
        by_name.insert(name.to_string(), child);
    }
    let mut folder = serde_json::Map::new();
    folder.insert("data".to_string(), Value::String(data.to_string()));
    folder.insert("children".to_string(), Value::Object(by_name));
    Value::Object(folder)
}

fn to_json(nested: &NestedFolder<&String>) -> Value {
    let mut by_name = serde_json::Map::new();
    for (name, child) in nested.children.iter() {
        by_name.insert(name.clone(), to_json(child));
    }
    let mut folder = serde_json::Map::new();
    folder.insert("data".to_string(), Value::String(nested.data.clone()));
    folder.insert("children".to_string(), Value::Object(by_name));
    Value::Object(folder)
}

fn from_json(value: &Value) -> NestedFolder<String> {
    let folder = value.as_object().expect("a folder is an object");
    let data = folder["data"].as_str().expect("data is a string").to_string();
    let mut children = vec![];
    for (name, child) in folder["children"].as_object().expect("children is an object") {
        children.push((name.clone(), from_json(child)));
    }
    NestedFolder { data, children }
}

fn owned(nested: &NestedFolder<&String>) -> NestedFolder<String> {
    NestedFolder {
        data: nested.data.clone(),
        children: nested
            .children
            .iter()
            .map(|(name, child)| (name.clone(), owned(child)))
            .collect(),
    }
}

fn usr_bin_json() -> Value {
    json_folder(
        "Root node!",
        vec![("usr", json_folder("Folder!", vec![("bin", json_folder("Folder!", vec![]))]))],
    )
}

#[test]
fn serialize_json() {
    let mut ftree = FolderTree::new("Root node!".to_string());
    ftree.make_folders(&fpath("/usr/bin"), "Folder!".to_string());
    let json = to_json(&ftree.to_nested());

    let expected = usr_bin_json();
    assert_eq!(json, expected);
}

#[test]
fn deserialize_json() {
    let json = usr_bin_json();
    let json = serde_json::to_string(&json).unwrap();
    let value: Value = serde_json::from_str(&json).unwrap();
    let ftree: FolderTree<String> = from_json(&value).into_folder_tree();

    assert_eq!(ftree.get(&fpath("/usr")).unwrap(), &"Folder!".to_string());
    match ftree.get(&fpath("/bin")) {
        Err(FolderTreeError::FolderNotFound(p)) => assert_eq!(p, fpath("/bin")),
        x => panic!("Unexpected result: {:?}", x),
    }
    assert_eq!(ftree.get(&fpath("/usr/bin")).unwrap(), &"Folder!".to_string());
}

#[test]
fn leaf_has_empty_children() {
    let ftree = FolderTree::new("alone".to_string());
    let nested = ftree.to_nested();
    assert_eq!(nested.data, &"alone".to_string());
    assert!(nested.children.is_empty());
    assert_eq!(to_json(&nested), json_folder("alone", vec![]));
}

#[test]
fn nested_new_has_no_children() {
    let nested = NestedFolder::new(7);
    assert_eq!(nested.data, 7);
    assert!(nested.children.is_empty());
    let tree = nested.into_folder_tree();
    assert_eq!(tree.get(&fpath("")).unwrap(), &7);
    assert!(tree.get_children(&fpath("")).unwrap().is_empty());
}

#[test]
fn serialize_tree_lists_parents_first() {
    let nested = NestedFolder {
        data: 0,
        children: vec![
            (
                "a".to_string(),
                NestedFolder { data: 1, children: vec![("x".to_string(), NestedFolder::new(2))] },
            ),
            ("b".to_string(), NestedFolder::new(3)),
        ],
    };
    let mut paths = vec![(fpath("/before"), 9)];
    nested.serialize_tree(fpath("/top"), &mut paths);
    assert_eq!(
        paths,
        vec![
            (fpath("/before"), 9),
            (fpath("/top"), 0),
            (fpath("/top/a"), 1),
            (fpath("/top/a/x"), 2),
            (fpath("/top/b"), 3),
        ]
    );
}

#[test]
fn into_folder_tree_makes_every_folder() {
    let nested = NestedFolder {
        data: "r".to_string(),
        children: vec![
            (
                "a".to_string(),
                NestedFolder {
                    data: "ra".to_string(),
                    children: vec![
                        ("x".to_string(), NestedFolder::new("rax".to_string())),
                        ("y".to_string(), NestedFolder::new("ray".to_string())),
                    ],
                },
            ),
            ("b".to_string(), NestedFolder::new("rb".to_string())),
        ],
    };
    let tree = nested.into_folder_tree();
    assert_eq!(tree.get(&fpath("")).unwrap(), "r");
    assert_eq!(tree.get(&fpath("/a")).unwrap(), "ra");
    assert_eq!(tree.get(&fpath("/a/x")).unwrap(), "rax");
    assert_eq!(tree.get(&fpath("/a/y")).unwrap(), "ray");
    assert_eq!(tree.get(&fpath("/b")).unwrap(), "rb");
    assert_eq!(tree.walk_paths(&fpath("")).len(), 5);
    let mut top = tree.get_children(&fpath("")).unwrap().clone();
    top.sort();
    assert_eq!(top, vec!["a".to_string(), "b".to_string()]);
    let mut below_a = tree.get_children(&fpath("/a")).unwrap().clone();
    below_a.sort();
    assert_eq!(below_a, vec!["x".to_string(), "y".to_string()]);
    assert!(tree.get_children(&fpath("/b")).unwrap().is_empty());
}

#[test]
fn round_trip_keeps_paths_and_payloads() {
    let mut tree = FolderTree::new("root".to_string());
    tree.make_folders(&fpath("/usr/bin"), "made".to_string());
    tree.make_folder(&fpath("/usr"), "share".to_string(), "shared".to_string()).unwrap();
    tree.make_folder(&fpath(""), "home".to_string(), "sweet".to_string()).unwrap();
    tree.move_folder(&fpath("/usr/share"), &fpath("/home")).unwrap();
    tree.rename_folder(&fpath("/usr"), "opt".to_string()).unwrap();

    let back = owned(&tree.to_nested()).into_folder_tree();

    let mut before: Vec<(String, String, Vec<String>)> = tree
        .walk_paths(&fpath(""))
        .into_iter()
        .map(|p| {
            let mut names = tree.get_children(p).unwrap().clone();
            names.sort();
            (p.to_string(), tree.get(p).unwrap().clone(), names)
        })
        .collect();
    let mut after: Vec<(String, String, Vec<String>)> = back
        .walk_paths(&fpath(""))
        .into_iter()
        .map(|p| {
            let mut names = back.get_children(p).unwrap().clone();
            names.sort();
            (p.to_string(), back.get(p).unwrap().clone(), names)
        })
        .collect();
    before.sort();
    after.sort();
    assert_eq!(before, after);
    assert_eq!(
        before,
        vec![
            ("".to_string(), "root".to_string(), vec!["home".to_string(), "opt".to_string()]),
            ("/home".to_string(), "sweet".to_string(), vec!["share".to_string()]),
            ("/home/share".to_string(), "shared".to_string(), vec![]),
            ("/opt".to_string(), "made".to_string(), vec!["bin".to_string()]),
            ("/opt/bin".to_string(), "made".to_string(), vec![]),
        ]
    );
}

#[test]
fn round_trip_through_json_text() {
    let mut tree = FolderTree::new("root".to_string());
    tree.make_folders(&fpath("/a/b/c"), "x".to_string());
    tree.make_folder(&fpath("/a"), "d".to_string(), "y".to_string()).unwrap();
    let text = serde_json::to_string(&to_json(&tree.to_nested())).unwrap();
    let value: Value = serde_json::from_str(&text).unwrap();
    let back = from_json(&value).into_folder_tree();
    assert_eq!(to_json(&back.to_nested()), to_json(&tree.to_nested()));
    assert_eq!(back.get(&fpath("/a/d")).unwrap(), "y");
    assert_eq!(back.get(&fpath("/a/b/c")).unwrap(), "x");
    assert_eq!(back.walk_paths(&fpath("")).len(), 5);
}
