use chartered_git::index::{build_index, build_tree, compare_bytes, version_file, Index, IndexTree};
use chartered_git::object::{CommitUserInfo, PackFileEntry, TreeItem, TreeItemKind};

fn user() -> CommitUserInfo {
    CommitUserInfo { name: b"n".to_vec(), email: b"e".to_vec(), time: 0 }
}

fn index_of(crates: &[(&str, &str)]) -> Index {
    let mut tree = IndexTree::new();
    for (name, file) in crates {
        tree.insert(name.as_bytes().to_vec(), file.as_bytes().to_vec());
    }
    build_index(b"{}".to_vec(), &tree, user(), user(), b"m".to_vec())
}

fn tree_at<'a>(index: &'a Index, hash: &[u8; 20]) -> &'a Vec<TreeItem> {
    for e in &index.entries {
        if let PackFileEntry::Tree(items) = e {
            if &e.hash() == hash {
                return items;
            }
        }
    }
    panic!("no such tree");
}

fn names(items: &[TreeItem]) -> Vec<String> {
    items.iter().map(|i| String::from_utf8(i.name.clone()).unwrap()).collect()
}

fn root(index: &Index) -> &Vec<TreeItem> {
    match &index.entries[index.entries.len() - 2] {
        PackFileEntry::Tree(items) => items,
        _ => panic!("root is not a tree"),
    }
}

#[test]
fn empty_registry_root_holds_config_only() {
    let index = index_of(&[]);
    assert_eq!(index.entries.len(), 3);
    assert_eq!(names(root(&index)), vec!["config.json"]);
    assert_eq!(index.commit_hash, index.entries[2].hash());
}

#[test]
fn single_crate_objects_in_order() {
    let index = index_of(&[("serde", "{\"vers\":\"1.0.0\"}\n")]);
    let kinds: Vec<&str> = index
        .entries
        .iter()
        .map(|e| match e {
            PackFileEntry::Blob(_) => "blob",
            PackFileEntry::Tree(_) => "tree",
            PackFileEntry::Commit(_) => "commit",
        })
        .collect();
    assert_eq!(kinds, vec!["blob", "blob", "tree", "tree", "tree", "commit"]);
    let r = root(&index);
    assert_eq!(names(r), vec!["config.json", "se"]);
    let se = tree_at(&index, &r[1].hash);
    assert_eq!(names(se), vec!["rd"]);
    let rd = tree_at(&index, &se[0].hash);
    assert_eq!(names(rd), vec!["serde"]);
    assert_eq!(rd[0].kind, TreeItemKind::File);
    assert_eq!(rd[0].hash, PackFileEntry::Blob(b"{\"vers\":\"1.0.0\"}\n".to_vec()).hash());
}

#[test]
fn same_prefix_gives_two_second_level_trees() {
    let index = index_of(&[("serum", "b\n"), ("serde", "a\n")]);
    let r = root(&index);
    assert_eq!(names(r), vec!["config.json", "se"]);
    let se = tree_at(&index, &r[1].hash);
    assert_eq!(names(se), vec!["rd", "ru"]);
    assert_eq!(names(tree_at(&index, &se[0].hash)), vec!["serde"]);
    assert_eq!(names(tree_at(&index, &se[1].hash)), vec!["serum"]);
}

#[test]
fn config_sorts_among_directories() {
    let index = index_of(&[("zeta", "z\n"), ("abcd", "a\n"), ("cook", "c\n"), ("cpus", "p\n")]);
    assert_eq!(names(root(&index)), vec!["ab", "co", "config.json", "cp", "ze"]);
}

#[test]
fn every_tree_is_sorted_and_unique() {
    let index = index_of(&[
        ("tokio", "1\n"),
        ("serde_json", "2\n"),
        ("serde", "3\n"),
        ("toml", "4\n"),
        ("tower", "5\n"),
        ("serum", "6\n"),
    ]);
    for e in &index.entries {
        if let PackFileEntry::Tree(items) = e {
            for w in items.windows(2) {
                assert!(w[0].name < w[1].name);
            }
        }
    }
}

#[test]
fn short_and_bad_names_are_left_out() {
    let mut tree = IndexTree::new();
    assert!(!tree.insert(b"abc".to_vec(), b"x\n".to_vec()));
    assert!(!tree.insert(b"a".to_vec(), b"x\n".to_vec()));
    assert!(!tree.insert(b"ab/cd".to_vec(), b"x\n".to_vec()));
    assert!(!tree.insert("caf\u{e9}s".as_bytes().to_vec(), b"x\n".to_vec()));
    assert!(tree.insert(b"abcd".to_vec(), b"x\n".to_vec()));
    assert_eq!(tree.len(), 1);
}

#[test]
fn same_name_replaces() {
    let mut tree = IndexTree::new();
    assert!(tree.insert(b"serde".to_vec(), b"old\n".to_vec()));
    assert!(tree.insert(b"serde".to_vec(), b"new\n".to_vec()));
    assert_eq!(tree.len(), 1);
    let index = build_index(b"{}".to_vec(), &tree, user(), user(), b"m".to_vec());
    assert!(matches!(&index.entries[1], PackFileEntry::Blob(b) if b == b"new\n"));
}

#[test]
fn build_tree_appends_directories() {
    let mut tree = IndexTree::new();
    tree.insert(b"abcd".to_vec(), b"1\n".to_vec());
    tree.insert(b"abce".to_vec(), b"2\n".to_vec());
    tree.insert(b"xyzw".to_vec(), b"3\n".to_vec());
    let mut root = Vec::new();
    let mut entries = Vec::new();
    build_tree(&mut root, &mut entries, &tree);
    assert_eq!(names(&root), vec!["ab", "xy"]);
    assert_eq!(entries.len(), 3 + 3 + 2);
}

#[test]
fn lexicographic_compare() {
    assert!(compare_bytes(b"se", b"sf") < 0);
    assert!(compare_bytes(b"co", b"config.json") < 0);
    assert!(compare_bytes(b"cp", b"config.json") > 0);
    assert_eq!(compare_bytes(b"same", b"same"), 0);
}

#[test]
fn version_lines_joined() {
    let lines = vec![b"{\"a\":1}".to_vec(), b"{\"b\":2}".to_vec()];
    assert_eq!(version_file(&lines), b"{\"a\":1}\n{\"b\":2}\n".to_vec());
    assert_eq!(version_file(&Vec::new()), Vec::<u8>::new());
}
