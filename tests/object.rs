use chartered_git::object::{Commit, CommitUserInfo, PackFileEntry, TreeItem, TreeItemKind};
use sha1::Digest;

fn hex(b: &[u8]) -> String {
    b.iter().map(|x| format!("{:02x}", x)).collect()
}

#[test]
fn empty_blob_id() {
    assert_eq!(hex(&PackFileEntry::Blob(Vec::new()).hash()), "e69de29bb2d1d6434b8b29ae775ad8c2e48c5391");
}

#[test]
fn hello_blob_id() {
    assert_eq!(
        hex(&PackFileEntry::Blob(b"hello\n".to_vec()).hash()),
        "ce013625030ba8dba906f756967f9e9ca394464a"
    );
}

#[test]
fn empty_tree_id() {
    assert_eq!(hex(&PackFileEntry::Tree(Vec::new()).hash()), "4b825dc642cb6eb9a060e54bf8d69288fbee4904");
}

#[test]
fn tree_body_and_id() {
    let blob = PackFileEntry::Blob(b"hello\n".to_vec()).hash();
    let tree = PackFileEntry::Tree(vec![
        TreeItem { kind: TreeItemKind::Directory, name: b"ab".to_vec(), hash: [7u8; 20] },
        TreeItem { kind: TreeItemKind::File, name: b"hello.txt".to_vec(), hash: blob },
    ]);
    let mut expected = Vec::new();
    expected.extend_from_slice(b"40000 ab\0");
    expected.extend_from_slice(&[7u8; 20]);
    expected.extend_from_slice(b"100644 hello.txt\0");
    expected.extend_from_slice(&blob);
    assert_eq!(tree.body_bytes(), expected);
    let mut object = format!("tree {}\0", expected.len()).into_bytes();
    object.extend_from_slice(&expected);
    let want: [u8; 20] = sha1::Sha1::digest(&object).into();
    assert_eq!(tree.hash(), want);
}

#[test]
fn commit_body() {
    let user = || CommitUserInfo { name: b"A U Thor".to_vec(), email: b"a@example.com".to_vec(), time: 1631123161 };
    let commit = PackFileEntry::Commit(Commit {
        tree: [0xab; 20],
        author: user(),
        committer: user(),
        message: b"msg".to_vec(),
    });
    let want = format!(
        "tree {}\nauthor A U Thor <a@example.com> 1631123161 +0000\ncommitter A U Thor <a@example.com> 1631123161 +0000\n\nmsg\n",
        "ab".repeat(20)
    );
    assert_eq!(commit.body_bytes(), want.into_bytes());
}
