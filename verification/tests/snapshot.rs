use mini_git::codec::{decode_exact, Object};
use mini_git::error::Error;
use mini_git::kind::ObjectKind;
use mini_git::snapshot::{is_reserved, snapshot, DirEntry, Node, Snapshot};

fn file(name: &[u8], content: &[u8]) -> DirEntry {
    DirEntry {
        name: name.to_vec(),
        node: Node::File { is_symlink: false, permissions: 0o644, content: content.to_vec() },
    }
}

fn dir(name: &[u8], entries: Vec<DirEntry>) -> DirEntry {
    DirEntry { name: name.to_vec(), node: Node::Directory { entries } }
}

fn x_blob() -> Vec<u8> {
    hex::decode("c1b0730e0133447badcfd47fd144e254807b06e1").unwrap()
}

#[test]
fn single_file_gives_the_documented_tree() {
    let outcome = snapshot(&vec![file(b"a.txt", b"x")]).unwrap();
    let root = outcome.root.unwrap();
    assert_eq!(outcome.objects.len(), 2);
    let blob = &outcome.objects[0];
    let tree = &outcome.objects[1];
    assert_eq!(blob.digest.to_hex(), "c1b0730e0133447badcfd47fd144e254807b06e1");
    assert_eq!(decode_exact(&blob.compressed), Ok(Object::blob(b"x".to_vec())));
    assert_eq!(tree.digest, root);
    let mut expected = b"100644 a.txt\0".to_vec();
    expected.extend(x_blob());
    assert_eq!(
        decode_exact(&tree.compressed),
        Ok(Object::with_content(ObjectKind::Tree, expected))
    );
    assert_eq!(root.to_hex(), "9375a50d54bf5374615a3378349e298761a4b116");
}

#[test]
fn snapshot_is_reproducible() {
    let build = || {
        vec![
            dir(b"foo", vec![file(b"b.txt", b"x")]),
            file(b"foo.txt", b"x"),
            DirEntry {
                name: b"run.sh".to_vec(),
                node: Node::File { is_symlink: false, permissions: 0o755, content: b"x".to_vec() },
            },
            DirEntry {
                name: b"link".to_vec(),
                node: Node::File { is_symlink: true, permissions: 0o777, content: b"x".to_vec() },
            },
        ]
    };
    let first = snapshot(&build()).unwrap();
    let second = snapshot(&build()).unwrap();
    assert_eq!(first, second);
    assert_eq!(first.root.unwrap().to_hex(), "6801c433fd0a6a3fe3558f321cfff125b8967804");
    // children come before the tree that points at them
    let order: Vec<String> = first.objects.iter().map(|o| o.digest.to_hex()).collect();
    assert_eq!(
        order,
        vec![
            "c1b0730e0133447badcfd47fd144e254807b06e1",
            "01cc09486627c642a9ec37ee69658e70cf98f230",
            "c1b0730e0133447badcfd47fd144e254807b06e1",
            "c1b0730e0133447badcfd47fd144e254807b06e1",
            "c1b0730e0133447badcfd47fd144e254807b06e1",
            "6801c433fd0a6a3fe3558f321cfff125b8967804",
        ]
    );
}

#[test]
fn order_of_enumeration_does_not_change_the_root() {
    let forward = vec![file(b"a", b"1"), dir(b"b", vec![file(b"c", b"2")]), file(b"b.c", b"3")];
    let backward = vec![file(b"b.c", b"3"), dir(b"b", vec![file(b"c", b"2")]), file(b"a", b"1")];
    assert_eq!(snapshot(&forward).unwrap().root, snapshot(&backward).unwrap().root);
}

#[test]
fn directory_entry_sorts_after_file_with_extension() {
    let outcome = snapshot(&vec![dir(b"foo", vec![file(b"b.txt", b"x")]), file(b"foo.txt", b"x")])
        .unwrap();
    let tree = decode_exact(&outcome.objects.last().unwrap().compressed).unwrap();
    let mut expected = b"100644 foo.txt\0".to_vec();
    expected.extend(x_blob());
    expected.extend(b"40000 foo\0");
    expected.extend(hex::decode("01cc09486627c642a9ec37ee69658e70cf98f230").unwrap());
    assert_eq!(tree.kind, ObjectKind::Tree);
    assert_eq!(tree.content, expected);
}

#[test]
fn empty_directory_yields_nothing() {
    assert_eq!(snapshot(&Vec::new()), Ok(Snapshot { root: None, objects: Vec::new() }));
}

#[test]
fn only_empty_subdirectories_yield_nothing() {
    let entries = vec![
        dir(b"a", Vec::new()),
        dir(b"b", vec![dir(b"c", Vec::new()), dir(b"d", vec![dir(b"e", Vec::new())])]),
    ];
    assert_eq!(snapshot(&entries), Ok(Snapshot { root: None, objects: Vec::new() }));
}

#[test]
fn empty_subdirectory_is_left_out_of_its_parent() {
    let with = vec![dir(b"empty", vec![dir(b"deeper", Vec::new())]), file(b"a.txt", b"x")];
    let without = vec![file(b"a.txt", b"x")];
    assert_eq!(snapshot(&with), snapshot(&without));
}

#[test]
fn reserved_directory_is_never_listed() {
    assert!(is_reserved(b".git"));
    assert!(!is_reserved(b".gitignore"));
    assert!(!is_reserved(b".gi"));
    assert!(!is_reserved(b""));
    let with = vec![
        dir(b".git", vec![file(b"HEAD", b"ref: refs/heads/main\n"), file(b"bad\0name", b"")]),
        file(b"a.txt", b"x"),
        dir(b"sub", vec![file(b".git", b"gitdir: elsewhere"), file(b"b", b"y")]),
    ];
    let without = vec![file(b"a.txt", b"x"), dir(b"sub", vec![file(b"b", b"y")])];
    assert_eq!(snapshot(&with), snapshot(&without));
    assert_eq!(
        snapshot(&vec![dir(b".git", vec![file(b"HEAD", b"x")])]),
        Ok(Snapshot { root: None, objects: Vec::new() })
    );
}

#[test]
fn modes_follow_the_entries() {
    let entries = vec![
        DirEntry {
            name: b"tool".to_vec(),
            node: Node::File { is_symlink: false, permissions: 0o100, content: b"x".to_vec() },
        },
        DirEntry {
            name: b"link".to_vec(),
            node: Node::File { is_symlink: true, permissions: 0o644, content: b"x".to_vec() },
        },
        file(b"plain", b"x"),
    ];
    let outcome = snapshot(&entries).unwrap();
    let tree = decode_exact(&outcome.objects.last().unwrap().compressed).unwrap();
    let mut expected = b"120000 link\0".to_vec();
    expected.extend(x_blob());
    expected.extend(b"100644 plain\0");
    expected.extend(x_blob());
    expected.extend(b"100755 tool\0");
    expected.extend(x_blob());
    assert_eq!(tree.content, expected);
}

#[test]
fn name_with_nul_fails_the_whole_snapshot() {
    let entries = vec![file(b"fine", b"x"), dir(b"sub", vec![file(b"ba\0d", b"y")])];
    assert_eq!(snapshot(&entries), Err(Error::MalformedName));
    assert_eq!(snapshot(&vec![dir(b"\0", Vec::new())]), Err(Error::MalformedName));
}

#[test]
fn nested_directory_gives_the_expected_root() {
    let exec = |name: &[u8], content: &[u8]| DirEntry {
        name: name.to_vec(),
        node: Node::File { is_symlink: false, permissions: 0o755, content: content.to_vec() },
    };
    let link = |name: &[u8], content: &[u8]| DirEntry {
        name: name.to_vec(),
        node: Node::File { is_symlink: true, permissions: 0o777, content: content.to_vec() },
    };
    let entries = vec![
        dir(
            b"src",
            vec![
                file(b"main.rs", b"fn main() {}\n"),
                dir(b"lib", vec![file(b"mod.rs", b""), dir(b"empty", Vec::new())]),
                dir(b".git", vec![file(b"x", b"x")]),
            ],
        ),
        file(b"README.md", b"# hi\n"),
        exec(b"build.sh", b"#!/bin/sh\n"),
        link(b"src.bak", b"src"),
        dir(b".git", vec![file(b"HEAD", b"ref")]),
        dir(b"docs", vec![dir(b"nothing", Vec::new())]),
    ];
    let outcome = snapshot(&entries).unwrap();
    assert_eq!(outcome.root.unwrap().to_hex(), "619270bd6b68e76ff88f3e621ecf78d55274d001");
    // two blobs and two trees below src, three blobs beside it, and the root
    assert_eq!(outcome.objects.len(), 8);
    assert_eq!(outcome.objects.last().unwrap().digest, outcome.root.unwrap());
}

#[test]
fn stored_objects_are_what_the_codec_stores() {
    let outcome = snapshot(&vec![file(b"a.txt", b"x"), dir(b"d", vec![file(b"b", b"yy")])]).unwrap();
    let blob_x = Object::blob(b"x".to_vec()).encode().unwrap();
    let blob_y = Object::blob(b"yy".to_vec()).encode().unwrap();
    assert_eq!(outcome.objects[0], blob_x);
    assert_eq!(outcome.objects[1], blob_y);
    let mut sub = b"100644 b\0".to_vec();
    sub.extend(blob_y.digest.bytes);
    assert_eq!(outcome.objects[2], Object::with_content(ObjectKind::Tree, sub).encode().unwrap());
    assert_eq!(outcome.objects.len(), 4);
}
