use mini_git::digest::ObjectDigest;
use mini_git::error::Error;
use mini_git::listing::parse_entries;
use mini_git::order::names_in_order;
use mini_git::tree::{is_valid_name, EntryMode, Tree, TreeEntry};

fn digest(fill: u8) -> ObjectDigest {
    ObjectDigest { bytes: [fill; 20] }
}

fn entry(mode: EntryMode, name: &[u8], fill: u8) -> TreeEntry {
    TreeEntry::new(mode, name.to_vec(), digest(fill)).unwrap()
}

fn names(tree: &Tree) -> Vec<Vec<u8>> {
    tree.entries().iter().map(|e| e.name().to_vec()).collect()
}

#[test]
fn mode_texts_are_the_four_documented_ones() {
    let mut out = Vec::new();
    EntryMode::Directory.write_text(&mut out);
    out.push(b'|');
    EntryMode::RegularFile.write_text(&mut out);
    out.push(b'|');
    EntryMode::ExecutableFile.write_text(&mut out);
    out.push(b'|');
    EntryMode::Symlink.write_text(&mut out);
    assert_eq!(out, b"40000|100644|100755|120000".to_vec());
}

#[test]
fn mode_is_read_from_its_exact_text_only() {
    assert_eq!(EntryMode::from_text(b"40000"), Some(EntryMode::Directory));
    assert_eq!(EntryMode::from_text(b"100644"), Some(EntryMode::RegularFile));
    assert_eq!(EntryMode::from_text(b"100755"), Some(EntryMode::ExecutableFile));
    assert_eq!(EntryMode::from_text(b"120000"), Some(EntryMode::Symlink));
    assert_eq!(EntryMode::from_text(b"040000"), None);
    assert_eq!(EntryMode::from_text(b"100664"), None);
    assert_eq!(EntryMode::from_text(b""), None);
}

#[test]
fn classify_follows_directory_symlink_then_execute_bits() {
    assert_eq!(EntryMode::classify(true, false, 0o755), EntryMode::Directory);
    assert_eq!(EntryMode::classify(true, true, 0), EntryMode::Directory);
    assert_eq!(EntryMode::classify(false, true, 0o777), EntryMode::Symlink);
    assert_eq!(EntryMode::classify(false, false, 0o644), EntryMode::RegularFile);
    assert_eq!(EntryMode::classify(false, false, 0o100644), EntryMode::RegularFile);
    assert_eq!(EntryMode::classify(false, false, 0o744), EntryMode::ExecutableFile);
    assert_eq!(EntryMode::classify(false, false, 0o654), EntryMode::ExecutableFile);
    assert_eq!(EntryMode::classify(false, false, 0o645), EntryMode::ExecutableFile);
    assert_eq!(EntryMode::classify(false, false, 0o666), EntryMode::RegularFile);
}

#[test]
fn names_are_compared_with_a_trailing_sentinel() {
    assert!(names_in_order(b"foo.txt", b"foo"));
    assert!(!names_in_order(b"foo", b"foo.txt"));
    assert!(names_in_order(b"a", b"b"));
    assert!(!names_in_order(b"b", b"a"));
    assert!(names_in_order(b"same", b"same"));
    assert!(names_in_order(b"", b""));
    assert!(names_in_order(b"a", b""));
    assert!(!names_in_order(b"", b"a"));
    assert!(names_in_order(b"ab", b"a"));
    assert!(!names_in_order(b"a\xff", b"a"));
    assert!(names_in_order(b"a", b"a\xff"));
    assert!(names_in_order(b"a\xfe", b"a\xff"));
}

#[test]
fn name_with_nul_is_refused() {
    assert!(is_valid_name(b"plain name"));
    assert!(is_valid_name(b""));
    assert!(!is_valid_name(b"a\0b"));
    assert_eq!(
        TreeEntry::new(EntryMode::RegularFile, b"a\0b".to_vec(), digest(1)),
        Err(Error::MalformedName)
    );
    assert_eq!(
        TreeEntry::new(EntryMode::RegularFile, b"\0".to_vec(), digest(1)),
        Err(Error::MalformedName)
    );
    assert_eq!(Error::MalformedName.class(), mini_git::error::ErrorClass::Malformed);
}

#[test]
fn entry_keeps_what_it_was_made_of() {
    let e = entry(EntryMode::ExecutableFile, b"run me.sh", 9);
    assert_eq!(e.mode(), EntryMode::ExecutableFile);
    assert_eq!(e.name(), &b"run me.sh"[..]);
    assert_eq!(e.digest(), digest(9));
    assert_eq!(e.clone(), e);
}

#[test]
fn entry_bytes_are_mode_space_name_nul_digest() {
    let mut out = b"#".to_vec();
    entry(EntryMode::RegularFile, b"a.txt", 0xab).write(&mut out);
    let mut expected = b"#100644 a.txt\0".to_vec();
    expected.extend([0xab; 20]);
    assert_eq!(out, expected);
}

#[test]
fn directory_sorts_after_file_of_the_same_prefix() {
    let mut tree = Tree::new();
    tree.insert(entry(EntryMode::Directory, b"foo", 1));
    tree.insert(entry(EntryMode::RegularFile, b"foo.txt", 2));
    assert_eq!(names(&tree), vec![b"foo.txt".to_vec(), b"foo".to_vec()]);
    let mut other = Tree::new();
    other.insert(entry(EntryMode::RegularFile, b"foo.txt", 2));
    other.insert(entry(EntryMode::Directory, b"foo", 1));
    assert_eq!(other, tree);
}

#[test]
fn insert_keeps_name_order_whatever_the_order_of_arrival() {
    let arrivals: [&[u8]; 7] = [b"m", b"z", b"a", b"ma", b"", b"m.c", b"b"];
    let mut tree = Tree::new();
    assert!(tree.is_empty());
    for (i, name) in arrivals.iter().enumerate() {
        tree.insert(entry(EntryMode::RegularFile, name, i as u8));
        assert_eq!(tree.len(), i + 1);
    }
    assert!(!tree.is_empty());
    let expected: Vec<Vec<u8>> =
        [&b"a"[..], b"b", b"m.c", b"ma", b"m", b"z", b""].iter().map(|n| n.to_vec()).collect();
    assert_eq!(names(&tree), expected);
    let listed = tree.entries();
    for pair in listed.windows(2) {
        assert!(names_in_order(pair[0].name(), pair[1].name()));
    }
}

#[test]
fn entries_of_one_name_keep_their_order_of_arrival() {
    let mut tree = Tree::new();
    tree.insert(entry(EntryMode::RegularFile, b"dup", 1));
    tree.insert(entry(EntryMode::RegularFile, b"a", 0));
    tree.insert(entry(EntryMode::RegularFile, b"dup", 2));
    tree.insert(entry(EntryMode::RegularFile, b"dup", 3));
    let fills: Vec<u8> = tree.entries().iter().map(|e| e.digest().bytes[0]).collect();
    assert_eq!(fills, vec![0, 1, 2, 3]);
}

#[test]
fn from_entries_sorts_like_repeated_insertion() {
    let given = vec![
        entry(EntryMode::Directory, b"src", 1),
        entry(EntryMode::RegularFile, b"README", 2),
        entry(EntryMode::RegularFile, b"src.rs", 3),
        entry(EntryMode::Symlink, b"Link", 4),
    ];
    let mut by_hand = Tree::new();
    for e in given.iter() {
        by_hand.insert(e.clone());
    }
    let tree = Tree::from_entries(given);
    assert_eq!(tree, by_hand);
    assert_eq!(
        names(&tree),
        vec![b"Link".to_vec(), b"README".to_vec(), b"src.rs".to_vec(), b"src".to_vec()]
    );
    assert_eq!(Tree::from_entries(Vec::new()), Tree::new());
}

#[test]
fn tree_content_is_the_entries_one_after_another() {
    let mut tree = Tree::new();
    tree.insert(entry(EntryMode::Directory, b"foo", 1));
    tree.insert(entry(EntryMode::RegularFile, b"foo.txt", 2));
    let mut expected = b"100644 foo.txt\0".to_vec();
    expected.extend([2u8; 20]);
    expected.extend(b"40000 foo\0");
    expected.extend([1u8; 20]);
    assert_eq!(tree.encode(), expected);
    assert_eq!(Tree::new().encode(), Vec::<u8>::new());
}

#[test]
fn written_tree_is_read_back() {
    let given = vec![
        entry(EntryMode::Directory, b"dir with space", 0),
        entry(EntryMode::RegularFile, b"a", 0x20),
        entry(EntryMode::ExecutableFile, b"tool", 0xff),
        entry(EntryMode::Symlink, b"", 7),
    ];
    let tree = Tree::from_entries(given);
    let parsed = parse_entries(&tree.encode()).unwrap();
    assert_eq!(&parsed[..], tree.entries());
    assert_eq!(parse_entries(b""), Ok(Vec::new()));
}

#[test]
fn stored_order_is_kept_when_reading() {
    let mut content = b"100644 b\0".to_vec();
    content.extend([1u8; 20]);
    content.extend(b"100644 a\0");
    content.extend([2u8; 20]);
    let parsed = parse_entries(&content).unwrap();
    assert_eq!(
        parsed,
        vec![entry(EntryMode::RegularFile, b"b", 1), entry(EntryMode::RegularFile, b"a", 2)]
    );
}

#[test]
fn malformed_tree_content_is_refused() {
    let mut good = b"100644 a\0".to_vec();
    good.extend([1u8; 20]);
    assert!(parse_entries(&good).is_ok());
    // cut within the digest
    assert_eq!(parse_entries(&good[..good.len() - 1]), Err(Error::MalformedTree));
    // no NUL behind the name
    assert_eq!(parse_entries(b"100644 a"), Err(Error::MalformedTree));
    // no space at all
    assert_eq!(parse_entries(b"100644"), Err(Error::MalformedTree));
    // a mode that is none of the four
    let mut odd = b"100600 a\0".to_vec();
    odd.extend([1u8; 20]);
    assert_eq!(parse_entries(&odd), Err(Error::MalformedTree));
    // a good entry followed by a broken one
    let mut two = good.clone();
    two.extend(b"40000 b\0short");
    assert_eq!(parse_entries(&two), Err(Error::MalformedTree));
    // the first space stands behind the first NUL
    let mut late = b"100644\0a b\0".to_vec();
    late.extend([1u8; 20]);
    assert_eq!(parse_entries(&late), Err(Error::MalformedTree));
}

#[test]
fn empty_tree_is_no_object() {
    assert_eq!(Tree::new().to_object(), None);
    let mut tree = Tree::new();
    tree.insert(entry(EntryMode::RegularFile, b"a.txt", 5));
    let object = tree.to_object().unwrap();
    assert_eq!(object.kind, mini_git::kind::ObjectKind::Tree);
    assert_eq!(object.expected_size, 33);
    assert_eq!(object.content, tree.encode());
}

#[test]
fn tricky_names_come_out_in_sentinel_order() {
    let given: [&[u8]; 17] = [
        &b"a"[..], &b"a.b"[..], &b"a-b"[..], &b"a b"[..], &b"ab"[..], &b"a\xff"[..],
        &b"a\xfe"[..], &b"A"[..], &b""[..], &b"a/b"[..], &b"a0"[..], &b"z"[..], &b"\xff"[..],
        &b"a\x01"[..], &b"b"[..], &b"aa.txt"[..], &b"aa"[..],
    ];
    let expected: [&[u8]; 17] = [
        &b"A"[..], &b"a\x01"[..], &b"a b"[..], &b"a-b"[..], &b"a.b"[..], &b"a/b"[..],
        &b"a0"[..], &b"aa.txt"[..], &b"aa"[..], &b"ab"[..], &b"a\xfe"[..], &b"a"[..],
        &b"a\xff"[..], &b"b"[..], &b"z"[..], &b""[..], &b"\xff"[..],
    ];
    let entries = given.iter().map(|n| entry(EntryMode::RegularFile, n, 0)).collect();
    let tree = Tree::from_entries(entries);
    let expected: Vec<Vec<u8>> = expected.iter().map(|n| n.to_vec()).collect();
    assert_eq!(names(&tree), expected);
}
