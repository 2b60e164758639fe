use mini_git::codec::Object;
use mini_git::commit::{commit_content, commit_object};
use mini_git::digest::ObjectDigest;
use mini_git::error::Error;
use mini_git::kind::ObjectKind;
use mini_git::store::{fan_out, get, get_exact, relative_path, temp_name, FanOut};

#[test]
fn object_lies_under_two_then_thirty_eight_characters() {
    let digest = ObjectDigest::from_hex("ce013625030ba8dba906f756967f9e9ca394464a").unwrap();
    assert_eq!(
        fan_out(&digest),
        FanOut {
            directory: "ce".to_string(),
            file: "013625030ba8dba906f756967f9e9ca394464a".to_string(),
        }
    );
    assert_eq!(relative_path(&digest), "ce/013625030ba8dba906f756967f9e9ca394464a");
}

#[test]
fn temporary_names_differ_from_write_to_write() {
    assert_eq!(temp_name(0, 0), "tmp-0-0");
    assert_eq!(temp_name(4321, 17), "tmp-4321-17");
    assert_eq!(temp_name(u32::MAX, u64::MAX), "tmp-4294967295-18446744073709551615");
    assert_ne!(temp_name(1, 23), temp_name(12, 3));
    assert_ne!(temp_name(1, 1), temp_name(1, 2));
    assert_ne!(temp_name(1, 1), temp_name(2, 1));
}

#[test]
fn lookup_of_a_missing_object_is_not_found() {
    assert_eq!(get(None), Err(Error::NotFound));
    assert_eq!(Error::NotFound.class(), mini_git::error::ErrorClass::Io);
}

#[test]
fn lookup_decodes_what_was_found() {
    let object = Object::blob(b"hello\n".to_vec());
    let stored = object.encode().unwrap();
    assert_eq!(get(Some(&stored.compressed)), Ok(object));
    assert_eq!(get(Some(b"not a zlib stream")), Err(Error::CorruptStream));
}

#[test]
fn strict_lookup_refuses_bytes_left_over() {
    let stored = Object::blob(b"hello\n".to_vec()).encode().unwrap();
    assert_eq!(get_exact(Some(&stored.compressed)), Ok(Object::blob(b"hello\n".to_vec())));
    assert_eq!(get_exact(None), Err(Error::NotFound));
    let long = mini_git::transport::compress(b"blob 3\0hello\n", 6).unwrap();
    assert_eq!(get(Some(&long)), Ok(Object::new(ObjectKind::Blob, 3, b"hel".to_vec())));
    assert_eq!(get_exact(Some(&long)), Err(Error::TrailingContent));
    let short = mini_git::transport::compress(b"blob 30\0hello\n", 6).unwrap();
    assert_eq!(get_exact(Some(&short)), Err(Error::IncompleteContent));
}

#[test]
fn payload_is_read_as_the_expected_kind_only() {
    let blob = Object::blob(b"hello\n".to_vec());
    assert_eq!(blob.payload_as(ObjectKind::Blob), Ok(&b"hello\n"[..]));
    assert_eq!(blob.payload_as(ObjectKind::Tree), Err(Error::UnsupportedKind));
    let short = Object::new(ObjectKind::Tree, 4, b"abc".to_vec());
    assert_eq!(short.payload_as(ObjectKind::Tree), Err(Error::IncompleteContent));
    assert_eq!(short.payload_as(ObjectKind::Blob), Err(Error::UnsupportedKind));
    assert_eq!(Error::UnsupportedKind.class(), mini_git::error::ErrorClass::UnsupportedKind);
}

#[test]
fn commit_without_parent_has_the_documented_lines() {
    let tree = ObjectDigest::from_hex("9375a50d54bf5374615a3378349e298761a4b116").unwrap();
    let content = commit_content(
        &tree,
        None,
        b"A U Thor <a@example.com> 1 +0000",
        b"C O Mitter <c@example.com> 2 +0100",
        b"first",
    );
    assert_eq!(
        content,
        b"tree 9375a50d54bf5374615a3378349e298761a4b116\n\
          author A U Thor <a@example.com> 1 +0000\n\
          committer C O Mitter <c@example.com> 2 +0100\n\
          \n\
          first\n"
            .to_vec()
    );
    let object = commit_object(
        &tree,
        None,
        b"A U Thor <a@example.com> 1 +0000",
        b"C O Mitter <c@example.com> 2 +0100",
        b"first",
    );
    assert_eq!(object, Object::with_content(ObjectKind::Commit, content));
    assert_eq!(object.expected_size, 138);
    assert_eq!(object.digest().unwrap().to_hex(), "a7816ce93df6062e8ff0fa2a6d4e56a68f5bbd34");
}

#[test]
fn commit_with_parent_names_it_behind_the_tree() {
    let tree = ObjectDigest::from_hex("9375a50d54bf5374615a3378349e298761a4b116").unwrap();
    let parent = ObjectDigest::from_hex("a7816ce93df6062e8ff0fa2a6d4e56a68f5bbd34").unwrap();
    let object = commit_object(
        &tree,
        Some(parent),
        b"A U Thor <a@example.com> 1 +0000",
        b"C O Mitter <c@example.com> 2 +0100",
        b"second\nline",
    );
    assert_eq!(
        object.content,
        b"tree 9375a50d54bf5374615a3378349e298761a4b116\n\
          parent a7816ce93df6062e8ff0fa2a6d4e56a68f5bbd34\n\
          author A U Thor <a@example.com> 1 +0000\n\
          committer C O Mitter <c@example.com> 2 +0100\n\
          \n\
          second\nline\n"
            .to_vec()
    );
    assert_eq!(object.digest().unwrap().to_hex(), "389bbdd40e03132207d9ebca1bba953522820ba0");
}
