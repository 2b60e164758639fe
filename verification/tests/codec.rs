use mini_git::codec::{decode, decode_exact, parse_header, write_header, Header, Object, StoredObject};
use mini_git::digest::ObjectDigest;
use mini_git::error::Error;
use mini_git::kind::ObjectKind;

fn zlib_of(bytes: &[u8]) -> Vec<u8> {
    mini_git::transport::compress(bytes, 6).unwrap()
}

#[test]
fn blob_hello_has_the_well_known_digest() {
    let stored = Object::blob(b"hello\n".to_vec()).encode().unwrap();
    assert_eq!(stored.digest.to_hex(), "ce013625030ba8dba906f756967f9e9ca394464a");
}

#[test]
fn empty_blob_has_the_well_known_digest() {
    let object = Object::blob(Vec::new());
    assert_eq!(object.expected_size, 0);
    assert_eq!(
        object.digest().unwrap().to_hex(),
        "e69de29bb2d1d6434b8b29ae775ad8c2e48c5391"
    );
}

#[test]
fn digest_is_the_sha1_of_the_envelope() {
    let object = Object::blob(b"hello world".to_vec());
    assert_eq!(object.to_envelope().unwrap(), b"blob 11\0hello world".to_vec());
    assert_eq!(
        object.digest().unwrap().to_hex(),
        "95d09f2b10159347eece71399a7e2e907ea3df4f"
    );
}

#[test]
fn encode_then_decode_gives_the_object_back() {
    for kind in [ObjectKind::Blob, ObjectKind::Tree, ObjectKind::Commit] {
        for content in [&b""[..], &b"x"[..], &b"hello\n"[..], &b"a\0b c\xff"[..]] {
            let object = Object::with_content(kind, content.to_vec());
            let stored = object.encode().unwrap();
            assert_eq!(decode(&stored.compressed), Ok(object.clone()));
            assert_eq!(decode_exact(&stored.compressed), Ok(object));
        }
    }
}

#[test]
fn stored_bytes_are_compressed_not_copied() {
    let content = vec![b'a'; 4096];
    let object = Object::blob(content);
    let stored = object.encode().unwrap();
    let envelope = object.to_envelope().unwrap();
    assert_ne!(stored.compressed, envelope);
    assert!(stored.compressed.len() < envelope.len());
}

#[test]
fn digest_does_not_depend_on_the_compression_level() {
    let object = Object::blob(vec![b'z'; 10_000]);
    let plain = object.encode_with_level(0).unwrap();
    let best = object.encode_with_level(9).unwrap();
    let beyond = object.encode_with_level(1000).unwrap();
    assert_ne!(plain.compressed, best.compressed);
    assert_eq!(plain.digest, best.digest);
    assert_eq!(beyond.digest, best.digest);
    assert_eq!(object.digest(), Ok(best.digest));
    assert_eq!(decode(&plain.compressed), decode(&best.compressed));
    assert_eq!(decode(&beyond.compressed), Ok(object));
}

#[test]
fn declared_size_larger_than_content_is_incomplete() {
    let object = Object::new(ObjectKind::Blob, 7, b"hello\n".to_vec());
    assert_eq!(object.encode(), Err(Error::IncompleteContent));
    assert_eq!(object.digest(), Err(Error::IncompleteContent));
    assert_eq!(object.to_envelope(), Err(Error::IncompleteContent));
    assert_eq!(object.payload(), Err(Error::IncompleteContent));
    assert_eq!(object.exact_payload(), Err(Error::IncompleteContent));
}

#[test]
fn declared_size_smaller_than_content_stores_the_prefix() {
    let object = Object::new(ObjectKind::Blob, 3, b"hello\n".to_vec());
    assert_eq!(object.payload(), Ok(&b"hel"[..]));
    assert_eq!(object.exact_payload(), Err(Error::TrailingContent));
    let stored = object.encode().unwrap();
    assert_eq!(stored.digest.to_hex(), "c0bdf8ef4f86c2cff039aa46832e321574ee1a27");
    assert_eq!(stored.digest, Object::blob(b"hel".to_vec()).digest().unwrap());
    assert_eq!(decode(&stored.compressed), Ok(Object::blob(b"hel".to_vec())));
}

#[test]
fn truncated_stream_is_a_read_failure() {
    let stored = Object::blob(vec![7u8; 5000]).encode().unwrap();
    let cut = &stored.compressed[..stored.compressed.len() / 2];
    assert_eq!(decode(cut), Err(Error::CorruptStream));
    assert_eq!(decode_exact(cut), Err(Error::CorruptStream));
    assert_eq!(Error::CorruptStream.class(), mini_git::error::ErrorClass::Io);
}

#[test]
fn empty_and_garbage_streams_are_read_failures() {
    assert_eq!(decode(b""), Err(Error::CorruptStream));
    assert_eq!(decode(b"blob 6\0hello\n"), Err(Error::CorruptStream));
}

#[test]
fn header_without_nul_is_unterminated() {
    assert_eq!(decode(&zlib_of(b"blob 6")), Err(Error::HeaderUnterminated));
    assert_eq!(decode(&zlib_of(b"")), Err(Error::HeaderUnterminated));
    assert_eq!(parse_header(b"blob 6 hello"), Err(Error::HeaderUnterminated));
}

#[test]
fn header_that_is_not_utf8_is_not_text() {
    assert_eq!(parse_header(b"blob \xff\0"), Err(Error::HeaderNotText));
    assert_eq!(parse_header(b"\xc3 5\0"), Err(Error::HeaderNotText));
    assert_eq!(decode(&zlib_of(b"\xff\0")), Err(Error::HeaderNotText));
}

#[test]
fn header_without_space_has_no_separator() {
    assert_eq!(parse_header(b"blob6\0hello\n"), Err(Error::HeaderNoSeparator));
    assert_eq!(parse_header(b"\0"), Err(Error::HeaderNoSeparator));
    assert_eq!(parse_header(b"blob\06 \0"), Err(Error::HeaderNoSeparator));
}

#[test]
fn unknown_kind_is_unsupported() {
    assert_eq!(parse_header(b"tag 6\0hello\n"), Err(Error::UnsupportedKind));
    assert_eq!(parse_header(b"Blob 6\0hello\n"), Err(Error::UnsupportedKind));
    assert_eq!(parse_header(b" 6\0"), Err(Error::UnsupportedKind));
    assert_eq!(parse_header(b"blobs x\0"), Err(Error::UnsupportedKind));
    assert_eq!(parse_header("bl\u{f6}b 6\0".as_bytes()), Err(Error::UnsupportedKind));
}

#[test]
fn bad_size_is_malformed() {
    assert_eq!(parse_header(b"blob \0"), Err(Error::MalformedSize));
    assert_eq!(parse_header(b"blob six\0"), Err(Error::MalformedSize));
    assert_eq!(parse_header(b"blob -6\0"), Err(Error::MalformedSize));
    assert_eq!(parse_header(b"blob  6\0"), Err(Error::MalformedSize));
    assert_eq!(parse_header(b"blob 6 \0"), Err(Error::MalformedSize));
    assert_eq!(parse_header(b"blob +\0"), Err(Error::MalformedSize));
    assert_eq!(parse_header(b"blob 18446744073709551616\0"), Err(Error::MalformedSize));
}

#[test]
fn header_is_parsed_up_to_the_first_nul() {
    assert_eq!(
        parse_header(b"blob 6\0hello\n"),
        Ok(Header { kind: ObjectKind::Blob, size: 6, body: 7 })
    );
    assert_eq!(
        parse_header(b"tree 0\0"),
        Ok(Header { kind: ObjectKind::Tree, size: 0, body: 7 })
    );
    assert_eq!(
        parse_header(b"commit 18446744073709551615\0\0\0"),
        Ok(Header { kind: ObjectKind::Commit, size: u64::MAX, body: 28 })
    );
    assert_eq!(
        parse_header(b"blob +007\0"),
        Ok(Header { kind: ObjectKind::Blob, size: 7, body: 10 })
    );
}

#[test]
fn written_header_has_the_documented_layout() {
    let mut out = b">".to_vec();
    write_header(ObjectKind::Commit, 1234567890, &mut out);
    assert_eq!(out, b">commit 1234567890\0".to_vec());
    let mut out = Vec::new();
    write_header(ObjectKind::Tree, 0, &mut out);
    assert_eq!(out, b"tree 0\0".to_vec());
    let mut out = Vec::new();
    write_header(ObjectKind::Blob, u64::MAX, &mut out);
    assert_eq!(out, b"blob 18446744073709551615\0".to_vec());
}

#[test]
fn content_is_bounded_to_the_declared_size() {
    let object = decode(&zlib_of(b"blob 3\0hello\n")).unwrap();
    assert_eq!(object, Object::new(ObjectKind::Blob, 3, b"hel".to_vec()));
    assert_eq!(decode_exact(&zlib_of(b"blob 3\0hello\n")), Err(Error::TrailingContent));
}

#[test]
fn short_content_is_found_by_the_strict_reader() {
    let object = decode(&zlib_of(b"blob 9\0hello\n")).unwrap();
    assert_eq!(object, Object::new(ObjectKind::Blob, 9, b"hello\n".to_vec()));
    assert_eq!(object.payload(), Err(Error::IncompleteContent));
    assert_eq!(decode_exact(&zlib_of(b"blob 9\0hello\n")), Err(Error::IncompleteContent));
    assert_eq!(Error::IncompleteContent.class(), mini_git::error::ErrorClass::SizeMismatch);
}

#[test]
fn seal_follows_the_compressor() {
    let digest = ObjectDigest { bytes: [3u8; 20] };
    assert_eq!(StoredObject::seal(digest, None), Err(Error::Compression));
    assert_eq!(
        StoredObject::seal(digest, Some(vec![1, 2, 3])),
        Ok(StoredObject { digest, compressed: vec![1, 2, 3] })
    );
}

#[test]
fn levels_above_the_highest_count_as_the_highest() {
    let data = vec![b'q'; 3000];
    let best = mini_git::transport::compress(&data, 9).unwrap();
    assert_eq!(mini_git::transport::compress(&data, 10), Some(best.clone()));
    assert_eq!(mini_git::transport::compress(&data, u32::MAX), Some(best.clone()));
    assert_eq!(mini_git::transport::compress(&data, 9), Some(best.clone()));
    assert_ne!(mini_git::transport::compress(&data, 0), Some(best));
}

#[test]
fn every_proper_prefix_of_a_stream_is_a_read_failure() {
    for content in [&b""[..], &b"hello\n"[..], &[0x5au8; 700][..]] {
        for level in [0u32, 1, 6, 9] {
            let stored = Object::blob(content.to_vec()).encode_with_level(level).unwrap();
            assert_eq!(decode(&stored.compressed), Ok(Object::blob(content.to_vec())));
            for cut in 0..stored.compressed.len() {
                assert_eq!(decode(&stored.compressed[..cut]), Err(Error::CorruptStream));
                assert_eq!(decode_exact(&stored.compressed[..cut]), Err(Error::CorruptStream));
                assert_eq!(
                    mini_git::store::get_exact(Some(&stored.compressed[..cut])),
                    Err(Error::CorruptStream)
                );
            }
        }
    }
}

#[test]
fn stored_stream_is_what_the_compressor_writes() {
    let object = Object::blob(b"the same bytes every time".to_vec());
    let envelope = object.to_envelope().unwrap();
    for level in [0u32, 3, 6, 9, 12] {
        let stored = object.encode_with_level(level).unwrap();
        assert_eq!(Some(stored.compressed), mini_git::transport::compress(&envelope, level));
    }
    let stored = object.encode().unwrap();
    assert_eq!(Some(stored.compressed.clone()), mini_git::transport::compress(&envelope, 6));
    assert_eq!(
        mini_git::codec::store_content(ObjectKind::Blob, b"the same bytes every time"),
        Ok(stored)
    );
}
