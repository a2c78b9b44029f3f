use chunk_upload::coordinator::handle_chunk;
use chunk_upload::reassembly::finalize_upload;
use chunk_upload::reassembly::finalize_upload_strict;
use chunk_upload::store::UploadStore;
use chunk_upload::UploadError;

#[test]
fn hello_world_scenario() {
    // A 10-byte file "HelloWorld" split into {0: "Hello", 1: "World"}, total 2.
    let mut store = UploadStore::new();

    let r0 = handle_chunk(
        &mut store,
        Some("testfile"),
        Some("0"),
        Some("2"),
        false,
        b"Hello".to_vec(),
    );
    let resp0 = r0.expect("chunk 0 must be accepted");
    assert_eq!(resp0.filename, "testfile");
    assert_eq!(resp0.chunk_index, 0);
    assert!(store.part_exists("testfile", 0));
    assert_eq!(store.read_part("testfile", 0).unwrap().as_slice(), b"Hello");

    let r1 = handle_chunk(
        &mut store,
        Some("testfile"),
        Some("1"),
        Some("2"),
        false,
        b"World".to_vec(),
    );
    let resp1 = r1.expect("chunk 1 must be accepted");
    assert_eq!(resp1.filename, "testfile");
    assert_eq!(resp1.chunk_index, 1);

    // Finalization ran: the artifact holds the whole file, the parts are gone.
    assert_eq!(store.artifact("testfile").unwrap().as_slice(), b"HelloWorld");
    assert!(!store.part_exists("testfile", 0));
    assert!(!store.part_exists("testfile", 1));
}

#[test]
fn missing_file_name_is_bad_request() {
    let mut store = UploadStore::new();
    let r = handle_chunk(&mut store, None, Some("0"), Some("1"), false, b"data".to_vec());
    assert_eq!(r.err(), Some(UploadError::BadRequest));
    // Nothing was created.
    assert_eq!(store.part_count(), 0);
    assert!(store.artifact("").is_none());
}

#[test]
fn empty_file_name_is_bad_request() {
    let mut store = UploadStore::new();
    let r = handle_chunk(&mut store, Some(""), Some("0"), Some("1"), false, b"data".to_vec());
    assert_eq!(r.err(), Some(UploadError::BadRequest));
    assert_eq!(store.part_count(), 0);
}

#[test]
fn malformed_index_is_bad_request() {
    let mut store = UploadStore::new();
    let r = handle_chunk(&mut store, Some("f"), Some("zero"), Some("2"), false, b"x".to_vec());
    assert_eq!(r.err(), Some(UploadError::BadRequest));
    assert_eq!(store.part_count(), 0);
}

#[test]
fn round_trip_three_chunks() {
    // An arbitrary split of "abcdefghij" into sizes 3, 4, 3 reassembles exactly.
    let mut store = UploadStore::new();
    store.write_chunk("file", 0, b"abc".to_vec());
    store.write_chunk("file", 1, b"defg".to_vec());
    store.write_chunk("file", 2, b"hij".to_vec());
    let out = finalize_upload(&mut store, "file");
    assert_eq!(out.as_slice(), b"abcdefghij");
    assert_eq!(store.artifact("file").unwrap().as_slice(), b"abcdefghij");
    assert_eq!(store.part_count(), 0);
}

#[test]
fn idempotent_retransmission() {
    // Uploading chunk 0 twice with identical content yields the same
    // artifact as uploading it once.
    let mut once = UploadStore::new();
    once.write_chunk("f", 0, b"AA".to_vec());
    once.write_chunk("f", 1, b"BB".to_vec());
    let art_once = finalize_upload(&mut once, "f");

    let mut twice = UploadStore::new();
    twice.write_chunk("f", 0, b"AA".to_vec());
    twice.write_chunk("f", 0, b"AA".to_vec());
    twice.write_chunk("f", 1, b"BB".to_vec());
    let art_twice = finalize_upload(&mut twice, "f");

    assert_eq!(art_once, art_twice);
    assert_eq!(art_twice.as_slice(), b"AABB");
}

#[test]
fn retransmission_replaces_not_appends() {
    let mut store = UploadStore::new();
    store.write_chunk("f", 0, b"aa".to_vec());
    store.write_chunk("f", 0, b"b".to_vec());
    assert_eq!(store.read_part("f", 0).unwrap().as_slice(), b"b");
    let out = finalize_upload(&mut store, "f");
    assert_eq!(out.as_slice(), b"b");
}

#[test]
fn isolation_between_keys() {
    // Two uploads interleaved chunk by chunk never cross-contaminate.
    let mut store = UploadStore::new();
    let ra0 = handle_chunk(&mut store, Some("a"), Some("0"), Some("2"), false, b"a0".to_vec());
    assert!(ra0.is_ok());
    let rb0 = handle_chunk(&mut store, Some("b"), Some("0"), Some("2"), false, b"b0".to_vec());
    assert!(rb0.is_ok());
    let ra1 = handle_chunk(&mut store, Some("a"), Some("1"), Some("2"), false, b"a1".to_vec());
    assert!(ra1.is_ok());
    // Upload "a" is complete and reassembled; "b" is still in flight.
    assert_eq!(store.artifact("a").unwrap().as_slice(), b"a0a1");
    assert!(store.artifact("b").is_none());
    assert_eq!(store.read_part("b", 0).unwrap().as_slice(), b"b0");
    let rb1 = handle_chunk(&mut store, Some("b"), Some("1"), Some("2"), false, b"b1".to_vec());
    assert!(rb1.is_ok());
    assert_eq!(store.artifact("b").unwrap().as_slice(), b"b0b1");
    assert_eq!(store.artifact("a").unwrap().as_slice(), b"a0a1");
}

#[test]
fn gap_fails_strict_finalize() {
    // Chunk 2 of 5 is never sent: strict finalization reports the upload
    // incomplete and stores nothing.
    let mut store = UploadStore::new();
    store.write_chunk("f", 0, b"0".to_vec());
    store.write_chunk("f", 1, b"1".to_vec());
    store.write_chunk("f", 3, b"3".to_vec());
    store.write_chunk("f", 4, b"4".to_vec());
    let r = finalize_upload_strict(&mut store, "f", 5);
    assert_eq!(r.err(), Some(UploadError::IncompleteUpload));
    // Nothing changed: all four parts still present, no artifact.
    assert!(store.part_exists("f", 0));
    assert!(store.part_exists("f", 1));
    assert!(store.part_exists("f", 3));
    assert!(store.part_exists("f", 4));
    assert!(store.artifact("f").is_none());
}

#[test]
fn gap_fails_strict_finalize_via_coordinator() {
    let mut store = UploadStore::new();
    let r0 = handle_chunk(&mut store, Some("f"), Some("0"), Some("3"), true, b"0".to_vec());
    assert!(r0.is_ok());
    // Chunk 1 is never sent; chunk 2 declares the total reached.
    let r2 = handle_chunk(&mut store, Some("f"), Some("2"), Some("3"), true, b"2".to_vec());
    assert_eq!(r2.err(), Some(UploadError::IncompleteUpload));
    assert!(store.artifact("f").is_none());
    // The triggering chunk itself was stored.
    assert!(store.part_exists("f", 2));
}

#[test]
fn gap_truncates_lenient_finalize() {
    // Without strict validation, reassembly stops at the first missing index.
    let mut store = UploadStore::new();
    store.write_chunk("f", 0, b"ab".to_vec());
    store.write_chunk("f", 1, b"cd".to_vec());
    store.write_chunk("f", 3, b"gh".to_vec());
    let out = finalize_upload(&mut store, "f");
    assert_eq!(out.as_slice(), b"abcd");
    // Only the consumed parts were removed.
    assert!(!store.part_exists("f", 0));
    assert!(!store.part_exists("f", 1));
    assert!(store.part_exists("f", 3));
}

#[test]
fn strict_finalize_succeeds_when_complete() {
    let mut store = UploadStore::new();
    store.write_chunk("f", 0, b"xy".to_vec());
    store.write_chunk("f", 1, b"z".to_vec());
    let r = finalize_upload_strict(&mut store, "f", 2);
    assert_eq!(r.unwrap().as_slice(), b"xyz");
    assert_eq!(store.artifact("f").unwrap().as_slice(), b"xyz");
}

#[test]
fn finalize_without_parts_yields_empty_artifact() {
    let mut store = UploadStore::new();
    let out = finalize_upload(&mut store, "nothing");
    assert!(out.is_empty());
    assert_eq!(store.artifact("nothing").unwrap().len(), 0);
}

#[test]
fn total_zero_never_finalizes() {
    let mut store = UploadStore::new();
    let r = handle_chunk(&mut store, Some("f"), Some("0"), Some("0"), false, b"x".to_vec());
    assert!(r.is_ok());
    assert!(store.part_exists("f", 0));
    assert!(store.artifact("f").is_none());
}
