use chunk_upload::coordinator::UploadResponse;
use chunk_upload::identity::parse_usize;
use chunk_upload::identity::resolve_identity;
use chunk_upload::is_last_chunk;
use chunk_upload::naming::part_file_name;
use chunk_upload::naming::usize_to_string;
use chunk_upload::UploadError;

#[test]
fn parse_accepts_digits() {
    assert_eq!(parse_usize("0"), Some(0));
    assert_eq!(parse_usize("7"), Some(7));
    assert_eq!(parse_usize("42"), Some(42));
    assert_eq!(parse_usize("000123"), Some(123));
    let max = format!("{}", usize::MAX);
    assert_eq!(parse_usize(&max), Some(usize::MAX));
}

#[test]
fn parse_rejects_malformed() {
    assert_eq!(parse_usize(""), None);
    assert_eq!(parse_usize("12a"), None);
    assert_eq!(parse_usize("-1"), None);
    assert_eq!(parse_usize(" 1"), None);
    assert_eq!(parse_usize("1.5"), None);
    // One past the machine's word overflows.
    assert_eq!(parse_usize("99999999999999999999999999999999"), None);
}

#[test]
fn resolver_defaults_absent_fields() {
    let info = resolve_identity(None, None, None).unwrap();
    assert_eq!(info.filename, "");
    assert_eq!(info.chunk_index, 0);
    assert_eq!(info.total_chunk, 0);
}

#[test]
fn resolver_extracts_all_fields() {
    let info = resolve_identity(Some("movie.mp4"), Some("3"), Some("10")).unwrap();
    assert_eq!(info.filename, "movie.mp4");
    assert_eq!(info.chunk_index, 3);
    assert_eq!(info.total_chunk, 10);
}

#[test]
fn resolver_rejects_malformed_numbers() {
    let r = resolve_identity(Some("f"), Some("three"), Some("10"));
    assert_eq!(r.err(), Some(UploadError::BadRequest));
    let r = resolve_identity(Some("f"), Some("3"), Some(""));
    assert_eq!(r.err(), Some(UploadError::BadRequest));
}

#[test]
fn digits_render_in_decimal() {
    assert_eq!(usize_to_string(0), "0");
    assert_eq!(usize_to_string(9), "9");
    assert_eq!(usize_to_string(10), "10");
    assert_eq!(usize_to_string(1234), "1234");
}

#[test]
fn part_names_are_deterministic() {
    assert_eq!(part_file_name("testfile", 0), "0_testfile.part");
    assert_eq!(part_file_name("testfile", 12), "12_testfile.part");
    // Keys containing digits and underscores still get distinct names.
    assert_eq!(part_file_name("a_b", 1), "1_a_b.part");
    assert_ne!(part_file_name("2_x", 1), part_file_name("x", 12));
}

#[test]
fn last_chunk_decision() {
    assert!(is_last_chunk(0, 1));
    assert!(is_last_chunk(4, 5));
    assert!(!is_last_chunk(3, 5));
    assert!(!is_last_chunk(5, 5));
    // A declared total of zero never finalizes.
    assert!(!is_last_chunk(0, 0));
}

#[test]
fn confirmation_names_key_and_index() {
    let resp = UploadResponse { filename: String::from("testfile"), chunk_index: 0 };
    assert_eq!(resp.confirmation(), "testfile - chunk 0 uploaded");
    let resp = UploadResponse { filename: String::from("f"), chunk_index: 41 };
    assert_eq!(resp.confirmation(), "f - chunk 41 uploaded");
}
