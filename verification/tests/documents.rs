use tuxedo_md::document::{
    check_document_metadata, check_unchanged, conflict_check_needed, fingerprint, save_plan,
    to_hex, utf8_file_name, DocumentFingerprint, FileDocument, MAX_DOCUMENT_BYTES,
};
use tuxedo_md::error::AppError;
use tuxedo_md::path::{file_name_bytes, parent_bytes};

#[test]
fn hex_encoding_is_lowercase_two_digits_per_byte() {
    assert_eq!(to_hex(&[]), "");
    assert_eq!(to_hex(&[0x00, 0x0f, 0xa0, 0xff]), "000fa0ff");
}

#[test]
fn fingerprint_hashes_contents_with_blake3() {
    let fp = fingerprint(12, 0, b"");
    assert_eq!(fp.modified_ms, 12);
    assert_eq!(fp.size, 0);
    assert_eq!(
        fp.hash,
        "af1349b9f5f9a1a6a0404dea36dcc9499bcb25c9adc112b7cc9a93cae41f3262"
    );
    let other = fingerprint(12, 3, b"abc");
    assert_eq!(other.hash.len(), 64);
    assert_ne!(other.hash, fp.hash);
}

#[test]
fn documents_too_large_or_not_files_are_refused() {
    assert_eq!(check_document_metadata(false, 1), Err(AppError::NotAFile));
    assert_eq!(check_document_metadata(false, u64::MAX), Err(AppError::NotAFile));
    assert_eq!(
        check_document_metadata(true, MAX_DOCUMENT_BYTES + 1),
        Err(AppError::FileTooLarge)
    );
    assert_eq!(check_document_metadata(true, MAX_DOCUMENT_BYTES), Ok(()));
    assert_eq!(check_document_metadata(true, 0), Ok(()));
    assert_eq!(MAX_DOCUMENT_BYTES, 16 * 1024 * 1024);
}

fn fp(ms: u128, size: u64, hash: &str) -> DocumentFingerprint {
    DocumentFingerprint { modified_ms: ms, size, hash: hash.to_string() }
}

#[test]
fn changed_files_are_a_conflict() {
    let a = fp(1, 2, "aa");
    assert_eq!(check_unchanged(&a, &a.clone()), Ok(()));
    assert_eq!(check_unchanged(&a, &fp(2, 2, "aa")), Err(AppError::Conflict));
    assert_eq!(check_unchanged(&a, &fp(1, 3, "aa")), Err(AppError::Conflict));
    assert_eq!(check_unchanged(&a, &fp(1, 2, "ab")), Err(AppError::Conflict));
}

#[test]
fn conflicts_are_checked_only_for_unforced_saves_with_a_fingerprint() {
    let some = Some(fp(1, 1, "x"));
    assert!(conflict_check_needed(false, &some));
    assert!(!conflict_check_needed(true, &some));
    assert!(!conflict_check_needed(false, &None));
    assert!(!conflict_check_needed(true, &None));
}

#[test]
fn documents_are_named_after_their_file() {
    let doc = FileDocument::new(b"notes/a.md", "# hi".to_string(), fp(0, 4, "h"));
    assert_eq!(doc.name, "a.md");
    assert_eq!(doc.path, "notes/a.md");
    assert_eq!(doc.content, "# hi");
    let untitled = FileDocument::new(b"/", String::new(), fp(0, 0, "h"));
    assert_eq!(untitled.name, "Untitled.md");
}

#[test]
fn documents_with_names_that_are_not_utf8_are_untitled() {
    let doc = FileDocument::new(b"notes/\xff.md", String::new(), fp(0, 0, "h"));
    assert_eq!(doc.name, "Untitled.md");
    assert_eq!(doc.path, "notes/\u{fffd}.md");
    let doc = FileDocument::new(b"\xfe/b.md", String::new(), fp(0, 0, "h"));
    assert_eq!(doc.name, "b.md");
    assert_eq!(doc.path, "\u{fffd}/b.md");
    assert_eq!(utf8_file_name(b"dir/caf\xc3\xa9.md"), Some("caf\u{e9}.md".to_string()));
    assert_eq!(utf8_file_name(b"dir/caf\xc3.md"), None);
    assert_eq!(utf8_file_name(b".."), None);
}

#[test]
fn save_plan_writes_next_to_the_document() {
    let plan = save_plan(b"notes/a.md");
    assert_eq!(plan.directory, b"notes".to_vec());
    assert_eq!(plan.temporary, b"notes/.a.md.tuxedo-tmp".to_vec());
    let plan = save_plan(b"a.md");
    assert_eq!(plan.directory, b"".to_vec());
    assert_eq!(plan.temporary, b".a.md.tuxedo-tmp".to_vec());
    let plan = save_plan(b"/");
    assert_eq!(plan.directory, b".".to_vec());
    assert_eq!(plan.temporary, b"./.document.md.tuxedo-tmp".to_vec());
}

#[test]
fn save_plan_keeps_directories_that_are_not_utf8_and_renames_such_files() {
    let plan = save_plan(b"d\xff/a.md");
    assert_eq!(plan.directory, b"d\xff".to_vec());
    assert_eq!(plan.temporary, b"d\xff/.a.md.tuxedo-tmp".to_vec());
    let plan = save_plan(b"notes/\xff.md");
    assert_eq!(plan.directory, b"notes".to_vec());
    assert_eq!(plan.temporary, b"notes/.document.md.tuxedo-tmp".to_vec());
    let plan = save_plan(b"notes/caf\xc3\xa9.md");
    assert_eq!(plan.temporary, b"notes/.caf\xc3\xa9.md.tuxedo-tmp".to_vec());
}

#[test]
fn save_temporary_is_a_sibling_and_not_the_document() {
    let paths: [&[u8]; 8] =
        [b"notes/a.md", b"a.md", b"/", b"/x/y/", b"dir/.", b"..", b"d\xff/\xfe", b"/.document.md.tuxedo-tmp"];
    for path in paths {
        let plan = save_plan(path);
        assert_eq!(parent_bytes(&plan.temporary), Some(plan.directory.clone()));
        assert_ne!(plan.temporary, path.to_vec());
        let name = file_name_bytes(&plan.temporary).unwrap();
        assert!(name.starts_with(b".") && name.ends_with(b".tuxedo-tmp"));
    }
}

#[test]
fn different_bytes_have_different_hex_and_equal_inputs_equal_fingerprints() {
    assert_ne!(to_hex(&[0x12]), to_hex(&[0x21]));
    assert_ne!(to_hex(&[0x01, 0x00]), to_hex(&[0x10]));
    assert_eq!(fingerprint(5, 3, b"abc"), fingerprint(5, 3, b"abc"));
    assert_ne!(fingerprint(5, 3, b"abc").hash, fingerprint(5, 3, b"abd").hash);
}
