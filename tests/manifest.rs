use tokactordb::manifest::{validate_manifest_file_name, Current, ManifestError};

#[test]
fn invalid_manifest_file_names() {
    assert!(validate_manifest_file_name("name").is_err());
    assert!(validate_manifest_file_name("MANIFEST-name").is_err());
    assert!(validate_manifest_file_name("MANIFEST-123abc").is_err());
    assert!(validate_manifest_file_name("MANIFEST-1!").is_err());
    assert!(validate_manifest_file_name("MANIFEST-1\n").is_err());
    assert!(validate_manifest_file_name("MANIFEST-1\t").is_err());
    assert!(validate_manifest_file_name("\tMANIFEST-1").is_err());
    assert!(validate_manifest_file_name("MANIFEST--1").is_err());
    assert!(
        validate_manifest_file_name(&format!("MANIFEST-{}", u64::MAX as u128 + 1)).is_err()
    );
}

#[test]
fn valid_manifest_file_names() {
    assert_eq!(validate_manifest_file_name("MANIFEST-123").unwrap(), 123);
    assert_eq!(validate_manifest_file_name("MANIFEST-1").unwrap(), 1);
    assert_eq!(
        validate_manifest_file_name(&format!("MANIFEST-{}", u64::MIN)).unwrap(),
        u64::MIN
    );
    assert_eq!(
        validate_manifest_file_name(&format!("MANIFEST-{}", u64::MAX)).unwrap(),
        u64::MAX
    );
}

#[test]
fn manifest_error_kinds_and_prefixes() {
    assert_eq!(
        validate_manifest_file_name("CURRENT"),
        Err(ManifestError::MissingPrefix)
    );
    assert_eq!(
        validate_manifest_file_name("MANIFEST-"),
        Err(ManifestError::InvalidNumber)
    );
    assert_eq!(validate_manifest_file_name("MANIFEST-+7"), Ok(7));
    assert_eq!(validate_manifest_file_name("MANIFEST-MANIFEST-4"), Ok(4));
    let c = Current::new("MANIFEST-0", 0);
    assert_eq!(c.sequence_num, 0);
    assert_eq!(c.pointer, "MANIFEST-0");
}
