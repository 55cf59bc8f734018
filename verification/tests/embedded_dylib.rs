//! Where the hook is put.

use smeltr::embedded_dylib::{abbreviate, dylib_fingerprint, extract, extract_to, extraction_path};

const HOOK: &[u8] = b"abc";

/// The first six bytes of the SHA-256 of the content name the file.
#[test]
fn fingerprints_name_the_content() {
    assert_eq!(dylib_fingerprint(HOOK), "ba7816bf8f01");
    assert_eq!(dylib_fingerprint(b""), "e3b0c44298fc");
    assert_eq!(
        abbreviate(&[0x00, 0x0f, 0xf0, 0xab, 0xcd, 0xef, 0x99]),
        "000ff0abcdef"
    );
    assert_eq!(
        extraction_path("/tmp", HOOK),
        "/tmp/libmetal_hook-ba7816bf8f01.dylib"
    );
}

/// A missing hook is written.
#[test]
fn a_missing_hook_is_written() {
    let e = extract_to("/tmp", HOOK, None);
    assert_eq!(e.path, "/tmp/libmetal_hook-ba7816bf8f01.dylib");
    assert!(e.write);
    assert_eq!(extract("/tmp", HOOK, None), e);
}

#[test]
fn extract_is_idempotent_when_content_matches() {
    let first = extract_to("/tmp", HOOK, None);
    let again = extract_to("/tmp", HOOK, Some(HOOK));
    assert_eq!(first.path, again.path);
    assert!(!again.write, "file would be rewritten unnecessarily");
}

#[test]
fn extract_rewrites_when_content_differs() {
    let first = extract_to("/tmp", HOOK, None);
    for stale in [&b"stale"[..], b"abd", b"ab", b""] {
        let e = extract_to("/tmp", HOOK, Some(stale));
        assert_eq!(e.path, first.path);
        assert!(e.write, "stale content would not be refreshed");
    }
}
