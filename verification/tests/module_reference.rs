use std::path::PathBuf;

use dandrum_engine::diagnostics::ErrorCode;
use dandrum_engine::module_reference::{
    is_external_reference, join, latest_listing_root, path_escapes, resolve, DirectoryListing, ListedEntry,
    MacroRoots, ModuleReferenceError, LIB_MACRO, USER_LIB_MACRO,
};

const PINNED_REFERENCE: &str = "$LIB/1.3.9/drum_voice/drum_voice.yaml";

fn roots() -> MacroRoots {
    MacroRoots::new()
        .with_root(LIB_MACRO, "/opt/dandrum/lib")
        .with_root(USER_LIB_MACRO, "/home/user/.dandrum/modules")
}

fn directory(name: &str) -> ListedEntry {
    ListedEntry::Entry {
        name: Some(name.to_string()),
        is_directory: true,
    }
}

fn file(name: &str) -> ListedEntry {
    ListedEntry::Entry {
        name: Some(name.to_string()),
        is_directory: false,
    }
}

#[test]
fn dollar_prefixed_type_is_an_external_reference() {
    assert!(
        is_external_reference(PINNED_REFERENCE),
        "a $-prefixed type should be detected as an external reference"
    );
}

#[test]
fn built_in_and_inline_types_are_not_external_references() {
    assert!(
        !is_external_reference("oscillator"),
        "a built-in type name should not be an external reference"
    );
    assert!(
        !is_external_reference("my_drum_voice"),
        "an inline defined-module type should not be an external reference"
    );
}

#[test]
fn pinned_reference_resolves_under_its_macro_root() {
    let resolved = resolve(PINNED_REFERENCE, &roots(), &None)
        .expect("a well-formed $LIB reference should resolve");
    assert_eq!(
        PathBuf::from(resolved),
        PathBuf::from("/opt/dandrum/lib/1.3.9/drum_voice/drum_voice.yaml"),
        "the relative path should be joined onto the configured $LIB root"
    );
}

#[test]
fn user_lib_reference_resolves_under_its_own_root() {
    let resolved = resolve("$USER_LIB/my_kit/my_kit.yaml", &roots(), &None)
        .expect("a well-formed $USER_LIB reference should resolve");
    assert_eq!(
        PathBuf::from(resolved),
        PathBuf::from("/home/user/.dandrum/modules/my_kit/my_kit.yaml"),
        "the reference should resolve under the $USER_LIB root, not $LIB"
    );
}

#[test]
fn latest_alias_resolves_to_the_highest_version_directory() {
    let root = "/srv/library";
    let roots = MacroRoots::new().with_root(LIB_MACRO, root);
    let listing: DirectoryListing = Ok(vec![
        directory("1.3.9"),
        directory("1.10.0"),
        directory("latest"),
        file("not-a-version"),
    ]);
    assert_eq!(
        latest_listing_root("$LIB/latest/drum_voice/drum_voice.yaml", &roots),
        Some(root.to_string())
    );

    let resolved = resolve("$LIB/latest/drum_voice/drum_voice.yaml", &roots, &Some(listing))
        .expect("latest should resolve when version directories exist");

    assert_eq!(
        PathBuf::from(resolved),
        PathBuf::from(root).join("1.10.0").join("drum_voice").join("drum_voice.yaml"),
        "latest should follow the highest numeric version directory"
    );
}

#[test]
fn pinned_versions_remain_resolvable_when_latest_exists() {
    let root = "/srv/pinned";
    let roots = MacroRoots::new().with_root(LIB_MACRO, root);
    assert_eq!(latest_listing_root("$LIB/1.3.9/drum_voice/drum_voice.yaml", &roots), None);

    let resolved = resolve("$LIB/1.3.9/drum_voice/drum_voice.yaml", &roots, &None)
        .expect("a pinned version should not require latest lookup");

    assert_eq!(
        PathBuf::from(resolved),
        PathBuf::from(root).join("1.3.9").join("drum_voice").join("drum_voice.yaml"),
        "pinned references should stay on their explicit version"
    );
}

#[test]
fn latest_alias_without_version_directories_is_a_hard_error() {
    let roots = MacroRoots::new().with_root(LIB_MACRO, "/srv/empty-latest");

    let error = resolve("$LIB/latest/drum_voice/drum_voice.yaml", &roots, &Some(Ok(Vec::new())))
        .expect_err("latest should fail when no concrete version exists");

    assert_eq!(
        error.to_diagnostic().error_code(),
        ErrorCode::LibraryLatestUnavailable,
        "an unavailable latest alias should map to a stable library diagnostic"
    );
}

#[test]
fn unknown_macro_is_a_hard_error() {
    let error = resolve("$NOPE/1.0.0/thing/thing.yaml", &roots(), &None)
        .expect_err("an unconfigured macro should fail rather than fall back");
    assert_eq!(
        error,
        ModuleReferenceError::UnknownMacro {
            macro_name: "$NOPE".to_string(),
        },
        "the error should name the unknown macro without resolving elsewhere"
    );
    assert_eq!(
        error.to_diagnostic().error_code(),
        ErrorCode::LibraryUnknownMacro,
        "an unknown macro should map to the library.unknown_macro code"
    );
}

#[test]
fn parent_dir_segment_is_rejected_as_a_path_escape() {
    let reference = "$LIB/1.3.9/../../etc/passwd";
    let error = resolve(reference, &roots(), &None)
        .expect_err("a reference with .. segments should be rejected");
    assert_eq!(
        error,
        ModuleReferenceError::PathEscape {
            reference: reference.to_string(),
        },
        "a .. segment must not be allowed to escape the library root"
    );
    assert_eq!(
        error.to_diagnostic().error_code(),
        ErrorCode::LibraryPathEscape,
        "a path escape should map to the library.path_escape code"
    );
}

#[test]
fn plain_type_is_not_a_reference() {
    let error = resolve("oscillator", &roots(), &None).expect_err("a plain type is no reference");
    assert_eq!(
        error,
        ModuleReferenceError::NotAReference {
            module_type: "oscillator".to_string(),
        }
    );
    assert_eq!(error.to_diagnostic().error_code(), ErrorCode::LibraryMalformedReference);
}

#[test]
fn reference_without_a_path_is_malformed() {
    let error = resolve("$LIB", &roots(), &None).expect_err("a bare macro names no package");
    assert_eq!(
        error,
        ModuleReferenceError::Malformed {
            reference: "$LIB".to_string(),
        }
    );
    assert_eq!(error.to_diagnostic().error_code(), ErrorCode::LibraryMalformedReference);
}

#[test]
fn unreadable_listing_reports_its_message() {
    let roots = MacroRoots::new().with_root(LIB_MACRO, "/srv/broken");
    let error = resolve(
        "$LIB/latest/kit.yaml",
        &roots,
        &Some(Err("permission denied".to_string())),
    )
    .expect_err("an unreadable root cannot resolve latest");
    assert_eq!(
        error,
        ModuleReferenceError::LatestUnavailable {
            reference: "$LIB/latest/kit.yaml".to_string(),
            root: "/srv/broken".to_string(),
            message: "permission denied".to_string(),
        }
    );
}

#[test]
fn unreadable_entry_stops_the_latest_scan() {
    let roots = MacroRoots::new().with_root(LIB_MACRO, "/srv/partial");
    let listing: DirectoryListing = Ok(vec![
        directory("2.0.0"),
        ListedEntry::Unreadable("io error".to_string()),
        directory("3.0.0"),
    ]);
    let error = resolve("$LIB/latest/kit.yaml", &roots, &Some(listing)).expect_err("the scan stops");
    assert_eq!(error.to_diagnostic().error_code(), ErrorCode::LibraryLatestUnavailable);
}

#[test]
fn zero_versions_and_files_are_not_candidates_for_latest() {
    let roots = MacroRoots::new().with_root(LIB_MACRO, "/srv/zero");
    let listing: DirectoryListing = Ok(vec![
        directory("0.0"),
        file("9.9.9"),
        directory("0.1"),
        ListedEntry::Entry {
            name: None,
            is_directory: true,
        },
    ]);
    let resolved = resolve("$LIB/latest/a/b.yaml", &roots, &Some(listing)).expect("0.1 is a version");
    assert_eq!(resolved, "/srv/zero/0.1/a/b.yaml");
}

#[test]
fn escape_detection_covers_dot_and_absolute_segments() {
    assert!(path_escapes("1.0/../x"));
    assert!(path_escapes("./x"));
    assert!(path_escapes("/etc/passwd"));
    assert!(!path_escapes("1.0/drum/drum.yaml"));
    assert!(!path_escapes("a//b"));
}

#[test]
fn join_inserts_a_single_separator() {
    assert_eq!(join("/root", "a/b"), "/root/a/b");
    assert_eq!(join("/root/", "a"), "/root/a");
    assert_eq!(join("", "a"), "a");
}

#[test]
fn macro_roots_replace_an_earlier_root() {
    let roots = MacroRoots::new().with_root(LIB_MACRO, "/one").with_root(LIB_MACRO, "/two");
    assert_eq!(roots.root(LIB_MACRO), Some("/two"));
    assert_eq!(roots.root(USER_LIB_MACRO), None);
}

#[test]
fn macro_roots_registered_in_another_order_are_equal() {
    let first = MacroRoots::new().with_root("$LIB", "/lib").with_root("$USER_LIB", "/user");
    let second = MacroRoots::new().with_root("$USER_LIB", "/user").with_root("$LIB", "/lib");
    assert_eq!(first, second);
    assert_ne!(first, MacroRoots::new().with_root("$LIB", "/other").with_root("$USER_LIB", "/user"));
    assert_eq!(MacroRoots::default(), MacroRoots::new());
}
