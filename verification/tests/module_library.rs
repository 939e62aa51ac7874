use std::collections::BTreeSet;

use dandrum_engine::diagnostics::ErrorCode;
use dandrum_engine::module_library::{
    bundled_standard_library, crc32_update, extracted_result, format_crc, parse_recorded_crc, plan_seed,
    reject_file_path_escape, seeded_library_crc, skipped_if_unchanged, validate_version, ModuleLibrarySeedError,
    SeedResult, SeededLibrary, SeededLibraryFile, BUNDLED_DRUM_MACHINE_PATH, BUNDLED_DRUM_VOICE_PATH,
    BUNDLED_STANDARD_LIBRARY_VERSION, STANDARD_LIBRARY_CRC_FILENAME,
};

fn file(path: &str, contents: &[u8]) -> SeededLibraryFile {
    SeededLibraryFile {
        path: path.to_string(),
        contents: contents.to_vec(),
    }
}

fn library(version: &str, contents: &[u8]) -> SeededLibrary {
    SeededLibrary {
        version: version.to_string(),
        files: vec![file("drum_voice/drum_voice.yaml", contents)],
    }
}

#[test]
fn bundled_standard_library_contains_the_drum_voice_and_drum_machine_packages() {
    let bundled = bundled_standard_library(b"name: drum_voice\n".to_vec(), b"name: drum_machine\n".to_vec());
    let paths = bundled
        .files
        .iter()
        .map(|file| file.path.as_str())
        .collect::<BTreeSet<_>>();

    assert_eq!(bundled.version, BUNDLED_STANDARD_LIBRARY_VERSION);
    assert!(
        paths.contains(BUNDLED_DRUM_VOICE_PATH),
        "the bundled standard library should carry the drum_voice package entry YAML"
    );
    assert!(
        paths.contains(BUNDLED_DRUM_MACHINE_PATH),
        "the bundled standard library should carry the drum_machine package entry YAML"
    );
}

#[test]
fn crc32_matches_the_standard_check_value() {
    let crc = crc32_update(0xFFFF_FFFF, b"123456789") ^ 0xFFFF_FFFF;
    assert_eq!(crc, 0xCBF4_3926);
}

#[test]
fn library_crc_depends_on_contents_and_version() {
    let a = seeded_library_crc(&library("1.0.0", b"a"));
    let b = seeded_library_crc(&library("1.0.0", b"b"));
    let c = seeded_library_crc(&library("1.0.1", b"a"));
    assert_ne!(a, b);
    assert_ne!(a, c);
    assert_eq!(a, seeded_library_crc(&library("1.0.0", b"a")));
}

#[test]
fn library_crc_ignores_file_order() {
    let forward = SeededLibrary {
        version: "1.0.0".to_string(),
        files: vec![file("a.yaml", b"one"), file("b.yaml", b"two")],
    };
    let backward = SeededLibrary {
        version: "1.0.0".to_string(),
        files: vec![file("b.yaml", b"two"), file("a.yaml", b"one")],
    };
    assert_eq!(seeded_library_crc(&forward), seeded_library_crc(&backward));
}

#[test]
fn crc_text_round_trips() {
    let text = format_crc(0x00AB_CDEF);
    assert_eq!(text, "00abcdef\n");
    assert_eq!(parse_recorded_crc(&text), Some(0x00AB_CDEF));
    assert_eq!(parse_recorded_crc("  DEADBEEF  "), Some(0xDEAD_BEEF));
    assert_eq!(parse_recorded_crc("not hex"), None);
    assert_eq!(parse_recorded_crc(""), None);
}

#[test]
fn versions_must_be_plain_names() {
    assert_eq!(validate_version("1.0.0"), Ok(()));
    assert_eq!(
        validate_version("../1.0.0"),
        Err(ModuleLibrarySeedError::InvalidVersion {
            version: "../1.0.0".to_string()
        })
    );
    assert!(validate_version("").is_err());
    assert!(validate_version(".").is_err());
}

#[test]
fn file_paths_may_not_escape_the_version_directory() {
    assert_eq!(reject_file_path_escape("drum_voice/drum_voice.yaml"), Ok(()));
    let error = reject_file_path_escape("../outside.yaml").unwrap_err();
    assert_eq!(
        error,
        ModuleLibrarySeedError::PathEscape {
            path: "../outside.yaml".to_string()
        }
    );
    assert_eq!(error.to_diagnostic().error_code(), ErrorCode::LibraryPathEscape);
    assert!(reject_file_path_escape("/etc/passwd").is_err());
}

#[test]
fn seed_failures_map_to_the_seed_failed_code() {
    let error = ModuleLibrarySeedError::Io {
        path: "/x".to_string(),
        message: "denied".to_string(),
    };
    assert_eq!(error.to_diagnostic().error_code(), ErrorCode::LibrarySeedFailed);
    assert_eq!(
        ModuleLibrarySeedError::MissingHomeDirectory.to_diagnostic().error_code(),
        ErrorCode::LibrarySeedFailed
    );
}

#[test]
fn unchanged_library_is_skipped() {
    let library = library("1.0.0", b"a");
    let crc = seeded_library_crc(&library);
    assert_eq!(
        skipped_if_unchanged(&library, crc, Some(crc)),
        Some(SeedResult::SkippedUnchanged {
            version: "1.0.0".to_string(),
            crc
        })
    );
    assert_eq!(skipped_if_unchanged(&library, crc, Some(crc ^ 1)), None);
    assert_eq!(skipped_if_unchanged(&library, crc, None), None);
    assert_eq!(
        extracted_result(&library, crc),
        SeedResult::Extracted {
            version: "1.0.0".to_string(),
            crc
        }
    );
}

#[test]
fn seed_plan_targets_the_version_directory() {
    let library = library("1.0.0", b"a");
    let plan = match plan_seed("/lib", &library, 42) {
        Ok(plan) => plan,
        Err(error) => panic!("a valid library plans, got {error:?}"),
    };
    assert_eq!(plan.version_root, "/lib/1.0.0");
    assert_eq!(plan.manifest_path, format!("/lib/1.0.0/{STANDARD_LIBRARY_CRC_FILENAME}"));
    assert_eq!(plan.crc, seeded_library_crc(&library));
    assert_eq!(plan.manifest_text, format_crc(plan.crc));
    assert_eq!(plan.file_targets.len(), 1);
}

#[test]
fn seed_plan_rejects_escaping_versions_and_files() {
    assert!(plan_seed("/lib", &library("..", b"a"), 1).is_err());
    let escaping = SeededLibrary {
        version: "1.0.0".to_string(),
        files: vec![file("../x.yaml", b"a")],
    };
    match plan_seed("/lib", &escaping, 1) {
        Err(error) => assert_eq!(
            error,
            ModuleLibrarySeedError::PathEscape {
                path: "../x.yaml".to_string()
            }
        ),
        Ok(_) => panic!("an escaping file path must be rejected"),
    }
}
