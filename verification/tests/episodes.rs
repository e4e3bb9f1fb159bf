use seedfs::episodes::{
    check_matching_parent_and_extension, CheckMatchingParentAndExtensionError, OMDbResult,
};
use seedfs::path::Path;

#[test]
fn check_matching_parent_and_extension_no_paths() {
    assert_eq!(
        check_matching_parent_and_extension(&[], &Path::new(""), "mkv"),
        Ok(())
    );
    assert_eq!(
        check_matching_parent_and_extension(&[], &Path::new("test"), "mkv"),
        Ok(())
    );
}

#[test]
fn check_matching_parent_and_extension_ok() {
    assert_eq!(
        check_matching_parent_and_extension(&[Path::new("test.mkv")], &Path::new(""), "mkv"),
        Ok(())
    );
    assert_eq!(
        check_matching_parent_and_extension(
            &[Path::new("test/test.mkv")],
            &Path::new("test"),
            "mkv"
        ),
        Ok(())
    );
}

#[test]
fn check_matching_parent_and_extension_mismatched_parent() {
    assert_eq!(
        check_matching_parent_and_extension(
            &[Path::new("test.mkv")],
            &Path::new("test"),
            "mkv"
        ),
        Err(CheckMatchingParentAndExtensionError::MismatchedParents {
            actual: Path::new("test.mkv"),
            expected: Path::new("test"),
        })
    );
    assert_eq!(
        check_matching_parent_and_extension(
            &[Path::new("test/test.mkv")],
            &Path::new(""),
            "mkv"
        ),
        Err(CheckMatchingParentAndExtensionError::MismatchedParents {
            actual: Path::new("test/test.mkv"),
            expected: Path::new(""),
        })
    );
}

#[test]
fn check_matching_parent_and_extension_mismatched_extensions() {
    assert_eq!(
        check_matching_parent_and_extension(&[Path::new("test.mp4")], &Path::new(""), "mkv"),
        Err(CheckMatchingParentAndExtensionError::MismatchedExtensions {
            actual: Path::new("test.mp4"),
            expected: "mkv".into(),
        })
    );
    assert_eq!(
        check_matching_parent_and_extension(
            &[Path::new("test/test.mp4")],
            &Path::new("test"),
            "mkv"
        ),
        Err(CheckMatchingParentAndExtensionError::MismatchedExtensions {
            actual: Path::new("test/test.mp4"),
            expected: "mkv".into(),
        })
    );
}

#[test]
fn check_matching_parent_and_extension_stops_at_the_first_mismatch() {
    assert_eq!(
        check_matching_parent_and_extension(
            &[
                Path::new("test/a.mkv"),
                Path::new("test/b.mp4"),
                Path::new("other/c.mkv")
            ],
            &Path::new("test"),
            "mkv"
        ),
        Err(CheckMatchingParentAndExtensionError::MismatchedExtensions {
            actual: Path::new("test/b.mp4"),
            expected: "mkv".into(),
        })
    );
}

#[test]
fn check_matching_parent_and_extension_without_extension() {
    assert_eq!(
        check_matching_parent_and_extension(&[Path::new(".mkv")], &Path::new(""), "mkv"),
        Err(CheckMatchingParentAndExtensionError::MismatchedExtensions {
            actual: Path::new(".mkv"),
            expected: "mkv".into(),
        })
    );
}

#[test]
fn get_name_pads_season_and_episode() {
    let result = OMDbResult {
        title: "Spirited Away".into(),
        year: "2001".into(),
    };
    assert_eq!(result.get_name(1, 2, "mkv"), "Spirited.Away.S01E02.mkv");
    assert_eq!(result.get_name(12, 100, "mp4"), "Spirited.Away.S12E100.mp4");
    assert_eq!(result.get_name(0, 10, "mkv"), "Spirited.Away.S00E10.mkv");
}
