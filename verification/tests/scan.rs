use extension_fixer::detect::detect_from_bytes;
use extension_fixer::paths::PathStyle;
use extension_fixer::scan::{mismatch_for, progress_interval, to_mismatch, Mismatch, BATCH_SIZE};

const JPEG: [u8; 4] = [0xFF, 0xD8, 0xFF, 0xE0];

#[test]
fn reports_a_photo_saved_as_video() {
    let m = to_mismatch(PathStyle::Unix, "/photos/trip/IMG_1.mp4", "/photos", &JPEG, |_: &str| false).unwrap();
    assert_eq!(
        m,
        Mismatch {
            path: "/photos/trip/IMG_1.mp4".to_string(),
            relative_path: "trip/IMG_1.mp4".to_string(),
            current_extension: "mp4".to_string(),
            detected_extension: "jpg".to_string(),
            suggested_name: "IMG_1.jpg".to_string(),
            has_conflict: false,
        }
    );
}

#[test]
fn accepted_extensions_are_not_mismatches() {
    assert_eq!(to_mismatch(PathStyle::Unix, "/photos/a.jpg", "/photos", &JPEG, |_: &str| false), None);
    assert_eq!(to_mismatch(PathStyle::Unix, "/photos/a.JPEG", "/photos", &JPEG, |_: &str| false), None);
}

#[test]
fn unrecognized_content_is_skipped() {
    assert_eq!(to_mismatch(PathStyle::Unix, "/photos/a.mp4", "/photos", b"PK\x03\x04", |_: &str| false), None);
}

#[test]
fn conflicts_are_checked_next_to_the_file() {
    let m = to_mismatch(PathStyle::Unix, "/photos/a.mov", "/photos", &JPEG, |p: &str| p == "/photos/a.jpg").unwrap();
    assert!(m.has_conflict);
    assert_eq!(m.current_extension, "mov");
    assert_eq!(m.suggested_name, "a.jpg");
}

#[test]
fn relative_path_falls_back_to_the_full_path() {
    let m = to_mismatch(PathStyle::Unix, "/other/a.mov", "/photos", &JPEG, |_: &str| false).unwrap();
    assert_eq!(m.relative_path, "/other/a.mov");
}

#[test]
fn relative_path_uses_forward_slashes() {
    let f = detect_from_bytes(&JPEG).unwrap();
    let m = mismatch_for(PathStyle::Unix, "/photos/x\\y.png", "/photos", f, "png", |_: &str| false).unwrap();
    assert_eq!(m.relative_path, "x/y.png");
    assert_eq!(m.current_extension, "png");
}

#[test]
fn missing_extension_is_reported_empty() {
    let m = to_mismatch(PathStyle::Unix, "/photos/IMG_2", "/photos/", &JPEG, |_: &str| false).unwrap();
    assert_eq!(m.current_extension, "");
    assert_eq!(m.suggested_name, "IMG_2.jpg");
    assert_eq!(m.relative_path, "IMG_2");
}

#[test]
fn progress_is_reported_about_two_hundred_times() {
    assert_eq!(progress_interval(0), 1);
    assert_eq!(progress_interval(199), 1);
    assert_eq!(progress_interval(400), 2);
    assert_eq!(progress_interval(10_000), 50);
    assert_eq!(BATCH_SIZE, 50);
}

#[test]
fn windows_reports_read_the_path_by_windows_rules() {
    let m = to_mismatch(
        PathStyle::Windows,
        "C:\\my.photos\\trip\\IMG_1",
        "C:\\my.photos",
        &JPEG,
        |p: &str| p == "C:\\my.photos\\trip\\IMG_1.jpg",
    )
    .unwrap();
    assert_eq!(m.relative_path, "trip/IMG_1");
    assert_eq!(m.current_extension, "");
    assert_eq!(m.suggested_name, "IMG_1.jpg");
    assert!(m.has_conflict);
}

#[test]
fn renamed_files_are_not_reported_again() {
    let cases: [(&str, &[u8]); 5] = [
        ("/d/CLIP.MOV", &JPEG),
        ("/d/vacation.png.mp4", b"\x89PNG\r\n\x1a\n"),
        ("/d/Holiday.JPEG.mp4", &JPEG),
        ("/d/somefile.jpg.dup3", &JPEG),
        ("/d/IMG_2", &JPEG),
    ];
    for (path, header) in cases {
        let m = to_mismatch(PathStyle::Unix, path, "/d", header, |_: &str| false).unwrap();
        let renamed = format!("/d/{}", m.suggested_name);
        assert_eq!(to_mismatch(PathStyle::Unix, &renamed, "/d", header, |_: &str| false), None, "{renamed}");
    }
}
