use std::path::{Path, PathBuf};

use extension_fixer::naming::{
    compute_suggested_name, compute_suggested_name_in, decimal_string, resolve_conflict, resolve_conflict_in,
    suggest_name,
};
use extension_fixer::paths::{file_name_of, parent_of, PathStyle};
use extension_fixer::StringHashSet;

#[test]
fn appends_when_current_extension_is_unknown() {
    let name = compute_suggested_name("somefile.jpg.dup3", "jpg");
    assert_eq!(name, "somefile.jpg.dup3.jpg");
}

#[test]
fn appends_when_there_is_no_extension_at_all() {
    let name = compute_suggested_name("IMG_1234", "jpg");
    assert_eq!(name, "IMG_1234.jpg");
}

#[test]
fn replaces_when_current_extension_is_a_known_but_wrong_format() {
    let name = compute_suggested_name("clip.mov", "mp4");
    assert_eq!(name, "clip.mp4");
}

#[test]
fn collapses_a_redundant_duplicate_extension() {
    let name = compute_suggested_name("vacation.png.mp4", "png");
    assert_eq!(name, "vacation.png");
}

#[test]
fn collapses_across_equivalent_spellings_of_the_same_format() {
    // "jpeg" and "jpg" are both accepted for the jpg format.
    let name = compute_suggested_name("vacation.jpeg.mp4", "jpg");
    assert_eq!(name, "vacation.jpeg");
}

#[test]
fn does_not_collapse_different_formats() {
    let name = compute_suggested_name("vacation.jpg.mp4", "png");
    assert_eq!(name, "vacation.jpg.png");
}

#[test]
fn only_collapses_one_level() {
    let name = compute_suggested_name("vacation.png.png.mp4", "png");
    assert_eq!(name, "vacation.png.png");
}

#[test]
fn resolve_conflict_returns_base_when_free() {
    let mut claimed = StringHashSet::new();
    let result = resolve_conflict("/dir", "photo.jpg", &mut claimed, |_: &str| false);
    assert_eq!(result.map(PathBuf::from), Some(PathBuf::from("/dir/photo.jpg")));
}

#[test]
fn resolve_conflict_numbers_when_target_exists_on_disk() {
    let mut claimed = StringHashSet::new();
    let existing = PathBuf::from("/dir/photo.jpg");
    let result = resolve_conflict("/dir", "photo.jpg", &mut claimed, move |p: &str| Path::new(p) == existing);
    assert_eq!(result.map(PathBuf::from), Some(PathBuf::from("/dir/photo (1).jpg")));
}

#[test]
fn resolve_conflict_numbers_when_target_already_claimed_in_batch() {
    let mut claimed = StringHashSet::new();
    claimed.insert(String::from("/dir/photo.jpg"));
    let result = resolve_conflict("/dir", "photo.jpg", &mut claimed, |_: &str| false);
    assert_eq!(result.map(PathBuf::from), Some(PathBuf::from("/dir/photo (1).jpg")));
}

#[test]
fn resolve_conflict_keeps_incrementing_past_multiple_collisions() {
    let mut claimed = StringHashSet::new();
    let taken = [
        PathBuf::from("/dir/photo.jpg"),
        PathBuf::from("/dir/photo (1).jpg"),
        PathBuf::from("/dir/photo (2).jpg"),
    ];
    let result = resolve_conflict("/dir", "photo.jpg", &mut claimed, move |p: &str| {
        taken.contains(&Path::new(p).to_path_buf())
    });
    assert_eq!(result.map(PathBuf::from), Some(PathBuf::from("/dir/photo (3).jpg")));
}

#[test]
fn resolve_conflict_handles_no_extension() {
    let mut claimed = StringHashSet::new();
    let existing = PathBuf::from("/dir/README");
    let result = resolve_conflict("/dir", "README", &mut claimed, move |p: &str| Path::new(p) == existing);
    assert_eq!(result.map(PathBuf::from), Some(PathBuf::from("/dir/README (1)")));
}

// --- further cases ---

#[test]
fn uppercase_known_extension_is_replaced() {
    // "MOV" lowercases to a known extension, so it is replaced rather
    // than kept with the canonical one appended.
    assert_eq!(compute_suggested_name("CLIP.MOV", "mp4"), "CLIP.mp4");
    assert_eq!(compute_suggested_name("Holiday.PNG.MP4", "png"), "Holiday.PNG");
}

#[test]
fn suggestion_uses_only_the_file_name() {
    assert_eq!(compute_suggested_name("/photos/2020/clip.mov", "mp4"), "clip.mp4");
    assert_eq!(compute_suggested_name("/photos/2020/IMG_1", "jpg"), "IMG_1.jpg");
}

#[test]
fn dotfiles_have_no_extension() {
    assert_eq!(compute_suggested_name(".hidden", "jpg"), ".hidden.jpg");
}

#[test]
fn suggestion_with_given_lowercased_extensions() {
    assert_eq!(suggest_name(PathStyle::Unix, "clip.MOV", "mp4", Some("mov"), None), "clip.mp4");
    assert_eq!(suggest_name(PathStyle::Unix, "a.b.MOV", "jpg", Some("mov"), Some("jpeg")), "a.b");
    assert_eq!(suggest_name(PathStyle::Unix, "a.b.MOV", "jpg", Some("zzz"), Some("jpeg")), "a.b.MOV.jpg");
    assert_eq!(suggest_name(PathStyle::Unix, "x", "jpg", None, None), "x.jpg");
}

#[test]
fn resolved_targets_in_one_batch_are_distinct() {
    let mut claimed = StringHashSet::new();
    let a = resolve_conflict("/dir", "photo.jpg", &mut claimed, |_: &str| false).unwrap();
    let b = resolve_conflict("/dir", "photo.jpg", &mut claimed, |_: &str| false).unwrap();
    let c = resolve_conflict("/dir", "photo.jpg", &mut claimed, |_: &str| false).unwrap();
    assert_eq!(a, "/dir/photo.jpg");
    assert_eq!(b, "/dir/photo (1).jpg");
    assert_eq!(c, "/dir/photo (2).jpg");
    assert!(claimed.contains("/dir/photo (2).jpg"));
}

#[test]
fn resolve_conflict_counts_past_nine() {
    let mut claimed = StringHashSet::new();
    let result = resolve_conflict("/dir", "a.b.c", &mut claimed, |p: &str| !p.ends_with("(12).c"));
    assert_eq!(result.as_deref(), Some("/dir/a.b (12).c"));
}

#[test]
fn decimal_writes_numbers() {
    assert_eq!(decimal_string(0), "0");
    assert_eq!(decimal_string(7), "7");
    assert_eq!(decimal_string(10), "10");
    assert_eq!(decimal_string(1203), "1203");
    assert_eq!(decimal_string(usize::MAX), usize::MAX.to_string());
}

#[test]
fn suggestions_carry_the_canonical_extension() {
    for (path, canonical) in [("a.mov", "mp4"), ("b", "jpg"), ("c.dup3", "png"), ("d.jpg.mov", "mp4"), ("..x", "gif")] {
        let name = compute_suggested_name(path, canonical);
        assert_eq!(Path::new(&name).extension().and_then(|e| e.to_str()), Some(canonical), "{path}");
    }
}

#[test]
fn windows_names_ignore_dots_in_folder_names() {
    assert_eq!(compute_suggested_name_in(PathStyle::Windows, "C:\\my.photos\\IMG_1", "jpg"), "IMG_1.jpg");
    assert_eq!(compute_suggested_name_in(PathStyle::Windows, "D:\\clips\\clip.MOV", "mp4"), "clip.mp4");
    assert_eq!(compute_suggested_name_in(PathStyle::Unix, "/my.photos/IMG_1", "jpg"), "IMG_1.jpg");
}

#[test]
fn windows_conflicts_are_numbered_with_backslashes() {
    let mut claimed = StringHashSet::new();
    let first = resolve_conflict_in(PathStyle::Windows, "C:\\dir", "photo.jpg", &mut claimed, |_: &str| false);
    assert_eq!(first.as_deref(), Some("C:\\dir\\photo.jpg"));
    let second = resolve_conflict_in(PathStyle::Windows, "C:\\dir", "photo.jpg", &mut claimed, |_: &str| false);
    assert_eq!(second.as_deref(), Some("C:\\dir\\photo (1).jpg"));
}

#[test]
fn claimed_paths_compare_by_their_components() {
    let mut claimed = StringHashSet::new();
    let first = resolve_conflict_in(PathStyle::Unix, "/dir/", "photo.jpg", &mut claimed, |_: &str| false);
    assert_eq!(first.as_deref(), Some("/dir/photo.jpg"));
    let second = resolve_conflict_in(PathStyle::Unix, "/dir//./", "photo.jpg", &mut claimed, |_: &str| false);
    assert_eq!(second.as_deref(), Some("/dir//./photo (1).jpg"));
    assert!(claimed.contains("/dir/photo (1).jpg"));

    let mut claimed = StringHashSet::new();
    let first = resolve_conflict_in(PathStyle::Windows, "c:\\dir", "photo.jpg", &mut claimed, |_: &str| false);
    assert_eq!(first.as_deref(), Some("c:\\dir\\photo.jpg"));
    let second = resolve_conflict_in(PathStyle::Windows, "C:/dir", "photo.jpg", &mut claimed, |_: &str| false);
    assert_eq!(second.as_deref(), Some("C:/dir\\photo (1).jpg"));
}

#[test]
fn resolved_paths_lie_in_the_folder() {
    for (style, folder) in [(PathStyle::Unix, "/dir"), (PathStyle::Windows, "C:\\my.photos")] {
        let mut claimed = StringHashSet::new();
        let taken = |p: &str| !p.contains("(2)");
        let r = resolve_conflict_in(style, folder, "photo.jpg", &mut claimed, taken).unwrap();
        assert_eq!(parent_of(style, &r).as_deref(), Some(folder));
        assert_eq!(file_name_of(style, &r).as_deref(), Some("photo (2).jpg"));
    }
}
