use std::cell::RefCell;

use extension_fixer::apply::{rename_one, summarize, ApplySummary, RenameOutcome, RenameRequest};
use extension_fixer::paths::PathStyle;
use extension_fixer::StringHashSet;

fn request(path: &str, ext: &str) -> RenameRequest {
    RenameRequest { path: path.to_string(), new_extension: ext.to_string() }
}

fn rename_ok(moves: &RefCell<Vec<(String, String)>>) -> impl Fn(&str, &str) -> Result<(), String> + '_ {
    move |from: &str, to: &str| {
        moves.borrow_mut().push((from.to_string(), to.to_string()));
        Ok(())
    }
}

#[test]
fn renames_to_the_suggested_name() {
    let moves = RefCell::new(Vec::new());
    let mut claimed = StringHashSet::new();
    let outcome = rename_one(PathStyle::Unix, &request("/dir/clip.mov", "mp4"), &mut claimed, |_: &str| false, rename_ok(&moves));
    assert_eq!(
        outcome,
        RenameOutcome { path: "/dir/clip.mov".to_string(), new_path: Some("/dir/clip.mp4".to_string()), error: None }
    );
    assert_eq!(*moves.borrow(), vec![("/dir/clip.mov".to_string(), "/dir/clip.mp4".to_string())]);
    assert!(claimed.contains("/dir/clip.mp4"));
}

#[test]
fn redundant_extensions_collapse_on_rename() {
    let mut claimed = StringHashSet::new();
    let moves = RefCell::new(Vec::new());
    let a = rename_one(PathStyle::Unix, &request("/d/vacation.png.mp4", "png"), &mut claimed, |_: &str| false, rename_ok(&moves));
    assert_eq!(a.new_path.as_deref(), Some("/d/vacation.png"));
    let b = rename_one(PathStyle::Unix, &request("/d/somefile.jpg.dup3", "jpg"), &mut claimed, |_: &str| false, rename_ok(&moves));
    assert_eq!(b.new_path.as_deref(), Some("/d/somefile.jpg.dup3.jpg"));
}

#[test]
fn a_taken_name_gets_a_number() {
    let moves = RefCell::new(Vec::new());
    let mut claimed = StringHashSet::new();
    let outcome = rename_one(
        PathStyle::Unix,
        &request("/dir/clip.mov", "mp4"),
        &mut claimed,
        |p: &str| p == "/dir/clip.mp4",
        rename_ok(&moves),
    );
    assert_eq!(outcome.new_path.as_deref(), Some("/dir/clip (1).mp4"));
    assert_eq!(outcome.error, None);
    assert_eq!(*moves.borrow(), vec![("/dir/clip.mov".to_string(), "/dir/clip (1).mp4".to_string())]);
}

#[test]
fn names_claimed_earlier_in_the_batch_are_not_reused() {
    let moves = RefCell::new(Vec::new());
    let mut claimed = StringHashSet::new();
    let a = rename_one(PathStyle::Unix, &request("/dir/clip.mov", "mp4"), &mut claimed, |_: &str| false, rename_ok(&moves));
    let b = rename_one(PathStyle::Unix, &request("/dir/clip.avi", "mp4"), &mut claimed, |_: &str| false, rename_ok(&moves));
    assert_eq!(a.new_path.as_deref(), Some("/dir/clip.mp4"));
    assert_eq!(b.new_path.as_deref(), Some("/dir/clip (1).mp4"));
}

#[test]
fn rename_one_reports_the_rename_error() {
    let mut claimed = StringHashSet::new();
    let outcome = rename_one(PathStyle::Unix, &request("/dir/clip.mov", "mp4"), &mut claimed, |_: &str| false, |_: &str, _: &str| {
        Err("permission denied".to_string())
    });
    assert_eq!(outcome.new_path, None);
    assert_eq!(outcome.error.as_deref(), Some("permission denied"));
}

#[test]
fn summary_counts_each_outcome_once() {
    let ok = RenameOutcome { path: "a".into(), new_path: Some("b".into()), error: None };
    let bad = RenameOutcome { path: "c".into(), new_path: None, error: Some("no".into()) };
    let all = vec![ok.clone(), bad.clone(), ok.clone(), ok, bad];
    assert_eq!(summarize(&all), ApplySummary { renamed: 3, failed: 2 });
    assert_eq!(summarize(&Vec::new()), ApplySummary { renamed: 0, failed: 0 });
}

#[test]
fn windows_renames_stay_in_the_folder() {
    let moves = RefCell::new(Vec::new());
    let mut claimed = StringHashSet::new();
    let outcome = rename_one(
        PathStyle::Windows,
        &request("C:\\my.photos\\IMG_1", "jpg"),
        &mut claimed,
        |p: &str| p == "C:\\my.photos\\IMG_1.jpg",
        rename_ok(&moves),
    );
    assert_eq!(outcome.new_path.as_deref(), Some("C:\\my.photos\\IMG_1 (1).jpg"));
    assert_eq!(*moves.borrow(), vec![("C:\\my.photos\\IMG_1".to_string(), "C:\\my.photos\\IMG_1 (1).jpg".to_string())]);
}
