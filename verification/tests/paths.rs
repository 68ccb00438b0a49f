use std::path::Path;

use extension_fixer::paths::{
    file_name_of, join, parent_of, path_key_of, stem_and_extension_of, strip_prefix, to_forward_slashes,
    PathStyle,
};

const SAMPLES: &[&str] = &[
    "", "/", "//", ".", "./", "..", "../", "a", "a.b", "a.b.c", ".a", ".a.b", "a.", "a..", "...",
    "..x", "/a", "/a/", "/a/.", "/a/..", "a/b", "a//b", "a/./b", "./a", "./a/b.c", "/dir/photo.jpg",
    "/dir/sub/", "dir/sub/./", "/x/y.tar.gz", "/x/.y", "no ext", "weird/na.me.", "é/ü.ñ", "a/b.txt/", "a/b.é//", "a/b.éé/", "dir/..x", "x/..", "a/.b.c/.", "/a/b/./c.d/./", "a\\b.c",
];

#[test]
fn file_names_agree_with_std() {
    for s in SAMPLES {
        assert_eq!(file_name_of(PathStyle::Unix, s), Path::new(s).file_name().map(|x| x.to_str().unwrap().to_string()), "file name of {s:?}");
    }
}

#[test]
fn stems_and_extensions_agree_with_std() {
    for s in SAMPLES {
        let (stem, ext) = stem_and_extension_of(PathStyle::Unix, s);
        assert_eq!(stem, Path::new(s).file_stem().map(|x| x.to_str().unwrap().to_string()), "stem of {s:?}");
        assert_eq!(ext, Path::new(s).extension().map(|x| x.to_str().unwrap().to_string()), "extension of {s:?}");
    }
}

#[test]
fn parents_agree_with_std() {
    for s in SAMPLES {
        let expected = Path::new(s).parent().map(|p| p.to_str().unwrap().to_string());
        assert_eq!(parent_of(PathStyle::Unix, s), expected, "parent of {s:?}");
    }
}

#[test]
fn joins_agree_with_std() {
    for base in SAMPLES {
        for name in ["x", "x.y", "/abs", "", "a/b"] {
            let expected = Path::new(base).join(name).to_str().unwrap().to_string();
            assert_eq!(join(PathStyle::Unix, base, name), expected, "{base:?} joined with {name:?}");
        }
    }
}

#[test]
fn strip_prefix_agrees_with_std() {
    for s in SAMPLES {
        for base in SAMPLES {
            let expected = Path::new(s).strip_prefix(base).ok().map(|p| p.to_str().unwrap().to_string());
            assert_eq!(strip_prefix(PathStyle::Unix, s, base), expected, "{s:?} relative to {base:?}");
        }
    }
}

#[test]
fn forward_slashes_replace_backslashes() {
    assert_eq!(to_forward_slashes("a\\b\\c.jpg"), "a/b/c.jpg");
    assert_eq!(to_forward_slashes("plain/path"), "plain/path");
    assert_eq!(to_forward_slashes(""), "");
}

#[test]
fn native_style_follows_the_platform_separator() {
    assert_eq!(PathStyle::native() == PathStyle::Windows, std::path::MAIN_SEPARATOR == '\\');
}

#[test]
fn windows_paths_split_on_both_slashes_after_the_drive() {
    let w = PathStyle::Windows;
    assert_eq!(file_name_of(w, "C:\\my.photos\\IMG_1").as_deref(), Some("IMG_1"));
    assert_eq!(stem_and_extension_of(w, "C:\\my.photos\\IMG_1"), (Some("IMG_1".to_string()), None));
    assert_eq!(stem_and_extension_of(w, "C:/a\\b.tar.gz"), (Some("b.tar".to_string()), Some("gz".to_string())));
    assert_eq!(file_name_of(w, "dir\\a.b\\").as_deref(), Some("a.b"));
    assert_eq!(file_name_of(w, "C:"), None);
    assert_eq!(file_name_of(w, "C:\\"), None);
    assert_eq!(file_name_of(w, "C:x.jpg").as_deref(), Some("x.jpg"));
    assert_eq!(file_name_of(PathStyle::Unix, "a\\b.c").as_deref(), Some("a\\b.c"));
}

#[test]
fn windows_parents_keep_the_drive_and_root() {
    let w = PathStyle::Windows;
    assert_eq!(parent_of(w, "C:\\my.photos\\IMG_1").as_deref(), Some("C:\\my.photos"));
    assert_eq!(parent_of(w, "C:\\a.jpg").as_deref(), Some("C:\\"));
    assert_eq!(parent_of(w, "C:a.jpg").as_deref(), Some("C:"));
    assert_eq!(parent_of(w, "C:\\"), None);
    assert_eq!(parent_of(w, "C:"), None);
    assert_eq!(parent_of(w, "a\\b").as_deref(), Some("a"));
}

#[test]
fn windows_joins_use_backslashes_and_respect_drives() {
    let w = PathStyle::Windows;
    assert_eq!(join(w, "C:\\dir", "x.jpg"), "C:\\dir\\x.jpg");
    assert_eq!(join(w, "C:\\dir\\", "x.jpg"), "C:\\dir\\x.jpg");
    assert_eq!(join(w, "C:\\dir/", "x.jpg"), "C:\\dir/x.jpg");
    assert_eq!(join(w, "C:", "x.jpg"), "C:x.jpg");
    assert_eq!(join(w, "C:\\dir", "\\top"), "C:\\top");
    assert_eq!(join(w, "C:\\dir", "D:y"), "D:y");
    assert_eq!(join(w, "", "x"), "x");
}

#[test]
fn windows_relative_paths_match_drives_in_either_case() {
    let w = PathStyle::Windows;
    assert_eq!(strip_prefix(w, "C:\\photos\\trip\\a.mov", "C:\\photos").as_deref(), Some("trip\\a.mov"));
    assert_eq!(strip_prefix(w, "c:\\a\\b", "C:/a").as_deref(), Some("b"));
    assert_eq!(strip_prefix(w, "C:\\a\\b", "D:\\a"), None);
    assert_eq!(strip_prefix(w, "C:\\a\\b", "C:a"), None);
    assert_eq!(strip_prefix(w, "C:\\a", "C:\\a").as_deref(), Some(""));
}

#[test]
fn path_keys_agree_with_std_equality() {
    for a in SAMPLES {
        for b in SAMPLES {
            let same_key = path_key_of(PathStyle::Unix, a) == path_key_of(PathStyle::Unix, b);
            assert_eq!(same_key, Path::new(a) == Path::new(b), "{a:?} against {b:?}");
        }
    }
}

#[test]
fn path_keys_drop_redundant_writing() {
    assert_eq!(path_key_of(PathStyle::Unix, "/a//b/./c/"), "/a/b/c");
    assert_eq!(path_key_of(PathStyle::Unix, "./a"), "./a");
    assert_eq!(path_key_of(PathStyle::Unix, ""), "");
    assert_eq!(path_key_of(PathStyle::Windows, "c:/x\\y"), "C:\\x\\y");
    assert_eq!(path_key_of(PathStyle::Windows, "C:x"), "C:x");
    assert_eq!(path_key_of(PathStyle::Windows, "1:x"), "1:x");
}
