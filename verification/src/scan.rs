//! What a scan reports about one file, and how often it reports progress.

use vstd::prelude::*;
use crate::detect::{detect_from_bytes, detect_spec, list_contains, lookup_spec, FormatMatch, FormatSpec};
use crate::naming::{answered, compute_suggested_name_in, or_empty, suggested_name_spec};
use crate::paths::{
    extension_spec, forward_slashes, join, join_spec, parent_of, parent_spec, stem_and_extension_of,
    strip_prefix, strip_prefix_spec, to_forward_slashes, PathStyle,
};
use crate::text::{lower_text, to_lowercase};

verus! {

/// A file whose content does not match its extension.
#[derive(Clone, Debug, PartialEq, Eq)]
pub struct Mismatch {
    /// Absolute path, used as the identifier for later apply calls.
    pub path: String,
    /// Path relative to the scanned folder, for display.
    pub relative_path: String,
    pub current_extension: String,
    pub detected_extension: String,
    /// The filename this file would be renamed to. Provisional: computed
    /// against the disk state at scan time, not against the rest of the
    /// batch.
    pub suggested_name: String,
    /// Whether `suggested_name` currently collides with an existing file.
    pub has_conflict: bool,
}

/// The result of a whole scan.
#[derive(Clone, Copy, Debug, PartialEq, Eq)]
pub struct ScanSummary {
    pub total_scanned: usize,
    pub mismatches_found: usize,
    pub cancelled: bool,
}

/// How many files a scan has looked at so far.
#[derive(Clone, Copy, Debug, PartialEq, Eq)]
pub struct ScanProgress {
    pub scanned: usize,
}

/// How many mismatches to buffer before a batch of them is emitted.
pub const BATCH_SIZE: usize = 50;

/// How many files pass between two progress reports of a scan of
/// `candidates` files: about two hundred reports in all, and at least one
/// file between two.
pub fn progress_interval(candidates: usize) -> (r: usize)
    ensures
        r == (if candidates / 200 > 1 { candidates / 200 } else { 1 }),
{
    let every: usize = candidates / 200;
    if every > 1 {
        every
    } else {
        1
    }
}

/// `p` relative to `root` when `root` leads it, else `p` itself.
pub open spec fn relative_to(s: PathStyle, p: Seq<char>, root: Seq<char>) -> Seq<char> {
    match strip_prefix_spec(s, p, root) {
        Some(rel) => rel,
        None => p,
    }
}

/// Whether the report of a file found at `p` (under the scanned folder
/// `root`), detected as `format` while its lowercased extension is
/// `current`, is `m`, paths being read by the rules `s`; `on_disk` tells
/// whether the suggested name is taken.
pub open spec fn reports_mismatch<F: Fn(&str) -> bool>(
    s: PathStyle,
    m: Mismatch,
    p: Seq<char>,
    root: Seq<char>,
    format: FormatSpec,
    current: Seq<char>,
    on_disk: F,
) -> bool {
    &&& m.path@ == p
    &&& m.relative_path@ == forward_slashes(relative_to(s, p, root))
    &&& m.current_extension@ == current
    &&& m.detected_extension@ == format.0
    &&& m.suggested_name@ == suggested_name_spec(s, p, format.0)
    &&& match parent_spec(s, p) {
        Some(parent) => answered(on_disk, join_spec(s, parent, m.suggested_name@), m.has_conflict),
        None => !m.has_conflict,
    }
}

/// The report for the file at `entry_path`, detected as `format`, whose
/// lowercased extension is `current_extension`: nothing when the format
/// accepts that extension, else the mismatch. Paths are read by the rules
/// `style`.
pub fn mismatch_for(
    style: PathStyle,
    entry_path: &str,
    root: &str,
    format: FormatMatch,
    current_extension: &str,
    on_disk: impl Fn(&str) -> bool,
) -> (r: Option<Mismatch>)
    requires
        forall|s: &str| call_requires(on_disk, (s,)),
    ensures
        match r {
            None => format@.1.contains(current_extension@),
            Some(m) => !format@.1.contains(current_extension@) && reports_mismatch(
                style,
                m,
                entry_path@,
                root@,
                format@,
                current_extension@,
                on_disk,
            ),
        },
{
    if list_contains(format.accepted, current_extension) {
        return None;
    }
    let relative = match strip_prefix(style, entry_path, root) {
        Some(rel) => rel,
        None => String::from_str(entry_path),
    };
    let relative_path = to_forward_slashes(relative.as_str());
    let suggested_name = compute_suggested_name_in(style, entry_path, format.canonical);
    let has_conflict = match parent_of(style, entry_path) {
        Some(parent) => {
            let target = join(style, parent.as_str(), suggested_name.as_str());
            on_disk(target.as_str())
        },
        None => false,
    };
    let m = Mismatch {
        path: String::from_str(entry_path),
        relative_path,
        current_extension: String::from_str(current_extension),
        detected_extension: String::from_str(format.canonical),
        suggested_name,
        has_conflict,
    };
    Some(m)
}

/// What a scan reports for the file at `entry_path` whose leading bytes
/// are `header`: nothing when the bytes reveal no supported format or the
/// file's extension is already accepted for the format revealed, else the
/// mismatch. Paths are read by the rules `style`.
pub fn to_mismatch(
    style: PathStyle,
    entry_path: &str,
    root: &str,
    header: &[u8],
    on_disk: impl Fn(&str) -> bool,
) -> (r: Option<Mismatch>)
    requires
        forall|s: &str| call_requires(on_disk, (s,)),
    ensures
        match detect_spec(header@) {
            None => r is None,
            Some(c) => lookup_spec(c) matches Some(format) && ({
                let current = lower_text(or_empty(extension_spec(style, entry_path@)));
                match r {
                    None => format.1.contains(current),
                    Some(m) => !format.1.contains(current) && reports_mismatch(
                        style,
                        m,
                        entry_path@,
                        root@,
                        format,
                        current,
                        on_disk,
                    ),
                }
            }),
        },
{
    let format = match detect_from_bytes(header) {
        Some(f) => f,
        None => return None,
    };
    let (_, ext) = stem_and_extension_of(style, entry_path);
    let ext = match ext {
        Some(e) => e,
        None => String::new(),
    };
    let current = to_lowercase(ext.as_str());
    mismatch_for(style, entry_path, root, format, current.as_str(), on_disk)
}

} // verus!
