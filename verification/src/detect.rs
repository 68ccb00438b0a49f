//! Magic-byte detection of media formats, and the table of formats (with
//! the extensions each one accepts) that the rest of the library reads.

use vstd::prelude::*;
use crate::text::same_text;

verus! {

/// A recognized format: `canonical` is the extension suggested on rename,
/// `accepted` is every extension that should NOT be flagged as a mismatch
/// (e.g. a jpg-detected file named `.jpeg` is already fine).
#[derive(Clone, Copy, PartialEq, Eq, Debug)]
pub struct FormatMatch {
    pub canonical: &'static str,
    pub accepted: &'static [&'static str],
}

/// A format as plain text: its canonical extension and its accepted ones.
pub type FormatSpec = (Seq<char>, Seq<Seq<char>>);

impl View for FormatMatch {
    type V = FormatSpec;

    open spec fn view(&self) -> FormatSpec {
        (self.canonical@, self.accepted@.map_values(|e: &str| e@))
    }
}

/// How many formats the table holds.
pub const FORMAT_COUNT: usize = 18;

/// Every format this tool understands, in the order in which lookups
/// search them. Both magic-byte detection and "is this extension one we
/// recognize at all" read from this table.
pub open spec fn format_table() -> Seq<FormatSpec> {
    seq![
        ("jpg"@, seq!["jpg"@, "jpeg"@]),
        ("png"@, seq!["png"@]),
        ("gif"@, seq!["gif"@]),
        ("webp"@, seq!["webp"@]),
        ("bmp"@, seq!["bmp"@]),
        ("tiff"@, seq!["tiff"@, "tif"@]),
        ("heic"@, seq!["heic"@, "heif"@]),
        ("avif"@, seq!["avif"@]),
        ("mp4"@, seq!["mp4"@, "m4v"@]),
        ("mov"@, seq!["mov"@, "qt"@]),
        ("webm"@, seq!["webm"@, "mkv"@]),
        ("avi"@, seq!["avi"@]),
        ("3gp"@, seq!["3gp"@, "3g2"@]),
        ("m4a"@, seq!["m4a"@, "m4b"@]),
        ("wav"@, seq!["wav"@]),
        ("flac"@, seq!["flac"@]),
        ("ogg"@, seq!["ogg"@, "oga"@, "opus"@]),
        ("mp3"@, seq!["mp3"@]),
    ]
}

/// The first format of the table, from position `i` on, whose canonical
/// extension is `canonical`.
pub open spec fn lookup_from(canonical: Seq<char>, i: nat) -> Option<FormatSpec>
    decreases format_table().len() - i,
{
    if i >= format_table().len() {
        None
    } else if format_table()[i as int].0 == canonical {
        Some(format_table()[i as int])
    } else {
        lookup_from(canonical, i + 1)
    }
}

/// The format whose canonical extension is `canonical`, if any.
pub open spec fn lookup_spec(canonical: Seq<char>) -> Option<FormatSpec> {
    lookup_from(canonical, 0)
}

/// Whether `ext` is an accepted extension of some format of the table.
pub open spec fn is_known_extension_spec(ext: Seq<char>) -> bool {
    exists|i: int, j: int|
        0 <= i < format_table().len() && 0 <= j < format_table()[i].1.len()
            && #[trigger] format_table()[i].1[j] == ext
}

/// The entry of the table at position `i`.
fn format_at(i: usize) -> (f: FormatMatch)
    requires
        i < FORMAT_COUNT,
    ensures
        f@ == format_table()[i as int],
{
    let f = match i {
        0 => FormatMatch { canonical: "jpg", accepted: &["jpg", "jpeg"] },
        1 => FormatMatch { canonical: "png", accepted: &["png"] },
        2 => FormatMatch { canonical: "gif", accepted: &["gif"] },
        3 => FormatMatch { canonical: "webp", accepted: &["webp"] },
        4 => FormatMatch { canonical: "bmp", accepted: &["bmp"] },
        5 => FormatMatch { canonical: "tiff", accepted: &["tiff", "tif"] },
        6 => FormatMatch { canonical: "heic", accepted: &["heic", "heif"] },
        7 => FormatMatch { canonical: "avif", accepted: &["avif"] },
        8 => FormatMatch { canonical: "mp4", accepted: &["mp4", "m4v"] },
        9 => FormatMatch { canonical: "mov", accepted: &["mov", "qt"] },
        10 => FormatMatch { canonical: "webm", accepted: &["webm", "mkv"] },
        11 => FormatMatch { canonical: "avi", accepted: &["avi"] },
        12 => FormatMatch { canonical: "3gp", accepted: &["3gp", "3g2"] },
        13 => FormatMatch { canonical: "m4a", accepted: &["m4a", "m4b"] },
        14 => FormatMatch { canonical: "wav", accepted: &["wav"] },
        15 => FormatMatch { canonical: "flac", accepted: &["flac"] },
        16 => FormatMatch { canonical: "ogg", accepted: &["ogg", "oga", "opus"] },
        _ => FormatMatch { canonical: "mp3", accepted: &["mp3"] },
    };
    assert(f@ =~= format_table()[i as int]);
    f
}

/// The format whose canonical extension is `canonical`.
pub fn lookup(canonical: &str) -> (r: Option<FormatMatch>)
    ensures
        match r {
            Some(f) => lookup_spec(canonical@) == Some(f@),
            None => lookup_spec(canonical@) is None,
        },
{
    let mut i: usize = 0;
    while i < FORMAT_COUNT
        invariant
            i <= FORMAT_COUNT,
            lookup_from(canonical@, i as nat) == lookup_spec(canonical@),
        decreases FORMAT_COUNT - i,
    {
        let f = format_at(i);
        if same_text(f.canonical, canonical) {
            return Some(f);
        }
        i = i + 1;
    }
    None
}

/// Whether `list` holds `ext`.
pub fn list_contains(list: &[&str], ext: &str) -> (r: bool)
    ensures
        r == list@.map_values(|e: &str| e@).contains(ext@),
{
    let ghost view = list@.map_values(|e: &str| e@);
    let mut j: usize = 0;
    while j < list.len()
        invariant
            j <= list@.len(),
            view == list@.map_values(|e: &str| e@),
            forall|k: int| 0 <= k < j ==> view[k] != ext@,
        decreases list@.len() - j,
    {
        if same_text(list[j], ext) {
            assert(view[j as int] == ext@);
            return true;
        }
        j = j + 1;
    }
    false
}

/// True if `ext` (already lowercased) is an extension belonging to any
/// format we recognize, regardless of which one.
pub fn is_known_extension(ext: &str) -> (r: bool)
    ensures
        r == is_known_extension_spec(ext@),
{
    let mut i: usize = 0;
    while i < FORMAT_COUNT
        invariant
            i <= FORMAT_COUNT,
            forall|a: int, b: int|
                0 <= a < i && 0 <= b < format_table()[a].1.len()
                    ==> #[trigger] format_table()[a].1[b] != ext@,
        decreases FORMAT_COUNT - i,
    {
        let f = format_at(i);
        if list_contains(f.accepted, ext) {
            let ghost b = choose|b: int| 0 <= b < format_table()[i as int].1.len()
                && format_table()[i as int].1[b] == ext@;
            assert(format_table()[i as int].1[b] == ext@);
            return true;
        }
        i = i + 1;
    }
    false
}

/// The accepted-extensions list for a given canonical format name.
pub fn accepted_for(canonical: &str) -> (r: Option<&'static [&'static str]>)
    ensures
        match r {
            Some(a) => lookup_spec(canonical@) matches Some(f) && a@.map_values(|e: &str| e@) == f.1,
            None => lookup_spec(canonical@) is None,
        },
{
    match lookup(canonical) {
        Some(f) => Some(f.accepted),
        None => None,
    }
}

/// Whether the bytes of `h` starting at `off` spell `pat`.
pub open spec fn bytes_at(h: Seq<u8>, off: int, pat: Seq<u8>) -> bool {
    0 <= off && off + pat.len() <= h.len() && h.subrange(off, off + pat.len()) == pat
}

/// The format that a RIFF container holds, by its form type (bytes 8..12).
pub open spec fn riff_form_spec(h: Seq<u8>) -> Option<Seq<char>> {
    if bytes_at(h, 8, seq![0x57u8, 0x45, 0x42, 0x50]) {
        Some("webp"@)
    } else if bytes_at(h, 8, seq![0x57u8, 0x41, 0x56, 0x45]) {
        Some("wav"@)
    } else if bytes_at(h, 8, seq![0x41u8, 0x56, 0x49, 0x20]) {
        Some("avi"@)
    } else {
        None
    }
}

/// Whether the major brand of an ISO media file (bytes 8..12) is one of
/// the HEIF/HEVC image brands.
pub open spec fn is_heic_brand(h: Seq<u8>) -> bool {
    ||| bytes_at(h, 8, seq![0x68u8, 0x65, 0x69, 0x63])
    ||| bytes_at(h, 8, seq![0x68u8, 0x65, 0x69, 0x78])
    ||| bytes_at(h, 8, seq![0x68u8, 0x65, 0x69, 0x6D])
    ||| bytes_at(h, 8, seq![0x68u8, 0x65, 0x69, 0x73])
    ||| bytes_at(h, 8, seq![0x68u8, 0x65, 0x76, 0x63])
    ||| bytes_at(h, 8, seq![0x68u8, 0x65, 0x76, 0x78])
    ||| bytes_at(h, 8, seq![0x68u8, 0x65, 0x76, 0x6D])
    ||| bytes_at(h, 8, seq![0x68u8, 0x65, 0x76, 0x73])
    ||| bytes_at(h, 8, seq![0x6Du8, 0x69, 0x66, 0x31])
    ||| bytes_at(h, 8, seq![0x6Du8, 0x73, 0x66, 0x31])
}

/// The format of an ISO base media file, by its major brand (bytes 8..12).
/// Brands outside the known list count as mp4.
pub open spec fn ftyp_brand_spec(h: Seq<u8>) -> Seq<char> {
    if bytes_at(h, 8, seq![0x71u8, 0x74, 0x20, 0x20]) {
        "mov"@
    } else if bytes_at(h, 8, seq![0x4Du8, 0x34, 0x41, 0x20])
        || bytes_at(h, 8, seq![0x4Du8, 0x34, 0x42, 0x20]) {
        "m4a"@
    } else if bytes_at(h, 8, seq![0x33u8, 0x67, 0x70, 0x34])
        || bytes_at(h, 8, seq![0x33u8, 0x67, 0x70, 0x35])
        || bytes_at(h, 8, seq![0x33u8, 0x67, 0x70, 0x36])
        || bytes_at(h, 8, seq![0x33u8, 0x67, 0x32, 0x61]) {
        "3gp"@
    } else if bytes_at(h, 8, seq![0x61u8, 0x76, 0x69, 0x66])
        || bytes_at(h, 8, seq![0x61u8, 0x76, 0x69, 0x73]) {
        "avif"@
    } else if is_heic_brand(h) {
        "heic"@
    } else {
        "mp4"@
    }
}

/// Whether the first two bytes open an MPEG audio frame: eleven sync
/// bits, a version that is not the reserved one and a layer that is not
/// the reserved one. A UTF-16LE byte-order mark (0xFF 0xFE) never counts.
pub open spec fn is_mpeg_frame_sync(b0: u8, b1: u8) -> bool {
    &&& b0 == 0xFFu8
    &&& b1 != 0xFEu8
    &&& (b1 & 0xE0u8) == 0xE0u8
    &&& ((b1 >> 3u8) & 0x03u8) != 0x01u8
    &&& ((b1 >> 1u8) & 0x03u8) != 0x00u8
}

/// The canonical extension of the format that the leading bytes `h` of a
/// file reveal, if they reveal one of the supported formats.
pub open spec fn detect_spec(h: Seq<u8>) -> Option<Seq<char>> {
    if bytes_at(h, 0, seq![0xFFu8, 0xD8, 0xFF]) {
        Some("jpg"@)
    } else if bytes_at(h, 0, seq![0x89u8, 0x50, 0x4E, 0x47, 0x0D, 0x0A, 0x1A, 0x0A]) {
        Some("png"@)
    } else if bytes_at(h, 0, seq![0x47u8, 0x49, 0x46, 0x38]) {
        Some("gif"@)
    } else if bytes_at(h, 0, seq![0x49u8, 0x49, 0x2A, 0x00])
        || bytes_at(h, 0, seq![0x4Du8, 0x4D, 0x00, 0x2A]) {
        Some("tiff"@)
    } else if bytes_at(h, 0, seq![0x42u8, 0x4D]) {
        Some("bmp"@)
    } else if bytes_at(h, 0, seq![0x66u8, 0x4C, 0x61, 0x43]) {
        Some("flac"@)
    } else if bytes_at(h, 0, seq![0x4Fu8, 0x67, 0x67, 0x53]) {
        Some("ogg"@)
    } else if h.len() >= 12 && bytes_at(h, 0, seq![0x52u8, 0x49, 0x46, 0x46]) {
        riff_form_spec(h)
    } else if h.len() >= 12 && bytes_at(h, 4, seq![0x66u8, 0x74, 0x79, 0x70]) {
        Some(ftyp_brand_spec(h))
    } else if bytes_at(h, 0, seq![0x1Au8, 0x45, 0xDF, 0xA3]) {
        Some("webm"@)
    } else if bytes_at(h, 0, seq![0x49u8, 0x44, 0x33]) {
        Some("mp3"@)
    } else if h.len() >= 3 && is_mpeg_frame_sync(h[0], h[1]) {
        Some("mp3"@)
    } else {
        None
    }
}

/// Whether the bytes of `h` starting at `off` spell `pat`.
fn bytes_match(h: &[u8], off: usize, pat: &[u8]) -> (r: bool)
    ensures
        r == bytes_at(h@, off as int, pat@),
{
    if off > h.len() || pat.len() > h.len() - off {
        return false;
    }
    let mut i: usize = 0;
    while i < pat.len()
        invariant
            off + pat@.len() <= h@.len(),
            h@.len() == h.len(),
            i <= pat@.len(),
            forall|k: int| 0 <= k < i ==> h@[off + k] == pat@[k],
        decreases pat@.len() - i,
    {
        if h[off + i] != pat[i] {
            assert(h@.subrange(off as int, off + pat@.len())[i as int] != pat@[i as int]);
            return false;
        }
        i = i + 1;
    }
    assert(h@.subrange(off as int, off + pat@.len()) =~= pat@);
    true
}

fn riff_form(h: &[u8]) -> (r: Option<&'static str>)
    ensures
        match r {
            Some(c) => riff_form_spec(h@) == Some(c@),
            None => riff_form_spec(h@) is None,
        },
{
    if bytes_match(h, 8, &[0x57, 0x45, 0x42, 0x50]) {
        Some("webp")
    } else if bytes_match(h, 8, &[0x57, 0x41, 0x56, 0x45]) {
        Some("wav")
    } else if bytes_match(h, 8, &[0x41, 0x56, 0x49, 0x20]) {
        Some("avi")
    } else {
        None
    }
}

fn is_heic(h: &[u8]) -> (r: bool)
    ensures
        r == is_heic_brand(h@),
{
    bytes_match(h, 8, &[0x68, 0x65, 0x69, 0x63])
        || bytes_match(h, 8, &[0x68, 0x65, 0x69, 0x78])
        || bytes_match(h, 8, &[0x68, 0x65, 0x69, 0x6D])
        || bytes_match(h, 8, &[0x68, 0x65, 0x69, 0x73])
        || bytes_match(h, 8, &[0x68, 0x65, 0x76, 0x63])
        || bytes_match(h, 8, &[0x68, 0x65, 0x76, 0x78])
        || bytes_match(h, 8, &[0x68, 0x65, 0x76, 0x6D])
        || bytes_match(h, 8, &[0x68, 0x65, 0x76, 0x73])
        || bytes_match(h, 8, &[0x6D, 0x69, 0x66, 0x31])
        || bytes_match(h, 8, &[0x6D, 0x73, 0x66, 0x31])
}

fn ftyp_brand(h: &[u8]) -> (r: &'static str)
    ensures
        r@ == ftyp_brand_spec(h@),
{
    if bytes_match(h, 8, &[0x71, 0x74, 0x20, 0x20]) {
        "mov"
    } else if bytes_match(h, 8, &[0x4D, 0x34, 0x41, 0x20])
        || bytes_match(h, 8, &[0x4D, 0x34, 0x42, 0x20]) {
        "m4a"
    } else if bytes_match(h, 8, &[0x33, 0x67, 0x70, 0x34])
        || bytes_match(h, 8, &[0x33, 0x67, 0x70, 0x35])
        || bytes_match(h, 8, &[0x33, 0x67, 0x70, 0x36])
        || bytes_match(h, 8, &[0x33, 0x67, 0x32, 0x61]) {
        "3gp"
    } else if bytes_match(h, 8, &[0x61, 0x76, 0x69, 0x66])
        || bytes_match(h, 8, &[0x61, 0x76, 0x69, 0x73]) {
        "avif"
    } else if is_heic(h) {
        "heic"
    } else {
        "mp4"
    }
}

/// The canonical extension of the format that the leading bytes of a file
/// reveal, from its magic-byte signature; `None` for anything else.
pub fn detect_canonical(header: &[u8]) -> (r: Option<&'static str>)
    ensures
        match r {
            Some(c) => detect_spec(header@) == Some(c@),
            None => detect_spec(header@) is None,
        },
{
    if bytes_match(header, 0, &[0xFF, 0xD8, 0xFF]) {
        return Some("jpg");
    }
    if bytes_match(header, 0, &[0x89, 0x50, 0x4E, 0x47, 0x0D, 0x0A, 0x1A, 0x0A]) {
        return Some("png");
    }
    if bytes_match(header, 0, &[0x47, 0x49, 0x46, 0x38]) {
        return Some("gif");
    }
    if bytes_match(header, 0, &[0x49, 0x49, 0x2A, 0x00])
        || bytes_match(header, 0, &[0x4D, 0x4D, 0x00, 0x2A]) {
        return Some("tiff");
    }
    if bytes_match(header, 0, &[0x42, 0x4D]) {
        return Some("bmp");
    }
    if bytes_match(header, 0, &[0x66, 0x4C, 0x61, 0x43]) {
        return Some("flac");
    }
    if bytes_match(header, 0, &[0x4F, 0x67, 0x67, 0x53]) {
        return Some("ogg");
    }
    // RIFF containers: bytes 0..4 "RIFF", size, then a 4-byte form type
    // at 8..12 that tells us what's actually inside.
    if header.len() >= 12 && bytes_match(header, 0, &[0x52, 0x49, 0x46, 0x46]) {
        return riff_form(header);
    }
    // ISO Base Media File Format containers: bytes 4..8 spell "ftyp" and
    // bytes 8..12 hold the major brand.
    if header.len() >= 12 && bytes_match(header, 4, &[0x66, 0x74, 0x79, 0x70]) {
        return Some(ftyp_brand(header));
    }
    // WebM and Matroska share the EBML signature.
    if bytes_match(header, 0, &[0x1A, 0x45, 0xDF, 0xA3]) {
        return Some("webm");
    }
    if bytes_match(header, 0, &[0x49, 0x44, 0x33]) {
        return Some("mp3");
    }
    if header.len() >= 3 && header[0] == 0xFF && header[1] != 0xFE && (header[1] & 0xE0) == 0xE0 {
        let version: u8 = (header[1] >> 3) & 0x03;
        let layer: u8 = (header[1] >> 1) & 0x03;
        if version != 0x01 && layer != 0x00 {
            return Some("mp3");
        }
    }
    None
}

/// The canonical extensions of the table are pairwise distinct.
proof fn lemma_canonicals_distinct()
    ensures
        forall|i: int, j: int|
            0 <= i < j < format_table().len() ==> format_table()[i].0 != format_table()[j].0,
{
    reveal_strlit("jpg");
    reveal_strlit("png");
    reveal_strlit("gif");
    reveal_strlit("webp");
    reveal_strlit("bmp");
    reveal_strlit("tiff");
    reveal_strlit("heic");
    reveal_strlit("avif");
    reveal_strlit("mp4");
    reveal_strlit("mov");
    reveal_strlit("webm");
    reveal_strlit("avi");
    reveal_strlit("3gp");
    reveal_strlit("m4a");
    reveal_strlit("wav");
    reveal_strlit("flac");
    reveal_strlit("ogg");
    reveal_strlit("mp3");
    assert forall|i: int, j: int|
        0 <= i < j < format_table().len() implies format_table()[i].0 != format_table()[j].0 by {
        let a = format_table()[i].0;
        let b = format_table()[j].0;
        if a.len() == b.len() {
            assert(a[0] != b[0] || a[1] != b[1] || a[2] != b[2] || (a.len() > 3 && a[3] != b[3]));
        }
    }
}

/// Searching the table from position `k` on for the canonical extension
/// of the entry at `i >= k` finds that entry.
proof fn lemma_lookup_from_finds(i: int, k: nat)
    requires
        0 <= k <= i < format_table().len(),
        forall|a: int, b: int|
            0 <= a < b < format_table().len() ==> format_table()[a].0 != format_table()[b].0,
    ensures
        lookup_from(format_table()[i].0, k) == Some(format_table()[i]),
    decreases i - k,
{
    if k < i {
        lemma_lookup_from_finds(i, k + 1);
    }
}

/// Looking up the canonical extension of any entry of the table finds
/// that entry.
pub proof fn law_lookup_finds_every_format(i: int)
    requires
        0 <= i < format_table().len(),
    ensures
        lookup_spec(format_table()[i].0) == Some(format_table()[i]),
{
    lemma_canonicals_distinct();
    lemma_lookup_from_finds(i, 0);
}

/// Every canonical extension that detection reports is the canonical
/// extension of an entry of the table.
proof fn lemma_detected_is_in_table(h: Seq<u8>)
    requires
        detect_spec(h) is Some,
    ensures
        exists|i: int| 0 <= i < format_table().len() && format_table()[i].0 == detect_spec(h)->0,
{
    let c = detect_spec(h)->0;
    if c == "jpg"@ { assert(format_table()[0].0 == c); }
    else if c == "png"@ { assert(format_table()[1].0 == c); }
    else if c == "gif"@ { assert(format_table()[2].0 == c); }
    else if c == "webp"@ { assert(format_table()[3].0 == c); }
    else if c == "bmp"@ { assert(format_table()[4].0 == c); }
    else if c == "tiff"@ { assert(format_table()[5].0 == c); }
    else if c == "heic"@ { assert(format_table()[6].0 == c); }
    else if c == "avif"@ { assert(format_table()[7].0 == c); }
    else if c == "mp4"@ { assert(format_table()[8].0 == c); }
    else if c == "mov"@ { assert(format_table()[9].0 == c); }
    else if c == "webm"@ { assert(format_table()[10].0 == c); }
    else if c == "avi"@ { assert(format_table()[11].0 == c); }
    else if c == "3gp"@ { assert(format_table()[12].0 == c); }
    else if c == "m4a"@ { assert(format_table()[13].0 == c); }
    else if c == "wav"@ { assert(format_table()[14].0 == c); }
    else if c == "flac"@ { assert(format_table()[15].0 == c); }
    else if c == "ogg"@ { assert(format_table()[16].0 == c); }
    else { assert(format_table()[17].0 == c); }
}

/// Whatever format detection reports is a format of the table, found by
/// its canonical extension, and that extension is one of the format's own
/// accepted extensions (so a file already named with it is no mismatch).
pub proof fn law_detected_format_is_known(h: Seq<u8>)
    requires
        detect_spec(h) is Some,
    ensures
        lookup_spec(detect_spec(h)->0) matches Some(f)
            && f.0 == detect_spec(h)->0
            && f.1.contains(f.0)
            && is_known_extension_spec(f.0),
{
    lemma_detected_is_in_table(h);
    let i = choose|i: int| 0 <= i < format_table().len() && format_table()[i].0 == detect_spec(h)->0;
    law_lookup_finds_every_format(i);
    let f = format_table()[i];
    assert(f.1[0] == f.0);
    assert(f.1.contains(f.0));
    assert(format_table()[i].1[0] == f.0);
}

/// Reads the leading bytes of a file (already read into `header`) and
/// determines its real format from its magic-byte signature. Only the
/// supported formats are recognized; anything else returns `None`.
pub fn detect_from_bytes(header: &[u8]) -> (r: Option<FormatMatch>)
    ensures
        match r {
            Some(f) => detect_spec(header@) matches Some(c) && lookup_spec(c) == Some(f@),
            None => detect_spec(header@) is None,
        },
{
    match detect_canonical(header) {
        Some(c) => {
            let r = lookup(c);
            proof {
                law_detected_format_is_known(header@);
            }
            r
        },
        None => None,
    }
}

/// A file that opens with a UTF-16LE byte-order mark (0xFF 0xFE) is never
/// taken for an MP3, though it opens with the same lead byte as an MPEG
/// frame sync.
pub proof fn law_utf16_bom_is_not_mp3(h: Seq<u8>)
    requires
        h.len() >= 2,
        h[0] == 0xFFu8,
        h[1] == 0xFEu8,
    ensures
        detect_spec(h) != Some("mp3"@),
{
    reveal_strlit("mp3");
    reveal_strlit("mp4");
    reveal_strlit("mov");
    reveal_strlit("m4a");
    reveal_strlit("3gp");
    reveal_strlit("avif");
    reveal_strlit("heic");
    reveal_strlit("webp");
    reveal_strlit("wav");
    reveal_strlit("avi");
    assert("mp4"@[2] != "mp3"@[2]);
    assert("mov"@[1] != "mp3"@[1]);
    assert("m4a"@[1] != "mp3"@[1]);
    assert("3gp"@[0] != "mp3"@[0]);
    assert("avi"@[0] != "mp3"@[0]);
    assert("wav"@[0] != "mp3"@[0]);
    assert(h.subrange(0, 2)[0] == h[0]);
    if h.len() >= 3 {
        assert(h.subrange(0, 3)[0] == h[0]);
    }
    if h.len() >= 4 {
        assert(h.subrange(0, 4)[0] == h[0]);
    }
    if h.len() >= 8 {
        assert(h.subrange(0, 8)[0] == h[0]);
    }
}

/// Input shorter than two bytes is never recognized.
pub proof fn law_short_input_is_not_recognized(h: Seq<u8>)
    requires
        h.len() < 2,
    ensures
        detect_spec(h) is None,
{
}

proof fn lemma_bytes_at_within_twelve(a: Seq<u8>, b: Seq<u8>, off: int, pat: Seq<u8>)
    requires
        a.len() >= 12,
        b.len() >= 12,
        a.take(12) == b.take(12),
        0 <= off,
        off + pat.len() <= 12,
    ensures
        bytes_at(a, off, pat) == bytes_at(b, off, pat),
{
    assert(a.subrange(off, off + pat.len()) =~= a.take(12).subrange(off, off + pat.len()));
    assert(b.subrange(off, off + pat.len()) =~= b.take(12).subrange(off, off + pat.len()));
}

/// Detection looks at no more than the first twelve bytes: two inputs of
/// at least twelve bytes that agree on those are detected alike.
pub proof fn law_detection_reads_twelve_bytes(a: Seq<u8>, b: Seq<u8>)
    requires
        a.len() >= 12,
        b.len() >= 12,
        a.take(12) == b.take(12),
    ensures
        detect_spec(a) == detect_spec(b),
{
    assert forall|off: int, pat: Seq<u8>| 0 <= off && off + pat.len() <= 12
        implies #[trigger] bytes_at(a, off, pat) == bytes_at(b, off, pat) by {
        lemma_bytes_at_within_twelve(a, b, off, pat);
    }
    assert(a[0] == a.take(12)[0] && a[1] == a.take(12)[1]);
    assert(b[0] == b.take(12)[0] && b[1] == b.take(12)[1]);
}

/// What a lookup from position `i` finds is an entry of the table.
proof fn lemma_lookup_from_in_table(c: Seq<char>, i: nat)
    ensures
        lookup_from(c, i) matches Some(f) ==> f.0 == c && exists|k: int|
            0 <= k < format_table().len() && #[trigger] format_table()[k] == f,
    decreases format_table().len() - i,
{
    if i < format_table().len() {
        if format_table()[i as int].0 != c {
            lemma_lookup_from_in_table(c, i + 1);
        }
    }
}

/// Every extension that `accepted_for` lists for a format is one that
/// `is_known_extension` recognizes: both read the same table.
pub proof fn law_accepted_extensions_are_known(canonical: Seq<char>, ext: Seq<char>)
    requires
        lookup_spec(canonical) matches Some(f) && f.1.contains(ext),
    ensures
        is_known_extension_spec(ext),
{
    lemma_lookup_from_in_table(canonical, 0);
    let f = lookup_spec(canonical)->0;
    let k = choose|k: int| 0 <= k < format_table().len() && #[trigger] format_table()[k] == f;
    let j = choose|j: int| 0 <= j < f.1.len() && f.1[j] == ext;
    assert(format_table()[k].1[j] == ext);
}

/// The accepted extensions of two different formats are different.
proof fn lemma_accepted_lists_disjoint()
    ensures
        forall|i: int, j: int, a: int, b: int|
            0 <= i < format_table().len() && 0 <= j < format_table().len() && i != j
                && 0 <= a < format_table()[i].1.len() && 0 <= b < format_table()[j].1.len()
                ==> #[trigger] format_table()[i].1[a] != #[trigger] format_table()[j].1[b],
{
    reveal_strlit("jpg");
    reveal_strlit("jpeg");
    reveal_strlit("png");
    reveal_strlit("gif");
    reveal_strlit("webp");
    reveal_strlit("bmp");
    reveal_strlit("tiff");
    reveal_strlit("tif");
    reveal_strlit("heic");
    reveal_strlit("heif");
    reveal_strlit("avif");
    reveal_strlit("mp4");
    reveal_strlit("m4v");
    reveal_strlit("mov");
    reveal_strlit("qt");
    reveal_strlit("webm");
    reveal_strlit("mkv");
    reveal_strlit("avi");
    reveal_strlit("3gp");
    reveal_strlit("3g2");
    reveal_strlit("m4a");
    reveal_strlit("m4b");
    reveal_strlit("wav");
    reveal_strlit("flac");
    reveal_strlit("ogg");
    reveal_strlit("oga");
    reveal_strlit("opus");
    reveal_strlit("mp3");
    assert forall|i: int, j: int, a: int, b: int|
        0 <= i < format_table().len() && 0 <= j < format_table().len() && i != j
            && 0 <= a < format_table()[i].1.len() && 0 <= b < format_table()[j].1.len()
        implies #[trigger] format_table()[i].1[a] != #[trigger] format_table()[j].1[b] by {
        let x = format_table()[i].1[a];
        let y = format_table()[j].1[b];
        if x.len() == y.len() {
            assert(x[0] != y[0] || x[1] != y[1] || (x.len() > 2 && x[2] != y[2]) || (x.len() > 3
                && x[3] != y[3]));
        }
    }
}

/// Every known extension belongs to exactly one format: some format of
/// the table accepts it, and no other does.
pub proof fn law_known_extension_has_exactly_one_format(ext: Seq<char>)
    requires
        is_known_extension_spec(ext),
    ensures
        exists|i: int|
            0 <= i < format_table().len() && #[trigger] format_table()[i].1.contains(ext) && forall|j: int|
                0 <= j < format_table().len() && #[trigger] format_table()[j].1.contains(ext) ==> j == i,
{
    lemma_accepted_lists_disjoint();
    let (i, a) = choose|i: int, a: int|
        0 <= i < format_table().len() && 0 <= a < format_table()[i].1.len()
            && #[trigger] format_table()[i].1[a] == ext;
    assert(format_table()[i].1.contains(ext));
    assert forall|j: int|
        0 <= j < format_table().len() && #[trigger] format_table()[j].1.contains(ext) implies j == i by {
        let b = choose|b: int| 0 <= b < format_table()[j].1.len() && format_table()[j].1[b] == ext;
        if j != i {
            assert(format_table()[i].1[a] != format_table()[j].1[b]);
        }
    }
}

/// Two different formats accept no extension in common: an extension
/// that `accepted_for` lists for one format it lists for no other.
pub proof fn law_formats_share_no_extension(c1: Seq<char>, c2: Seq<char>, ext: Seq<char>)
    requires
        c1 != c2,
        lookup_spec(c1) matches Some(fa) && fa.1.contains(ext),
    ensures
        !(lookup_spec(c2) matches Some(fb) && fb.1.contains(ext)),
{
    lemma_accepted_lists_disjoint();
    lemma_lookup_from_in_table(c1, 0);
    lemma_lookup_from_in_table(c2, 0);
    if lookup_spec(c2) matches Some(fb) && fb.1.contains(ext) {
        let fa = lookup_spec(c1)->0;
        let fb = lookup_spec(c2)->0;
        let ka = choose|k: int| 0 <= k < format_table().len() && #[trigger] format_table()[k] == fa;
        let kb = choose|k: int| 0 <= k < format_table().len() && #[trigger] format_table()[k] == fb;
        let a = choose|a: int| 0 <= a < fa.1.len() && fa.1[a] == ext;
        let b = choose|b: int| 0 <= b < fb.1.len() && fb.1[b] == ext;
        assert(ka != kb);
        assert(format_table()[ka].1[a] != format_table()[kb].1[b]);
    }
}

/// Whether `c` is a small ASCII letter or a decimal digit.
pub open spec fn is_small_or_digit(c: char) -> bool {
    ('a' <= c && c <= 'z') || ('0' <= c && c <= '9')
}

/// A canonical extension of the table is not empty, is made of small
/// ASCII letters and digits, and is among the extensions its own format
/// accepts.
pub proof fn lemma_canonical_shape(canonical: Seq<char>)
    requires
        lookup_spec(canonical) is Some,
    ensures
        canonical.len() > 0,
        forall|j: int| 0 <= j < canonical.len() ==> is_small_or_digit(#[trigger] canonical[j]),
        lookup_spec(canonical) matches Some(f) && f.1.contains(canonical),
{
    reveal_strlit("jpg");
    reveal_strlit("png");
    reveal_strlit("gif");
    reveal_strlit("webp");
    reveal_strlit("bmp");
    reveal_strlit("tiff");
    reveal_strlit("heic");
    reveal_strlit("avif");
    reveal_strlit("mp4");
    reveal_strlit("mov");
    reveal_strlit("webm");
    reveal_strlit("avi");
    reveal_strlit("3gp");
    reveal_strlit("m4a");
    reveal_strlit("wav");
    reveal_strlit("flac");
    reveal_strlit("ogg");
    reveal_strlit("mp3");
    lemma_lookup_from_in_table(canonical, 0);
    let f = lookup_spec(canonical)->0;
    let k = choose|k: int| 0 <= k < format_table().len() && #[trigger] format_table()[k] == f;
    assert(format_table()[k].1[0] == format_table()[k].0);
    assert(format_table()[k].0.len() > 0);
    assert forall|j: int| 0 <= j < canonical.len() implies is_small_or_digit(#[trigger] canonical[j]) by {
        assert(canonical[j] == format_table()[k].0[j]);
    }
    assert(f.1[0] == canonical);
}

/// The formats and the extensions each accepts: jpg (jpg, jpeg), png,
/// gif, webp, bmp, tiff (tiff, tif), heic (heic, heif), avif, mp4 (mp4,
/// m4v), mov (mov, qt), webm (webm, mkv), avi, 3gp (3gp, 3g2), m4a (m4a,
/// m4b), wav, flac, ogg (ogg, oga, opus) and mp3.
pub proof fn law_accepted_extensions_of_each_format()
    ensures
        lookup_spec("jpg"@) == Some(("jpg"@, seq!["jpg"@, "jpeg"@])),
        lookup_spec("png"@) == Some(("png"@, seq!["png"@])),
        lookup_spec("gif"@) == Some(("gif"@, seq!["gif"@])),
        lookup_spec("webp"@) == Some(("webp"@, seq!["webp"@])),
        lookup_spec("bmp"@) == Some(("bmp"@, seq!["bmp"@])),
        lookup_spec("tiff"@) == Some(("tiff"@, seq!["tiff"@, "tif"@])),
        lookup_spec("heic"@) == Some(("heic"@, seq!["heic"@, "heif"@])),
        lookup_spec("avif"@) == Some(("avif"@, seq!["avif"@])),
        lookup_spec("mp4"@) == Some(("mp4"@, seq!["mp4"@, "m4v"@])),
        lookup_spec("mov"@) == Some(("mov"@, seq!["mov"@, "qt"@])),
        lookup_spec("webm"@) == Some(("webm"@, seq!["webm"@, "mkv"@])),
        lookup_spec("avi"@) == Some(("avi"@, seq!["avi"@])),
        lookup_spec("3gp"@) == Some(("3gp"@, seq!["3gp"@, "3g2"@])),
        lookup_spec("m4a"@) == Some(("m4a"@, seq!["m4a"@, "m4b"@])),
        lookup_spec("wav"@) == Some(("wav"@, seq!["wav"@])),
        lookup_spec("flac"@) == Some(("flac"@, seq!["flac"@])),
        lookup_spec("ogg"@) == Some(("ogg"@, seq!["ogg"@, "oga"@, "opus"@])),
        lookup_spec("mp3"@) == Some(("mp3"@, seq!["mp3"@])),
{
    law_lookup_finds_every_format(0);
    law_lookup_finds_every_format(1);
    law_lookup_finds_every_format(2);
    law_lookup_finds_every_format(3);
    law_lookup_finds_every_format(4);
    law_lookup_finds_every_format(5);
    law_lookup_finds_every_format(6);
    law_lookup_finds_every_format(7);
    law_lookup_finds_every_format(8);
    law_lookup_finds_every_format(9);
    law_lookup_finds_every_format(10);
    law_lookup_finds_every_format(11);
    law_lookup_finds_every_format(12);
    law_lookup_finds_every_format(13);
    law_lookup_finds_every_format(14);
    law_lookup_finds_every_format(15);
    law_lookup_finds_every_format(16);
    law_lookup_finds_every_format(17);
}

/// Whether `e` is one of the extensions that some format accepts, as a
/// plain list.
pub open spec fn is_listed_extension(e: Seq<char>) -> bool {
    e == "jpg"@ || e == "jpeg"@ || e == "png"@ || e == "gif"@ || e == "webp"@ || e == "bmp"@ || e == "tiff"@ || e == "tif"@ || e == "heic"@ || e == "heif"@ || e == "avif"@ || e == "mp4"@ || e == "m4v"@ || e == "mov"@ || e == "qt"@ || e == "webm"@ || e == "mkv"@ || e == "avi"@ || e == "3gp"@ || e == "3g2"@ || e == "m4a"@ || e == "m4b"@ || e == "wav"@ || e == "flac"@ || e == "ogg"@ || e == "oga"@ || e == "opus"@ || e == "mp3"@
}

/// The known extensions are exactly jpg, jpeg, png, gif, webp, bmp, tiff,
/// tif, heic, heif, avif, mp4, m4v, mov, qt, webm, mkv, avi, 3gp, 3g2,
/// m4a, m4b, wav, flac, ogg, oga, opus and mp3.
pub proof fn law_known_extensions_are_listed(e: Seq<char>)
    ensures
        is_known_extension_spec(e) <==> is_listed_extension(e),
{
    if is_known_extension_spec(e) {
        let (i, j) = choose|i: int, j: int|
            0 <= i < format_table().len() && 0 <= j < format_table()[i].1.len()
                && #[trigger] format_table()[i].1[j] == e;
        assert(0 <= i < 18);
        assert(is_listed_extension(format_table()[i].1[j]));
    }
    if is_listed_extension(e) {
        if e == "jpg"@ {
            assert(format_table()[0].1[0] == e);
        }
        if e == "jpeg"@ {
            assert(format_table()[0].1[1] == e);
        }
        if e == "png"@ {
            assert(format_table()[1].1[0] == e);
        }
        if e == "gif"@ {
            assert(format_table()[2].1[0] == e);
        }
        if e == "webp"@ {
            assert(format_table()[3].1[0] == e);
        }
        if e == "bmp"@ {
            assert(format_table()[4].1[0] == e);
        }
        if e == "tiff"@ {
            assert(format_table()[5].1[0] == e);
        }
        if e == "tif"@ {
            assert(format_table()[5].1[1] == e);
        }
        if e == "heic"@ {
            assert(format_table()[6].1[0] == e);
        }
        if e == "heif"@ {
            assert(format_table()[6].1[1] == e);
        }
        if e == "avif"@ {
            assert(format_table()[7].1[0] == e);
        }
        if e == "mp4"@ {
            assert(format_table()[8].1[0] == e);
        }
        if e == "m4v"@ {
            assert(format_table()[8].1[1] == e);
        }
        if e == "mov"@ {
            assert(format_table()[9].1[0] == e);
        }
        if e == "qt"@ {
            assert(format_table()[9].1[1] == e);
        }
        if e == "webm"@ {
            assert(format_table()[10].1[0] == e);
        }
        if e == "mkv"@ {
            assert(format_table()[10].1[1] == e);
        }
        if e == "avi"@ {
            assert(format_table()[11].1[0] == e);
        }
        if e == "3gp"@ {
            assert(format_table()[12].1[0] == e);
        }
        if e == "3g2"@ {
            assert(format_table()[12].1[1] == e);
        }
        if e == "m4a"@ {
            assert(format_table()[13].1[0] == e);
        }
        if e == "m4b"@ {
            assert(format_table()[13].1[1] == e);
        }
        if e == "wav"@ {
            assert(format_table()[14].1[0] == e);
        }
        if e == "flac"@ {
            assert(format_table()[15].1[0] == e);
        }
        if e == "ogg"@ {
            assert(format_table()[16].1[0] == e);
        }
        if e == "oga"@ {
            assert(format_table()[16].1[1] == e);
        }
        if e == "opus"@ {
            assert(format_table()[16].1[2] == e);
        }
        if e == "mp3"@ {
            assert(format_table()[17].1[0] == e);
        }
    }
}

/// A byte of `h` that differs from the matching byte of `pat` rules out
/// `pat` at `off`.
proof fn lemma_byte_rules_out(h: Seq<u8>, off: int, pat: Seq<u8>, j: int)
    requires
        0 <= j < pat.len(),
        0 <= off,
        off + j < h.len(),
        h[off + j] != pat[j],
    ensures
        !bytes_at(h, off, pat),
{
    if bytes_at(h, off, pat) {
        assert(h.subrange(off, off + pat.len())[j] == h[off + j]);
    }
}

/// Whether `h` opens with `0 0 0 0 f t y p`'s last four bytes at 4..8:
/// the `ftyp` box of an ISO base media file.
pub open spec fn has_ftyp_box(h: Seq<u8>) -> bool {
    h.len() >= 12 && h[4] == 0x66u8 && h[5] == 0x74u8 && h[6] == 0x79u8 && h[7] == 0x70u8
}

/// A header that begins with FF D8 FF (the JPEG start-of-image marker and
/// the lead byte of the marker that follows, whichever it is: E0 JFIF, E1
/// Exif, DB, ...) is a JPEG.
pub proof fn law_jpeg_signature(h: Seq<u8>)
    requires
        h.len() >= 3,
        h[0] == 0xFFu8,
        h[1] == 0xD8u8,
        h[2] == 0xFFu8,
    ensures
        detect_spec(h) == Some("jpg"@),
{
    assert(h.subrange(0, 3) =~= seq![0xFFu8, 0xD8, 0xFF]);
}

/// The signatures that open with a byte of their own each decide the
/// format: PNG (89 'PNG' 0D 0A 1A 0A), GIF ('GIF8'), TIFF ('II' 2A 00 or
/// 'MM' 00 2A), BMP ('BM'), FLAC ('fLaC') and Ogg ('OggS').
pub proof fn law_leading_signatures(h: Seq<u8>)
    ensures
        h.len() >= 8 && h[0] == 0x89u8 && h[1] == 0x50u8 && h[2] == 0x4Eu8 && h[3] == 0x47u8 && h[4]
            == 0x0Du8 && h[5] == 0x0Au8 && h[6] == 0x1Au8 && h[7] == 0x0Au8 ==> detect_spec(h) == Some(
            "png"@,
        ),
        h.len() >= 4 && h[0] == 0x47u8 && h[1] == 0x49u8 && h[2] == 0x46u8 && h[3] == 0x38u8
            ==> detect_spec(h) == Some("gif"@),
        h.len() >= 4 && ((h[0] == 0x49u8 && h[1] == 0x49u8 && h[2] == 0x2Au8 && h[3] == 0x00u8) || (h[0]
            == 0x4Du8 && h[1] == 0x4Du8 && h[2] == 0x00u8 && h[3] == 0x2Au8)) ==> detect_spec(h) == Some(
            "tiff"@,
        ),
        h.len() >= 2 && h[0] == 0x42u8 && h[1] == 0x4Du8 ==> detect_spec(h) == Some("bmp"@),
        h.len() >= 4 && h[0] == 0x66u8 && h[1] == 0x4Cu8 && h[2] == 0x61u8 && h[3] == 0x43u8
            ==> detect_spec(h) == Some("flac"@),
        h.len() >= 4 && h[0] == 0x4Fu8 && h[1] == 0x67u8 && h[2] == 0x67u8 && h[3] == 0x53u8
            ==> detect_spec(h) == Some("ogg"@),
{
    if h.len() > 0 {
        if h[0] != 0xFFu8 {
            lemma_byte_rules_out(h, 0, seq![0xFFu8, 0xD8, 0xFF], 0);
        }
        if h[0] != 0x89u8 {
            lemma_byte_rules_out(h, 0, seq![0x89u8, 0x50, 0x4E, 0x47, 0x0D, 0x0A, 0x1A, 0x0A], 0);
        }
        if h[0] != 0x47u8 {
            lemma_byte_rules_out(h, 0, seq![0x47u8, 0x49, 0x46, 0x38], 0);
        }
        if h[0] != 0x49u8 {
            lemma_byte_rules_out(h, 0, seq![0x49u8, 0x49, 0x2A, 0x00], 0);
        }
        if h[0] != 0x4Du8 {
            lemma_byte_rules_out(h, 0, seq![0x4Du8, 0x4D, 0x00, 0x2A], 0);
        }
        if h[0] != 0x42u8 {
            lemma_byte_rules_out(h, 0, seq![0x42u8, 0x4D], 0);
        }
        if h[0] != 0x66u8 {
            lemma_byte_rules_out(h, 0, seq![0x66u8, 0x4C, 0x61, 0x43], 0);
        }
    }
    if h.len() >= 8 {
        assert(h.subrange(0, 8) =~= seq![h[0], h[1], h[2], h[3], h[4], h[5], h[6], h[7]]);
    }
    if h.len() >= 4 {
        assert(h.subrange(0, 4) =~= seq![h[0], h[1], h[2], h[3]]);
    }
    if h.len() >= 3 {
        assert(h.subrange(0, 3) =~= seq![h[0], h[1], h[2]]);
    }
    if h.len() >= 2 {
        assert(h.subrange(0, 2) =~= seq![h[0], h[1]]);
    }
}

/// Whether `b` is the first byte of one of the signatures that are
/// looked for before the container formats: JPEG, PNG, GIF, TIFF, BMP,
/// FLAC and Ogg.
pub open spec fn opens_leading_signature(b: u8) -> bool {
    b == 0xFFu8 || b == 0x89u8 || b == 0x47u8 || b == 0x49u8 || b == 0x4Du8 || b == 0x42u8 || b == 0x66u8
        || b == 0x4Fu8
}

/// Rules out the signatures looked for before the containers when the
/// first byte opens none of them.
proof fn lemma_no_leading_signature(h: Seq<u8>)
    requires
        h.len() > 0,
        !opens_leading_signature(h[0]),
    ensures
        !bytes_at(h, 0, seq![0xFFu8, 0xD8, 0xFF]),
        !bytes_at(h, 0, seq![0x89u8, 0x50, 0x4E, 0x47, 0x0D, 0x0A, 0x1A, 0x0A]),
        !bytes_at(h, 0, seq![0x47u8, 0x49, 0x46, 0x38]),
        !bytes_at(h, 0, seq![0x49u8, 0x49, 0x2A, 0x00]),
        !bytes_at(h, 0, seq![0x4Du8, 0x4D, 0x00, 0x2A]),
        !bytes_at(h, 0, seq![0x42u8, 0x4D]),
        !bytes_at(h, 0, seq![0x66u8, 0x4C, 0x61, 0x43]),
        !bytes_at(h, 0, seq![0x4Fu8, 0x67, 0x67, 0x53]),
{
    lemma_byte_rules_out(h, 0, seq![0xFFu8, 0xD8, 0xFF], 0);
    lemma_byte_rules_out(h, 0, seq![0x89u8, 0x50, 0x4E, 0x47, 0x0D, 0x0A, 0x1A, 0x0A], 0);
    lemma_byte_rules_out(h, 0, seq![0x47u8, 0x49, 0x46, 0x38], 0);
    lemma_byte_rules_out(h, 0, seq![0x49u8, 0x49, 0x2A, 0x00], 0);
    lemma_byte_rules_out(h, 0, seq![0x4Du8, 0x4D, 0x00, 0x2A], 0);
    lemma_byte_rules_out(h, 0, seq![0x42u8, 0x4D], 0);
    lemma_byte_rules_out(h, 0, seq![0x66u8, 0x4C, 0x61, 0x43], 0);
    lemma_byte_rules_out(h, 0, seq![0x4Fu8, 0x67, 0x67, 0x53], 0);
}

/// A RIFF container ('RIFF', a size, then a form type at 8..12) is WebP
/// for form 'WEBP', WAV for 'WAVE', AVI for 'AVI ', and nothing this tool
/// recognizes for any other form.
pub proof fn law_riff_forms(h: Seq<u8>)
    requires
        h.len() >= 12,
        h[0] == 0x52u8,
        h[1] == 0x49u8,
        h[2] == 0x46u8,
        h[3] == 0x46u8,
    ensures
        (h[8] == 0x57u8 && h[9] == 0x45u8 && h[10] == 0x42u8 && h[11] == 0x50u8) ==> detect_spec(h) == Some("webp"@),
        (h[8] == 0x57u8 && h[9] == 0x41u8 && h[10] == 0x56u8 && h[11] == 0x45u8) ==> detect_spec(h) == Some("wav"@),
        (h[8] == 0x41u8 && h[9] == 0x56u8 && h[10] == 0x49u8 && h[11] == 0x20u8) ==> detect_spec(h) == Some("avi"@),
        !(h[8] == 0x57u8 && h[9] == 0x45u8 && h[10] == 0x42u8 && h[11] == 0x50u8) && !(h[8] == 0x57u8 && h[9] == 0x41u8 && h[10] == 0x56u8 && h[11] == 0x45u8) && !(h[8] == 0x41u8 && h[9] == 0x56u8 && h[10] == 0x49u8 && h[11] == 0x20u8) ==> detect_spec(h) is None,
{
    lemma_no_leading_signature(h);
    assert(h.subrange(0, 4) =~= seq![h[0], h[1], h[2], h[3]]);
    assert(h.subrange(8, 12) =~= seq![h[8], h[9], h[10], h[11]]);
}

/// An ISO base media file (an `ftyp` box at 4..8, its major brand at
/// 8..12) is told apart by its brand: 'qt  ' is mov; 'M4A ' and 'M4B '
/// are m4a; '3gp4', '3gp5', '3gp6' and '3g2a' are 3gp; 'avif' and 'avis'
/// are avif; 'heic', 'heix', 'heim', 'heis', 'hevc', 'hevx', 'hevm',
/// 'hevs', 'mif1' and 'msf1' are heic; every other brand is mp4. This
/// holds whenever the first byte opens none of the signatures looked for
/// first, RIFF's included (a box size below 16 MiB starts with a zero
/// byte).
pub proof fn law_ftyp_brands(h: Seq<u8>)
    requires
        has_ftyp_box(h),
        !opens_leading_signature(h[0]),
        h[0] != 0x52u8,
    ensures
        (h[8] == 0x71u8 && h[9] == 0x74u8 && h[10] == 0x20u8 && h[11] == 0x20u8) ==> detect_spec(h) == Some("mov"@),
        (h[8] == 0x4Du8 && h[9] == 0x34u8 && h[10] == 0x41u8 && h[11] == 0x20u8) || (h[8] == 0x4Du8 && h[9] == 0x34u8 && h[10] == 0x42u8 && h[11] == 0x20u8) ==> detect_spec(h) == Some("m4a"@),
        (h[8] == 0x33u8 && h[9] == 0x67u8 && h[10] == 0x70u8 && h[11] == 0x34u8) || (h[8] == 0x33u8 && h[9] == 0x67u8 && h[10] == 0x70u8 && h[11] == 0x35u8) || (h[8] == 0x33u8 && h[9] == 0x67u8 && h[10] == 0x70u8 && h[11] == 0x36u8) || (h[8] == 0x33u8 && h[9] == 0x67u8 && h[10] == 0x32u8 && h[11] == 0x61u8) ==> detect_spec(h) == Some("3gp"@),
        (h[8] == 0x61u8 && h[9] == 0x76u8 && h[10] == 0x69u8 && h[11] == 0x66u8) || (h[8] == 0x61u8 && h[9] == 0x76u8 && h[10] == 0x69u8 && h[11] == 0x73u8) ==> detect_spec(h) == Some("avif"@),
        (h[8] == 0x68u8 && h[9] == 0x65u8 && h[10] == 0x69u8 && h[11] == 0x63u8) || (h[8] == 0x68u8 && h[9] == 0x65u8 && h[10] == 0x69u8 && h[11] == 0x78u8) || (h[8] == 0x68u8 && h[9] == 0x65u8 && h[10] == 0x69u8 && h[11] == 0x6Du8) || (h[8] == 0x68u8 && h[9] == 0x65u8 && h[10] == 0x69u8 && h[11] == 0x73u8) || (h[8] == 0x68u8 && h[9] == 0x65u8 && h[10] == 0x76u8 && h[11] == 0x63u8) || (h[8] == 0x68u8 && h[9] == 0x65u8 && h[10] == 0x76u8 && h[11] == 0x78u8) || (h[8] == 0x68u8 && h[9] == 0x65u8 && h[10] == 0x76u8 && h[11] == 0x6Du8) || (h[8] == 0x68u8 && h[9] == 0x65u8 && h[10] == 0x76u8 && h[11] == 0x73u8) || (h[8] == 0x6Du8 && h[9] == 0x69u8 && h[10] == 0x66u8 && h[11] == 0x31u8) || (h[8] == 0x6Du8 && h[9] == 0x73u8 && h[10] == 0x66u8 && h[11] == 0x31u8) ==> detect_spec(h) == Some("heic"@),
        !((h[8] == 0x71u8 && h[9] == 0x74u8 && h[10] == 0x20u8 && h[11] == 0x20u8)) && !((h[8] == 0x4Du8 && h[9] == 0x34u8 && h[10] == 0x41u8 && h[11] == 0x20u8) || (h[8] == 0x4Du8 && h[9] == 0x34u8 && h[10] == 0x42u8 && h[11] == 0x20u8)) && !((h[8] == 0x33u8 && h[9] == 0x67u8 && h[10] == 0x70u8 && h[11] == 0x34u8) || (h[8] == 0x33u8 && h[9] == 0x67u8 && h[10] == 0x70u8 && h[11] == 0x35u8) || (h[8] == 0x33u8 && h[9] == 0x67u8 && h[10] == 0x70u8 && h[11] == 0x36u8) || (h[8] == 0x33u8 && h[9] == 0x67u8 && h[10] == 0x32u8 && h[11] == 0x61u8)) && !((h[8] == 0x61u8 && h[9] == 0x76u8 && h[10] == 0x69u8 && h[11] == 0x66u8) || (h[8] == 0x61u8 && h[9] == 0x76u8 && h[10] == 0x69u8 && h[11] == 0x73u8)) && !((h[8] == 0x68u8 && h[9] == 0x65u8 && h[10] == 0x69u8 && h[11] == 0x63u8) || (h[8] == 0x68u8 && h[9] == 0x65u8 && h[10] == 0x69u8 && h[11] == 0x78u8) || (h[8] == 0x68u8 && h[9] == 0x65u8 && h[10] == 0x69u8 && h[11] == 0x6Du8) || (h[8] == 0x68u8 && h[9] == 0x65u8 && h[10] == 0x69u8 && h[11] == 0x73u8) || (h[8] == 0x68u8 && h[9] == 0x65u8 && h[10] == 0x76u8 && h[11] == 0x63u8) || (h[8] == 0x68u8 && h[9] == 0x65u8 && h[10] == 0x76u8 && h[11] == 0x78u8) || (h[8] == 0x68u8 && h[9] == 0x65u8 && h[10] == 0x76u8 && h[11] == 0x6Du8) || (h[8] == 0x68u8 && h[9] == 0x65u8 && h[10] == 0x76u8 && h[11] == 0x73u8) || (h[8] == 0x6Du8 && h[9] == 0x69u8 && h[10] == 0x66u8 && h[11] == 0x31u8) || (h[8] == 0x6Du8 && h[9] == 0x73u8 && h[10] == 0x66u8 && h[11] == 0x31u8)) ==> detect_spec(h) == Some("mp4"@),
{
    lemma_no_leading_signature(h);
    lemma_byte_rules_out(h, 0, seq![0x52u8, 0x49, 0x46, 0x46], 0);
    assert(h.subrange(4, 8) =~= seq![0x66u8, 0x74, 0x79, 0x70]);
    assert(h.subrange(8, 12) =~= seq![h[8], h[9], h[10], h[11]]);
}

/// Rules out an `ftyp` box at 4..8 when the header holds none.
proof fn lemma_no_ftyp(h: Seq<u8>)
    requires
        !has_ftyp_box(h),
    ensures
        !(h.len() >= 12 && bytes_at(h, 4, seq![0x66u8, 0x74, 0x79, 0x70])),
{
    if h.len() >= 12 {
        if h[4] != 0x66u8 {
            lemma_byte_rules_out(h, 4, seq![0x66u8, 0x74, 0x79, 0x70], 0);
        } else if h[5] != 0x74u8 {
            lemma_byte_rules_out(h, 4, seq![0x66u8, 0x74, 0x79, 0x70], 1);
        } else if h[6] != 0x79u8 {
            lemma_byte_rules_out(h, 4, seq![0x66u8, 0x74, 0x79, 0x70], 2);
        } else {
            lemma_byte_rules_out(h, 4, seq![0x66u8, 0x74, 0x79, 0x70], 3);
        }
    }
}

/// WebM and Matroska (the EBML signature 1A 45 DF A3) are webm, and a
/// header opening with 'ID3' (an ID3 tag) is mp3, unless the header holds
/// an `ftyp` box, which is looked for first.
pub proof fn law_webm_and_id3_signatures(h: Seq<u8>)
    requires
        !has_ftyp_box(h),
    ensures
        h.len() >= 4 && h[0] == 0x1Au8 && h[1] == 0x45u8 && h[2] == 0xDFu8 && h[3] == 0xA3u8 ==> detect_spec(h) == Some("webm"@),
        h.len() >= 3 && h[0] == 0x49u8 && h[1] == 0x44u8 && h[2] == 0x33u8 ==> detect_spec(h) == Some("mp3"@),
{
    lemma_no_ftyp(h);
    if h.len() >= 3 && h[0] == 0x49u8 && h[1] == 0x44u8 && h[2] == 0x33u8 {
        lemma_byte_rules_out(h, 0, seq![0xFFu8, 0xD8, 0xFF], 0);
        lemma_byte_rules_out(h, 0, seq![0x89u8, 0x50, 0x4E, 0x47, 0x0D, 0x0A, 0x1A, 0x0A], 0);
        lemma_byte_rules_out(h, 0, seq![0x47u8, 0x49, 0x46, 0x38], 0);
        lemma_byte_rules_out(h, 0, seq![0x49u8, 0x49, 0x2A, 0x00], 1);
        lemma_byte_rules_out(h, 0, seq![0x4Du8, 0x4D, 0x00, 0x2A], 0);
        lemma_byte_rules_out(h, 0, seq![0x42u8, 0x4D], 0);
        lemma_byte_rules_out(h, 0, seq![0x66u8, 0x4C, 0x61, 0x43], 0);
        lemma_byte_rules_out(h, 0, seq![0x4Fu8, 0x67, 0x67, 0x53], 0);
        lemma_byte_rules_out(h, 0, seq![0x52u8, 0x49, 0x46, 0x46], 0);
        lemma_byte_rules_out(h, 0, seq![0x1Au8, 0x45, 0xDF, 0xA3], 0);
        assert(h.subrange(0, 3) =~= seq![0x49u8, 0x44, 0x33]);
    }
    if h.len() >= 4 && h[0] == 0x1Au8 && h[1] == 0x45u8 && h[2] == 0xDFu8 && h[3] == 0xA3u8 {
        lemma_no_leading_signature(h);
        lemma_byte_rules_out(h, 0, seq![0x52u8, 0x49, 0x46, 0x46], 0);
        assert(h.subrange(0, 4) =~= seq![0x1Au8, 0x45, 0xDF, 0xA3]);
    }
}

/// A header of three bytes or more that opens with an MPEG audio frame
/// sync (FF, then a byte whose top three bits are set, whose version bits
/// 4..3 are not 01 and whose layer bits 2..1 are not 00) is mp3, except
/// for the UTF-16 byte-order mark FF FE and unless the header holds an
/// `ftyp` box.
pub proof fn law_mpeg_frame_signature(h: Seq<u8>)
    requires
        h.len() >= 3,
        !has_ftyp_box(h),
        h[0] == 0xFFu8,
        h[1] != 0xFEu8,
        h[1] & 0xE0u8 == 0xE0u8,
        (h[1] >> 3u8) & 0x03u8 != 0x01u8,
        (h[1] >> 1u8) & 0x03u8 != 0x00u8,
    ensures
        detect_spec(h) == Some("mp3"@),
{
    let b = h[1];
    assert(b & 0xE0u8 == 0xE0u8 ==> b != 0xD8u8) by (bit_vector);
    lemma_no_ftyp(h);
    lemma_byte_rules_out(h, 0, seq![0xFFu8, 0xD8, 0xFF], 1);
    lemma_byte_rules_out(h, 0, seq![0x89u8, 0x50, 0x4E, 0x47, 0x0D, 0x0A, 0x1A, 0x0A], 0);
    lemma_byte_rules_out(h, 0, seq![0x47u8, 0x49, 0x46, 0x38], 0);
    lemma_byte_rules_out(h, 0, seq![0x49u8, 0x49, 0x2A, 0x00], 0);
    lemma_byte_rules_out(h, 0, seq![0x4Du8, 0x4D, 0x00, 0x2A], 0);
    lemma_byte_rules_out(h, 0, seq![0x42u8, 0x4D], 0);
    lemma_byte_rules_out(h, 0, seq![0x66u8, 0x4C, 0x61, 0x43], 0);
    lemma_byte_rules_out(h, 0, seq![0x4Fu8, 0x67, 0x67, 0x53], 0);
    lemma_byte_rules_out(h, 0, seq![0x52u8, 0x49, 0x46, 0x46], 0);
    lemma_byte_rules_out(h, 0, seq![0x1Au8, 0x45, 0xDF, 0xA3], 0);
    lemma_byte_rules_out(h, 0, seq![0x49u8, 0x44, 0x33], 0);
}

/// A header whose first byte opens none of the signatures (JPEG, PNG,
/// GIF, TIFF, BMP, FLAC, Ogg, RIFF, EBML, ID3, MPEG frame sync) and that
/// holds no `ftyp` box is not recognized.
pub proof fn law_unrecognized_headers(h: Seq<u8>)
    requires
        h.len() > 0,
        !opens_leading_signature(h[0]),
        h[0] != 0x52u8,
        h[0] != 0x1Au8,
        !has_ftyp_box(h),
    ensures
        detect_spec(h) is None,
{
    lemma_no_leading_signature(h);
    lemma_no_ftyp(h);
    lemma_byte_rules_out(h, 0, seq![0x52u8, 0x49, 0x46, 0x46], 0);
    lemma_byte_rules_out(h, 0, seq![0x1Au8, 0x45, 0xDF, 0xA3], 0);
    lemma_byte_rules_out(h, 0, seq![0x49u8, 0x44, 0x33], 0);
}

} // verus!
