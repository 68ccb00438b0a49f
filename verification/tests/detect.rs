use extension_fixer::detect::{accepted_for, detect_canonical, detect_from_bytes, is_known_extension, lookup};

const PNG_MAGIC: [u8; 8] = [0x89, 0x50, 0x4E, 0x47, 0x0D, 0x0A, 0x1A, 0x0A];
const TIFF_LE_MAGIC: [u8; 4] = [0x49, 0x49, 0x2A, 0x00];
const TIFF_BE_MAGIC: [u8; 4] = [0x4D, 0x4D, 0x00, 0x2A];

#[test]
fn detects_jpeg() {
    let bytes = [0xFF, 0xD8, 0xFF, 0xE0, 0x00, 0x10];
    assert_eq!(detect_from_bytes(&bytes).map(|f| f.canonical), Some("jpg"));
}

#[test]
fn detects_png() {
    assert_eq!(detect_from_bytes(&PNG_MAGIC).map(|f| f.canonical), Some("png"));
}

#[test]
fn detects_gif() {
    let bytes = b"GIF89a\x00\x00";
    assert_eq!(detect_from_bytes(bytes).map(|f| f.canonical), Some("gif"));
}

#[test]
fn detects_bmp() {
    let bytes = b"BM\x00\x00\x00\x00";
    assert_eq!(detect_from_bytes(bytes).map(|f| f.canonical), Some("bmp"));
}

#[test]
fn detects_tiff_little_endian() {
    assert_eq!(detect_from_bytes(&TIFF_LE_MAGIC).map(|f| f.canonical), Some("tiff"));
}

#[test]
fn detects_tiff_big_endian() {
    assert_eq!(detect_from_bytes(&TIFF_BE_MAGIC).map(|f| f.canonical), Some("tiff"));
}

#[test]
fn detects_flac() {
    let bytes = b"fLaC\x00\x00\x00\x00";
    assert_eq!(detect_from_bytes(bytes).map(|f| f.canonical), Some("flac"));
}

#[test]
fn detects_ogg() {
    let bytes = b"OggS\x00\x00\x00\x00";
    assert_eq!(detect_from_bytes(bytes).map(|f| f.canonical), Some("ogg"));
}

#[test]
fn detects_webp() {
    let mut bytes = b"RIFF".to_vec();
    bytes.extend_from_slice(&[0, 0, 0, 0]);
    bytes.extend_from_slice(b"WEBP");
    assert_eq!(detect_from_bytes(&bytes).map(|f| f.canonical), Some("webp"));
}

#[test]
fn detects_wav() {
    let mut bytes = b"RIFF".to_vec();
    bytes.extend_from_slice(&[0, 0, 0, 0]);
    bytes.extend_from_slice(b"WAVE");
    assert_eq!(detect_from_bytes(&bytes).map(|f| f.canonical), Some("wav"));
}

#[test]
fn detects_avi() {
    let mut bytes = b"RIFF".to_vec();
    bytes.extend_from_slice(&[0, 0, 0, 0]);
    bytes.extend_from_slice(b"AVI ");
    assert_eq!(detect_from_bytes(&bytes).map(|f| f.canonical), Some("avi"));
}

#[test]
fn detects_mp4() {
    let mut bytes = vec![0x00, 0x00, 0x00, 0x18];
    bytes.extend_from_slice(b"ftyp");
    bytes.extend_from_slice(b"isom");
    assert_eq!(detect_from_bytes(&bytes).map(|f| f.canonical), Some("mp4"));
}

#[test]
fn detects_mov() {
    let mut bytes = vec![0x00, 0x00, 0x00, 0x14];
    bytes.extend_from_slice(b"ftyp");
    bytes.extend_from_slice(b"qt  ");
    assert_eq!(detect_from_bytes(&bytes).map(|f| f.canonical), Some("mov"));
}

#[test]
fn detects_heic() {
    let mut bytes = vec![0x00, 0x00, 0x00, 0x18];
    bytes.extend_from_slice(b"ftyp");
    bytes.extend_from_slice(b"heic");
    assert_eq!(detect_from_bytes(&bytes).map(|f| f.canonical), Some("heic"));
}

#[test]
fn detects_avif() {
    let mut bytes = vec![0x00, 0x00, 0x00, 0x18];
    bytes.extend_from_slice(b"ftyp");
    bytes.extend_from_slice(b"avif");
    assert_eq!(detect_from_bytes(&bytes).map(|f| f.canonical), Some("avif"));
}

#[test]
fn detects_m4a() {
    let mut bytes = vec![0x00, 0x00, 0x00, 0x18];
    bytes.extend_from_slice(b"ftyp");
    bytes.extend_from_slice(b"M4A ");
    assert_eq!(detect_from_bytes(&bytes).map(|f| f.canonical), Some("m4a"));
}

#[test]
fn detects_3gp() {
    let mut bytes = vec![0x00, 0x00, 0x00, 0x18];
    bytes.extend_from_slice(b"ftyp");
    bytes.extend_from_slice(b"3gp4");
    assert_eq!(detect_from_bytes(&bytes).map(|f| f.canonical), Some("3gp"));
}

#[test]
fn detects_webm() {
    let bytes = [0x1A, 0x45, 0xDF, 0xA3, 0x00, 0x00];
    assert_eq!(detect_from_bytes(&bytes).map(|f| f.canonical), Some("webm"));
}

#[test]
fn detects_mp3_with_id3_tag() {
    let bytes = b"ID3\x03\x00\x00\x00";
    assert_eq!(detect_from_bytes(bytes).map(|f| f.canonical), Some("mp3"));
}

#[test]
fn detects_mp3_frame_sync() {
    let bytes = [0xFF, 0xFB, 0x90, 0x00];
    assert_eq!(detect_from_bytes(&bytes).map(|f| f.canonical), Some("mp3"));
}

#[test]
fn does_not_mistake_utf16_bom_for_mp3() {
    // desktop.ini and similar Windows text files are often saved as
    // UTF-16LE, which starts with the same 0xFF lead byte as an MP3
    // frame sync.
    let mut bytes = vec![0xFF, 0xFE];
    bytes.extend_from_slice(
        "[.ShellClassInfo]"
            .encode_utf16()
            .flat_map(u16::to_le_bytes)
            .collect::<Vec<u8>>()
            .as_slice(),
    );
    assert_eq!(detect_from_bytes(&bytes), None);
}

#[test]
fn accepts_jpeg_as_equivalent_to_jpg() {
    let bytes = [0xFF, 0xD8, 0xFF, 0xE0, 0x00, 0x10];
    let format = detect_from_bytes(&bytes).unwrap();
    assert!(format.accepted.contains(&"jpeg"));
}

#[test]
fn returns_none_for_unrecognized() {
    let bytes = [0x50, 0x4B, 0x03, 0x04]; // zip
    assert_eq!(detect_from_bytes(&bytes), None);
}

#[test]
fn returns_none_for_short_file() {
    let bytes = [0xFF];
    assert_eq!(detect_from_bytes(&bytes), None);
}

#[test]
fn is_known_extension_covers_all_accepted_variants() {
    assert!(is_known_extension("jpeg"));
    assert!(is_known_extension("tif"));
    assert!(is_known_extension("mkv"));
    assert!(!is_known_extension("dup3"));
    assert!(!is_known_extension("bak"));
}

#[test]
fn accepted_for_returns_the_right_list() {
    assert_eq!(accepted_for("jpg"), Some(["jpg", "jpeg"].as_slice()));
    assert_eq!(accepted_for("nonexistent"), None);
}

// --- further cases ---

#[test]
fn every_detected_canonical_is_accepted_by_its_own_format() {
    let headers: Vec<Vec<u8>> = vec![
        vec![0xFF, 0xD8, 0xFF],
        PNG_MAGIC.to_vec(),
        b"GIF8".to_vec(),
        TIFF_LE_MAGIC.to_vec(),
        b"BM".to_vec(),
        b"fLaC".to_vec(),
        b"OggS".to_vec(),
        b"RIFF\0\0\0\0WEBP".to_vec(),
        b"RIFF\0\0\0\0WAVE".to_vec(),
        b"RIFF\0\0\0\0AVI ".to_vec(),
        b"\0\0\0\x18ftypisom".to_vec(),
        b"\0\0\0\x18ftypqt  ".to_vec(),
        b"\0\0\0\x18ftypM4B ".to_vec(),
        b"\0\0\0\x18ftyp3g2a".to_vec(),
        b"\0\0\0\x18ftypavis".to_vec(),
        b"\0\0\0\x18ftypmif1".to_vec(),
        vec![0x1A, 0x45, 0xDF, 0xA3],
        b"ID3".to_vec(),
        vec![0xFF, 0xFB, 0x90],
    ];
    for h in headers {
        let f = detect_from_bytes(&h).expect("detected");
        assert!(f.accepted.contains(&f.canonical));
        assert!(is_known_extension(f.canonical));
        assert_eq!(lookup(f.canonical), Some(f));
    }
}

#[test]
fn ftyp_brands_map_to_their_formats() {
    let brand = |b: &[u8]| {
        let mut h = b"\0\0\0\x18ftyp".to_vec();
        h.extend_from_slice(b);
        detect_canonical(&h)
    };
    assert_eq!(brand(b"M4B "), Some("m4a"));
    assert_eq!(brand(b"3gp5"), Some("3gp"));
    assert_eq!(brand(b"3gp6"), Some("3gp"));
    assert_eq!(brand(b"3g2a"), Some("3gp"));
    assert_eq!(brand(b"avis"), Some("avif"));
    for b in [b"heix", b"heim", b"heis", b"hevc", b"hevx", b"hevm", b"hevs", b"mif1", b"msf1"] {
        assert_eq!(brand(b), Some("heic"));
    }
    assert_eq!(brand(b"zzzz"), Some("mp4"));
}

#[test]
fn riff_with_unknown_form_is_not_recognized() {
    assert_eq!(detect_canonical(b"RIFF\0\0\0\0XXXX"), None);
}

#[test]
fn short_riff_falls_through() {
    // fewer than twelve bytes: the RIFF rule does not apply
    assert_eq!(detect_canonical(b"RIFF\0\0\0\0WEB"), None);
}

#[test]
fn mp3_frame_sync_rejects_reserved_version_and_layer() {
    // version bits 01 are reserved
    assert_eq!(detect_canonical(&[0xFF, 0xE8 | 0x02, 0x00]), None);
    // layer bits 00 are reserved
    assert_eq!(detect_canonical(&[0xFF, 0xF8, 0x00]), None);
    // two bytes are not enough
    assert_eq!(detect_canonical(&[0xFF, 0xFB]), None);
}

#[test]
fn utf16_bom_is_never_mp3() {
    for third in 0u8..=255 {
        assert_ne!(detect_canonical(&[0xFF, 0xFE, third, 0x00]), Some("mp3"));
    }
}

#[test]
fn detection_reads_only_the_first_twelve_bytes() {
    let a = b"\0\0\0\x18ftypqt  AAAA";
    let b = b"\0\0\0\x18ftypqt  BBBBBBBB";
    assert_eq!(detect_canonical(a), detect_canonical(b));
    assert_eq!(detect_canonical(a), Some("mov"));
}

#[test]
fn empty_input_is_not_recognized() {
    assert_eq!(detect_from_bytes(&[]), None);
}

#[test]
fn lookup_finds_each_canonical() {
    for c in ["jpg", "png", "gif", "webp", "bmp", "tiff", "heic", "avif", "mp4", "mov", "webm", "avi", "3gp", "m4a", "wav", "flac", "ogg", "mp3"] {
        assert_eq!(lookup(c).map(|f| f.canonical), Some(c));
    }
    assert_eq!(lookup("jpeg"), None);
    assert_eq!(accepted_for("ogg"), Some(["ogg", "oga", "opus"].as_slice()));
}

#[test]
fn every_accepted_extension_is_known() {
    for c in ["jpg", "png", "gif", "webp", "bmp", "tiff", "heic", "avif", "mp4", "mov", "webm", "avi", "3gp", "m4a", "wav", "flac", "ogg", "mp3"] {
        for e in accepted_for(c).unwrap() {
            assert!(is_known_extension(e), "{e} of {c}");
        }
    }
}

#[test]
fn formats_share_no_extension() {
    let canonicals = [
        "jpg", "png", "gif", "webp", "bmp", "tiff", "heic", "avif", "mp4", "mov", "webm", "avi", "3gp", "m4a",
        "wav", "flac", "ogg", "mp3",
    ];
    for a in canonicals {
        for b in canonicals {
            if a == b {
                continue;
            }
            for e in accepted_for(a).unwrap() {
                assert!(!accepted_for(b).unwrap().contains(e), "{e} is accepted for both {a} and {b}");
            }
        }
    }
}
