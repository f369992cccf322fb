use photosort::classify::{base_key, is_jpeg_file, is_photo_file, is_raw_file, sidecar_format_tag,
    target_tree, Tree};

fn bv(s: &str) -> Vec<u8> {
    s.as_bytes().to_vec()
}

#[test]
fn raw_extensions_match_case_insensitively() {
    assert!(is_raw_file(b"IMG001.CR2"));
    assert!(is_raw_file(b"IMG001.cr2"));
    assert!(is_raw_file(b"photo.NEF"));
    assert!(is_raw_file(b"photo.arw"));
    assert!(is_raw_file(b"photo.DNG"));
    assert!(is_raw_file(b"photo.raw"));
    assert!(is_raw_file(b"photo.OrF"));
    assert!(!is_raw_file(b"photo.jpg"));
    assert!(!is_raw_file(b"photo.cr2.xmp"));
    assert!(!is_raw_file(b"cr2"));
}

#[test]
fn jpeg_extensions_match_case_insensitively() {
    assert!(is_jpeg_file(b"IMG001.JPG"));
    assert!(is_jpeg_file(b"IMG001.jpeg"));
    assert!(is_jpeg_file(b"IMG020.CR2.jpg"));
    assert!(!is_jpeg_file(b"IMG001.CR2"));
    assert!(!is_jpeg_file(b"jpg"));
}

#[test]
fn photo_is_raw_or_jpeg() {
    assert!(is_photo_file(b"a.cr2"));
    assert!(is_photo_file(b"a.jpg"));
    assert!(!is_photo_file(b"a.xmp"));
}

#[test]
fn base_key_takes_everything_before_first_dot() {
    assert_eq!(base_key(b"IMG001.CR2.xmp"), bv("IMG001"));
    assert_eq!(base_key(b"IMG001.CR2"), bv("IMG001"));
    assert_eq!(base_key(b"noext"), bv("noext"));
    assert_eq!(base_key(b".hidden"), bv(""));
    assert_eq!(base_key(b""), bv(""));
}

#[test]
fn sidecar_tag_is_second_to_last_component_uppercased() {
    assert_eq!(sidecar_format_tag(b"IMG020.CR2.jpg"), Some(bv("CR2")));
    assert_eq!(sidecar_format_tag(b"img.cr2.xmp"), Some(bv("CR2")));
    assert_eq!(sidecar_format_tag(b"a.b.c.d"), Some(bv("C")));
    assert_eq!(sidecar_format_tag(b"IMG001.CR2"), None);
    assert_eq!(sidecar_format_tag(b"noext"), None);
}

#[test]
fn target_tree_routes_photos_by_extension() {
    let raw = bv("x.CR2");
    let jpeg = bv("x.jpg");
    assert_eq!(target_tree(&raw, Tree::Jpeg), Tree::Raw);
    assert_eq!(target_tree(&jpeg, Tree::Raw), Tree::Jpeg);
}

#[test]
fn target_tree_routes_sidecars_by_embedded_format_tag() {
    // a true sidecar (no photo extension of its own) follows its format tag
    assert_eq!(target_tree(b"IMG020.CR2.xmp", Tree::Jpeg), Tree::Raw);
    assert_eq!(target_tree(b"IMG020.jpg.xmp", Tree::Raw), Tree::Jpeg);
    // an unknown tag falls back to the unit's default tree
    assert_eq!(target_tree(b"IMG020.AAA.xmp", Tree::Jpeg), Tree::Jpeg);
    assert_eq!(target_tree(b"IMG020.AAA.xmp", Tree::Raw), Tree::Raw);
    // too few components: default
    assert_eq!(target_tree(b"IMG020.xmp", Tree::Raw), Tree::Raw);
}

#[test]
fn embedded_tag_wins_over_literal_suffix() {
    // `IMG020.CR2.jpg` has sidecar shape with the format tag CR2: it belongs
    // to the raw tree of the CR2 it annotates, its own `.jpg` suffix
    // notwithstanding
    assert_eq!(target_tree(b"IMG020.CR2.jpg", Tree::Jpeg), Tree::Raw);
    assert_eq!(target_tree(b"X.JPG.cr2", Tree::Raw), Tree::Jpeg);
    // an unknown embedded tag leaves the literal suffix in charge
    assert_eq!(target_tree(b"a.b.jpg", Tree::Raw), Tree::Jpeg);
    assert_eq!(target_tree(b"a.b.cr2", Tree::Jpeg), Tree::Raw);
}
