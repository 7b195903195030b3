use trigrep_index::walker::{is_binary_content, is_binary_extension, is_binary_extension_name};

#[test]
fn test_binary_extension_detection() {
    assert!(is_binary_extension("image.png"));
    assert!(is_binary_extension("lib.so"));
    assert!(is_binary_extension("archive.ZIP"));
    assert!(!is_binary_extension("code.rs"));
    assert!(!is_binary_extension("readme.md"));
}

#[test]
fn test_binary_content_detection() {
    assert!(is_binary_content(&[0x00, 0x01, 0x02]));
    assert!(!is_binary_content(b"hello world"));
    assert!(!is_binary_content(b"fn main() {}"));
}

#[test]
fn binary_content_only_checks_first_8k() {
    let mut content = vec![b'a'; 9000];
    content[8192] = 0;
    assert!(!is_binary_content(&content));
    content[8191] = 0;
    assert!(is_binary_content(&content));
    assert!(!is_binary_content(b""));
}

#[test]
fn binary_extension_edge_cases() {
    assert!(!is_binary_extension("Makefile"));
    assert!(!is_binary_extension(".png"));
    assert!(is_binary_extension("dir/x.tar.gz"));
    assert!(is_binary_extension("font.WOFF2"));
    assert!(!is_binary_extension("x.pngx"));
    assert!(is_binary_extension_name("DS_Store"));
    assert!(is_binary_extension_name("ds_store"));
    assert!(is_binary_extension_name("SqLiTe3"));
    assert!(!is_binary_extension_name(""));
    assert!(!is_binary_extension_name("rs"));
}

#[test]
fn binary_extension_uses_last_extension_only() {
    assert!(is_binary_extension("archive.tar.gz"));
    assert!(is_binary_extension("photo.JpEg"));
    assert!(!is_binary_extension("x.png.txt"));
    assert!(!is_binary_extension("src/png"));
    assert!(!is_binary_extension(""));
}
