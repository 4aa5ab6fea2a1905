use md_reader::file_ops::{
    decode_markdown, fallback_after_gbk, is_markdown_extension, is_markdown_extension_lowercase,
    is_markdown_file, strip_utf8_bom,
};

#[test]
fn strips_one_bom() {
    assert_eq!(strip_utf8_bom(&[0xEF, 0xBB, 0xBF, b'a']), b"a");
    assert_eq!(strip_utf8_bom(b"abc"), b"abc");
    assert_eq!(strip_utf8_bom(&[0xEF, 0xBB]), &[0xEF, 0xBB]);
    assert_eq!(
        strip_utf8_bom(&[0xEF, 0xBB, 0xBF, 0xEF, 0xBB, 0xBF]),
        &[0xEF, 0xBB, 0xBF]
    );
}

#[test]
fn decodes_utf8_with_and_without_bom() {
    let text = "# 标题\n内容";
    assert_eq!(decode_markdown(text.as_bytes()), text);
    let mut with_bom = vec![0xEF, 0xBB, 0xBF];
    with_bom.extend_from_slice(text.as_bytes());
    assert_eq!(decode_markdown(&with_bom), text);
}

#[test]
fn decodes_gbk() {
    // "中文" in GBK
    assert_eq!(decode_markdown(&[0xD6, 0xD0, 0xCE, 0xC4]), "中文");
    let mut bytes = b"# ".to_vec();
    bytes.extend_from_slice(&[0xB1, 0xEA, 0xCC, 0xE2]);
    assert_eq!(decode_markdown(&bytes), "# 标题");
}

#[test]
fn falls_back_to_lossy_utf8() {
    assert_eq!(decode_markdown(&[b'a', 0xFF, b'b']), "a\u{FFFD}b");
}

#[test]
fn fallback_keeps_clean_gbk_text() {
    assert_eq!(fallback_after_gbk("中文".to_string(), false, &[0xFF]), "中文");
    assert_eq!(fallback_after_gbk("ignored".to_string(), true, &[b'x', 0xFF]), "x\u{FFFD}");
}

#[test]
fn markdown_extensions() {
    assert!(is_markdown_extension("md"));
    assert!(is_markdown_extension("MarkDown"));
    assert!(is_markdown_extension("MDOWN"));
    assert!(is_markdown_extension("mKd"));
    assert!(!is_markdown_extension("txt"));
    assert!(!is_markdown_extension(""));
}

#[test]
fn markdown_files() {
    assert!(is_markdown_file("notes.md"));
    assert!(is_markdown_file("dir/README.MD"));
    assert!(is_markdown_file("a.b.markdown"));
    assert!(!is_markdown_file("notes.txt"));
    assert!(!is_markdown_file("README"));
    assert!(!is_markdown_file(".md"));
    assert!(!is_markdown_file("notes.md.bak"));
    assert!(!is_markdown_file(""));
}

#[test]
fn lowercase_extensions_only() {
    assert!(is_markdown_extension_lowercase("md"));
    assert!(is_markdown_extension_lowercase("markdown"));
    assert!(!is_markdown_extension_lowercase("MD"));
    assert!(!is_markdown_extension_lowercase("m"));
}

#[test]
fn text_starting_with_feff_keeps_it_only_behind_a_mark() {
    let text = "\u{FEFF}x";
    assert_eq!(decode_markdown(text.as_bytes()), "x");
    let mut with_bom = vec![0xEF, 0xBB, 0xBF];
    with_bom.extend_from_slice(text.as_bytes());
    assert_eq!(decode_markdown(&with_bom), text);
}

#[test]
fn plain_file_names_by_documented_extension() {
    assert!(is_markdown_file("a.MKD"));
    assert!(is_markdown_file(".hidden.md"));
    assert!(!is_markdown_file("md"));
    assert!(!is_markdown_file("notes."));
    assert!(!is_markdown_file(".."));
}

#[test]
fn paths_with_directories() {
    assert!(is_markdown_file("docs/a.Markdown"));
    assert!(is_markdown_file("/home/u/notes/x.mdown"));
    assert!(!is_markdown_file("docs.md/readme"));
    assert!(!is_markdown_file("docs/.md"));
    assert!(!is_markdown_file("docs/a.txt"));
}
