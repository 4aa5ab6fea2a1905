use md_reader::toc::{extract_headings, extract_link_definitions};

#[test]
fn extracts_headings_with_byte_offsets() {
    let md = "intro\n\n# One\n\ntext\n## Two\n";
    let hs = extract_headings(md);
    assert_eq!(hs.len(), 2);
    assert_eq!(hs[0].text, "One");
    assert_eq!(&md[hs[0].byte_start..hs[0].byte_start + 2], "# ");
    assert_eq!(hs[1].text, "Two");
    assert_eq!(&md[hs[1].byte_start..hs[1].byte_start + 3], "## ");
}

#[test]
fn ignores_hash_in_code_fence() {
    let md = "```\n# not a heading\n```\n# real\n";
    let hs = extract_headings(md);
    assert_eq!(hs.len(), 1);
    assert_eq!(hs[0].text, "real");
}

#[test]
fn collects_link_definitions() {
    let md = "[a]: http://x.com\n[b]: http://y.com \"title\"\n\ntext [link][a]\n";
    let defs = extract_link_definitions(md);
    assert!(defs.contains("[a]: http://x.com"));
    assert!(defs.contains("[b]: http://y.com"));
}

#[test]
fn ignores_definition_like_lines_in_fence() {
    let md = "```\n[x]: not a def\n```\n[y]: http://z.com\n";
    let defs = extract_link_definitions(md);
    assert!(defs.contains("[y]:"));
    assert!(!defs.contains("[x]:"));
}

#[test]
fn heading_levels_and_texts() {
    let md = "# A\n## B\n### C\n#### D\n##### E\n###### F\n####### G\n";
    let hs = extract_headings(md);
    let got: Vec<(u8, &str)> = hs.iter().map(|h| (h.level, h.text.as_str())).collect();
    assert_eq!(got, vec![(1, "A"), (2, "B"), (3, "C"), (4, "D"), (5, "E"), (6, "F")]);
}

#[test]
fn heading_needs_space_and_text() {
    let hs = extract_headings("#foo\n#\n#   \n# ##\n#\tx\n");
    assert!(hs.is_empty());
}

#[test]
fn heading_closing_hashes_and_whitespace_removed() {
    let hs = extract_headings("##   Title  ##  \n# a# #\n");
    assert_eq!(hs.len(), 2);
    assert_eq!(hs[0].text, "Title");
    assert_eq!(hs[0].level, 2);
    assert_eq!(hs[1].text, "a#");
}

#[test]
fn heading_after_unicode_indent() {
    let md = "\u{3000}  # 标题\n";
    let hs = extract_headings(md);
    assert_eq!(hs.len(), 1);
    assert_eq!(hs[0].text, "标题");
    assert_eq!(hs[0].byte_start, 0);
}

#[test]
fn byte_offsets_count_utf8_bytes() {
    let md = "中文\n# 标题\n## 二\n";
    let hs = extract_headings(md);
    assert_eq!(hs.len(), 2);
    assert_eq!(hs[0].byte_start, 7);
    assert_eq!(&md[hs[0].byte_start..hs[0].byte_start + 2], "# ");
    assert_eq!(&md[hs[1].byte_start..hs[1].byte_start + 3], "## ");
}

#[test]
fn byte_offsets_with_crlf_lines() {
    let md = "intro\r\n\r\n# One\r\n## Two\r\n";
    let hs = extract_headings(md);
    assert_eq!(hs.len(), 2);
    assert_eq!(hs[0].text, "One");
    assert_eq!(hs[0].byte_start, 9);
    assert_eq!(&md[hs[1].byte_start..hs[1].byte_start + 3], "## ");
}

#[test]
fn fences_of_the_other_kind_do_not_close() {
    let md = "~~~\n```\n# no\n~~~\n# yes\n   ```rust\n# no again\n```\n";
    let hs = extract_headings(md);
    assert_eq!(hs.len(), 1);
    assert_eq!(hs[0].text, "yes");
}

#[test]
fn unclosed_fence_hides_the_rest() {
    let hs = extract_headings("# a\n```\n# b\n");
    assert_eq!(hs.len(), 1);
    assert_eq!(hs[0].text, "a");
}

#[test]
fn outline_entries_in_document_order() {
    let md = "# a\ntext\n## b\n\n### c\n";
    let hs = extract_headings(md);
    assert_eq!(hs.len(), 3);
    assert!(hs[0].byte_start < hs[1].byte_start && hs[1].byte_start < hs[2].byte_start);
    for h in &hs {
        assert!(md[h.byte_start..].starts_with('#'));
        assert!(1 <= h.level && h.level <= 6);
    }
}

#[test]
fn empty_document_has_no_headings() {
    assert!(extract_headings("").is_empty());
    assert_eq!(extract_link_definitions(""), "");
}

#[test]
fn link_definitions_exact_output() {
    let md = "[a]: http://x.com\n[b]: http://y.com \"title\"\n\ntext [link][a]\n";
    assert_eq!(
        extract_link_definitions(md),
        "[a]: http://x.com\n[b]: http://y.com \"title\"\n\n"
    );
    assert_eq!(extract_link_definitions("[a]: http://x.com\n"), "[a]: http://x.com\n\n");
}

#[test]
fn link_definition_shapes() {
    let md = "  [x]: y\n[]: z\n[a]:\n[b]:   \n[c] : d\n[d]:e\nplain\n[e]:\u{3000}\n";
    assert_eq!(extract_link_definitions(md), "  [x]: y\n[d]:e\n\n");
    assert_eq!(extract_link_definitions("    [a]: http://x.com\n"), "");
    assert_eq!(extract_link_definitions("\t[a]: http://x.com\n"), "");
}

#[test]
fn link_definitions_end_with_blank_line() {
    let defs = extract_link_definitions("[a]: b\r\nx\n[c]: d");
    assert_eq!(defs, "[a]: b\n[c]: d\n\n");
    assert!(defs.ends_with("\n\n"));
}

#[test]
fn plain_first_line_only_shifts_outline() {
    let md = "# a\n```\n# no\n```\n## b\n";
    let base = extract_headings(md);
    let shifted_md = format!("x\n{}", md);
    let shifted = extract_headings(&shifted_md);
    assert_eq!(shifted.len(), base.len());
    for (s, b) in shifted.iter().zip(base.iter()) {
        assert_eq!(s.level, b.level);
        assert_eq!(s.text, b.text);
        assert_eq!(s.byte_start, b.byte_start + 2);
    }
}

#[test]
fn rescanning_definitions_gives_them_back() {
    let md = "[a]: http://x.com\r\n  [b]: y \"t\"\n```\n[c]: z\n```\ntext\n";
    let defs = extract_link_definitions(md);
    assert_eq!(defs, "[a]: http://x.com\n  [b]: y \"t\"\n\n");
    assert_eq!(extract_link_definitions(&defs), defs);
}
