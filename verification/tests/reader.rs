use md_reader::reader::{
    command_for_key, count_lines, count_matches, count_occurrences, marker, mtime_after_reload,
    reload_check_due, reload_needed, startup_file, window_title, Command, Key,
};

#[test]
fn markers_by_level() {
    assert_eq!(marker(1), "▍");
    assert_eq!(marker(2), "▪");
    assert_eq!(marker(3), "·");
    assert_eq!(marker(6), "·");
}

#[test]
fn counts_lines_like_str_lines() {
    for text in ["", "a", "a\n", "a\nb", "a\r\nb\r\n", "\n\n", "a\r", "x\ny\n\nz"] {
        assert_eq!(count_lines(text), text.lines().count(), "{:?}", text);
    }
}

#[test]
fn counts_matches_case_insensitively() {
    assert_eq!(count_matches("Hello hello HELLO", "hello"), 3);
    assert_eq!(count_matches("aaaa", "aa"), 2);
    assert_eq!(count_matches("aaa", "aa"), 1);
    assert_eq!(count_matches("Markdown 阅读器 阅读", "阅读"), 2);
    assert_eq!(count_matches("abc", "d"), 0);
    assert_eq!(count_matches("abc", ""), 0);
    assert_eq!(count_matches("", "a"), 0);
}

#[test]
fn window_titles() {
    assert_eq!(window_title(None), "MD 阅读器");
    assert_eq!(window_title(Some(None)), "未知文件 - MD 阅读器");
    assert_eq!(window_title(Some(Some("notes.md"))), "notes.md - MD 阅读器");
}

#[test]
fn shortcut_commands() {
    assert_eq!(command_for_key(Key::O, true, false), Some(Command::OpenFile));
    assert_eq!(command_for_key(Key::O, false, false), None);
    assert_eq!(command_for_key(Key::L, true, false), Some(Command::ToggleTheme));
    assert_eq!(command_for_key(Key::F, true, false), Some(Command::OpenFind));
    assert_eq!(command_for_key(Key::Equals, true, false), Some(Command::ZoomIn));
    assert_eq!(command_for_key(Key::Minus, true, true), Some(Command::ZoomOut));
    assert_eq!(command_for_key(Key::Num0, true, false), Some(Command::ResetZoom));
    assert_eq!(command_for_key(Key::F9, false, false), Some(Command::ToggleToc));
    assert_eq!(command_for_key(Key::Escape, false, true), Some(Command::CloseFind));
    assert_eq!(command_for_key(Key::Escape, true, false), None);
}

#[test]
fn counts_occurrences_left_to_right() {
    assert_eq!(count_occurrences("abababa", "aba"), 2);
    assert_eq!(count_occurrences("Hello", "hello"), 0);
    assert_eq!(count_occurrences("中中中", "中"), 3);
    assert_eq!(count_occurrences("ab", "abc"), 0);
}

#[test]
fn reload_throttle() {
    assert!(!reload_check_due(false, 5000));
    assert!(!reload_check_due(true, 799));
    assert!(reload_check_due(true, 800));
}

#[test]
fn reload_when_mtime_changes() {
    assert!(!reload_needed(Some(5), None));
    assert!(!reload_needed(Some(5), Some(5)));
    assert!(reload_needed(Some(5), Some(6)));
    assert!(reload_needed(None, Some(-3)));
    assert_eq!(mtime_after_reload(Some(5), 6, true), Some(6));
    assert_eq!(mtime_after_reload(Some(5), 6, false), Some(5));
}

#[test]
fn startup_file_choice() {
    let cli = Some("a.md".to_string());
    let last = Some("b.md".to_string());
    assert_eq!(startup_file(cli.clone(), last.clone(), false, false), cli);
    assert_eq!(startup_file(None, last.clone(), true, true), last);
    assert_eq!(startup_file(None, last.clone(), false, true), None);
    assert_eq!(startup_file(None, last, true, false), None);
    assert_eq!(startup_file(None, None, true, true), None);
}
