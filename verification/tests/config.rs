use md_reader::config::{AppConfig, MAX_RECENT, ZOOM_DEFAULT, ZOOM_MAX, ZOOM_MIN};
use md_reader::reader::Command;

fn sample() -> AppConfig {
    AppConfig::default()
}

#[test]
fn default_preferences() {
    let c = sample();
    assert!(c.dark_mode);
    assert!(c.show_toc);
    assert_eq!(c.zoom_percent, 100);
    assert!(c.recent_files.is_empty());
    assert!(c.last_file.is_none());
}

#[test]
fn push_recent_moves_to_front_without_duplicates() {
    let mut c = sample();
    c.push_recent("a.md");
    c.push_recent("b.md");
    c.push_recent("a.md");
    assert_eq!(c.recent_files, vec!["a.md".to_string(), "b.md".to_string()]);
    assert_eq!(c.last_file.as_deref(), Some("a.md"));
}

#[test]
fn push_recent_keeps_at_most_ten() {
    let mut c = sample();
    for i in 0..15 {
        c.push_recent(&format!("{}.md", i));
    }
    assert_eq!(c.recent_files.len(), MAX_RECENT);
    assert_eq!(c.recent_files[0], "14.md");
    assert_eq!(c.recent_files[9], "5.md");
}

#[test]
fn push_recent_twice_changes_nothing() {
    let mut c = sample();
    c.push_recent("x.md");
    c.push_recent("y.md");
    let once = c.recent_files.clone();
    c.push_recent("y.md");
    assert_eq!(c.recent_files, once);
}

#[test]
fn push_recent_drops_existing_duplicates_of_the_path() {
    let mut c = sample();
    c.recent_files = vec!["a".to_string(), "b".to_string(), "a".to_string()];
    c.push_recent("a");
    assert_eq!(c.recent_files, vec!["a".to_string(), "b".to_string()]);
}

#[test]
fn zoom_steps_and_bounds() {
    let mut c = sample();
    c.zoom_in();
    assert_eq!(c.zoom_percent, 110);
    c.zoom_out();
    assert_eq!(c.zoom_percent, ZOOM_DEFAULT);
    for _ in 0..30 {
        c.zoom_in();
    }
    assert_eq!(c.zoom_percent, ZOOM_MAX);
    for _ in 0..40 {
        c.zoom_out();
    }
    assert_eq!(c.zoom_percent, ZOOM_MIN);
    c.zoom_percent = 295;
    c.zoom_in();
    assert_eq!(c.zoom_percent, 300);
    c.zoom_percent = 55;
    c.zoom_out();
    assert_eq!(c.zoom_percent, 50);
    c.zoom_percent = 500;
    c.zoom_out();
    assert_eq!(c.zoom_percent, 490);
    c.reset_zoom();
    assert_eq!(c.zoom_percent, 100);
}

#[test]
fn toggles_flip() {
    let mut c = sample();
    c.toggle_dark_mode();
    assert!(!c.dark_mode);
    c.toggle_dark_mode();
    assert!(c.dark_mode);
    c.toggle_toc();
    assert!(!c.show_toc);
}

#[test]
fn apply_commands() {
    let mut c = sample();
    assert!(c.apply(Command::ZoomIn));
    assert_eq!(c.zoom_percent, 110);
    assert!(c.apply(Command::ToggleTheme));
    assert!(!c.dark_mode);
    assert!(c.apply(Command::ToggleToc));
    assert!(!c.show_toc);
    assert!(c.apply(Command::ResetZoom));
    assert_eq!(c.zoom_percent, 100);
    assert!(c.apply(Command::ZoomOut));
    assert_eq!(c.zoom_percent, 90);
    assert!(!c.apply(Command::OpenFile));
    assert!(!c.apply(Command::OpenFind));
    assert!(!c.apply(Command::CloseFind));
    assert_eq!(c.zoom_percent, 90);
}
