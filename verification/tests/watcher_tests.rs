use amata::watcher::{compute_hash, FileMeta, FileWatcher};
use std::path::PathBuf;
use std::time::{Duration, Instant};

#[test]
fn test_adaptive_verify_interval() {
    let mut watcher = FileWatcher::new(PathBuf::from("dummy.svg"));
    assert_eq!(
        Duration::from_millis(watcher.effective_verify_interval()),
        Duration::from_millis(1000)
    );

    // Medium file: 5MB
    watcher.last_file_size = 5 * 1024 * 1024;
    assert_eq!(
        Duration::from_millis(watcher.effective_verify_interval()),
        Duration::from_millis(3000)
    );

    // Large file: 20MB
    watcher.last_file_size = 20 * 1024 * 1024;
    assert_eq!(
        Duration::from_millis(watcher.effective_verify_interval()),
        Duration::from_millis(5000)
    );

    // Very large file: 50MB
    watcher.last_file_size = 50 * 1024 * 1024;
    assert_eq!(
        Duration::from_millis(watcher.effective_verify_interval()),
        Duration::from_millis(10000)
    );

    // Explicit override respects custom setting
    watcher.set_periodic_verify_interval(250);
    assert_eq!(
        Duration::from_millis(watcher.effective_verify_interval()),
        Duration::from_millis(250)
    );
}

fn meta(len: u64, modified: i128) -> FileMeta {
    FileMeta { modified: Some(modified), len }
}

const SVG_A: &str = "<svg xmlns=\"http://www.w3.org/2000/svg\"><rect/></svg>";
const SVG_B: &str = "<svg xmlns=\"http://www.w3.org/2000/svg\"><circle/></svg>";

#[test]
fn hash_depends_on_content() {
    assert_eq!(compute_hash(SVG_A), compute_hash(SVG_A));
    assert_ne!(compute_hash(SVG_A), compute_hash(SVG_B));
}

#[test]
fn complete_new_content_is_reported() {
    let mut w = FileWatcher::new(PathBuf::from("a.svg"));
    w.mark_saved(SVG_A, Some(meta(SVG_A.len() as u64, 1)));
    assert!(!w.has_external_change);
    assert_eq!(w.last_content_hash, compute_hash(SVG_A));
    assert_eq!(w.last_file_size, SVG_A.len() as u64);
    let m = meta(SVG_B.len() as u64, 2);
    let got = w.observe_content(&m, SVG_B.to_string(), compute_hash(SVG_B), 0, Instant::now());
    assert_eq!(got.as_deref(), Some(SVG_B));
    assert!(w.has_external_change);
    assert_eq!(w.last_modified, Some(2));
    assert_eq!(w.last_file_size, SVG_B.len() as u64);
    assert_eq!(w.last_content_hash, compute_hash(SVG_B));
    assert!(w.pending_invalid_last_change.is_none());
}

#[test]
fn reported_text_is_not_reported_again() {
    let mut w = FileWatcher::new(PathBuf::from("a.svg"));
    w.mark_saved(SVG_A, Some(meta(SVG_A.len() as u64, 1)));
    let m = meta(SVG_B.len() as u64, 2);
    assert!(w.check_for_changes(&m, Some(SVG_B.to_string())));
    w.set_periodic_verify_interval(0);
    let again = w.observe_content(&m, SVG_B.to_string(), compute_hash(SVG_B), 10_000, Instant::now());
    assert_eq!(again, None);
}

#[test]
fn own_write_is_not_an_external_change() {
    let mut w = FileWatcher::new(PathBuf::from("a.svg"));
    w.mark_saved(SVG_A, None);
    let m = meta(SVG_A.len() as u64, 5);
    assert_eq!(w.observe_content(&m, SVG_A.to_string(), compute_hash(SVG_A), 0, Instant::now()), None);
    assert!(!w.has_external_change);
}

#[test]
fn incomplete_write_is_deferred_until_idle() {
    let mut w = FileWatcher::new(PathBuf::from("a.svg"));
    w.mark_saved(SVG_A, None);
    let partial = "<svg xmlns=\"http://www.w3.org/2000/svg\"><rect";
    let h = compute_hash(partial);
    let m = meta(partial.len() as u64, 3);
    // First sight: the idle clock starts.
    assert_eq!(w.observe_content(&m, partial.to_string(), h, 0, Instant::now()), None);
    assert!(w.pending_invalid_last_change.is_some());
    assert_eq!(w.pending_invalid_last_hash, h);
    // Same text, not idle long enough.
    assert_eq!(w.observe_content(&m, partial.to_string(), h, 499, Instant::now()), None);
    assert!(!w.has_external_change);
    // Same text, idle past the timeout: handed over so the error shows.
    assert_eq!(w.observe_content(&m, partial.to_string(), h, 500, Instant::now()).as_deref(), Some(partial));
    assert!(w.has_external_change);
}

#[test]
fn empty_file_is_treated_as_incomplete() {
    let mut w = FileWatcher::new(PathBuf::from("a.svg"));
    w.mark_saved(SVG_A, None);
    let h = compute_hash("  \n");
    assert_eq!(w.observe_content(&meta(3, 1), "  \n".to_string(), h, 0, Instant::now()), None);
    assert!(w.pending_invalid_last_change.is_some());
}

#[test]
fn self_closing_root_is_complete() {
    let mut w = FileWatcher::new(PathBuf::from("a.svg"));
    w.mark_saved(SVG_A, None);
    let text = "  <svg width=\"1\"/>\n";
    let got = w.observe_content(&meta(19, 1), text.to_string(), compute_hash(text), 0, Instant::now());
    assert_eq!(got.as_deref(), Some(text));
    // A `>` inside the root tag means it is not a lone self-closing root.
    let mut w2 = FileWatcher::new(PathBuf::from("a.svg"));
    w2.mark_saved(SVG_A, None);
    let text2 = "<svg><g/>";
    assert_eq!(w2.observe_content(&meta(9, 1), text2.to_string(), compute_hash(text2), 0, Instant::now()), None);
}

#[test]
fn check_for_changes_sees_new_size() {
    let mut w = FileWatcher::new(PathBuf::from("a.svg"));
    w.mark_saved(SVG_A, Some(meta(SVG_A.len() as u64, 1)));
    let changed = w.check_for_changes(&meta(SVG_B.len() as u64, 2), Some(SVG_B.to_string()));
    assert!(changed);
    assert!(w.has_external_change);
    w.update_timestamp(Some(meta(SVG_B.len() as u64, 2)), Some(SVG_B));
    assert!(!w.has_external_change);
    assert_eq!(w.last_content_hash, compute_hash(SVG_B));
    let again = w.check_for_external_content(&meta(SVG_B.len() as u64, 2), Some(SVG_B.to_string()));
    assert_eq!(again, None);
}

#[test]
fn new_watcher_defaults() {
    let w = FileWatcher::new(PathBuf::from("x.svg"));
    assert_eq!(w.debounce_duration, 50);
    assert_eq!(w.partial_write_timeout, 500);
    assert_eq!(w.periodic_verify_interval, 1000);
    assert_eq!(w.last_content_hash, 0);
    let mut w = w;
    w.set_partial_write_timeout(900);
    assert_eq!(w.partial_write_timeout, 900);
}
