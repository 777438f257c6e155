use std::sync::Arc;

use safemask::clip::AppEvents;
use safemask::clip::ClipDecision;
use safemask::clip::ClipboardCoordinator;
use safemask::clip::MaskHistory;
use safemask::clip::MaskHistoryItem;
use safemask::engine::MaskEngine;
use safemask::registry::EngineRegistry;
use safemask::rules::Rule;

fn rule(name: &str, pattern: &str, mask: &str, priority: i32) -> Rule {
    Rule {
        name: name.to_string(),
        pattern: pattern.to_string(),
        mask: mask.to_string(),
        priority,
        enabled: true,
        is_custom: false,
    }
}

fn item(n: u32) -> MaskHistoryItem {
    MaskHistoryItem {
        id: n.to_string(),
        timestamp: "00:00:00".to_string(),
        original: format!("orig {}", n),
        masked: format!("masked {}", n),
    }
}

#[test]
fn history_inserts_newest_first() {
    let mut h = MaskHistory::new();
    h.add_history(item(1));
    h.add_history(item(2));
    let all = h.get_history();
    assert_eq!(all.len(), 2);
    assert_eq!(all[0].id, "2");
    assert_eq!(all[1].id, "1");
}

#[test]
fn history_evicts_oldest_at_cap() {
    let mut h = MaskHistory::new();
    for n in 0..60 {
        h.add_history(item(n));
    }
    let all = h.get_history();
    assert_eq!(all.len(), 50);
    assert_eq!(all[0].id, "59");
    assert_eq!(all[49].id, "10");
}

#[test]
fn history_clear_empties() {
    let mut h = MaskHistory::new();
    h.add_history(item(1));
    h.clear();
    assert!(h.get_history().is_empty());
}

#[test]
fn coordinator_ignores_when_monitor_off() {
    let mut c = ClipboardCoordinator::new();
    c.set_monitor(false);
    let d = c.decide(&b"text".to_vec(), &b"masked".to_vec());
    assert!(matches!(d, ClipDecision::Ignore));
}

#[test]
fn coordinator_ignores_own_write_back() {
    let mut c = ClipboardCoordinator::new();
    c.begin_write_back(&b"masked".to_vec());
    let d = c.decide(&b"masked".to_vec(), &b"masked2".to_vec());
    assert!(matches!(d, ClipDecision::Ignore));
    c.end_write_back();
    let d = c.decide(&b"fresh secret".to_vec(), &b"fresh <X>".to_vec());
    assert!(matches!(d, ClipDecision::WriteBack));
}

#[test]
fn coordinator_ignores_blank_and_oversized() {
    let c = ClipboardCoordinator::new();
    assert!(matches!(c.decide(&b"  \t\r\n".to_vec(), &b"x".to_vec()), ClipDecision::Ignore));
    assert!(matches!(c.decide(&b"".to_vec(), &b"".to_vec()), ClipDecision::Ignore));
    let huge = vec![b'a'; 2 * 1024 * 1024 + 1];
    assert!(matches!(c.decide(&huge, &huge.clone()), ClipDecision::Ignore));
}

#[test]
fn coordinator_reports_clean_when_unchanged() {
    let c = ClipboardCoordinator::new();
    let d = c.decide(&b"nothing".to_vec(), &b"nothing".to_vec());
    assert!(matches!(d, ClipDecision::Clean));
}

#[test]
fn coordinator_skips_duplicate_polls() {
    let mut c = ClipboardCoordinator::new();
    assert!(c.should_process(&b"hello".to_vec()));
    c.note_manual_copy(b"hello".to_vec());
    assert!(!c.should_process(&b"hello".to_vec()));
    assert!(c.should_process(&b"other".to_vec()));
    assert!(!c.should_process(&b"".to_vec()));
}

#[test]
fn event_names_are_stable() {
    assert_eq!(AppEvents::file_progress(), "file-progress");
    assert_eq!(AppEvents::masked_event(), "masked-event");
    assert_eq!(AppEvents::new_history(), "new-history");
    assert_eq!(AppEvents::request_close(), "request-close");
}

#[test]
fn hot_reload_keeps_old_snapshots() {
    let r1 = MaskEngine::new(vec![rule("k", "secret", "<ONE>", 0)]);
    let r2 = MaskEngine::new(vec![rule("k", "secret", "<TWO>", 0)]);
    let mut registry = EngineRegistry::new(r1);
    let before: Arc<MaskEngine> = registry.snapshot();
    registry.replace(r2);
    let after: Arc<MaskEngine> = registry.snapshot();
    // the old snapshot still masks with the first rule set
    assert_eq!(before.mask_line(b"a secret"), b"a <ONE>".to_vec());
    // new snapshots see the replacement
    assert_eq!(after.mask_line(b"a secret"), b"a <TWO>".to_vec());
}
