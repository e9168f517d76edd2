use bootkit::ChangeWatcher;
use bootkit::SnapshotStore;
use bootkit::WatchAction;
use bootkit::WatchEvent;

#[test]
fn one_reload_per_observed_modification() {
    let mut w = ChangeWatcher::new();
    assert!(w.alive());
    assert!(matches!(w.on_event(WatchEvent::Modified), WatchAction::Reload));
    assert!(matches!(w.on_event(WatchEvent::Modified), WatchAction::Reload));
    assert!(matches!(w.on_event(WatchEvent::Other), WatchAction::Ignore));
    assert!(w.alive());
}

#[test]
fn termination_degrades_without_stopping() {
    let mut w = ChangeWatcher::new();
    assert!(matches!(w.on_event(WatchEvent::Terminated), WatchAction::ReportFailure));
    assert!(!w.alive());
    // after the watch died everything is ignored, reported once only
    assert!(matches!(w.on_event(WatchEvent::Modified), WatchAction::Ignore));
    assert!(matches!(w.on_event(WatchEvent::Terminated), WatchAction::Ignore));
}

#[test]
fn store_initialize_is_idempotent() {
    let mut store = SnapshotStore::new();
    assert_eq!(store.len(), 0);
    store.initialize(String::from("GRUB_DEFAULT=0\n"), 10);
    assert_eq!(store.len(), 1);
    store.initialize(String::from("GRUB_DEFAULT=9\n"), 11);
    assert_eq!(store.len(), 1);
    let latest = store.latest().unwrap();
    assert_eq!(latest.id, 1);
    assert_eq!(latest.document_text, "GRUB_DEFAULT=0\n");
    assert_eq!(latest.created_at, 10);
}

#[test]
fn store_append_assigns_increasing_ids() {
    let mut store = SnapshotStore::new();
    store.initialize(String::from("a=1"), 1);
    let b = store.append(String::from("a=2"), None, 2);
    let c = store.append(String::from("a=3"), Some(String::from("vmlinuz-default")), 3);
    assert_eq!(b, 2);
    assert_eq!(c, 3);
    let latest = store.latest().unwrap();
    assert_eq!(latest.document_text, "a=3");
    assert_eq!(latest.selected_kernel.as_deref(), Some("vmlinuz-default"));
}
