use bootkit::BootEntry;
use bootkit::BootKitConfig;
use bootkit::BootKitSnapshots;
use bootkit::ConfigError;
use bootkit::ConfigService;
use bootkit::MenuEntry;
use bootkit::ServiceState;

fn menu() -> Vec<MenuEntry> {
    vec![
        MenuEntry { title: String::from("openSUSE"), identifier: String::from("opensuse") },
        MenuEntry { title: String::from("Recovery"), identifier: String::from("recovery") },
    ]
}

#[test]
fn scenario_bootstrap_then_write() {
    let mut svc = ConfigService::new("GRUB_DEFAULT=0\nGRUB_TIMEOUT=5\n", 100).unwrap();
    assert_eq!(svc.latest_snapshot().id, 1);
    assert_eq!(svc.latest_snapshot().document_text, "GRUB_DEFAULT=0\nGRUB_TIMEOUT=5\n");
    assert_eq!(svc.notifications(), 0);

    let id = svc.write("GRUB_DEFAULT=0\nGRUB_TIMEOUT=10\n", 101).unwrap();
    assert_eq!(id, 2);
    assert_eq!(svc.read(), "GRUB_DEFAULT=0\nGRUB_TIMEOUT=10\n");
    assert_eq!(svc.latest_snapshot().id, 2);
    assert_eq!(svc.latest_snapshot().document_text, "GRUB_DEFAULT=0\nGRUB_TIMEOUT=10\n");
    assert_eq!(svc.latest_snapshot().created_at, 101);
    assert_eq!(svc.notifications(), 1);
    assert_eq!(svc.state(), ServiceState::Clean);
}

#[test]
fn bootstrap_rejects_unparseable_file() {
    let r = ConfigService::new("GRUB_X=\"broken\n", 1);
    assert!(matches!(r, Err(ConfigError::ParseError)));
}

#[test]
fn failed_write_changes_nothing() {
    let mut svc = ConfigService::new("GRUB_DEFAULT=0\n", 1).unwrap();
    let r = svc.write("GRUB_X=\"broken\n", 2);
    assert!(matches!(r, Err(ConfigError::ParseError)));
    assert_eq!(svc.read(), "GRUB_DEFAULT=0\n");
    assert_eq!(svc.latest_snapshot().id, 1);
    assert_eq!(svc.notifications(), 0);
    assert_eq!(svc.state(), ServiceState::Clean);
}

#[test]
fn three_writes_append_three_monotonic_snapshots() {
    let mut svc = ConfigService::new("GRUB_DEFAULT=0\n", 1).unwrap();
    let a = svc.write("GRUB_DEFAULT=1\n", 2).unwrap();
    let b = svc.write("GRUB_DEFAULT=2\n", 3).unwrap();
    let c = svc.write("GRUB_DEFAULT=3\n", 4).unwrap();
    assert!(a < b && b < c);
    let rows = BootKitSnapshots::get_snapshots(&svc);
    assert_eq!(rows.len(), 4);
    for w in rows.windows(2) {
        assert!(w[0].id < w[1].id);
    }
    assert_eq!(svc.latest_snapshot().document_text, "GRUB_DEFAULT=3\n");
    assert_eq!(svc.read(), "GRUB_DEFAULT=3\n");
    assert_eq!(svc.notifications(), 3);
}

#[test]
fn scenario_external_overwrite_reload() {
    let mut svc = ConfigService::new("GRUB_DEFAULT=0\n", 1).unwrap();
    let before = svc.notifications();
    svc.reload("GRUB_DEFAULT=1\n").unwrap();
    assert_eq!(svc.read(), "GRUB_DEFAULT=1\n");
    assert_eq!(svc.notifications(), before + 1);
    // reload never appends to the historical log
    assert_eq!(svc.latest_snapshot().id, 1);
    assert_eq!(svc.state(), ServiceState::Clean);
}

#[test]
fn reload_keeps_last_known_good_on_parse_error() {
    let mut svc = ConfigService::new("GRUB_DEFAULT=0\n", 1).unwrap();
    let r = svc.reload("GRUB_X='broken\n");
    assert!(matches!(r, Err(ConfigError::ParseError)));
    assert_eq!(svc.read(), "GRUB_DEFAULT=0\n");
    assert_eq!(svc.notifications(), 0);
}

#[test]
fn begin_and_abort_roll_back() {
    let mut svc = ConfigService::new("GRUB_DEFAULT=0\n", 1).unwrap();
    let staged = svc.begin_write("GRUB_DEFAULT=5\n").unwrap();
    assert_eq!(staged, "GRUB_DEFAULT=5\n");
    assert_eq!(svc.state(), ServiceState::Dirty);
    svc.abort_write();
    assert_eq!(svc.state(), ServiceState::Clean);
    assert_eq!(svc.read(), "GRUB_DEFAULT=0\n");
    assert_eq!(svc.latest_snapshot().id, 1);
    assert_eq!(svc.notifications(), 0);
}

#[test]
fn begin_and_commit_append_snapshot() {
    let mut svc = ConfigService::new("GRUB_DEFAULT=0\n", 1).unwrap();
    svc.begin_write("GRUB_DEFAULT=5\n").unwrap();
    let id = svc.commit_write(7);
    assert_eq!(id, 2);
    assert_eq!(svc.state(), ServiceState::Clean);
    assert_eq!(svc.read(), "GRUB_DEFAULT=5\n");
    assert_eq!(svc.latest_snapshot().document_text, "GRUB_DEFAULT=5\n");
    assert_eq!(svc.notifications(), 1);
}

#[test]
fn config_facade_reads_and_writes() {
    let mut svc = ConfigService::new("GRUB_DEFAULT=0\n", 1).unwrap();
    assert_eq!(BootKitConfig::get_config(&svc), "GRUB_DEFAULT=0\n");
    BootKitConfig::save_config(&mut svc, "GRUB_DEFAULT=2\n", 2).unwrap();
    assert_eq!(BootKitConfig::get_config(&svc), "GRUB_DEFAULT=2\n");
}

#[test]
fn entries_mark_the_default() {
    let svc = ConfigService::new("GRUB_DEFAULT=recovery\n", 1).unwrap();
    let entries = BootEntry::get_entries(svc.document(), &menu());
    assert_eq!(entries.len(), 2);
    assert_eq!(entries[0].title, "openSUSE");
    assert_eq!(entries[0].identifier, "opensuse");
    assert!(!entries[0].is_default);
    assert!(entries[1].is_default);
}

#[test]
fn select_entry_sets_default_and_snapshots() {
    let mut svc = ConfigService::new("GRUB_DEFAULT=opensuse\nGRUB_TIMEOUT=5\n", 1).unwrap();
    let id = svc.select_entry(&menu(), 1, 2).unwrap();
    assert_eq!(id, 2);
    assert_eq!(svc.read(), "GRUB_DEFAULT=recovery\nGRUB_TIMEOUT=5\n");
    let entries = BootEntry::get_entries(svc.document(), &menu());
    assert!(entries[1].is_default && !entries[0].is_default);
    assert_eq!(svc.notifications(), 1);

    let r = svc.select_entry(&menu(), 9, 3);
    assert!(matches!(r, Err(ConfigError::NotFound)));
    assert_eq!(svc.latest_snapshot().id, 2);
}

#[test]
fn remove_entry_drops_backing_line() {
    let mut svc = ConfigService::new("opensuse\nGRUB_TIMEOUT=5\n", 1).unwrap();
    let id = svc.remove_entry(&menu(), 0, 2).unwrap();
    assert_eq!(id, 2);
    assert_eq!(svc.read(), "GRUB_TIMEOUT=5\n");
    assert_eq!(svc.latest_snapshot().document_text, "GRUB_TIMEOUT=5\n");
    assert_eq!(svc.notifications(), 1);
}

#[test]
fn remove_entry_without_backing_line_still_writes() {
    let mut svc = ConfigService::new("GRUB_TIMEOUT=5\n", 1).unwrap();
    let id = svc.remove_entry(&menu(), 0, 2).unwrap();
    assert_eq!(id, 2);
    assert_eq!(svc.read(), "GRUB_TIMEOUT=5\n");
    assert_eq!(svc.notifications(), 1);
}

#[test]
fn select_snapshot_restores_old_text() {
    let mut svc = ConfigService::new("GRUB_DEFAULT=0\n", 1).unwrap();
    svc.write("GRUB_DEFAULT=1\n", 2).unwrap();
    let id = BootKitSnapshots::select_snapshot(&mut svc, 1, 3).unwrap();
    assert_eq!(id, 3);
    assert_eq!(svc.read(), "GRUB_DEFAULT=0\n");
    assert_eq!(svc.latest_snapshot().document_text, "GRUB_DEFAULT=0\n");

    let r = BootKitSnapshots::select_snapshot(&mut svc, 99, 4);
    assert!(matches!(r, Err(ConfigError::NotFound)));
}

#[test]
fn remove_snapshot_never_empties_the_log() {
    let mut svc = ConfigService::new("GRUB_DEFAULT=0\n", 1).unwrap();
    let r = BootKitSnapshots::remove_snapshot(&mut svc, 1);
    assert!(matches!(r, Err(ConfigError::PersistenceError)));

    svc.write("GRUB_DEFAULT=1\n", 2).unwrap();
    let r2 = BootKitSnapshots::remove_snapshot(&mut svc, 99);
    assert!(matches!(r2, Err(ConfigError::NotFound)));

    BootKitSnapshots::remove_snapshot(&mut svc, 1).unwrap();
    let rows = BootKitSnapshots::get_snapshots(&svc);
    assert_eq!(rows.len(), 1);
    assert_eq!(rows[0].id, 2);
    assert_eq!(svc.latest_snapshot().id, 2);
}
