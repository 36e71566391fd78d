use fsearch::health::{
    cache_health, cleanup_names, enter_root, extracted_cache, removal, Cleanup, Health, OnDisk,
    Removal, RootHealth, CLEANUP_REFUSED, MAX_COUNTED,
};
use fsearch::session::{session_text, SessionState};

fn report() -> Health {
    Health {
        roots: vec![
            RootHealth { path: "/r".to_string(), readable: true },
            RootHealth { path: "/gone".to_string(), readable: false },
        ],
        path_index: cache_health("/c/index.bin".to_string(), Some(3), Some((2048, Some(9)))),
        semantic_index: cache_health("/c/semantic.bin".to_string(), None, None),
        semantic_chunks: None,
        extracted_caches: vec![extracted_cache(
            "/c/pdftext".to_string(),
            &vec![Some(1000), None, Some(500)],
        )],
        semantic_feature: false,
        chafa_feature: true,
        remember_history: true,
    }
}

#[test]
fn reports_name_states_and_sizes() {
    let text = report().text();
    assert!(text.starts_with("semantic feature: false\nchafa feature: true\nhistory enabled: true\n"));
    assert!(text.contains("root: /r (readable)\n"));
    assert!(text.contains("root: /gone (missing or unreadable)\n"));
    assert!(text.contains("path index: valid — /c/index.bin\n  3 entries, 2.0 KB, age 9s\n"));
    assert!(text.contains(
        "semantic index: missing — /c/semantic.bin\n  unknown entries, 0 B, age unknown\n"
    ));
    assert!(text.contains("extracted cache: /c/pdftext — 2 files, 1.5 KB\n"));
    assert!(text.contains("live updates: not running"));
}

#[test]
fn unreadable_caches_are_invalid() {
    let cache = cache_health("/c".to_string(), None, Some((5, None)));
    assert_eq!(cache.state, "invalid");
    assert_eq!(cache.bytes, 5);
    let many = extracted_cache("/c".to_string(), &vec![Some(u64::MAX); MAX_COUNTED + 1]);
    assert!(many.truncated);
    assert_eq!(many.files, MAX_COUNTED);
    assert_eq!(many.bytes, u64::MAX);
}

/// Cleans a directory up; how many entries went.
fn clear_cache(disk: &mut Vec<(&str, OnDisk)>) -> usize {
    let mut cleanup = Cleanup::new(false);
    while let Some(name) = cleanup.name() {
        let found = disk.iter().find(|e| e.0 == name).map_or(OnDisk::Missing, |e| e.1);
        if cleanup.found(found) != Removal::Skip {
            disk.retain(|e| e.0 != name);
        }
    }
    cleanup.removed()
}

#[test]
fn cleanup_is_scoped_and_idempotent() {
    let mut disk = vec![
        ("index.bin", OnDisk::Other),
        ("semantic.bin", OnDisk::Other),
        ("config.toml", OnDisk::Other),
        ("notes.txt", OnDisk::Other),
        ("models", OnDisk::Directory),
    ];
    assert_eq!(clear_cache(&mut disk), 2);
    assert_eq!(clear_cache(&mut disk), 0);
    assert_eq!(disk.len(), 3);
    for name in ["models", "notes.txt", "config.toml"] {
        assert!(disk.iter().any(|e| e.0 == name));
    }
}

#[test]
fn cleanups_look_at_their_own_names_only() {
    let names = cleanup_names(false);
    assert_eq!(names, ["index.bin", "semantic.bin", "pdftext", "officetext"]);
    assert_eq!(cleanup_names(true), ["history", "queries", "session.toml"]);
    assert_eq!(removal(OnDisk::Missing), Removal::Skip);
    assert_eq!(removal(OnDisk::Directory), Removal::Tree);
    assert_eq!(removal(OnDisk::Other), Removal::Entry);
}

#[test]
fn cleanup_does_not_follow_links() {
    assert_eq!(removal(OnDisk::Link), Removal::Entry);
    assert_eq!(enter_root(OnDisk::Link), Err(CLEANUP_REFUSED));
    assert_eq!(enter_root(OnDisk::Other), Err(CLEANUP_REFUSED));
    assert_eq!(enter_root(OnDisk::Missing), Ok(false));
    assert_eq!(enter_root(OnDisk::Directory), Ok(true));
}

#[test]
fn save_then_load_round_trips() {
    let text = session_text("full", "compact");
    assert_eq!(text, "preview_layout = \"full\"\ndensity = \"compact\"\n");
    let table: toml::Table = text.parse().unwrap();
    assert_eq!(table["preview_layout"].as_str(), Some("full"));
    assert_eq!(table["density"].as_str(), Some("compact"));
}

#[test]
fn session_missing_file_is_empty() {
    let state = SessionState::default();
    assert_eq!(state.preview_layout, None);
    assert_eq!(state.density, None);
}

#[test]
fn a_second_cleanup_removes_nothing() {
    let mut disk = vec![
        ("index.bin", OnDisk::Other),
        ("notes.txt", OnDisk::Other),
        ("pdftext", OnDisk::Directory),
    ];
    assert_eq!(clear_cache(&mut disk), 2);
    assert_eq!(clear_cache(&mut disk), 0);
    assert_eq!(disk.len(), 1);
    assert_eq!(Cleanup::new(true).name(), Some("history"));
}
