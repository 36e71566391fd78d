use fsearch::engine::Msg;
use fsearch::excludes::build_exclude_set;
use fsearch::walker::{sort_unique_entries, Entry, FileMeta};
use fsearch::watch::{
    disjoint_paths, next_snapshot, unwatched_message, watches_some, Observation, Progress, Saver,
    Touched, WatchBatch, WatchEvent,
};

#[test]
fn index_entries_are_unique_and_mtime_ties_use_path_order() {
    let mut entries = vec![
        ("/b".into(), FileMeta { mtime: 10, size: 1 }),
        ("/a".into(), FileMeta { mtime: 10, size: 1 }),
        ("/b".into(), FileMeta { mtime: 5, size: 1 }),
        ("/new".into(), FileMeta { mtime: 20, size: 1 }),
    ];
    sort_unique_entries(&mut entries);
    assert_eq!(
        entries
            .iter()
            .map(|(path, _)| path.as_str())
            .collect::<Vec<_>>(),
        ["/new", "/a", "/b"]
    );
    assert_eq!(entries[2].1.mtime, 10);
}

fn meta(mtime: i64) -> FileMeta {
    FileMeta { mtime, size: 1 }
}

fn paths(entries: &[Entry]) -> Vec<&str> {
    entries.iter().map(|(path, _)| path.as_str()).collect()
}

fn change(rescan: bool, access: bool, paths: &[&str]) -> WatchEvent {
    WatchEvent::Change { rescan, access, paths: paths.iter().map(|p| p.to_string()).collect() }
}

#[test]
fn watcher_ignores_access_events() {
    let mut batch = WatchBatch::default();
    batch.absorb(change(false, true, &["/d/read.txt"]));
    assert!(batch.touched.is_empty());
    assert!(!batch.rescan);
    assert!(next_snapshot(Vec::new(), &Vec::new(), false).is_none());
}

#[test]
fn watcher_rescan_and_errors_rebuild_configured_roots() {
    for failure in [false, true] {
        let mut batch = WatchBatch::default();
        if failure {
            batch.absorb(WatchEvent::Failure { error: "lost event stream".to_string() });
        } else {
            batch.absorb(change(true, false, &[]));
        }
        assert!(batch.rescan);
        assert_eq!(
            batch.errors.iter().any(|e| e.contains("lost event stream")),
            failure
        );
        // a fresh walk replaces what was known
        let walked = vec![("/d/nested/new.txt".to_string(), meta(1))];
        let next = next_snapshot(walked, &Vec::new(), true).unwrap();
        assert_eq!(paths(&next), ["/d/nested/new.txt"]);
    }
}

#[test]
fn watcher_sorts_real_mtimes_and_deduplicates_overlapping_events() {
    let current = vec![("/r/newest.txt".to_string(), meta(300))];
    let sub = || Touched {
        path: "/r/sub".to_string(),
        seen: Observation::Dir {
            meta: meta(200),
            root: false,
            children: vec![("/r/sub/old.txt".to_string(), meta(100))],
        },
    };
    let old = || Touched {
        path: "/r/sub/old.txt".to_string(),
        seen: Observation::File { meta: meta(100) },
    };
    let next = next_snapshot(current, &vec![sub(), old(), sub(), old()], false).unwrap();
    assert_eq!(next.len(), 3);
    assert_eq!(
        next.iter().map(|(_, meta)| meta.mtime).collect::<Vec<_>>(),
        [300, 200, 100]
    );
    assert_eq!(
        disjoint_paths(vec![
            "/r/sub".to_string(),
            "/r/sub/child".to_string(),
            "/r/sub".to_string()
        ]),
        vec!["/r/sub"]
    );
}

#[test]
fn watcher_root_refresh_does_not_add_root_itself() {
    let touched = vec![Touched {
        path: "/root".to_string(),
        seen: Observation::Dir {
            meta: meta(1),
            root: true,
            children: vec![("/root/child.txt".to_string(), meta(1))],
        },
    }];
    let next = next_snapshot(Vec::new(), &touched, false).unwrap();
    assert_eq!(next.len(), 1);
}

#[test]
fn watch_loop_prunes_children_of_dir_replaced_by_file() {
    let current = vec![
        ("/d/thing/".to_string(), FileMeta::default()),
        ("/d/thing/old-child.txt".to_string(), FileMeta::default()),
        ("/d/keeper.txt".to_string(), FileMeta::default()),
    ];
    // deleted and replaced by a same-named file inside one burst
    let touched = vec![Touched {
        path: "/d/thing".to_string(),
        seen: Observation::File { meta: meta(5) },
    }];
    let next = next_snapshot(current, &touched, false).unwrap();
    let paths = paths(&next);
    // only the replacement file survives from the old subtree, plus the
    // untouched sibling
    assert_eq!(paths.len(), 2);
    assert!(paths.contains(&"/d/thing"));
    assert!(paths.contains(&"/d/keeper.txt"));
}

#[test]
fn watch_loop_recreated_dir_replaces_stale_subtree() {
    let current = vec![
        ("/d/proj/".to_string(), FileMeta::default()),
        ("/d/proj/old/gone.txt".to_string(), FileMeta::default()),
    ];
    // recreated with different contents inside one burst
    let touched = vec![Touched {
        path: "/d/proj".to_string(),
        seen: Observation::Dir {
            meta: meta(2),
            root: false,
            children: vec![("/d/proj/fresh.txt".to_string(), meta(3))],
        },
    }];
    let next = next_snapshot(current, &touched, false).unwrap();
    let mut sorted = paths(&next);
    sorted.sort();
    assert_eq!(sorted, vec!["/d/proj/", "/d/proj/fresh.txt"]);
}

#[test]
fn vanished_paths_leave_the_index() {
    let current = vec![
        ("/d/a.txt".to_string(), meta(1)),
        ("/d/b.txt".to_string(), meta(2)),
    ];
    let touched = vec![
        Touched { path: "/d/a.txt".to_string(), seen: Observation::Gone },
        Touched { path: "/d/x".to_string(), seen: Observation::Gone },
    ];
    let next = next_snapshot(current, &touched, false).unwrap();
    assert_eq!(paths(&next), ["/d/b.txt"]);
}

#[test]
fn progress_is_rationed() {
    let mut progress = Progress::new(Some(9000), 0);
    for _ in 0..8191 {
        assert!(progress.found(1_000_000).is_none());
    }
    let Some(Msg::IndexProgress { count, expected }) = progress.found(251) else {
        panic!("progress is due");
    };
    assert_eq!((count, expected), (8192, Some(9000)));
    for _ in 0..8191 {
        assert!(progress.found(1_000_000).is_none());
    }
    // too soon after the last report
    assert!(progress.found(501).is_none());
    assert_eq!(unwatched_message(1), "live updates unavailable for 1 root");
    assert_eq!(unwatched_message(2), "live updates unavailable for 2 roots");
}

#[test]
fn snapshots_of_others_are_not_overwritten() {
    let mut saver = Saver::new(0, Some((5, 0)));
    assert!(!saver.is_due(59_999));
    assert!(saver.is_due(60_000));
    assert!(!saver.is_due(60_001));
    assert!(saver.may_write(Some((5, 0))));
    assert!(!saver.may_write(Some((6, 0))));
    assert!(!saver.may_write(None));
    saver.written(Some((6, 0)));
    assert!(saver.may_write(Some((6, 0))));
}

#[test]
fn batches_look_at_the_topmost_paths_that_are_indexed() {
    let excludes = build_exclude_set(&vec!["node_modules".to_string()]).unwrap();
    let mut batch = WatchBatch::default();
    batch.absorb(WatchEvent::Change {
        rescan: false,
        access: false,
        paths: ["/a/b", "/a", "/c/node_modules", "/c/node_modules/x.js", "/d"]
            .iter()
            .map(|p| p.to_string())
            .collect(),
    });
    assert_eq!(batch.to_look_at(&excludes), vec!["/a", "/d"]);
    let mut batch = WatchBatch::default();
    batch.absorb(WatchEvent::Change {
        rescan: true,
        access: false,
        paths: vec!["/a".to_string()],
    });
    assert!(batch.to_look_at(&excludes).is_empty());
}

#[test]
fn excludes_match_names_and_what_is_below() {
    let names: Vec<String> =
        [".git", "Library/Mobile Documents", "*.tmp"].iter().map(|s| s.to_string()).collect();
    let excludes = build_exclude_set(&names).unwrap();
    assert!(excludes.is_match("/home/me/p/.git"));
    assert!(excludes.is_match("/home/me/p/.git/config"));
    assert!(excludes.is_match("/home/me/Library/Mobile Documents/x"));
    assert!(excludes.is_match("/a/b.tmp"));
    assert!(!excludes.is_match("/home/me/p/.gitignore"));
    let paths: Vec<String> = ["/a/b.tmp", "/a/b"].iter().map(|s| s.to_string()).collect();
    assert_eq!(excludes.kept(&paths), vec!["/a/b"]);
    assert!(build_exclude_set(&vec!["[".to_string()]).is_err());
}

#[test]
fn the_empty_path_comes_first() {
    let disjoint = |paths: &[&str]| disjoint_paths(paths.iter().map(|p| p.to_string()).collect());
    assert_eq!(disjoint(&["/a", ""]), ["", "/a"]);
    assert_eq!(disjoint(&["b", "/a", "", "/a/c", "."]), ["", "/a"]);
    assert_eq!(disjoint(&["b", "..", "/a", "."]), ["/a", ".", "..", "b"]);
}

#[test]
fn watchers_of_nothing_are_dropped() {
    assert!(watches_some(0, 1));
    assert!(watches_some(1, 2));
    assert!(!watches_some(2, 2));
    assert!(!watches_some(0, 0));
}
