use fsearch::actions::{
    absolute_path, clipboard_commands, expand_args, expand_args_with_line, first_step,
    has_paths_placeholder, next_step, open_args, quick_look_args, reveal_args, source_name,
    trash_args, Platform, SourceKind, TransferKind, TransferOutcome, TransferResult,
    TransferStep,
};

#[test]
fn inserted_placeholders_stay_literal_and_line_is_additive() {
    let path = "/tmp/{dir}/{paths}-{path}-{line}.txt";
    let cmd = vec!["{path}:{dir}:{line}".to_string(), "{paths}:{line}".to_string()];
    assert_eq!(
        expand_args_with_line(&cmd, path, &vec![path.to_string()], Some(42), None),
        vec![format!("{path}:/tmp/{{dir}}:42"), format!("{path}:42")]
    );
    assert_eq!(expand_args(&vec!["+{line}".to_string()], path, &vec![], None), ["+1"]);
}

#[test]
fn custom_placeholders_expand_without_shell_joining() {
    let cmd = vec![
        "editor".to_string(),
        "--file={path}".to_string(),
        "{dir}".to_string(),
        "{paths}".to_string(),
        "--marked={paths}".to_string(),
    ];
    let paths = vec!["/tmp/one file.rs".to_string(), "/tmp/two.rs".to_string()];
    assert_eq!(
        expand_args(&cmd, "/tmp/one file.rs", &paths, None),
        vec![
            "editor",
            "--file=/tmp/one file.rs",
            "/tmp",
            "/tmp/one file.rs",
            "/tmp/two.rs",
            "--marked=/tmp/one file.rs",
            "--marked=/tmp/two.rs"
        ]
    );
    assert!(has_paths_placeholder(&cmd));
    assert!(!has_paths_placeholder(&vec!["{path}".to_string()]));
}

#[test]
fn relative_paths_are_made_absolute_for_custom_actions() {
    let args = expand_args(
        &vec!["{path}".to_string(), "{dir}".to_string()],
        "relative/file.txt",
        &vec!["relative/file.txt".to_string()],
        Some("/work"),
    );
    assert!(std::path::Path::new(&args[0]).is_absolute());
    assert_eq!(
        args[1],
        std::path::Path::new(&args[0])
            .parent()
            .unwrap()
            .to_string_lossy()
    );
    assert_eq!(absolute_path("a.txt", Some("/work")), "/work/a.txt");
    assert_eq!(absolute_path("/a.txt", Some("/work")), "/a.txt");
}

#[test]
fn open_uses_macos_open() {
    assert_eq!(
        open_args(Platform::MacOs, "/a b.txt"),
        ("open", vec!["/a b.txt".to_string()])
    );
}

#[test]
fn quick_look_uses_qlmanage() {
    assert_eq!(
        quick_look_args(Platform::MacOs, "/a.png"),
        ("qlmanage", vec!["-p".to_string(), "/a.png".to_string()])
    );
}

#[test]
fn trash_goes_through_finder_with_escaping() {
    let (cmd, args) = trash_args(Platform::MacOs, "/a/b \"c\".txt");
    assert_eq!(cmd, "osascript");
    assert!(args[1].contains("POSIX file \"/a/b \\\"c\\\".txt\""));
}

#[test]
fn reveal_uses_open_dash_r() {
    assert_eq!(
        reveal_args(Platform::MacOs, "/a.txt"),
        ("open", vec!["-R".to_string(), "/a.txt".to_string()])
    );
}

#[test]
fn open_uses_xdg_open() {
    assert_eq!(
        open_args(Platform::Other, "/a b.txt"),
        ("xdg-open", vec!["/a b.txt".to_string()])
    );
}

#[test]
fn reveal_opens_parent_dir() {
    assert_eq!(
        reveal_args(Platform::Other, "/a/b.txt"),
        ("xdg-open", vec!["/a".to_string()])
    );
}

#[test]
fn clipboards_are_tried_in_order() {
    assert_eq!(clipboard_commands(Platform::MacOs)[0].0, "pbcopy");
    assert!(clipboard_commands(Platform::Other).len() > 1);
}

#[test]
fn transfers_are_counted_by_reason() {
    let mut outcome = TransferOutcome::default();
    assert_eq!(
        outcome.begin("/a/note.txt", SourceKind::Regular),
        Some("note.txt".to_string())
    );
    outcome.settle("/a/note.txt", TransferResult::Done);
    assert_eq!(outcome.begin("/a/dir", SourceKind::Directory), None);
    outcome.settle("/a/b.txt", TransferResult::Exists);
    outcome.settle("/a/c.txt", TransferResult::Failed("disk full".to_string()));
    outcome.cancel(2);
    assert_eq!(outcome.succeeded, 1);
    assert_eq!(outcome.succeeded_paths, vec!["/a/note.txt"]);
    assert_eq!(outcome.skipped, 2);
    assert_eq!(outcome.skipped_directories, 1);
    assert_eq!(outcome.skipped_exists, 1);
    assert_eq!(outcome.failed, 1);
    assert_eq!(outcome.cancelled, 2);
    assert_eq!(
        outcome.first_error,
        Some(("/a/c.txt".to_string(), "disk full".to_string()))
    );
    assert_eq!(source_name("/a/b/"), Some("b".to_string()));
}

#[test]
fn moves_fall_back_to_copies_across_devices() {
    let step = first_step(TransferKind::Move);
    assert_eq!(next_step(step, false), None);
    assert_eq!(next_step(step, true), Some(TransferStep::CopyThenRemove));
}

#[test]
fn the_selected_path_stays_itself_beside_the_batch() {
    let cmd = vec!["{path}={paths}".to_string()];
    let batch = vec!["/a/y".to_string(), "/a/z".to_string()];
    assert_eq!(expand_args(&cmd, "/a/x", &batch, None), ["/a/x=/a/y", "/a/x=/a/z"]);
    assert!(expand_args(&cmd, "/a/x", &Vec::new(), None).is_empty());
}

#[test]
fn only_batches_change_the_number_of_arguments() {
    let none: Vec<String> = Vec::new();
    let one = vec!["open".to_string(), "{path}".to_string()];
    assert!(!has_paths_placeholder(&one));
    assert_eq!(expand_args(&one, "/x", &none, None).len(), 2);
    let all = vec!["tar".to_string(), "{paths}".to_string()];
    assert!(has_paths_placeholder(&all));
    assert_eq!(expand_args(&all, "/x", &none, None).len(), 1);
}
