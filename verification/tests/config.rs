use fsearch::config::{
    find_search, list_searches, Search,
    action_warning, app_table, default_file, editor_actions_in, editor_actions_on_path,
    expand_tilde, merge, parse_actions, program_table, Config, KeySpec, RawAction, RawConfig,
    RawTheme, RawValue,
};
use fsearch::filters::is_known_kind;

fn blank() -> RawConfig {
    RawConfig {
        roots: None,
        excludes: None,
        max_content_filesize: None,
        theme: None,
        keys: None,
        mouse: None,
        remember_session: None,
        remember_history: None,
        searches: None,
        quiet: None,
        index_apps: None,
        icons: None,
        unified: None,
        actions: None,
    }
}

fn text(s: &str) -> Option<RawValue> {
    Some(RawValue::Text(s.to_string()))
}

fn list(items: &[&str]) -> Option<RawValue> {
    Some(RawValue::List(items.iter().map(|s| Some(s.to_string())).collect()))
}

fn action(name: &str, cmd: Option<RawValue>) -> RawAction {
    RawAction { name: text(name), cmd, ext: None, kind: None, enter: None }
}

#[test]
fn defaults_are_sane() {
    let c = Config::defaults("/home/j");
    assert_eq!(c.roots, vec!["/home/j"]);
    assert!(c.excludes.iter().any(|e| e == ".git"));
    assert_eq!(c.max_content_filesize, 2 * 1024 * 1024);
}

#[test]
fn package_caches_and_cloud_drives_excluded_by_default() {
    let c = Config::defaults("/home/j");
    for e in [
        ".cargo",
        ".bun",
        ".DS_Store",
        ".venvs",
        "venv",
        "Library/Logs",
        "Library/Mobile Documents",
        "Library/CloudStorage",
    ] {
        assert!(c.excludes.iter().any(|x| x == e), "missing exclude: {e}");
    }
    // the real macOS folder has no space; the old entry never matched
    assert!(!c.excludes.iter().any(|x| x == "Library/Cloud Storage"));
}

#[test]
fn missing_file_is_created_with_defaults() {
    let generated = default_file();
    assert!(generated.contains("# cmd = [\"open\", \"-a\", \"Preview\", \"{path}\"]"));
    assert!(generated.contains("# cmd = [\"open\", \"-a\", \"Microsoft Word\", \"{path}\"]"));
    // the created file must itself parse back
    assert!(generated.parse::<toml::Table>().is_ok());
}

#[test]
fn partial_file_merges_with_defaults() {
    let raw = RawConfig { roots: Some(vec!["/tmp".to_string()]), ..blank() };
    let c = merge(raw, "/home/j");
    assert_eq!(c.roots, vec!["/tmp"]);
    assert_eq!(c.excludes, Config::defaults("/home/j").excludes);
}

#[test]
fn theme_section_parses() {
    let theme = RawTheme {
        preset: Some("nord".to_string()),
        accent: Some("#ff0080".to_string()),
        borders: None,
        selection_bg: None,
        match_fg: None,
        section: None,
    };
    let c = merge(RawConfig { theme: Some(theme), ..blank() }, "/home/j");
    assert_eq!(c.theme.preset, "nord");
    assert_eq!(c.theme.accent.as_deref(), Some("#ff0080"));
    // absent section: defaults
    let d = Config::defaults("/home/j");
    assert_eq!(d.theme.preset, "");
}

#[test]
fn theme_section_parses_borders_and_overrides() {
    let theme = RawTheme {
        preset: Some("nord".to_string()),
        accent: None,
        borders: Some("rounded".to_string()),
        selection_bg: Some("#3b4252".to_string()),
        match_fg: Some("#88c0d0".to_string()),
        section: Some("#8fbcbb".to_string()),
    };
    let c = merge(RawConfig { theme: Some(theme), ..blank() }, "/home/j");
    assert_eq!(c.theme.preset, "nord");
    assert_eq!(c.theme.borders.as_deref(), Some("rounded"));
    assert_eq!(c.theme.selection_bg.as_deref(), Some("#3b4252"));
    assert_eq!(c.theme.match_fg.as_deref(), Some("#88c0d0"));
    assert_eq!(c.theme.section.as_deref(), Some("#8fbcbb"));
    let theme = RawTheme {
        preset: Some("gruvbox".to_string()),
        accent: None,
        borders: None,
        selection_bg: None,
        match_fg: None,
        section: None,
    };
    let c2 = merge(RawConfig { theme: Some(theme), ..blank() }, "/home/j");
    assert_eq!(c2.theme.preset, "gruvbox");
    assert_eq!(c2.theme.borders, None);
    assert_eq!(c2.theme.selection_bg, None);
    assert_eq!(c2.theme.accent, None);
}

#[test]
fn keys_section_parses_single_and_list_forms() {
    let keys = vec![
        ("quit".to_string(), KeySpec::One("ctrl-q".to_string())),
        (
            "move_up".to_string(),
            KeySpec::Many(vec!["up".to_string(), "ctrl-k".to_string()]),
        ),
    ];
    let c = merge(RawConfig { keys: Some(keys), ..blank() }, "/home/j");
    assert_eq!(c.keys.get("quit"), Some(&vec!["ctrl-q".to_string()]));
    assert_eq!(
        c.keys.get("move_up"),
        Some(&vec!["up".to_string(), "ctrl-k".to_string()])
    );
    // absent [keys] section: empty map
    assert!(Config::defaults("/home/j").keys.is_empty());
}

#[test]
fn mouse_flag_parses_and_defaults_to_true() {
    assert!(!merge(RawConfig { mouse: Some(false), ..blank() }, "/").mouse);
    assert!(Config::defaults("/").mouse);
}

#[test]
fn remember_session_flag_parses_and_defaults_to_true() {
    let c = merge(RawConfig { remember_session: Some(false), ..blank() }, "/");
    assert!(!c.remember_session);
    assert!(Config::defaults("/").remember_session);
    let plain = RawConfig { roots: Some(vec!["/tmp".to_string()]), ..blank() };
    assert!(merge(plain, "/").remember_session);
}

#[test]
fn icons_flag_parses_and_defaults_to_false() {
    assert!(merge(RawConfig { icons: Some(true), ..blank() }, "/").icons);
    assert!(!Config::defaults("/").icons);
}

#[test]
fn unified_flag_parses_and_defaults_to_true() {
    assert!(!merge(RawConfig { unified: Some(false), ..blank() }, "/").unified);
    assert!(Config::defaults("/").unified);
    let plain = RawConfig { roots: Some(vec!["/tmp".to_string()]), ..blank() };
    assert!(merge(plain, "/").unified);
}

#[test]
fn tilde_expands_to_home() {
    assert_eq!(expand_tilde("~", "/home/j"), "/home/j");
    assert_eq!(expand_tilde("~/Documents", "/home/j"), "/home/j/Documents");
    assert_eq!(expand_tilde("/etc", "/home/j"), "/etc");
}

#[test]
fn default_actions_detect_installed_editors_only() {
    let apps = app_table();
    let none = vec![false; apps.len()];
    assert!(editor_actions_in(&none).is_empty());
    let found: Vec<bool> =
        apps.iter().map(|(app, _, _)| *app == "Cursor.app" || *app == "Zed.app").collect();
    let actions = editor_actions_in(&found);
    let names: Vec<&str> = actions.iter().map(|a| a.name.as_str()).collect();
    assert_eq!(names, ["open in cursor", "open in zed"]);
    // menu-only entries scoped to code files, argv through `open -a`
    assert!(actions.iter().all(|a| !a.enter));
    assert!(actions.iter().all(|a| a.kind.as_deref() == Some("code")));
    assert_eq!(actions[0].cmd, ["open", "-a", "Cursor", "{path}"]);

    let programs = program_table();
    assert!(editor_actions_on_path(&vec![false; programs.len()]).is_empty());
    let found: Vec<bool> = programs.iter().map(|(program, _)| *program == "code").collect();
    let actions = editor_actions_on_path(&found);
    assert_eq!(actions.len(), 1);
    assert_eq!(actions[0].name, "open in vs code");
    assert_eq!(actions[0].cmd, ["code", "{path}"]);
}

#[test]
fn custom_actions_parse_and_normalize_filters() {
    let raw = RawAction {
        name: text("code"),
        cmd: list(&["cursor", "{path}"]),
        ext: list(&["RS", ".Py"]),
        kind: text("CODE"),
        enter: Some(RawValue::Flag(true)),
    };
    let c = merge(RawConfig { actions: Some(vec![Some(raw)]), ..blank() }, "/");
    assert_eq!(c.actions.len(), 1);
    assert_eq!(c.actions[0].name, "code");
    assert_eq!(c.actions[0].cmd, vec!["cursor", "{path}"]);
    assert_eq!(c.actions[0].ext, vec!["rs", "py"]);
    assert_eq!(c.actions[0].kind.as_deref(), Some("code"));
    assert!(c.actions[0].enter);
    assert!(c.actions[0].matches("/tmp/main.rs"));
    assert!(!c.actions[0].matches("/tmp/main.txt"));
}

#[test]
fn malformed_custom_actions_are_skipped() {
    let bad_kind = RawAction { kind: text("spreadsheet"), ..action("bad kind", list(&["open"])) };
    let raw = vec![
        Some(action("", list(&["open"]))),
        Some(action("bad command", list(&[]))),
        Some(bad_kind),
        Some(action("valid", list(&["open"]))),
    ];
    let c = merge(RawConfig { actions: Some(raw), ..blank() }, "/");
    assert_eq!(
        c.actions.iter().map(|a| a.name.as_str()).collect::<Vec<_>>(),
        ["valid"]
    );
    assert_eq!(
        c.action_warning.as_deref(),
        Some("warning: skipped 3 malformed custom actions")
    );
}

#[test]
fn wrong_typed_custom_actions_do_not_reject_valid_siblings() {
    let raw = vec![
        Some(action("wrong command", text("open"))),
        Some(action("valid", list(&["open"]))),
    ];
    let (actions, skipped) = parse_actions(&raw);
    assert_eq!(actions.len(), 1);
    assert_eq!(actions[0].name, "valid");
    assert_eq!(
        action_warning(skipped).as_deref(),
        Some("warning: skipped 1 malformed custom action")
    );
    assert_eq!(action_warning(0), None);
}

#[test]
fn action_kind_vocabulary_matches_query_kinds() {
    for kind in ["image", "video", "audio", "doc", "code", "app", "archive"] {
        assert!(is_known_kind(kind));
    }
    assert!(!is_known_kind("spreadsheet"));
}

#[test]
fn named_searches_and_history_are_settings() {
    let search = |name: &str, query: &str| Search { name: name.to_string(), query: query.to_string() };
    let raw = RawConfig {
        remember_history: Some(false),
        searches: Some(vec![search("todos", "> ext:md TODO"), search("docs", "kind:doc")]),
        ..blank()
    };
    let c = merge(raw, "/home/j");
    assert!(!c.remember_history);
    assert!(merge(blank(), "/home/j").remember_history);
    assert_eq!(find_search(&c.searches, "docs"), Some("kind:doc"));
    assert_eq!(find_search(&c.searches, "nope"), None);
    assert_eq!(list_searches(c.searches), "docs\tkind:doc\ntodos\t> ext:md TODO\n");
}

#[test]
fn a_new_file_says_the_defaults() {
    let table = default_file().parse::<toml::Table>().unwrap();
    let mut names: Vec<&str> = table.keys().map(|k| k.as_str()).collect();
    names.sort();
    assert_eq!(names, ["excludes", "max_content_filesize", "roots"]);
    let list = |name: &str| -> Option<Vec<String>> {
        let items = table.get(name)?.as_array()?;
        items.iter().map(|v| v.as_str().map(String::from)).collect()
    };
    let raw = RawConfig {
        roots: list("roots"),
        excludes: list("excludes"),
        max_content_filesize: table["max_content_filesize"].as_integer().map(|n| n as u64),
        ..blank()
    };
    assert_eq!(raw.roots, Some(vec!["~".to_string()]));
    let merged = format!("{:?}", merge(raw, "/home/j"));
    assert_eq!(merged, format!("{:?}", Config::defaults("/home/j")));
}
