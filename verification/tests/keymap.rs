use fsearch::keymap::{is_editing_key, parse_key, Action, KeyCode, KeyModifiers, Keymap};
use fsearch::pathmap::PathMap;

fn parse(spec: &str) -> Option<(KeyCode, KeyModifiers)> {
    parse_key(spec)
}

#[test]
fn parse_key_forms() {
    assert_eq!(
        parse("ctrl-y"),
        Some((KeyCode::Char('y'), KeyModifiers::control()))
    );
    assert_eq!(
        parse("CTRL+Y"),
        Some((KeyCode::Char('y'), KeyModifiers::control()))
    );
    assert_eq!(parse("esc"), Some((KeyCode::Esc, KeyModifiers::none())));
    assert_eq!(parse("f5"), Some((KeyCode::F(5), KeyModifiers::none())));
    assert_eq!(parse("pgdn"), Some((KeyCode::PageDown, KeyModifiers::none())));
    assert_eq!(
        parse("ctrl-space"),
        Some((KeyCode::Char(' '), KeyModifiers::control()))
    );
    assert_eq!(parse("x"), Some((KeyCode::Char('x'), KeyModifiers::none())));
    assert_eq!(
        parse("alt+shift-tab"),
        Some((KeyCode::Tab, KeyModifiers { control: false, alt: true, shift: true }))
    );
    // bad specs
    for bad in ["", "ctrl", "ctrl-y-z", "foo", "f13", "  ", "ctrl--y"] {
        assert_eq!(parse(bad), None, "expected {bad:?} to be unparsable");
    }
}

#[test]
fn defaults_match_the_historical_bindings() {
    let km = Keymap::default();
    let check = |spec: &str, action: Action| {
        let (code, mods) = parse_key(spec).unwrap();
        assert_eq!(km.lookup(code, mods), Some(action), "for {spec:?}");
    };
    check("esc", Action::Quit);
    check("ctrl-c", Action::Quit);
    check("enter", Action::Open);
    check("right", Action::Menu);
    check("ctrl-space", Action::QuickLook);
    check("ctrl-y", Action::CopyPath);
    check("ctrl-f", Action::Reveal);
    check("ctrl-u", Action::ClearQuery);
    check("ctrl-r", Action::RegexToggle);
    check("ctrl-p", Action::HistoryPrev);
    check("ctrl-n", Action::HistoryNext);
    check("up", Action::MoveUp);
    check("ctrl-k", Action::MoveUp);
    check("down", Action::MoveDown);
    check("ctrl-j", Action::MoveDown);
    check("tab", Action::PreviewLayout);
    check("ctrl-t", Action::DensityToggle);
    check("ctrl-x", Action::FoldToggle);
    check("ctrl-g", Action::ThemeCycle);
    check("pgup", Action::PreviewPageUp);
    check("pgdn", Action::PreviewPageDown);
    check("ctrl-b", Action::ToggleMark);
    check("alt-b", Action::ClearMarks);
    // keys never bound by default
    assert_eq!(km.lookup(KeyCode::Char('q'), KeyModifiers::control()), None);
}

#[test]
fn shortcut_labels_use_the_shortest_configured_binding() {
    let defaults = Keymap::default();
    assert_eq!(defaults.shortcut(Action::Open).as_deref(), Some("enter"));
    assert_eq!(defaults.shortcut(Action::Menu).as_deref(), Some("→"));
    assert_eq!(
        defaults.shortcut(Action::CopyPath).as_deref(),
        Some("ctrl-y")
    );
    assert_eq!(defaults.shortcut(Action::Quit).as_deref(), Some("esc"));

    let mut overrides = PathMap::new();
    overrides.insert("copy_path".to_string(), vec!["alt-y".to_string()]);
    let custom = Keymap::from_config(&overrides);
    assert_eq!(custom.shortcut(Action::CopyPath).as_deref(), Some("alt-y"));
}

#[test]
fn mark_actions_are_configurable() {
    let mut overrides = PathMap::new();
    overrides.insert("toggle_mark".to_string(), vec!["ctrl-m".to_string()]);
    overrides.insert("clear_marks".to_string(), vec!["alt-m".to_string()]);
    let km = Keymap::from_config(&overrides);
    assert_eq!(
        km.lookup(KeyCode::Char('m'), KeyModifiers::control()),
        Some(Action::ToggleMark)
    );
    assert_eq!(
        km.lookup(KeyCode::Char('m'), KeyModifiers::alt()),
        Some(Action::ClearMarks)
    );
    assert_eq!(km.lookup(KeyCode::Char('b'), KeyModifiers::control()), None);
    assert_eq!(km.lookup(KeyCode::Char('b'), KeyModifiers::alt()), None);
}

#[test]
fn override_replaces_an_action_and_removes_its_defaults() {
    let mut overrides = PathMap::new();
    overrides.insert("quit".to_string(), vec!["ctrl-q".to_string()]);
    let km = Keymap::from_config(&overrides);
    assert_eq!(
        km.lookup(KeyCode::Char('q'), KeyModifiers::control()),
        Some(Action::Quit)
    );
    assert_eq!(km.lookup(KeyCode::Esc, KeyModifiers::none()), None);
}

#[test]
fn override_with_only_invalid_specs_keeps_defaults() {
    let mut overrides = PathMap::new();
    overrides.insert(
        "quit".to_string(),
        vec!["not-a-key".to_string(), "f13".to_string()],
    );
    let km = Keymap::from_config(&overrides);
    assert_eq!(
        km.lookup(KeyCode::Esc, KeyModifiers::none()),
        Some(Action::Quit)
    );
    assert_eq!(
        km.lookup(KeyCode::Char('c'), KeyModifiers::control()),
        Some(Action::Quit)
    );
}

#[test]
fn editing_keys_are_ignored_in_overrides() {
    let mut overrides = PathMap::new();
    // backspace, a plain char, and ctrl-w are all editing keys
    overrides.insert(
        "quit".to_string(),
        vec![
            "backspace".to_string(),
            "x".to_string(),
            "ctrl-w".to_string(),
            "left".to_string(),
        ],
    );
    let km = Keymap::from_config(&overrides);
    // nothing was bound; the default quit keys remain
    assert_eq!(
        km.lookup(KeyCode::Esc, KeyModifiers::none()),
        Some(Action::Quit)
    );
    assert_eq!(km.lookup(KeyCode::Backspace, KeyModifiers::none()), None);
    assert_eq!(km.lookup(KeyCode::Char('x'), KeyModifiers::none()), None);
    assert_eq!(km.lookup(KeyCode::Char('w'), KeyModifiers::control()), None);
}

#[test]
fn help_defaults_and_override() {
    let km = Keymap::default();
    let (f1, none) = (KeyCode::F(1), KeyModifiers::none());
    let (o, ctrl) = (KeyCode::Char('o'), KeyModifiers::control());
    assert_eq!(km.lookup(f1, none), Some(Action::Help));
    assert_eq!(km.lookup(o, ctrl), Some(Action::Help));
    assert_eq!(km.shortcut(Action::Help).as_deref(), Some("f1"));
    // both default bindings show up, shortest first
    assert_eq!(km.labels(Action::Help), vec!["f1", "ctrl-o"]);

    // a config override replaces the whole list, like any other action
    let mut overrides = PathMap::new();
    overrides.insert("help".to_string(), vec!["f2".to_string()]);
    let custom = Keymap::from_config(&overrides);
    assert_eq!(custom.lookup(KeyCode::F(2), none), Some(Action::Help));
    assert_eq!(custom.lookup(f1, none), None);
    assert_eq!(custom.lookup(o, ctrl), None);
}

#[test]
fn cross_action_overrides_keep_reassigned_default_keys() {
    let mut overrides = PathMap::new();
    // Help takes ThemeCycle's old key while ThemeCycle moves away. The
    // result must not depend on HashMap iteration order.
    overrides.insert("help".to_string(), vec!["ctrl-g".to_string()]);
    overrides.insert("theme_cycle".to_string(), vec!["f2".to_string()]);
    let km = Keymap::from_config(&overrides);
    assert_eq!(
        km.lookup(KeyCode::Char('g'), KeyModifiers::control()),
        Some(Action::Help)
    );
    assert_eq!(
        km.lookup(KeyCode::F(2), KeyModifiers::none()),
        Some(Action::ThemeCycle)
    );
    assert_eq!(km.lookup(KeyCode::Char('o'), KeyModifiers::control()), None);
}

#[test]
fn unknown_action_names_are_ignored() {
    let mut overrides = PathMap::new();
    overrides.insert("nope".to_string(), vec!["ctrl-q".to_string()]);
    let km = Keymap::from_config(&overrides);
    assert_eq!(km.lookup(KeyCode::Char('q'), KeyModifiers::control()), None);
}

#[test]
fn help_lists_actions_with_their_names() {
    let km = Keymap::default();
    let actions = km.actions();
    assert!(actions.contains(&Action::Quit));
    assert_eq!(Action::ToggleMark.name(), "toggle_mark");
    assert_eq!(Action::ToggleMark.label(), "toggle mark");
    assert_eq!(Action::ClearMarks.help_group(), Action::Open.help_group());
    assert!(is_editing_key(KeyCode::Char('x'), KeyModifiers::none()));
    assert!(!is_editing_key(KeyCode::Esc, KeyModifiers::none()));
}
