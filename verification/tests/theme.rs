use fsearch::config::ThemeConfig;
use fsearch::theme::{next_preset, resolve, resolve_config, BorderKind, Color};

#[test]
fn presets_resolve_and_unknowns_fall_back() {
    assert_eq!(
        resolve("gruvbox", None).accent,
        Color::Rgb(0xfe, 0x80, 0x19)
    );
    assert_eq!(resolve("Nord", None).accent, Color::Rgb(0x88, 0xc0, 0xd0));
    assert_eq!(resolve("no-such-theme", None), resolve("default", None));
}

#[test]
fn slate_is_high_contrast() {
    let t = resolve("slate", None);
    assert_eq!(t.dim, Color::Rgb(0xa9, 0xb1, 0xd6));
    assert_eq!(t.selection_bg, Some(Color::Rgb(0x28, 0x34, 0x57)));
    assert_eq!(t.match_fg, Some(Color::Rgb(0x7a, 0xa2, 0xf7)));
}

#[test]
fn accent_override_applies() {
    let t = resolve("default", Some("#ff0080"));
    assert_eq!(t.accent, Color::Rgb(0xff, 0x00, 0x80));
    // dim/border untouched
    assert_eq!(t.dim, Color::DarkGray);
    // bad hex ignored
    assert_eq!(resolve("default", Some("chartreuse")).accent, Color::Cyan);
}

#[test]
fn default_preset_keeps_classic_tokens() {
    let t = resolve("default", None);
    assert_eq!(t.selection_bg, None);
    assert_eq!(t.match_fg, None);
    assert_eq!(t.section, None);
    assert_eq!(t.borders, BorderKind::Sharp);
    assert_eq!(
        t.badges,
        [
            Color::Cyan,
            Color::Magenta,
            Color::Yellow,
            Color::Green,
            Color::Red,
            Color::DarkGray,
        ]
    );
}

#[test]
fn named_presets_carry_palette_tokens() {
    let t = resolve("catppuccin", None);
    assert_eq!(t.borders, BorderKind::Sharp);
    assert!(t.selection_bg.is_some());
    assert_eq!(t.match_fg, Some(t.accent));
    assert!(t.section.is_some());
    assert_eq!(t.badges.len(), 6);
    assert_ne!(t.badges[0], t.badges[5]);
}

#[test]
fn resolve_config_applies_borders_and_overrides() {
    let cfg = ThemeConfig {
        preset: "default".into(),
        borders: Some("rounded".into()),
        selection_bg: Some("#313244".into()),
        match_fg: Some("#cba6f7".into()),
        section: Some("#a6adc8".into()),
        ..Default::default()
    };
    let t = resolve_config(&cfg);
    assert_eq!(t.borders, BorderKind::Rounded);
    assert_eq!(t.selection_bg, Some(Color::Rgb(0x31, 0x32, 0x44)));
    assert_eq!(t.match_fg, Some(Color::Rgb(0xcb, 0xa6, 0xf7)));
    assert_eq!(t.section, Some(Color::Rgb(0xa6, 0xad, 0xc8)));
    let none = ThemeConfig {
        borders: Some("none".into()),
        ..Default::default()
    };
    assert_eq!(resolve_config(&none).borders, BorderKind::Absent);
    let sharp = ThemeConfig {
        borders: Some("sharp".into()),
        ..Default::default()
    };
    assert_eq!(resolve_config(&sharp).borders, BorderKind::Sharp);
}

#[test]
fn bad_theme_values_fall_back() {
    let cfg = ThemeConfig {
        preset: "default".into(),
        borders: Some("wobbly".into()),
        selection_bg: Some("chartreuse".into()),
        match_fg: Some("#12".into()),
        section: Some("red".into()),
        ..Default::default()
    };
    let t = resolve_config(&cfg);
    assert_eq!(t.borders, BorderKind::Sharp); // preset default
    assert_eq!(t.selection_bg, None);
    assert_eq!(t.match_fg, None);
    assert_eq!(t.section, None);
}

#[test]
fn hex_colors_may_lack_the_hash() {
    assert_eq!(resolve("nord", Some("010203")).accent, Color::Rgb(1, 2, 3));
    assert_eq!(resolve("default", Some("##1020")).accent, Color::Cyan);
    assert_eq!(resolve("default", Some("#FFffFF")).accent, Color::Rgb(255, 255, 255));
    assert_eq!(BorderKind::default(), BorderKind::Sharp);
}

#[test]
fn signs_are_no_hex_digits() {
    for value in ["#+12345", "+12345", "#-12345", "#12345", "#1234567", "#12 456"] {
        let malformed = ThemeConfig {
            preset: "default".to_string(),
            accent: Some(value.to_string()),
            ..Default::default()
        };
        let plain = ThemeConfig { preset: "default".to_string(), ..Default::default() };
        assert_eq!(resolve_config(&malformed), resolve_config(&plain), "{value}");
        assert_eq!(resolve_config(&malformed).accent, Color::Cyan);
    }
    assert_eq!(resolve("default", Some("AbCdEf")).accent, Color::Rgb(0xab, 0xcd, 0xef));
}

#[test]
fn presets_are_cycled() {
    let mut name = "default";
    let mut seen = Vec::new();
    for _ in 0..6 {
        name = next_preset(name);
        seen.push(name);
    }
    assert_eq!(seen, ["catppuccin", "gruvbox", "nord", "tokyonight", "slate", "default"]);
    assert_eq!(next_preset("NORD"), "tokyonight");
    assert_eq!(next_preset("unheard-of"), "catppuccin");
}
