use fsearch::highlight::{
    convert_color, convert_style, highlight, spans_from, Appearance, Span, Style, Styler,
};
use fsearch::preview::{
    directory_listing, document_preview, file_preview, note_line, preview_kind, show_window, Child,
    PreviewKind,
};
use fsearch::theme::Color;

#[test]
fn rust_keywords_get_styled_spans() {
    let lines = highlight("main.rs", "fn main() {}\n", Appearance::Dark, 100);
    assert_eq!(lines.len(), 1);
    // at least one span carries a foreground color
    assert!(
        lines[0]
            .iter()
            .any(|s| s.style.fg.is_some() && s.text.contains("fn"))
    );
}

#[test]
fn unknown_extension_falls_back_to_plain() {
    let lines = highlight("data.zzz", "no such language\n", Appearance::Dark, 100);
    assert_eq!(lines.len(), 1);
    assert!(lines[0].iter().all(|s| s.style.fg.is_none()));
}

#[test]
fn line_count_and_content_preserved() {
    let text = "let a = 1;\n\nlet b = 2;\n";
    let lines = highlight("x.rs", text, Appearance::Light, 100);
    assert_eq!(lines.len(), 3);
    let flat: String = lines[2].iter().map(|s| s.text.as_str()).collect();
    assert_eq!(flat, "let b = 2;");
}

#[test]
fn max_lines_is_respected() {
    let text = "a\nb\nc\nd\n";
    assert_eq!(highlight("x.txt", text, Appearance::Dark, 2).len(), 2);
}

#[test]
fn pathological_long_lines_stay_unstyled() {
    let long = format!("fn x() {{ {} }}", "a + ".repeat(2000));
    let lines = highlight("x.rs", &long, Appearance::Dark, 100);
    assert_eq!(lines[0].len(), 1);
}

#[test]
fn bat_alpha_convention_is_decoded() {
    // alpha 0: 16-color palette index carried in red
    assert_eq!(convert_color((3, 0, 0, 0, 0)), Some(Color::Indexed(3)));
    // alpha 1: terminal default — emit nothing
    assert_eq!(convert_color((9, 9, 9, 1, 0)), None);
    // real rgb
    assert_eq!(
        convert_color((10, 20, 30, 255, 0)),
        Some(Color::Rgb(10, 20, 30))
    );
    let style = convert_style((0, 0, 0, 1, 7));
    assert!(style.bold && style.italic && style.underlined);
    assert!(!convert_style((0, 0, 0, 1, 2)).bold);
}

#[test]
fn shebangs_are_recognized() {
    let styler = Styler::new();
    let lines = styler.highlight("script", "#!/bin/bash\necho hi\n", Appearance::Dark, 10);
    assert!(lines.iter().flatten().any(|s| s.style.fg.is_some()));
    assert_eq!(Appearance::default(), Appearance::Dark);
}

#[test]
fn regions_lose_their_newlines() {
    let regions = vec![
        ((1, 2, 3, 255, 1), "fn".to_string()),
        ((1, 2, 3, 255, 0), "\n".to_string()),
        ((1, 2, 3, 1, 0), "x\n".to_string()),
    ];
    let spans = spans_from(&regions);
    assert_eq!(spans.len(), 2);
    assert_eq!(spans[0].text, "fn");
    assert!(spans[0].style.bold);
    assert_eq!(spans[1].text, "x");
    assert_eq!(spans[1].style.fg, None);
}

fn plain(text: &str) -> Vec<Span> {
    let style = Style { fg: None, bold: false, italic: false, underlined: false };
    vec![Span { text: text.to_string(), style }]
}

#[test]
fn previews_are_centered_on_the_matching_line() {
    let all: Vec<Vec<Span>> = (1..=200).map(|i| plain(&format!("line {i}"))).collect();
    let shown = show_window(all, Some(100));
    assert_eq!(shown.len(), 40);
    assert_eq!(shown[5].spans[0].text, "line 100");
    assert_eq!(shown[5].gutter.as_deref(), Some("  100 "));
    let text: String = (1..=200).map(|i| format!("line {i}\n")).collect();
    let first = document_preview(&text, None);
    assert_eq!(first.len(), 100);
    assert_eq!(first[0].gutter, None);
    let near = document_preview(&text, Some(2));
    assert_eq!(near[1].spans[0].text, "line 2");
    assert_eq!(near[1].gutter.as_deref(), Some("    2 "));
    assert!(document_preview(&text, Some(u64::MAX)).is_empty());
}

#[test]
fn files_are_previewed_by_what_they_hold() {
    let styler = Styler::new();
    let binary = file_preview(&styler, "/a.bin", &b"a\0b".to_vec(), None, Appearance::Dark);
    assert_eq!(binary, note_line("(binary file)"));
    let lossy = file_preview(&styler, "/a.zzz", &b"ok \xff\n".to_vec(), None, Appearance::Dark);
    assert_eq!(lossy[0].spans[0].text, "ok \u{fffd}");
    let long = "x\n".repeat(100_000).into_bytes();
    let shown = file_preview(&styler, "/a.zzz", &long, Some(32_768), Appearance::Dark);
    // only the first bytes are read
    assert_eq!(shown.len(), 6);
    assert_eq!(preview_kind("/a.PDF"), PreviewKind::Pdf);
    assert_eq!(preview_kind("/a.png"), PreviewKind::Image);
    assert_eq!(preview_kind("/a.rs"), PreviewKind::Text);
}

#[test]
fn directories_list_folders_first() {
    let child = |is_dir, name: &str| Child { is_dir, name: name.to_string() };
    let shown = directory_listing(vec![
        child(false, "a.txt"),
        child(true, "z"),
        child(false, "B.txt"),
        child(true, "m"),
    ]);
    let names: Vec<&str> = shown.iter().map(|c| c.name.as_str()).collect();
    assert_eq!(names, ["m", "z", "B.txt", "a.txt"]);
    let many: Vec<Child> = (0..300).map(|i| child(false, &format!("{i:03}"))).collect();
    let shown = directory_listing(many);
    assert_eq!(shown.len(), 200);
    assert_eq!(shown[199].name, "199");
}
