use fsearch::cli::OutputFormat;
use fsearch::output::{
    escape_controls, hit, hit_for_terminal, selection, selection_for_terminal,
};
use fsearch::query::Hit;

#[test]
fn unusual_paths_roundtrip() {
    let path = "a\nquote\"\\é.txt";
    let json = hit(&Hit::Path(path.to_string()), OutputFormat::Json, "");
    let value: serde_json::Value = serde_json::from_str(&json).unwrap();
    assert_eq!(value["path"], path);
    assert_eq!(value["type"], "filename");
    assert_eq!(json.lines().count(), 1);
    assert_eq!(
        hit(&Hit::Path(path.to_string()), OutputFormat::Nul, ""),
        format!("{path}\0")
    );
}

#[test]
fn terminal_text_cannot_inject_controls_but_machine_output_is_unchanged() {
    let value = "é\x1b]52;c;payload\x07\r\n\t\u{009b}31m";
    let tty = selection_for_terminal(value, OutputFormat::Text, true);
    assert_eq!(tty, format!("{}\n", escape_controls(value)));
    assert!(!tty[..tty.len() - 1].chars().any(char::is_control));
    assert_eq!(
        selection_for_terminal(value, OutputFormat::Text, false),
        format!("{value}\n")
    );
    for format in [OutputFormat::Json, OutputFormat::Nul] {
        assert_eq!(
            selection_for_terminal(value, format, true),
            selection(value, format)
        );
        assert_eq!(
            hit_for_terminal(&Hit::Path(value.to_string()), format, "", true),
            hit(&Hit::Path(value.to_string()), format, "")
        );
    }
    let line = hit_for_terminal(
        &Hit::Line {
            path: value.to_string(),
            line_number: 7,
            line: value.to_string(),
        },
        OutputFormat::Text,
        "",
        true,
    );
    assert_eq!(
        line,
        format!("{}:7:{}\n", escape_controls(value), escape_controls(value))
    );
    let score = 0.5f32;
    assert_eq!(
        hit_for_terminal(
            &Hit::Semantic {
                path: value.to_string(),
                line_start: 3,
                score: score.to_bits(),
            },
            OutputFormat::Text,
            &format!("{score:.2}"),
            true
        ),
        format!("{}:3:0.50\n", escape_controls(value))
    );
}

#[test]
fn content_records_have_separate_fields() {
    let json = hit(
        &Hit::Line {
            path: "a:b".to_string(),
            line_number: 42,
            line: "x\ny".to_string(),
        },
        OutputFormat::Json,
        "",
    );
    let value: serde_json::Value = serde_json::from_str(&json).unwrap();
    assert_eq!(value["line_number"], 42);
    assert_eq!(value["text"], "x\ny");
    assert_eq!(value["path"], "a:b");
}

#[test]
fn json_strings_match_the_serializer() {
    for text in ["", "\u{1}\u{8}\u{c}\u{1f}", "tab\tquote\"", "back\\slash", "\u{7f}é🦀"] {
        let quoted = serde_json::to_string(text).unwrap();
        assert_eq!(
            selection(text, OutputFormat::Json),
            format!("{{\"type\":\"selection\",\"value\":{quoted}}}\n")
        );
    }
    let semantic = Hit::Semantic { path: "/a".to_string(), line_start: 2, score: 0 };
    assert_eq!(
        hit(&semantic, OutputFormat::Json, "0.5"),
        "{\"line_number\":2,\"path\":\"/a\",\"score\":0.5,\"type\":\"semantic\"}\n"
    );
}

#[test]
fn controls_are_written_as_escapes() {
    assert_eq!(escape_controls("a\tb\r\n"), "a\\tb\\r\\n");
    assert_eq!(escape_controls("\x1b[0m\u{9b}"), "\\u{1b}[0m\\u{9b}");
    assert_eq!(escape_controls("plain é"), "plain é");
    for c in (0u32..0xa0).filter_map(char::from_u32).filter(|c| c.is_control()) {
        assert_eq!(escape_controls(&c.to_string()), c.escape_default().to_string());
    }
}
