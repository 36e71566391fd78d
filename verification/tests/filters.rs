use fsearch::filters::{
    contains_ignore_ascii_case, kind_for_ext, parse, parse_duration_secs, parse_size_bytes,
};
use fsearch::walker::FileMeta;

#[test]
fn plain_queries_have_no_filters() {
    let (f, rest) = parse("meeting notes", 0);
    assert!(f.is_empty());
    assert_eq!(rest, "meeting notes");
}

#[test]
fn untouched_pattern_whitespace_is_preserved() {
    for query in [
        "",
        " \t\n",
        "  meeting  notes\t2026 ",
        "é\u{2003}日\n🦀",
        "  changed:é\t kind:unknown  larger:NaN ",
    ] {
        let (filters, rest) = parse(query, 0);
        assert!(filters.is_empty());
        assert_eq!(rest, query);
    }
    for (query, expected) in [
        ("ext:pdf  meeting  notes\t2026 ", "meeting  notes\t2026 "),
        ("  meeting  notes\text:pdf", "  meeting  notes"),
        ("a\tb  ext:pdf path:docs\nc  d", "a\tb c  d"),
        ("ext:pdf\u{2003}é\u{2003}日\t", "é\u{2003}日\t"),
        (" ext:pdf\tpath:docs ", ""),
    ] {
        let (filters, rest) = parse(query, 0);
        assert!(!filters.is_empty());
        assert_eq!(rest, expected, "{query:?}");
    }
}

#[test]
fn invalid_durations_remain_in_pattern() {
    for duration in [
        "",
        "é",
        "1é",
        "🦀",
        "-1d",
        "soon",
        "1",
        "1.5h",
        "9223372036854775808m",
        "9223372036854775807w",
    ] {
        assert_eq!(parse_duration_secs(duration), None, "{duration}");
        let query = format!("changed:{duration}");
        let (filters, rest) = parse(&query, 0);
        assert!(filters.is_empty(), "{query}");
        assert_eq!(rest, query);
    }
    let (filters, rest) = parse("changed:1m", i64::MIN);
    assert!(filters.is_empty());
    assert_eq!(rest, "changed:1m");
    assert_eq!(parse_duration_secs("0m"), Some(0));
    assert_eq!(parse_duration_secs("12h"), Some(43_200));
    assert_eq!(
        parse("changed:0m", i64::MIN).0.changed_after,
        Some(i64::MIN)
    );
    let max_minutes = i64::MAX / 60;
    assert_eq!(
        parse_duration_secs(&format!("{max_minutes}m")),
        Some(max_minutes * 60)
    );
    assert_eq!(parse_duration_secs(&format!("{}m", max_minutes + 1)), None);
}

#[test]
fn invalid_sizes_remain_in_pattern() {
    for size in [
        "",
        "-1b",
        "NaN",
        "NaNgb",
        "inf",
        "infinitymb",
        "-inf",
        "1e309",
        "1e308gb",
        "18446744073709551616b",
        "18446744074gb",
    ] {
        assert_eq!(parse_size_bytes(size), None, "{size}");
        for prefix in ["larger:", "smaller:"] {
            let query = format!("{prefix}{size}");
            let (filters, rest) = parse(&query, 0);
            assert!(filters.is_empty(), "{query}");
            assert_eq!(rest, query);
        }
    }
    for (size, bytes) in [
        ("0b", 0),
        ("512", 512),
        ("1.5GB", 1_500_000_000),
        ("0.5kb", 500),
        ("1.9b", 1),
        ("18446744073709549568b", 18_446_744_073_709_549_568),
    ] {
        assert_eq!(parse_size_bytes(size), Some(bytes), "{size}");
    }
}

#[test]
fn ext_tokens_are_extracted() {
    let (f, rest) = parse("ext:pdf report 2026", 0);
    assert_eq!(f.exts, vec!["pdf"]);
    assert_eq!(rest, "report 2026");
    // multiple ext: tokens OR together, case folds, leading dot tolerated
    let (f, rest) = parse("ext:PDF ext:.md notes", 0);
    assert_eq!(f.exts, vec!["pdf", "md"]);
    assert_eq!(rest, "notes");
}

#[test]
fn path_tokens_are_extracted() {
    let (f, rest) = parse("path:Documents tax", 0);
    assert_eq!(f.path_terms, vec!["documents"]);
    assert_eq!(rest, "tax");
}

#[test]
fn dir_token_switches_to_directories() {
    let (f, rest) = parse("dir: proj", 0);
    assert!(f.dirs_only);
    assert_eq!(rest, "proj");
}

#[test]
fn matches_applies_ext_and_path_and_kind() {
    let (f, _) = parse("ext:pdf path:docs x", 0);
    assert!(f.matches("/home/Docs/a.pdf"));
    assert!(!f.matches("/home/Docs/a.txt")); // wrong ext
    assert!(!f.matches("/home/other/a.pdf")); // missing path term
    assert!(!f.matches("/home/Docs/sub.pdf/")); // dirs excluded by default

    let (f, _) = parse("dir: x", 0);
    assert!(f.matches("/home/projects/"));
    assert!(!f.matches("/home/projects/a.txt"));

    // no filters: files pass, dirs stay out of results
    let (f, _) = parse("x", 0);
    assert!(f.matches("/a/b.txt"));
    assert!(!f.matches("/a/b/"));
}

#[test]
fn kind_changed_and_size_tokens_parse() {
    let now = 1_000_000;
    let (f, rest) = parse("kind:image changed:7d larger:1mb smaller:2gb vacation", now);
    assert!(f.exts.contains(&"png".to_string()));
    assert!(f.exts.contains(&"heic".to_string()));
    assert_eq!(f.changed_after, Some(now - 7 * 24 * 3600));
    assert_eq!(f.min_size, Some(1_000_000));
    assert_eq!(f.max_size, Some(2_000_000_000));
    assert_eq!(rest, "vacation");
    // malformed tokens stay in the query text
    let (f, rest) = parse("changed:soon larger:big kind:widget x", now);
    assert!(f.is_empty());
    assert_eq!(rest, "changed:soon larger:big kind:widget x");
}

#[test]
fn meta_filters_apply() {
    let now = 1_000_000;
    let (f, _) = parse("changed:1d larger:100b", now);
    let fresh_big = FileMeta {
        mtime: now - 3600,
        size: 500,
    };
    let fresh_small = FileMeta {
        mtime: now - 3600,
        size: 50,
    };
    let old_big = FileMeta {
        mtime: now - 200_000,
        size: 500,
    };
    assert!(f.matches_meta(&fresh_big));
    assert!(!f.matches_meta(&fresh_small));
    assert!(!f.matches_meta(&old_big));
}

#[test]
fn kind_for_ext_maps_extension_to_kind() {
    assert_eq!(kind_for_ext("png"), Some("image"));
    assert_eq!(kind_for_ext("PNG"), Some("image"));
    assert_eq!(kind_for_ext("rs"), Some("code"));
    assert_eq!(kind_for_ext("pdf"), Some("doc"));
    assert_eq!(kind_for_ext("app"), Some("app"));
    assert_eq!(kind_for_ext("zzz"), None);
    assert_eq!(kind_for_ext(""), None);
}

#[test]
fn path_terms_match_case_insensitively_without_alloc() {
    assert!(contains_ignore_ascii_case("/Users/Josh/DOCS/x", "docs"));
    assert!(!contains_ignore_ascii_case("/Users/Josh/x", "docs"));
    assert!(contains_ignore_ascii_case("abc", ""));
}

#[test]
fn nothing_is_left_to_take_out() {
    for query in [
        "ext:pdf  meeting  path:docs notes",
        "kind:image kind:none dir: larger:2mb x",
        " a ext: b ",
        "changed:7d changed:7q",
    ] {
        let (_, rest) = parse(query, 1000);
        let (none, same) = parse(&rest, 1000);
        assert!(none.is_empty(), "{query}");
        assert_eq!(same, rest);
    }
}

#[test]
fn kinds_list_their_extensions_only() {
    let kinds = ["image", "video", "audio", "doc", "code", "app", "archive"];
    let lists: Vec<Vec<String>> =
        kinds.iter().map(|k| parse(&format!("kind:{k}"), 0).0.exts).collect();
    for (k, exts) in lists.iter().enumerate() {
        assert!(!exts.is_empty());
        for ext in exts {
            assert_eq!(kind_for_ext(&ext.to_uppercase()), Some(kinds[k]));
            assert_eq!(lists.iter().filter(|l| l.contains(ext)).count(), 1, "{ext}");
        }
    }
    assert_eq!(kind_for_ext("nothing"), None);
}
