use fsearch::engine::{parse_query, Effect, Engine, Mode, Msg, CONTENT_DEBOUNCE_MS, FILENAME_LIMIT};
use fsearch::fusion::ResultRow;
use fsearch::index::PathStore;
use fsearch::matcher::{search, search_lines};
use fsearch::pathmap::PathMap;
use fsearch::walker::FileMeta;

#[test]
fn parse_plain_is_fuzzy() {
    assert_eq!(
        parse_query("notes", false),
        (Mode::Fuzzy, "notes".to_string())
    );
}

#[test]
fn parse_respects_regex_toggle() {
    assert_eq!(
        parse_query(r"\.pdf$", true),
        (Mode::Regex, r"\.pdf$".to_string())
    );
}

#[test]
fn parse_gt_prefix_is_content() {
    assert_eq!(
        parse_query("> hello world", false),
        (Mode::Content, "hello world".to_string())
    );
    // regex toggle does not override content mode
    assert_eq!(parse_query(">x", true), (Mode::Content, "x".to_string()));
}

#[test]
fn parse_bare_gt_is_empty_content() {
    assert_eq!(parse_query(">", false), (Mode::Content, String::new()));
}

#[test]
fn parse_equals_prefix_is_calc() {
    assert_eq!(
        parse_query("= 2*(3+4)", false),
        (Mode::Calc, "2*(3+4)".to_string())
    );
    // regex toggle does not override calc mode
    assert_eq!(parse_query("=1+1", true), (Mode::Calc, "1+1".to_string()));
    assert_eq!(parse_query("=", false), (Mode::Calc, String::new()));
}

#[test]
fn parse_question_prefix_is_semantic() {
    assert_eq!(
        parse_query("? essays about patience", false),
        (Mode::Semantic, "essays about patience".to_string())
    );
    // regex toggle does not override semantic mode
    assert_eq!(parse_query("?x", true), (Mode::Semantic, "x".to_string()));
    assert_eq!(parse_query("?", false), (Mode::Semantic, String::new()));
}

/// Does what the engine asks for, and hands back the results.
fn perform(engine: &mut Engine, store: &PathStore, effects: Vec<Effect>) {
    for effect in effects {
        if let Effect::SearchFilenames = effect {
            let mode = engine.filename_mode();
            let found = if engine.is_filter() {
                search_lines(store, engine.query(), mode, FILENAME_LIMIT, engine.filters())
            } else {
                search(store, engine.query(), mode, FILENAME_LIMIT)
            };
            let found = found.unwrap();
            let msg = Msg::FilenameResults {
                generation: engine.generation(),
                indices: found.indices,
                strong: found.strong,
                error: None,
            };
            engine.handle(msg, store, &PathMap::new(), 0, false);
        }
    }
}

fn ask(engine: &mut Engine, store: &PathStore, input: &str, regex: bool) {
    let effects = engine.set_query(input, regex, 0, 0, false);
    perform(engine, store, effects);
}

fn shown(engine: &Engine) -> Vec<&str> {
    engine.results().iter().map(|r| r.path.as_str()).collect()
}

#[test]
fn from_lines_keeps_input_order_for_empty_query() {
    let lines = vec![
        "git commit -m fix/thing".to_string(),
        "cargo build --release".to_string(),
        "alpha beta".to_string(),
    ];
    let (mut engine, store) = Engine::from_lines(&lines);
    assert!(engine.is_filter());
    ask(&mut engine, &store, "", false);
    assert_eq!(
        shown(&engine),
        vec![
            "git commit -m fix/thing",
            "cargo build --release",
            "alpha beta"
        ]
    );
}

#[test]
fn from_lines_fuzzy_query_narrows_and_ranks() {
    let lines = vec![
        "cargo build".to_string(),
        "cargo test".to_string(),
        "git commit fix".to_string(),
        "alpha".to_string(),
    ];
    let (mut engine, store) = Engine::from_lines(&lines);
    ask(&mut engine, &store, "cargo", false);
    let paths = shown(&engine);
    assert_eq!(paths, vec!["cargo build", "cargo test"]);
    assert!(!paths.contains(&"alpha"));
    assert!(!paths.contains(&"git commit fix"));
}

#[test]
fn filter_mode_skips_prefix_parsing() {
    let (mut engine, _store) = Engine::from_lines(&vec!["hello".to_string()]);
    // a leading `>` is ordinary text, not content mode
    engine.set_query("> x", false, 0, 0, false);
    assert_eq!(engine.mode(), Mode::Fuzzy);
    // the regex toggle still works
    engine.set_query("? y", true, 0, 0, false);
    assert_eq!(engine.mode(), Mode::Regex);
}

#[test]
fn runtime_index_errors_survive_successful_searches() {
    let (mut engine, store) = Engine::from_lines(&vec!["alpha".to_string()]);
    let msg = Msg::IndexError { error: "live update error".to_string() };
    let effects = engine.handle(msg, &store, &PathMap::new(), 0, false);
    perform(&mut engine, &store, effects);
    ask(&mut engine, &store, "alpha", false);
    assert_eq!(shown(&engine), vec!["alpha"]);
    assert_eq!(engine.status().error.as_deref(), Some("live update error"));
}

#[test]
fn empty_queries_cancel_debounced_content_and_semantic_jobs() {
    for (input, empty) in [
        ("> old", ">"),
        ("? old", "?"),
        ("> old", "> ext:txt"),
        ("? old", "? ext:txt"),
    ] {
        let mut engine = Engine::new(true);
        engine.set_query(input, false, 0, 0, true);
        engine.set_query(empty, false, 0, CONTENT_DEBOUNCE_MS, true);
        let due = engine.fire_due(10 * CONTENT_DEBOUNCE_MS);
        assert!(due.is_empty(), "{empty}");
        assert!(engine.results().is_empty(), "{empty}");
    }
}

#[test]
fn rested_queries_fire_once() {
    let mut engine = Engine::new(true);
    engine.set_query("> needle", false, 0, 0, true);
    assert!(engine.fire_due(CONTENT_DEBOUNCE_MS - 1).is_empty());
    let due = engine.fire_due(CONTENT_DEBOUNCE_MS);
    assert!(due.iter().any(|e| matches!(e, Effect::SearchContent)));
    assert!(engine.fire_due(2 * CONTENT_DEBOUNCE_MS).is_empty());
}

fn test_row(path: &str) -> ResultRow {
    ResultRow {
        path: path.to_string(),
        line_number: Some(7),
        line: Some("semantic context".to_string()),
        recent_open: false,
        meta: None,
        score: Some(0.8f32.to_bits()),
    }
}

fn store_of(paths: &[&str]) -> PathStore {
    let entries: Vec<(String, FileMeta)> =
        paths.iter().map(|p| (p.to_string(), FileMeta { mtime: 7, size: 11 })).collect();
    PathStore::from_entries(&entries)
}

/// An engine with filename results for all entries, of which some are strong.
fn ready(unified: bool, store: &PathStore, strong: usize) -> Engine {
    let mut engine = Engine::new(unified);
    let snapshot = Msg::IndexSnapshot { indexing: false };
    engine.handle(snapshot, store, &PathMap::new(), 0, true);
    engine.set_query("topic", false, 0, 0, true);
    let msg = Msg::FilenameResults {
        generation: engine.generation(),
        indices: (0..store.len()).collect(),
        strong,
        error: None,
    };
    engine.handle(msg, store, &PathMap::new(), 0, true);
    engine
}

fn inject(engine: &mut Engine, store: &PathStore, generation: u64, rows: Vec<ResultRow>) {
    let msg = Msg::SemanticResults { generation, rows, error: None };
    engine.handle(msg, store, &PathMap::new(), 0, true);
}

#[test]
fn unified_injected_rows_use_rrf_and_merge_context() {
    let store = store_of(&["/filename-a", "/both", "/filename-c"]);
    let mut engine = ready(true, &store, 1);
    let generation = engine.generation();
    inject(
        &mut engine,
        &store,
        generation,
        vec![test_row("/semantic-only"), test_row("/both")],
    );
    // /both has two rank-2 contributions; the remaining rows are ordered
    // by their one-list RRF scores, with deterministic source-rank ties.
    assert_eq!(
        shown(&engine),
        ["/both", "/filename-a", "/semantic-only", "/filename-c"]
    );
    // The filename strong row is second after fusion, so the fold keeps
    // it (and the semantic row ahead of it) visible.
    assert_eq!(engine.strong_count(), 2);
    let both = &engine.results()[0];
    assert_eq!(both.meta, Some(FileMeta { mtime: 7, size: 11 }));
    assert_eq!(both.line_number, Some(7));
    assert_eq!(both.line.as_deref(), Some("semantic context"));
    assert_eq!(both.score, Some(0.8f32.to_bits()));
}

#[test]
fn unified_drops_stale_injected_semantic_rows() {
    let store = store_of(&["/topic.txt"]);
    let mut engine = ready(true, &store, 1);
    let generation = engine.generation();
    engine.set_query("newer", false, 0, 0, true);
    inject(&mut engine, &store, generation, vec![test_row("/stale")]);
    assert!(!engine.results().iter().any(|row| row.path == "/stale"));
}

#[test]
fn unified_false_ignores_semantic_rows() {
    let store = store_of(&["/topic.txt"]);
    let mut engine = ready(false, &store, 1);
    let before: Vec<String> = engine.results().iter().map(|row| row.path.clone()).collect();
    let generation = engine.generation();
    inject(&mut engine, &store, generation, vec![test_row("/semantic-only")]);
    let after: Vec<String> = engine.results().iter().map(|row| row.path.clone()).collect();
    assert_eq!(after, before);
}

#[test]
fn unified_semantic_only_rows_are_not_folded() {
    let store = store_of(&[]);
    let mut engine = ready(true, &store, 0);
    let generation = engine.generation();
    inject(&mut engine, &store, generation, vec![test_row("/semantic-only")]);
    assert_eq!(engine.results().len(), 1);
    assert_eq!(engine.strong_count(), 1);
    assert_eq!(engine.results()[0].path, "/semantic-only");
}
