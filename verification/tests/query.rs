use fsearch::content::TextFile;
use fsearch::engine::Mode;
use fsearch::index::PathStore;
use fsearch::query::{content_hits, plan, search, Hit, Options, Semantics};
use fsearch::quiet::Quiet;
use fsearch::sem::SemStore;
use fsearch::walker::FileMeta;

fn no_semantics() -> Semantics {
    Semantics { store: None, dim: 2, scores: Vec::new() }
}

fn files(store: &PathStore, indices: &[usize], body: &str) -> Vec<TextFile> {
    indices
        .iter()
        .map(|&i| TextFile {
            path: store.get(i).to_string(),
            is_file: true,
            size: body.len() as u64,
            data: body.as_bytes().to_vec(),
        })
        .collect()
}

#[test]
fn content_queries_report_all_hits_without_interactive_cap() {
    let entries: Vec<(String, FileMeta)> =
        (0..60).map(|i| (format!("/d/{i}.txt"), FileMeta::default())).collect();
    let store = PathStore::from_entries(&entries);
    let opts = Options { max_content_filesize: 1024, quiet: Quiet::new(Vec::new()) };
    let plan = plan(">needle", 0);
    let scope = plan.scope(&store);
    let files = files(&store, &scope, &"needle\n".repeat(20));
    let hits = search(&store, &plan, &opts, &files, &no_semantics()).unwrap();
    assert_eq!(hits.len(), 1200);
    assert_eq!(
        hits[0],
        Hit::Line {
            path: "/d/0.txt".to_string(),
            line_number: 1,
            line: "needle".to_string()
        }
    );
}

#[test]
fn filename_search_reports_false_when_only_folded_rows_exist() {
    let store = PathStore::from_entries(&[("/quiet/state".to_string(), FileMeta::default())]);
    let opts = Options {
        max_content_filesize: 1_000,
        quiet: Quiet::new(vec!["/quiet/".to_string()]),
    };
    let run = |input: &str| {
        search(&store, &plan(input, 0), &opts, &Vec::new(), &no_semantics()).unwrap()
    };
    assert!(run("").is_empty());
    assert_eq!(run("state"), vec![Hit::Path("/quiet/state".to_string())]);
}

#[test]
fn plans_understand_prefixes_and_filters() {
    let p = plan("> ext:md needle", 0);
    assert_eq!(p.mode, Mode::Content);
    assert_eq!(p.query, "needle");
    assert_eq!(p.filters.exts, vec!["md"]);
    let p = plan("= 1+1", 0);
    assert_eq!(p.mode, Mode::Fuzzy);
    assert_eq!(p.query, "= 1+1");
    assert_eq!(plan("? x", 0).mode, Mode::Semantic);
    let store = PathStore::from_entries(&[
        ("/a.md".to_string(), FileMeta::default()),
        ("/b.txt".to_string(), FileMeta::default()),
    ]);
    assert_eq!(plan("> ext:md needle", 0).scope(&store), vec![0]);
    assert!(plan("needle", 0).scope(&store).is_empty());
}

#[test]
fn bad_patterns_and_missing_indexes_are_errors() {
    let store = PathStore::empty();
    let opts = Options { max_content_filesize: 1, quiet: Quiet::default() };
    let bad = search(&store, &plan("> [bad", 0), &opts, &Vec::new(), &no_semantics());
    assert!(bad.unwrap_err().starts_with("invalid pattern: "));
    assert_eq!(
        content_hits(Err("x".to_string())),
        Err("invalid pattern: x".to_string())
    );
    let missing = search(&store, &plan("? x", 0), &opts, &Vec::new(), &no_semantics());
    assert!(missing.unwrap_err().contains("no semantic index yet"));
    let other = Semantics { store: Some(SemStore::new(3)), dim: 2, scores: Vec::new() };
    let other = search(&store, &plan("? x", 0), &opts, &Vec::new(), &other);
    assert!(other.unwrap_err().contains("another model"));
}

#[test]
fn semantic_hits_are_ranked_and_filtered() {
    let mut sem = SemStore::new(1);
    sem.push_doc("/a.md", 1, 1, &vec![(4, vec![0])]);
    sem.push_doc("/b.md", 1, 1, &vec![(9, vec![0])]);
    let semantics = Semantics {
        store: Some(sem),
        dim: 1,
        scores: vec![0.25f32.to_bits(), 0.75f32.to_bits()],
    };
    let store = PathStore::empty();
    let opts = Options { max_content_filesize: 1, quiet: Quiet::default() };
    let hits = search(&store, &plan("? x", 0), &opts, &Vec::new(), &semantics).unwrap();
    assert_eq!(
        hits,
        vec![
            Hit::Semantic { path: "/b.md".to_string(), line_start: 9, score: 0.75f32.to_bits() },
            Hit::Semantic { path: "/a.md".to_string(), line_start: 4, score: 0.25f32.to_bits() },
        ]
    );
    let hits = search(&store, &plan("? path:a.md x", 0), &opts, &Vec::new(), &semantics).unwrap();
    assert_eq!(hits.len(), 1);
}
