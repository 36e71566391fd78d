use fsearch::cli::OutputFormat;
use fsearch::index::PathStore;
use fsearch::script::{
    clear_summary, combine_queries, index_summary, is_fresh, largest, largest_line,
    read_filter_input, saved_query, semantic_files, semantic_summary, INPUT_NOT_TEXT,
    INPUT_TOO_LONG, MAX_RECORDS,
};
use fsearch::sem::BuildStats;
use fsearch::walker::FileMeta;

#[test]
fn saved_query_composition_preserves_modes_and_pattern_spacing() {
    assert_eq!(
        combine_queries("ext:md", "> two  spaces").unwrap(),
        "> ext:md two  spaces"
    );
    assert_eq!(
        combine_queries("> needle", "path:docs").unwrap(),
        "> needle path:docs"
    );
    assert_eq!(
        combine_queries("dir: path:work", "project").unwrap(),
        "dir: path:work project"
    );
    assert!(combine_queries("> needle", "? meaning").is_err());
}

#[test]
fn nul_filter_records_preserve_newlines_and_spaces() {
    let input = b"a\nb\0ends-in-slash/\0  \0\0".to_vec();
    assert_eq!(
        read_filter_input(&input, true).unwrap().0,
        ["a\nb", "ends-in-slash/", "  ", ""]
    );
    assert_eq!(
        read_filter_input(&b"a\r\nb\n".to_vec(), false).unwrap().0,
        ["a", "b"]
    );
    assert_eq!(
        read_filter_input(&b"invalid\xff\n".to_vec(), false),
        Err(INPUT_NOT_TEXT)
    );
    assert_eq!(
        read_filter_input(&vec![b'a'; 1024 * 1024 + 1], false),
        Err(INPUT_TOO_LONG)
    );
}

#[test]
fn too_many_records_are_cut() {
    let input = vec![b'\n'; MAX_RECORDS + 1];
    let (records, truncated) = read_filter_input(&input, false).unwrap();
    assert_eq!(records.len(), MAX_RECORDS);
    assert!(truncated);
    assert!(!read_filter_input(&b"a\n".to_vec(), false).unwrap().1);
}

#[test]
fn saved_searches_are_refined() {
    assert_eq!(saved_query("x", None).unwrap(), "x");
    assert_eq!(saved_query("", Some("> a")).unwrap(), "> a");
    assert!(saved_query("= 1", Some("> a")).is_err());
    assert_eq!(combine_queries("? a", "? b").unwrap(), "? a b");
}

fn store() -> PathStore {
    let meta = |mtime, size| FileMeta { mtime, size };
    PathStore::from_entries(&[
        ("/a/small.md".to_string(), meta(-5, 10)),
        ("/a/dir/".to_string(), meta(1, 9000)),
        ("/a/big.bin".to_string(), meta(2, 2048)),
        ("/a/same.txt".to_string(), meta(3, 2048)),
    ])
}

#[test]
fn the_largest_files_come_first() {
    let s = store();
    assert_eq!(largest(&s, 10), vec![2, 3, 0]);
    assert_eq!(largest(&s, 1), vec![2]);
    assert_eq!(largest_line(&s, 2, OutputFormat::Text), "    2.0 KB  /a/big.bin\n");
    assert_eq!(
        largest_line(&s, 0, OutputFormat::Json),
        "{\"mtime\":-5,\"path\":\"/a/small.md\",\"size\":10,\"type\":\"file\"}\n"
    );
}

#[test]
fn documents_are_read_again_when_they_may_have_changed() {
    assert_eq!(semantic_files(&store()), vec![0, 3]);
    assert!(is_fresh(None, None));
    assert!(is_fresh(Some(1), Some(2)));
    assert!(!is_fresh(Some(2), Some(2)));
    assert!(!is_fresh(Some(2), None));
}

#[test]
fn summaries_mention_what_was_left_out() {
    let stats = BuildStats { embedded: 2, reused: 1, skipped: 0 };
    assert_eq!(
        semantic_summary(3, 7, &stats, "1.5"),
        "semantic index: 3 documents, 7 chunks (2 embedded, 1 unchanged) in 1.5s\n"
    );
    let stats = BuildStats { embedded: 2, reused: 1, skipped: 4 };
    assert!(semantic_summary(3, 7, &stats, "1.5").contains(", 4 unreadable)"));
    assert_eq!(index_summary(5, 0, "0.1"), "indexed 5 files in 0.1s\n");
    assert_eq!(
        index_summary(5, 2, "0.1"),
        "indexed 5 files in 0.1s (2 unreadable entries skipped)\n"
    );
    assert!(clear_summary(2, false).starts_with("removed 2 cache entries;"));
    assert!(clear_summary(0, true).starts_with("removed 0 history/session entries;"));
}
