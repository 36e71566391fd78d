use fsearch::frecency::{
    append_query, load_queries, needs_rewrite, query_file, query_update, Frecency, OpensLoader,
    QueryLoader, QueryUpdate, COMPACT_THRESHOLD, MAX_HISTORY_LINE,
};

const HOUR: i64 = 3600;

/// A query file that is updated as the plans say.
fn add(file: &mut Vec<u8>, query: &str) {
    match append_query(file, query) {
        QueryUpdate::Ignore => {}
        QueryUpdate::Append(record) => file.extend_from_slice(format!("{record}\n").as_bytes()),
        QueryUpdate::Rewrite(queries) => *file = query_file(&queries).into_bytes(),
    }
}

#[test]
fn queries_roundtrip_dedupe_and_cap() {
    let mut file = Vec::new();
    add(&mut file, "alpha");
    add(&mut file, "beta");
    add(&mut file, "alpha"); // re-run: moves to most-recent
    add(&mut file, "  ");
    assert_eq!(load_queries(&file).0, vec!["beta", "alpha"]);
    for i in 0..150 {
        add(&mut file, &format!("q{i}"));
    }
    let qs = load_queries(&file).0;
    assert_eq!(qs.len(), 100);
    assert_eq!(qs.last().unwrap(), "q149");
}

#[test]
fn malformed_query_records_do_not_escape_the_bound() {
    let mut body = vec![b'q'; MAX_HISTORY_LINE * 2];
    body.extend_from_slice(b"\nvalid\n");
    assert_eq!(load_queries(&body).0, vec!["valid"]);
    add(&mut body, "next");
    assert_eq!(load_queries(&body).0, vec!["valid", "next"]);
}

#[test]
fn frecency_missing_file_is_empty() {
    let (f, lines) = Frecency::load(b"");
    assert_eq!(lines, 0);
    assert!(f.boosts(0).is_empty());
    assert!(Frecency::new().boosts(0).is_empty());
}

#[test]
fn records_persist_and_accumulate() {
    let mut file = String::new();
    let mut f = Frecency::new();
    for (path, at) in [("/a/notes.md", 1000), ("/a/notes.md", 2000), ("/b/other.txt", 1500)] {
        file.push_str(&f.record_at(path, at).unwrap());
        file.push('\n');
    }
    let (f, lines) = Frecency::load(file.as_bytes());
    assert_eq!(lines, 3);
    let boosts = f.boosts(2000);
    // twice-opened file gets a bigger boost than once-opened
    assert!(boosts.get("/a/notes.md").unwrap() > boosts.get("/b/other.txt").unwrap());
}

#[test]
fn recency_buckets_decay() {
    let mut f = Frecency::new();
    let now = 1_000_000_000;
    f.record_at("/recent", now - HOUR / 2);
    f.record_at("/today", now - 5 * HOUR);
    f.record_at("/thisweek", now - 3 * 24 * HOUR);
    f.record_at("/old", now - 60 * 24 * HOUR);
    let b = f.boosts(now);
    assert!(b.get("/recent").unwrap() > b.get("/today").unwrap());
    assert!(b.get("/today").unwrap() > b.get("/thisweek").unwrap());
    assert!(b.get("/thisweek").unwrap() > b.get("/old").unwrap());
    assert!(*b.get("/old").unwrap() > 0);
}

#[test]
fn malformed_lines_are_skipped() {
    let (f, _) = Frecency::load(b"garbage\n123\t1\t/ok\nbad\tline\n");
    assert_eq!(f.boosts(123).len(), 1);
}

#[test]
fn oversized_malformed_lines_are_bounded_and_skipped() {
    let mut body = vec![b'x'; MAX_HISTORY_LINE * 2];
    body.extend_from_slice(b"\n123\t1\t/ok\n");
    let (f, _) = Frecency::load(&body);
    assert_eq!(f.boosts(123).len(), 1);
}

#[test]
fn compaction_rewrites_one_line_per_path() {
    let mut body = String::new();
    for i in 0..(COMPACT_THRESHOLD + 100) {
        body.push_str(&format!("{}\t1\t/repeat/{}\n", 1000 + i as i64, i % 10));
    }
    let (f, lines) = Frecency::load(body.as_bytes());
    assert!(lines > COMPACT_THRESHOLD);
    // all opens counted…
    assert_eq!(f.boosts(2000).len(), 10);
    // …but the file now holds one compacted line per path
    let compacted = f.compacted();
    assert_eq!(compacted.lines().count(), 10);
    let (again, _) = Frecency::load(compacted.as_bytes());
    for path in ["/repeat/0", "/repeat/9"] {
        assert_eq!(again.boosts(2000).get(path), f.boosts(2000).get(path));
    }
}

#[test]
fn histories_are_rewritten_when_they_grow() {
    assert!(!needs_rewrite(1, 1));
    assert!(needs_rewrite(10_000, 1));
    assert!(matches!(append_query(b"", " "), QueryUpdate::Ignore));
}

#[test]
fn histories_are_read_in_bits() {
    let mut file = b"alpha\nbeta\n".to_vec();
    file.extend_from_slice(&vec![b'q'; MAX_HISTORY_LINE + 1]);
    file.extend_from_slice(b"\n\xff\n gamma");
    for size in [1, 7, 1000, file.len()] {
        let mut loader = QueryLoader::new();
        for bits in file.chunks(size) {
            loader.feed(bits);
        }
        let (queries, lines) = loader.finish();
        assert_eq!(queries, vec!["alpha", "beta", "gamma"]);
        assert_eq!(lines, 5);
    }
    let mut opens = OpensLoader::new();
    opens.feed(b"5\t1\t/a\n9\t2");
    opens.feed(b"\t/a");
    let (f, lines) = opens.finish();
    assert_eq!(lines, 2);
    assert!(f.boosts(9).get("/a").is_some());
}

#[test]
fn carriage_returns_inside_a_query_survive_a_rewrite() {
    let file = b"one\rtwo\n one\rtwo \n\xff\n";
    let (queries, lines) = load_queries(file);
    assert_eq!(queries, vec!["one\rtwo"]);
    assert!(needs_rewrite(lines, queries.len()));
    let (again, lines) = load_queries(query_file(&queries).as_bytes());
    assert_eq!(again, queries);
    assert!(!needs_rewrite(lines, again.len()));
    let QueryUpdate::Rewrite(all) = query_update(queries, 3, "next") else {
        panic!("a file with duplicates is rewritten");
    };
    assert_eq!(all, vec!["one\rtwo", "next"]);
    assert!(matches!(append_query(file, "a\rb"), QueryUpdate::Ignore));
}

#[test]
fn histories_keep_the_latest_queries() {
    let mut lines: Vec<String> = (0..150).map(|i| format!("q{i}")).collect();
    lines.push("q3".to_string());
    lines.push("q120".to_string());
    let queries = load_queries(lines.join("\n").as_bytes()).0;
    assert_eq!(queries.len(), 100);
    // the last uses are kept, in their order
    assert_eq!(queries[0], "q51");
    assert_eq!(queries[97], "q149");
    assert_eq!(queries[98..], ["q3", "q120"]);
    assert!(!queries.contains(&"q50".to_string()));
    assert_eq!(queries.iter().filter(|q| *q == "q120").count(), 1);
}
