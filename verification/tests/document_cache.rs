use fsearch::document_cache::{
    cache_key, entry_for, entry_text, failure_entry, is_entry, limit_for, oldest_excess, recall,
    CacheFile, Eviction, MAX_ENTRY_BYTES, MAX_ERROR_BYTES,
};

fn file(modified: i64, name: &str, size: u64) -> CacheFile {
    CacheFile { modified, name: name.to_string(), size }
}

fn evicted(files: Vec<CacheFile>, bytes: u64, count: usize) -> Vec<String> {
    let mut eviction = Eviction::new(files, bytes, count);
    let mut gone = Vec::new();
    while let Some(next) = eviction.next() {
        gone.push(next.name.clone());
        eviction.settle(true);
    }
    gone
}

#[test]
fn both_caches_evict_by_bytes_and_count_including_errors() {
    for office in [false, true] {
        let prefix = if office { "office-" } else { "" };
        let name = |i: i64| {
            format!("{prefix}{i:016x}-0-0.txt{}", if i % 2 == 0 { ".err" } else { "" })
        };
        let files = |range: std::ops::Range<i64>| -> Vec<CacheFile> {
            range.map(|i| file(i, &name(i), 10)).collect()
        };
        assert!(files(0..6).iter().all(|f| is_entry(&f.name, office)));
        assert_eq!(evicted(files(0..6), 30, 6), vec![name(0), name(1), name(2)]);
        assert_eq!(evicted(files(3..6), 30, 1), vec![name(3), name(4)]);
    }
}

#[test]
fn files_that_stay_are_passed_over() {
    let mut eviction = Eviction::new(vec![file(1, "a", 10), file(2, "b", 10)], 10, 10);
    assert_eq!(eviction.next().unwrap().name, "a");
    eviction.settle(false);
    assert_eq!(eviction.next().unwrap().name, "b");
    eviction.settle(true);
    assert!(eviction.next().is_none());
}

#[test]
fn keys_name_entries() {
    let key = cache_key("office-", 0xabc, u128::from(u64::MAX) + 1, 9);
    assert_eq!(key, "office-0000000000000abc-18446744073709551616-9.txt");
    assert!(is_entry(&key, true));
    assert!(is_entry(&failure_entry(&key), true));
    assert_eq!(limit_for("a.err"), MAX_ERROR_BYTES);
    assert_eq!(limit_for("a.txt"), MAX_ENTRY_BYTES);
    assert!(!is_entry("notes.md", true));
    let kept = oldest_excess(vec![file(2, "b", 1), file(1, "a", 1)], 1);
    assert_eq!(kept.len(), 1);
    assert_eq!(kept[0].name, "a");
}

#[test]
fn oversized_text_and_failure_entries_are_never_read_or_written() {
    let text = vec![b'x'; MAX_ENTRY_BYTES as usize + 1];
    assert_eq!(entry_text("a.txt", &text), None);
    assert_eq!(entry_text("a.txt", b"ok").as_deref(), Some("ok"));
    assert_eq!(entry_text("a.txt", &[0xff]), None);
    let failure = vec![b'x'; MAX_ERROR_BYTES as usize + 1];
    assert_eq!(entry_text("a.txt.err", &failure), None);
    assert!(entry_text("a.txt", &failure).is_some());
    let long = "x".repeat(MAX_ERROR_BYTES as usize + 1);
    assert_eq!(entry_for("a.txt", &Err(long.clone())), None);
    assert!(entry_for("a.txt", &Ok(long)).is_some());
}

#[test]
fn extractions_and_failures_are_remembered() {
    for outcome in [Ok("text".to_string()), Err("broken".to_string())] {
        let (name, body) = entry_for("k.txt", &outcome).unwrap();
        let read = entry_text(&name, body.as_bytes());
        let found = if name == "k.txt" { recall(read, None) } else { recall(None, read) };
        assert_eq!(found, Some(outcome));
    }
    assert_eq!(recall(None, None), None);
}
