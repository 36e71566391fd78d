use fsearch::fusion::{merge_unified_results, ResultRow};

fn row(path: &str, score: Option<u32>) -> ResultRow {
    ResultRow {
        path: path.to_string(),
        line_number: score.map(|_| 1),
        line: None,
        recent_open: false,
        meta: None,
        score,
    }
}

#[test]
fn merged_rankings_hold_every_file_once() {
    let filename = vec![row("/a", None), row("/b", None), row("/a", None)];
    let semantic = vec![row("/c", Some(9)), row("/b", Some(8))];
    let merged = merge_unified_results(&filename, &semantic);
    let paths: Vec<&str> = merged.iter().map(|r| r.path.as_str()).collect();
    // found by both comes first; equal scores go to the filename ranking
    assert_eq!(paths, ["/b", "/a", "/c"]);
    assert_eq!(merged[0].score, Some(8));
    assert_eq!(merged[0].line_number, Some(1));
    assert_eq!(merge_unified_results(&filename, &semantic), merged);
    assert!(merge_unified_results(&Vec::new(), &Vec::new()).is_empty());
}
