use fsearch::content::{
    hits_from, is_eligible, search, ContentMatch, Grep, TextFile, PER_FILE_CAP,
};

fn run(files: &[(&str, &[u8])], pattern: &str, max: u64) -> Result<Vec<ContentMatch>, String> {
    let files: Vec<TextFile> = files
        .iter()
        .map(|(name, body)| TextFile {
            path: format!("/d/{name}"),
            is_file: true,
            size: body.len() as u64,
            data: body.to_vec(),
        })
        .collect();
    search(&files, pattern, max)
}

#[test]
fn finds_matching_lines_with_numbers() {
    let hits = run(
        &[("a.txt", b"one\ntwo needle two\nthree\nneedle\n")],
        "needle",
        1024,
    )
    .unwrap();
    assert_eq!(hits.len(), 2);
    assert!(
        hits.iter()
            .any(|h| h.line_number == 2 && h.line.contains("two needle two"))
    );
    assert!(hits.iter().any(|h| h.line_number == 4));
}

#[test]
fn smart_case() {
    let files: &[(&str, &[u8])] = &[("a.txt", b"Needle\nneedle\n")];
    assert_eq!(run(files, "needle", 1024).unwrap().len(), 2);
    assert_eq!(run(files, "Needle", 1024).unwrap().len(), 1);
}

#[test]
fn skips_binary_and_oversized_files() {
    let big = "needle\n".repeat(200); // > 1KiB when max is 1024
    let hits = run(
        &[
            ("bin.dat", b"needle\x00needle" as &[u8]),
            ("big.txt", big.as_bytes()),
            ("ok.txt", b"needle\n"),
        ],
        "needle",
        1024,
    )
    .unwrap();
    assert_eq!(hits.len(), 1);
    assert!(hits[0].path.ends_with("ok.txt"));
}

#[test]
fn regex_patterns_work() {
    let hits = run(
        &[("a.txt", b"invoice 2024-08\nno match\n")],
        r"invoice \d{4}-\d{2}",
        1024,
    )
    .unwrap();
    assert_eq!(hits.len(), 1);
}

#[test]
fn invalid_pattern_is_err() {
    assert!(run(&[], "[bad", 1024).is_err());
}

#[test]
fn per_file_cap_is_20() {
    let body = "needle\n".repeat(100);
    let hits = run(&[("a.txt", body.as_bytes())], "needle", 10_240).unwrap();
    assert_eq!(hits.len(), 20);
}

#[test]
fn hits_lose_trailing_spaces() {
    let lines = vec![(3, "needle  \t\n".to_string())];
    assert_eq!(
        hits_from("/a", &lines),
        vec![ContentMatch {
            path: "/a".to_string(),
            line_number: 3,
            line: "needle".to_string()
        }]
    );
    let many: Vec<(u64, String)> = (0..50).map(|n| (n, String::new())).collect();
    assert_eq!(hits_from("/a", &many).len(), PER_FILE_CAP);
}

#[test]
fn only_regular_files_are_searched() {
    assert!(is_eligible(true, 5, 5));
    assert!(!is_eligible(true, 6, 5));
    assert!(!is_eligible(false, 1, 5));
    let grep = Grep::new("x").unwrap();
    let dir = TextFile {
        path: "/d".to_string(),
        is_file: false,
        size: 1,
        data: b"x\n".to_vec(),
    };
    assert!(grep.search_file(&dir, 100).is_empty());
    // a line that is not text ends the search of its file
    let mixed = TextFile {
        path: "/d".to_string(),
        is_file: true,
        size: 8,
        data: b"x\nx\xff\nx\n".to_vec(),
    };
    assert_eq!(grep.search_file(&mixed, 100).len(), 1);
}
