use fsearch::filters::Filters;
use fsearch::index::PathStore;
use fsearch::matcher::{
    is_scorable, is_searchable, search, search_boosted, search_boosted_generation, search_lines,
    Candidate, FilenameMode, Highlighter, LineMatcher, Ranked, MIN_KEEP, SCORABLE_LEN,
};
use fsearch::pathmap::PathMap;
use fsearch::quiet::Quiet;
use fsearch::walker::FileMeta;
use nucleo_matcher::pattern::{CaseMatching, Normalization, Pattern};
use nucleo_matcher::{Config, Matcher, Utf32Str};
use std::sync::atomic::{AtomicU64, Ordering};

fn paths(v: &[&str]) -> PathStore {
    let entries: Vec<(String, FileMeta)> = v
        .iter()
        .map(|s| (s.to_string(), Default::default()))
        .collect();
    PathStore::from_entries(&entries)
}

#[test]
fn arbitrary_lines_with_trailing_slashes_match_in_all_modes() {
    let store = paths(&["alpha/nested/", "alpha.txt", "beta/"]);
    for mode in [FilenameMode::Fuzzy, FilenameMode::Regex] {
        assert_eq!(
            search_lines(&store, "", mode, 10, &Filters::default())
                .unwrap()
                .indices,
            [0, 1, 2]
        );
        let hits = search_lines(&store, "alpha", mode, 10, &Filters::default()).unwrap();
        assert_eq!(hits.len(), 2);
        assert!(
            hits.indices.contains(&0),
            "full-line match, not just basename"
        );
        for (input, expected) in [
            ("path:alpha", vec![0, 1]),
            ("ext:txt", vec![1]),
            ("dir:", vec![0, 2]),
        ] {
            let (filters, query) = fsearch::filters::parse(input, 0);
            assert_eq!(
                search_lines(&store, &query, mode, 10, &filters)
                    .unwrap()
                    .indices,
                expected
            );
        }
    }
}

#[test]
fn empty_query_returns_head() {
    let p = paths(&["/a", "/b", "/c"]);
    assert_eq!(
        search(&p, "", FilenameMode::Fuzzy, 2).unwrap().indices,
        vec![0, 1]
    );
}

#[test]
fn fuzzy_ranks_filename_match_over_scattered() {
    let p = paths(&[
        "/code/rust/tools/everything/notes.txt", // scattered match for "rest"
        "/docs/rest-api.md",                     // filename match
    ]);
    let r = search(&p, "rest", FilenameMode::Fuzzy, 10).unwrap();
    assert_eq!(r.indices[0], 1);
}

#[test]
fn fuzzy_is_smart_case() {
    let p = paths(&["/docs/README.md", "/docs/readme-draft.md"]);
    // lowercase query matches both
    assert_eq!(
        search(&p, "readme", FilenameMode::Fuzzy, 10)
            .unwrap()
            .indices
            .len(),
        2
    );
    // uppercase query matches only the uppercase path
    let r = search(&p, "README", FilenameMode::Fuzzy, 10).unwrap();
    assert_eq!(r.indices, vec![0]);
}

#[test]
fn regex_filters_by_full_path() {
    let p = paths(&["/a/report_2024.pdf", "/a/report.txt", "/b/2024.pdf"]);
    let r = search(&p, r"report_\d+\.pdf$", FilenameMode::Regex, 10).unwrap();
    assert_eq!(r.indices, vec![0]);
}

#[test]
fn regex_is_smart_case() {
    let p = paths(&["/a/README.md", "/a/readme.md"]);
    assert_eq!(
        search(&p, "readme", FilenameMode::Regex, 10)
            .unwrap()
            .indices
            .len(),
        2
    );
    assert_eq!(
        search(&p, "README", FilenameMode::Regex, 10)
            .unwrap()
            .indices,
        vec![0]
    );
}

#[test]
fn invalid_regex_is_err() {
    let p = paths(&["/a"]);
    assert!(search(&p, "[unclosed", FilenameMode::Regex, 10).is_err());
}

#[test]
fn boosts_break_fuzzy_ties_and_order_lists() {
    let p = paths(&["/docs/readme-a.md", "/docs/readme-b.md"]);
    let mut boosts = PathMap::new();
    boosts.insert("/docs/readme-b.md".to_string(), 50u32);
    // identical fuzzy quality: boost wins
    let r = search_boosted(
        &p,
        "readme",
        FilenameMode::Fuzzy,
        10,
        &boosts,
        &Filters::default(),
        &Quiet::new(Vec::new()),
    )
    .unwrap();
    assert_eq!(r.indices[0], 1);
    // empty query: boosted file floats to the top
    let r = search_boosted(
        &p,
        "",
        FilenameMode::Fuzzy,
        10,
        &boosts,
        &Filters::default(),
        &Quiet::new(Vec::new()),
    )
    .unwrap();
    assert_eq!(r.indices, vec![1, 0]);
    // regex: boosted file first, others keep index order
    let r = search_boosted(
        &p,
        "readme",
        FilenameMode::Regex,
        10,
        &boosts,
        &Filters::default(),
        &Quiet::new(Vec::new()),
    )
    .unwrap();
    assert_eq!(r.indices, vec![1, 0]);
}

#[test]
fn filters_narrow_all_modes() {
    let p = paths(&["/docs/a.pdf", "/docs/a.txt", "/docs/sub/", "/extra/b.pdf"]);
    let (f, _) = fsearch::filters::parse("ext:pdf path:docs x", 0);
    let none = PathMap::new();
    // empty query honors filters
    let r = search_boosted(
        &p,
        "",
        FilenameMode::Fuzzy,
        10,
        &none,
        &f,
        &Quiet::new(Vec::new()),
    )
    .unwrap();
    assert_eq!(r.indices, vec![0]);
    // fuzzy honors filters
    let r = search_boosted(
        &p,
        "a",
        FilenameMode::Fuzzy,
        10,
        &none,
        &f,
        &Quiet::new(Vec::new()),
    )
    .unwrap();
    assert_eq!(r.indices, vec![0]);
    // dirs only with dir:
    let (fd, _) = fsearch::filters::parse("dir: x", 0);
    let r = search_boosted(
        &p,
        "",
        FilenameMode::Fuzzy,
        10,
        &none,
        &fd,
        &Quiet::new(Vec::new()),
    )
    .unwrap();
    assert_eq!(r.indices, vec![2]);
    // default (no filters) excludes dirs
    let r = search(&p, "", FilenameMode::Fuzzy, 10).unwrap();
    assert_eq!(r.indices, vec![0, 1, 3]);
}

#[test]
fn quiet_paths_fold_behind_strong_matches() {
    let p = paths(&[
        "/Users/j/Documents/cisco-notes.md",
        "/Users/j/.cisco/vpn/log/UIHistory.txt",
        "/Users/j/Library/Application Support/Cisco/state.json",
    ]);
    let q = Quiet::default();
    let r = search_boosted(
        &p,
        "cisco",
        FilenameMode::Fuzzy,
        10,
        &PathMap::new(),
        &Filters::default(),
        &q,
    )
    .unwrap();
    // the real document is strong; the log/state churn sits behind the fold
    assert_eq!(r.indices[0], 0);
    assert_eq!(r.strong, 1, "quiet matches must fall below the floor");
    assert_eq!(r.indices.len(), 3, "still reachable via ctrl-x");
}

#[test]
fn slash_in_query_disables_quiet_demotion() {
    let p = paths(&[
        "/Users/j/Documents/cisco-notes.md",
        "/Users/j/.cisco/vpn/log/UIHistory.txt",
    ]);
    let q = Quiet::default();
    let r = search_boosted(
        &p,
        "cisco/",
        FilenameMode::Fuzzy,
        10,
        &PathMap::new(),
        &Filters::default(),
        &q,
    )
    .unwrap();
    // path intent: the hidden-dir hit competes on equal terms
    assert_eq!(r.strong, r.indices.len());
    assert!(r.indices.contains(&1));
}

#[test]
fn all_quiet_matches_stay_visible() {
    let p = paths(&[
        "/Users/j/.config/nvim/init.lua",
        "/Users/j/.config/nvim/lazy-lock.json",
    ]);
    let q = Quiet::default();
    let r = search_boosted(
        &p,
        "nvim",
        FilenameMode::Fuzzy,
        10,
        &PathMap::new(),
        &Filters::default(),
        &q,
    )
    .unwrap();
    // demotion is relative: with no louder candidate, nothing folds
    assert_eq!(r.strong, 2);
}

#[test]
fn launch_screen_head_sinks_quiet_churn() {
    let p = paths(&[
        "/Users/j/Library/Biome/sessions/heartbeat", // newest, junk
        "/Users/j/.cisco/vpn/log/UIHistory.txt",
        "/Users/j/Documents/report.md",
        "/Users/j/Desktop/photo.png",
    ]);
    let q = Quiet::default();
    let r = search_boosted(
        &p,
        "",
        FilenameMode::Fuzzy,
        10,
        &PathMap::new(),
        &Filters::default(),
        &q,
    )
    .unwrap();
    assert_eq!(&r.indices[..2], &[2, 3], "real files first");
    assert_eq!(r.strong, 2);
    assert_eq!(r.indices.len(), 4, "churn folded, not hidden");
}

#[test]
fn highlighter_finds_match_positions() {
    let mut h = Highlighter::new("rest");
    let pos = h.positions("/docs/rest-api.md");
    // "rest" sits at chars 6..10
    assert_eq!(pos, vec![6, 7, 8, 9]);
    // non-matching text yields no positions
    assert!(h.positions("/zzz").is_empty());
}

#[test]
fn passport_ranks_real_files_and_cuts_scattered_junk() {
    let mut owned: Vec<String> = vec![
        "/documents/passport.pdf".to_string(),
        "/scans/Passport-2024.jpg".to_string(),
    ];
    // each decoy carries p-a-s-s-p-o-r-t scattered across
    // pkgs/assets/support but its filename does not match
    owned.extend((0..30).map(|i| format!("/code{i}/pkgs/assets/support/notes.txt")));
    let strs: Vec<&str> = owned.iter().map(|s| s.as_str()).collect();
    let p = paths(&strs);
    let r = search(&p, "passport", FilenameMode::Fuzzy, 500).unwrap();
    // the two real files are the top two results, in some order
    assert_ne!(r.indices[0], r.indices[1]);
    assert!(r.indices[0] == 0 || r.indices[0] == 1);
    assert!(r.indices[1] == 0 || r.indices[1] == 1);
    // more than 8 candidates matched (the decoys are real subsequence
    // matches), so a strong count of exactly MIN_KEEP marks the relative
    // score floor while the decoys live on as fold-away weaker matches
    assert_eq!(r.strong, 8);
    // the decoys are retained after the strong block, ready to be
    // revealed with ctrl-x
    assert_eq!(r.indices.len(), 32);
}

#[test]
fn exact_atom_requires_contiguous_substring() {
    let p = paths(&["/a/passport.pdf", "/a/pass_port.txt"]);
    // plain fuzzy matches the underscore-scattered path as a subsequence
    assert_eq!(
        search(&p, "passport", FilenameMode::Fuzzy, 10)
            .unwrap()
            .indices
            .len(),
        2
    );
    // the ' atom requires a contiguous substring
    assert_eq!(
        search(&p, "'passport", FilenameMode::Fuzzy, 10)
            .unwrap()
            .indices,
        vec![0]
    );
}

#[test]
fn filename_bonus_outranks_path_only_match() {
    let p = paths(&["/passport/archive/list.txt", "/misc/passport.pdf"]);
    let r = search(&p, "passport", FilenameMode::Fuzzy, 10).unwrap();
    assert_eq!(r.indices[0], 1);
}

#[test]
fn project_queries_rank_directories_and_files_inside_them() {
    let p = paths(&[
        "/Users/j/Documents/sage-kc/",
        "/Users/j/Documents/sage-kc/README.md",
        "/Users/j/Documents/sage-kc/src/main.rs",
        "/Users/j/Documents/Sage Kc.md",
        "/Users/j/Documents/staging/keep/cache.txt",
    ]);
    let r = search(&p, "sage kc", FilenameMode::Fuzzy, 10).unwrap();
    let directory = r.indices.iter().position(|&i| i == 0).unwrap();
    assert!(directory < 3, "project directory ranked at {directory}");

    let noise = r.indices.iter().position(|&i| i == 4).unwrap();
    let inside = r.indices.iter().position(|&i| i == 1 || i == 2).unwrap();
    assert!(inside < noise, "project file ranked above noise");
}

#[test]
fn fuzzy_directories_need_a_last_segment_match() {
    let p = paths(&[
        "/Users/j/Documents/sage-kc/",
        "/Users/j/Documents/sage-kc/archive/",
        "/Users/j/Documents/noise.txt",
    ]);
    let r = search(&p, "sage kc", FilenameMode::Fuzzy, 10).unwrap();
    assert!(r.indices.contains(&0));
    assert!(
        !r.indices.contains(&1),
        "nested directory matched only through its parent"
    );
}

#[test]
fn path_intent_can_find_a_nested_directory() {
    let p = paths(&["/Users/j/Documents/sage-kc/archive/"]);
    let (filters, query) = fsearch::filters::parse("path:sage-kc archive", 0);
    let r = search_boosted(
        &p,
        &query,
        FilenameMode::Fuzzy,
        10,
        &PathMap::new(),
        &filters,
        &Quiet::new(Vec::new()),
    )
    .unwrap();
    assert_eq!(r.indices, vec![0]);
}

#[test]
fn single_word_queries_keep_filename_ordering() {
    let p = paths(&["/sage-kc/readme.txt", "/misc/readme.txt"]);
    let r = search(&p, "readme", FilenameMode::Fuzzy, 10).unwrap();
    assert_eq!(r.indices, vec![0, 1]);
}

#[test]
fn limit_is_respected() {
    let owned: Vec<String> = (0..100).map(|i| format!("/f/file{i}.txt")).collect();
    let strs: Vec<&str> = owned.iter().map(|s| s.as_str()).collect();
    let p = paths(&strs);
    assert_eq!(
        search(&p, "file", FilenameMode::Fuzzy, 5)
            .unwrap()
            .indices
            .len(),
        5
    );
}

#[test]
fn stale_generation_is_cancelled_without_changing_legacy_api() {
    let store = paths(&["/a/report.txt", "/b/report.txt"]);
    let current = AtomicU64::new(2);
    assert!(
        search_boosted_generation(
            &store,
            "report",
            FilenameMode::Fuzzy,
            10,
            &PathMap::new(),
            &Filters::default(),
            &Quiet::new(Vec::new()),
            1,
            &current,
        )
        .unwrap()
        .is_none()
    );
    current.store(1, Ordering::Release);
    assert!(
        search(&store, "report", FilenameMode::Fuzzy, 10)
            .unwrap()
            .indices
            .len()
            > 0
    );
}

#[test]
fn bounded_fuzzy_order_matches_full_sort_oracle() {
    let mut owned: Vec<String> = (0..240)
        .map(|i| match i % 6 {
            0 => format!("/docs/project-{i}/report-{i}.md"),
            1 => format!("/Users/j/Library/state/report-{i}.json"),
            2 => format!("/misc/archive/re-pair-{i}.txt"),
            3 => format!("/docs/é/{i}/résumé-{i}.md"),
            4 => format!("/noise-{i}/support/notes.txt"),
            _ => format!("/docs/report-{i}.bak/"),
        })
        .collect();
    owned.extend([
        "/docs/report-final.md".to_string(),
        "/Users/j/Library/report-final.json".to_string(),
        "/docs/project-final/README.md".to_string(),
    ]);
    let path_refs: Vec<&str> = owned.iter().map(String::as_str).collect();
    let store = paths(&path_refs);
    let mut boosts = PathMap::new();
    boosts.insert("/docs/report-final.md".to_string(), 50);
    boosts.insert("/misc/archive/re-pair-2.txt".to_string(), 50);
    let quiet = Quiet::default();
    let actual = search_boosted(
        &store,
        "report",
        FilenameMode::Fuzzy,
        17,
        &boosts,
        &Filters::default(),
        &quiet,
    )
    .unwrap();

    let pattern = Pattern::parse("report", CaseMatching::Smart, Normalization::Smart);
    let mut cfg = Config::DEFAULT;
    cfg.set_match_paths();
    let mut matcher = Matcher::new(cfg);
    let mut buf = Vec::new();
    let mut scored = Vec::new();
    for i in 0..store.len() {
        let path = store.get(i);
        let Some(score) = pattern.score(Utf32Str::new(path, &mut buf), &mut matcher) else {
            continue;
        };
        let name = path.trim_end_matches('/').rsplit('/').next().unwrap_or("");
        let name_score = pattern.score(Utf32Str::new(name, &mut buf), &mut matcher);
        let is_dir = path.ends_with('/');
        if is_dir && name_score.is_none() {
            continue;
        }
        let boost = boosts.get(path).copied().unwrap_or(0);
        let quiet_hit = quiet.is_quiet(path);
        let mut total = score + name_score.unwrap_or(0) + boost;
        if quiet_hit {
            total = total * 2 / 5;
        }
        scored.push(Candidate {
            score: total as u64,
            index: i,
            quiet: quiet_hit,
        });
    }
    scored.sort_unstable_by(|a, b| {
        a.quiet
            .cmp(&b.quiet)
            .then_with(|| b.score.cmp(&a.score))
            .then_with(|| a.index.cmp(&b.index))
    });
    let non_quiet = scored.partition_point(|candidate| !candidate.quiet);
    let floor = |candidates: &[Candidate]| {
        candidates
            .partition_point(|candidate| {
                candidate.score >= candidates.first().map_or(0, |best| best.score / 2)
            })
            .max(MIN_KEEP.min(candidates.len()))
    };
    let strong = if non_quiet > 0 {
        floor(&scored[..non_quiet])
    } else {
        floor(&scored)
    };
    scored.truncate(17);
    let expected = Ranked {
        indices: scored.iter().map(|candidate| candidate.index).collect(),
        strong: strong.min(scored.len()),
    };
    assert_eq!(actual, expected);
}

#[test]
fn first_matches_are_found_in_characters() {
    let m = LineMatcher::new("needle").unwrap();
    assert_eq!(m.first_match("é Needle needle"), Some((2, 8)));
    assert_eq!(m.first_match("hay"), None);
    let exact = LineMatcher::new("Needle").unwrap();
    assert_eq!(exact.first_match("needle Needle"), Some((7, 13)));
    assert!(LineMatcher::new("[bad").is_none());
}

#[test]
fn searches_of_lines_stop_for_a_newer_generation() {
    let entries: Vec<(String, FileMeta)> = ["alpha/", "beta"]
        .iter()
        .map(|l| (l.to_string(), FileMeta::default()))
        .collect();
    let store = PathStore::from_entries(&entries);
    let current = AtomicU64::new(7);
    let search = |generation: u64| {
        fsearch::matcher::search_lines_generation(
            &store,
            "alpha",
            FilenameMode::Fuzzy,
            10,
            &Filters::default(),
            generation,
            &current,
        )
        .unwrap()
    };
    assert_eq!(search(7).unwrap().indices, vec![0]);
    current.store(8, std::sync::atomic::Ordering::Relaxed);
    assert!(search(7).is_none());
}

fn numbered_entries(n: usize) -> PathStore {
    let entries: Vec<(String, FileMeta)> = (0..n)
        .map(|i| (format!("/n/{i}.txt"), FileMeta::default()))
        .collect();
    PathStore::from_entries(&entries)
}

#[test]
fn one_stale_look_ends_a_search() {
    // two chunks: a look at the start, one before each chunk, one at the end
    let store = numbered_entries(fsearch::matcher::CHUNK + 1);
    let run = |query: &str, mode: FilenameMode, readings: &[u64]| {
        fsearch::matcher::search_boosted_readings(
            &store,
            query,
            mode,
            3,
            &PathMap::new(),
            &Filters::default(),
            &Quiet::new(Vec::new()),
            1,
            readings,
        )
        .unwrap()
    };
    for mode in [FilenameMode::Fuzzy, FilenameMode::Regex] {
        for stale in 0..4 {
            let mut readings = vec![1; 4];
            readings[stale] = 2;
            assert!(run("16384", mode, &readings).is_none());
        }
        let found = run("16384", mode, &[1, 1, 1, 1, 2]).unwrap();
        assert_eq!(found.indices, vec![16384]);
        assert_eq!(run("16384", mode, &[]).unwrap().indices, vec![16384]);
    }
    // without a query there is no look at the end
    assert!(run("", FilenameMode::Fuzzy, &[1, 1, 2]).is_none());
    assert_eq!(
        run("", FilenameMode::Fuzzy, &[1, 1, 1, 2]).unwrap().indices,
        vec![0, 1, 2]
    );
}

#[test]
fn a_stale_search_reports_no_error() {
    let store = numbered_entries(2);
    let run = |readings: &[u64]| {
        fsearch::matcher::search_lines_readings(
            &store,
            "[",
            FilenameMode::Regex,
            10,
            &Filters::default(),
            5,
            readings,
        )
    };
    assert_eq!(run(&[6]), Ok(None));
    assert!(run(&[5, 6]).is_err());
    assert!(run(&[]).is_err());
}

#[test]
fn fewer_results_are_a_prefix() {
    let store = paths(&[
        "/a/report.txt", "/b/rep/ort.md", "/c/report-final.txt", "/x/r_e_p_o_r_t", "/Library/report.txt",
    ]);
    let quiet = Quiet::default();
    for query in ["report", "", "re"] {
        for mode in [FilenameMode::Fuzzy, FilenameMode::Regex] {
            let run = |limit: usize| {
                fsearch::matcher::search_boosted(
                    &store, query, mode, limit, &PathMap::new(), &Filters::default(), &quiet,
                )
                .unwrap()
            };
            let all = run(100);
            for k in 0..7 {
                let few = run(k);
                assert_eq!(few.indices, all.indices[..k.min(all.indices.len())]);
                assert_eq!(few.strong, all.strong.min(k));
            }
        }
    }
}

#[test]
fn regex_searches_take_any_length() {
    let long = "a".repeat(3000);
    let store = paths(&["/x", &long]);
    let found = search(&store, &long, FilenameMode::Regex, 5).unwrap();
    assert_eq!(found.indices, vec![1]);
}

#[test]
fn long_queries_and_texts_are_not_scored_together() {
    let long = "x".repeat(SCORABLE_LEN);
    let longer = "x".repeat(SCORABLE_LEN + 1);
    assert!(is_scorable(&long, &longer));
    assert!(is_scorable(&longer, &long));
    assert!(!is_scorable(&longer, &longer));
    // a backslash may take the room of two characters
    let query = format!("é{}", "\\".repeat(1312));
    let text = format!("é{}", "\\".repeat(2623));
    assert!(!is_scorable(&query, &text));
    assert!(is_scorable(&query, "é\\"));
    assert!(!is_searchable(&paths(&["/a", &text]), &query));
    assert!(is_searchable(&paths(&["/a", &text]), "é"));
    assert!(is_searchable(&paths(&["/a", "/b"]), &query));
}

#[test]
fn texts_that_fold_into_an_accented_query_are_not_scored() {
    assert!(!is_scorable("sé", "ſséx"));
    assert!(is_scorable("sé", "séx"));
    assert!(is_scorable("s", "ſséx"));
    assert!(is_scorable("σ", "ς"));
    assert!(is_scorable("é", "λόγος"));
    let mut highlighter = Highlighter::new("é");
    assert_eq!(highlighter.positions("λόγος é"), vec![6]);
}
