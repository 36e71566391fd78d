use fsearch::filters::{parse, Filters};
use fsearch::sem::{
    check_store, chunk_text, decode, encode, find_reusable, is_semantic_path, row_text,
    snippet_line, BuildStats, Builder, SemStore, StoreError, StoreGap, MAX_DOCS,
};
use half::f16;
use std::hash::{Hash, Hasher};

#[test]
fn chunking_covers_text_and_tracks_lines() {
    let text = (1..=100)
        .map(|i| format!("line number {i} with some words"))
        .collect::<Vec<_>>()
        .join("\n");
    let chunks = chunk_text(&text, 300, 60);
    assert!(chunks.len() > 5);
    assert_eq!(chunks[0].line_start, 1);
    // line starts increase and stay in range
    let lines: Vec<u32> = chunks.iter().map(|c| c.line_start).collect();
    assert!(lines.windows(2).all(|w| w[0] <= w[1]));
    assert!(*lines.last().unwrap() <= 100);
    // every source line appears in some chunk
    assert!(chunks.iter().any(|c| c.text.contains("line number 100")));
}

#[test]
fn chunking_preserves_characters_across_boundaries() {
    for len in [0, 1, 2, 11, 37, 129] {
        let mut text = String::new();
        for i in 0..len {
            text.push(char::from_u32(0x1000 + i as u32).unwrap());
            if i % 11 == 10 {
                text.push('\n');
            }
        }
        for target in [1, 2, 7, 16, 64, usize::MAX] {
            for overlap in [0, 1, target / 2, target.saturating_sub(1), target] {
                let chunks = chunk_text(&text, target, overlap);
                let mut seen = vec![false; len];
                let mut prior_line = 0;
                for chunk in chunks {
                    assert!(!chunk.text.trim().is_empty());
                    assert!(chunk.line_start >= prior_line);
                    prior_line = chunk.line_start;
                    for ch in chunk.text.chars().filter(|ch| *ch != '\n') {
                        let index = (ch as u32 - 0x1000) as usize;
                        seen[index] = true;
                    }
                }
                assert!(seen.into_iter().all(|value| value));
            }
        }
    }
    assert!(chunk_text("text", 0, 10).is_empty());
    assert!(chunk_text(" \n\t", 2, 1).is_empty());
}

#[test]
fn semantic_paths_recognized() {
    assert!(is_semantic_path("/a/notes.md"));
    assert!(is_semantic_path("/a/paper.PDF"));
    assert!(is_semantic_path("/a/report.DOCX"));
    assert!(is_semantic_path("/a/budget.xlsx"));
    assert!(!is_semantic_path("/a/binary.dat"));
    assert!(!is_semantic_path("/a/code.rs"));
}

fn bits(v: &[f32]) -> Vec<u16> {
    v.iter().map(|x| f16::from_f32(*x).to_bits()).collect()
}

/// Similarities as a caller computes them from the stored vectors.
fn scores(store: &SemStore, query: &[f32]) -> Vec<u32> {
    let dim = store.dim as usize;
    (0..store.chunk_count())
        .map(|c| {
            let dot: f32 = (0..dim)
                .map(|i| {
                    let b = store.vector_bits_at(c * dim + i).unwrap();
                    f16::from_bits(b).to_f32() * query[i]
                })
                .sum();
            dot.to_bits()
        })
        .collect()
}

/// An embedding by vocabulary: each word adds to the place that its hash picks.
fn hash_embed(text: &str, dim: usize) -> Vec<f32> {
    let mut v = vec![0f32; dim];
    for token in text.split_whitespace() {
        let mut h = std::collections::hash_map::DefaultHasher::new();
        token.to_ascii_lowercase().hash(&mut h);
        v[(h.finish() as usize) % dim] += 1.0;
    }
    let norm = v.iter().map(|x| x * x).sum::<f32>().sqrt();
    if norm > 0.0 {
        for x in v.iter_mut() {
            *x /= norm;
        }
    }
    v
}

#[test]
fn store_roundtrip_and_query() {
    let mut store = SemStore::new(64);
    for (path, text) in [
        ("/docs/money.md", "compound interest rewards patience"),
        ("/docs/garden.md", "tomatoes need sun and water"),
    ] {
        store.push_doc(path, 1, 10, &vec![(1, bits(&hash_embed(text, 64)))]);
    }
    let loaded = decode(&encode(&store).unwrap()).unwrap();
    assert_eq!(loaded.docs, store.docs);
    assert_eq!(loaded.chunk_count(), 2);

    let q = hash_embed("interest and patience", 64);
    let hits = loaded.query(&scores(&loaded, &q), &Filters::default(), 5);
    assert_eq!(hits.len(), 2);
    assert_eq!(loaded.docs[hits[0].doc].path, "/docs/money.md");
    assert!(f32::from_bits(hits[0].score) > f32::from_bits(hits[1].score));
}

#[test]
fn filters_apply_before_the_limit_of_a_query() {
    let mut store = SemStore::new(2);
    store.push_doc("/docs/money.md", 1, 10, &vec![(1, bits(&[1.0, 0.0]))]);
    store.push_doc("/docs/garden.md", 1, 10, &vec![(1, bits(&[0.25, 0.5]))]);
    let scores = scores(&store, &[1.0, 0.0]);
    let hits = store.query(&scores, &Filters::default(), 1);
    assert_eq!(store.docs[hits[0].doc].path, "/docs/money.md");
    let (filters, _) = parse("path:garden", 0);
    let hits = store.query(&scores, &filters, 1);
    assert_eq!(store.docs[hits[0].doc].path, "/docs/garden.md");
}

#[test]
fn stored_vectors_keep_half_precision() {
    let mut store = SemStore::new(3);
    let vector = [1.0f32, 0.3333, -2.5];
    store.push_doc("/a/doc.md", 1, 10, &vec![(7, bits(&vector))]);
    let loaded = decode(&encode(&store).unwrap()).unwrap();
    for (i, value) in vector.iter().enumerate() {
        assert_eq!(
            loaded.vector_bits_at(i),
            Some(f16::from_f32(*value).to_bits())
        );
    }
    assert_eq!(loaded.vector_bits_at(3), None);
    let hits = loaded.query(&scores(&loaded, &vector), &Filters::default(), 1);
    assert_eq!(hits[0].line_start, 7);
}

#[test]
fn corrupt_store_lengths_ranges_and_old_version_are_rejected() {
    let mut store = SemStore::new(2);
    store.push_doc("/a", 1, 2, &vec![(1, bits(&[1.0, 0.0]))]);
    let good = encode(&store).unwrap();
    for len in 0..28 {
        assert!(decode(&vec![0; len]).is_none(), "accepted {len}-byte file");
    }

    let mut huge = good[..8].to_vec();
    huge.truncate(8);
    huge.extend_from_slice(&good[8..12]);
    huge.extend_from_slice(&u64::MAX.to_le_bytes());
    huge.extend_from_slice(&u64::MAX.to_le_bytes());
    assert!(decode(&huge).is_none());

    let mut bounded_counts = good[..12].to_vec();
    bounded_counts.extend_from_slice(&(MAX_DOCS as u64).to_le_bytes());
    bounded_counts.extend_from_slice(&0u64.to_le_bytes());
    assert!(decode(&bounded_counts).is_none());

    // an older version must be rebuilt rather than misread
    let mut bytes = good.clone();
    bytes[4] = 1;
    assert!(decode(&bytes).is_none());
    // The first document's chunk_start follows path, mtime, and size.
    let mut bytes = good.clone();
    let chunk_start = 28 + 4 + 2 + 8 + 8;
    bytes[chunk_start..chunk_start + 4].copy_from_slice(&1u32.to_le_bytes());
    assert!(decode(&bytes).is_none());
    let mut bytes = good.clone();
    bytes.push(0);
    assert!(decode(&bytes).is_none());
    assert!(decode(&good).is_some());
}

#[test]
fn inconsistent_stores_are_not_written() {
    let mut store = SemStore::new(2);
    store.push_doc("/a", 1, 2, &vec![(1, bits(&[1.0, 0.0]))]);
    store.vectors.pop();
    let error: StoreError = encode(&store).err().unwrap();
    assert!(!error.message().is_empty());
}

/// A stand-in for an embedder: one vector per text.
fn embed(texts: &[String]) -> Vec<Vec<u16>> {
    texts.iter().map(|t| bits(&[t.len() as f32, 1.0])).collect()
}

type File = (&'static str, i64, u64, Option<&'static str>);

fn build(files: &[File], prior: Option<&SemStore>) -> (SemStore, BuildStats) {
    let mut builder = Builder::new(2);
    for (path, mtime, size, text) in files {
        let reusable = prior.and_then(|p| find_reusable(p, 2, path, *mtime, *size));
        match (prior, reusable) {
            (Some(p), Some(i)) => builder.reuse(p, i),
            _ => {
                builder.offer(path, *mtime, *size, *text);
            }
        }
    }
    let vectors = embed(&builder.batch());
    builder.accept(&vectors).unwrap();
    builder.finish()
}

#[test]
fn build_reuses_unchanged_docs_and_skips_unreadable() {
    let (first, stats) = build(
        &[
            ("/a/money.md", 100, 40, Some("compound interest rewards patience")),
            ("/a/garden.md", 200, 30, Some("tomatoes need sun and water")),
            ("/a/gone.md", 300, 20, None),
        ],
        None,
    );
    assert_eq!(
        stats,
        BuildStats {
            embedded: 2,
            reused: 0,
            skipped: 1
        }
    );
    let loaded = decode(&encode(&first).unwrap()).unwrap();
    let unchanged: [File; 2] = [("/a/money.md", 100, 40, None), ("/a/garden.md", 200, 30, None)];
    let (reused, stats) = build(&unchanged, Some(&loaded));
    assert_eq!(stats.reused, 2);
    assert_eq!(reused.vector_bits_at(0), first.vector_bits_at(0));

    // second build: money.md unchanged, garden.md touched
    let (second, stats2) = build(
        &[
            ("/a/money.md", 100, 40, None),
            ("/a/garden.md", 999, 31, Some("tomatoes need sun water and mulch")),
        ],
        Some(&first),
    );
    assert_eq!(
        stats2,
        BuildStats {
            embedded: 1,
            reused: 1,
            skipped: 0
        }
    );
    // reused vectors are byte-identical to the first build's
    for i in 0..2 {
        assert_eq!(second.vector_bits_at(i), first.vector_bits_at(i));
    }
}

#[test]
fn embedders_that_lose_vectors_are_errors() {
    let mut builder = Builder::new(2);
    builder.offer("/a.md", 1, 1, Some("text"));
    assert!(builder.accept(&vec![]).is_err());
}

#[test]
fn snippet_line_returns_trimmed_capped_line() {
    let text = "first line\n  second line padded  \nthird line\n";
    // 1-based line lookup, trimmed
    assert_eq!(snippet_line(text, 2), Some("second line padded".to_string()));
    // out-of-range line yields None
    assert_eq!(snippet_line(text, 99), None);
    let long = format!("first\n{}\n", "é".repeat(300));
    assert_eq!(snippet_line(&long, 2).unwrap().chars().count(), 160);
    assert_eq!(row_text(0, Some("snippet".to_string()), "80%".to_string()), "snippet");
    assert_eq!(row_text(24, Some("snippet".to_string()), "80%".to_string()), "80%");
    assert_eq!(row_text(0, None, "80%".to_string()), "80%");
}

#[test]
fn stores_of_other_models_cannot_answer() {
    assert!(check_store(Some(64), 64).is_ok());
    assert_eq!(check_store(Some(32), 64), Err(StoreGap::OtherModel));
    assert_eq!(check_store(None, 64), Err(StoreGap::Missing));
    assert!(StoreGap::Missing.message().contains("no semantic index yet"));
    assert!(StoreGap::OtherModel.message().contains("another model"));
}

#[test]
fn cut_and_lengthened_store_files_are_refused() {
    let mut store = SemStore::new(2);
    store.push_doc("/a.md", 7, 9, &vec![(1, bits(&[1.0, 0.5]))]);
    let whole = encode(&store).unwrap();
    assert!(decode(&whole).is_some());
    for n in 0..whole.len() {
        assert!(decode(&whole[..n]).is_none(), "accepted {n} of {} bytes", whole.len());
    }
    let mut longer = whole.clone();
    longer.push(0);
    assert!(decode(&longer).is_none());
}
