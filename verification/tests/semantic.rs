use fsearch::engine::Msg;
use fsearch::sem::{Hit, SemStore, StoreGap};
use fsearch::semantic::{answer, clamp_score, semantic_rows, Worker};

#[test]
fn workers_load_and_reload_the_store() {
    let mut worker = Worker::new(0);
    assert!(!worker.is_ready());
    assert!(!worker.look_due(5_000));
    assert_eq!(worker.loaded(None, 2, None), Err(StoreGap::Missing));
    assert_eq!(worker.loaded(Some(3), 2, Some((1, 0))), Err(StoreGap::OtherModel));
    assert!(!worker.is_ready());
    assert_eq!(worker.loaded(Some(2), 2, Some((1, 0))), Ok(()));
    assert!(worker.is_ready());
    assert!(!worker.look_due(999));
    assert!(worker.look_due(1_000));
    worker.looked(Some((1, 0)));
    assert!(worker.is_ready());
    assert!(!worker.look_due(1_500));
    assert!(worker.look_due(2_000));
    worker.looked(Some((1, 7)));
    assert!(!worker.is_ready());
}

#[test]
fn scores_are_clamped() {
    for score in [-1.5f32, -0.0, 0.0, 0.25, 1.0, 1.5, f32::INFINITY, f32::NEG_INFINITY] {
        assert_eq!(clamp_score(score.to_bits()), score.clamp(0.0, 1.0).to_bits(), "{score}");
    }
    assert!(f32::from_bits(clamp_score(f32::NAN.to_bits())).is_nan());
}

#[test]
fn rows_show_snippets_or_scores() {
    let mut store = SemStore::new(1);
    store.push_doc("/a.md", 1, 1, &vec![(4, vec![0])]);
    let hits: Vec<Hit> = (0..30)
        .map(|_| Hit { doc: 0, line_start: 4, score: 2.0f32.to_bits() })
        .collect();
    let shown = (0..30)
        .map(|i| ((i != 1).then(|| format!("line {i}")), "90% match".to_string()))
        .collect();
    let rows = semantic_rows(&store, &hits, shown);
    assert_eq!(rows.len(), 30);
    assert_eq!(rows[0].path, "/a.md");
    assert_eq!(rows[0].line.as_deref(), Some("line 0"));
    assert_eq!(rows[1].line.as_deref(), Some("90% match"));
    assert_eq!(rows[23].line.as_deref(), Some("line 23"));
    assert_eq!(rows[24].line.as_deref(), Some("90% match"));
    assert_eq!(rows[0].score, Some(1.0f32.to_bits()));
    let Msg::SemanticResults { generation, rows, error } = answer(7, Err("x".to_string())) else {
        panic!("answers are results");
    };
    assert_eq!((generation, rows.len(), error.as_deref()), (7, 0, Some("x")));
}
