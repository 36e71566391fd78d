//! Headless queries (`fsearch --print`): the same mode prefixes (`?`, `>`) and
//! filter tokens (`ext:`, `path:`, ...) as the interactive engine. What has to
//! be read or embedded is handed in, so the caller owns files and models.

use crate::content::{all_hits, file_views, grep_error, HitView, TextFile};
use crate::engine::{
    content_scope, filters_of, parse_query, query_parts, scope_indices, split_filters, Mode,
    FILENAME_LIMIT, SEMANTIC_LIMIT,
};
use crate::filters::{no_filters, plain_words_are_no_filters, FilterSet, Filters};
use crate::index::PathStore;
use crate::matcher::{file_ask, ignores_case, results_are_entries, searchable, FilenameMode};
use crate::pathmap::PathMap;
use crate::quiet::Quiet;
use crate::sem::{check_store, doc_views, hits_are_documents, ranked_hits, SemStore, StoreGap};
use crate::text::{is_space, joined, skip_spaces};
use crate::walker::EntryView;
use vstd::prelude::*;
use vstd::string::*;

verus! {

/// What a headless search needs beyond the query itself.
pub struct Options {
    /// Files larger than this are skipped by content (`>`) searches.
    pub max_content_filesize: u64,
    /// Paths to demote in fuzzy rankings (the config's quiet markers).
    pub quiet: Quiet,
}

/// One search result, in print order.
#[derive(Debug, PartialEq)]
pub enum Hit {
    /// Filename (fuzzy) match.
    Path(String),
    /// Content (grep) match.
    Line { path: String, line_number: u64, line: String },
    /// Semantic match with the bits of its raw similarity score.
    Semantic { path: String, line_start: u32, score: u32 },
}

/// The model of a [`Hit`].
pub enum PrintedView {
    Path(Seq<char>),
    Line(HitView),
    Semantic(Seq<char>, u32, u32),
}

impl View for Hit {
    type V = PrintedView;

    open spec fn view(&self) -> PrintedView {
        match self {
            Hit::Path(path) => PrintedView::Path(path@),
            Hit::Line { path, line_number, line } => PrintedView::Line(
                HitView { path: path@, line_number: *line_number, line: line@ },
            ),
            Hit::Semantic { path, line_start, score } => PrintedView::Semantic(
                path@,
                *line_start,
                *score,
            ),
        }
    }
}

/// The model of a list of hits.
pub open spec fn printed(hits: Seq<Hit>) -> Seq<PrintedView> {
    hits.map_values(|h: Hit| h@)
}

// ------------------------------------------------------------------ planning

/// A query, taken apart.
pub struct Plan {
    pub mode: Mode,
    pub query: String,
    pub filters: Filters,
}

/// The model of a [`Plan`].
pub struct PlanView {
    pub mode: Mode,
    pub query: Seq<char>,
    pub filters: FilterSet,
}

impl View for Plan {
    type V = PlanView;

    open spec fn view(&self) -> PlanView {
        PlanView { mode: self.mode, query: self.query@, filters: self.filters@ }
    }
}

/// The mode, the pattern and the filters of a query. There is no calculator
/// here: a query with a leading `=` is matched as it stands.
pub open spec fn planned(input: Seq<char>, now: i64) -> PlanView {
    let (mode, text) = query_parts(input, false);
    let (mode, text) = if mode == Mode::Calc {
        (Mode::Fuzzy, input)
    } else {
        (mode, text)
    };
    let (filters, query) = split_filters(text, now);
    PlanView { mode, query, filters }
}

pub fn plan(input: &str, now: i64) -> (r: Plan)
    ensures
        r@ == planned(input@, now),
{
    let (mode, text) = parse_query(input, false);
    let (mode, text) = if mode == Mode::Calc {
        (Mode::Fuzzy, input.to_owned())
    } else {
        (mode, text)
    };
    let (filters, query) = filters_of(&text, now);
    Plan { mode, query, filters }
}

/// The plan of a headless query is never a calculation or a regular expression.
pub proof fn plans_are_searches(input: Seq<char>, now: i64)
    ensures
        planned(input, now).mode != Mode::Calc,
        planned(input, now).mode != Mode::Regex,
{
}

impl Plan {
    /// The entries whose files a content search reads.
    pub fn scope(&self, store: &PathStore) -> (r: Vec<usize>)
        ensures
            r@ == (if self@.mode == Mode::Content {
                scope_indices(self@.filters, store@, store@.len() as int)
            } else {
                Seq::empty()
            }),
    {
        if self.mode == Mode::Content {
            content_scope(&self.filters, store)
        } else {
            Vec::new()
        }
    }
}

// ----------------------------------------------------------------- filenames

/// The strong matches of a filename search, as they are printed.
pub open spec fn path_hits(es: Seq<EntryView>, found: (Seq<usize>, int)) -> Seq<PrintedView> {
    found.0.take(found.1).map_values(|i: usize| PrintedView::Path(es[i as int].0))
}

/// The outcome of a filename search: only strong matches are reported, not the
/// weaker tail behind the fold.
pub open spec fn filename_outcome(
    es: Seq<EntryView>,
    query: Seq<char>,
    filters: FilterSet,
    quiet: Seq<Seq<char>>,
) -> Result<Seq<PrintedView>, Seq<char>> {
    match file_ask(query, Map::empty(), filters, quiet).outcome(
        es,
        FilenameMode::Fuzzy,
        FILENAME_LIMIT as int,
    ) {
        Ok(found) => Ok(path_hits(es, found)),
        Err(e) => Err(e),
    }
}

/// What a search returns, in the terms of its model.
pub open spec fn returns_hits(
    r: Result<Vec<Hit>, String>,
    o: Result<Seq<PrintedView>, Seq<char>>,
) -> bool {
    match (r, o) {
        (Ok(hits), Ok(views)) => printed(hits@) == views,
        (Err(e), Err(text)) => e@ == text,
        _ => false,
    }
}

fn filename(store: &PathStore, query: &str, filters: &Filters, opts: &Options) -> (r: Result<
    Vec<Hit>,
    String,
>)
    requires
        searchable(store@, query@),
    ensures
        returns_hits(r, filename_outcome(store@, query@, filters@, opts.quiet@)),
{
    let boosts: PathMap<u32> = PathMap::new();
    let ghost ask = file_ask(query@, boosts@, filters@, opts.quiet@);
    let ghost outcome = ask.outcome(store@, FilenameMode::Fuzzy, FILENAME_LIMIT as int);
    let found = match crate::matcher::search_boosted(
        store,
        query,
        FilenameMode::Fuzzy,
        FILENAME_LIMIT,
        &boosts,
        filters,
        &opts.quiet,
    ) {
        Ok(found) => found,
        Err(e) => return Err(e),
    };
    let entries: usize = store.len();
    assert(store@.len() == entries);
    proof {
        results_are_entries(ask, store@, FilenameMode::Fuzzy, FILENAME_LIMIT as int);
    }
    let ghost views = path_hits(store@, (found.indices@, found.strong as int));
    let mut hits: Vec<Hit> = Vec::new();
    let mut k: usize = 0;
    while k < found.strong
        invariant
            k <= found.strong <= found.indices@.len(),
            forall|j: int| 0 <= j < found.indices@.len() ==> (#[trigger] found.indices@[j]) < store@.len(),
            views == path_hits(store@, (found.indices@, found.strong as int)),
            hits@.len() == k,
            forall|j: int| 0 <= j < k ==> (#[trigger] hits@[j])@ == views[j],
        decreases found.strong - k,
    {
        let path = store.get(found.indices[k]).to_owned();
        hits.push(Hit::Path(path));
        k += 1;
    }
    assert(printed(hits@) =~= views);
    Ok(hits)
}

// ------------------------------------------------------------------ contents

/// The outcome of a content search over the files in scope.
pub open spec fn content_outcome(
    files: Seq<crate::content::FileView>,
    pattern: Seq<char>,
    max: u64,
) -> Result<Seq<PrintedView>, Seq<char>> {
    let ignore_case = ignores_case(pattern);
    match grep_error(pattern, ignore_case) {
        Some(e) => Err("invalid pattern: "@ + e),
        None => Ok(
            all_hits((pattern, ignore_case), files, max, files.len() as int).map_values(
                |h: HitView| PrintedView::Line(h),
            ),
        ),
    }
}

/// What is printed for the outcome of a content search.
pub fn content_hits(found: Result<Vec<crate::content::ContentMatch>, String>) -> (r: Result<
    Vec<Hit>,
    String,
>)
    ensures
        match (found, r) {
            (Ok(lines), Ok(hits)) => printed(hits@) == crate::content::hit_views(
                lines@,
            ).map_values(|h: HitView| PrintedView::Line(h)),
            (Err(e), Err(text)) => text@ == "invalid pattern: "@ + e@,
            _ => false,
        },
{
    match found {
        Err(e) => Err(joined("invalid pattern: ", &e)),
        Ok(lines) => {
            let ghost views = crate::content::hit_views(lines@).map_values(
                |h: HitView| PrintedView::Line(h),
            );
            let mut hits: Vec<Hit> = Vec::new();
            let mut i: usize = 0;
            while i < lines.len()
                invariant
                    i <= lines@.len(),
                    hits@.len() == i,
                    views == crate::content::hit_views(lines@).map_values(
                        |h: HitView| PrintedView::Line(h),
                    ),
                    forall|j: int| 0 <= j < i ==> (#[trigger] hits@[j])@ == views[j],
                decreases lines@.len() - i,
            {
                hits.push(
                    Hit::Line {
                        path: lines[i].path.as_str().to_owned(),
                        line_number: lines[i].line_number,
                        line: lines[i].line.as_str().to_owned(),
                    },
                );
                i += 1;
            }
            assert(printed(hits@) =~= views);
            Ok(hits)
        },
    }
}

// ------------------------------------------------------------------ meanings

/// What a semantic search draws on: the stored index, where there is one, the
/// dimension of the embedder, and the similarity of each chunk to the query.
pub struct Semantics {
    pub store: Option<SemStore>,
    pub dim: usize,
    pub scores: Vec<u32>,
}

impl Semantics {
    /// There is a score for each chunk.
    pub open spec fn is_scored(&self) -> bool {
        self.store matches Some(s) ==> s@.lines.len() == self.scores@.len()
    }
}

/// The outcome of a semantic search: the filters apply before the limit.
pub open spec fn semantic_outcome(s: Semantics, filters: FilterSet) -> Result<
    Seq<PrintedView>,
    Seq<char>,
> {
    match s.store {
        None => Err(StoreGap::Missing.text()),
        Some(store) => if store@.dim != s.dim {
            Err(StoreGap::OtherModel.text())
        } else {
            Ok(
                ranked_hits(store@, filters, s.scores@, SEMANTIC_LIMIT as int).map_values(
                    |h: crate::sem::Hit|
                        PrintedView::Semantic(
                            store@.docs[h.doc as int].path,
                            h.line_start,
                            h.score,
                        ),
                ),
            )
        },
    }
}

fn semantic(semantics: &Semantics, filters: &Filters) -> (r: Result<Vec<Hit>, String>)
    requires
        semantics.is_scored(),
    ensures
        returns_hits(r, semantic_outcome(*semantics, filters@)),
{
    let stored = match &semantics.store {
        Some(store) => Some(store.dim),
        None => None,
    };
    match check_store(stored, semantics.dim) {
        Err(gap) => Err(gap.message().to_owned()),
        Ok(()) => match &semantics.store {
            None => Err(StoreGap::Missing.message().to_owned()),
            Some(store) => {
                let ghost views = semantic_outcome(*semantics, filters@)->Ok_0;
                let found = store.query(&semantics.scores, filters, SEMANTIC_LIMIT);
                let docs: usize = store.docs.len();
                assert(store@.docs.len() == docs);
                proof {
                    hits_are_documents(
                        store@,
                        filters@,
                        semantics.scores@,
                        SEMANTIC_LIMIT as int,
                    );
                }
                let mut hits: Vec<Hit> = Vec::new();
                let mut k: usize = 0;
                while k < found.len()
                    invariant
                        k <= found@.len(),
                        forall|j: int|
                            0 <= j < found@.len() ==> (#[trigger] found@[j]).doc
                                < store.docs@.len(),
                        views.len() == found@.len(),
                        forall|j: int|
                            0 <= j < found@.len() ==> views[j] == PrintedView::Semantic(
                                doc_views(store.docs@)[(#[trigger] found@[j]).doc as int].path,
                                found@[j].line_start,
                                found@[j].score,
                            ),
                        hits@.len() == k,
                        forall|j: int| 0 <= j < k ==> (#[trigger] hits@[j])@ == views[j],
                    decreases found@.len() - k,
                {
                    let hit = found[k];
                    let path = store.docs[hit.doc].path.as_str().to_owned();
                    hits.push(
                        Hit::Semantic { path, line_start: hit.line_start, score: hit.score },
                    );
                    k += 1;
                }
                assert(printed(hits@) =~= views);
                Ok(hits)
            },
        },
    }
}

// -------------------------------------------------------------------- search

/// The outcome of a headless search.
pub open spec fn search_outcome(
    es: Seq<EntryView>,
    plan: PlanView,
    max: u64,
    quiet: Seq<Seq<char>>,
    files: Seq<crate::content::FileView>,
    semantics: Semantics,
) -> Result<Seq<PrintedView>, Seq<char>> {
    match plan.mode {
        Mode::Semantic => semantic_outcome(semantics, plan.filters),
        Mode::Content => content_outcome(files, plan.query, max),
        _ => filename_outcome(es, plan.query, plan.filters, quiet),
    }
}

/// Runs a plan against the index. `files` are those that [`Plan::scope`] asks
/// for; `semantics` is read for a semantic search only. An error carries the
/// message to be shown: an invalid pattern, a missing or mismatched semantic
/// index.
pub fn search(
    store: &PathStore,
    plan: &Plan,
    opts: &Options,
    files: &Vec<TextFile>,
    semantics: &Semantics,
) -> (r: Result<Vec<Hit>, String>)
    requires
        plan@.mode == Mode::Semantic || plan@.mode == Mode::Content || searchable(
            store@,
            plan@.query,
        ),
        semantics.is_scored(),
    ensures
        returns_hits(
            r,
            search_outcome(
                store@,
                plan@,
                opts.max_content_filesize,
                opts.quiet@,
                file_views(files@),
                *semantics,
            ),
        ),
{
    match plan.mode {
        Mode::Semantic => semantic(semantics, &plan.filters),
        Mode::Content => content_hits(
            crate::content::search(files, &plan.query, opts.max_content_filesize),
        ),
        _ => filename(store, &plan.query, &plan.filters, opts),
    }
}


// ---------------------------------------------------------------------- laws

/// A headless query without a colon is searched for whole: after `>` in files,
/// after `?` by meaning, and else among the filenames, also where it starts with
/// `=`.
pub proof fn plans_take_the_query_whole(text: Seq<char>, now: i64)
    requires
        text.len() > 0,
        !is_space(text[0]),
        !text.contains(':'),
        text[0] != '>',
        text[0] != '?',
    ensures
        planned(text, now) == (PlanView { mode: Mode::Fuzzy, query: text, filters: no_filters() }),
        planned(seq!['>'] + text, now) == (PlanView {
            mode: Mode::Content,
            query: text,
            filters: no_filters(),
        }),
        planned(seq!['?'] + text, now) == (PlanView {
            mode: Mode::Semantic,
            query: text,
            filters: no_filters(),
        }),
{
    plain_words_are_no_filters(text, now);
    let a = seq!['>'] + text;
    let b = seq!['?'] + text;
    assert(a.skip(1) =~= text && b.skip(1) =~= text);
    assert(skip_spaces(text, 0) == 0);
    assert(text.skip(0) =~= text);
}

/// The filenames that are printed are the strong ones of those that were found,
/// in their order.
pub proof fn strong_matches_are_printed(es: Seq<EntryView>, found: (Seq<usize>, int), k: int)
    requires
        0 <= k < found.1 <= found.0.len(),
    ensures
        path_hits(es, found).len() == found.1,
        path_hits(es, found)[k] == PrintedView::Path(es[found.0[k] as int].0),
{
}

} // verus!
