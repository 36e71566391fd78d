//! The search engine as a state machine: queries and messages from workers
//! come in, effects to perform come out.

use crate::content::{ContentMatch, HitView};
use crate::filters::{
    meta_passes, no_filters, parse, parsed, path_passes, plain_words_are_no_filters, FilterSet,
    Filters,
};
use crate::fusion::{
    copy_rows, copy_text, is_fusion, merge_unified_results, push_row, row_views, text_option,
    ResultRow, RowView,
};
use crate::index::{fits_arena, PathStore};
use crate::matcher::FilenameMode;
use crate::pathmap::PathMap;
use crate::text::{
    chars_of, find_trim_start, is_space, same, skip_spaces, string_of_range, texts, trim,
    trim_start, trimmed, trimming_cuts_outer_spaces,
};
use crate::walker::{entry_view, entry_views, Entry, EntryView, FileMeta};
use vstd::prelude::*;
use vstd::string::*;

verus! {

pub const FILENAME_LIMIT: usize = 500;

pub const CONTENT_LIMIT: usize = 1000;

pub const SEMANTIC_LIMIT: usize = 100;

/// How long a content or semantic query rests before it is searched for.
pub const CONTENT_DEBOUNCE_MS: u64 = 300;

#[derive(Debug, Clone, Copy, PartialEq, Eq, Structural)]
pub enum Mode {
    Fuzzy,
    Regex,
    Content,
    Semantic,
    Calc,
}

// ------------------------------------------------------------------- queries

/// The mode of a query and its text: a leading `=`, `>` or `?` picks the
/// calculator, content search or semantic search.
pub open spec fn query_parts(input: Seq<char>, regex_mode: bool) -> (Mode, Seq<char>) {
    if input.len() > 0 && input[0] == '=' {
        (Mode::Calc, trim(input.skip(1)))
    } else if input.len() > 0 && input[0] == '>' {
        (Mode::Content, trim_start(input.skip(1)))
    } else if input.len() > 0 && input[0] == '?' {
        (Mode::Semantic, trim_start(input.skip(1)))
    } else if regex_mode {
        (Mode::Regex, input)
    } else {
        (Mode::Fuzzy, input)
    }
}

pub fn parse_query(input: &str, regex_mode: bool) -> (r: (Mode, String))
    ensures
        (r.0, r.1@) == query_parts(input@, regex_mode),
{
    let s = chars_of(input);
    let n: usize = s.len();
    if n > 0 && (s[0] == '=' || s[0] == '>' || s[0] == '?') {
        let rest = crate::text::sub_chars(&s, 1, n);
        assert(rest@ =~= input@.skip(1));
        if s[0] == '=' {
            (Mode::Calc, trimmed(&rest))
        } else {
            let a = find_trim_start(&rest, 0);
            let text = string_of_range(&rest, a, rest.len());
            assert(text@ =~= rest@.skip(a as int));
            if s[0] == '>' {
                (Mode::Content, text)
            } else {
                (Mode::Semantic, text)
            }
        }
    } else if regex_mode {
        (Mode::Regex, input.to_owned())
    } else {
        (Mode::Fuzzy, input.to_owned())
    }
}

/// The filters of a query text, and the pattern without them. A text without
/// filters is kept as it is.
pub open spec fn split_filters(text: Seq<char>, now: i64) -> (FilterSet, Seq<char>) {
    let (f, rest) = parsed(text, now);
    (
        f,
        if f == no_filters() {
            text
        } else {
            rest
        },
    )
}

pub fn filters_of(text: &str, now: i64) -> (r: (Filters, String))
    ensures
        (r.0@, r.1@) == split_filters(text@, now),
{
    let (filters, pattern) = parse(text, now);
    if filters.is_empty() {
        (filters, text.to_owned())
    } else {
        (filters, pattern)
    }
}

// --------------------------------------------------------------------- state

#[derive(Debug)]
pub struct EngineStatus {
    pub indexed: usize,
    pub indexing: bool,
    pub matches: usize,
    pub error: Option<String>,
    /// Files walked so far and the total expected from the previous index,
    /// during the startup walk.
    pub walk: Option<(usize, Option<usize>)>,
}

/// The model of an [`EngineStatus`].
pub struct StatusView {
    pub indexed: usize,
    pub indexing: bool,
    pub matches: usize,
    pub error: Option<Seq<char>>,
    pub walk: Option<(usize, Option<usize>)>,
}

impl View for EngineStatus {
    type V = StatusView;

    open spec fn view(&self) -> StatusView {
        StatusView {
            indexed: self.indexed,
            indexing: self.indexing,
            matches: self.matches,
            error: text_option(self.error),
            walk: self.walk,
        }
    }
}

impl Default for EngineStatus {
    fn default() -> (r: EngineStatus)
        ensures
            r@ == (StatusView {
                indexed: 0,
                indexing: false,
                matches: 0,
                error: None,
                walk: None,
            }),
    {
        EngineStatus { indexed: 0, indexing: false, matches: 0, error: None, walk: None }
    }
}

/// What the engine asks its surroundings to do.
#[derive(Debug, Clone, Copy, PartialEq, Eq, Structural)]
pub enum Effect {
    /// search filenames for the current query, filters and mode
    SearchFilenames,
    /// search contents for the current query
    SearchContent,
    /// stop the running content search
    CancelContent,
    /// search the semantic index for the current query
    SearchSemantic,
    /// evaluate the current query as an arithmetic expression
    Calculate,
}

/// What comes back from workers. Results carry the generation that they were
/// asked for in.
#[allow(inconsistent_fields)]
pub enum Msg {
    /// a new index is live
    IndexSnapshot { indexing: bool },
    /// `expected` is given when the walk re-checks a cached index
    IndexProgress { count: usize, expected: Option<usize> },
    /// setup or runtime failure; the index that is live stays
    IndexError { error: String },
    FilenameResults {
        generation: u64,
        indices: Vec<usize>,
        strong: usize,
        error: Option<String>,
    },
    ContentHit { generation: u64, hit: ContentMatch },
    ContentError { generation: u64, error: String },
    SemanticResults { generation: u64, rows: Vec<ResultRow>, error: Option<String> },
    Calculated { generation: u64, value: Option<String> },
}

/// The engine: the current query, the results so far and what is pending.
pub struct Engine {
    mode: Mode,
    generation: u64,
    query: String,
    filters: Filters,
    results: Vec<ResultRow>,
    filename_results: Vec<ResultRow>,
    semantic_results: Vec<ResultRow>,
    strong: usize,
    unified_strong: usize,
    status: EngineStatus,
    index_error: Option<String>,
    pending_content: Option<u64>,
    content_running: bool,
    pending_semantic: Option<u64>,
    unified: bool,
    filter: bool,
}

/// The model of an [`Engine`].
pub struct EngineView {
    pub mode: Mode,
    /// counts queries and index updates
    pub generation: u64,
    pub query: Seq<char>,
    pub filters: FilterSet,
    /// the visible rows
    pub results: Seq<RowView>,
    /// both source rankings, retained so that a delayed semantic response can
    /// be merged without losing the instant filename results
    pub filename_results: Seq<RowView>,
    pub semantic_results: Seq<RowView>,
    pub strong: usize,
    pub unified_strong: usize,
    pub status: StatusView,
    /// index errors survive successful searches
    pub index_error: Option<Seq<char>>,
    /// when a query was made that is still to be searched for (milliseconds)
    pub pending_content: Option<u64>,
    pub content_running: bool,
    pub pending_semantic: Option<u64>,
    /// bare fuzzy queries blend in semantic results
    pub unified: bool,
    /// piped lines are filtered instead of files
    pub filter: bool,
}

impl View for Engine {
    type V = EngineView;

    closed spec fn view(&self) -> EngineView {
        EngineView {
            mode: self.mode,
            generation: self.generation,
            query: self.query@,
            filters: self.filters@,
            results: row_views(self.results@),
            filename_results: row_views(self.filename_results@),
            semantic_results: row_views(self.semantic_results@),
            strong: self.strong,
            unified_strong: self.unified_strong,
            status: self.status@,
            index_error: text_option(self.index_error),
            pending_content: self.pending_content,
            content_running: self.content_running,
            pending_semantic: self.pending_semantic,
            unified: self.unified,
            filter: self.filter,
        }
    }
}

/// The initial state.
pub open spec fn initial(unified: bool, filter: bool) -> EngineView {
    EngineView {
        mode: Mode::Fuzzy,
        generation: 0,
        query: Seq::empty(),
        filters: no_filters(),
        results: Seq::empty(),
        filename_results: Seq::empty(),
        semantic_results: Seq::empty(),
        strong: 0,
        unified_strong: 0,
        status: StatusView { indexed: 0, indexing: !filter, matches: 0, error: None, walk: None },
        index_error: None,
        pending_content: None,
        content_running: false,
        pending_semantic: None,
        unified,
        filter,
    }
}

impl EngineView {
    /// A bare fuzzy query that blends in semantic results.
    pub open spec fn is_unified(self) -> bool {
        self.unified && self.mode == Mode::Fuzzy && self.query.len() > 0
    }

    /// How many rows are above the fold.
    pub open spec fn strong_count(self) -> nat {
        match self.mode {
            Mode::Fuzzy => if self.is_unified() {
                self.unified_strong as nat
            } else {
                self.strong as nat
            },
            Mode::Regex => self.strong as nat,
            _ => self.results.len(),
        }
    }

    /// The state with these visible rows.
    pub open spec fn showing(self, rows: Seq<RowView>) -> EngineView {
        EngineView {
            results: rows,
            status: StatusView { matches: rows.len() as usize, ..self.status },
            ..self
        }
    }

    pub open spec fn with_error(self, error: Option<Seq<char>>) -> EngineView {
        EngineView { status: StatusView { error, ..self.status }, ..self }
    }
}

// ------------------------------------------------------------- new queries

/// A query of a filter engine is all pattern, but for filter tokens.
pub open spec fn after_filter_query(
    s: EngineView,
    input: Seq<char>,
    regex_mode: bool,
    now: i64,
) -> EngineView {
    let (filters, query) = split_filters(input, now);
    EngineView {
        filters,
        query,
        generation: (s.generation + 1) as u64,
        mode: if regex_mode {
            Mode::Regex
        } else {
            Mode::Fuzzy
        },
        pending_content: None,
        pending_semantic: None,
        ..s.with_error(None)
    }
}

/// A calculation takes the raw expression: no filter tokens.
pub open spec fn after_calculation(s: EngineView, query: Seq<char>) -> EngineView {
    EngineView {
        query,
        generation: (s.generation + 1) as u64,
        mode: Mode::Calc,
        pending_content: None,
        pending_semantic: None,
        content_running: false,
        ..s.with_error(None).showing(Seq::empty())
    }
}

/// A search: content and semantic queries start empty and rest for a while,
/// filename queries keep the old rows until new ones come.
pub open spec fn after_search(
    s: EngineView,
    mode: Mode,
    text: Seq<char>,
    now: i64,
    clock: u64,
    semantic_index: bool,
) -> EngineView {
    let (filters, query) = split_filters(text, now);
    let t = EngineView {
        filters,
        query,
        generation: (s.generation + 1) as u64,
        mode,
        pending_content: if mode == Mode::Content && query.len() > 0 {
            Some(clock)
        } else {
            None
        },
        pending_semantic: if query.len() > 0 && (mode == Mode::Semantic || (mode == Mode::Fuzzy
            && s.unified && semantic_index)) {
            Some(clock)
        } else {
            None
        },
        content_running: false,
        filename_results: Seq::empty(),
        semantic_results: Seq::empty(),
        unified_strong: 0,
        ..s.with_error(None)
    };
    if mode == Mode::Content || mode == Mode::Semantic {
        t.showing(Seq::empty())
    } else {
        t
    }
}

pub open spec fn after_query(
    s: EngineView,
    input: Seq<char>,
    regex_mode: bool,
    now: i64,
    clock: u64,
    semantic_index: bool,
) -> EngineView {
    let (mode, text) = query_parts(input, regex_mode);
    if s.filter {
        after_filter_query(s, input, regex_mode, now)
    } else if mode == Mode::Calc {
        after_calculation(s, text)
    } else {
        after_search(s, mode, text, now, clock, semantic_index)
    }
}

/// A new query stops a running content search and starts what it needs.
pub open spec fn query_effects(s: EngineView, input: Seq<char>, regex_mode: bool) -> Seq<Effect> {
    let (mode, _) = query_parts(input, regex_mode);
    if s.filter {
        seq![Effect::SearchFilenames]
    } else {
        let stop = if s.content_running {
            seq![Effect::CancelContent]
        } else {
            Seq::empty()
        };
        match mode {
            Mode::Calc => stop.push(Effect::Calculate),
            Mode::Content => stop,
            Mode::Semantic => stop,
            _ => stop.push(Effect::SearchFilenames),
        }
    }
}

// ------------------------------------------------------------------ messages

/// The rows of the indices that are in the index.
pub open spec fn filename_rows(
    indices: Seq<usize>,
    es: Seq<EntryView>,
    boosts: Map<Seq<char>, u32>,
) -> Seq<RowView>
    decreases indices.len(),
{
    if indices.len() == 0 {
        Seq::empty()
    } else {
        let rest = filename_rows(indices.drop_last(), es, boosts);
        let i = indices.last() as int;
        if i < es.len() {
            rest.push(filename_row(es[i], boosts))
        } else {
            rest
        }
    }
}

pub open spec fn filename_row(e: EntryView, boosts: Map<Seq<char>, u32>) -> RowView {
    RowView {
        path: e.0,
        line_number: None,
        line: None,
        recent_open: boosts.dom().contains(e.0),
        meta: Some(e.1),
        score: None,
    }
}

pub open spec fn content_row(hit: HitView) -> RowView {
    RowView {
        path: hit.path,
        line_number: Some(hit.line_number),
        line: Some(hit.line),
        recent_open: false,
        meta: None,
        score: None,
    }
}

pub open spec fn calc_rows(query: Seq<char>, value: Option<Seq<char>>) -> Seq<RowView> {
    match value {
        Some(v) => if query.len() > 0 {
            seq![
                RowView {
                    path: v,
                    line_number: None,
                    line: Some(query + " ="@),
                    recent_open: false,
                    meta: None,
                    score: None,
                },
            ]
        } else {
            Seq::empty()
        },
        None => Seq::empty(),
    }
}

/// The rows whose paths the filters admit.
pub open spec fn admitted(rows: Seq<RowView>, f: FilterSet) -> Seq<RowView>
    decreases rows.len(),
{
    if rows.len() == 0 {
        Seq::empty()
    } else {
        let rest = admitted(rows.drop_last(), f);
        if f == no_filters() || path_passes(f, rows.last().path) {
            rest.push(rows.last())
        } else {
            rest
        }
    }
}

/// One past the last row of which the path is among the first `strong` of the
/// filename rows.
pub open spec fn last_strong(
    rows: Seq<RowView>,
    filename: Seq<RowView>,
    strong: int,
) -> int
    decreases rows.len(),
{
    if rows.len() == 0 {
        0
    } else if among_first(filename, strong, rows.last().path) {
        rows.len() as int
    } else {
        last_strong(rows.drop_last(), filename, strong)
    }
}

pub open spec fn among_first(rows: Seq<RowView>, n: int, path: Seq<char>) -> bool {
    exists|k: int| 0 <= k < n && k < rows.len() && (#[trigger] rows[k]).path == path
}

/// `t` is `s` with the visible rows rebuilt from both source rankings. The
/// fold is at the last strong filename match; without one every row is
/// semantic-only, and there is no weak tail to fold away.
pub open spec fn rebuilt(s: EngineView, t: EngineView) -> bool {
    &&& is_fusion(s.filename_results, s.semantic_results, t.results)
    &&& t == EngineView {
        unified_strong: if s.strong == 0 {
            t.results.len() as usize
        } else {
            last_strong(t.results, s.filename_results, s.strong as int) as usize
        },
        ..s.showing(t.results)
    }
}

/// The state after a message. Results of another generation change nothing.
pub open spec fn handled(
    s: EngineView,
    msg: Msg,
    es: Seq<EntryView>,
    boosts: Map<Seq<char>, u32>,
    clock: u64,
    semantic_index: bool,
    t: EngineView,
) -> bool {
    match msg {
        Msg::IndexSnapshot { indexing } => {
            let named = s.mode == Mode::Fuzzy || s.mode == Mode::Regex;
            t == EngineView {
                status: StatusView {
                    indexed: es.len() as usize,
                    indexing,
                    walk: if indexing {
                        s.status.walk
                    } else {
                        None
                    },
                    ..s.status
                },
                generation: if named {
                    (s.generation + 1) as u64
                } else {
                    s.generation
                },
                pending_semantic: if named && s.is_unified() && semantic_index {
                    Some(clock)
                } else {
                    s.pending_semantic
                },
                ..s
            }
        },
        Msg::IndexProgress { count, expected } => t == EngineView {
            status: StatusView {
                walk: Some((count, expected)),
                indexed: if expected is None && s.status.indexing {
                    count
                } else {
                    s.status.indexed
                },
                ..s.status
            },
            ..s
        },
        Msg::IndexError { error } => t == EngineView {
            status: StatusView { indexing: false, walk: None, ..s.status },
            index_error: Some(error@),
            ..s
        },
        Msg::FilenameResults { generation, indices, strong, error } => {
            let rows = filename_rows(indices@, es, boosts);
            let kept = if strong < rows.len() {
                strong
            } else {
                rows.len() as usize
            };
            let u = EngineView { filename_results: rows, strong: kept, ..s };
            if generation != s.generation {
                t == s
            } else if s.is_unified() {
                rebuilt(u.with_error(text_option(error)), t)
            } else {
                t == EngineView {
                    unified_strong: kept,
                    ..u.showing(rows).with_error(text_option(error))
                }
            }
        },
        Msg::ContentHit { generation, hit } => if generation != s.generation || s.results.len()
            >= CONTENT_LIMIT {
            t == s
        } else {
            let rows = s.results.push(content_row(hit@));
            t == EngineView {
                content_running: s.content_running && rows.len() < CONTENT_LIMIT,
                ..s.showing(rows)
            }
        },
        Msg::ContentError { generation, error } => if generation != s.generation {
            t == s
        } else {
            t == s.with_error(Some(error@))
        },
        Msg::SemanticResults { generation, rows, error } => {
            let kept = admitted(row_views(rows@), s.filters);
            if generation != s.generation {
                t == s
            } else if s.is_unified() {
                // best effort: a missing model or broken store must not
                // change bare filename behaviour
                rebuilt(EngineView { semantic_results: kept, ..s }, t)
            } else if s.mode == Mode::Semantic {
                t == s.showing(kept).with_error(text_option(error))
            } else {
                t == s
            }
        },
        Msg::Calculated { generation, value } => if generation != s.generation || s.mode
            != Mode::Calc {
            t == s
        } else {
            t == s.showing(calc_rows(s.query, text_option(value)))
        },
    }
}

/// What a message sets off.
pub open spec fn message_effects(s: EngineView, msg: Msg) -> Seq<Effect> {
    match msg {
        Msg::IndexSnapshot { indexing } => if s.mode == Mode::Fuzzy || s.mode == Mode::Regex {
            seq![Effect::SearchFilenames]
        } else {
            Seq::empty()
        },
        Msg::ContentHit { generation, hit } => if generation == s.generation && s.results.len() + 1
            == CONTENT_LIMIT && s.content_running {
            seq![Effect::CancelContent]
        } else {
            Seq::empty()
        },
        _ => Seq::empty(),
    }
}

pub open spec fn is_due(pending: Option<u64>, clock: u64) -> bool {
    pending matches Some(at) && clock >= at && clock - at >= CONTENT_DEBOUNCE_MS
}

pub open spec fn after_firing(s: EngineView, clock: u64) -> EngineView {
    EngineView {
        pending_content: if is_due(s.pending_content, clock) {
            None
        } else {
            s.pending_content
        },
        content_running: s.content_running || is_due(s.pending_content, clock),
        pending_semantic: if is_due(s.pending_semantic, clock) {
            None
        } else {
            s.pending_semantic
        },
        ..s
    }
}

pub open spec fn firing_effects(s: EngineView, clock: u64) -> Seq<Effect> {
    (if is_due(s.pending_content, clock) {
        seq![Effect::SearchContent]
    } else {
        Seq::empty()
    }) + (if is_due(s.pending_semantic, clock) {
        seq![Effect::SearchSemantic]
    } else {
        Seq::empty()
    })
}

// ---------------------------------------------------------------- the engine

fn rows_of(indices: &Vec<usize>, store: &PathStore, boosts: &PathMap<u32>) -> (r: Vec<ResultRow>)
    ensures
        row_views(r@) == filename_rows(indices@, store@, boosts@),
{
    let mut rows: Vec<ResultRow> = Vec::new();
    let mut k: usize = 0;
    assert(row_views(rows@) =~= Seq::<RowView>::empty());
    assert(indices@.take(0) =~= Seq::<usize>::empty());
    while k < indices.len()
        invariant
            k <= indices.len(),
            row_views(rows@) == filename_rows(indices@.take(k as int), store@, boosts@),
        decreases indices.len() - k,
    {
        proof {
            assert(indices@.take(k + 1).drop_last() =~= indices@.take(k as int));
            assert(indices@.take(k + 1).last() == indices@[k as int]);
        }
        let i = indices[k];
        if i < store.len() {
            let path = store.get(i).to_owned();
            let recent_open = boosts.get(&path).is_some();
            push_row(
                &mut rows,
                ResultRow {
                    path,
                    line_number: None,
                    line: None,
                    recent_open,
                    meta: Some(store.meta(i)),
                    score: None,
                },
            );
        }
        k += 1;
    }
    assert(indices@.take(k as int) =~= indices@);
    rows
}

fn admit_rows(rows: &Vec<ResultRow>, filters: &Filters) -> (r: Vec<ResultRow>)
    ensures
        row_views(r@) == admitted(row_views(rows@), filters@),
{
    let ghost all = row_views(rows@);
    let mut out: Vec<ResultRow> = Vec::new();
    let mut k: usize = 0;
    assert(row_views(out@) =~= Seq::<RowView>::empty());
    assert(all.take(0) =~= Seq::<RowView>::empty());
    while k < rows.len()
        invariant
            k <= rows.len(),
            all == row_views(rows@),
            row_views(out@) == admitted(all.take(k as int), filters@),
        decreases rows.len() - k,
    {
        proof {
            assert(all.take(k + 1).drop_last() =~= all.take(k as int));
            assert(all.take(k + 1).last() == rows@[k as int]@);
        }
        if filters.is_empty() || filters.matches(&rows[k].path) {
            push_row(&mut out, rows[k].clone());
        }
        k += 1;
    }
    assert(all.take(k as int) =~= all);
    out
}

fn is_among_first(rows: &Vec<ResultRow>, n: usize, path: &str) -> (r: bool)
    ensures
        r == among_first(row_views(rows@), n as int, path@),
{
    let mut k: usize = 0;
    while k < n && k < rows.len()
        invariant
            k <= rows.len(),
            forall|j: int|
                0 <= j < k ==> (#[trigger] row_views(rows@)[j]).path != path@,
        decreases rows.len() - k,
    {
        assert(row_views(rows@)[k as int].path == rows@[k as int].path@);
        if same(&rows[k].path, path) {
            return true;
        }
        k += 1;
    }
    false
}

fn find_last_strong(rows: &Vec<ResultRow>, filename: &Vec<ResultRow>, strong: usize) -> (r: usize)
    ensures
        r == last_strong(row_views(rows@), row_views(filename@), strong as int),
{
    let ghost (all, f) = (row_views(rows@), row_views(filename@));
    let mut n: usize = rows.len();
    assert(all.take(n as int) =~= all);
    while n > 0 && !is_among_first(filename, strong, &rows[n - 1].path)
        invariant
            n <= rows.len(),
            all == row_views(rows@),
            f == row_views(filename@),
            last_strong(all, f, strong as int) == last_strong(all.take(n as int), f, strong as int),
        decreases n,
    {
        proof {
            assert(all.take(n as int).drop_last() =~= all.take(n - 1));
            assert(all.take(n as int).last() == rows@[n - 1]@);
        }
        n -= 1;
    }
    if n > 0 {
        assert(all.take(n as int).last() == rows@[n - 1]@);
    }
    n
}

fn due(pending: Option<u64>, clock: u64) -> (r: bool)
    ensures
        r == is_due(pending, clock),
{
    match pending {
        Some(at) => clock >= at && clock - at >= CONTENT_DEBOUNCE_MS,
        None => false,
    }
}

impl Engine {
    fn start(unified: bool, filter: bool) -> (r: Engine)
        ensures
            r@ == initial(unified, filter),
    {
        let r = Engine {
            mode: Mode::Fuzzy,
            generation: 0,
            query: String::new(),
            filters: Filters::default(),
            results: Vec::new(),
            filename_results: Vec::new(),
            semantic_results: Vec::new(),
            strong: 0,
            unified_strong: 0,
            status: EngineStatus {
                indexed: 0,
                indexing: !filter,
                matches: 0,
                error: None,
                walk: None,
            },
            index_error: None,
            pending_content: None,
            content_running: false,
            pending_semantic: None,
            unified,
            filter,
        };
        proof {
            assert(row_views(r.results@) =~= Seq::<RowView>::empty());
            assert(row_views(r.filename_results@) =~= Seq::<RowView>::empty());
            assert(row_views(r.semantic_results@) =~= Seq::<RowView>::empty());
        }
        r
    }

    /// An engine over the file index, which is being built.
    pub fn new(unified: bool) -> (r: Engine)
        ensures
            r@ == initial(unified, false),
    {
        Self::start(unified, false)
    }

    /// A filter-mode engine over arbitrary lines: same matcher, no content or
    /// semantic search. The lines are the index, in their order.
    pub fn from_lines(lines: &Vec<String>) -> (r: (Engine, PathStore))
        requires
            fits_arena(line_entries(texts(lines@))),
        ensures
            r.0@ == initial(false, true),
            r.1@ == line_entries(texts(lines@)),
    {
        let ghost all = texts(lines@);
        let mut entries: Vec<Entry> = Vec::new();
        let mut i: usize = 0;
        while i < lines.len()
            invariant
                i <= lines.len(),
                all == texts(lines@),
                entry_views(entries@) == line_entries(all).take(i as int),
            decreases lines.len() - i,
        {
            let e = (lines[i].clone(), FileMeta { mtime: 0, size: 0 });
            assert(entry_view(e) == line_entries(all)[i as int]);
            let ghost before = entries@;
            entries.push(e);
            i += 1;
            assert(entry_views(entries@) =~= entry_views(before).push(entry_view(e)));
            assert(line_entries(all).take(i as int) =~= line_entries(all).take(i - 1).push(
                line_entries(all)[i - 1],
            ));
            assert(entry_views(entries@) =~= line_entries(all).take(i as int));
        }
        assert(line_entries(all).take(i as int) =~= line_entries(all));
        (Self::start(false, true), PathStore::from_entries(&entries))
    }

    /// True when the engine filters piped lines.
    pub fn is_filter(&self) -> (r: bool)
        ensures
            r == self@.filter,
    {
        self.filter
    }

    fn is_unified_query(&self) -> (r: bool)
        ensures
            r == self@.is_unified(),
    {
        self.unified && matches!(self.mode, Mode::Fuzzy) && !self.query.as_str().is_empty()
    }

    /// Shows these rows.
    fn show(&mut self, rows: Vec<ResultRow>)
        ensures
            final(self)@ == old(self)@.showing(row_views(rows@)),
    {
        self.status.matches = rows.len();
        assert(row_views(rows@).len() == rows@.len());
        self.results = rows;
    }

    /// Starts the next query.
    fn advance(&mut self, mode: Mode, query: String, filters: Filters)
        requires
            old(self)@.generation < u64::MAX,
        ensures
            final(self)@ == (EngineView {
                mode,
                query: query@,
                filters: filters@,
                generation: (old(self)@.generation + 1) as u64,
                ..old(self)@.with_error(None)
            }),
    {
        self.generation = self.generation + 1;
        self.mode = mode;
        self.query = query;
        self.filters = filters;
        self.status.error = None;
    }

    /// Takes a new query. `now` (unix seconds) anchors relative dates, `clock`
    /// (milliseconds) the rest before slow searches.
    pub fn set_query(
        &mut self,
        input: &str,
        regex_mode: bool,
        now: i64,
        clock: u64,
        semantic_index: bool,
    ) -> (effects: Vec<Effect>)
        requires
            old(self)@.generation < u64::MAX,
        ensures
            final(self)@ == after_query(
                old(self)@,
                input@,
                regex_mode,
                now,
                clock,
                semantic_index,
            ),
            effects@ == query_effects(old(self)@, input@, regex_mode),
    {
        let mut effects: Vec<Effect> = Vec::new();
        let ghost s = self@;
        if self.filter {
            let (filters, query) = filters_of(input, now);
            let mode = if regex_mode {
                Mode::Regex
            } else {
                Mode::Fuzzy
            };
            self.advance(mode, query, filters);
            self.pending_content = None;
            self.pending_semantic = None;
            effects.push(Effect::SearchFilenames);
            assert(effects@ =~= seq![Effect::SearchFilenames]);
            return effects;
        }
        let (mode, text) = parse_query(input, regex_mode);
        if self.content_running {
            effects.push(Effect::CancelContent);
        }
        let ghost stop = effects@;
        assert(stop =~= if s.content_running {
            seq![Effect::CancelContent]
        } else {
            Seq::empty()
        });
        if matches!(mode, Mode::Calc) {
            self.generation = self.generation + 1;
            self.mode = mode;
            self.query = text;
            self.status.error = None;
            self.content_running = false;
            self.pending_content = None;
            self.pending_semantic = None;
            let none: Vec<ResultRow> = Vec::new();
            assert(row_views(none@) =~= Seq::<RowView>::empty());
            self.show(none);
            effects.push(Effect::Calculate);
            return effects;
        }
        let (filters, query) = filters_of(&text, now);
        let empty = query.as_str().is_empty();
        self.advance(mode, query, filters);
        self.content_running = false;
        self.filename_results = Vec::new();
        self.semantic_results = Vec::new();
        self.unified_strong = 0;
        proof {
            assert(row_views(self.filename_results@) =~= Seq::<RowView>::empty());
            assert(row_views(self.semantic_results@) =~= Seq::<RowView>::empty());
        }
        self.pending_content = if matches!(mode, Mode::Content) && !empty {
            Some(clock)
        } else {
            None
        };
        self.pending_semantic = if !empty && (matches!(mode, Mode::Semantic) || (matches!(
            mode,
            Mode::Fuzzy
        ) && self.unified && semantic_index)) {
            Some(clock)
        } else {
            None
        };
        if matches!(mode, Mode::Content) || matches!(mode, Mode::Semantic) {
            let none: Vec<ResultRow> = Vec::new();
            assert(row_views(none@) =~= Seq::<RowView>::empty());
            self.show(none);
        } else {
            effects.push(Effect::SearchFilenames);
        }
        effects
    }

    /// Rebuilds the visible list from both source rankings.
    fn rebuild_unified(&mut self)
        ensures
            rebuilt(old(self)@, final(self)@),
    {
        let rows = merge_unified_results(&self.filename_results, &self.semantic_results);
        let fold: usize = if self.strong == 0 {
            rows.len()
        } else {
            find_last_strong(&rows, &self.filename_results, self.strong)
        };
        assert(row_views(rows@).len() == rows@.len());
        self.show(rows);
        self.unified_strong = fold;
    }

    /// Takes a message; `store` and `boosts` are what is live now.
    pub fn handle(
        &mut self,
        msg: Msg,
        store: &PathStore,
        boosts: &PathMap<u32>,
        clock: u64,
        semantic_index: bool,
    ) -> (effects: Vec<Effect>)
        requires
            old(self)@.generation < u64::MAX,
        ensures
            handled(old(self)@, msg, store@, boosts@, clock, semantic_index, final(self)@),
            effects@ == message_effects(old(self)@, msg),
    {
        let mut effects: Vec<Effect> = Vec::new();
        let ghost s = self@;
        assert(effects@ =~= Seq::<Effect>::empty());
        match msg {
            Msg::IndexSnapshot { indexing } => {
                self.status.indexed = store.len();
                self.status.indexing = indexing;
                if !indexing {
                    self.status.walk = None;
                }
                if matches!(self.mode, Mode::Fuzzy) || matches!(self.mode, Mode::Regex) {
                    self.generation = self.generation + 1;
                    effects.push(Effect::SearchFilenames);
                    if self.is_unified_query() && semantic_index {
                        // the index update invalidates the generation of a
                        // pending semantic response
                        self.pending_semantic = Some(clock);
                    }
                }
                assert(effects@ =~= message_effects(s, msg));
            },
            Msg::IndexProgress { count, expected } => {
                self.status.walk = Some((count, expected));
                if expected.is_none() && self.status.indexing {
                    self.status.indexed = count;
                }
            },
            Msg::IndexError { error } => {
                self.status.indexing = false;
                self.status.walk = None;
                self.index_error = Some(error);
            },
            Msg::FilenameResults { generation, indices, strong, error } => {
                if generation != self.generation {
                    return effects;
                }
                let rows = rows_of(&indices, store, boosts);
                assert(row_views(rows@).len() == rows@.len());
                let kept: usize = if strong < rows.len() {
                    strong
                } else {
                    rows.len()
                };
                self.strong = kept;
                if self.is_unified_query() {
                    self.filename_results = rows;
                    self.status.error = error;
                    self.rebuild_unified();
                } else {
                    let shown = copy_rows(&rows);
                    self.filename_results = rows;
                    self.show(shown);
                    self.unified_strong = kept;
                    self.status.error = error;
                }
            },
            Msg::ContentHit { generation, hit } => {
                assert(row_views(self.results@).len() == self.results@.len());
                if generation != self.generation || self.results.len() >= CONTENT_LIMIT {
                    return effects;
                }
                let row = ResultRow {
                    path: hit.path,
                    line_number: Some(hit.line_number),
                    line: Some(hit.line),
                    recent_open: false,
                    meta: None,
                    score: None,
                };
                push_row(&mut self.results, row);
                assert(row_views(self.results@).len() == self.results@.len());
                self.status.matches = self.results.len();
                if self.results.len() >= CONTENT_LIMIT && self.content_running {
                    self.content_running = false;
                    effects.push(Effect::CancelContent);
                }
                assert(effects@ =~= message_effects(s, msg));
            },
            Msg::ContentError { generation, error } => {
                if generation == self.generation {
                    self.status.error = Some(error);
                }
            },
            Msg::SemanticResults { generation, rows, error } => {
                if generation != self.generation {
                    return effects;
                }
                let kept = admit_rows(&rows, &self.filters);
                if self.is_unified_query() {
                    self.semantic_results = kept;
                    self.rebuild_unified();
                } else if matches!(self.mode, Mode::Semantic) {
                    self.show(kept);
                    self.status.error = error;
                }
            },
            Msg::Calculated { generation, value } => {
                if generation != self.generation || !matches!(self.mode, Mode::Calc) {
                    return effects;
                }
                let mut rows: Vec<ResultRow> = Vec::new();
                let ghost shown = calc_rows(s.query, text_option(value));
                match value {
                    Some(path) => {
                        if !self.query.as_str().is_empty() {
                            let mut line = self.query.clone();
                            line.append(" =");
                            rows.push(
                                ResultRow {
                                    path,
                                    line_number: None,
                                    line: Some(line),
                                    recent_open: false,
                                    meta: None,
                                    score: None,
                                },
                            );
                        }
                    },
                    None => {},
                }
                assert(row_views(rows@) =~= shown);
                self.show(rows);
            },
        }
        effects
    }

    /// Starts the slow searches that have rested long enough.
    pub fn fire_due(&mut self, clock: u64) -> (effects: Vec<Effect>)
        ensures
            final(self)@ == after_firing(old(self)@, clock),
            effects@ == firing_effects(old(self)@, clock),
    {
        let ghost s = self@;
        let mut effects: Vec<Effect> = Vec::new();
        if due(self.pending_content, clock) {
            self.pending_content = None;
            self.content_running = true;
            effects.push(Effect::SearchContent);
        }
        if due(self.pending_semantic, clock) {
            self.pending_semantic = None;
            effects.push(Effect::SearchSemantic);
        }
        assert(effects@ =~= firing_effects(s, clock));
        effects
    }

    pub fn results(&self) -> (r: &Vec<ResultRow>)
        ensures
            row_views(r@) == self@.results,
    {
        &self.results
    }

    /// How many rows remain above the filename relative score floor (semantic
    /// rows are all visible when there is no filename match; content and
    /// semantic modes have no score floor).
    pub fn strong_count(&self) -> (r: usize)
        ensures
            r == self@.strong_count(),
    {
        assert(row_views(self.results@).len() == self.results@.len());
        match self.mode {
            Mode::Fuzzy => if self.is_unified_query() {
                self.unified_strong
            } else {
                self.strong
            },
            Mode::Regex => self.strong,
            _ => self.results.len(),
        }
    }

    /// The status; an error of the search comes before one of the index.
    pub fn status(&self) -> (r: EngineStatus)
        ensures
            r@ == (StatusView {
                error: if self@.status.error is Some {
                    self@.status.error
                } else {
                    self@.index_error
                },
                ..self@.status
            }),
    {
        EngineStatus {
            indexed: self.status.indexed,
            indexing: self.status.indexing,
            matches: self.status.matches,
            error: if self.status.error.is_some() {
                copy_text(&self.status.error)
            } else {
                copy_text(&self.index_error)
            },
            walk: self.status.walk,
        }
    }

    pub fn mode(&self) -> (r: Mode)
        ensures
            r == self@.mode,
    {
        self.mode
    }

    pub fn generation(&self) -> (r: u64)
        ensures
            r == self@.generation,
    {
        self.generation
    }

    /// The query text that the current search is for.
    pub fn query(&self) -> (r: &str)
        ensures
            r@ == self@.query,
    {
        self.query.as_str()
    }

    pub fn filters(&self) -> (r: &Filters)
        ensures
            r@ == self@.filters,
    {
        &self.filters
    }

    /// How the filename worker matches.
    pub fn filename_mode(&self) -> (r: FilenameMode)
        ensures
            r == (if self@.mode == Mode::Regex {
                FilenameMode::Regex
            } else {
                FilenameMode::Fuzzy
            }),
    {
        match self.mode {
            Mode::Regex => FilenameMode::Regex,
            _ => FilenameMode::Fuzzy,
        }
    }
}

/// Lines as the entries of an index.
pub open spec fn line_entries(lines: Seq<Seq<char>>) -> Seq<EntryView> {
    lines.map_values(|line: Seq<char>| (line, FileMeta { mtime: 0, size: 0 }))
}

// ------------------------------------------------------------- content scope

/// The entry is in the scope of a content search.
pub open spec fn in_scope(f: FilterSet, e: EntryView) -> bool {
    f == no_filters() || (path_passes(f, e.0) && meta_passes(f, e.1))
}

/// The indices below `n` of the entries in scope.
pub open spec fn scope_indices(f: FilterSet, es: Seq<EntryView>, n: int) -> Seq<usize>
    decreases n,
{
    if n <= 0 {
        Seq::empty()
    } else {
        let rest = scope_indices(f, es, n - 1);
        if in_scope(f, es[n - 1]) {
            rest.push((n - 1) as usize)
        } else {
            rest
        }
    }
}

/// The entries that a content search with these filters reads.
pub fn content_scope(filters: &Filters, store: &PathStore) -> (r: Vec<usize>)
    ensures
        r@ == scope_indices(filters@, store@, store@.len() as int),
{
    let mut out: Vec<usize> = Vec::new();
    let empty = filters.is_empty();
    let mut i: usize = 0;
    while i < store.len()
        invariant
            i <= store@.len(),
            empty == (filters@ == no_filters()),
            out@ == scope_indices(filters@, store@, i as int),
        decreases store@.len() - i,
    {
        if empty || (filters.matches(store.get(i)) && filters.matches_meta(&store.meta(i))) {
            out.push(i);
        }
        i += 1;
    }
    out
}

// --------------------------------------------------------------------- laws

/// The generation that results were asked for in.
pub open spec fn asked_in(msg: Msg) -> Option<u64> {
    match msg {
        Msg::FilenameResults { generation, indices, strong, error } => Some(generation),
        Msg::ContentHit { generation, hit } => Some(generation),
        Msg::ContentError { generation, error } => Some(generation),
        Msg::SemanticResults { generation, rows, error } => Some(generation),
        Msg::Calculated { generation, value } => Some(generation),
        _ => None,
    }
}

/// Results that were asked for by an earlier query change nothing and set off
/// nothing.
pub proof fn stale_results_change_nothing(
    s: EngineView,
    msg: Msg,
    es: Seq<EntryView>,
    boosts: Map<Seq<char>, u32>,
    clock: u64,
    semantic_index: bool,
    t: EngineView,
)
    requires
        asked_in(msg) matches Some(g) && g != s.generation,
        handled(s, msg, es, boosts, clock, semantic_index, t),
    ensures
        t == s,
        message_effects(s, msg) == Seq::<Effect>::empty(),
{
}

/// A new query makes everything stale that was asked for before.
pub proof fn a_query_outdates_earlier_results(
    s: EngineView,
    input: Seq<char>,
    regex_mode: bool,
    now: i64,
    clock: u64,
    semantic_index: bool,
)
    requires
        s.generation < u64::MAX,
    ensures
        after_query(s, input, regex_mode, now, clock, semantic_index).generation > s.generation,
{
}

/// An index error stays visible, whatever is searched for.
pub proof fn index_errors_survive_queries(
    s: EngineView,
    input: Seq<char>,
    regex_mode: bool,
    now: i64,
    clock: u64,
    semantic_index: bool,
)
    ensures
        after_query(s, input, regex_mode, now, clock, semantic_index).index_error
            == s.index_error,
        after_firing(s, clock).index_error == s.index_error,
{
}

/// An index error stays visible, whatever comes back; only another index
/// error replaces it.
pub proof fn index_errors_survive_messages(
    s: EngineView,
    msg: Msg,
    es: Seq<EntryView>,
    boosts: Map<Seq<char>, u32>,
    clock: u64,
    semantic_index: bool,
    t: EngineView,
)
    requires
        handled(s, msg, es, boosts, clock, semantic_index, t),
    ensures
        match msg {
            Msg::IndexError { error } => t.index_error == Some(error@),
            _ => t.index_error == s.index_error,
        },
{
}

/// The status counts the visible rows, and content searches are capped.
pub open spec fn consistent(s: EngineView) -> bool {
    &&& s.status.matches == s.results.len()
    &&& s.mode == Mode::Content ==> s.results.len() <= CONTENT_LIMIT
}

/// The initial state is consistent, and queries and due searches keep it so.
pub proof fn queries_keep_consistency(
    s: EngineView,
    input: Seq<char>,
    regex_mode: bool,
    now: i64,
    clock: u64,
    semantic_index: bool,
)
    ensures
        consistent(initial(s.unified, s.filter)),
        consistent(s) ==> consistent(
            after_query(s, input, regex_mode, now, clock, semantic_index),
        ),
        consistent(s) ==> consistent(after_firing(s, clock)),
{
}

/// Messages keep the state consistent; a content query asks for no filenames,
/// so none come back for it.
pub proof fn messages_keep_consistency(
    s: EngineView,
    msg: Msg,
    es: Seq<EntryView>,
    boosts: Map<Seq<char>, u32>,
    clock: u64,
    semantic_index: bool,
    t: EngineView,
)
    requires
        handled(s, msg, es, boosts, clock, semantic_index, t),
        consistent(s),
        t.results.len() <= usize::MAX,
        s.mode == Mode::Content && msg is FilenameResults ==> asked_in(msg) != Some(s.generation),
    ensures
        consistent(t),
{
}

/// A content or semantic query without text searches for nothing, and what an
/// earlier query had pending is dropped.
pub proof fn empty_queries_drop_pending_searches(
    s: EngineView,
    input: Seq<char>,
    regex_mode: bool,
    now: i64,
    clock: u64,
    semantic_index: bool,
)
    requires
        !s.filter,
        ({
            let (mode, text) = query_parts(input, regex_mode);
            (mode == Mode::Content || mode == Mode::Semantic) && split_filters(
                text,
                now,
            ).1.len() == 0
        }),
    ensures
        ({
            let t = after_query(s, input, regex_mode, now, clock, semantic_index);
            &&& t.pending_content is None
            &&& t.pending_semantic is None
            &&& !t.content_running
            &&& t.results.len() == 0
            &&& forall|later: u64| firing_effects(t, later) == Seq::<Effect>::empty()
        }),
{
    let t = after_query(s, input, regex_mode, now, clock, semantic_index);
    assert forall|later: u64| firing_effects(t, later) == Seq::<Effect>::empty() by {
        assert(firing_effects(t, later) =~= Seq::<Effect>::empty());
    }
}


/// A leading `=` asks for a calculation, `>` for a content search and `?` for a
/// semantic search; spaces after it do not count. Any other input is searched
/// for among the filenames as it is.
pub proof fn queries_start_with_their_mode(
    before: Seq<char>,
    core: Seq<char>,
    after: Seq<char>,
    input: Seq<char>,
    regex_mode: bool,
)
    requires
        forall|k: int| 0 <= k < before.len() ==> is_space(#[trigger] before[k]),
        forall|k: int| 0 <= k < after.len() ==> is_space(#[trigger] after[k]),
        core.len() > 0,
        !is_space(core[0]),
        !is_space(core.last()),
        input.len() == 0 || (input[0] != '=' && input[0] != '>' && input[0] != '?'),
    ensures
        query_parts(seq!['='] + before + core + after, regex_mode) == (Mode::Calc, core),
        query_parts(seq!['>'] + before + core + after, regex_mode) == (
            Mode::Content,
            core + after,
        ),
        query_parts(seq!['?'] + before + core + after, regex_mode) == (
            Mode::Semantic,
            core + after,
        ),
        query_parts(input, true) == (Mode::Regex, input),
        query_parts(input, false) == (Mode::Fuzzy, input),
{
    let rest = before + core + after;
    trimming_cuts_outer_spaces(before, core, after);
    lemma_start_trimmed(before, core + after);
    assert(before + (core + after) =~= rest);
    assert((seq!['='] + before + core + after).skip(1) =~= rest);
    assert((seq!['>'] + before + core + after).skip(1) =~= rest);
    assert((seq!['?'] + before + core + after).skip(1) =~= rest);
}

proof fn lemma_start_trimmed(before: Seq<char>, rest: Seq<char>)
    requires
        forall|k: int| 0 <= k < before.len() ==> is_space(#[trigger] before[k]),
        rest.len() > 0,
        !is_space(rest[0]),
    ensures
        trim_start(before + rest) == rest,
    decreases before.len(),
{
    let s = before + rest;
    lemma_spaces_skipped(s, 0, before.len() as int);
    assert(s[before.len() as int] == rest[0]);
    assert(s.skip(before.len() as int) =~= rest);
}

proof fn lemma_spaces_skipped(s: Seq<char>, i: int, end: int)
    requires
        0 <= i <= end < s.len(),
        forall|k: int| i <= k < end ==> is_space(#[trigger] s[k]),
        !is_space(s[end]),
    ensures
        skip_spaces(s, i) == end,
    decreases end - i,
{
    if i < end {
        lemma_spaces_skipped(s, i + 1, end);
    }
}

proof fn lemma_scope_holds(f: FilterSet, es: Seq<EntryView>, n: int, i: int)
    requires
        0 <= i < n <= es.len() <= usize::MAX,
    ensures
        scope_indices(f, es, n).contains(i as usize) <==> in_scope(f, es[i]),
    decreases n,
{
    let rest = scope_indices(f, es, n - 1);
    let r = scope_indices(f, es, n);
    if i < n - 1 {
        lemma_scope_holds(f, es, n - 1, i);
        if rest.contains(i as usize) {
            let k = choose|k: int| 0 <= k < rest.len() && rest[k] == i as usize;
            assert(r[k] == i as usize);
        }
        if r.contains(i as usize) {
            let k = choose|k: int| 0 <= k < r.len() && r[k] == i as usize;
            assert(rest[k] == i as usize);
        }
    } else if in_scope(f, es[i]) {
        assert(r[rest.len() as int] == i as usize);
    } else if rest.contains(i as usize) {
        lemma_scope_order(f, es, n - 1);
        let k = choose|k: int| 0 <= k < rest.len() && rest[k] == i as usize;
        assert(rest[k] < n - 1);
    }
}

proof fn lemma_scope_order(f: FilterSet, es: Seq<EntryView>, n: int)
    requires
        0 <= n <= es.len() <= usize::MAX,
    ensures
        ({
            let r = scope_indices(f, es, n);
            &&& forall|j: int, k: int| 0 <= j < k < r.len() ==> #[trigger] r[j] < #[trigger] r[k]
            &&& forall|k: int| 0 <= k < r.len() ==> #[trigger] r[k] < n
        }),
    decreases n,
{
    if n > 0 {
        lemma_scope_order(f, es, n - 1);
        let rest = scope_indices(f, es, n - 1);
        let r = scope_indices(f, es, n);
        assert forall|j: int, k: int| 0 <= j < k < r.len() implies #[trigger] r[j]
            < #[trigger] r[k] by {
            assert(rest[j] == r[j]);
            if k < rest.len() {
                assert(rest[k] == r[k]);
            }
        }
        assert forall|k: int| 0 <= k < r.len() implies #[trigger] r[k] < n by {
            if k < rest.len() {
                assert(rest[k] == r[k]);
            }
        }
    }
}

/// A content search reads the entries that the filters let pass, each once and
/// in index order; without filters it reads them all.
pub proof fn scopes_follow_filters(f: FilterSet, es: Seq<EntryView>, i: int)
    requires
        0 <= i < es.len() <= usize::MAX,
    ensures
        ({
            let r = scope_indices(f, es, es.len() as int);
            &&& r.contains(i as usize) <==> {
                ||| f == no_filters()
                ||| path_passes(f, es[i].0) && meta_passes(f, es[i].1)
            }
            &&& forall|j: int, k: int| 0 <= j < k < r.len() ==> #[trigger] r[j] < #[trigger] r[k]
            &&& forall|k: int| 0 <= k < r.len() ==> #[trigger] r[k] < es.len()
        }),
{
    lemma_scope_holds(f, es, es.len() as int, i);
    lemma_scope_order(f, es, es.len() as int);
}

/// A content or semantic search starts once, and only when the query has rested
/// for 300 milliseconds.
pub proof fn searches_wait_for_a_pause(
    s: EngineView,
    c: char,
    text: Seq<char>,
    regex_mode: bool,
    now: i64,
    clock: u64,
    semantic_index: bool,
    later: u64,
)
    requires
        !s.filter,
        c == '>' || c == '?',
        text.len() > 0,
        !is_space(text[0]),
        !text.contains(':'),
    ensures
        ({
            let t = after_query(s, seq![c] + text, regex_mode, now, clock, semantic_index);
            let what = if c == '>' {
                Effect::SearchContent
            } else {
                Effect::SearchSemantic
            };
            &&& t.query == text
            &&& t.results.len() == 0
            &&& later < clock + 300 ==> firing_effects(t, later) == Seq::<Effect>::empty()
            &&& later >= clock + 300 ==> firing_effects(t, later) == seq![what]
            &&& later >= clock + 300 ==> firing_effects(after_firing(t, later), later) == Seq::<
                Effect,
            >::empty()
        }),
{
    let input = seq![c] + text;
    assert(input.skip(1) =~= text);
    lemma_spaces_skipped(text, 0, 0);
    assert(text.skip(0) =~= text);
    plain_words_are_no_filters(text, now);
    let t = after_query(s, input, regex_mode, now, clock, semantic_index);
    assert(firing_effects(t, later) =~= if later >= clock + 300 {
        seq![
            if c == '>' {
                Effect::SearchContent
            } else {
                Effect::SearchSemantic
            },
        ]
    } else {
        Seq::empty()
    });
    if later >= clock + 300 {
        assert(firing_effects(after_firing(t, later), later) =~= Seq::<Effect>::empty());
    }
}

proof fn lemma_filename_rows(indices: Seq<usize>, es: Seq<EntryView>, boosts: Map<Seq<char>, u32>)
    requires
        forall|k: int| 0 <= k < indices.len() ==> #[trigger] indices[k] < es.len(),
    ensures
        filename_rows(indices, es, boosts).len() == indices.len(),
        forall|k: int|
            0 <= k < indices.len() ==> #[trigger] filename_rows(indices, es, boosts)[k]
                == filename_row(es[indices[k] as int], boosts),
    decreases indices.len(),
{
    if indices.len() > 0 {
        lemma_filename_rows(indices.drop_last(), es, boosts);
    }
}

/// The filenames that a query finds are shown in the order in which they were
/// found, each with its own path, size and time, and marked where it has been
/// opened before. Those that are strong are above the fold.
pub proof fn filenames_are_shown_as_found(
    s: EngineView,
    indices: Vec<usize>,
    strong: usize,
    error: Option<String>,
    es: Seq<EntryView>,
    boosts: Map<Seq<char>, u32>,
    clock: u64,
    semantic_index: bool,
    t: EngineView,
    k: int,
)
    requires
        handled(
            s,
            Msg::FilenameResults { generation: s.generation, indices, strong, error },
            es,
            boosts,
            clock,
            semantic_index,
            t,
        ),
        !s.is_unified(),
        s.mode == Mode::Fuzzy || s.mode == Mode::Regex,
        strong <= indices@.len(),
        forall|j: int| 0 <= j < indices@.len() ==> #[trigger] indices@[j] < es.len(),
        0 <= k < indices@.len(),
    ensures
        t.results.len() == indices@.len(),
        t.results[k].path == es[indices@[k] as int].0,
        t.results[k].meta == Some(es[indices@[k] as int].1),
        t.results[k].recent_open == boosts.dom().contains(es[indices@[k] as int].0),
        t.strong_count() == strong,
        t.status.matches == indices@.len(),
        t.status.error == text_option(error),
        t.query == s.query && t.generation == s.generation,
{
    lemma_filename_rows(indices@, es, boosts);
    assert(indices.len() == indices@.len());
    let row = filename_rows(indices@, es, boosts)[k];
    assert(row == filename_row(es[indices@[k] as int], boosts));
}

/// Content hits are shown one after another, as they come in, up to the limit.
pub proof fn content_hits_are_added_at_the_end(
    s: EngineView,
    hit: ContentMatch,
    es: Seq<EntryView>,
    boosts: Map<Seq<char>, u32>,
    clock: u64,
    semantic_index: bool,
    t: EngineView,
)
    requires
        handled(
            s,
            Msg::ContentHit { generation: s.generation, hit },
            es,
            boosts,
            clock,
            semantic_index,
            t,
        ),
    ensures
        s.results.is_prefix_of(t.results),
        s.results.len() < CONTENT_LIMIT ==> {
            let row = t.results.last();
            &&& t.results.len() == s.results.len() + 1
            &&& row.path == hit.path@
            &&& row.line_number == Some(hit.line_number)
            &&& row.line == Some(hit.line@)
        },
        s.results.len() >= CONTENT_LIMIT ==> t == s,
{
    assert(s.results.is_prefix_of(t.results));
}

/// The rows of a list that filters let pass are those whose paths do, in their
/// order.
pub proof fn rows_pass_by_their_paths(rows: Seq<RowView>, f: FilterSet)
    ensures
        admitted(rows, no_filters()) == rows,
        admitted(rows, f).len() <= rows.len(),
        forall|row: RowView| #[trigger]
            admitted(rows, f).contains(row) <==> rows.contains(row) && (f == no_filters()
                || path_passes(f, row.path)),
        rows.len() > 0 ==> admitted(rows.drop_last(), f).is_prefix_of(admitted(rows, f)),
    decreases rows.len(),
{
    if rows.len() > 0 {
        let fewer = rows.drop_last();
        rows_pass_by_their_paths(fewer, f);
        assert(fewer.push(rows.last()) =~= rows);
        let before = admitted(fewer, f);
        let after = admitted(rows, f);
        assert(before.is_prefix_of(after));
        assert forall|row: RowView| #[trigger] after.contains(row) <==> rows.contains(row) && (f
            == no_filters() || path_passes(f, row.path)) by {
            if before.contains(row) {
                let k = choose|k: int| 0 <= k < before.len() && before[k] == row;
                assert(after[k] == row);
            }
            if fewer.contains(row) {
                let k = choose|k: int| 0 <= k < fewer.len() && fewer[k] == row;
                assert(rows[k] == row);
            }
            if after.contains(row) && !before.contains(row) {
                let k = choose|k: int| 0 <= k < after.len() && after[k] == row;
                assert(k >= before.len() ==> row == rows.last()) by {
                    if k < before.len() {
                        assert(before[k] == row);
                    }
                }
                if k < before.len() {
                    assert(before[k] == row);
                }
                assert(rows[rows.len() - 1] == row);
            }
            if rows.contains(row) && !fewer.contains(row) {
                let k = choose|k: int| 0 <= k < rows.len() && rows[k] == row;
                if k < fewer.len() {
                    assert(fewer[k] == row);
                }
                if f == no_filters() || path_passes(f, row.path) {
                    assert(after[before.len() as int] == row);
                }
            }
        }
    }
}

proof fn lemma_last_strong(rows: Seq<RowView>, filename: Seq<RowView>, strong: int)
    ensures
        ({
            let n = last_strong(rows, filename, strong);
            &&& 0 <= n <= rows.len()
            &&& n > 0 ==> among_first(filename, strong, rows[n - 1].path)
            &&& forall|k: int|
                n <= k < rows.len() ==> !among_first(filename, strong, (#[trigger] rows[k]).path)
        }),
    decreases rows.len(),
{
    if rows.len() > 0 && !among_first(filename, strong, rows.last().path) {
        lemma_last_strong(rows.drop_last(), filename, strong);
        let n = last_strong(rows, filename, strong);
        assert forall|k: int| n <= k < rows.len() implies !among_first(
            filename,
            strong,
            (#[trigger] rows[k]).path,
        ) by {
            if k < rows.len() - 1 {
                assert(rows.drop_last()[k] == rows[k]);
            }
        }
    }
}

/// In a blended list every strong filename match is above the fold, and the last
/// row above it is one. Without any strong match nothing is folded away.
pub proof fn blended_lists_fold_after_the_last_strong_match(s: EngineView, t: EngineView, k: int)
    requires
        rebuilt(s, t),
        s.is_unified(),
        t.results.len() <= usize::MAX,
        0 <= k < t.results.len(),
    ensures
        s.strong == 0 ==> t.strong_count() == t.results.len(),
        s.strong > 0 ==> {
            let strong = |path: Seq<char>| among_first(s.filename_results, s.strong as int, path);
            &&& strong(t.results[k].path) ==> k < t.strong_count()
            &&& t.strong_count() > 0 ==> strong(t.results[t.strong_count() - 1].path)
            &&& t.strong_count() <= t.results.len()
        },
{
    lemma_last_strong(t.results, s.filename_results, s.strong as int);
}

/// The result of a calculation is shown in one row with what was calculated;
/// where there is none, no row is shown.
pub proof fn results_of_calculations_are_shown(
    s: EngineView,
    value: Option<String>,
    es: Seq<EntryView>,
    boosts: Map<Seq<char>, u32>,
    clock: u64,
    semantic_index: bool,
    t: EngineView,
)
    requires
        handled(
            s,
            Msg::Calculated { generation: s.generation, value },
            es,
            boosts,
            clock,
            semantic_index,
            t,
        ),
        s.mode == Mode::Calc,
        s.query.len() > 0,
    ensures
        t.results.len() == if value is Some {
            1nat
        } else {
            0nat
        },
        value matches Some(v) ==> t.results[0].path == v@ && t.results[0].line == Some(
            s.query + " ="@,
        ),
        t.strong_count() == t.results.len(),
{
}

} // verus!
