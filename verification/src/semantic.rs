//! The worker that answers semantic queries: when it loads the store, when it
//! looks for a newer one, and the rows it answers with.

use crate::engine::Msg;
use crate::fusion::{push_row, row_views, text_option, ResultRow, RowView};
use crate::sem::{
    check_store, is_number, row_text, score_number, scores_are_compared_as_numbers, Hit, SemStore,
    SemView, StoreGap, SNIPPET_ROWS,
};
use vstd::arithmetic::power2::*;
use vstd::prelude::*;
use vstd::string::*;

verus! {

/// How often the store file is looked at, in milliseconds.
pub const CHECK_EVERY_MS: u64 = 1000;

/// When a file was modified, in seconds and nanoseconds; none if it is not there.
pub type Stamp = Option<(u64, u32)>;

/// The state of the worker: whether a store is loaded, the stamp of its file,
/// and when the file was last looked at.
pub struct Worker {
    ready: bool,
    stamp: Stamp,
    checked: u64,
}

/// The model of a [`Worker`].
pub struct WorkerView {
    pub ready: bool,
    pub stamp: Stamp,
    pub checked: u64,
}

impl View for Worker {
    type V = WorkerView;

    closed spec fn view(&self) -> WorkerView {
        WorkerView { ready: self.ready, stamp: self.stamp, checked: self.checked }
    }
}

/// Whether the file of the loaded store is to be looked at again.
pub open spec fn is_due(w: WorkerView, clock: u64) -> bool {
    w.ready && clock - w.checked >= CHECK_EVERY_MS
}

/// The worker when the file has been looked at: a store whose file has changed
/// is dropped, so that it is loaded anew.
pub open spec fn after_look(w: WorkerView, stamp: Stamp) -> WorkerView {
    WorkerView { ready: w.ready && stamp == w.stamp, ..w }
}

/// The worker after a try to load the store for an embedder of this dimension.
pub open spec fn after_load(
    w: WorkerView,
    stored: Option<u32>,
    dim: usize,
    stamp: Stamp,
) -> WorkerView {
    if stored matches Some(d) && d == dim {
        WorkerView { ready: true, stamp, ..w }
    } else {
        w
    }
}

pub fn same_stamp(a: Stamp, b: Stamp) -> (r: bool)
    ensures
        r == (a == b),
{
    match (a, b) {
        (Some((s, n)), Some((t, m))) => s == t && n == m,
        (None, None) => true,
        _ => false,
    }
}

impl Worker {
    pub fn new(clock: u64) -> (r: Worker)
        ensures
            r@ == (WorkerView { ready: false, stamp: None, checked: clock }),
    {
        Worker { ready: false, stamp: None, checked: clock }
    }

    /// Whether a store is loaded.
    pub fn is_ready(&self) -> (r: bool)
        ensures
            r == self@.ready,
    {
        self.ready
    }

    /// Whether the store file is to be looked at before the next answer. The
    /// clock counts milliseconds.
    pub fn look_due(&mut self, clock: u64) -> (r: bool)
        ensures
            r == is_due(old(self)@, clock),
            final(self)@ == (if is_due(old(self)@, clock) {
                WorkerView { checked: clock, ..old(self)@ }
            } else {
                old(self)@
            }),
    {
        if self.ready && clock >= self.checked && clock - self.checked >= CHECK_EVERY_MS {
            self.checked = clock;
            true
        } else {
            false
        }
    }

    /// The store file was looked at.
    pub fn looked(&mut self, stamp: Stamp)
        ensures
            final(self)@ == after_look(old(self)@, stamp),
    {
        if !same_stamp(stamp, self.stamp) {
            self.ready = false;
        }
    }

    /// A store was loaded, or none was there; `stamp` is that of its file.
    pub fn loaded(&mut self, stored: Option<u32>, dim: usize, stamp: Stamp) -> (r: Result<
        (),
        StoreGap,
    >)
        ensures
            r == (match stored {
                None => Err::<(), StoreGap>(StoreGap::Missing),
                Some(d) => if d == dim {
                    Ok(())
                } else {
                    Err(StoreGap::OtherModel)
                },
            }),
            final(self)@ == after_load(old(self)@, stored, dim, stamp),
    {
        let fit = check_store(stored, dim);
        if fit.is_ok() {
            self.ready = true;
            self.stamp = stamp;
        }
        fit
    }
}

/// A store whose file was replaced is not used for another answer once the file
/// has been looked at, and one that stayed is kept.
pub proof fn replaced_stores_are_dropped(w: WorkerView, stamp: Stamp)
    ensures
        stamp != w.stamp ==> !after_look(w, stamp).ready,
        stamp == w.stamp ==> after_look(w, stamp) == w,
{
}

/// Only a store of the embedder's dimension makes the worker ready.
pub proof fn only_fitting_stores_answer(
    w: WorkerView,
    stored: Option<u32>,
    dim: usize,
    stamp: Stamp,
)
    requires
        !w.ready,
    ensures
        after_load(w, stored, dim, stamp).ready <==> (stored matches Some(d) && d == dim),
{
}

// ------------------------------------------------------------------ the rows

/// The bits of a single-precision score between 0 and 1: lower ones become 0,
/// higher ones 1. What is no number stays.
pub open spec fn clamped_score(bits: u32) -> u32 {
    if 0x8000_0000 < bits <= 0xff80_0000 {
        0
    } else if 0x3f80_0000 < bits <= 0x7f80_0000 {
        0x3f80_0000
    } else {
        bits
    }
}

pub fn clamp_score(bits: u32) -> (r: u32)
    ensures
        r == clamped_score(bits),
{
    if 0x8000_0000 < bits && bits <= 0xff80_0000 {
        0
    } else if 0x3f80_0000 < bits && bits <= 0x7f80_0000 {
        0x3f80_0000
    } else {
        bits
    }
}

/// What is shown of a hit: the snippet where there is one, and how well it
/// matches.
pub type Shown = (Option<String>, String);

/// The row of the `i`-th hit.
pub open spec fn semantic_row(
    v: SemView,
    hit: Hit,
    i: int,
    snippet: Option<Seq<char>>,
    percent: Seq<char>,
) -> RowView {
    RowView {
        path: v.docs[hit.doc as int].path,
        line_number: Some(hit.line_start as u64),
        line: Some(
            if i < SNIPPET_ROWS && snippet is Some {
                snippet->Some_0
            } else {
                percent
            },
        ),
        recent_open: false,
        meta: None,
        score: Some(clamped_score(hit.score)),
    }
}

/// The rows of hits, in order.
pub fn semantic_rows(store: &SemStore, hits: &Vec<Hit>, shown: Vec<Shown>) -> (r: Vec<ResultRow>)
    requires
        hits@.len() == shown@.len(),
        forall|i: int| 0 <= i < hits@.len() ==> (#[trigger] hits@[i]).doc < store@.docs.len(),
    ensures
        row_views(r@) == Seq::new(
            hits@.len(),
            |i: int|
                semantic_row(store@, hits@[i], i, text_option(shown@[i].0), shown@[i].1@),
        ),
{
    let ghost rows = Seq::new(
        hits@.len(),
        |i: int| semantic_row(store@, hits@[i], i, text_option(shown@[i].0), shown@[i].1@),
    );
    let mut out: Vec<ResultRow> = Vec::new();
    assert(row_views(out@) =~= rows.take(0));
    let mut i: usize = 0;
    while i < hits.len()
        invariant
            i <= hits@.len() == shown@.len() == rows.len(),
            forall|k: int| 0 <= k < hits@.len() ==> (#[trigger] hits@[k]).doc < store@.docs.len(),
            forall|k: int|
                0 <= k < rows.len() ==> #[trigger] rows[k] == semantic_row(
                    store@,
                    hits@[k],
                    k,
                    text_option(shown@[k].0),
                    shown@[k].1@,
                ),
            row_views(out@) == rows.take(i as int),
        decreases hits@.len() - i,
    {
        let hit = hits[i];
        let doc = &store.docs[hit.doc];
        let line = row_text(i, crate::fusion::copy_text(&shown[i].0), shown[i].1.as_str().to_owned());
        let row = ResultRow {
            path: doc.path.as_str().to_owned(),
            line_number: Some(hit.line_start as u64),
            line: Some(line),
            recent_open: false,
            meta: None,
            score: Some(clamp_score(hit.score)),
        };
        assert(row@ == rows[i as int]);
        push_row(&mut out, row);
        i += 1;
        assert(row_views(out@) =~= rows.take(i as int));
    }
    assert(rows.take(i as int) =~= rows);
    out
}

/// The answer to a query: its rows, or what went wrong.
pub fn answer(generation: u64, found: Result<Vec<ResultRow>, String>) -> (r: Msg)
    ensures
        match r {
            Msg::SemanticResults { generation: g, rows, error } => g == generation && match found {
                Ok(all) => rows == all && error is None,
                Err(e) => rows@.len() == 0 && error == Some(e),
            },
            _ => false,
        },
{
    match found {
        Ok(rows) => Msg::SemanticResults { generation, rows, error: None },
        Err(e) => Msg::SemanticResults { generation, rows: Vec::new(), error: Some(e) },
    }
}


/// A shown score lies between 0 and 1: a score in between stays, a lower one
/// becomes 0 and a higher one 1.
pub proof fn shown_scores_lie_between_zero_and_one(bits: u32)
    requires
        is_number(bits),
    ensures
        ({
            let (n, m) = (score_number(bits), score_number(clamped_score(bits)));
            let one = 0x80_0000 * pow2(126);
            &&& is_number(clamped_score(bits))
            &&& n < 0 ==> m == 0
            &&& n > one ==> m == one
            &&& 0 <= n <= one ==> m == n
        }),
{
    scores_are_compared_as_numbers(bits, 0);
    scores_are_compared_as_numbers(bits, 0x3f80_0000);
    scores_are_compared_as_numbers(0, 0x3f80_0000);
    assert(score_number(0x3f80_0000) == 0x80_0000 * pow2(126));
    assert(score_number(0) == 0);
}

} // verus!
