//! Result rows, and the fusion of filename and semantic rankings.

use crate::binary64::{
    exceeds, is_close, is_greater, is_normal, is_same, lemma_close_in_order, lemma_nearest_falls,
    lemma_nearest_normal, lemma_plus_at_least, lemma_plus_grows, lemma_plus_in_units,
    lemma_reciprocal_is_close, lemma_reciprocals_are_close, lemma_units_in_order, nearest, plus,
    reciprocal, sum, units, Approx, Rounded, MANTISSA_MIN,
};
use crate::order::{is_sorted, lemma_same_members, sort, Ordered};
use crate::text::{
    lemma_text_lt_irreflexive, lemma_text_lt_total, lemma_text_lt_transitive, lemma_text_order,
    same, text_less, text_lt,
};
use crate::walker::FileMeta;
use vstd::arithmetic::power2::*;
use vstd::prelude::*;

verus! {

/// A row of the result list.
#[derive(Debug, PartialEq)]
pub struct ResultRow {
    pub path: String,
    pub line_number: Option<u64>,
    pub line: Option<String>,
    /// True when this row ranks high because the user opened it before.
    pub recent_open: bool,
    /// Index metadata for filename rows; content hits and semantic-only rows
    /// carry none.
    pub meta: Option<FileMeta>,
    /// The bits of the semantic score (single precision, 0 to 1); none for
    /// other rows.
    pub score: Option<u32>,
}

/// The model of a [`ResultRow`].
pub struct RowView {
    pub path: Seq<char>,
    pub line_number: Option<u64>,
    pub line: Option<Seq<char>>,
    pub recent_open: bool,
    pub meta: Option<FileMeta>,
    pub score: Option<u32>,
}

pub open spec fn text_option(s: Option<String>) -> Option<Seq<char>> {
    match s {
        Some(t) => Some(t@),
        None => None,
    }
}

impl View for ResultRow {
    type V = RowView;

    open spec fn view(&self) -> RowView {
        RowView {
            path: self.path@,
            line_number: self.line_number,
            line: text_option(self.line),
            recent_open: self.recent_open,
            meta: self.meta,
            score: self.score,
        }
    }
}

pub open spec fn row_views(rows: Seq<ResultRow>) -> Seq<RowView> {
    rows.map_values(|r: ResultRow| r@)
}

pub fn copy_text(s: &Option<String>) -> (r: Option<String>)
    ensures
        text_option(r) == text_option(*s),
{
    match s {
        Some(t) => Some(t.clone()),
        None => None,
    }
}

impl Clone for ResultRow {
    fn clone(&self) -> (r: ResultRow)
        ensures
            r@ == self@,
    {
        ResultRow {
            path: self.path.clone(),
            line_number: self.line_number,
            line: copy_text(&self.line),
            recent_open: self.recent_open,
            meta: self.meta,
            score: self.score,
        }
    }
}

pub fn copy_rows(rows: &Vec<ResultRow>) -> (r: Vec<ResultRow>)
    ensures
        row_views(r@) == row_views(rows@),
{
    let mut out: Vec<ResultRow> = Vec::new();
    let mut i: usize = 0;
    while i < rows.len()
        invariant
            i <= rows.len(),
            row_views(out@) == row_views(rows@).take(i as int),
        decreases rows.len() - i,
    {
        let row = rows[i].clone();
        push_row(&mut out, row);
        i += 1;
        assert(row_views(out@) =~= row_views(rows@).take(i as int));
    }
    assert(row_views(rows@).take(i as int) =~= row_views(rows@));
    out
}

pub fn push_row(rows: &mut Vec<ResultRow>, row: ResultRow)
    ensures
        row_views(final(rows)@) == row_views(old(rows)@).push(row@),
{
    rows.push(row);
    assert(row_views(rows@) =~= row_views(old(rows)@).push(row@));
}

// ------------------------------------------------------------------- ranks

/// The one-based rank of the first row with this path.
pub open spec fn rank_of(rows: Seq<RowView>, path: Seq<char>) -> Option<nat>
    decreases rows.len(),
{
    if rows.len() == 0 {
        None
    } else {
        match rank_of(rows.drop_last(), path) {
            Some(k) => Some(k),
            None => if rows.last().path == path {
                Some(rows.len())
            } else {
                None
            },
        }
    }
}

proof fn lemma_rank_of(rows: Seq<RowView>, path: Seq<char>)
    ensures
        match rank_of(rows, path) {
            Some(k) => 1 <= k <= rows.len() && rows[k - 1].path == path && forall|i: int|
                0 <= i < k - 1 ==> (#[trigger] rows[i]).path != path,
            None => forall|i: int| 0 <= i < rows.len() ==> (#[trigger] rows[i]).path != path,
        },
    decreases rows.len(),
{
    if rows.len() > 0 {
        lemma_rank_of(rows.drop_last(), path);
        let t = rows.drop_last();
        assert forall|i: int| 0 <= i < t.len() implies #[trigger] rows[i] == t[i] by {}
    }
}

/// Reciprocal rank fusion: `1 / (60 + rank)` from each ranking, in double
/// precision.
pub open spec fn fusion_score(filename: Option<nat>, semantic: Option<nat>) -> Approx {
    match (filename, semantic) {
        (Some(a), Some(b)) => plus(nearest(1, 60 + a), nearest(1, 60 + b)),
        (Some(a), None) => nearest(1, 60 + a),
        (None, Some(b)) => nearest(1, 60 + b),
        (None, None) => Approx { mantissa: 0, exponent: 0 },
    }
}

/// Absent ranks count as the largest.
pub open spec fn rank_key(rank: Option<nat>) -> int {
    match rank {
        Some(k) => k as int,
        None => usize::MAX as int,
    }
}

/// The row of a path that occurs in one of the rankings or in both. With
/// both, filename metadata and display fields are kept and the best semantic
/// context is added, so that the row explains the hit.
pub open spec fn fused_row(
    filename: Seq<RowView>,
    semantic: Seq<RowView>,
    path: Seq<char>,
) -> RowView {
    match (rank_of(filename, path), rank_of(semantic, path)) {
        (Some(a), Some(b)) => RowView {
            line_number: semantic[b - 1].line_number,
            line: semantic[b - 1].line,
            score: semantic[b - 1].score,
            ..filename[a - 1]
        },
        (Some(a), None) => filename[a - 1],
        (None, Some(b)) => semantic[b - 1],
        (None, None) => arbitrary(),
    }
}

/// Higher scores first; source ranks and then the path make ties
/// deterministic.
pub open spec fn fused_before(
    filename: Seq<RowView>,
    semantic: Seq<RowView>,
    p: Seq<char>,
    q: Seq<char>,
) -> bool {
    let (pf, ps) = (rank_of(filename, p), rank_of(semantic, p));
    let (qf, qs) = (rank_of(filename, q), rank_of(semantic, q));
    key_before(
        (fusion_score(pf, ps), rank_key(pf), rank_key(ps), p),
        (fusion_score(qf, qs), rank_key(qf), rank_key(qs), q),
    )
}

pub open spec fn key_before(
    a: (Approx, int, int, Seq<char>),
    b: (Approx, int, int, Seq<char>),
) -> bool {
    ||| exceeds(a.0, b.0)
    ||| a.0 == b.0 && a.1 < b.1
    ||| a.0 == b.0 && a.1 == b.1 && a.2 < b.2
    ||| a.0 == b.0 && a.1 == b.1 && a.2 == b.2 && text_lt(a.3, b.3)
}

pub open spec fn occurs(rows: Seq<RowView>, path: Seq<char>) -> bool {
    rank_of(rows, path) is Some
}

/// `r` is the fusion of the two rankings: one row for each path, in order.
pub open spec fn is_fusion(
    filename: Seq<RowView>,
    semantic: Seq<RowView>,
    r: Seq<RowView>,
) -> bool {
    &&& forall|i: int|
        0 <= i < r.len() ==> {
            let row = #[trigger] r[i];
            &&& occurs(filename, row.path) || occurs(semantic, row.path)
            &&& row == fused_row(filename, semantic, row.path)
        }
    &&& forall|i: int, j: int|
        0 <= i < j < r.len() ==> fused_before(
            filename,
            semantic,
            (#[trigger] r[i]).path,
            (#[trigger] r[j]).path,
        )
    &&& forall|p: Seq<char>|
        #![trigger occurs(filename, p)]
        #![trigger occurs(semantic, p)]
        occurs(filename, p) || occurs(semantic, p) ==> has_path(r, p)
}

pub open spec fn has_path(r: Seq<RowView>, p: Seq<char>) -> bool {
    exists|i: int| 0 <= i < r.len() && (#[trigger] r[i]).path == p
}

fn find_row(rows: &Vec<ResultRow>, path: &str) -> (r: Option<usize>)
    ensures
        match r {
            Some(i) => i < rows@.len() && rank_of(row_views(rows@), path@) == Some((i + 1) as nat),
            None => rank_of(row_views(rows@), path@) is None,
        },
{
    let mut i: usize = 0;
    let ghost v = row_views(rows@);
    proof {
        lemma_rank_of(v, path@);
    }
    while i < rows.len()
        invariant
            i <= rows.len(),
            v == row_views(rows@),
            forall|j: int| 0 <= j < i ==> (#[trigger] v[j]).path != path@,
            match rank_of(v, path@) {
                Some(k) => 1 <= k <= v.len() && v[k - 1].path == path@ && forall|i: int|
                    0 <= i < k - 1 ==> (#[trigger] v[i]).path != path@,
                None => forall|i: int| 0 <= i < v.len() ==> (#[trigger] v[i]).path != path@,
            },
        decreases rows.len() - i,
    {
        assert(v[i as int].path == rows@[i as int].path@);
        if same(&rows[i].path, path) {
            return Some(i);
        }
        i += 1;
    }
    None
}

/// A fused row with the key that it is sorted by.
struct Fused {
    score: Rounded,
    filename: usize,
    semantic: usize,
    row: ResultRow,
}

spec fn key_of(f: Fused) -> (Approx, int, int, Seq<char>) {
    (f.score@, f.filename as int, f.semantic as int, f.row.path@)
}

impl Ordered for Fused {
    closed spec fn before(&self, other: &Self) -> bool {
        key_before(key_of(*self), key_of(*other))
    }

    proof fn order_laws(a: &Self, b: &Self, c: &Self) {
        let (x, y, z) = (key_of(*a), key_of(*b), key_of(*c));
        lemma_text_order(x.3, y.3, z.3);
        assert(!exceeds(x.0, y.0) && !exceeds(y.0, x.0) ==> x.0 == y.0);
        assert(!exceeds(y.0, z.0) && !exceeds(z.0, y.0) ==> y.0 == z.0);
        assert(!exceeds(x.0, z.0) && !exceeds(z.0, x.0) ==> x.0 == z.0);
    }

    fn comes_before(&self, other: &Self) -> (r: bool) {
        if is_greater(&self.score, &other.score) {
            return true;
        }
        if !is_same(&self.score, &other.score) {
            return false;
        }
        if self.filename != other.filename {
            return self.filename < other.filename;
        }
        if self.semantic != other.semantic {
            return self.semantic < other.semantic;
        }
        text_less(&self.row.path, &other.row.path)
    }
}

/// The fused row of a path with its key.
spec fn is_fused(filename: Seq<RowView>, semantic: Seq<RowView>, f: Fused) -> bool {
    let p = f.row.path@;
    &&& occurs(filename, p) || occurs(semantic, p)
    &&& f.row@ == fused_row(filename, semantic, p)
    &&& f.score@ == fusion_score(rank_of(filename, p), rank_of(semantic, p))
    &&& f.filename == rank_key(rank_of(filename, p))
    &&& f.semantic == rank_key(rank_of(semantic, p))
}

fn fuse(filename: &Vec<ResultRow>, semantic: &Vec<ResultRow>, path: &str) -> (r: Fused)
    requires
        occurs(row_views(filename@), path@) || occurs(row_views(semantic@), path@),
    ensures
        r.row.path@ == path@,
        is_fused(row_views(filename@), row_views(semantic@), r),
{
    let ghost (f, s) = (row_views(filename@), row_views(semantic@));
    proof {
        lemma_rank_of(f, path@);
        lemma_rank_of(s, path@);
        assert(filename@.len() == filename.len());
        assert(semantic@.len() == semantic.len());
    }
    match (find_row(filename, path), find_row(semantic, path)) {
        (Some(a), Some(b)) => {
            let x = reciprocal(60 + (a as u128) + 1);
            let y = reciprocal(60 + (b as u128) + 1);
            let mut row = filename[a].clone();
            row.line_number = semantic[b].line_number;
            row.line = copy_text(&semantic[b].line);
            row.score = semantic[b].score;
            assert(f[a as int] == filename@[a as int]@);
            assert(s[b as int] == semantic@[b as int]@);
            Fused { score: sum(&x, &y), filename: a + 1, semantic: b + 1, row }
        },
        (Some(a), None) => {
            assert(f[a as int] == filename@[a as int]@);
            Fused {
                score: reciprocal(60 + (a as u128) + 1),
                filename: a + 1,
                semantic: usize::MAX,
                row: filename[a].clone(),
            }
        },
        (None, Some(b)) => {
            assert(s[b as int] == semantic@[b as int]@);
            Fused {
                score: reciprocal(60 + (b as u128) + 1),
                filename: usize::MAX,
                semantic: b + 1,
                row: semantic[b].clone(),
            }
        },
        (None, None) => {
            assert(false);
            Fused {
                score: Rounded { mantissa: 0, exponent: 0 },
                filename: usize::MAX,
                semantic: usize::MAX,
                row: ResultRow {
                    path: String::new(),
                    line_number: None,
                    line: None,
                    recent_open: false,
                    meta: None,
                    score: None,
                },
            }
        },
    }
}

spec fn fused_has(v: Seq<Fused>, p: Seq<char>) -> bool {
    exists|i: int| 0 <= i < v.len() && (#[trigger] v[i]).row.path@ == p
}

/// What has been fused so far: one row per path of those seen.
spec fn fused_so_far(
    filename: Seq<RowView>,
    semantic: Seq<RowView>,
    v: Seq<Fused>,
    a: int,
    b: int,
) -> bool {
    &&& forall|i: int| 0 <= i < v.len() ==> is_fused(filename, semantic, #[trigger] v[i])
    &&& forall|i: int, j: int|
        0 <= i < j < v.len() ==> (#[trigger] v[i]).row.path@ != (#[trigger] v[j]).row.path@
    &&& forall|i: int| 0 <= i < a ==> fused_has(v, (#[trigger] filename[i]).path)
    &&& forall|i: int| 0 <= i < b ==> fused_has(v, (#[trigger] semantic[i]).path)
    &&& forall|i: int|
        0 <= i < v.len() ==> {
            let p = (#[trigger] v[i]).row.path@;
            seen_in(filename, a, p) || seen_in(semantic, b, p)
        }
}

/// One of the first `n` rows has this path.
spec fn seen_in(rows: Seq<RowView>, n: int, p: Seq<char>) -> bool {
    exists|k: int| 0 <= k < n && (#[trigger] rows[k]).path == p
}

proof fn lemma_fused_push(
    filename: Seq<RowView>,
    semantic: Seq<RowView>,
    v: Seq<Fused>,
    a: int,
    b: int,
    f: Fused,
    a1: int,
    b1: int,
)
    requires
        fused_so_far(filename, semantic, v, a, b),
        0 <= a <= filename.len(),
        0 <= b <= semantic.len(),
        is_fused(filename, semantic, f),
        !fused_has(v, f.row.path@),
        (a1 == a + 1 && b1 == b && a < filename.len() && filename[a].path == f.row.path@) || (a1
            == a && b1 == b + 1 && b < semantic.len() && semantic[b].path == f.row.path@),
    ensures
        fused_so_far(filename, semantic, v.push(f), a1, b1),
{
    let w = v.push(f);
    assert forall|i: int, j: int| 0 <= i < j < w.len() implies (#[trigger] w[i]).row.path@ != (
    #[trigger] w[j]).row.path@ by {
        if j == v.len() {
            assert(w[i] == v[i]);
        } else {
            assert(w[i] == v[i] && w[j] == v[j]);
        }
    }
    assert(w[v.len() as int] == f);
    assert forall|i: int| 0 <= i < a1 implies fused_has(w, (#[trigger] filename[i]).path) by {
        if i < a {
            let k = choose|k: int| 0 <= k < v.len() && (#[trigger] v[k]).row.path@ == filename[i].path;
            assert(w[k] == v[k]);
        }
    }
    assert forall|i: int| 0 <= i < b1 implies fused_has(w, (#[trigger] semantic[i]).path) by {
        if i < b {
            let k = choose|k: int| 0 <= k < v.len() && (#[trigger] v[k]).row.path@ == semantic[i].path;
            assert(w[k] == v[k]);
        }
    }
    assert forall|i: int| 0 <= i < w.len() implies {
        let p = (#[trigger] w[i]).row.path@;
        seen_in(filename, a1, p) || seen_in(semantic, b1, p)
    } by {
        if i == v.len() {
            if a1 == a + 1 {
                assert(filename[a].path == w[i].row.path@);
            } else {
                assert(semantic[b].path == w[i].row.path@);
            }
        } else {
            let p = v[i].row.path@;
            assert(w[i] == v[i]);
            if seen_in(filename, a, p) {
                let k = choose|k: int| 0 <= k < a && (#[trigger] filename[k]).path == p;
                assert(filename[k].path == p);
            } else {
                let k = choose|k: int| 0 <= k < b && (#[trigger] semantic[k]).path == p;
                assert(semantic[k].path == p);
            }
        }
    }
}

/// Merges filename and semantic rankings with reciprocal rank fusion. Ranks
/// are one-based.
pub fn merge_unified_results(filename: &Vec<ResultRow>, semantic: &Vec<ResultRow>) -> (r: Vec<
    ResultRow,
>)
    ensures
        is_fusion(row_views(filename@), row_views(semantic@), row_views(r@)),
{
    let ghost (f, s) = (row_views(filename@), row_views(semantic@));
    let mut rows: Vec<Fused> = Vec::new();
    let mut i: usize = 0;
    while i < filename.len()
        invariant
            i <= filename.len(),
            f == row_views(filename@),
            s == row_views(semantic@),
            fused_so_far(f, s, rows@, i as int, 0),
        decreases filename.len() - i,
    {
        let path = &filename[i].path;
        assert(f[i as int].path == path@);
        let first: bool = match find_row(filename, path) {
            Some(k) => k == i,
            None => false,
        };
        proof {
            lemma_rank_of(f, path@);
        }
        if first {
            let fused = fuse(filename, semantic, path);
            proof {
                if fused_has(rows@, path@) {
                    let k = choose|k: int|
                        0 <= k < rows@.len() && (#[trigger] rows@[k]).row.path@ == path@;
                    assert(rows@[k].row.path@ == path@);
                }
                lemma_fused_push(f, s, rows@, i as int, 0, fused, i + 1, 0);
            }
            rows.push(fused);
        } else {
            proof {
                let k = rank_of(f, path@)->0;
                assert(f[k - 1].path == path@);
                assert(fused_has(rows@, f[k - 1].path));
            }
        }
        i += 1;
    }
    let mut j: usize = 0;
    while j < semantic.len()
        invariant
            j <= semantic.len(),
            f == row_views(filename@),
            s == row_views(semantic@),
            fused_so_far(f, s, rows@, f.len() as int, j as int),
        decreases semantic.len() - j,
    {
        let path = &semantic[j].path;
        assert(s[j as int].path == path@);
        let first: bool = match find_row(semantic, path) {
            Some(k) => k == j,
            None => false,
        };
        let in_filename = find_row(filename, path).is_some();
        proof {
            lemma_rank_of(f, path@);
            lemma_rank_of(s, path@);
        }
        if first && !in_filename {
            let fused = fuse(filename, semantic, path);
            proof {
                if fused_has(rows@, path@) {
                    let k = choose|k: int|
                        0 <= k < rows@.len() && (#[trigger] rows@[k]).row.path@ == path@;
                    assert(rows@[k].row.path@ == path@);
                }
                lemma_fused_push(f, s, rows@, f.len() as int, j as int, fused, f.len() as int, j + 1);
            }
            rows.push(fused);
        } else {
            proof {
                if in_filename {
                    let k = rank_of(f, path@)->0;
                    assert(fused_has(rows@, f[k - 1].path));
                } else {
                    let k = rank_of(s, path@)->0;
                    assert(fused_has(rows@, s[k - 1].path));
                }
            }
        }
        j += 1;
    }
    let ghost made = rows@;
    let mut sorted = sort(rows);
    let ghost all = sorted@;
    proof {
        lemma_same_members(all, made);
        lemma_same_members(made, all);
        lemma_fused_distinct(made, all);
    }
    let mut back: Vec<ResultRow> = Vec::new();
    assert(all.take(all.len() as int) =~= all);
    while sorted.len() > 0
        invariant
            sorted@ == all.take(sorted@.len() as int),
            sorted@.len() + back@.len() == all.len(),
            forall|k: int|
                0 <= k < back@.len() ==> #[trigger] back@[k] == all[all.len() - 1 - k].row,
        decreases sorted@.len(),
    {
        match sorted.pop() {
            Some(x) => {
                back.push(x.row);
            },
            None => {},
        }
    }
    let mut out: Vec<ResultRow> = Vec::new();
    while back.len() > 0
        invariant
            back@.len() + out@.len() == all.len(),
            forall|k: int|
                0 <= k < back@.len() ==> #[trigger] back@[k] == all[all.len() - 1 - k].row,
            forall|k: int| 0 <= k < out@.len() ==> #[trigger] out@[k] == all[k].row,
        decreases back@.len(),
    {
        match back.pop() {
            Some(x) => {
                out.push(x);
            },
            None => {},
        }
    }
    proof {
        lemma_is_fusion(f, s, made, all, out@);
    }
    out
}

proof fn lemma_fused_distinct(made: Seq<Fused>, all: Seq<Fused>)
    requires
        forall|i: int, j: int|
            0 <= i < j < made.len() ==> (#[trigger] made[i]).row.path@ != (
            #[trigger] made[j]).row.path@,
        made.no_duplicates() ==> all.no_duplicates(),
        forall|x: Fused| #[trigger] all.contains(x) <==> made.contains(x),
    ensures
        forall|i: int, j: int|
            0 <= i < j < all.len() ==> (#[trigger] all[i]).row.path@ != (
            #[trigger] all[j]).row.path@,
{
    assert(made.no_duplicates()) by {
        assert forall|i: int, j: int|
            0 <= i < made.len() && 0 <= j < made.len() && i != j implies made[i] != made[j] by {
            if i < j {
                assert(made[i].row.path@ != made[j].row.path@);
            } else {
                assert(made[j].row.path@ != made[i].row.path@);
            }
        }
    }
    assert forall|i: int, j: int| 0 <= i < j < all.len() implies (#[trigger] all[i]).row.path@ != (
    #[trigger] all[j]).row.path@ by {
        assert(all[i] != all[j]);
        assert(all.contains(all[i]) && all.contains(all[j]));
        let a = choose|a: int| 0 <= a < made.len() && made[a] == all[i];
        let b = choose|b: int| 0 <= b < made.len() && made[b] == all[j];
        if a < b {
            assert(made[a].row.path@ != made[b].row.path@);
        } else {
            assert(made[b].row.path@ != made[a].row.path@);
        }
    }
}

proof fn lemma_is_fusion(
    f: Seq<RowView>,
    s: Seq<RowView>,
    made: Seq<Fused>,
    all: Seq<Fused>,
    out: Seq<ResultRow>,
)
    requires
        fused_so_far(f, s, made, f.len() as int, s.len() as int),
        is_sorted(all),
        forall|x: Fused| #[trigger] all.contains(x) <==> made.contains(x),
        forall|i: int, j: int|
            0 <= i < j < all.len() ==> (#[trigger] all[i]).row.path@ != (
            #[trigger] all[j]).row.path@,
        out.len() == all.len(),
        forall|k: int| 0 <= k < out.len() ==> #[trigger] out[k] == all[k].row,
    ensures
        is_fusion(f, s, row_views(out)),
{
    let r = row_views(out);
    assert forall|i: int| 0 <= i < all.len() implies is_fused(f, s, #[trigger] all[i]) by {
        assert(all.contains(all[i]));
        let a = choose|a: int| 0 <= a < made.len() && made[a] == all[i];
        assert(is_fused(f, s, made[a]));
    }
    assert forall|i: int| 0 <= i < r.len() implies {
        let row = #[trigger] r[i];
        &&& occurs(f, row.path) || occurs(s, row.path)
        &&& row == fused_row(f, s, row.path)
    } by {
        assert(r[i] == out[i]@);
        assert(is_fused(f, s, all[i]));
    }
    assert forall|i: int, j: int| 0 <= i < j < r.len() implies fused_before(
        f,
        s,
        (#[trigger] r[i]).path,
        (#[trigger] r[j]).path,
    ) by {
        assert(r[i] == out[i]@ && r[j] == out[j]@);
        assert(is_fused(f, s, all[i]) && is_fused(f, s, all[j]));
        assert(!all[j].before(&all[i]));
        let (x, y) = (key_of(all[i]), key_of(all[j]));
        assert(x.3 != y.3);
        lemma_text_lt_total(x.3, y.3);
        assert(!exceeds(x.0, y.0) && !exceeds(y.0, x.0) ==> x.0 == y.0);
    }
    assert forall|p: Seq<char>|
        #![trigger occurs(f, p)]
        #![trigger occurs(s, p)]
        occurs(f, p) || occurs(s, p) implies has_path(r, p) by {
        lemma_rank_of(f, p);
        lemma_rank_of(s, p);
        assert(fused_has(made, p)) by {
            if occurs(f, p) {
                let k = rank_of(f, p)->0;
                assert(fused_has(made, f[k - 1].path));
            } else {
                let k = rank_of(s, p)->0;
                assert(fused_has(made, s[k - 1].path));
            }
        }
        let m = choose|m: int| 0 <= m < made.len() && (#[trigger] made[m]).row.path@ == p;
        assert(made.contains(made[m]));
        assert(all.contains(made[m]));
        let i = choose|i: int| 0 <= i < all.len() && all[i] == made[m];
        assert(out[i] == all[i].row);
        assert(r[i].path == p);
    }
}
// ---------------------------------------------------------------------- laws

proof fn lemma_key_asymmetric(
    a: (Approx, int, int, Seq<char>),
    b: (Approx, int, int, Seq<char>),
)
    ensures
        !(key_before(a, b) && key_before(b, a)),
{
    lemma_text_lt_irreflexive(a.3);
    if text_lt(a.3, b.3) && text_lt(b.3, a.3) {
        lemma_text_lt_transitive(a.3, b.3, a.3);
    }
}

proof fn lemma_fused_asymmetric(
    filename: Seq<RowView>,
    semantic: Seq<RowView>,
    p: Seq<char>,
    q: Seq<char>,
)
    ensures
        !(fused_before(filename, semantic, p, q) && fused_before(filename, semantic, q, p)),
{
    let (pf, ps) = (rank_of(filename, p), rank_of(semantic, p));
    let (qf, qs) = (rank_of(filename, q), rank_of(semantic, q));
    lemma_key_asymmetric(
        (fusion_score(pf, ps), rank_key(pf), rank_key(ps), p),
        (fusion_score(qf, qs), rank_key(qf), rank_key(qs), q),
    );
}

/// The index of a path among the rows from `k` on, where two fusions agree
/// before `k`.
proof fn lemma_later(
    filename: Seq<RowView>,
    semantic: Seq<RowView>,
    a: Seq<RowView>,
    b: Seq<RowView>,
    k: int,
) -> (j: int)
    requires
        is_fusion(filename, semantic, a),
        is_fusion(filename, semantic, b),
        0 <= k < a.len(),
        k <= b.len(),
        forall|i: int| 0 <= i < k ==> a[i] == b[i],
    ensures
        k <= j < b.len(),
        b[j].path == a[k].path,
{
    let p = a[k].path;
    assert(occurs(filename, p) || occurs(semantic, p));
    assert(has_path(b, p));
    let j = choose|j: int| 0 <= j < b.len() && (#[trigger] b[j]).path == p;
    if j < k {
        assert(a[j].path == p);
        assert(fused_before(filename, semantic, a[j].path, a[k].path));
        lemma_fused_asymmetric(filename, semantic, p, p);
    }
    j
}

proof fn lemma_fusions_agree(
    filename: Seq<RowView>,
    semantic: Seq<RowView>,
    a: Seq<RowView>,
    b: Seq<RowView>,
    k: int,
)
    requires
        is_fusion(filename, semantic, a),
        is_fusion(filename, semantic, b),
        0 <= k <= a.len(),
    ensures
        k <= b.len(),
        forall|i: int| 0 <= i < k ==> a[i] == b[i],
    decreases k,
{
    if k > 0 {
        let n = k - 1;
        lemma_fusions_agree(filename, semantic, a, b, n);
        let j = lemma_later(filename, semantic, a, b, n);
        let i = lemma_later(filename, semantic, b, a, n);
        if j > n {
            assert(fused_before(filename, semantic, b[n].path, b[j].path));
            if i > n {
                assert(fused_before(filename, semantic, a[n].path, a[i].path));
            }
            lemma_fused_asymmetric(filename, semantic, a[n].path, b[n].path);
        }
        assert(a[n].path == b[n].path);
        assert(a[n] == fused_row(filename, semantic, a[n].path));
        assert(b[n] == fused_row(filename, semantic, b[n].path));
    }
}

/// The merged ranking is determined by the two rankings: ties leave no choice.
pub proof fn fusions_are_deterministic(
    filename: Seq<RowView>,
    semantic: Seq<RowView>,
    a: Seq<RowView>,
    b: Seq<RowView>,
)
    requires
        is_fusion(filename, semantic, a),
        is_fusion(filename, semantic, b),
    ensures
        a == b,
{
    lemma_fusions_agree(filename, semantic, a, b, a.len() as int);
    lemma_fusions_agree(filename, semantic, b, a, b.len() as int);
    assert(a =~= b);
}

/// The merged ranking loses nothing and repeats nothing: every file of either
/// ranking has exactly one row.
pub proof fn fusions_hold_every_file_once(
    filename: Seq<RowView>,
    semantic: Seq<RowView>,
    r: Seq<RowView>,
)
    requires
        is_fusion(filename, semantic, r),
    ensures
        forall|i: int| 0 <= i < filename.len() ==> has_path(r, (#[trigger] filename[i]).path),
        forall|i: int| 0 <= i < semantic.len() ==> has_path(r, (#[trigger] semantic[i]).path),
        forall|i: int, j: int|
            0 <= i < j < r.len() ==> (#[trigger] r[i]).path != (#[trigger] r[j]).path,
{
    assert forall|i: int| 0 <= i < filename.len() implies has_path(
        r,
        (#[trigger] filename[i]).path,
    ) by {
        lemma_rank_of(filename, filename[i].path);
        assert(occurs(filename, filename[i].path));
    }
    assert forall|i: int| 0 <= i < semantic.len() implies has_path(
        r,
        (#[trigger] semantic[i]).path,
    ) by {
        lemma_rank_of(semantic, semantic[i].path);
        assert(occurs(semantic, semantic[i].path));
    }
    assert forall|i: int, j: int| 0 <= i < j < r.len() implies (#[trigger] r[i]).path
        != (#[trigger] r[j]).path by {
        lemma_fused_asymmetric(filename, semantic, r[i].path, r[j].path);
    }
}

/// The one-based place of the first row with a path, where there is one.
pub open spec fn is_place(rows: Seq<RowView>, path: Seq<char>, place: Option<nat>) -> bool {
    match place {
        Some(k) => 1 <= k <= rows.len() && rows[k - 1].path == path && forall|i: int|
            0 <= i < k - 1 ==> (#[trigger] rows[i]).path != path,
        None => forall|i: int| 0 <= i < rows.len() ==> (#[trigger] rows[i]).path != path,
    }
}

proof fn lemma_place(rows: Seq<RowView>, path: Seq<char>, place: Option<nat>)
    requires
        is_place(rows, path, place),
    ensures
        rank_of(rows, path) == place,
{
    lemma_rank_of(rows, path);
    let rank = rank_of(rows, path);
    if let Some(k) = rank {
        assert(rows[k - 1].path == path);
        if let Some(m) = place {
            assert(rows[m - 1].path == path);
        }
    } else if let Some(m) = place {
        assert(rows[m - 1].path == path);
    }
}

/// A place that is no worse than another; to be missing is worst.
pub open spec fn no_worse(a: Option<nat>, b: Option<nat>) -> bool {
    match (a, b) {
        (Some(x), Some(y)) => x <= y,
        (Some(_), None) => true,
        (None, Some(_)) => false,
        (None, None) => true,
    }
}

proof fn lemma_reciprocals(a: nat, b: nat)
    requires
        0 < a <= b,
    ensures
        is_normal(nearest(1, a)),
        is_normal(nearest(1, b)),
        !exceeds(nearest(1, b), nearest(1, a)),
{
    lemma_nearest_normal(1, a);
    lemma_nearest_normal(1, b);
    assert(1nat / a < MANTISSA_MIN) by (nonlinear_arith)
        requires
            a > 0,
            MANTISSA_MIN > 1,
    ;
    lemma_nearest_falls(1, a, b);
}

/// The order of two rows of a fusion.
proof fn lemma_fusion_order(
    filename: Seq<RowView>,
    semantic: Seq<RowView>,
    r: Seq<RowView>,
    i: int,
    j: int,
)
    requires
        is_fusion(filename, semantic, r),
        0 <= i < r.len(),
        0 <= j < r.len(),
        fused_before(filename, semantic, r[i].path, r[j].path),
    ensures
        i < j,
{
    lemma_fused_asymmetric(filename, semantic, r[i].path, r[j].path);
    if j < i {
        assert(fused_before(filename, semantic, r[j].path, r[i].path));
    }
}

/// What ranks better comes first: a file that stands no worse than another in
/// both rankings, and better in one, comes before it.
pub proof fn better_ranks_come_first(
    filename: Seq<RowView>,
    semantic: Seq<RowView>,
    r: Seq<RowView>,
    i: int,
    j: int,
    p: (Option<nat>, Option<nat>),
    q: (Option<nat>, Option<nat>),
)
    requires
        is_fusion(filename, semantic, r),
        filename.len() < usize::MAX,
        semantic.len() < usize::MAX,
        0 <= i < r.len(),
        0 <= j < r.len(),
        is_place(filename, r[i].path, p.0),
        is_place(semantic, r[i].path, p.1),
        is_place(filename, r[j].path, q.0),
        is_place(semantic, r[j].path, q.1),
        no_worse(p.0, q.0),
        no_worse(p.1, q.1),
        p != q,
    ensures
        i < j,
{
    let (a, b) = (r[i].path, r[j].path);
    lemma_place(filename, a, p.0);
    lemma_place(semantic, a, p.1);
    lemma_place(filename, b, q.0);
    lemma_place(semantic, b, q.1);
    assert(occurs(filename, a) || occurs(semantic, a));
    assert(occurs(filename, b) || occurs(semantic, b));
    let (x, y) = (fusion_score(p.0, p.1), fusion_score(q.0, q.1));
    if p.0 is Some && q.0 is Some {
        lemma_reciprocals(60 + p.0->0, 60 + q.0->0);
    }
    if p.1 is Some && q.1 is Some {
        lemma_reciprocals(60 + p.1->0, 60 + q.1->0);
    }
    if p.0 is Some && p.1 is Some {
        let (f, s) = (nearest(1, 60 + p.0->0), nearest(1, 60 + p.1->0));
        lemma_reciprocals(60 + p.0->0, 60 + p.0->0);
        lemma_reciprocals(60 + p.1->0, 60 + p.1->0);
        lemma_plus_at_least(f, s);
        lemma_plus_at_least(s, f);
        if q.0 is Some && q.1 is Some {
            lemma_plus_grows(nearest(1, 60 + q.0->0), nearest(1, 60 + q.1->0), f, s);
        }
    }
    assert(!exceeds(y, x));
    assert(fused_before(filename, semantic, a, b));
    lemma_fusion_order(filename, semantic, r, i, j);
}

/// The sum of `1 / (60 + place)` over the rankings that have the file, as an exact
/// fraction.
pub open spec fn reciprocal_ranks(place: (Option<nat>, Option<nat>)) -> (nat, nat) {
    match place {
        (Some(a), Some(b)) => (120 + a + b, (60 + a) * (60 + b)),
        (Some(a), None) => (1, 60 + a),
        (None, Some(b)) => (1, 60 + b),
        (None, None) => (0, 1),
    }
}

/// The exponent of the smallest part of a score.
spec fn least_exponent(place: (Option<nat>, Option<nat>)) -> int {
    match place {
        (Some(a), Some(b)) => if nearest(1, 60 + a).exponent < nearest(1, 60 + b).exponent {
            nearest(1, 60 + a).exponent
        } else {
            nearest(1, 60 + b).exponent
        },
        (Some(a), None) => nearest(1, 60 + a).exponent,
        (None, Some(b)) => nearest(1, 60 + b).exponent,
        (None, None) => 0,
    }
}

proof fn lemma_score_is_close(place: (Option<nat>, Option<nat>), low: int)
    requires
        place.0 is Some || place.1 is Some,
        low <= least_exponent(place),
    ensures
        ({
            let score = fusion_score(place.0, place.1);
            let (num, den) = reciprocal_ranks(place);
            &&& is_normal(score)
            &&& low <= score.exponent
            &&& low <= 0
            &&& num > 0
            &&& den > 0
            &&& is_close(units(score, low), num, den, pow2((-low) as nat))
        }),
{
    match place {
        (Some(a), Some(b)) => {
            lemma_reciprocals(60 + a, 60 + a);
            lemma_reciprocals(60 + b, 60 + b);
            lemma_plus_in_units(nearest(1, 60 + a), nearest(1, 60 + b), low);
            lemma_reciprocals_are_close(60 + a, 60 + b, low);
            assert((60 + a) * (60 + b) > 0) by (nonlinear_arith)
                requires
                    a >= 0,
                    b >= 0,
            ;
        },
        (Some(a), None) => {
            lemma_reciprocals(60 + a, 60 + a);
            lemma_reciprocal_is_close(60 + a, low);
        },
        (None, Some(b)) => {
            lemma_reciprocals(60 + b, 60 + b);
            lemma_reciprocal_is_close(60 + b, low);
        },
        (None, None) => {},
    }
}

/// Reciprocal rank fusion: of two files the one with the larger sum of
/// `1 / (60 + place)` comes first, where the sums differ by at least one part in
/// 2^50, which is more than rounding can hide.
pub proof fn fusions_follow_reciprocal_ranks(
    filename: Seq<RowView>,
    semantic: Seq<RowView>,
    r: Seq<RowView>,
    i: int,
    j: int,
    p: (Option<nat>, Option<nat>),
    q: (Option<nat>, Option<nat>),
)
    requires
        is_fusion(filename, semantic, r),
        0 <= i < r.len(),
        0 <= j < r.len(),
        is_place(filename, r[i].path, p.0),
        is_place(semantic, r[i].path, p.1),
        is_place(filename, r[j].path, q.0),
        is_place(semantic, r[j].path, q.1),
        ({
            let (x, y) = (reciprocal_ranks(p), reciprocal_ranks(q));
            0x4_0000_0000_0000 * (y.0 * x.1) <= 0x3_ffff_ffff_ffff * (x.0 * y.1)
        }),
    ensures
        i < j,
{
    let (a, b) = (r[i].path, r[j].path);
    lemma_place(filename, a, p.0);
    lemma_place(semantic, a, p.1);
    lemma_place(filename, b, q.0);
    lemma_place(semantic, b, q.1);
    assert(occurs(filename, a) || occurs(semantic, a));
    assert(occurs(filename, b) || occurs(semantic, b));
    let low = if least_exponent(p) < least_exponent(q) {
        least_exponent(p)
    } else {
        least_exponent(q)
    };
    lemma_score_is_close(p, low);
    lemma_score_is_close(q, low);
    let (x, y) = (fusion_score(p.0, p.1), fusion_score(q.0, q.1));
    let (m, n) = (reciprocal_ranks(p), reciprocal_ranks(q));
    lemma_pow2_pos((-low) as nat);
    lemma_close_in_order(
        units(x, low),
        m.0,
        m.1,
        units(y, low),
        n.0,
        n.1,
        pow2((-low) as nat),
    );
    lemma_units_in_order(x, y, low);
    assert(fused_before(filename, semantic, a, b));
    lemma_fusion_order(filename, semantic, r, i, j);
}

/// A file in both rankings keeps what its filename row says of it and shows the
/// line and the score of its semantic row. A file in one of them keeps its row.
pub proof fn fused_rows_show_both_rankings(
    filename: Seq<RowView>,
    semantic: Seq<RowView>,
    r: Seq<RowView>,
    i: int,
    p: (Option<nat>, Option<nat>),
)
    requires
        is_fusion(filename, semantic, r),
        0 <= i < r.len(),
        is_place(filename, r[i].path, p.0),
        is_place(semantic, r[i].path, p.1),
    ensures
        match p {
            (Some(a), Some(b)) => {
                let (f, s) = (filename[a - 1], semantic[b - 1]);
                &&& r[i].meta == f.meta
                &&& r[i].recent_open == f.recent_open
                &&& r[i].line_number == s.line_number
                &&& r[i].line == s.line
                &&& r[i].score == s.score
            },
            (Some(a), None) => r[i] == filename[a - 1],
            (None, Some(b)) => r[i] == semantic[b - 1],
            (None, None) => false,
        },
{
    lemma_place(filename, r[i].path, p.0);
    lemma_place(semantic, r[i].path, p.1);
    assert(r[i] == fused_row(filename, semantic, r[i].path));
}

} // verus!
