//! How the result list is laid out: badges, names, parents, ages and matches.

use crate::display::{age_text, human_age, human_size, size_text};
use crate::engine::Mode;
use crate::filters::{is_dir, is_dir_path, kind_for_ext, kind_lists, kind_table};
use crate::fusion::{text_option, ResultRow, RowView};
use crate::paths::{extension, extension_of};
use crate::text::{
    chars_of, decimal_string, digits_of, joined, same, starts_with, string_of, string_of_range,
    sub_chars,
};
use crate::theme::Color;
use crate::walker::FileMeta;
use vstd::prelude::*;
use vstd::string::*;

verus! {

/// Row layout for the results list.
#[derive(Debug, Clone, Copy, PartialEq, Eq, Structural)]
pub enum Density {
    /// two-line rows
    Comfy,
    /// single-line rows
    Compact,
}

impl Default for Density {
    fn default() -> (r: Density)
        ensures
            r == Density::Comfy,
    {
        Density::Comfy
    }
}

impl Density {
    pub open spec fn toggled(self) -> Density {
        match self {
            Density::Comfy => Density::Compact,
            Density::Compact => Density::Comfy,
        }
    }

    pub fn toggle(self) -> (r: Density)
        ensures
            r == self.toggled(),
    {
        match self {
            Density::Comfy => Density::Compact,
            Density::Compact => Density::Comfy,
        }
    }
}

/// What a piece of a row is, which decides how it is painted.
#[derive(Debug, Clone, Copy, PartialEq, Eq, Structural)]
pub enum Role {
    Raw,
    /// black on the color, bold
    Badge(Color),
    /// bold
    Name,
    /// accent, bold
    Match,
    Dim,
    /// accent, dimmed
    ParentMatch,
}

/// A piece of a row.
#[derive(Debug, PartialEq)]
pub struct Piece {
    pub text: String,
    pub role: Role,
}

/// The model of a [`Piece`].
pub type PieceView = (Seq<char>, Role);

impl View for Piece {
    type V = PieceView;

    open spec fn view(&self) -> PieceView {
        (self.text@, self.role)
    }
}

/// The model of a line of pieces.
pub open spec fn piece_views(pieces: Seq<Piece>) -> Seq<PieceView> {
    pieces.map_values(|p: Piece| p@)
}

/// The model of the lines of a row.
pub open spec fn row_line_views(all: Seq<Vec<Piece>>) -> Seq<Seq<PieceView>> {
    all.map_values(|l: Vec<Piece>| piece_views(l@))
}

fn push_piece(out: &mut Vec<Piece>, text: String, role: Role)
    ensures
        piece_views(final(out)@) == piece_views(old(out)@).push((text@, role)),
{
    out.push(Piece { text, role });
    assert(piece_views(out@) =~= piece_views(old(out)@).push((text@, role)));
}

fn push_pieces(out: &mut Vec<Piece>, more: Vec<Piece>)
    ensures
        piece_views(final(out)@) == piece_views(old(out)@) + piece_views(more@),
{
    let ghost added = more@;
    let mut more = more;
    out.append(&mut more);
    assert(piece_views(out@) =~= piece_views(old(out)@) + piece_views(added));
}

// -------------------------------------------------------------------- badges

/// A text in upper case.
pub uninterp spec fn upper_text(s: Seq<char>) -> Seq<char>;

/// `str::to_uppercase`: a function of the text.
#[verifier::external_body]
fn to_upper(s: &str) -> (r: String)
    ensures
        r@ == upper_text(s@),
{
    s.to_uppercase()
}

/// The first kind from `k` on that lists an extension, or -1.
pub open spec fn first_kind(ext: Seq<char>, k: int) -> int
    decreases kind_table().len() - k,
{
    if k >= kind_table().len() {
        -1
    } else if kind_lists(k, ext) {
        k
    } else {
        first_kind(ext, k + 1)
    }
}

/// The name of the kind of an extension.
pub open spec fn ext_kind(ext: Seq<char>) -> Option<Seq<char>> {
    let k = first_kind(ext, 0);
    if k < 0 {
        None
    } else {
        Some(kind_table()[k].0)
    }
}

proof fn lemma_first_kind(ext: Seq<char>, k: int, found: int)
    requires
        0 <= k <= found <= kind_table().len(),
        forall|m: int| 0 <= m < found ==> !#[trigger] kind_lists(m, ext),
        found < kind_table().len() ==> kind_lists(found, ext),
    ensures
        first_kind(ext, k) == (if found < kind_table().len() {
            found
        } else {
            -1
        }),
    decreases found - k,
{
    if k < found {
        lemma_first_kind(ext, k + 1, found);
    }
}

/// The color of a kind.
pub open spec fn kind_color(kind: Option<Seq<char>>) -> Color {
    match kind {
        Some(k) => if k == "image"@ {
            Color::Cyan
        } else if k == "video"@ || k == "audio"@ {
            Color::Magenta
        } else if k == "doc"@ {
            Color::Yellow
        } else if k == "code"@ {
            Color::Green
        } else if k == "archive"@ {
            Color::Red
        } else {
            Color::DarkGray
        },
        None => Color::DarkGray,
    }
}

/// The first four characters.
pub open spec fn first_four(s: Seq<char>) -> Seq<char> {
    if s.len() < 4 {
        s
    } else {
        s.take(4)
    }
}

/// The label and color of the little kind badge in front of a row.
pub open spec fn badge(path: Seq<char>) -> (Seq<char>, Color) {
    if is_dir_path(path) {
        ("DIR"@, Color::Blue)
    } else {
        match extension(path) {
            Some(ext) => if ext.len() == 0 {
                ("FILE"@, Color::DarkGray)
            } else {
                (upper_text(first_four(ext)), kind_color(ext_kind(ext)))
            },
            None => ("FILE"@, Color::DarkGray),
        }
    }
}

fn color_of_kind(ext: &str) -> (r: Color)
    ensures
        r == kind_color(ext_kind(ext@)),
{
    match kind_for_ext(ext) {
        Some(name) => {
            proof {
                let k = choose|k: int|
                    {
                        &&& 0 <= k < kind_table().len()
                        &&& #[trigger] kind_lists(k, ext@)
                        &&& name@ == kind_table()[k].0
                        &&& forall|m: int| 0 <= m < k ==> !#[trigger] kind_lists(m, ext@)
                    };
                lemma_first_kind(ext@, 0, k);
            }
            if same(name, "image") {
                Color::Cyan
            } else if same(name, "video") || same(name, "audio") {
                Color::Magenta
            } else if same(name, "doc") {
                Color::Yellow
            } else if same(name, "code") {
                Color::Green
            } else if same(name, "archive") {
                Color::Red
            } else {
                Color::DarkGray
            }
        },
        None => {
            proof {
                lemma_first_kind(ext@, 0, kind_table().len() as int);
            }
            Color::DarkGray
        },
    }
}

/// The label and color for the little kind badge in front of a row.
pub fn badge_for(path: &str) -> (r: (String, Color))
    ensures
        (r.0@, r.1) == badge(path@),
{
    if is_dir(path) {
        return ("DIR".to_owned(), Color::Blue);
    }
    match extension_of(path) {
        Some(ext) => {
            let s = chars_of(&ext);
            if s.len() == 0 {
                return ("FILE".to_owned(), Color::DarkGray);
            }
            let n: usize = if s.len() < 4 {
                s.len()
            } else {
                4
            };
            let short = string_of_range(&s, 0, n);
            assert(short@ =~= first_four(ext@));
            (to_upper(&short), color_of_kind(&ext))
        },
        None => ("FILE".to_owned(), Color::DarkGray),
    }
}

/// The badge and the gap after it.
pub open spec fn badge_pieces(path: Seq<char>) -> Seq<PieceView> {
    let (label, color) = badge(path);
    seq![(" "@ + label + " "@, Role::Badge(color)), (" "@, Role::Raw)]
}

/// The width of the badge and the gap, by which second lines are indented.
pub open spec fn badge_width(path: Seq<char>) -> nat {
    let width = badge(path).0.len() + 3;
    if width < usize::MAX {
        width
    } else {
        usize::MAX as nat
    }
}

fn badge_line(path: &str) -> (r: (Vec<Piece>, usize))
    ensures
        piece_views(r.0@) == badge_pieces(path@),
        r.1 == badge_width(path@),
{
    let (label, color) = badge_for(path);
    let n = chars_of(&label).len();
    let mut text = " ".to_owned();
    text.append(&label);
    text.append(" ");
    let mut out: Vec<Piece> = Vec::new();
    push_piece(&mut out, text, Role::Badge(color));
    push_piece(&mut out, " ".to_owned(), Role::Raw);
    assert(piece_views(out@) =~= badge_pieces(path@));
    (out, n.saturating_add(3))
}

// ------------------------------------------------------------------- columns

/// Spaces to push the right column flush against the row's right edge; none
/// when there is no room for even one gap (callers then drop the column).
pub open spec fn padding(left: int, right: int, inner_width: int) -> Option<nat> {
    if left + right < inner_width {
        Some((inner_width - left - right) as nat)
    } else {
        None
    }
}

pub fn right_pad(left: usize, right: usize, inner_width: usize) -> (r: Option<usize>)
    ensures
        match r {
            Some(pad) => padding(left as int, right as int, inner_width as int) == Some(pad as nat),
            None => padding(left as int, right as int, inner_width as int) is None,
        },
{
    if left < inner_width && right < inner_width - left {
        Some(inner_width - left - right)
    } else {
        None
    }
}

/// A run of spaces.
pub open spec fn spaces(n: nat) -> Seq<char> {
    Seq::new(n, |i: int| ' ')
}

fn space_text(n: usize) -> (r: String)
    ensures
        r@ == spaces(n as nat),
{
    let mut out = String::new();
    let mut i: usize = 0;
    proof {
        reveal_strlit("");
    }
    assert(out@ =~= spaces(0));
    while i < n
        invariant
            i <= n,
            out@ == spaces(i as nat),
        decreases n - i,
    {
        out.push(' ');
        i += 1;
        assert(out@ =~= spaces(i as nat));
    }
    out
}

/// "5m ago" for a row's modification time; none when the metadata is missing or
/// bogus.
pub open spec fn age_of(meta: Option<FileMeta>, now: i64) -> Option<Seq<char>> {
    match meta {
        Some(m) => if m.mtime > 0 {
            Some(
                age_text(
                    if now > m.mtime {
                        (now - m.mtime) as u64
                    } else {
                        0
                    },
                ),
            )
        } else {
            None
        },
        None => None,
    }
}

pub fn row_age(meta: Option<FileMeta>, now: i64) -> (r: Option<String>)
    ensures
        text_option(r) == age_of(meta, now),
{
    match meta {
        Some(m) => {
            if m.mtime > 0 {
                let secs: u64 = if now > m.mtime {
                    (now - m.mtime) as u64
                } else {
                    0
                };
                Some(human_age(secs))
            } else {
                None
            }
        },
        None => None,
    }
}

// --------------------------------------------------------------------- paths

/// A path with the home directory shortened to `~`, and how many characters of
/// the path that takes the place of.
pub open spec fn shortened(path: Seq<char>, home: Option<Seq<char>>) -> (Seq<char>, nat) {
    match home {
        Some(h) => if h.is_prefix_of(path) {
            (seq!['~'] + path.skip(h.len() as int), h.len())
        } else {
            (path, 0)
        },
        None => (path, 0),
    }
}

/// The length of a path without the slashes at its end.
pub open spec fn without_slashes(path: Seq<char>, n: int) -> int
    decreases n,
{
    if n > 0 && path[n - 1] == '/' {
        without_slashes(path, n - 1)
    } else {
        n
    }
}

/// The start of the last component that ends at `n`.
pub open spec fn last_start(path: Seq<char>, n: int) -> int
    decreases n,
{
    if n > 0 && path[n - 1] != '/' {
        last_start(path, n - 1)
    } else {
        n
    }
}

/// The final component of a path; a directory keeps one slash.
pub open spec fn display_name(path: Seq<char>) -> Seq<char> {
    let end = without_slashes(path, path.len() as int);
    let last = path.subrange(last_start(path, end), end);
    if is_dir_path(path) {
        last.push('/')
    } else {
        last
    }
}

/// How many characters of the shown path stand before the name.
pub open spec fn parent_len(shown: Seq<char>, name: Seq<char>) -> nat {
    if name.len() < shown.len() {
        (shown.len() - name.len()) as nat
    } else {
        0
    }
}

/// The parts of a row's path: as it is shown, how much `~` takes the place of,
/// the name, and the length of what stands before the name.
fn path_parts(path: &str, home: &Option<String>) -> (r: (Vec<char>, usize, Vec<char>, usize))
    ensures
        (r.0@, r.1 as nat) == shortened(path@, text_option(*home)),
        r.2@ == display_name(path@),
        r.3 == parent_len(r.0@, r.2@),
        r.3 <= r.0@.len(),
{
    let s = chars_of(path);
    let mut shown: Vec<char> = Vec::new();
    let mut trimmed: usize = 0;
    let mut from: usize = 0;
    match home {
        Some(h) => {
            let prefix = chars_of(h);
            if starts_with(&s, h) {
                shown.push('~');
                trimmed = prefix.len();
                from = trimmed;
            }
        },
        None => {},
    }
    let mut rest = sub_chars(&s, from, s.len());
    let ghost tail = rest@;
    shown.append(&mut rest);
    assert(shown@ =~= shortened(path@, text_option(*home)).0);
    let mut end: usize = s.len();
    while end > 0 && s[end - 1] == '/'
        invariant
            end <= s@.len(),
            without_slashes(s@, s@.len() as int) == without_slashes(s@, end as int),
        decreases end,
    {
        end -= 1;
    }
    let mut start: usize = end;
    while start > 0 && s[start - 1] != '/'
        invariant
            start <= end <= s@.len(),
            last_start(s@, end as int) == last_start(s@, start as int),
        decreases start,
    {
        start -= 1;
    }
    let mut name = sub_chars(&s, start, end);
    if is_dir(path) {
        name.push('/');
    }
    let parent: usize = if name.len() < shown.len() {
        shown.len() - name.len()
    } else {
        0
    };
    (shown, trimmed, name, parent)
}

// ------------------------------------------------------------------- matches

/// The first position from `j` on that does not lie before `i`.
pub open spec fn advance(ps: Seq<u32>, j: int, i: int) -> int
    decreases ps.len() - j,
{
    if 0 <= j < ps.len() && ps[j] < i {
        advance(ps, j + 1, i)
    } else {
        j
    }
}

/// Where the reading of the positions stands at character `i`.
pub open spec fn pointer(ps: Seq<u32>, i: int) -> int
    decreases i,
{
    if i <= 0 {
        0
    } else {
        advance(ps, pointer(ps, i - 1), i)
    }
}

/// Character `i` is highlighted.
pub open spec fn is_lit(ps: Seq<u32>, i: int) -> bool {
    0 <= pointer(ps, i) < ps.len() && ps[pointer(ps, i)] == i
}

/// The first `n` characters in runs that are highlighted or not.
pub open spec fn runs(s: Seq<char>, ps: Seq<u32>, n: int, plain: Role, lit: Role) -> Seq<PieceView>
    decreases n,
{
    if n <= 0 {
        Seq::empty()
    } else {
        let before = runs(s, ps, n - 1, plain, lit);
        let role = if is_lit(ps, n - 1) {
            lit
        } else {
            plain
        };
        if n > 1 && is_lit(ps, n - 1) == is_lit(ps, n - 2) {
            before.drop_last().push((before.last().0.push(s[n - 1]), role))
        } else {
            before.push((seq![s[n - 1]], role))
        }
    }
}

/// Splits `shown` into pieces: the characters at `positions` have the role
/// `lit`, everything else the role `plain`.
pub fn spans_with_styles(shown: &[char], positions: &Vec<u32>, plain: Role, lit: Role) -> (r: Vec<
    Piece,
>)
    ensures
        piece_views(r@) == runs(shown@, positions@, shown@.len() as int, plain, lit),
{
    let mut out: Vec<Piece> = Vec::new();
    let mut run: Vec<char> = Vec::new();
    let mut run_lit: bool = false;
    let mut at: usize = 0;
    let mut i: usize = 0;
    let ghost ps = positions@;
    assert(piece_views(out@) =~= Seq::empty());
    while i < shown.len()
        invariant
            i <= shown@.len(),
            at <= ps.len(),
            ps == positions@,
            at == (if i == 0 {
                0
            } else {
                pointer(ps, i - 1)
            }),
            i == 0 ==> run@.len() == 0 && out@.len() == 0,
            i > 0 ==> run@.len() > 0 && run_lit == is_lit(ps, i - 1),
            i > 0 ==> runs(shown@, ps, i as int, plain, lit) == piece_views(out@).push(
                (
                    run@,
                    if run_lit {
                        lit
                    } else {
                        plain
                    },
                ),
            ),
        decreases shown@.len() - i,
    {
        let ghost start = at;
        if i > 0 {
            while at < positions.len() && (positions[at] as u64) < i as u64
                invariant
                    at <= ps.len(),
                    ps == positions@,
                    start <= at,
                    advance(ps, start as int, i as int) == advance(ps, at as int, i as int),
                decreases ps.len() - at,
            {
                at += 1;
            }
        }
        assert(at == pointer(ps, i as int));
        let highlighted = at < positions.len() && positions[at] as u64 == i as u64;
        assert(highlighted == is_lit(ps, i as int));
        let ghost before = piece_views(out@);
        if highlighted != run_lit && run.len() > 0 {
            let role = if run_lit {
                lit
            } else {
                plain
            };
            push_piece(&mut out, string_of(&run), role);
            run = Vec::new();
        }
        let ghost held = run@;
        run_lit = highlighted;
        run.push(shown[i]);
        let ghost role = if highlighted {
            lit
        } else {
            plain
        };
        assert(runs(shown@, ps, i + 1, plain, lit) =~= piece_views(out@).push((run@, role))) by {
            let all = runs(shown@, ps, i as int, plain, lit);
            if held.len() == 0 {
                assert(run@ =~= seq![shown@[i as int]]);
                assert(piece_views(out@) =~= all);
            } else {
                assert(all.drop_last() =~= piece_views(out@));
                assert(all.last().0 == held);
                assert(is_lit(ps, i as int) == is_lit(ps, i - 1));
            }
        }
        i += 1;
    }
    if run.len() > 0 {
        let role = if run_lit {
            lit
        } else {
            plain
        };
        push_piece(&mut out, string_of(&run), role);
    }
    assert(piece_views(out@) =~= runs(shown@, ps, shown@.len() as int, plain, lit));
    out
}

/// A line around its first match: plain, the match, plain.
pub open spec fn around_match(line: Seq<char>, found: Option<(usize, usize)>) -> Seq<PieceView> {
    match found {
        Some((start, end)) => (if start > 0 {
            seq![(line.take(start as int), Role::Raw)]
        } else {
            Seq::empty()
        }) + seq![(line.subrange(start as int, end as int), Role::Match)] + (if end < line.len() {
            seq![(line.skip(end as int), Role::Raw)]
        } else {
            Seq::empty()
        }),
        None => seq![(line, Role::Raw)],
    }
}

/// The pieces of a line in which a match was found between two characters.
pub fn match_pieces(line: &str, found: Option<(usize, usize)>) -> (r: Vec<Piece>)
    requires
        found matches Some((start, end)) ==> start <= end <= line@.len(),
    ensures
        piece_views(r@) == around_match(line@, found),
{
    let mut out: Vec<Piece> = Vec::new();
    assert(piece_views(out@) =~= Seq::empty());
    match found {
        Some((start, end)) => {
            let s = chars_of(line);
            if start > 0 {
                let text = string_of_range(&s, 0, start);
                assert(text@ =~= line@.take(start as int));
                push_piece(&mut out, text, Role::Raw);
            }
            push_piece(&mut out, string_of_range(&s, start, end), Role::Match);
            if end < s.len() {
                let text = string_of_range(&s, end, s.len());
                assert(text@ =~= line@.skip(end as int));
                push_piece(&mut out, text, Role::Raw);
            }
        },
        None => {
            push_piece(&mut out, line.to_owned(), Role::Raw);
        },
    }
    assert(piece_views(out@) =~= around_match(line@, found));
    out
}

// ---------------------------------------------------------------------- rows

/// What the rows of a list have in common.
pub struct RowContext {
    /// The home directory, shown as `~`.
    pub home: Option<String>,
    pub density: Density,
    /// The width of a row without the borders.
    pub inner_width: usize,
    /// The current time in unix seconds.
    pub now: i64,
}

/// The positions among the first `n`, moved onto the shortened path and parted
/// at the name: those in the name, counted from its start, and those before it.
/// `trimmed` characters of the path are shown as one.
pub open spec fn placed(ps: Seq<u32>, trimmed: nat, parent: nat, n: int) -> (Seq<u32>, Seq<u32>)
    decreases n,
{
    if n <= 0 {
        (Seq::empty(), Seq::empty())
    } else {
        let (name, before) = placed(ps, trimmed, parent, n - 1);
        let p = ps[n - 1] as int;
        let q = if trimmed > 0 {
            p - (trimmed - 1)
        } else {
            p
        };
        if p < trimmed {
            (name, before)
        } else if q >= parent {
            (name.push((q - parent) as u32), before)
        } else {
            (name, before.push(q as u32))
        }
    }
}

fn place(positions: &Vec<u32>, trimmed: usize, parent: usize) -> (r: (Vec<u32>, Vec<u32>))
    ensures
        (r.0@, r.1@) == placed(
            positions@,
            trimmed as nat,
            parent as nat,
            positions@.len() as int,
        ),
{
    let mut name: Vec<u32> = Vec::new();
    let mut before: Vec<u32> = Vec::new();
    let mut i: usize = 0;
    while i < positions.len()
        invariant
            i <= positions@.len(),
            (name@, before@) == placed(positions@, trimmed as nat, parent as nat, i as int),
        decreases positions@.len() - i,
    {
        let p: u64 = positions[i] as u64;
        if p >= trimmed as u64 {
            let q: u64 = if trimmed > 0 {
                p - (trimmed as u64 - 1)
            } else {
                p
            };
            if q >= parent as u64 {
                name.push((q - parent as u64) as u32);
            } else {
                before.push(q as u32);
            }
        }
        i += 1;
    }
    (name, before)
}

/// A text flush against the right edge, where there is one and room for it.
pub open spec fn right_column(text: Option<Seq<char>>, left: int, inner_width: int) -> Seq<
    PieceView,
> {
    match text {
        Some(t) => match padding(left, t.len() as int, inner_width) {
            Some(pad) => seq![(spaces(pad), Role::Raw), (t, Role::Dim)],
            None => Seq::empty(),
        },
        None => Seq::empty(),
    }
}

fn push_right(out: &mut Vec<Piece>, text: Option<String>, left: usize, inner_width: usize)
    ensures
        piece_views(final(out)@) == piece_views(old(out)@) + right_column(
            text_option(text),
            left as int,
            inner_width as int,
        ),
{
    match text {
        Some(t) => {
            match right_pad(left, chars_of(&t).len(), inner_width) {
                Some(pad) => {
                    push_piece(out, space_text(pad), Role::Raw);
                    push_piece(out, t, Role::Dim);
                },
                None => {},
            }
        },
        None => {},
    }
    assert(piece_views(out@) =~= piece_views(old(out)@) + right_column(
        text_option(text),
        left as int,
        inner_width as int,
    ));
}

/// The lines of a row for a matching line of a file.
pub open spec fn content_row(
    path: Seq<char>,
    number: u64,
    line: Seq<char>,
    meta: Option<FileMeta>,
    density: Density,
    inner_width: int,
    now: i64,
    found: Option<(usize, usize)>,
) -> Seq<Seq<PieceView>> {
    let name = display_name(path);
    let colon = ":"@ + digits_of(number as nat);
    match density {
        Density::Comfy => seq![
            badge_pieces(path) + seq![(name, Role::Name), (colon, Role::Dim)] + right_column(
                age_of(meta, now),
                (badge_width(path) + name.len() + colon.len()) as int,
                inner_width,
            ),
            seq![(spaces(badge_width(path)), Role::Raw)] + around_match(line, found),
        ],
        Density::Compact => seq![
            badge_pieces(path) + seq![(name, Role::Name), (colon + " "@, Role::Dim)]
                + around_match(line, found),
        ],
    }
}

/// The size of a file, and its age where it is known.
pub open spec fn size_and_age(meta: Option<FileMeta>, now: i64) -> Option<Seq<char>> {
    match meta {
        Some(m) => match age_of(meta, now) {
            Some(age) => Some(size_text(m.size) + " · "@ + age),
            None => Some(size_text(m.size)),
        },
        None => None,
    }
}

/// The size that is shown behind the parent; directories show none.
pub open spec fn size_piece(path: Seq<char>, meta: Option<FileMeta>) -> Seq<PieceView> {
    match meta {
        Some(m) => if is_dir_path(path) {
            Seq::empty()
        } else {
            seq![(" · "@ + size_text(m.size), Role::Raw)]
        },
        None => Seq::empty(),
    }
}

/// The lines of a row for a file.
pub open spec fn file_row(
    path: Seq<char>,
    meta: Option<FileMeta>,
    home: Option<Seq<char>>,
    density: Density,
    inner_width: int,
    now: i64,
    positions: Seq<u32>,
) -> Seq<Seq<PieceView>> {
    let (shown, trimmed) = shortened(path, home);
    let name = display_name(path);
    let parent = shown.take(parent_len(shown, name) as int);
    let (in_name, in_parent) = placed(positions, trimmed, parent.len(), positions.len() as int);
    let name_pieces = runs(name, in_name, name.len() as int, Role::Name, Role::Match);
    let parent_pieces = runs(
        parent,
        in_parent,
        parent.len() as int,
        Role::Dim,
        Role::ParentMatch,
    );
    match density {
        Density::Comfy => seq![
            badge_pieces(path) + name_pieces + right_column(
                age_of(meta, now),
                (badge_width(path) + name.len()) as int,
                inner_width,
            ),
            seq![(spaces(badge_width(path)), Role::Raw)] + parent_pieces + size_piece(path, meta),
        ],
        Density::Compact => seq![
            badge_pieces(path) + name_pieces + seq![(" — "@, Role::Dim)] + parent_pieces
                + right_column(
                size_and_age(meta, now),
                (badge_width(path) + name.len() + 3 + parent.len()) as int,
                inner_width,
            ),
        ],
    }
}

/// The lines of a result row. `positions` are the characters of the path that
/// the query matches, `found` is where the pattern matches in the line.
pub open spec fn row_layout(
    row: RowView,
    home: Option<Seq<char>>,
    density: Density,
    inner_width: int,
    now: i64,
    positions: Seq<u32>,
    found: Option<(usize, usize)>,
) -> Seq<Seq<PieceView>> {
    match (row.line_number, row.line) {
        (Some(number), Some(line)) => content_row(
            row.path,
            number,
            line,
            row.meta,
            density,
            inner_width,
            now,
            found,
        ),
        _ => file_row(row.path, row.meta, home, density, inner_width, now, positions),
    }
}

fn content_lines(
    path: &str,
    number: u64,
    line: &str,
    meta: Option<FileMeta>,
    ctx: &RowContext,
    found: Option<(usize, usize)>,
) -> (r: Vec<Vec<Piece>>)
    requires
        found matches Some((start, end)) ==> start <= end <= line@.len(),
    ensures
        row_line_views(r@) == content_row(
            path@,
            number,
            line@,
            meta,
            ctx.density,
            ctx.inner_width as int,
            ctx.now,
            found,
        ),
{
    let (mut first, width) = badge_line(path);
    let (_shown, _trimmed, name, _parent) = path_parts(path, &None);
    let colon = joined(":", &decimal_string(number));
    push_piece(&mut first, string_of(&name), Role::Name);
    let mut out: Vec<Vec<Piece>> = Vec::new();
    match ctx.density {
        Density::Comfy => {
            let left = width.saturating_add(name.len()).saturating_add(chars_of(&colon).len());
            push_piece(&mut first, colon, Role::Dim);
            assert(piece_views(first@) =~= badge_pieces(path@) + seq![
                (name@, Role::Name),
                (colon@, Role::Dim),
            ]);
            push_right(&mut first, row_age(meta, ctx.now), left, ctx.inner_width);
            let mut second: Vec<Piece> = Vec::new();
            assert(piece_views(second@) =~= Seq::empty());
            push_piece(&mut second, space_text(width), Role::Raw);
            assert(piece_views(second@) =~= seq![(spaces(width as nat), Role::Raw)]);
            push_pieces(&mut second, match_pieces(line, found));
            out.push(first);
            out.push(second);
        },
        Density::Compact => {
            let colon = joined(&colon, " ");
            push_piece(&mut first, colon, Role::Dim);
            assert(piece_views(first@) =~= badge_pieces(path@) + seq![
                (name@, Role::Name),
                (colon@, Role::Dim),
            ]);
            push_pieces(&mut first, match_pieces(line, found));
            out.push(first);
        },
    }
    assert(row_line_views(out@) =~= content_row(
        path@,
        number,
        line@,
        meta,
        ctx.density,
        ctx.inner_width as int,
        ctx.now,
        found,
    ));
    out
}

fn file_lines(path: &str, meta: Option<FileMeta>, ctx: &RowContext, positions: &Vec<u32>) -> (r:
    Vec<Vec<Piece>>)
    ensures
        row_line_views(r@) == file_row(
            path@,
            meta,
            text_option(ctx.home),
            ctx.density,
            ctx.inner_width as int,
            ctx.now,
            positions@,
        ),
{
    let (mut first, width) = badge_line(path);
    let (shown, trimmed, name, parent_len) = path_parts(path, &ctx.home);
    let parent = sub_chars(&shown, 0, parent_len);
    assert(parent@ =~= shown@.take(parent_len as int));
    let (in_name, in_parent) = place(positions, trimmed, parent_len);
    push_pieces(&mut first, spans_with_styles(&name, &in_name, Role::Name, Role::Match));
    let parent_pieces = spans_with_styles(&parent, &in_parent, Role::Dim, Role::ParentMatch);
    let mut out: Vec<Vec<Piece>> = Vec::new();
    match ctx.density {
        Density::Comfy => {
            let left = width.saturating_add(name.len());
            push_right(&mut first, row_age(meta, ctx.now), left, ctx.inner_width);
            let mut second: Vec<Piece> = Vec::new();
            assert(piece_views(second@) =~= Seq::empty());
            push_piece(&mut second, space_text(width), Role::Raw);
            assert(piece_views(second@) =~= seq![(spaces(width as nat), Role::Raw)]);
            push_pieces(&mut second, parent_pieces);
            let ghost before = piece_views(second@);
            match meta {
                Some(m) => {
                    if !is_dir(path) {
                        push_piece(&mut second, joined(" · ", &human_size(m.size)), Role::Raw);
                    }
                },
                None => {},
            }
            assert(piece_views(second@) =~= before + size_piece(path@, meta));
            out.push(first);
            out.push(second);
        },
        Density::Compact => {
            let right = match meta {
                Some(m) => {
                    let mut text = human_size(m.size);
                    match row_age(meta, ctx.now) {
                        Some(age) => {
                            text.append(" · ");
                            text.append(&age);
                        },
                        None => {},
                    }
                    Some(text)
                },
                None => None,
            };
            let ghost before = piece_views(first@);
            push_piece(&mut first, " — ".to_owned(), Role::Dim);
            assert(piece_views(first@) =~= before + seq![(" — "@, Role::Dim)]);
            push_pieces(&mut first, parent_pieces);
            let left = width.saturating_add(name.len()).saturating_add(3).saturating_add(
                parent.len(),
            );
            push_right(&mut first, right, left, ctx.inner_width);
            out.push(first);
        },
    }
    assert(row_line_views(out@) =~= file_row(
        path@,
        meta,
        text_option(ctx.home),
        ctx.density,
        ctx.inner_width as int,
        ctx.now,
        positions@,
    ));
    out
}

/// The lines of a result row.
pub fn row_lines(
    row: &ResultRow,
    ctx: &RowContext,
    positions: &Vec<u32>,
    found: Option<(usize, usize)>,
) -> (r: Vec<Vec<Piece>>)
    requires
        found matches Some((start, end)) ==> row@.line is Some && start <= end
            <= row@.line->Some_0.len(),
    ensures
        row_line_views(r@) == row_layout(
            row@,
            text_option(ctx.home),
            ctx.density,
            ctx.inner_width as int,
            ctx.now,
            positions@,
            found,
        ),
{
    match (row.line_number, &row.line) {
        (Some(number), Some(line)) => content_lines(
            row.path.as_str(),
            number,
            line.as_str(),
            row.meta,
            ctx,
            found,
        ),
        _ => file_lines(row.path.as_str(), row.meta, ctx, positions),
    }
}

// ------------------------------------------------------------------ sections

/// An item of the displayed list: a section header, or a result row.
#[derive(Debug, Clone, Copy, PartialEq, Eq, Structural)]
pub enum Item {
    RecentOpens,
    RecentlyModified,
    Row(usize),
}

impl Item {
    pub open spec fn header_text(self) -> Option<Seq<char>> {
        match self {
            Item::RecentOpens => Some("─ RECENT OPENS ────────"@),
            Item::RecentlyModified => Some("─ RECENTLY MODIFIED ────────"@),
            Item::Row(_) => None,
        }
    }

    /// The text of a section header.
    pub fn header(&self) -> (r: Option<&'static str>)
        ensures
            match r {
                Some(t) => self.header_text() == Some(t@),
                None => self.header_text() is None,
            },
    {
        match self {
            Item::RecentOpens => Some("─ RECENT OPENS ────────"),
            Item::RecentlyModified => Some("─ RECENTLY MODIFIED ────────"),
            Item::Row(_) => None,
        }
    }
}

/// How many rows from `i` on were opened before, without a gap.
pub open spec fn opened_from(rows: Seq<ResultRow>, i: int) -> int
    decreases rows.len() - i,
{
    if 0 <= i < rows.len() && rows[i].recent_open {
        1 + opened_from(rows, i + 1)
    } else {
        0
    }
}

/// The list has sections: on the launch screen, where files were opened before.
pub open spec fn has_sections(rows: Seq<ResultRow>, blank_query: bool, mode: Mode) -> bool {
    blank_query && mode == Mode::Fuzzy && opened_from(rows, 0) > 0
}

/// The item at position `i` of a list with sections.
pub open spec fn sectioned_item(opened: int, i: int) -> Item {
    if i == 0 {
        Item::RecentOpens
    } else if i <= opened {
        Item::Row((i - 1) as usize)
    } else if i == opened + 1 {
        Item::RecentlyModified
    } else {
        Item::Row((i - 2) as usize)
    }
}

/// The displayed list.
pub open spec fn displayed(rows: Seq<ResultRow>, blank_query: bool, mode: Mode) -> Seq<Item> {
    let opened = opened_from(rows, 0);
    if has_sections(rows, blank_query, mode) {
        Seq::new(
            if opened < rows.len() {
                rows.len() + 2
            } else {
                rows.len() + 1
            },
            |i: int| sectioned_item(opened, i),
        )
    } else {
        Seq::new(rows.len(), |i: int| Item::Row(i as usize))
    }
}

/// Where the selected row stands in the displayed list: headers shift it.
pub open spec fn displayed_selection(
    rows: Seq<ResultRow>,
    blank_query: bool,
    mode: Mode,
    selected: int,
) -> int {
    if !has_sections(rows, blank_query, mode) {
        selected
    } else if selected < opened_from(rows, 0) {
        selected + 1
    } else {
        selected + 2
    }
}

proof fn lemma_opened(rows: Seq<ResultRow>, i: int)
    requires
        0 <= i <= rows.len(),
    ensures
        0 <= opened_from(rows, i) <= rows.len() - i,
    decreases rows.len() - i,
{
    if i < rows.len() {
        lemma_opened(rows, i + 1);
    }
}

/// The displayed list and the place of the selected row in it. On the launch
/// screen the list is split into "recent opens" and "recently modified".
pub fn display_items(
    rows: &[ResultRow],
    blank_query: bool,
    mode: Mode,
    selected: usize,
) -> (r: (Vec<Item>, usize))
    requires
        selected + 2 <= usize::MAX,
        rows@.len() + 2 <= usize::MAX,
    ensures
        r.0@ == displayed(rows@, blank_query, mode),
        r.1 == displayed_selection(rows@, blank_query, mode, selected as int),
{
    let mut opened: usize = 0;
    proof {
        lemma_opened(rows@, 0);
    }
    while opened < rows.len() && rows[opened].recent_open
        invariant
            opened <= rows@.len(),
            opened_from(rows@, 0) == opened + opened_from(rows@, opened as int),
        decreases rows@.len() - opened,
    {
        opened += 1;
    }
    let sections = blank_query && mode == Mode::Fuzzy && opened > 0;
    let mut out: Vec<Item> = Vec::new();
    if sections {
        out.push(Item::RecentOpens);
    }
    let mut i: usize = 0;
    while i < rows.len()
        invariant
            i <= rows@.len(),
            0 < opened <= rows@.len() || !sections,
            rows@.len() + 2 <= usize::MAX,
            sections ==> out@.len() == (if i <= opened {
                i + 1
            } else {
                i + 2
            }),
            !sections ==> out@.len() == i,
            forall|k: int|
                0 <= k < out@.len() ==> (#[trigger] out@[k]) == (if sections {
                    sectioned_item(opened as int, k)
                } else {
                    Item::Row(k as usize)
                }),
        decreases rows@.len() - i,
    {
        if sections && i == opened {
            out.push(Item::RecentlyModified);
        }
        out.push(Item::Row(i));
        i += 1;
    }
    assert(out@ =~= displayed(rows@, blank_query, mode));
    let place = if !sections {
        selected
    } else if selected < opened {
        selected + 1
    } else {
        selected + 2
    };
    (out, place)
}

// --------------------------------------------------------------------- laws

/// Toggling the density twice changes nothing.
pub proof fn density_toggles_back(d: Density)
    ensures
        d.toggled().toggled() == d,
        d.toggled() != d,
{
}

/// The selected row is displayed, and highlighted in its place.
pub proof fn selection_stays_on_its_row(
    rows: Seq<ResultRow>,
    blank_query: bool,
    mode: Mode,
    selected: int,
)
    requires
        0 <= selected < rows.len() <= usize::MAX,
    ensures
        ({
            let place = displayed_selection(rows, blank_query, mode, selected);
            let items = displayed(rows, blank_query, mode);
            0 <= place < items.len() && items[place] == Item::Row(selected as usize)
        }),
{
    lemma_opened(rows, 0);
}

/// The text of pieces, one after another.
pub open spec fn piece_text(pieces: Seq<PieceView>) -> Seq<char>
    decreases pieces.len(),
{
    if pieces.len() == 0 {
        Seq::empty()
    } else {
        piece_text(pieces.drop_last()) + pieces.last().0
    }
}

/// Highlighting splits a text and loses nothing of it.
pub proof fn highlighting_keeps_the_text(
    s: Seq<char>,
    ps: Seq<u32>,
    n: int,
    plain: Role,
    lit: Role,
)
    requires
        0 <= n <= s.len(),
    ensures
        piece_text(runs(s, ps, n, plain, lit)) == s.take(n),
        n > 0 ==> runs(s, ps, n, plain, lit).len() > 0,
    decreases n,
{
    if n > 0 {
        highlighting_keeps_the_text(s, ps, n - 1, plain, lit);
        let before = runs(s, ps, n - 1, plain, lit);
        let after = runs(s, ps, n, plain, lit);
        assert(s.take(n) =~= s.take(n - 1).push(s[n - 1]));
        if n > 1 && is_lit(ps, n - 1) == is_lit(ps, n - 2) {
            assert(after.drop_last() =~= before.drop_last());
            assert(piece_text(after) =~= piece_text(before).push(s[n - 1]));
        } else {
            assert(after.drop_last() =~= before);
            assert(piece_text(after) =~= piece_text(before).push(s[n - 1]));
        }
    } else {
        assert(s.take(0) =~= Seq::empty());
    }
}

/// The positions ascend.
pub open spec fn ascends(ps: Seq<u32>) -> bool {
    forall|i: int, j: int| 0 <= i < j < ps.len() ==> ps[i] < ps[j]
}

proof fn lemma_advance(ps: Seq<u32>, j: int, i: int)
    requires
        0 <= j <= ps.len(),
    ensures
        j <= advance(ps, j, i) <= ps.len(),
        forall|k: int| j <= k < advance(ps, j, i) ==> ps[k] < i,
        advance(ps, j, i) < ps.len() ==> ps[advance(ps, j, i)] >= i,
    decreases ps.len() - j,
{
    if j < ps.len() && ps[j] < i {
        lemma_advance(ps, j + 1, i);
    }
}

proof fn lemma_pointer(ps: Seq<u32>, i: int)
    requires
        0 <= i,
    ensures
        0 <= pointer(ps, i) <= ps.len(),
        forall|k: int| 0 <= k < pointer(ps, i) ==> ps[k] < i,
        pointer(ps, i) < ps.len() ==> ps[pointer(ps, i)] >= i,
    decreases i,
{
    if i > 0 {
        lemma_pointer(ps, i - 1);
        lemma_advance(ps, pointer(ps, i - 1), i);
    }
}

/// Where the positions ascend, exactly the characters at them are highlighted.
pub proof fn listed_positions_are_lit(ps: Seq<u32>, i: int)
    requires
        ascends(ps),
        0 <= i <= u32::MAX,
    ensures
        is_lit(ps, i) == ps.contains(i as u32),
{
    lemma_pointer(ps, i);
    if ps.contains(i as u32) {
        let k = choose|k: int| 0 <= k < ps.len() && ps[k] == i as u32;
        let p = pointer(ps, i);
        if k < p {
            assert(ps[k] < i);
        } else if p < k {
            assert(ps[p] < ps[k]);
        }
    }
}


/// A path below the home directory is shown from `~` on; any other path is shown
/// as it is.
pub proof fn home_is_shown_as_a_tilde(home: Seq<char>, rest: Seq<char>, path: Seq<char>, p: int)
    requires
        !home.is_prefix_of(path),
    ensures
        shortened(home + rest, Some(home)).0 == seq!['~'] + rest,
        shortened(path, Some(home)).0 == path,
        shortened(path, None).0 == path,
        0 <= p < rest.len() ==> shortened(home + rest, Some(home)).0[p + 1] == (home + rest)[home.len()
            + p],
{
    assert(home.is_prefix_of(home + rest));
    assert((home + rest).skip(home.len() as int) =~= rest);
}

proof fn lemma_slashes_cut(path: Seq<char>, k: int, n: int)
    requires
        0 <= k <= n <= path.len(),
        forall|i: int| k <= i < n ==> path[i] == '/',
        k == 0 || path[k - 1] != '/',
    ensures
        without_slashes(path, n) == k,
    decreases n,
{
    if k < n {
        assert(path[n - 1] == '/');
        lemma_slashes_cut(path, k, n - 1);
    }
}

proof fn lemma_last_start(path: Seq<char>, k: int, n: int)
    requires
        0 <= k <= n <= path.len(),
        forall|i: int| k <= i < n ==> path[i] != '/',
        k == 0 || path[k - 1] == '/',
    ensures
        last_start(path, n) == k,
    decreases n,
{
    if k < n {
        assert(path[n - 1] != '/');
        lemma_last_start(path, k, n - 1);
    }
}

/// The name of a row is what follows the last slash; that of a directory, which
/// ends in slashes, is shown with one.
pub proof fn rows_are_named_after_the_last_slash(
    before: Seq<char>,
    name: Seq<char>,
    slashes: Seq<char>,
)
    requires
        before.len() == 0 || before.last() == '/',
        name.len() > 0,
        !name.contains('/'),
        forall|i: int| 0 <= i < slashes.len() ==> #[trigger] slashes[i] == '/',
    ensures
        display_name(before + name + slashes) == if slashes.len() == 0 {
            name
        } else {
            name.push('/')
        },
{
    let s = before + name + slashes;
    let n = before.len() as int + name.len();
    assert forall|i: int| before.len() <= i < n implies s[i] != '/' by {
        assert(s[i] == name[i - before.len()]);
        assert(name.contains(s[i]));
    }
    assert forall|i: int| n <= i < s.len() implies s[i] == '/' by {
        assert(s[i] == slashes[i - n]);
    }
    assert(s[n - 1] != '/');
    if before.len() > 0 {
        assert(s[before.len() as int - 1] == before.last());
    }
    lemma_slashes_cut(s, n, s.len() as int);
    lemma_last_start(s, before.len() as int, n);
    assert(s.subrange(before.len() as int, n) =~= name);
    if slashes.len() > 0 {
        assert(s.last() == slashes.last());
    } else {
        assert(s.last() == s[n - 1]);
    }
}

/// The right column ends at the edge of the row, with at least one space before
/// it; it is left out only where there is no room for that.
pub proof fn right_columns_are_flush(left: nat, text: Seq<char>, inner_width: nat)
    ensures
        left + text.len() < inner_width ==> {
            let column = right_column(Some(text), left as int, inner_width as int);
            &&& left + piece_text(column).len() == inner_width
            &&& piece_text(column)[0] == ' '
            &&& piece_text(column).skip(inner_width - left - text.len()) == text
        },
        left + text.len() >= inner_width ==> right_column(
            Some(text),
            left as int,
            inner_width as int,
        ).len() == 0,
        right_column(None, left as int, inner_width as int).len() == 0,
{
    if left + text.len() < inner_width {
        let column = right_column(Some(text), left as int, inner_width as int);
        let pad = (inner_width - left - text.len()) as nat;
        let first = column.drop_last();
        assert(column.len() == 2 && first.len() == 1);
        assert(first.drop_last() =~= Seq::<PieceView>::empty());
        assert(piece_text(Seq::<PieceView>::empty()) =~= Seq::<char>::empty());
        assert(first.last() == (spaces(pad), Role::Raw));
        assert(piece_text(first) =~= spaces(pad));
        assert(piece_text(column) =~= spaces(pad) + text);
        assert(piece_text(column).skip(pad as int) =~= text);
    }
}

/// The age of a row counts from its time up to now; what lies in the future is
/// new, and a row without a time has no age.
pub proof fn ages_count_from_the_time(m: FileMeta, now: i64)
    ensures
        0 < m.mtime <= now ==> age_of(Some(m), now) == Some(age_text((now - m.mtime) as u64)),
        0 < m.mtime && now < m.mtime ==> age_of(Some(m), now) == Some(age_text(0)),
        m.mtime <= 0 ==> age_of(Some(m), now) is None,
        age_of(None, now) is None,
{
}

/// A line with a match is shown whole, and exactly the match is highlighted.
pub proof fn matches_are_shown_in_their_lines(line: Seq<char>, start: usize, end: usize)
    requires
        start <= end <= line.len(),
    ensures
        ({
            let pieces = around_match(line, Some((start, end)));
            &&& piece_text(pieces) == line
            &&& exists|k: int|
                0 <= k < pieces.len() && #[trigger] pieces[k] == (
                    line.subrange(start as int, end as int),
                    Role::Match,
                ) && (forall|m: int|
                    0 <= m < pieces.len() && m != k ==> (#[trigger] pieces[m]).1 == Role::Raw)
                    && piece_text(pieces.take(k)) == line.take(start as int)
        }),
        piece_text(around_match(line, None)) == line,
{
    let found = Some((start, end));
    let pieces = around_match(line, found);
    let (a, b, c) = (
        line.take(start as int),
        line.subrange(start as int, end as int),
        line.skip(end as int),
    );
    let k = if start > 0 {
        1int
    } else {
        0int
    };
    assert(pieces[k] == (b, Role::Match));
    reveal_with_fuel(piece_text, 4);
    assert(pieces.take(k) =~= if start > 0 {
        seq![(a, Role::Raw)]
    } else {
        Seq::empty()
    });
    assert(seq![(a, Role::Raw)].drop_last() =~= Seq::<PieceView>::empty());
    assert(piece_text(pieces.take(k)) =~= a);
    assert(pieces.take(k + 1).drop_last() =~= pieces.take(k));
    assert(piece_text(pieces.take(k + 1)) =~= a + b);
    if end < line.len() {
        assert(pieces.len() == k + 2);
        assert(pieces.drop_last() =~= pieces.take(k + 1));
        assert(piece_text(pieces) =~= a + b + c);
        assert(a + b + c =~= line);
    } else {
        assert(pieces =~= pieces.take(k + 1));
        assert(a + b =~= line);
    }
    let whole = around_match(line, None);
    assert(whole.drop_last() =~= Seq::<PieceView>::empty());
    assert(piece_text(whole) =~= line);
}

/// The positions of a match are moved with the characters: what is cut from the
/// start of the path is shown as one character, and positions in the name count
/// from its start.
pub proof fn positions_are_moved_with_their_characters(
    ps: Seq<u32>,
    trimmed: nat,
    parent: nat,
    n: int,
    k: int,
)
    requires
        0 <= k < n <= ps.len(),
    ensures
        ({
            let (name, before) = placed(ps, trimmed, parent, n);
            let p = ps[k] as int;
            let at = if trimmed > 0 {
                p - trimmed + 1
            } else {
                p
            };
            &&& p >= trimmed && at >= parent ==> name.contains((at - parent) as u32)
            &&& p >= trimmed && at < parent ==> before.contains(at as u32)
            &&& name.len() + before.len() <= n
        }),
    decreases n,
{
    let (name, before) = placed(ps, trimmed, parent, n);
    let (m, b) = placed(ps, trimmed, parent, n - 1);
    if n > 1 {
        positions_are_moved_with_their_characters(
            ps,
            trimmed,
            parent,
            n - 1,
            if k < n - 1 {
                k
            } else {
                0
            },
        );
    }
    let p = ps[k] as int;
    let at = if trimmed > 0 {
        p - trimmed + 1
    } else {
        p
    };
    if p >= trimmed {
        if k < n - 1 {
            if at >= parent {
                let x = (at - parent) as u32;
                let i = choose|i: int| 0 <= i < m.len() && m[i] == x;
                assert(name[i] == x);
            } else {
                let x = at as u32;
                let i = choose|i: int| 0 <= i < b.len() && b[i] == x;
                assert(before[i] == x);
            }
        } else if at >= parent {
            assert(name[m.len() as int] == (at - parent) as u32);
        } else {
            assert(before[b.len() as int] == at as u32);
        }
    }
}

proof fn lemma_opened_rows(rows: Seq<ResultRow>, i: int)
    requires
        0 <= i <= rows.len(),
    ensures
        forall|k: int| i <= k < i + opened_from(rows, i) ==> (#[trigger] rows[k]).recent_open,
        i + opened_from(rows, i) < rows.len() ==> !rows[i + opened_from(rows, i)].recent_open,
    decreases rows.len() - i,
{
    if i < rows.len() && rows[i].recent_open {
        lemma_opened_rows(rows, i + 1);
    }
}

/// The rows keep their order when headers are put between them. The list has
/// headers only on the launch screen, and where its first row was opened before;
/// the rows under the first header are those, up to the first that was not.
pub proof fn headers_part_the_opened_rows(
    rows: Seq<ResultRow>,
    blank_query: bool,
    mode: Mode,
    a: int,
    b: int,
)
    requires
        0 <= a < b < rows.len() <= usize::MAX,
    ensures
        displayed_selection(rows, blank_query, mode, a) < displayed_selection(
            rows,
            blank_query,
            mode,
            b,
        ),
        has_sections(rows, blank_query, mode) <==> blank_query && mode == Mode::Fuzzy
            && rows[0].recent_open,
        has_sections(rows, blank_query, mode) ==> {
            let items = displayed(rows, blank_query, mode);
            let shown = displayed_selection(rows, blank_query, mode, b);
            &&& items[0] == Item::RecentOpens
            &&& rows[a].recent_open && !rows[b].recent_open ==> exists|k: int|
                0 < k < shown && #[trigger] items[k] == Item::RecentlyModified
            &&& shown == b + 1 ==> rows[b].recent_open
        },
{
    lemma_opened(rows, 0);
    lemma_opened_rows(rows, 0);
    let opened = opened_from(rows, 0);
    if has_sections(rows, blank_query, mode) {
        let items = displayed(rows, blank_query, mode);
        if b >= opened {
            assert(items[opened + 1] == Item::RecentlyModified);
        } else {
            assert(rows[b].recent_open);
        }
    }
}

} // verus!
