//! What the preview pane shows.

use crate::display::{align_right, right_aligned};
use crate::highlight::{
    line_views, plain_line, preview_of, span_views, Appearance, Span, SpanView, Style, Styler,
};
use crate::images::is_image_path;
use crate::order::{is_sorted, sort, Ordered};
use crate::pdf::is_pdf_path;
use crate::text::{
    chars_of, decimal_string, digits_of, joined, lemma_text_order, lines, split_lines, text_less,
    text_lt, texts,
};
use vstd::prelude::*;
use vstd::string::*;
use vstd::utf8::*;

verus! {

/// How much of a file is read for its preview.
pub const PREVIEW_BYTES: usize = 65_536;

/// A line of the preview.
#[derive(Debug, PartialEq)]
pub struct PreviewLine {
    /// The line number, where the preview is centered on a line.
    pub gutter: Option<String>,
    pub spans: Vec<Span>,
}

/// The model of a [`PreviewLine`].
pub type ShownLine = (Option<Seq<char>>, Seq<SpanView>);

impl View for PreviewLine {
    type V = ShownLine;

    open spec fn view(&self) -> ShownLine {
        (crate::fusion::text_option(self.gutter), span_views(self.spans@))
    }
}

/// The model of a preview.
pub open spec fn shown_lines(all: Seq<PreviewLine>) -> Seq<ShownLine> {
    all.map_values(|l: PreviewLine| l@)
}

// ------------------------------------------------------------ outside calls

/// Bytes as text, with replacement characters for what is not UTF-8.
pub uninterp spec fn lossy_text(bytes: Seq<u8>) -> Seq<char>;

/// `String::from_utf8_lossy`: a function of the bytes; UTF-8 is decoded.
#[verifier::external_body]
fn decode_lossy(bytes: &[u8]) -> (r: String)
    ensures
        r@ == lossy_text(bytes@),
        valid_utf8(bytes@) ==> r@ == decode_utf8(bytes@),
{
    String::from_utf8_lossy(bytes).into_owned()
}

// -------------------------------------------------------------------- windows

/// What is previewed of a file.
#[derive(Debug, Clone, Copy, PartialEq, Eq, Structural)]
pub enum PreviewKind {
    Pdf,
    Image,
    Text,
}

/// How a file is previewed, by its name.
pub fn preview_kind(path: &str) -> (r: PreviewKind)
    ensures
        r == (if crate::paths::ext_among(seq!["pdf"@], path@) {
            PreviewKind::Pdf
        } else if crate::paths::ext_among(crate::images::image_exts(), path@) {
            PreviewKind::Image
        } else {
            PreviewKind::Text
        }),
{
    if is_pdf_path(path) {
        PreviewKind::Pdf
    } else if is_image_path(path) {
        PreviewKind::Image
    } else {
        PreviewKind::Text
    }
}

/// A count, as far as lines can be counted.
pub open spec fn countable(n: int) -> int {
    if n > usize::MAX {
        usize::MAX as int
    } else {
        n
    }
}

/// The lines that are shown: forty around a line, or the first hundred.
pub open spec fn window(line_number: Option<u64>) -> (int, int) {
    match line_number {
        Some(n) => {
            let start = if n < 6 {
                0
            } else {
                n - 6
            };
            (countable(start), countable(start + 40))
        },
        None => (0, 100),
    }
}

fn find_window(line_number: Option<u64>) -> (r: (usize, usize))
    ensures
        (r.0 as int, r.1 as int) == window(line_number),
{
    match line_number {
        Some(n) => {
            let start: u64 = n.saturating_sub(6);
            let end: u64 = start.saturating_add(40);
            let limit: u64 = usize::MAX as u64;
            (
                if start > limit {
                    usize::MAX
                } else {
                    start as usize
                },
                if end > limit {
                    usize::MAX
                } else {
                    end as usize
                },
            )
        },
        None => (0, 100),
    }
}

/// The gutter of the line at index `i`, where the preview has one.
pub open spec fn gutter_of(line_number: Option<u64>, i: int) -> Option<Seq<char>> {
    if line_number is Some {
        Some(right_aligned(digits_of((i + 1) as nat), 5) + " "@)
    } else {
        None
    }
}

/// The lines of a window, with their numbers where it is centered on a line.
pub open spec fn windowed(all: Seq<Seq<SpanView>>, line_number: Option<u64>) -> Seq<ShownLine> {
    let (start, end) = window(line_number);
    let stop = if all.len() < end {
        all.len() as int
    } else {
        end
    };
    Seq::new(
        if start < stop {
            (stop - start) as nat
        } else {
            0
        },
        |k: int| (gutter_of(line_number, start + k), all[start + k]),
    )
}

/// The window of some lines around a line, or the first lines.
pub fn show_window(all: Vec<Vec<Span>>, line_number: Option<u64>) -> (r: Vec<PreviewLine>)
    ensures
        shown_lines(r@) == windowed(line_views(all@), line_number),
{
    let (start, end) = find_window(line_number);
    let ghost views = line_views(all@);
    let ghost target = windowed(views, line_number);
    let mut all = all;
    let mut out: Vec<PreviewLine> = Vec::new();
    let stop: usize = if all.len() < end {
        all.len()
    } else {
        end
    };
    let total: usize = all.len();
    let ghost (from, to) = window(line_number);
    let mut i: usize = 0;
    let mut rest: Vec<Vec<Span>> = Vec::new();
    while all.len() > 0
        invariant
            views.len() == total,
            all@.len() + rest@.len() == total,
            line_views(all@) == views.take(all@.len() as int),
            forall|k: int|
                0 <= k < rest@.len() ==> span_views((#[trigger] rest@[k])@) == views[total - 1 - k],
        decreases all@.len(),
    {
        let ghost before = all@;
        match all.pop() {
            Some(line) => {
                assert(span_views(line@) == line_views(before)[before.len() - 1]);
                rest.push(line);
                assert(line_views(all@) =~= views.take(all@.len() as int)) by {
                    assert(line_views(before) == views.take(before.len() as int));
                    assert forall|k: int| 0 <= k < all@.len() implies line_views(all@)[k]
                        == views[k] by {
                        assert(line_views(before)[k] == views.take(before.len() as int)[k]);
                    }
                }
            },
            None => {},
        }
    }
    while i < stop
        invariant
            i <= stop <= total,
            total == views.len(),
            rest@.len() == total - i,
            forall|k: int|
                0 <= k < rest@.len() ==> span_views((#[trigger] rest@[k])@) == views[total - 1 - k],
            (from, to) == window(line_number),
            target == windowed(views, line_number),
            stop == (if total < to {
                total as int
            } else {
                to
            }),
            start == from,
            out@.len() == (if i < from {
                0
            } else {
                i - from
            }),
            forall|k: int| 0 <= k < out@.len() ==> (#[trigger] out@[k])@ == target[k],
        decreases stop - i,
    {
        match rest.pop() {
            Some(spans) => {
                if i >= start {
                    let gutter = if line_number.is_some() {
                        let number = decimal_string(i as u64 + 1);
                        Some(joined(&align_right(&number, 5), " "))
                    } else {
                        None
                    };
                    out.push(PreviewLine { gutter, spans });
                }
            },
            None => {},
        }
        i += 1;
    }
    assert(shown_lines(out@) =~= target);
    out
}

// ------------------------------------------------------------------- contents

/// One unstyled line without a number.
pub open spec fn note(text: Seq<char>) -> Seq<ShownLine> {
    seq![(None, plain_line(text))]
}

/// A preview of one unstyled line.
pub fn note_line(text: &str) -> (r: Vec<PreviewLine>)
    ensures
        shown_lines(r@) == note(text@),
{
    let mut spans: Vec<Span> = Vec::new();
    let style = Style { fg: None, bold: false, italic: false, underlined: false };
    spans.push(Span { text: text.to_owned(), style });
    assert(span_views(spans@) =~= plain_line(text@));
    let mut out: Vec<PreviewLine> = Vec::new();
    out.push(PreviewLine { gutter: None, spans });
    assert(shown_lines(out@) =~= note(text@));
    out
}

/// The start of a file.
pub open spec fn read_part(bytes: Seq<u8>) -> Seq<u8> {
    if bytes.len() < PREVIEW_BYTES {
        bytes
    } else {
        bytes.take(PREVIEW_BYTES as int)
    }
}

/// The preview of a text file: highlighted, and centered on a matching line. A
/// file with a NUL byte is binary.
pub open spec fn file_lines(
    path: Seq<char>,
    bytes: Seq<u8>,
    line_number: Option<u64>,
    appearance: Appearance,
) -> Seq<ShownLine> {
    if bytes.contains(0u8) {
        note("(binary file)"@)
    } else {
        windowed(
            preview_of(path, lossy_text(read_part(bytes)), appearance, window(line_number).1),
            line_number,
        )
    }
}

fn has_nul(bytes: &Vec<u8>) -> (r: bool)
    ensures
        r == bytes@.contains(0u8),
{
    let mut i: usize = 0;
    while i < bytes.len()
        invariant
            i <= bytes@.len(),
            forall|k: int| 0 <= k < i ==> bytes@[k] != 0,
        decreases bytes@.len() - i,
    {
        if bytes[i] == 0 {
            assert(bytes@[i as int] == 0);
            return true;
        }
        i += 1;
    }
    false
}

/// The preview of a text file.
pub fn file_preview(
    styler: &Styler,
    path: &str,
    bytes: &Vec<u8>,
    line_number: Option<u64>,
    appearance: Appearance,
) -> (r: Vec<PreviewLine>)
    ensures
        shown_lines(r@) == file_lines(path@, bytes@, line_number, appearance),
{
    if has_nul(bytes) {
        return note_line("(binary file)");
    }
    let n: usize = if bytes.len() < PREVIEW_BYTES {
        bytes.len()
    } else {
        PREVIEW_BYTES
    };
    let part = vstd::slice::slice_subrange(bytes.as_slice(), 0, n);
    assert(part@ =~= read_part(bytes@));
    let text = decode_lossy(part);
    let (_start, end) = find_window(line_number);
    show_window(styler.highlight(path, &text, appearance, end), line_number)
}

/// The preview of extracted text: unstyled, and centered on a matching line.
pub open spec fn document_lines(text: Seq<char>, line_number: Option<u64>) -> Seq<ShownLine> {
    windowed(lines(text).map_values(|l: Seq<char>| plain_line(l)), line_number)
}

/// The preview of the text of a document.
pub fn document_preview(text: &str, line_number: Option<u64>) -> (r: Vec<PreviewLine>)
    ensures
        shown_lines(r@) == document_lines(text@, line_number),
{
    let all = split_lines(&chars_of(text));
    let ghost ls = lines(text@);
    let ghost plain = ls.map_values(|l: Seq<char>| plain_line(l));
    let mut styled: Vec<Vec<Span>> = Vec::new();
    let mut i: usize = 0;
    while i < all.len()
        invariant
            i <= all@.len(),
            texts(all@) == ls,
            plain == ls.map_values(|l: Seq<char>| plain_line(l)),
            styled@.len() == i,
            forall|k: int| 0 <= k < i ==> span_views((#[trigger] styled@[k])@) == plain[k],
        decreases all@.len() - i,
    {
        let mut spans: Vec<Span> = Vec::new();
        let style = Style { fg: None, bold: false, italic: false, underlined: false };
        assert(ls[i as int] == all@[i as int]@);
        spans.push(Span { text: all[i].as_str().to_owned(), style });
        assert(span_views(spans@) =~= plain_line(ls[i as int]));
        styled.push(spans);
        i += 1;
    }
    assert(line_views(styled@) =~= plain);
    show_window(styled, line_number)
}

/// A preview is never longer than its window.
pub proof fn previews_are_short(all: Seq<Seq<SpanView>>, line_number: Option<u64>)
    ensures
        windowed(all, line_number).len() <= (if line_number is Some {
            40nat
        } else {
            100nat
        }),
        windowed(all, line_number).len() <= all.len(),
{
}

/// A line that a preview is centered on is shown, with its number.
pub proof fn matching_lines_are_shown(all: Seq<Seq<SpanView>>, n: u64)
    requires
        1 <= n <= all.len() <= usize::MAX,
    ensures
        ({
            let k = if n < 6 {
                n - 1
            } else {
                5
            };
            let shown = windowed(all, Some(n));
            &&& k < shown.len()
            &&& shown[k] == (
                Some(right_aligned(digits_of(n as nat), 5) + " "@),
                all[n - 1],
            )
        }),
{
}

// ---------------------------------------------------------------- directories

/// How many children of a directory are listed.
pub const MAX_LISTED: usize = 200;

/// A child of a directory.
#[derive(Debug, PartialEq)]
pub struct Child {
    pub is_dir: bool,
    pub name: String,
}

/// Folders come first, then names in order.
pub open spec fn listed_before(a: (bool, Seq<char>), b: (bool, Seq<char>)) -> bool {
    if a.0 != b.0 {
        a.0
    } else {
        text_lt(a.1, b.1)
    }
}

impl View for Child {
    type V = (bool, Seq<char>);

    open spec fn view(&self) -> (bool, Seq<char>) {
        (self.is_dir, self.name@)
    }
}

impl Ordered for Child {
    open spec fn before(&self, other: &Self) -> bool {
        listed_before(self@, other@)
    }

    proof fn order_laws(a: &Self, b: &Self, c: &Self) {
        let (x, y, z) = (a.name@, b.name@, c.name@);
        lemma_text_order(x, y, z);
    }

    fn comes_before(&self, other: &Self) -> (r: bool) {
        if self.is_dir != other.is_dir {
            self.is_dir
        } else {
            text_less(&self.name, &other.name)
        }
    }
}

/// The first children of a directory when they are sorted, folders first.
pub open spec fn is_listing(children: Seq<Child>, shown: Seq<Child>) -> bool {
    exists|all: Seq<Child>|
        {
            &&& is_sorted(all)
            &&& all.to_multiset() == children.to_multiset()
            &&& shown == #[trigger] crate::matcher::head(all, MAX_LISTED as int)
        }
}

/// The preview of a directory: its children, folders first.
pub fn directory_listing(children: Vec<Child>) -> (r: Vec<Child>)
    ensures
        is_listing(children@, r@),
{
    let ghost before = children@;
    let mut all = sort(children);
    let ghost sorted = all@;
    if all.len() > MAX_LISTED {
        all.truncate(MAX_LISTED);
    }
    assert(all@ =~= crate::matcher::head(sorted, MAX_LISTED as int));
    all
}


/// A preview shows lines that follow each other, from the first to the
/// hundredth, or forty around a match, each then with its own number.
pub proof fn previews_show_consecutive_lines(all: Seq<Seq<SpanView>>, n: u64, k: int)
    requires
        1 <= n <= all.len() <= usize::MAX,
    ensures
        windowed(all, None).len() == if all.len() < 100 {
            all.len()
        } else {
            100nat
        },
        0 <= k < windowed(all, None).len() ==> windowed(all, None)[k] == (
            None::<Seq<char>>,
            all[k],
        ),
        ({
            let shown = windowed(all, Some(n));
            let first = if n <= 6 {
                0
            } else {
                n - 6
            };
            &&& shown.len() == if all.len() - first < 40 {
                all.len() - first
            } else {
                40
            }
            &&& 0 <= k < shown.len() ==> shown[k] == (
                Some(right_aligned(digits_of((first + k + 1) as nat), 5) + " "@),
                all[first + k],
            )
        }),
{
}

/// A directory lists its folders before its files, both in the order of their
/// names.
pub proof fn folders_come_before_files(a: Child, b: Child)
    ensures
        a.is_dir && !b.is_dir ==> a.before(&b) && !b.before(&a),
        a.is_dir == b.is_dir && text_lt(a.name@, b.name@) ==> a.before(&b) && !b.before(&a),
{
    lemma_text_order(a.name@, b.name@, a.name@);
}

} // verus!
