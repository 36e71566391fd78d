//! Syntax highlighting of previews.

use crate::paths::{extension, extension_of};
use crate::text::{
    chars_of, lemma_newline_from, lines, lines_from, newline_from, split_lines, texts,
};
use crate::theme::Color;
use syntect::easy::HighlightLines;
use syntect::parsing::{SyntaxReference, SyntaxSet};
use two_face::theme::LazyThemeSet;
use vstd::prelude::*;
use vstd::string::*;
use vstd::utf8::*;

verus! {

#[derive(Debug, Clone, Copy, PartialEq, Eq, Structural)]
pub enum Appearance {
    Dark,
    Light,
}

impl Default for Appearance {
    fn default() -> (r: Appearance)
        ensures
            r == Appearance::Dark,
    {
        Appearance::Dark
    }
}

/// How a piece of text is drawn. There is no background: the terminal's own
/// ground shows through.
#[derive(Debug, Clone, Copy, PartialEq, Eq, Structural)]
pub struct Style {
    pub fg: Option<Color>,
    pub bold: bool,
    pub italic: bool,
    pub underlined: bool,
}

/// The style of unstyled text.
pub open spec fn plain_style() -> Style {
    Style { fg: None, bold: false, italic: false, underlined: false }
}

/// A piece of text in one style.
#[derive(Debug, PartialEq)]
pub struct Span {
    pub text: String,
    pub style: Style,
}

/// The model of a [`Span`].
pub type SpanView = (Seq<char>, Style);

impl View for Span {
    type V = SpanView;

    open spec fn view(&self) -> SpanView {
        (self.text@, self.style)
    }
}

/// The model of a line of spans.
pub open spec fn span_views(spans: Seq<Span>) -> Seq<SpanView> {
    spans.map_values(|s: Span| s@)
}

/// The model of some lines of spans.
pub open spec fn line_views(all: Seq<Vec<Span>>) -> Seq<Seq<SpanView>> {
    all.map_values(|l: Vec<Span>| span_views(l@))
}

// ------------------------------------------------------------ outside calls

/// The color and font of a region as the highlighter reports it: red, green,
/// blue, alpha and the font bits (1 bold, 2 underlined, 4 italic).
pub type RawStyle = (u8, u8, u8, u8, u8);

/// Regions of a line, with their texts.
pub open spec fn region_views(regions: Seq<(RawStyle, String)>) -> Seq<(RawStyle, Seq<char>)> {
    regions.map_values(|r: (RawStyle, String)| (r.0, r.1@))
}

/// The text of the first `n` regions.
pub open spec fn region_text(regions: Seq<(RawStyle, Seq<char>)>, n: int) -> Seq<char>
    decreases n,
{
    if n <= 0 {
        Seq::empty()
    } else {
        region_text(regions, n - 1) + regions[n - 1].1
    }
}

/// The text of a line of spans.
pub open spec fn span_text(spans: Seq<SpanView>) -> Seq<char>
    decreases spans.len(),
{
    if spans.len() == 0 {
        Seq::empty()
    } else {
        span_text(spans.drop_last()) + spans.last().0
    }
}

/// A set of syntaxes.
#[verifier::external_type_specification]
#[verifier::external_body]
pub struct ExSyntaxSet(syntect::parsing::SyntaxSet);

/// A syntax of a set.
#[verifier::external_type_specification]
#[verifier::external_body]
pub struct ExSyntaxReference(syntect::parsing::SyntaxReference);

/// A set of color themes.
#[verifier::external_type_specification]
#[verifier::external_body]
pub struct ExLazyThemeSet(two_face::theme::LazyThemeSet);

/// A highlighter in the middle of a file.
#[verifier::external_type_specification]
#[verifier::external_body]
pub struct ExHighlightLines<'a>(syntect::easy::HighlightLines<'a>);

/// The set holds the syntaxes that are bundled.
pub uninterp spec fn holds_bundled(set: SyntaxSet) -> bool;

/// The set holds the themes that are bundled.
pub uninterp spec fn holds_bundled_themes(set: LazyThemeSet) -> bool;

/// A syntax is what the bundled ones hold for an extension, or else for a first
/// line.
pub uninterp spec fn found_by(syntax: SyntaxReference, source: (bool, Seq<char>)) -> bool;

/// The bundled syntaxes have one for a file extension.
pub uninterp spec fn extension_has_syntax(ext: Seq<char>) -> bool;

/// The bundled syntaxes have one for a first line, such as a shebang.
pub uninterp spec fn first_line_has_syntax(line: Seq<char>) -> bool;

/// A highlighter is in the state after these lines, for a syntax that is found by
/// `source` and a bundled theme.
pub uninterp spec fn has_seen(
    h: HighlightLines<'_>,
    source: (bool, Seq<char>),
    theme: Seq<char>,
    lines: Seq<Seq<char>>,
) -> bool;

/// The bundled themes have one of the name.
pub uninterp spec fn has_theme(name: Seq<char>) -> bool;

/// The regions of a line, after other lines: what the syntax was looked up by,
/// the theme, the lines before, the line. Nothing if the highlighter fails.
pub uninterp spec fn line_regions(
    source: (bool, Seq<char>),
    theme: Seq<char>,
    before: Seq<Seq<char>>,
    line: Seq<char>,
) -> Option<Seq<(RawStyle, Seq<char>)>>;

/// Regions that were found, with their texts.
pub open spec fn found_regions(r: Option<Vec<(RawStyle, String)>>) -> Option<
    Seq<(RawStyle, Seq<char>)>,
> {
    match r {
        Some(regions) => Some(region_views(regions@)),
        None => None,
    }
}

/// `two_face::syntax::extra_newlines`: the bundled syntaxes.
#[verifier::external_body]
fn bundled_syntaxes() -> (r: SyntaxSet)
    ensures
        holds_bundled(r),
{
    two_face::syntax::extra_newlines()
}

/// `two_face::theme::extra`: the bundled themes.
#[verifier::external_body]
fn bundled_themes() -> (r: LazyThemeSet)
    ensures
        holds_bundled_themes(r),
{
    two_face::theme::extra().into()
}

/// `syntect::parsing::SyntaxSet::find_syntax_by_extension` on the bundled
/// syntaxes: whether there is one is a function of the extension.
#[verifier::external_body]
fn find_by_extension<'a>(set: &'a SyntaxSet, ext: &str) -> (r: Option<&'a SyntaxReference>)
    requires
        holds_bundled(*set),
    ensures
        r is Some == extension_has_syntax(ext@),
        r matches Some(s) ==> found_by(*s, (true, ext@)),
{
    set.find_syntax_by_extension(ext)
}

/// `syntect::parsing::SyntaxSet::find_syntax_by_first_line` on the bundled
/// syntaxes: whether there is one is a function of the line.
#[verifier::external_body]
fn find_by_first_line<'a>(set: &'a SyntaxSet, line: &str) -> (r: Option<&'a SyntaxReference>)
    requires
        holds_bundled(*set),
    ensures
        r is Some == first_line_has_syntax(line@),
        r matches Some(s) ==> found_by(*s, (false, line@)),
{
    set.find_syntax_by_first_line(line)
}

/// `two_face::theme::LazyThemeSet::get` and `syntect::easy::HighlightLines::new`:
/// a highlighter that has seen no line, where the bundled themes have one of the
/// name.
#[verifier::external_body]
fn start_highlighter<'a>(
    syntax: &SyntaxReference,
    themes: &'a LazyThemeSet,
    theme: &str,
) -> (r: Option<HighlightLines<'a>>)
    requires
        holds_bundled_themes(*themes),
    ensures
        r is Some == has_theme(theme@),
        r matches Some(h) ==> forall|source: (bool, Seq<char>)| #[trigger]
            found_by(*syntax, source) ==> has_seen(h, source, theme@, Seq::empty()),
{
    themes.get(theme).map(|t| HighlightLines::new(syntax, t))
}

/// `syntect::easy::HighlightLines::highlight_line` on the bundled syntaxes: the
/// regions are a function of the syntax, the theme, the lines before, and the
/// line. One after another they are the line, or its start where the iteration
/// over the regions ends before the line does.
#[verifier::external_body]
fn next_line(h: &mut HighlightLines<'_>, line: &str, set: &SyntaxSet) -> (r: Option<
    Vec<(RawStyle, String)>,
>)
    requires
        holds_bundled(*set),
    ensures
        forall|source: (bool, Seq<char>), theme: Seq<char>, before: Seq<Seq<char>>| #[trigger]
            has_seen(*old(h), source, theme, before) ==> found_regions(r) == line_regions(
                source,
                theme,
                before,
                line@,
            ) && has_seen(*final(h), source, theme, before.push(line@)),
        r matches Some(regions) ==> region_text(
            region_views(regions@),
            regions@.len() as int,
        ).is_prefix_of(line@),
{
    let regions = h.highlight_line(line, set).ok()?;
    let plain = regions.into_iter().map(|(s, t)| {
        let c = s.foreground;
        ((c.r, c.g, c.b, c.a, s.font_style.bits()), t.to_string())
    });
    Some(plain.collect())
}

// -------------------------------------------------------------------- styles

/// The alpha-channel convention of themes that encode terminal-palette colors:
/// alpha 0 carries a palette index in red, alpha 1 is the terminal's default.
pub open spec fn region_color(s: RawStyle) -> Option<Color> {
    if s.3 == 0 {
        Some(Color::Indexed(s.0))
    } else if s.3 == 1 {
        None
    } else {
        Some(Color::Rgb(s.0, s.1, s.2))
    }
}

pub fn convert_color(s: RawStyle) -> (r: Option<Color>)
    ensures
        r == region_color(s),
{
    if s.3 == 0 {
        Some(Color::Indexed(s.0))
    } else if s.3 == 1 {
        None
    } else {
        Some(Color::Rgb(s.0, s.1, s.2))
    }
}

pub open spec fn region_style(s: RawStyle) -> Style {
    Style {
        fg: region_color(s),
        bold: s.4 % 2 == 1,
        underlined: s.4 / 2 % 2 == 1,
        italic: s.4 / 4 % 2 == 1,
    }
}

pub fn convert_style(s: RawStyle) -> (r: Style)
    ensures
        r == region_style(s),
{
    Style {
        fg: convert_color(s),
        bold: s.4 % 2 == 1,
        underlined: s.4 / 2 % 2 == 1,
        italic: s.4 / 4 % 2 == 1,
    }
}

/// The length of a text without the newlines at its end.
pub open spec fn without_newlines(s: Seq<char>, n: int) -> int
    decreases n,
{
    if n > 0 && s[n - 1] == '\n' {
        without_newlines(s, n - 1)
    } else {
        n
    }
}

/// The spans of the first `n` regions: newlines at the end of a region are cut,
/// and what is empty then is left out.
pub open spec fn spans_of(regions: Seq<(RawStyle, Seq<char>)>, n: int) -> Seq<SpanView>
    decreases n,
{
    if n <= 0 {
        Seq::empty()
    } else {
        let before = spans_of(regions, n - 1);
        let (style, text) = regions[n - 1];
        let end = without_newlines(text, text.len() as int);
        if end > 0 {
            before.push((text.take(end), region_style(style)))
        } else {
            before
        }
    }
}

/// The spans of the regions of a line.
pub fn spans_from(regions: &Vec<(RawStyle, String)>) -> (r: Vec<Span>)
    ensures
        span_views(r@) == spans_of(region_views(regions@), regions@.len() as int),
{
    let ghost views = region_views(regions@);
    let mut out: Vec<Span> = Vec::new();
    let mut i: usize = 0;
    assert(span_views(out@) =~= Seq::empty());
    while i < regions.len()
        invariant
            i <= regions@.len(),
            views == region_views(regions@),
            span_views(out@) == spans_of(views, i as int),
        decreases regions@.len() - i,
    {
        let text = chars_of(regions[i].1.as_str());
        let mut end: usize = text.len();
        while end > 0 && text[end - 1] == '\n'
            invariant
                end <= text@.len(),
                without_newlines(text@, text@.len() as int) == without_newlines(text@, end as int),
            decreases end,
        {
            end -= 1;
        }
        if end > 0 {
            let ghost before = out@;
            let shown = crate::text::string_of_range(&text, 0, end);
            assert(shown@ =~= text@.take(end as int));
            let style = convert_style(regions[i].0);
            out.push(Span { text: shown, style });
            assert(span_views(out@) =~= span_views(before).push((shown@, style)));
        }
        i += 1;
    }
    out
}

// ------------------------------------------------------------------ previews

/// Longer lines, such as minified code, are not highlighted.
pub const MAX_LINE_LEN: usize = 2048;

/// The theme of an appearance.
pub open spec fn theme_name(appearance: Appearance) -> Seq<char> {
    match appearance {
        Appearance::Dark => "OneHalfDark"@,
        Appearance::Light => "OneHalfLight"@,
    }
}

/// What the syntax of a file is looked up by: the extension, or else the first
/// line.
pub open spec fn source_for(path: Seq<char>, ls: Seq<Seq<char>>) -> Option<(bool, Seq<char>)> {
    let first = if ls.len() > 0 {
        ls[0]
    } else {
        Seq::empty()
    };
    if extension(path) is Some && extension_has_syntax(extension(path)->Some_0) {
        Some((true, extension(path)->Some_0))
    } else if first_line_has_syntax(first) {
        Some((false, first))
    } else {
        None
    }
}

/// A line without styles.
pub open spec fn plain_line(line: Seq<char>) -> Seq<SpanView> {
    seq![(line, plain_style())]
}

/// The first `n` lines highlighted, and the lines that the highlighter has seen
/// by then.
pub open spec fn highlighted(
    source: (bool, Seq<char>),
    theme: Seq<char>,
    ls: Seq<Seq<char>>,
    n: int,
) -> (Seq<Seq<SpanView>>, Seq<Seq<char>>)
    decreases n,
{
    if n <= 0 {
        (Seq::empty(), Seq::empty())
    } else {
        let (out, fed) = highlighted(source, theme, ls, n - 1);
        let line = ls[n - 1];
        let whole = line + "\n"@;
        if encode_utf8(line).len() > MAX_LINE_LEN {
            (out.push(plain_line(line)), fed)
        } else {
            match line_regions(source, theme, fed, whole) {
                Some(regions) => (
                    out.push(spans_of(regions, regions.len() as int)),
                    fed.push(whole),
                ),
                None => (out.push(plain_line(line)), fed.push(whole)),
            }
        }
    }
}

/// A preview of at most `max_lines` lines.
pub open spec fn preview_of(
    path: Seq<char>,
    text: Seq<char>,
    appearance: Appearance,
    max_lines: int,
) -> Seq<Seq<SpanView>> {
    let ls = lines(text);
    let n = if ls.len() < max_lines {
        ls.len() as int
    } else {
        max_lines
    };
    let theme = theme_name(appearance);
    match source_for(path, ls) {
        Some(source) => if has_theme(theme) {
            highlighted(source, theme, ls, n).0
        } else {
            Seq::new(n as nat, |i: int| plain_line(ls[i]))
        },
        None => Seq::new(n as nat, |i: int| plain_line(ls[i])),
    }
}

proof fn lemma_plain_text(line: Seq<char>)
    ensures
        span_text(plain_line(line)) == line,
{
    let spans = plain_line(line);
    assert(spans.drop_last() =~= Seq::empty());
    assert(span_text(spans.drop_last()) =~= Seq::empty());
    assert(span_text(spans) =~= line);
}

proof fn lemma_lines_unbroken(s: Seq<char>, i: int)
    requires
        0 <= i <= s.len(),
    ensures
        forall|k: int|
            0 <= k < lines_from(s, i).len() ==> !(#[trigger] lines_from(s, i)[k]).contains('\n'),
    decreases s.len() - i,
{
    if i < s.len() {
        lemma_newline_from(s, i);
        let end = newline_from(s, i);
        if end < s.len() {
            lemma_lines_unbroken(s, end + 1);
        }
        assert forall|k: int| 0 <= k < lines_from(s, i).len() implies !(#[trigger] lines_from(
            s,
            i,
        )[k]).contains('\n') by {
            if k > 0 {
                assert(lines_from(s, i)[k] == lines_from(s, end + 1)[k - 1]);
            }
        }
    }
}

proof fn lemma_unbroken_spans(regions: Seq<(RawStyle, Seq<char>)>, n: int)
    requires
        n <= regions.len(),
        !region_text(regions, n).contains('\n'),
    ensures
        span_text(spans_of(regions, n)) == region_text(regions, n),
    decreases n,
{
    if n > 0 {
        let before = region_text(regions, n - 1);
        let text = regions[n - 1].1;
        let all = region_text(regions, n);
        assert forall|i: int| 0 <= i < before.len() implies before[i] != '\n' by {
            assert(all[i] == before[i]);
            assert(all.contains(all[i]));
        }
        lemma_unbroken_spans(regions, n - 1);
        if text.len() > 0 {
            assert(all[before.len() + text.len() - 1] == text.last());
            assert(all.contains(text.last()));
            assert(text.take(text.len() as int) =~= text);
            let spans = spans_of(regions, n - 1);
            assert(spans_of(regions, n).drop_last() =~= spans);
        } else {
            assert(all =~= before);
        }
    }
}

proof fn lemma_spans_keep_text(regions: Seq<(RawStyle, Seq<char>)>, n: int, line: Seq<char>)
    requires
        n <= regions.len(),
        region_text(regions, n) == line.push('\n'),
        !line.contains('\n'),
    ensures
        span_text(spans_of(regions, n)) == line,
    decreases n,
{
    if n > 0 {
        let before = region_text(regions, n - 1);
        let text = regions[n - 1].1;
        let all = region_text(regions, n);
        if text.len() == 0 {
            assert(all =~= before);
            lemma_spans_keep_text(regions, n - 1, line);
        } else {
            assert(all == before + text);
            assert(line =~= all.drop_last());
            assert(all.last() == text.last());
            assert forall|i: int| 0 <= i < before.len() implies before[i] != '\n' by {
                assert(all[i] == before[i]);
                assert(line[i] == before[i]);
                assert(line.contains(line[i]));
            }
            lemma_unbroken_spans(regions, n - 1);
            let end = text.len() - 1;
            if end > 0 {
                assert(all[before.len() + end - 1] == text[end - 1]);
                assert(line[before.len() + end - 1] == text[end - 1]);
                assert(line.contains(text[end - 1]));
            }
            assert(without_newlines(text, text.len() as int) == end) by {
                reveal_with_fuel(without_newlines, 2);
            }
            let spans = spans_of(regions, n - 1);
            if end > 0 {
                assert(spans_of(regions, n).drop_last() =~= spans);
                assert(before + text.take(end) =~= line);
            } else {
                assert(before =~= line);
            }
        }
    }
}

proof fn lemma_spans_are_prefix(regions: Seq<(RawStyle, Seq<char>)>, n: int, line: Seq<char>)
    requires
        0 <= n <= regions.len(),
        region_text(regions, n).is_prefix_of(line.push('\n')),
        !line.contains('\n'),
    ensures
        span_text(spans_of(regions, n)).is_prefix_of(line),
{
    let all = region_text(regions, n);
    let whole = line.push('\n');
    if all.len() == whole.len() {
        assert(all =~= whole);
        lemma_spans_keep_text(regions, n, line);
    } else {
        assert forall|k: int| 0 <= k < all.len() implies all[k] == line[k] by {
            assert(all[k] == whole.subrange(0, all.len() as int)[k]);
        }
        assert(!all.contains('\n'));
        lemma_unbroken_spans(regions, n);
        assert(all =~= line.subrange(0, all.len() as int));
    }
}

fn plain_spans(line: &str) -> (r: Vec<Span>)
    ensures
        span_views(r@) == plain_line(line@),
{
    let style = Style { fg: None, bold: false, italic: false, underlined: false };
    let mut out: Vec<Span> = Vec::new();
    out.push(Span { text: line.to_owned(), style });
    assert(span_views(out@) =~= plain_line(line@));
    out
}

/// The bundled syntaxes and themes.
pub struct Styler {
    set: SyntaxSet,
    themes: LazyThemeSet,
}

impl Styler {
    #[verifier::type_invariant]
    spec fn is_loaded(self) -> bool {
        holds_bundled(self.set) && holds_bundled_themes(self.themes)
    }

    pub fn new() -> Styler {
        Styler { set: bundled_syntaxes(), themes: bundled_themes() }
    }

    /// Highlights up to `max_lines` of `text` as the language guessed from
    /// `path`'s extension (or the first line, e.g. shebangs). Unknown languages
    /// and over-long lines fall back to unstyled text.
    pub fn highlight(&self, path: &str, text: &str, appearance: Appearance, max_lines: usize) -> (r:
        Vec<Vec<Span>>)
        ensures
            line_views(r@) == preview_of(path@, text@, appearance, max_lines as int),
            forall|i: int|
                0 <= i < r@.len() ==> span_text(#[trigger] line_views(r@)[i]).is_prefix_of(lines(text@)[i]),
    {
        proof {
            use_type_invariant(self);
        }
        let all = split_lines(&chars_of(text));
        let ghost ls = lines(text@);
        assert(texts(all@) == ls);
        let n: usize = if all.len() < max_lines {
            all.len()
        } else {
            max_lines
        };
        let first: &str = if all.len() > 0 {
            assert(ls[0] == all@[0]@);
            all[0].as_str()
        } else {
            proof {
                reveal_strlit("");
                assert(""@ =~= Seq::empty());
            }
            ""
        };
        let by_extension = match extension_of(path) {
            Some(ext) => find_by_extension(&self.set, ext.as_str()),
            None => None,
        };
        let syntax = match by_extension {
            Some(syntax) => Some(syntax),
            None => find_by_first_line(&self.set, first),
        };
        let theme = match appearance {
            Appearance::Dark => "OneHalfDark",
            Appearance::Light => "OneHalfLight",
        };
        let started = match syntax {
            Some(syntax) => start_highlighter(syntax, &self.themes, theme),
            None => None,
        };
        match started {
            Some(h) => {
                proof {
                    lemma_lines_unbroken(text@, 0);
                }
                let ghost source = source_for(path@, ls)->Some_0;
                self.color(&all, n, h, Ghost(source), Ghost(theme@))
            },
            None => {
                let mut out: Vec<Vec<Span>> = Vec::new();
                let ghost plain = Seq::new(n as nat, |i: int| plain_line(ls[i]));
                let mut i: usize = 0;
                while i < n
                    invariant
                        i <= n <= all@.len(),
                        texts(all@) == ls,
                        plain == Seq::new(n as nat, |i: int| plain_line(ls[i])),
                        out@.len() == i,
                        forall|k: int| 0 <= k < i ==> span_views((#[trigger] out@[k])@) == plain[k],
                    decreases n - i,
                {
                    assert(ls[i as int] == all@[i as int]@);
                    out.push(plain_spans(all[i].as_str()));
                    i += 1;
                }
                assert(line_views(out@) =~= plain);
                assert forall|i: int| 0 <= i < out@.len() implies span_text(
                    #[trigger] line_views(out@)[i],
                ).is_prefix_of(ls[i]) by {
                    lemma_plain_text(ls[i]);
                }
                out
            },
        }
    }

    fn color(
        &self,
        all: &Vec<String>,
        n: usize,
        h: HighlightLines<'_>,
        Ghost(source): Ghost<(bool, Seq<char>)>,
        Ghost(theme): Ghost<Seq<char>>,
    ) -> (r: Vec<Vec<Span>>)
        requires
            n <= all@.len(),
            has_seen(h, source, theme, Seq::empty()),
            forall|i: int| 0 <= i < n ==> !(#[trigger] texts(all@)[i]).contains('\n'),
        ensures
            line_views(r@) == highlighted(source, theme, texts(all@), n as int).0,
            r@.len() == n,
            forall|i: int|
                0 <= i < n ==> span_text(#[trigger] line_views(r@)[i]).is_prefix_of(texts(all@)[i]),
    {
        proof {
            use_type_invariant(self);
        }
        let ghost ls = texts(all@);
        let mut h = h;
        let mut out: Vec<Vec<Span>> = Vec::new();
        let mut i: usize = 0;
        assert(line_views(out@) =~= Seq::empty());
        while i < n
            invariant
                i <= n <= all@.len(),
                ls == texts(all@),
                holds_bundled(self.set),
                line_views(out@) == highlighted(source, theme, ls, i as int).0,
                has_seen(h, source, theme, highlighted(source, theme, ls, i as int).1),
                forall|k: int| 0 <= k < n ==> !(#[trigger] ls[k]).contains('\n'),
                out@.len() == i,
                forall|k: int|
                    0 <= k < i ==> span_text(#[trigger] line_views(out@)[k]).is_prefix_of(ls[k]),
            decreases n - i,
        {
            let line = all[i].as_str();
            assert(ls[i as int] == line@);
            let ghost before = out@;
            proof {
                lemma_plain_text(line@);
            }
            if line.as_bytes().len() > MAX_LINE_LEN {
                out.push(plain_spans(line));
            } else {
                let whole = crate::text::joined(line, "\n");
                match next_line(&mut h, whole.as_str(), &self.set) {
                    Some(regions) => {
                        proof {
                            reveal_strlit("\n");
                            assert(whole@ =~= line@.push('\n'));
                            lemma_spans_are_prefix(
                                region_views(regions@),
                                regions@.len() as int,
                                line@,
                            );
                        }
                        out.push(spans_from(&regions));
                    },
                    None => {
                        out.push(plain_spans(line));
                    },
                }
            }
            let ghost shown = span_views(out@.last()@);
            assert(line_views(out@) =~= line_views(before).push(shown));
            assert(span_text(shown).is_prefix_of(line@));
            i += 1;
            assert forall|k: int| 0 <= k < i implies span_text(
                #[trigger] line_views(out@)[k],
            ).is_prefix_of(ls[k]) by {
                if k < i - 1 {
                    assert(line_views(out@)[k] == line_views(before)[k]);
                }
            }
        }
        out
    }
}

/// Highlights one preview; [`Styler`] keeps the syntaxes for more.
pub fn highlight(path: &str, text: &str, appearance: Appearance, max_lines: usize) -> (r: Vec<
    Vec<Span>,
>)
    ensures
        line_views(r@) == preview_of(path@, text@, appearance, max_lines as int),
        forall|i: int|
            0 <= i < r@.len() ==> span_text(#[trigger] line_views(r@)[i]).is_prefix_of(lines(text@)[i]),
{
    Styler::new().highlight(path, text, appearance, max_lines)
}


// ---------------------------------------------------------------------- laws

proof fn lemma_newlines_cut(s: Seq<char>, k: int, n: int)
    requires
        0 <= k <= n <= s.len(),
        forall|i: int| k <= i < n ==> s[i] == '\n',
        k == 0 || s[k - 1] != '\n',
    ensures
        without_newlines(s, n) == k,
    decreases n,
{
    if k < n {
        assert(s[n - 1] == '\n');
        lemma_newlines_cut(s, k, n - 1);
    }
}

/// A highlighted line shows what its regions say, in their order and each in its
/// style; only the newlines at the end of a region are left out, and no span is
/// empty.
pub proof fn spans_show_their_regions(
    regions: Seq<(RawStyle, Seq<char>)>,
    n: int,
    text: Seq<char>,
    newlines: Seq<char>,
)
    requires
        0 <= n < regions.len(),
        regions[n].1 == text + newlines,
        text.len() == 0 || text.last() != '\n',
        forall|i: int| 0 <= i < newlines.len() ==> #[trigger] newlines[i] == '\n',
    ensures
        spans_of(regions, 0).len() == 0,
        text.len() == 0 ==> spans_of(regions, n + 1) == spans_of(regions, n),
        text.len() > 0 ==> spans_of(regions, n + 1) == spans_of(regions, n).push(
            (text, region_style(regions[n].0)),
        ),
        span_text(spans_of(regions, n + 1)) == span_text(spans_of(regions, n)) + text,
{
    let s = regions[n].1;
    let k = text.len() as int;
    assert forall|i: int| k <= i < s.len() implies s[i] == '\n' by {
        assert(s[i] == newlines[i - k]);
    }
    if k > 0 {
        assert(s[k - 1] == text.last());
    }
    lemma_newlines_cut(s, k, s.len() as int);
    assert(s.take(k) =~= text);
    let before = spans_of(regions, n);
    if k > 0 {
        let all = before.push((text, region_style(regions[n].0)));
        assert(all.drop_last() =~= before);
        assert(span_text(all) == span_text(before) + text);
    } else {
        assert(span_text(before) + text =~= span_text(before));
    }
}

/// A preview has a line for each line of the text, up to the limit. A line that is
/// too long to be highlighted is shown as it is.
pub proof fn previews_have_a_line_for_each(
    source: (bool, Seq<char>),
    theme: Seq<char>,
    ls: Seq<Seq<char>>,
    n: int,
    i: int,
)
    requires
        0 <= i < n <= ls.len(),
    ensures
        highlighted(source, theme, ls, n).0.len() == n,
        encode_utf8(ls[i]).len() > MAX_LINE_LEN ==> highlighted(source, theme, ls, n).0[i] == seq![
            (ls[i], Style { fg: None, bold: false, italic: false, underlined: false }),
        ],
    decreases n,
{
    if i < n - 1 {
        previews_have_a_line_for_each(source, theme, ls, n - 1, i);
    } else {
        if n > 1 {
            previews_have_a_line_for_each(source, theme, ls, n - 1, 0);
        }
        assert(highlighted(source, theme, ls, n - 1).0.len() == n - 1);
    }
}

} // verus!
