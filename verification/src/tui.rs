//! The state of the interactive interface: the query line, the history, the
//! selection and the marked rows, the actions menu, the help and the preview.

use crate::engine::Mode;
use crate::fusion::{row_views, text_option, ResultRow, RowView};
use crate::keymap::{held, Action, Key, KeyCode, KeyModifiers, Keymap};
use crate::rows::Density;
use crate::text::{
    char_is_space, chars_of, is_space, joined, lemma_texts_push, same, string_of,
    string_of_range, texts, trim, trimmed,
};
use vstd::prelude::*;
use vstd::string::*;
use vstd::utf8::*;

verus! {

/// How far a page key scrolls the preview.
pub const PREVIEW_SCROLL_PAGE: usize = 20;

/// Where the preview lives. Full trades the results list for a much larger
/// canvas.
#[derive(Debug, Clone, Copy, PartialEq, Eq, Structural)]
pub enum PreviewLayout {
    Side,
    Full,
    Hidden,
}

impl Default for PreviewLayout {
    fn default() -> (r: PreviewLayout)
        ensures
            r == PreviewLayout::Side,
    {
        PreviewLayout::Side
    }
}

impl PreviewLayout {
    pub open spec fn following(self) -> PreviewLayout {
        match self {
            PreviewLayout::Side => PreviewLayout::Full,
            PreviewLayout::Full => PreviewLayout::Hidden,
            PreviewLayout::Hidden => PreviewLayout::Side,
        }
    }

    pub fn next(self) -> (r: PreviewLayout)
        ensures
            r == self.following(),
    {
        match self {
            PreviewLayout::Side => PreviewLayout::Full,
            PreviewLayout::Full => PreviewLayout::Hidden,
            PreviewLayout::Hidden => PreviewLayout::Side,
        }
    }
}

/// Going through the layouts comes back to the first.
pub proof fn layouts_cycle(l: PreviewLayout)
    ensures
        l.following().following().following() == l,
        l.following() != l,
        l.following().following() != l,
{
}

/// What Enter does: open the file, or print its path and exit (`--pick`).
#[derive(Debug, Clone, Copy, PartialEq, Eq, Structural)]
pub enum UiMode {
    Open,
    Pick,
}

impl Default for UiMode {
    fn default() -> (r: UiMode)
        ensures
            r == UiMode::Open,
    {
        UiMode::Open
    }
}

/// How many entries the actions menu has.
pub const MENU_LEN: usize = 5;

/// The entries of the actions menu.
pub open spec fn menu_labels() -> Seq<Seq<char>> {
    seq!["open"@, "reveal in finder"@, "copy path"@, "quick look"@, "move to trash"@]
}

pub fn menu() -> (r: Vec<&'static str>)
    ensures
        crate::text::str_texts(r@) == menu_labels(),
{
    let r: Vec<&'static str> = vec![
        "open",
        "reveal in finder",
        "copy path",
        "quick look",
        "move to trash",
    ];
    assert(crate::text::str_texts(r@) =~= menu_labels());
    r
}

/// What is done with a file.
#[derive(Debug, Clone, Copy, PartialEq, Eq, Structural)]
pub enum FileAction {
    Open,
    Reveal,
    Copy,
    QuickLook,
    Trash,
}

impl FileAction {
    pub open spec fn done(self) -> Seq<char> {
        match self {
            FileAction::Open => "opened: "@,
            FileAction::Reveal => "revealed: "@,
            FileAction::Copy => "copied: "@,
            FileAction::QuickLook => "quick look: "@,
            FileAction::Trash => "trashed: "@,
        }
    }

    fn done_text(self) -> (r: &'static str)
        ensures
            r@ == self.done(),
    {
        match self {
            FileAction::Open => "opened: ",
            FileAction::Reveal => "revealed: ",
            FileAction::Copy => "copied: ",
            FileAction::QuickLook => "quick look: ",
            FileAction::Trash => "trashed: ",
        }
    }
}

// --------------------------------------------------------------------- state

/// The state of the interface.
pub struct App {
    input: Vec<char>,
    cursor: usize,
    selected: usize,
    regex_mode: bool,
    preview_layout: PreviewLayout,
    density: Density,
    message: Option<String>,
    ui_mode: UiMode,
    picked: Option<String>,
    menu: Option<usize>,
    help: bool,
    folded: bool,
    marks: Vec<String>,
    history: Vec<String>,
    history_pos: Option<usize>,
    preview_for: Option<(String, Option<u64>)>,
    preview_gen: u64,
    preview_scroll: usize,
}

/// The model of an [`App`].
#[verifier::ext_equal]
pub struct AppView {
    /// the query line
    pub input: Seq<char>,
    /// the edit cursor, in characters
    pub cursor: int,
    pub selected: int,
    pub regex_mode: bool,
    pub preview_layout: PreviewLayout,
    pub density: Density,
    pub message: Option<Seq<char>>,
    pub ui_mode: UiMode,
    pub picked: Option<Seq<char>>,
    /// the open actions menu: its selected entry
    pub menu: Option<int>,
    /// the help is open
    pub help: bool,
    /// rows behind the weaker-matches fold are not shown
    pub folded: bool,
    /// the paths of marked rows
    pub marks: Seq<Seq<char>>,
    /// earlier queries, oldest first
    pub history: Seq<Seq<char>>,
    /// the entry that the last step through the history led to; remembering a
    /// query may have moved it since
    pub history_pos: Option<int>,
    /// the row that the preview is for
    pub preview_for: Option<(Seq<char>, Option<u64>)>,
    /// counts preview requests
    pub preview_gen: u64,
    /// the first line shown in the text preview
    pub preview_scroll: int,
}

impl AppView {
    /// The cursor lies in the line, and the menu entry in the menu.
    pub open spec fn is_valid(self) -> bool {
        &&& 0 <= self.cursor <= self.input.len()
        &&& self.menu matches Some(m) ==> 0 <= m < MENU_LEN
        &&& self.history_pos matches Some(p) ==> 0 <= p < usize::MAX
        &&& 0 <= self.selected <= usize::MAX
        &&& 0 <= self.preview_scroll <= usize::MAX
    }
}

spec fn index_option(x: Option<usize>) -> Option<int> {
    match x {
        Some(i) => Some(i as int),
        None => None,
    }
}

impl View for App {
    type V = AppView;

    closed spec fn view(&self) -> AppView {
        AppView {
            input: self.input@,
            cursor: self.cursor as int,
            selected: self.selected as int,
            regex_mode: self.regex_mode,
            preview_layout: self.preview_layout,
            density: self.density,
            message: text_option(self.message),
            ui_mode: self.ui_mode,
            picked: text_option(self.picked),
            menu: index_option(self.menu),
            help: self.help,
            folded: self.folded,
            marks: texts(self.marks@),
            history: texts(self.history@),
            history_pos: index_option(self.history_pos),
            preview_for: match self.preview_for {
                Some((p, n)) => Some((p@, n)),
                None => None,
            },
            preview_gen: self.preview_gen,
            preview_scroll: self.preview_scroll as int,
        }
    }
}

/// The interface as it starts.
pub open spec fn started(ui_mode: UiMode, history: Seq<Seq<char>>) -> AppView {
    AppView {
        input: Seq::empty(),
        cursor: 0,
        selected: 0,
        regex_mode: false,
        preview_layout: PreviewLayout::Side,
        density: Density::Comfy,
        message: None,
        ui_mode,
        picked: None,
        menu: None,
        help: false,
        folded: true,
        marks: Seq::empty(),
        history,
        history_pos: None,
        preview_for: None,
        preview_gen: 0,
        preview_scroll: 0,
    }
}

impl App {
    pub fn new(ui_mode: UiMode, history: Vec<String>) -> (r: App)
        ensures
            r@ == started(ui_mode, texts(history@)),
            r@.is_valid(),
    {
        let ghost past = texts(history@);
        let r = App {
            input: Vec::new(),
            cursor: 0,
            selected: 0,
            regex_mode: false,
            preview_layout: PreviewLayout::Side,
            density: Density::Comfy,
            message: None,
            ui_mode,
            picked: None,
            menu: None,
            help: false,
            folded: true,
            marks: Vec::new(),
            history,
            history_pos: None,
            preview_for: None,
            preview_gen: 0,
            preview_scroll: 0,
        };
        assert(r@ =~= started(ui_mode, past));
        r
    }

    /// The query line.
    pub fn input(&self) -> (r: String)
        ensures
            r@ == self@.input,
    {
        string_of(&self.input)
    }

    /// The byte offset of the edit cursor.
    pub fn input_cursor(&self) -> (r: usize)
        requires
            self@.is_valid(),
        ensures
            r == encode_utf8(self@.input.take(self@.cursor)).len(),
    {
        let before = string_of_range(&self.input, 0, self.cursor);
        assert(before@ =~= self@.input.take(self@.cursor));
        before.as_str().as_bytes().len()
    }

    /// How many characters stand before the edit cursor.
    pub fn cursor_column(&self) -> (r: usize)
        ensures
            r == self@.cursor,
    {
        self.cursor
    }

    pub fn selected(&self) -> (r: usize)
        ensures
            r == self@.selected,
    {
        self.selected
    }

    pub fn regex_mode(&self) -> (r: bool)
        ensures
            r == self@.regex_mode,
    {
        self.regex_mode
    }

    pub fn preview_layout(&self) -> (r: PreviewLayout)
        ensures
            r == self@.preview_layout,
    {
        self.preview_layout
    }

    pub fn density(&self) -> (r: Density)
        ensures
            r == self@.density,
    {
        self.density
    }

    pub fn message(&self) -> (r: Option<&str>)
        ensures
            match r {
                Some(m) => self@.message == Some(m@),
                None => self@.message is None,
            },
    {
        match &self.message {
            Some(m) => Some(m.as_str()),
            None => None,
        }
    }

    pub fn picked(&self) -> (r: Option<&str>)
        ensures
            match r {
                Some(p) => self@.picked == Some(p@),
                None => self@.picked is None,
            },
    {
        match &self.picked {
            Some(p) => Some(p.as_str()),
            None => None,
        }
    }

    pub fn menu_entry(&self) -> (r: Option<usize>)
        ensures
            match r {
                Some(m) => self@.menu == Some(m as int),
                None => self@.menu is None,
            },
    {
        self.menu
    }

    pub fn shows_help(&self) -> (r: bool)
        ensures
            r == self@.help,
    {
        self.help
    }

    pub fn is_marked(&self, path: &str) -> (r: bool)
        ensures
            r == self@.marks.contains(path@),
    {
        let mut i: usize = 0;
        while i < self.marks.len()
            invariant
                i <= self.marks@.len(),
                forall|k: int| 0 <= k < i ==> (#[trigger] self.marks@[k])@ != path@,
            decreases self.marks@.len() - i,
        {
            if same(self.marks[i].as_str(), path) {
                assert(self@.marks[i as int] == path@);
                return true;
            }
            i += 1;
        }
        assert forall|k: int| 0 <= k < self@.marks.len() implies self@.marks[k] != path@ by {
            assert(self@.marks[k] == self.marks@[k]@);
        }
        false
    }

    /// How many of the rows are shown, where `strong` are above the fold.
    pub fn shown_rows(&self, len: usize, strong: usize) -> (r: usize)
        ensures
            r == above_fold(len as nat, strong as nat, self@.folded),
            r <= len,
    {
        if self.folded && 0 < strong && strong < len {
            strong
        } else {
            len
        }
    }

    pub fn preview_scroll(&self) -> (r: usize)
        ensures
            r == self@.preview_scroll,
    {
        self.preview_scroll
    }

    /// Takes up the layout of an earlier session.
    pub fn restore(&mut self, preview_layout: PreviewLayout, density: Density)
        requires
            old(self)@.is_valid(),
        ensures
            final(self)@ == (AppView { preview_layout, density, ..old(self)@ }),
            final(self)@.is_valid(),
    {
        self.preview_layout = preview_layout;
        self.density = density;
    }

    /// Puts a text on the query line, with the cursor behind it.
    pub fn set_input(&mut self, text: &str)
        requires
            old(self)@.is_valid(),
        ensures
            final(self)@ == with_input(old(self)@, text@),
            final(self)@.is_valid(),
    {
        self.input = chars_of(text);
        self.cursor = self.input.len();
        assert(self@ =~= with_input(old(self)@, text@));
    }
}

/// How many rows are shown: while the list is folded, those above the fold. With
/// none above it there is nothing to fold away.
pub open spec fn above_fold(len: nat, strong: nat, folded: bool) -> nat {
    if folded && 0 < strong < len {
        strong
    } else {
        len
    }
}

// ------------------------------------------------------------------- editing

/// A text on the query line, with the cursor behind it.
pub open spec fn with_input(a: AppView, text: Seq<char>) -> AppView {
    AppView { input: text, cursor: text.len() as int, ..a }
}

/// The line without the characters from `from` to `to`, and the cursor at
/// `from`.
pub open spec fn without(a: AppView, from: int, to: int) -> AppView {
    AppView { input: a.input.take(from) + a.input.skip(to), cursor: from, ..a }
}

/// The line with a character at the cursor, which stays behind it.
pub open spec fn inserted(a: AppView, c: char) -> AppView {
    AppView { input: a.input.insert(a.cursor, c), cursor: a.cursor + 1, ..a }
}

/// The end of the word before `n`: trailing spaces are skipped.
pub open spec fn before_spaces(s: Seq<char>, n: int) -> int
    decreases n,
{
    if n > 0 && is_space(s[n - 1]) {
        before_spaces(s, n - 1)
    } else {
        n
    }
}

/// The start of the run of other characters that ends at `n`.
pub open spec fn before_word(s: Seq<char>, n: int) -> int
    decreases n,
{
    if n > 0 && !is_space(s[n - 1]) {
        before_word(s, n - 1)
    } else {
        n
    }
}

/// What ctrl-w deletes starts here: trailing whitespace and the word before it.
pub open spec fn word_start(s: Seq<char>, cursor: int) -> int {
    before_word(s, before_spaces(s, cursor))
}

impl App {
    pub fn cursor_left(&mut self)
        requires
            old(self)@.is_valid(),
        ensures
            final(self)@ == (AppView {
                cursor: if old(self)@.cursor > 0 {
                    old(self)@.cursor - 1
                } else {
                    0
                },
                ..old(self)@
            }),
            final(self)@.is_valid(),
    {
        if self.cursor > 0 {
            self.cursor -= 1;
        }
    }

    pub fn cursor_right(&mut self)
        requires
            old(self)@.is_valid(),
        ensures
            final(self)@ == (AppView {
                cursor: if old(self)@.cursor < old(self)@.input.len() {
                    old(self)@.cursor + 1
                } else {
                    old(self)@.cursor
                },
                ..old(self)@
            }),
            final(self)@.is_valid(),
    {
        if self.cursor < self.input.len() {
            self.cursor += 1;
        }
    }

    pub fn cursor_start(&mut self)
        requires
            old(self)@.is_valid(),
        ensures
            final(self)@ == (AppView { cursor: 0, ..old(self)@ }),
            final(self)@.is_valid(),
    {
        self.cursor = 0;
    }

    pub fn cursor_end(&mut self)
        requires
            old(self)@.is_valid(),
        ensures
            final(self)@ == (AppView { cursor: old(self)@.input.len() as int, ..old(self)@ }),
            final(self)@.is_valid(),
    {
        self.cursor = self.input.len();
    }

    fn delete_range(&mut self, from: usize, to: usize)
        requires
            old(self)@.is_valid(),
            from <= to <= old(self)@.input.len(),
        ensures
            final(self)@ == without(old(self)@, from as int, to as int),
            final(self)@.is_valid(),
    {
        let mut rest = crate::text::sub_chars(&self.input, to, self.input.len());
        let mut kept = crate::text::sub_chars(&self.input, 0, from);
        kept.append(&mut rest);
        assert(kept@ =~= old(self)@.input.take(from as int) + old(self)@.input.skip(to as int));
        self.input = kept;
        self.cursor = from;
        assert(self@ =~= without(old(self)@, from as int, to as int));
    }

    /// Deletes the character before the cursor.
    pub fn delete_backward(&mut self)
        requires
            old(self)@.is_valid(),
        ensures
            final(self)@ == (if old(self)@.cursor > 0 {
                without(old(self)@, old(self)@.cursor - 1, old(self)@.cursor)
            } else {
                old(self)@
            }),
            final(self)@.is_valid(),
    {
        if self.cursor > 0 {
            self.delete_range(self.cursor - 1, self.cursor);
        }
    }

    /// Deletes the character under the cursor.
    pub fn delete_forward(&mut self)
        requires
            old(self)@.is_valid(),
        ensures
            final(self)@ == (if old(self)@.cursor < old(self)@.input.len() {
                without(old(self)@, old(self)@.cursor, old(self)@.cursor + 1)
            } else {
                old(self)@
            }),
            final(self)@.is_valid(),
    {
        if self.cursor < self.input.len() {
            self.delete_range(self.cursor, self.cursor + 1);
        }
    }

    /// readline-style ctrl-w: delete trailing whitespace plus the preceding
    /// run of non-whitespace chars before the cursor.
    pub fn delete_word_backward(&mut self)
        requires
            old(self)@.is_valid(),
        ensures
            final(self)@ == without(
                old(self)@,
                word_start(old(self)@.input, old(self)@.cursor),
                old(self)@.cursor,
            ),
            final(self)@.is_valid(),
    {
        let mut start: usize = self.cursor;
        let ghost s = self@.input;
        let ghost n = self@.cursor;
        while start > 0 && char_is_space(self.input[start - 1])
            invariant
                s == self.input@,
                start <= n <= s.len(),
                before_spaces(s, n) == before_spaces(s, start as int),
            decreases start,
        {
            start -= 1;
        }
        let ghost m = start as int;
        while start > 0 && !char_is_space(self.input[start - 1])
            invariant
                s == self.input@,
                start <= m <= n <= s.len(),
                before_word(s, m) == before_word(s, start as int),
            decreases start,
        {
            start -= 1;
        }
        self.delete_range(start, self.cursor);
    }

    pub fn insert_char(&mut self, c: char)
        requires
            old(self)@.is_valid(),
            old(self)@.input.len() < usize::MAX,
        ensures
            final(self)@ == inserted(old(self)@, c),
            final(self)@.is_valid(),
    {
        self.input.insert(self.cursor, c);
        self.cursor += 1;
        assert(self@ =~= inserted(old(self)@, c));
    }
}

// ---------------------------------------------------------------------- steps

/// What a key asks of the caller.
#[derive(Debug, PartialEq)]
pub struct Step {
    /// False when the app should quit.
    pub go_on: bool,
    /// The query changed and is to be searched for.
    pub search: bool,
    /// A query to be remembered for later runs.
    pub recorded: Option<String>,
    /// What is to be done, and with which files.
    pub action: Option<(FileAction, Vec<String>)>,
    /// The next theme is to be shown.
    pub cycle_theme: bool,
}

/// The model of a [`Step`].
#[verifier::ext_equal]
pub struct StepView {
    pub go_on: bool,
    pub search: bool,
    pub recorded: Option<Seq<char>>,
    pub action: Option<(FileAction, Seq<Seq<char>>)>,
    pub cycle_theme: bool,
}

impl View for Step {
    type V = StepView;

    open spec fn view(&self) -> StepView {
        StepView {
            go_on: self.go_on,
            search: self.search,
            recorded: text_option(self.recorded),
            action: match self.action {
                Some((f, paths)) => Some((f, texts(paths@))),
                None => None,
            },
            cycle_theme: self.cycle_theme,
        }
    }
}

/// Nothing is asked of the caller but, where it says so, a search.
pub open spec fn plain_step(search: bool) -> StepView {
    StepView { go_on: true, search, recorded: None, action: None, cycle_theme: false }
}

/// The query changed: the first row is selected, and the history starts over.
pub open spec fn refreshed(a: AppView) -> AppView {
    AppView { history_pos: None, selected: 0, ..a }
}

fn plain(search: bool) -> (r: Step)
    ensures
        r@ == plain_step(search),
{
    Step { go_on: true, search, recorded: None, action: None, cycle_theme: false }
}

// -------------------------------------------------------------------- history

/// The history entry that a step leads to, where it leads to one.
pub open spec fn history_target(len: int, pos: Option<int>, back: bool) -> Option<int> {
    match (pos, back) {
        (None, true) => Some(len - 1),
        (None, false) => None,
        (Some(i), true) => Some(
            if i > len {
                len - 1
            } else if i > 0 {
                i - 1
            } else {
                0
            },
        ),
        (Some(i), false) => if i + 1 < len {
            Some(i + 1)
        } else {
            None
        },
    }
}

/// A step through the history. Stepping past the newest entry comes back to a
/// blank query, also from a place that the history no longer has.
pub open spec fn history_stepped(a: AppView, back: bool) -> AppView {
    match history_target(a.history.len() as int, a.history_pos, back) {
        _ if a.history.len() == 0 => a,
        Some(i) => AppView {
            history_pos: Some(i),
            selected: 0,
            ..with_input(a, a.history[i])
        },
        None => if a.history_pos is Some {
            refreshed(with_input(a, Seq::empty()))
        } else {
            a
        },
    }
}

/// Whether a step through the history changes the query.
pub open spec fn history_moves(a: AppView, back: bool) -> bool {
    a.history.len() > 0 && (back || a.history_pos is Some)
}

/// The first `n` entries other than a text.
pub open spec fn others(history: Seq<Seq<char>>, query: Seq<char>, n: int) -> Seq<Seq<char>>
    decreases n,
{
    if n <= 0 {
        Seq::empty()
    } else if history[n - 1] == query {
        others(history, query, n - 1)
    } else {
        others(history, query, n - 1).push(history[n - 1])
    }
}

/// The query on the line is the newest entry of the history; a blank one is not
/// kept.
pub open spec fn remembered(a: AppView) -> AppView {
    let query = trim(a.input);
    if query.len() == 0 {
        a
    } else {
        AppView {
            history: others(a.history, query, a.history.len() as int).push(query),
            ..a
        }
    }
}

/// The query that is remembered.
pub open spec fn recorded_query(a: AppView) -> Option<Seq<char>> {
    if trim(a.input).len() == 0 {
        None
    } else {
        Some(trim(a.input))
    }
}

impl App {
    /// A step through the history; whether the query changed.
    pub fn history_step(&mut self, back: bool) -> (r: bool)
        requires
            old(self)@.is_valid(),
        ensures
            final(self)@ == history_stepped(old(self)@, back),
            r == history_moves(old(self)@, back),
            final(self)@.is_valid(),
    {
        assert(self@.history.len() == self.history@.len());
        if self.history.len() == 0 {
            return false;
        }
        let next: usize = match (self.history_pos, back) {
            (None, true) => self.history.len() - 1,
            (None, false) => {
                return false;
            },
            (Some(i), true) => if i > self.history.len() {
                self.history.len() - 1
            } else if i > 0 {
                i - 1
            } else {
                0
            },
            (Some(i), false) => {
                if i + 1 < self.history.len() {
                    i + 1
                } else {
                    self.history_pos = None;
                    self.input = Vec::new();
                    self.cursor = 0;
                    self.selected = 0;
                    assert(self@ =~= history_stepped(old(self)@, back));
                    return true;
                }
            },
        };
        self.history_pos = Some(next);
        self.input = chars_of(self.history[next].as_str());
        self.cursor = self.input.len();
        self.selected = 0;
        assert(self@ =~= history_stepped(old(self)@, back));
        true
    }

    /// Remembers the query on the line.
    pub fn push_history(&mut self) -> (r: Option<String>)
        requires
            old(self)@.is_valid(),
        ensures
            final(self)@ == remembered(old(self)@),
            text_option(r) == recorded_query(old(self)@),
            final(self)@.is_valid(),
    {
        let query = trimmed(&self.input);
        if chars_of(&query).len() == 0 {
            return None;
        }
        let mut kept = without_text(&self.history, query.as_str());
        let newest = query.as_str().to_owned();
        proof {
            lemma_texts_push(kept@, newest);
        }
        kept.push(newest);
        self.history = kept;
        assert(self@ =~= remembered(old(self)@));
        Some(query)
    }
}

fn without_text(all: &Vec<String>, text: &str) -> (r: Vec<String>)
    ensures
        texts(r@) == others(texts(all@), text@, all@.len() as int),
{
    let ghost h = texts(all@);
    let mut kept: Vec<String> = Vec::new();
    let mut i: usize = 0;
    assert(texts(kept@) =~= Seq::empty());
    while i < all.len()
        invariant
            i <= all@.len(),
            h == texts(all@),
            texts(kept@) == others(h, text@, i as int),
        decreases all@.len() - i,
    {
        if !same(all[i].as_str(), text) {
            let entry = all[i].as_str().to_owned();
            proof {
                lemma_texts_push(kept@, entry);
            }
            kept.push(entry);
        }
        i += 1;
    }
    kept
}

// ----------------------------------------------------------------------- keys

/// The selection moved by one, around the ends of the list.
pub open spec fn moved(a: AppView, len: nat, down: bool) -> AppView {
    AppView {
        selected: if len == 0 {
            0
        } else if down {
            (a.selected + 1) % (len as int)
        } else {
            (a.selected - 1) % (len as int)
        },
        ..a
    }
}

/// An action on the selected row, where there is one.
pub open spec fn act_step(a: AppView, rows: Seq<RowView>, action: FileAction) -> StepView {
    StepView {
        action: if 0 <= a.selected < rows.len() {
            Some((action, seq![rows[a.selected].path]))
        } else {
            None
        },
        ..plain_step(false)
    }
}

/// The paths of the first `n` rows that are marked.
pub open spec fn marked_paths(rows: Seq<RowView>, marks: Seq<Seq<char>>, n: int) -> Seq<Seq<char>>
    decreases n,
{
    if n <= 0 {
        Seq::empty()
    } else if marks.contains(rows[n - 1].path) {
        marked_paths(rows, marks, n - 1).push(rows[n - 1].path)
    } else {
        marked_paths(rows, marks, n - 1)
    }
}

/// The actions that the menu runs over all marked rows.
pub open spec fn is_batched(action: FileAction) -> bool {
    action == FileAction::Open || action == FileAction::Copy || action == FileAction::Trash
}

/// An action of the menu: on the marked rows that are shown, where it is one for
/// them and there are any, and otherwise on the selected row.
pub open spec fn menu_step(a: AppView, rows: Seq<RowView>, action: FileAction) -> StepView {
    let paths = marked_paths(rows, a.marks, rows.len() as int);
    if is_batched(action) && paths.len() > 0 {
        StepView { action: Some((action, paths)), ..plain_step(false) }
    } else {
        act_step(a, rows, action)
    }
}

/// The action of a menu entry.
pub open spec fn menu_action(entry: int) -> FileAction {
    if entry == 0 {
        FileAction::Open
    } else if entry == 1 {
        FileAction::Reveal
    } else if entry == 2 {
        FileAction::Copy
    } else if entry == 3 {
        FileAction::QuickLook
    } else {
        FileAction::Trash
    }
}

/// A key while the actions menu is open: it swallows everything.
pub open spec fn menu_keyed(a: AppView, code: KeyCode, rows: Seq<RowView>, entry: int) -> (
    AppView,
    StepView,
) {
    match code {
        KeyCode::Esc => (AppView { menu: None, ..a }, plain_step(false)),
        KeyCode::Left => (AppView { menu: None, ..a }, plain_step(false)),
        KeyCode::Down => (
            AppView { menu: Some((entry + 1) % (MENU_LEN as int)), ..a },
            plain_step(false),
        ),
        KeyCode::Up => (
            AppView { menu: Some((entry + MENU_LEN - 1) % (MENU_LEN as int)), ..a },
            plain_step(false),
        ),
        KeyCode::Enter => (AppView { menu: None, ..a }, menu_step(a, rows, menu_action(entry))),
        _ => (a, plain_step(false)),
    }
}

/// Enter: opens the selected row, or picks it and quits. The result of a
/// calculation is copied.
pub open spec fn entered(a: AppView, mode: Mode, rows: Seq<RowView>) -> (AppView, StepView) {
    let action = if mode == Mode::Calc {
        FileAction::Copy
    } else {
        FileAction::Open
    };
    match a.ui_mode {
        UiMode::Open => (
            remembered(a),
            StepView { recorded: recorded_query(a), ..act_step(a, rows, action) },
        ),
        UiMode::Pick => if 0 <= a.selected < rows.len() {
            (
                AppView { picked: Some(rows[a.selected].path), ..remembered(a) },
                StepView { go_on: false, recorded: recorded_query(a), ..plain_step(false) },
            )
        } else {
            (a, plain_step(false))
        },
    }
}

/// The mark of the selected row is set or taken away, and the next row is
/// selected. Nothing is marked where a row is to be picked.
pub open spec fn mark_toggled(a: AppView, rows: Seq<RowView>) -> AppView {
    if a.ui_mode == UiMode::Open && 0 <= a.selected < rows.len() {
        let path = rows[a.selected].path;
        AppView {
            marks: if a.marks.contains(path) {
                others(a.marks, path, a.marks.len() as int)
            } else {
                a.marks.push(path)
            },
            selected: if a.selected + 1 < rows.len() {
                a.selected + 1
            } else {
                a.selected
            },
            ..a
        }
    } else {
        a
    }
}

/// What a command does.
pub open spec fn commanded(a: AppView, action: Action, mode: Mode, rows: Seq<RowView>) -> (
    AppView,
    StepView,
) {
    match action {
        Action::Quit => (a, StepView { go_on: false, ..plain_step(false) }),
        Action::Open => entered(a, mode, rows),
        Action::Menu => if rows.len() > 0 {
            (AppView { menu: Some(0), ..a }, plain_step(false))
        } else {
            (a, plain_step(false))
        },
        Action::QuickLook => (a, act_step(a, rows, FileAction::QuickLook)),
        Action::CopyPath => (a, act_step(a, rows, FileAction::Copy)),
        Action::Reveal => (a, act_step(a, rows, FileAction::Reveal)),
        Action::ClearQuery => (refreshed(with_input(a, Seq::empty())), plain_step(true)),
        Action::RegexToggle => (
            refreshed(AppView { regex_mode: !a.regex_mode, ..a }),
            plain_step(true),
        ),
        Action::HistoryPrev => (history_stepped(a, true), plain_step(history_moves(a, true))),
        Action::HistoryNext => (history_stepped(a, false), plain_step(history_moves(a, false))),
        Action::MoveUp => (moved(a, rows.len(), false), plain_step(false)),
        Action::MoveDown => (moved(a, rows.len(), true), plain_step(false)),
        Action::PreviewLayout => (
            AppView { preview_layout: a.preview_layout.following(), ..a },
            plain_step(false),
        ),
        Action::DensityToggle => (
            AppView { density: a.density.toggled(), ..a },
            plain_step(false),
        ),
        Action::FoldToggle => (AppView { folded: !a.folded, ..a }, plain_step(false)),
        Action::ThemeCycle => (a, StepView { cycle_theme: true, ..plain_step(false) }),
        Action::PreviewPageUp => (
            AppView {
                preview_scroll: if a.preview_scroll < PREVIEW_SCROLL_PAGE {
                    0
                } else {
                    a.preview_scroll - PREVIEW_SCROLL_PAGE
                },
                ..a
            },
            plain_step(false),
        ),
        Action::PreviewPageDown => (
            AppView {
                preview_scroll: if a.preview_scroll + PREVIEW_SCROLL_PAGE > usize::MAX {
                    usize::MAX as int
                } else {
                    a.preview_scroll + PREVIEW_SCROLL_PAGE
                },
                ..a
            },
            plain_step(false),
        ),
        Action::Help => (AppView { help: true, ..a }, plain_step(false)),
        Action::ToggleMark => (mark_toggled(a, rows), plain_step(false)),
        Action::ClearMarks => (
            AppView {
                marks: if a.ui_mode == UiMode::Open {
                    Seq::empty()
                } else {
                    a.marks
                },
                ..a
            },
            plain_step(false),
        ),
    }
}

/// A key without the modifiers that are looked at only where a binding names
/// them.
pub open spec fn bare_key(key: Key) -> Key {
    (key.0, held(key.0 is Char && key.1.control, false, false))
}

/// The command of a key: what the key is bound to, or else the bare key.
pub open spec fn command_of(keys: Map<Key, Action>, key: Key) -> Option<Action> {
    if keys.dom().contains(key) {
        Some(keys[key])
    } else if keys.dom().contains(bare_key(key)) {
        Some(keys[bare_key(key)])
    } else {
        None
    }
}

/// The line as an editing key leaves it, and whether it is to be searched for.
/// `None` where the key does not edit.
pub open spec fn edited(a: AppView, keys: Map<Key, Action>, key: Key) -> Option<(AppView, bool)> {
    match key.0 {
        KeyCode::Right => if a.cursor < a.input.len() {
            Some((AppView { cursor: a.cursor + 1, ..a }, false))
        } else {
            None
        },
        KeyCode::Left => Some(
            (
                AppView {
                    cursor: if a.cursor > 0 {
                        a.cursor - 1
                    } else {
                        0
                    },
                    ..a
                },
                false,
            ),
        ),
        KeyCode::Backspace => Some(
            (
                refreshed(
                    if a.cursor > 0 {
                        without(a, a.cursor - 1, a.cursor)
                    } else {
                        a
                    },
                ),
                true,
            ),
        ),
        KeyCode::Char(c) => if !key.1.control {
            if key.1.alt && keys.dom().contains(key) {
                None
            } else {
                Some((refreshed(inserted(a, c)), true))
            }
        } else if c == 'a' {
            Some((AppView { cursor: 0, ..a }, false))
        } else if c == 'e' {
            Some((AppView { cursor: a.input.len() as int, ..a }, false))
        } else if c == 'w' {
            Some((refreshed(without(a, word_start(a.input, a.cursor), a.cursor)), true))
        } else if c == 'd' {
            Some(
                (
                    refreshed(
                        if a.cursor < a.input.len() {
                            without(a, a.cursor, a.cursor + 1)
                        } else {
                            a
                        },
                    ),
                    true,
                ),
            )
        } else {
            None
        },
        _ => None,
    }
}

/// What a key does, where `keys` are the bindings and `rows` the results. The
/// help takes any key to close, and the open menu swallows all; then come the
/// editing keys, and last the bound commands.
pub open spec fn keyed(
    before: AppView,
    key: Key,
    keys: Map<Key, Action>,
    mode: Mode,
    rows: Seq<RowView>,
) -> (AppView, StepView) {
    let a = AppView { message: None, ..before };
    if a.help {
        (AppView { help: false, ..a }, plain_step(false))
    } else {
        match a.menu {
            Some(entry) => menu_keyed(a, key.0, rows, entry),
            None => match edited(a, keys, key) {
                Some((b, search)) => (b, plain_step(search)),
                None => match command_of(keys, key) {
                    Some(action) => commanded(a, action, mode, rows),
                    None => (a, plain_step(false)),
                },
            },
        }
    }
}

fn find_command(keymap: &Keymap, key: Key) -> (r: Option<Action>)
    ensures
        r == command_of(keymap@, key),
{
    match keymap.lookup(key.0, key.1) {
        Some(action) => Some(action),
        None => {
            let control = match key.0 {
                KeyCode::Char(_) => key.1.control,
                _ => false,
            };
            keymap.lookup(key.0, KeyModifiers { control, alt: false, shift: false })
        },
    }
}

impl App {
    fn refresh_query(&mut self)
        requires
            old(self)@.is_valid(),
        ensures
            final(self)@ == refreshed(old(self)@),
            final(self)@.is_valid(),
    {
        self.history_pos = None;
        self.selected = 0;
    }

    /// Moves the selection by one, around the ends of the list.
    pub fn move_selection(&mut self, len: usize, down: bool)
        requires
            old(self)@.is_valid(),
        ensures
            final(self)@ == moved(old(self)@, len as nat, down),
            final(self)@.is_valid(),
    {
        if len == 0 {
            self.selected = 0;
            return;
        }
        let at: usize = self.selected % len;
        let ghost s = self.selected as int;
        let ghost q = s / (len as int);
        proof {
            vstd::arithmetic::div_mod::lemma_fundamental_div_mod(s, len as int);
        }
        if down {
            if at + 1 == len {
                proof {
                    assert(s + 1 == (q + 1) * len) by (nonlinear_arith)
                        requires
                            s == len * q + at,
                            at + 1 == len,
                    ;
                    vstd::arithmetic::div_mod::lemma_fundamental_div_mod_converse(
                        s + 1,
                        len as int,
                        q + 1,
                        0,
                    );
                }
                self.selected = 0;
            } else {
                proof {
                    assert(s + 1 == q * len + (at + 1)) by (nonlinear_arith)
                        requires
                            s == len * q + at,
                    ;
                    vstd::arithmetic::div_mod::lemma_fundamental_div_mod_converse(
                        s + 1,
                        len as int,
                        q,
                        at + 1,
                    );
                }
                self.selected = at + 1;
            }
        } else if at == 0 {
            proof {
                assert(s - 1 == (q - 1) * len + (len - 1)) by (nonlinear_arith)
                    requires
                        s == len * q + at,
                        at == 0,
                ;
                vstd::arithmetic::div_mod::lemma_fundamental_div_mod_converse(
                    s - 1,
                    len as int,
                    q - 1,
                    len - 1,
                );
            }
            self.selected = len - 1;
        } else {
            proof {
                assert(s - 1 == q * len + (at - 1)) by (nonlinear_arith)
                    requires
                        s == len * q + at,
                ;
                vstd::arithmetic::div_mod::lemma_fundamental_div_mod_converse(
                    s - 1,
                    len as int,
                    q,
                    at - 1,
                );
            }
            self.selected = at - 1;
        }
    }

    fn act(&self, rows: &[ResultRow], action: FileAction) -> (r: Step)
        ensures
            r@ == act_step(self@, row_views(rows@), action),
    {
        let chosen = if self.selected < rows.len() {
            let mut paths: Vec<String> = Vec::new();
            paths.push(rows[self.selected].path.as_str().to_owned());
            assert(texts(paths@) =~= seq![row_views(rows@)[self@.selected].path]);
            Some((action, paths))
        } else {
            None
        };
        Step { action: chosen, ..plain(false) }
    }

    fn menu_act(&self, rows: &[ResultRow], action: FileAction) -> (r: Step)
        ensures
            r@ == menu_step(self@, row_views(rows@), action),
    {
        match action {
            FileAction::Reveal => {
                return self.act(rows, action);
            },
            FileAction::QuickLook => {
                return self.act(rows, action);
            },
            _ => {},
        }
        let mut paths: Vec<String> = Vec::new();
        let mut i: usize = 0;
        assert(texts(paths@) =~= Seq::empty());
        while i < rows.len()
            invariant
                i <= rows@.len(),
                texts(paths@) == marked_paths(row_views(rows@), self@.marks, i as int),
            decreases rows@.len() - i,
        {
            assert(row_views(rows@)[i as int].path == rows@[i as int].path@);
            if self.is_marked(rows[i].path.as_str()) {
                let path = rows[i].path.as_str().to_owned();
                proof {
                    lemma_texts_push(paths@, path);
                }
                paths.push(path);
            }
            i += 1;
        }
        assert(row_views(rows@).len() == rows@.len());
        assert(texts(paths@).len() == paths@.len());
        if paths.len() > 0 {
            Step { action: Some((action, paths)), ..plain(false) }
        } else {
            self.act(rows, action)
        }
    }

    fn menu_key(&mut self, code: KeyCode, rows: &[ResultRow], entry: usize) -> (r: Step)
        requires
            old(self)@.is_valid(),
            old(self)@.menu == Some(entry as int),
        ensures
            (final(self)@, r@) == menu_keyed(old(self)@, code, row_views(rows@), entry as int),
            final(self)@.is_valid(),
    {
        match code {
            KeyCode::Esc => {
                self.menu = None;
            },
            KeyCode::Left => {
                self.menu = None;
            },
            KeyCode::Down => {
                self.menu = Some((entry + 1) % MENU_LEN);
            },
            KeyCode::Up => {
                self.menu = Some((entry + MENU_LEN - 1) % MENU_LEN);
            },
            KeyCode::Enter => {
                self.menu = None;
                let action = if entry == 0 {
                    FileAction::Open
                } else if entry == 1 {
                    FileAction::Reveal
                } else if entry == 2 {
                    FileAction::Copy
                } else if entry == 3 {
                    FileAction::QuickLook
                } else {
                    FileAction::Trash
                };
                return self.menu_act(rows, action);
            },
            _ => {},
        }
        plain(false)
    }

    fn enter(&mut self, mode: Mode, rows: &[ResultRow]) -> (r: Step)
        requires
            old(self)@.is_valid(),
        ensures
            (final(self)@, r@) == entered(old(self)@, mode, row_views(rows@)),
            final(self)@.is_valid(),
    {
        match self.ui_mode {
            UiMode::Open => {
                let recorded = self.push_history();
                let action = match mode {
                    Mode::Calc => FileAction::Copy,
                    _ => FileAction::Open,
                };
                let step = self.act(rows, action);
                Step { recorded, ..step }
            },
            UiMode::Pick => {
                if self.selected < rows.len() {
                    let path = rows[self.selected].path.as_str().to_owned();
                    let recorded = self.push_history();
                    self.picked = Some(path);
                    Step { go_on: false, recorded, ..plain(false) }
                } else {
                    plain(false)
                }
            },
        }
    }

    fn toggle_mark(&mut self, rows: &[ResultRow])
        requires
            old(self)@.is_valid(),
        ensures
            final(self)@ == mark_toggled(old(self)@, row_views(rows@)),
            final(self)@.is_valid(),
    {
        assert(row_views(rows@).len() == rows@.len());
        match self.ui_mode {
            UiMode::Pick => {
                return;
            },
            UiMode::Open => {},
        }
        if self.selected < rows.len() {
            let path = rows[self.selected].path.as_str();
            if self.is_marked(path) {
                self.marks = without_text(&self.marks, path);
            } else {
                let mark = path.to_owned();
                proof {
                    lemma_texts_push(self.marks@, mark);
                }
                self.marks.push(mark);
            }
            if self.selected + 1 < rows.len() {
                self.selected += 1;
            }
            assert(self@ =~= mark_toggled(old(self)@, row_views(rows@)));
        }
    }

    fn command(&mut self, action: Action, mode: Mode, rows: &[ResultRow]) -> (r: Step)
        requires
            old(self)@.is_valid(),
        ensures
            (final(self)@, r@) == commanded(old(self)@, action, mode, row_views(rows@)),
            final(self)@.is_valid(),
    {
        assert(row_views(rows@).len() == rows@.len());
        match action {
            Action::Quit => {
                return Step { go_on: false, ..plain(false) };
            },
            Action::Open => {
                return self.enter(mode, rows);
            },
            Action::Menu => {
                if rows.len() > 0 {
                    self.menu = Some(0);
                }
            },
            Action::QuickLook => {
                return self.act(rows, FileAction::QuickLook);
            },
            Action::CopyPath => {
                return self.act(rows, FileAction::Copy);
            },
            Action::Reveal => {
                return self.act(rows, FileAction::Reveal);
            },
            Action::ClearQuery => {
                self.input = Vec::new();
                self.cursor = 0;
                assert(self@.input =~= Seq::empty());
                self.refresh_query();
                return plain(true);
            },
            Action::RegexToggle => {
                self.regex_mode = !self.regex_mode;
                self.refresh_query();
                return plain(true);
            },
            Action::HistoryPrev => {
                let search = self.history_step(true);
                return plain(search);
            },
            Action::HistoryNext => {
                let search = self.history_step(false);
                return plain(search);
            },
            Action::MoveUp => {
                self.move_selection(rows.len(), false);
            },
            Action::MoveDown => {
                self.move_selection(rows.len(), true);
            },
            Action::PreviewLayout => {
                self.preview_layout = self.preview_layout.next();
            },
            Action::DensityToggle => {
                self.density = self.density.toggle();
            },
            Action::FoldToggle => {
                self.folded = !self.folded;
            },
            Action::ThemeCycle => {
                return Step { cycle_theme: true, ..plain(false) };
            },
            Action::PreviewPageUp => {
                self.preview_scroll = self.preview_scroll.saturating_sub(PREVIEW_SCROLL_PAGE);
            },
            Action::PreviewPageDown => {
                self.preview_scroll = self.preview_scroll.saturating_add(PREVIEW_SCROLL_PAGE);
            },
            Action::Help => {
                self.help = true;
            },
            Action::ToggleMark => {
                self.toggle_mark(rows);
            },
            Action::ClearMarks => {
                match self.ui_mode {
                    UiMode::Open => {
                        self.marks = Vec::new();
                        assert(self@.marks =~= Seq::empty());
                    },
                    UiMode::Pick => {},
                }
            },
        }
        plain(false)
    }

    /// Edits the line, where the key is one that does; whether the line is to be
    /// searched for.
    fn edit(&mut self, key: Key, keymap: &Keymap) -> (r: Option<bool>)
        requires
            old(self)@.is_valid(),
            old(self)@.input.len() < usize::MAX,
        ensures
            match edited(old(self)@, keymap@, key) {
                Some((a, search)) => final(self)@ == a && r == Some(search),
                None => final(self)@ == old(self)@ && r is None,
            },
            final(self)@.is_valid(),
    {
        match key.0 {
            KeyCode::Right => {
                if self.cursor < self.input.len() {
                    self.cursor_right();
                    return Some(false);
                }
            },
            KeyCode::Left => {
                self.cursor_left();
                return Some(false);
            },
            KeyCode::Backspace => {
                self.delete_backward();
                self.refresh_query();
                return Some(true);
            },
            KeyCode::Char(c) => {
                if !key.1.control {
                    if !key.1.alt || keymap.lookup(key.0, key.1).is_none() {
                        self.insert_char(c);
                        self.refresh_query();
                        return Some(true);
                    }
                } else if c == 'a' {
                    self.cursor_start();
                    return Some(false);
                } else if c == 'e' {
                    self.cursor_end();
                    return Some(false);
                } else if c == 'w' {
                    self.delete_word_backward();
                    self.refresh_query();
                    return Some(true);
                } else if c == 'd' {
                    self.delete_forward();
                    self.refresh_query();
                    return Some(true);
                }
            },
            _ => {},
        }
        None
    }

    /// Handles a key. The bindings are those of `keymap`, `mode` is the mode of
    /// the search, and `rows` are the results that are shown.
    pub fn handle_key(&mut self, key: Key, keymap: &Keymap, mode: Mode, rows: &[ResultRow]) -> (r:
        Step)
        requires
            old(self)@.is_valid(),
            old(self)@.input.len() < usize::MAX,
        ensures
            (final(self)@, r@) == keyed(old(self)@, key, keymap@, mode, row_views(rows@)),
            final(self)@.is_valid(),
    {
        self.message = None;
        if self.help {
            self.help = false;
            return plain(false);
        }
        match self.menu {
            Some(entry) => {
                return self.menu_key(key.0, rows, entry);
            },
            None => {},
        }
        match self.edit(key, keymap) {
            Some(search) => {
                return plain(search);
            },
            None => {},
        }
        match find_command(keymap, key) {
            Some(action) => self.command(action, mode, rows),
            None => plain(false),
        }
    }

    /// Keeps the selection on the list after the results changed.
    pub fn clamp_selection(&mut self, len: usize)
        requires
            old(self)@.is_valid(),
        ensures
            final(self)@ == (AppView {
                selected: if old(self)@.selected >= len && len > 0 {
                    len - 1
                } else {
                    old(self)@.selected
                },
                ..old(self)@
            }),
            final(self)@.is_valid(),
    {
        if self.selected >= len && len > 0 {
            self.selected = len - 1;
        }
    }

    /// Says what became of an action.
    pub fn settle(&mut self, action: FileAction, path: &str, error: Option<String>)
        requires
            old(self)@.is_valid(),
        ensures
            final(self)@ == (AppView {
                message: Some(
                    match error {
                        None => action.done() + path@,
                        Some(e) => "error: "@ + e@,
                    },
                ),
                ..old(self)@
            }),
            final(self)@.is_valid(),
    {
        self.message = Some(
            match error {
                None => joined(action.done_text(), path),
                Some(e) => joined("error: ", &e),
            },
        );
    }
}

// -------------------------------------------------------------------- preview

/// What the preview pane needs.
#[derive(Debug, PartialEq)]
pub enum PreviewAsk {
    /// there is no selected row
    NoSelection,
    /// the preview is there or on its way
    Kept,
    /// the children of a directory are to be listed
    List(String),
    /// a file is to be loaded, in the background
    Load { generation: u64, path: String, line_number: Option<u64> },
}

/// The model of a [`PreviewAsk`].
pub enum AskView {
    NoSelection,
    Kept,
    List(Seq<char>),
    Load(u64, Seq<char>, Option<u64>),
}

impl View for PreviewAsk {
    type V = AskView;

    open spec fn view(&self) -> AskView {
        match self {
            PreviewAsk::NoSelection => AskView::NoSelection,
            PreviewAsk::Kept => AskView::Kept,
            PreviewAsk::List(path) => AskView::List(path@),
            PreviewAsk::Load { generation, path, line_number } => AskView::Load(
                *generation,
                path@,
                *line_number,
            ),
        }
    }
}

/// The number of the next request.
pub open spec fn next_generation(n: u64) -> u64 {
    if n == u64::MAX {
        0
    } else {
        (n + 1) as u64
    }
}

/// The preview follows the selection.
pub open spec fn preview_asked(a: AppView, rows: Seq<RowView>) -> (AppView, AskView) {
    if !(0 <= a.selected < rows.len()) {
        (AppView { preview_for: None, ..a }, AskView::NoSelection)
    } else {
        let row = rows[a.selected];
        let fresh = AppView {
            preview_for: Some((row.path, row.line_number)),
            preview_scroll: 0,
            ..a
        };
        if a.preview_for == Some((row.path, row.line_number)) {
            (a, AskView::Kept)
        } else if crate::filters::is_dir_path(row.path) {
            (fresh, AskView::List(row.path))
        } else {
            let generation = next_generation(a.preview_gen);
            (
                AppView { preview_gen: generation, ..fresh },
                AskView::Load(generation, row.path, row.line_number),
            )
        }
    }
}

/// A loaded preview is still wanted: it answers the last request, and the row is
/// still selected.
pub open spec fn is_wanted(
    a: AppView,
    generation: u64,
    path: Seq<char>,
    line_number: Option<u64>,
) -> bool {
    generation == a.preview_gen && a.preview_for == Some((path, line_number))
}

/// The scroll position kept on the lines of the preview.
pub open spec fn scroll_within(scroll: int, len: nat) -> int {
    if len == 0 {
        0
    } else if scroll < len {
        scroll
    } else {
        len - 1
    }
}

impl App {
    /// Lets the preview follow the selection.
    pub fn ask_preview(&mut self, rows: &[ResultRow]) -> (r: PreviewAsk)
        requires
            old(self)@.is_valid(),
        ensures
            (final(self)@, r@) == preview_asked(old(self)@, row_views(rows@)),
            final(self)@.is_valid(),
    {
        assert(row_views(rows@).len() == rows@.len());
        if self.selected >= rows.len() {
            self.preview_for = None;
            return PreviewAsk::NoSelection;
        }
        let path = rows[self.selected].path.as_str();
        let line_number = rows[self.selected].line_number;
        match &self.preview_for {
            Some((p, n)) => {
                if same(p.as_str(), path) && *n == line_number {
                    return PreviewAsk::Kept;
                }
            },
            None => {},
        }
        self.preview_for = Some((path.to_owned(), line_number));
        self.preview_scroll = 0;
        if crate::filters::is_dir(path) {
            return PreviewAsk::List(path.to_owned());
        }
        self.preview_gen = if self.preview_gen == u64::MAX {
            0
        } else {
            self.preview_gen + 1
        };
        PreviewAsk::Load { generation: self.preview_gen, path: path.to_owned(), line_number }
    }

    /// Whether a loaded preview is still wanted. Stale generations and
    /// superseded selections are dropped.
    pub fn wants_preview(&self, generation: u64, path: &str, line_number: Option<u64>) -> (r: bool)
        ensures
            r == is_wanted(self@, generation, path@, line_number),
    {
        match &self.preview_for {
            Some((p, n)) => generation == self.preview_gen && same(p.as_str(), path) && *n
                == line_number,
            None => false,
        }
    }

    /// Keeps the scroll position on the lines of the preview.
    pub fn clamp_scroll(&mut self, len: usize)
        requires
            old(self)@.is_valid(),
        ensures
            final(self)@ == (AppView {
                preview_scroll: scroll_within(old(self)@.preview_scroll, len as nat),
                ..old(self)@
            }),
            final(self)@.is_valid(),
    {
        let last: usize = len.saturating_sub(1);
        if self.preview_scroll > last {
            self.preview_scroll = last;
        }
    }
}

// --------------------------------------------------------------------- chrome

/// The label of the mode in the title of the query line.
pub fn mode_label(mode: crate::engine::Mode, regex_mode: bool) -> (r: &'static str)
    ensures
        r@ == (if mode == crate::engine::Mode::Content {
            "content"@
        } else if mode == crate::engine::Mode::Semantic {
            "semantic"@
        } else if regex_mode {
            "regex"@
        } else {
            "fuzzy"@
        }),
{
    match mode {
        crate::engine::Mode::Content => "content",
        crate::engine::Mode::Semantic => "semantic",
        _ => if regex_mode {
            "regex"
        } else {
            "fuzzy"
        },
    }
}

/// Syntax reminders, shown until typing starts.
pub const HINTS: &'static str =
    "> grep in files · ? semantic · 'word exact · ext:pdf · kind:image · changed:7d · larger:100mb · dir: folders · ctrl-r regex · tab zoom preview";

/// What is known of the selected file on disk: whether it is a regular file, its
/// size, and how many seconds ago it was modified.
pub type FileStat = (bool, u64, Option<u64>);

/// The parts of the status line.
pub open spec fn status_parts(
    status: crate::engine::StatusView,
    file: Option<FileStat>,
    message: Option<Seq<char>>,
) -> Seq<Seq<char>> {
    let counts = seq![
        crate::text::digits_of(status.indexed as nat) + " indexed"@,
        crate::text::digits_of(status.matches as nat) + " matches"@,
    ];
    let size = match file {
        Some((true, len, _)) => seq![crate::display::size_text(len)],
        _ => Seq::empty(),
    };
    let age = match file {
        Some((_, _, Some(secs))) => seq![crate::display::age_text(secs)],
        _ => Seq::empty(),
    };
    let indexing = if status.indexing {
        seq!["indexing…"@]
    } else {
        Seq::empty()
    };
    let error = match status.error {
        Some(e) => seq![e],
        None => Seq::empty(),
    };
    let said = match message {
        Some(m) => seq![m],
        None => Seq::empty(),
    };
    counts + size + age + indexing + error + said
}

/// Parts with a dot between them.
pub open spec fn dotted(parts: Seq<Seq<char>>) -> Seq<char>
    decreases parts.len(),
{
    if parts.len() == 0 {
        Seq::empty()
    } else if parts.len() == 1 {
        parts[0]
    } else {
        dotted(parts.drop_last()) + " · "@ + parts.last()
    }
}

fn push_part(parts: &mut Vec<String>, part: String)
    ensures
        texts(final(parts)@) == texts(old(parts)@).push(part@),
{
    proof {
        lemma_texts_push(parts@, part);
    }
    parts.push(part);
}

fn join_parts(parts: &Vec<String>) -> (r: String)
    ensures
        r@ == dotted(texts(parts@)),
{
    let ghost ps = texts(parts@);
    let mut out = String::new();
    let mut i: usize = 0;
    proof {
        reveal_strlit("");
    }
    assert(ps.take(0) =~= Seq::empty());
    while i < parts.len()
        invariant
            i <= parts@.len(),
            ps == texts(parts@),
            out@ == dotted(ps.take(i as int)),
        decreases parts@.len() - i,
    {
        let ghost now = ps.take(i + 1);
        assert(now.drop_last() =~= ps.take(i as int));
        assert(now.last() == parts@[i as int]@);
        if i > 0 {
            out.append(" · ");
        }
        out.append(parts[i].as_str());
        assert(out@ =~= dotted(now));
        i += 1;
    }
    assert(ps.take(i as int) =~= ps);
    out
}

/// The status line.
pub fn status_line(
    status: &crate::engine::EngineStatus,
    file: Option<FileStat>,
    message: Option<&str>,
) -> (r: String)
    ensures
        r@ == dotted(
            status_parts(
                status@,
                file,
                match message {
                    Some(m) => Some(m@),
                    None => None,
                },
            ),
        ),
{
    let mut parts: Vec<String> = Vec::new();
    assert(texts(parts@) =~= Seq::empty());
    push_part(
        &mut parts,
        joined(&crate::text::decimal_string(status.indexed as u64), " indexed"),
    );
    push_part(
        &mut parts,
        joined(&crate::text::decimal_string(status.matches as u64), " matches"),
    );
    match file {
        Some((is_file, len, modified)) => {
            if is_file {
                push_part(&mut parts, crate::display::human_size(len));
            }
            match modified {
                Some(secs) => {
                    push_part(&mut parts, crate::display::human_age(secs));
                },
                None => {},
            }
        },
        None => {},
    }
    if status.indexing {
        push_part(&mut parts, "indexing…".to_owned());
    }
    match &status.error {
        Some(e) => {
            push_part(&mut parts, e.as_str().to_owned());
        },
        None => {},
    }
    match message {
        Some(m) => {
            push_part(&mut parts, m.to_owned());
        },
        None => {},
    }
    assert(texts(parts@) =~= status_parts(
        status@,
        file,
        match message {
            Some(m) => Some(m@),
            None => None,
        },
    ));
    join_parts(&parts)
}

/// A rectangle of cells: the left column, the top row, the width, the height.
pub type Cells = (u16, u16, u16, u16);

/// The actions menu, centered in the body.
pub fn menu_area(body: Cells) -> (r: Cells)
    requires
        body.0 + body.2 <= u16::MAX,
        body.1 + body.3 <= u16::MAX,
    ensures
        r.2 == (if body.2 < 24 {
            body.2
        } else {
            24
        }),
        r.3 == (if body.3 < MENU_LEN + 2 {
            body.3 as int
        } else {
            MENU_LEN + 2
        }),
        r.0 == body.0 + (body.2 - r.2) / 2,
        r.1 == body.1 + (body.3 - r.3) / 2,
        r.0 + r.2 <= body.0 + body.2,
        r.1 + r.3 <= body.1 + body.3,
{
    let width: u16 = if body.2 < 24 {
        body.2
    } else {
        24
    };
    let height: u16 = if body.3 < 7 {
        body.3
    } else {
        7
    };
    (body.0 + (body.2 - width) / 2, body.1 + (body.3 - height) / 2, width, height)
}

/// How images are drawn.
#[derive(Debug, Clone, Copy, PartialEq, Eq, Structural)]
pub enum ImageSupport {
    Off,
    Halfblocks,
    Kitty,
    Iterm2,
    /// ask the terminal; half blocks if it does not answer
    Query,
}

/// Chooses how images are drawn: the user's override first, then what the
/// terminal answers. Nothing is asked of a pipe, and no protocol is used on a
/// bare capability answer.
pub fn image_support(terminal: bool, wanted: Option<&str>, responsive: bool) -> (r: ImageSupport)
    ensures
        r == (if !terminal {
            ImageSupport::Halfblocks
        } else if wanted matches Some(w) && w@ == "off"@ {
            ImageSupport::Off
        } else if wanted matches Some(w) && w@ == "halfblocks"@ {
            ImageSupport::Halfblocks
        } else if wanted matches Some(w) && w@ == "kitty"@ {
            ImageSupport::Kitty
        } else if wanted matches Some(w) && w@ == "iterm2"@ {
            ImageSupport::Iterm2
        } else if responsive {
            ImageSupport::Query
        } else {
            ImageSupport::Halfblocks
        }),
{
    if !terminal {
        return ImageSupport::Halfblocks;
    }
    match wanted {
        Some(w) => {
            if same(w, "off") {
                return ImageSupport::Off;
            } else if same(w, "halfblocks") {
                return ImageSupport::Halfblocks;
            } else if same(w, "kitty") {
                return ImageSupport::Kitty;
            } else if same(w, "iterm2") {
                return ImageSupport::Iterm2;
            }
        },
        None => {},
    }
    if responsive {
        ImageSupport::Query
    } else {
        ImageSupport::Halfblocks
    }
}

// --------------------------------------------------------------------- laws

/// Only the quit command and a pick end the interface, and neither while the help
/// or the menu is open.
pub proof fn only_quit_keys_quit(
    a: AppView,
    key: Key,
    keys: Map<Key, Action>,
    mode: Mode,
    rows: Seq<RowView>,
)
    requires
        !keyed(a, key, keys, mode, rows).1.go_on,
    ensures
        !a.help && a.menu is None,
        command_of(keys, key) == Some(Action::Quit) || (command_of(keys, key) == Some(Action::Open)
            && a.ui_mode == UiMode::Pick && keyed(a, key, keys, mode, rows).0.picked is Some),
{
}

/// Text can be typed whatever the configuration binds: a character without
/// control and alt goes into the line.
pub proof fn typing_is_never_rebound(
    a: AppView,
    c: char,
    shift: bool,
    keys: Map<Key, Action>,
    mode: Mode,
    rows: Seq<RowView>,
)
    requires
        !a.help,
        a.menu is None,
    ensures
        ({
            let key = (KeyCode::Char(c), held(false, false, shift));
            let before = AppView { message: None, ..a };
            keyed(a, key, keys, mode, rows) == (refreshed(inserted(before, c)), plain_step(true))
        }),
{
}

/// Marking a row and marking it again leaves it unmarked, and other marks alone.
pub proof fn marks_are_toggled(a: AppView, rows: Seq<RowView>)
    requires
        a.ui_mode == UiMode::Open,
        0 <= a.selected < rows.len(),
    ensures
        ({
            let path = rows[a.selected].path;
            let b = mark_toggled(a, rows);
            let c = mark_toggled(AppView { selected: a.selected, ..b }, rows);
            &&& b.marks.contains(path) == !a.marks.contains(path)
            &&& c.marks.contains(path) == a.marks.contains(path)
            &&& forall|p: Seq<char>|
                p != path ==> #[trigger] b.marks.contains(p) == a.marks.contains(p)
        }),
{
    let path = rows[a.selected].path;
    lemma_others_members(a.marks, path, a.marks.len() as int);
    let b = mark_toggled(a, rows);
    lemma_others_members(b.marks, path, b.marks.len() as int);
    if !a.marks.contains(path) {
        assert(b.marks.last() == path);
        assert forall|p: Seq<char>| p != path implies #[trigger] b.marks.contains(p)
            == a.marks.contains(p) by {
            if a.marks.contains(p) {
                let i = choose|i: int| 0 <= i < a.marks.len() && a.marks[i] == p;
                assert(b.marks[i] == p);
            }
        }
    } else {
        let again = AppView { selected: a.selected, ..b };
        let c = mark_toggled(again, rows);
        assert(c.marks.last() == path);
    }
}

proof fn lemma_others_members(all: Seq<Seq<char>>, text: Seq<char>, n: int)
    requires
        0 <= n <= all.len(),
    ensures
        forall|p: Seq<char>| #[trigger]
            others(all, text, n).contains(p) == (p != text && exists|i: int|
                0 <= i < n && #[trigger] all[i] == p),
    decreases n,
{
    if n > 0 {
        lemma_others_members(all, text, n - 1);
        let before = others(all, text, n - 1);
        let now = others(all, text, n);
        assert forall|p: Seq<char>| #[trigger] now.contains(p) == (p != text && exists|i: int|
            0 <= i < n && #[trigger] all[i] == p) by {
            if now.contains(p) {
                let k = choose|k: int| 0 <= k < now.len() && now[k] == p;
                if k < before.len() {
                    assert(before[k] == p);
                    assert(before.contains(p));
                } else {
                    assert(all[n - 1] == p);
                }
            }
            if p != text && (exists|i: int| 0 <= i < n && #[trigger] all[i] == p) {
                let i = choose|i: int| 0 <= i < n && #[trigger] all[i] == p;
                if i < n - 1 {
                    assert(before.contains(p));
                    let k = choose|k: int| 0 <= k < before.len() && before[k] == p;
                    assert(now[k] == p);
                } else {
                    assert(now.last() == p);
                }
            }
        }
    }
}

/// Deleting what was typed restores the line and the cursor.
pub proof fn backspace_undoes_typing(a: AppView, c: char)
    requires
        a.is_valid(),
    ensures
        ({
            let b = inserted(a, c);
            without(b, b.cursor - 1, b.cursor) == a
        }),
{
    let b = inserted(a, c);
    assert(without(b, b.cursor - 1, b.cursor) =~= a);
}

/// Stepping back through the history and forward again returns to the same
/// entry.
pub proof fn history_steps_are_inverse(a: AppView, i: int)
    requires
        a.is_valid(),
        a.history_pos == Some(i),
        0 < i < a.history.len(),
    ensures
        history_stepped(history_stepped(a, true), false).history_pos == Some(i),
        history_stepped(history_stepped(a, true), false).input == a.history[i],
{
}

/// Moving the selection down and up again returns to the same row.
pub proof fn selection_moves_are_inverse(a: AppView, len: nat)
    requires
        0 <= a.selected < len,
    ensures
        moved(moved(a, len, true), len, false) == a,
        moved(moved(a, len, false), len, true) == a,
        0 <= moved(a, len, true).selected < len,
{
    let n = len as int;
    let s = a.selected;
    if s + 1 == n {
        vstd::arithmetic::div_mod::lemma_fundamental_div_mod_converse(s + 1, n, 1, 0);
        vstd::arithmetic::div_mod::lemma_fundamental_div_mod_converse(-1, n, -1, n - 1);
    } else {
        vstd::arithmetic::div_mod::lemma_small_mod((s + 1) as nat, len);
        vstd::arithmetic::div_mod::lemma_small_mod(s as nat, len);
    }
    if s == 0 {
        vstd::arithmetic::div_mod::lemma_fundamental_div_mod_converse(-1, n, -1, n - 1);
        vstd::arithmetic::div_mod::lemma_fundamental_div_mod_converse(n, n, 1, 0);
    } else {
        vstd::arithmetic::div_mod::lemma_small_mod((s - 1) as nat, len);
        vstd::arithmetic::div_mod::lemma_small_mod(s as nat, len);
    }
}

/// A query is in the history at most once after it was remembered, as the newest
/// entry.
pub proof fn remembered_queries_are_newest(a: AppView)
    requires
        trim(a.input).len() > 0,
    ensures
        remembered(a).history.last() == trim(a.input),
        forall|i: int|
            0 <= i < remembered(a).history.len() - 1 ==> (#[trigger] remembered(a).history[i])
                != trim(a.input),
{
    lemma_others(a.history, trim(a.input), a.history.len() as int);
}

proof fn lemma_others(history: Seq<Seq<char>>, query: Seq<char>, n: int)
    ensures
        forall|i: int|
            0 <= i < others(history, query, n).len() ==> (#[trigger] others(history, query, n)[i])
                != query,
    decreases n,
{
    if n > 0 {
        lemma_others(history, query, n - 1);
        let rest = others(history, query, n - 1);
        assert forall|i: int| 0 <= i < others(history, query, n).len() implies (#[trigger] others(
            history,
            query,
            n,
        )[i]) != query by {
            if i < rest.len() {
                assert(others(history, query, n)[i] == rest[i]);
            }
        }
    }
}


/// A typed character stands between what was before the cursor and what was
/// after it, and the cursor stands behind it.
pub proof fn typing_goes_to_the_cursor(a: AppView, c: char)
    requires
        a.is_valid(),
    ensures
        inserted(a, c).input == a.input.take(a.cursor) + seq![c] + a.input.skip(a.cursor),
        inserted(a, c).input.take(inserted(a, c).cursor) == a.input.take(a.cursor).push(c),
{
    assert(inserted(a, c).input =~= a.input.take(a.cursor) + seq![c] + a.input.skip(a.cursor));
    assert(inserted(a, c).input.take(inserted(a, c).cursor) =~= a.input.take(a.cursor).push(c));
}

proof fn lemma_before_spaces(s: Seq<char>, end: int, n: int)
    requires
        0 <= end <= n <= s.len(),
        forall|i: int| end <= i < n ==> is_space(#[trigger] s[i]),
        end == 0 || !is_space(s[end - 1]),
    ensures
        before_spaces(s, n) == end,
    decreases n,
{
    if end < n {
        lemma_before_spaces(s, end, n - 1);
    }
}

proof fn lemma_before_word(s: Seq<char>, start: int, n: int)
    requires
        0 <= start <= n <= s.len(),
        forall|i: int| start <= i < n ==> !is_space(#[trigger] s[i]),
        start == 0 || is_space(s[start - 1]),
    ensures
        before_word(s, n) == start,
    decreases n,
{
    if start < n {
        lemma_before_word(s, start, n - 1);
    }
}

/// Deleting a word takes the last word before the cursor with the spaces behind
/// it, and leaves what stands before and after.
pub proof fn words_are_deleted_backwards(
    a: AppView,
    before: Seq<char>,
    word: Seq<char>,
    gap: Seq<char>,
    after: Seq<char>,
)
    requires
        a.input == before + word + gap + after,
        a.cursor == before.len() + word.len() + gap.len(),
        before.len() == 0 || is_space(before.last()),
        word.len() > 0,
        forall|i: int| 0 <= i < word.len() ==> !is_space(#[trigger] word[i]),
        forall|i: int| 0 <= i < gap.len() ==> is_space(#[trigger] gap[i]),
    ensures
        ({
            let b = without(a, word_start(a.input, a.cursor), a.cursor);
            b.input == before + after && b.cursor == before.len()
        }),
{
    let s = a.input;
    let (p, q) = (before.len() as int, before.len() as int + word.len());
    assert forall|i: int| p <= i < q implies !is_space(#[trigger] s[i]) by {
        assert(s[i] == word[i - p]);
    }
    assert forall|i: int| q <= i < a.cursor implies is_space(#[trigger] s[i]) by {
        assert(s[i] == gap[i - q]);
    }
    if p > 0 {
        assert(s[p - 1] == before.last());
    }
    lemma_before_spaces(s, q, a.cursor);
    lemma_before_word(s, p, q);
    assert(s.take(p) + s.skip(a.cursor) =~= before + after);
}

/// Going down leads to the next row, and from the last to the first; going up
/// leads the other way.
pub proof fn the_selection_goes_row_by_row(a: AppView, len: nat)
    requires
        0 <= a.selected < len,
    ensures
        moved(a, len, true).selected == if a.selected + 1 < len {
            a.selected + 1
        } else {
            0
        },
        moved(a, len, false).selected == if a.selected > 0 {
            a.selected - 1
        } else {
            len - 1
        },
{
    let n = len as int;
    let s = a.selected;
    if s + 1 == n {
        vstd::arithmetic::div_mod::lemma_fundamental_div_mod_converse(s + 1, n, 1, 0);
    } else {
        vstd::arithmetic::div_mod::lemma_small_mod((s + 1) as nat, len);
    }
    if s == 0 {
        vstd::arithmetic::div_mod::lemma_fundamental_div_mod_converse(-1, n, -1, n - 1);
    } else {
        vstd::arithmetic::div_mod::lemma_small_mod((s - 1) as nat, len);
    }
}

/// The history is gone through from the newest entry back to the oldest, and
/// forward again to a blank query. The entry stands on the line with the cursor
/// behind it.
pub proof fn the_history_goes_back_from_the_newest(a: AppView, i: int)
    requires
        a.history.len() > 0,
        0 <= i < a.history.len(),
    ensures
        ({
            let fresh = AppView { history_pos: None, ..a };
            let at = AppView { history_pos: Some(i), ..a };
            let last = a.history.len() - 1;
            &&& history_stepped(fresh, true).input == a.history[last]
            &&& history_stepped(fresh, false) == fresh
            &&& i > 0 ==> history_stepped(at, true).input == a.history[i - 1]
            &&& i == 0 ==> history_stepped(at, true).input == a.history[0]
            &&& i < last ==> history_stepped(at, false).input == a.history[i + 1]
            &&& i == last ==> history_stepped(at, false).input.len() == 0 && history_stepped(
                at,
                false,
            ).history_pos is None
            &&& history_stepped(at, true).cursor == history_stepped(at, true).input.len()
            &&& history_stepped(at, true).history == a.history
        }),
{
}

/// Enter works on the selected row: it is opened, or copied where it is the
/// result of a calculation, or picked. The query is remembered without the
/// spaces around it.
pub proof fn enter_takes_the_selected_row(a: AppView, mode: Mode, rows: Seq<RowView>)
    requires
        0 <= a.selected < rows.len(),
    ensures
        ({
            let (b, step) = entered(a, mode, rows);
            let path = rows[a.selected].path;
            &&& a.ui_mode == UiMode::Pick ==> b.picked == Some(path) && !step.go_on && step.action
                is None
            &&& a.ui_mode == UiMode::Open && mode == Mode::Calc ==> step.action == Some(
                (FileAction::Copy, seq![path]),
            )
            &&& a.ui_mode == UiMode::Open && mode != Mode::Calc ==> step.action == Some(
                (FileAction::Open, seq![path]),
            )
            &&& a.ui_mode == UiMode::Open ==> step.go_on && b.picked == a.picked
            &&& step.recorded == if trim(a.input).len() == 0 {
                None
            } else {
                Some(trim(a.input))
            }
            &&& b.input == a.input
        }),
{
}

/// The marked rows are taken in the order of the list, each that is marked and
/// no other.
pub proof fn marked_rows_are_taken_in_order(rows: Seq<RowView>, marks: Seq<Seq<char>>, n: int)
    requires
        0 <= n < rows.len(),
    ensures
        marked_paths(rows, marks, 0).len() == 0,
        marks.contains(rows[n].path) ==> marked_paths(rows, marks, n + 1) == marked_paths(
            rows,
            marks,
            n,
        ).push(rows[n].path),
        !marks.contains(rows[n].path) ==> marked_paths(rows, marks, n + 1) == marked_paths(
            rows,
            marks,
            n,
        ),
{
}

/// Folding hides the weak rows and never all: what is shown are the strong rows,
/// or every row where none is strong or the list is not folded.
pub proof fn folding_hides_weak_rows(len: nat, strong: nat, folded: bool)
    ensures
        above_fold(len, strong, folded) <= len,
        len > 0 ==> above_fold(len, strong, folded) > 0,
        !folded ==> above_fold(len, strong, folded) == len,
        folded && 0 < strong <= len ==> above_fold(len, strong, folded) == strong,
        above_fold(len, 0, folded) == len,
{
}


/// The preview is that of the selected row: it is asked for once, from its start,
/// and the answer to that is wanted. Answers to earlier requests, and for other
/// rows, are not.
pub proof fn previews_follow_the_selection(
    a: AppView,
    rows: Seq<RowView>,
    other: Seq<char>,
    number: Option<u64>,
)
    requires
        0 <= a.selected < rows.len(),
    ensures
        ({
            let (b, ask) = preview_asked(a, rows);
            let row = rows[a.selected];
            &&& b.preview_for == Some((row.path, row.line_number))
            &&& preview_asked(b, rows) == (b, AskView::Kept)
            &&& ask matches AskView::Load(generation, path, line_number) ==> {
                &&& path == row.path && line_number == row.line_number
                &&& b.preview_scroll == 0
                &&& is_wanted(b, generation, path, line_number)
                &&& !is_wanted(b, a.preview_gen, path, line_number)
                &&& (other, number) != (path, line_number) ==> !is_wanted(
                    b,
                    generation,
                    other,
                    number,
                )
            }
            &&& ask matches AskView::List(path) ==> path == row.path && path.len() > 0
                && path.last() == '/'
            &&& ask !is NoSelection
        }),
{
}

/// The scroll position stays where it is on the lines, and else goes to the last.
pub proof fn scrolling_stays_on_the_lines(scroll: int, len: nat)
    requires
        0 <= scroll,
    ensures
        scroll < len ==> scroll_within(scroll, len) == scroll,
        0 < len <= scroll ==> scroll_within(scroll, len) == len - 1,
        scroll_within(scroll, 0) == 0,
{
}

} // verus!
