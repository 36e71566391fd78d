//! Command keybindings, remappable by the configuration.
//!
//! Text editing keys are never remappable (see [`is_editing_key`]):
//! - plain characters (typing), backspace, left/right cursor movement
//! - readline-style ctrl-a / ctrl-e / ctrl-w / ctrl-d

use crate::order::{lemma_same_members, sort, Ordered};
use crate::pathmap::PathMap;
use crate::text::{
    all_digits, ascii_lower, ascii_lower_all, chars_of, decimal, digits_of, is_space,
    lemma_text_order, lemma_texts_push, lower_string, parse_digits, push_decimal, same,
    string_of_range, text_less, text_lt, texts, trim, trimmed, trimming_cuts_outer_spaces,
};
use vstd::prelude::*;
use vstd::string::*;

verus! {

/// A key of the keyboard.
#[derive(Debug, Clone, Copy, PartialEq, Eq, Structural)]
pub enum KeyCode {
    Esc,
    Enter,
    Tab,
    Char(char),
    Up,
    Down,
    Left,
    Right,
    PageUp,
    PageDown,
    Backspace,
    Delete,
    Home,
    End,
    F(u8),
    Other,
}

#[derive(Debug, Clone, Copy, PartialEq, Eq, Structural)]
pub struct KeyModifiers {
    pub control: bool,
    pub alt: bool,
    pub shift: bool,
}

/// Modifiers by whether control, alt and shift are held.
pub open spec fn held(control: bool, alt: bool, shift: bool) -> KeyModifiers {
    KeyModifiers { control, alt, shift }
}

impl KeyModifiers {
    pub fn none() -> (r: KeyModifiers)
        ensures
            r == held(false, false, false),
    {
        KeyModifiers { control: false, alt: false, shift: false }
    }

    pub fn control() -> (r: KeyModifiers)
        ensures
            r == held(true, false, false),
    {
        KeyModifiers { control: true, alt: false, shift: false }
    }

    pub fn alt() -> (r: KeyModifiers)
        ensures
            r == held(false, true, false),
    {
        KeyModifiers { control: false, alt: true, shift: false }
    }
}

pub type Key = (KeyCode, KeyModifiers);

/// A command the UI can run, mapped from one or more keys.
#[derive(Debug, Clone, Copy, PartialEq, Eq, Structural)]
pub enum Action {
    Quit,
    Open,
    Menu,
    QuickLook,
    CopyPath,
    Reveal,
    ClearQuery,
    RegexToggle,
    HistoryPrev,
    HistoryNext,
    MoveUp,
    MoveDown,
    PreviewLayout,
    DensityToggle,
    FoldToggle,
    ThemeCycle,
    PreviewPageUp,
    PreviewPageDown,
    Help,
    ToggleMark,
    ClearMarks,
}

// ------------------------------------------------------------------ key specs

pub open spec fn is_separator(c: char) -> bool {
    c == '-' || c == '+'
}

/// The parts of a text between separators.
pub open spec fn split_spec(s: Seq<char>) -> Seq<Seq<char>>
    decreases s.len(),
{
    if s.len() == 0 {
        seq![Seq::empty()]
    } else {
        let before = split_spec(s.drop_last());
        if is_separator(s.last()) {
            before.push(Seq::empty())
        } else {
            before.drop_last().push(before.last().push(s.last()))
        }
    }
}

pub open spec fn is_modifier(part: Seq<char>) -> bool {
    part == "ctrl"@ || part == "alt"@ || part == "shift"@
}

/// The key that a name stands for.
pub open spec fn base_key(base: Seq<char>) -> Option<KeyCode> {
    if base == "esc"@ {
        Some(KeyCode::Esc)
    } else if base == "enter"@ || base == "return"@ {
        Some(KeyCode::Enter)
    } else if base == "tab"@ {
        Some(KeyCode::Tab)
    } else if base == "space"@ {
        Some(KeyCode::Char(' '))
    } else if base == "up"@ {
        Some(KeyCode::Up)
    } else if base == "down"@ {
        Some(KeyCode::Down)
    } else if base == "left"@ {
        Some(KeyCode::Left)
    } else if base == "right"@ {
        Some(KeyCode::Right)
    } else if base == "pgup"@ || base == "pageup"@ {
        Some(KeyCode::PageUp)
    } else if base == "pgdn"@ || base == "pagedown"@ {
        Some(KeyCode::PageDown)
    } else if base == "backspace"@ {
        Some(KeyCode::Backspace)
    } else if base == "delete"@ || base == "del"@ {
        Some(KeyCode::Delete)
    } else if base == "home"@ {
        Some(KeyCode::Home)
    } else if base == "end"@ {
        Some(KeyCode::End)
    } else if is_function_key(base) {
        Some(KeyCode::F(decimal(base.skip(1)) as u8))
    } else if base.len() == 1 {
        Some(KeyCode::Char(base[0]))
    } else {
        None
    }
}

/// `f` and a number from 1 to 12.
pub open spec fn is_function_key(base: Seq<char>) -> bool {
    &&& base.len() > 1
    &&& base[0] == 'f'
    &&& all_digits(base.skip(1))
    &&& 1 <= decimal(base.skip(1)) <= 12
}

pub open spec fn among(parts: Seq<Seq<char>>, n: int, word: Seq<char>) -> bool {
    exists|i: int| 0 <= i < n && #[trigger] parts[i] == word
}

/// The key that a spec stands for: modifiers, then one key, separated by
/// hyphens or plus signs, in any case.
pub open spec fn key_of_spec(spec: Seq<char>) -> Option<Key> {
    let lower = ascii_lower_all(trim(spec));
    let parts = split_spec(lower);
    let n = parts.len() - 1;
    if lower.len() == 0 || is_modifier(parts[n]) || base_key(parts[n]) is None || exists|i: int|
        0 <= i < n && !is_modifier(#[trigger] parts[i]) {
        None
    } else {
        Some(
            (
                base_key(parts[n])->Some_0,
                KeyModifiers {
                    control: among(parts, n, "ctrl"@),
                    alt: among(parts, n, "alt"@),
                    shift: among(parts, n, "shift"@),
                },
            ),
        )
    }
}

proof fn lemma_split_nonempty(s: Seq<char>)
    ensures
        split_spec(s).len() > 0,
    decreases s.len(),
{
    if s.len() > 0 {
        lemma_split_nonempty(s.drop_last());
    }
}

fn split_parts(s: &[char]) -> (r: Vec<String>)
    ensures
        texts(r@) == split_spec(s@),
        r@.len() > 0,
{
    let mut parts: Vec<String> = Vec::new();
    let mut from: usize = 0;
    let mut i: usize = 0;
    assert(s@.take(0) =~= Seq::empty());
    assert(texts(parts@).push(s@.subrange(0, 0)) =~= split_spec(s@.take(0)));
    while i < s.len()
        invariant
            from <= i <= s@.len(),
            texts(parts@).push(s@.subrange(from as int, i as int)) == split_spec(
                s@.take(i as int),
            ),
        decreases s@.len() - i,
    {
        let ghost before = texts(parts@).push(s@.subrange(from as int, i as int));
        assert(s@.take(i + 1).drop_last() =~= s@.take(i as int));
        if s[i] == '-' || s[i] == '+' {
            let part = string_of_range(s, from, i);
            proof {
                lemma_texts_push(parts@, part);
            }
            parts.push(part);
            from = i + 1;
            assert(s@.subrange(from as int, i + 1) =~= Seq::empty());
            assert(texts(parts@).push(s@.subrange(from as int, i + 1)) =~= before.push(
                Seq::empty(),
            ));
        } else {
            assert(before.drop_last() =~= texts(parts@));
            assert(s@.subrange(from as int, i + 1) =~= s@.subrange(from as int, i as int).push(
                s@[i as int],
            ));
        }
        i += 1;
    }
    assert(s@.take(i as int) =~= s@);
    let part = string_of_range(s, from, i);
    proof {
        lemma_texts_push(parts@, part);
    }
    parts.push(part);
    parts
}

fn parse_base(base: &str) -> (r: Option<KeyCode>)
    ensures
        r == base_key(base@),
{
    if same(base, "esc") {
        Some(KeyCode::Esc)
    } else if same(base, "enter") || same(base, "return") {
        Some(KeyCode::Enter)
    } else if same(base, "tab") {
        Some(KeyCode::Tab)
    } else if same(base, "space") {
        Some(KeyCode::Char(' '))
    } else if same(base, "up") {
        Some(KeyCode::Up)
    } else if same(base, "down") {
        Some(KeyCode::Down)
    } else if same(base, "left") {
        Some(KeyCode::Left)
    } else if same(base, "right") {
        Some(KeyCode::Right)
    } else if same(base, "pgup") || same(base, "pageup") {
        Some(KeyCode::PageUp)
    } else if same(base, "pgdn") || same(base, "pagedown") {
        Some(KeyCode::PageDown)
    } else if same(base, "backspace") {
        Some(KeyCode::Backspace)
    } else if same(base, "delete") || same(base, "del") {
        Some(KeyCode::Delete)
    } else if same(base, "home") {
        Some(KeyCode::Home)
    } else if same(base, "end") {
        Some(KeyCode::End)
    } else {
        let s = chars_of(base);
        if s.len() > 1 && s[0] == 'f' {
            let digits = vstd::slice::slice_subrange(s.as_slice(), 1, s.len());
            assert(digits@ =~= s@.skip(1));
            match parse_digits(digits) {
                Some(n) => {
                    if 1 <= n && n <= 12 {
                        return Some(KeyCode::F(n as u8));
                    }
                },
                None => {},
            }
        }
        if s.len() == 1 {
            Some(KeyCode::Char(s[0]))
        } else {
            None
        }
    }
}

/// Parses a key spec like `"ctrl-y"`, `"CTRL+Y"`, `"alt+shift-x"`, `"f5"`,
/// `"pgdn"`, `"ctrl-space"` or `"x"`. Case-insensitive; modifiers (`ctrl`,
/// `alt`, `shift`) come first and are dash- or plus-separated from the base
/// key. Returns `None` for anything unrecognized.
pub fn parse_key(spec: &str) -> (r: Option<Key>)
    ensures
        r == key_of_spec(spec@),
{
    let lower = lower_string(&trimmed(&chars_of(spec)));
    let chars = chars_of(&lower);
    if chars.len() == 0 {
        return None;
    }
    let parts = split_parts(&chars);
    let ghost all = texts(parts@);
    let n: usize = parts.len() - 1;
    let mut mods = KeyModifiers::none();
    let mut i: usize = 0;
    while i < n
        invariant
            i <= n,
            n + 1 == parts@.len(),
            all == texts(parts@),
            lower@ == ascii_lower_all(trim(spec@)),
            lower@.len() > 0,
            all == split_spec(lower@),
            forall|k: int| 0 <= k < i ==> is_modifier(#[trigger] all[k]),
            mods.control == among(all, i as int, "ctrl"@),
            mods.alt == among(all, i as int, "alt"@),
            mods.shift == among(all, i as int, "shift"@),
        decreases n - i,
    {
        assert(all[i as int] == parts@[i as int]@);
        let part = parts[i].as_str();
        let (a, b, c) = (same(part, "ctrl"), same(part, "alt"), same(part, "shift"));
        if !a && !b && !c {
            return None;
        }
        proof {
            lemma_among_step(all, i as int, "ctrl"@);
            lemma_among_step(all, i as int, "alt"@);
            lemma_among_step(all, i as int, "shift"@);
        }
        mods = KeyModifiers {
            control: mods.control || a,
            alt: mods.alt || b,
            shift: mods.shift || c,
        };
        i += 1;
    }
    assert(all[n as int] == parts@[n as int]@);
    let last = parts[n].as_str();
    if same(last, "ctrl") || same(last, "alt") || same(last, "shift") {
        return None;
    }
    match parse_base(last) {
        Some(code) => Some((code, mods)),
        None => None,
    }
}

proof fn lemma_among_step(parts: Seq<Seq<char>>, i: int, word: Seq<char>)
    requires
        0 <= i < parts.len(),
    ensures
        among(parts, i + 1, word) == (among(parts, i, word) || parts[i] == word),
{
    if among(parts, i, word) {
        let k = choose|k: int| 0 <= k < i && #[trigger] parts[k] == word;
        assert(parts[k] == word);
    }
    if parts[i] == word {
        assert(0 <= i < i + 1);
    }
}

/// Editing keys that can never be rebound:
/// - plain (and shifted) characters insert text
/// - backspace deletes backward
/// - left/right move the edit cursor
/// - ctrl-a / ctrl-e / ctrl-w / ctrl-d are readline-style editing
pub open spec fn is_reserved(key: Key) -> bool {
    match key.0 {
        KeyCode::Char(c) => {
            ||| !key.1.control && !key.1.alt
            ||| key.1.control && (c == 'a' || c == 'e' || c == 'w' || c == 'd')
        },
        KeyCode::Backspace => true,
        KeyCode::Left => true,
        KeyCode::Right => true,
        _ => false,
    }
}

pub fn is_editing_key(code: KeyCode, mods: KeyModifiers) -> (r: bool)
    ensures
        r == is_reserved((code, mods)),
{
    match code {
        KeyCode::Char(c) => (!mods.control && !mods.alt) || (mods.control && (c == 'a' || c == 'e'
            || c == 'w' || c == 'd')),
        KeyCode::Backspace => true,
        KeyCode::Left => true,
        KeyCode::Right => true,
        _ => false,
    }
}

/// The keys that a list of specs binds: those that parse and are not reserved.
pub open spec fn usable(specs: Seq<Seq<char>>) -> Seq<Key>
    decreases specs.len(),
{
    if specs.len() == 0 {
        Seq::empty()
    } else {
        let before = usable(specs.drop_last());
        match key_of_spec(specs.last()) {
            Some(key) => if is_reserved(key) {
                before
            } else {
                before.push(key)
            },
            None => before,
        }
    }
}

/// Parses a key spec list, silently dropping unparsable specs and reserved
/// editing keys.
pub fn parse_specs(specs: &Vec<String>) -> (r: Vec<Key>)
    ensures
        r@ == usable(texts(specs@)),
{
    let ghost all = texts(specs@);
    let mut keys: Vec<Key> = Vec::new();
    let mut i: usize = 0;
    assert(all.take(0) =~= Seq::empty());
    while i < specs.len()
        invariant
            i <= specs@.len(),
            all == texts(specs@),
            keys@ == usable(all.take(i as int)),
        decreases specs@.len() - i,
    {
        proof {
            assert(all.take(i + 1).drop_last() =~= all.take(i as int));
            assert(all[i as int] == specs@[i as int]@);
        }
        match parse_key(&specs[i]) {
            Some((code, mods)) => {
                if !is_editing_key(code, mods) {
                    keys.push((code, mods));
                }
            },
            None => {},
        }
        i += 1;
    }
    assert(all.take(i as int) =~= all);
    keys
}

// ------------------------------------------------------------------- actions

impl Action {
    /// The name of the action in the configuration.
    pub open spec fn config_name(self) -> Seq<char> {
        match self {
            Action::Quit => "quit"@,
            Action::Open => "open"@,
            Action::Menu => "menu"@,
            Action::QuickLook => "quick_look"@,
            Action::CopyPath => "copy_path"@,
            Action::Reveal => "reveal"@,
            Action::ClearQuery => "clear_query"@,
            Action::RegexToggle => "regex_toggle"@,
            Action::HistoryPrev => "history_prev"@,
            Action::HistoryNext => "history_next"@,
            Action::MoveUp => "move_up"@,
            Action::MoveDown => "move_down"@,
            Action::PreviewLayout => "preview_layout"@,
            Action::DensityToggle => "density_toggle"@,
            Action::FoldToggle => "fold_toggle"@,
            Action::ThemeCycle => "theme_cycle"@,
            Action::PreviewPageUp => "preview_page_up"@,
            Action::PreviewPageDown => "preview_page_down"@,
            Action::Help => "help"@,
            Action::ToggleMark => "toggle_mark"@,
            Action::ClearMarks => "clear_marks"@,
        }
    }

    pub fn name(self) -> (r: &'static str)
        ensures
            r@ == self.config_name(),
    {
        match self {
            Action::Quit => "quit",
            Action::Open => "open",
            Action::Menu => "menu",
            Action::QuickLook => "quick_look",
            Action::CopyPath => "copy_path",
            Action::Reveal => "reveal",
            Action::ClearQuery => "clear_query",
            Action::RegexToggle => "regex_toggle",
            Action::HistoryPrev => "history_prev",
            Action::HistoryNext => "history_next",
            Action::MoveUp => "move_up",
            Action::MoveDown => "move_down",
            Action::PreviewLayout => "preview_layout",
            Action::DensityToggle => "density_toggle",
            Action::FoldToggle => "fold_toggle",
            Action::ThemeCycle => "theme_cycle",
            Action::PreviewPageUp => "preview_page_up",
            Action::PreviewPageDown => "preview_page_down",
            Action::Help => "help",
            Action::ToggleMark => "toggle_mark",
            Action::ClearMarks => "clear_marks",
        }
    }

    pub open spec fn shown_label(self) -> Seq<char> {
        match self {
            Action::Quit => "quit"@,
            Action::Open => "open"@,
            Action::Menu => "actions menu"@,
            Action::QuickLook => "quick look"@,
            Action::CopyPath => "copy path"@,
            Action::Reveal => "reveal in finder"@,
            Action::ClearQuery => "clear query"@,
            Action::RegexToggle => "toggle regex"@,
            Action::HistoryPrev => "history back"@,
            Action::HistoryNext => "history forward"@,
            Action::MoveUp => "move up"@,
            Action::MoveDown => "move down"@,
            Action::PreviewLayout => "preview layout"@,
            Action::DensityToggle => "row density"@,
            Action::FoldToggle => "fold weak matches"@,
            Action::ThemeCycle => "cycle theme"@,
            Action::PreviewPageUp => "preview page up"@,
            Action::PreviewPageDown => "preview page down"@,
            Action::Help => "help"@,
            Action::ToggleMark => "toggle mark"@,
            Action::ClearMarks => "clear marks"@,
        }
    }

    /// Human-readable name shown in the help overlay.
    pub fn label(self) -> (r: &'static str)
        ensures
            r@ == self.shown_label(),
    {
        match self {
            Action::Quit => "quit",
            Action::Open => "open",
            Action::Menu => "actions menu",
            Action::QuickLook => "quick look",
            Action::CopyPath => "copy path",
            Action::Reveal => "reveal in finder",
            Action::ClearQuery => "clear query",
            Action::RegexToggle => "toggle regex",
            Action::HistoryPrev => "history back",
            Action::HistoryNext => "history forward",
            Action::MoveUp => "move up",
            Action::MoveDown => "move down",
            Action::PreviewLayout => "preview layout",
            Action::DensityToggle => "row density",
            Action::FoldToggle => "fold weak matches",
            Action::ThemeCycle => "cycle theme",
            Action::PreviewPageUp => "preview page up",
            Action::PreviewPageDown => "preview page down",
            Action::Help => "help",
            Action::ToggleMark => "toggle mark",
            Action::ClearMarks => "clear marks",
        }
    }

    pub open spec fn shown_group(self) -> Seq<char> {
        match self {
            Action::MoveUp | Action::MoveDown | Action::HistoryPrev | Action::HistoryNext
            | Action::Quit => "navigation"@,
            Action::Open | Action::Menu | Action::QuickLook | Action::CopyPath | Action::Reveal
            | Action::ToggleMark | Action::ClearMarks => "open & actions"@,
            Action::PreviewLayout | Action::DensityToggle | Action::FoldToggle | Action::ThemeCycle
            | Action::PreviewPageUp | Action::PreviewPageDown => "view"@,
            Action::RegexToggle | Action::ClearQuery | Action::Help => "query modes"@,
        }
    }

    /// Display group used by the keymap-driven help overlay.
    pub fn help_group(self) -> (r: &'static str)
        ensures
            r@ == self.shown_group(),
    {
        match self {
            Action::MoveUp | Action::MoveDown | Action::HistoryPrev | Action::HistoryNext
            | Action::Quit => "navigation",
            Action::Open | Action::Menu | Action::QuickLook | Action::CopyPath | Action::Reveal
            | Action::ToggleMark | Action::ClearMarks => "open & actions",
            Action::PreviewLayout | Action::DensityToggle | Action::FoldToggle | Action::ThemeCycle
            | Action::PreviewPageUp | Action::PreviewPageDown => "view",
            Action::RegexToggle | Action::ClearQuery | Action::Help => "query modes",
        }
    }
}

/// Every action, ordered by its name in the configuration.
pub open spec fn by_name() -> Seq<Action> {
    seq![
        Action::ClearMarks,
        Action::ClearQuery,
        Action::CopyPath,
        Action::DensityToggle,
        Action::FoldToggle,
        Action::Help,
        Action::HistoryNext,
        Action::HistoryPrev,
        Action::Menu,
        Action::MoveDown,
        Action::MoveUp,
        Action::Open,
        Action::PreviewLayout,
        Action::PreviewPageDown,
        Action::PreviewPageUp,
        Action::QuickLook,
        Action::Quit,
        Action::RegexToggle,
        Action::Reveal,
        Action::ThemeCycle,
        Action::ToggleMark,
    ]
}

fn actions_by_name() -> (r: Vec<Action>)
    ensures
        r@ == by_name(),
{
    let r: Vec<Action> = vec![
        Action::ClearMarks,
        Action::ClearQuery,
        Action::CopyPath,
        Action::DensityToggle,
        Action::FoldToggle,
        Action::Help,
        Action::HistoryNext,
        Action::HistoryPrev,
        Action::Menu,
        Action::MoveDown,
        Action::MoveUp,
        Action::Open,
        Action::PreviewLayout,
        Action::PreviewPageDown,
        Action::PreviewPageUp,
        Action::QuickLook,
        Action::Quit,
        Action::RegexToggle,
        Action::Reveal,
        Action::ThemeCycle,
        Action::ToggleMark,
    ];
    assert(r@ =~= by_name());
    r
}

/// Texts that first differ at `d`.
proof fn lemma_lt_at(a: Seq<char>, b: Seq<char>, d: int)
    requires
        0 <= d < b.len(),
        d <= a.len(),
        forall|i: int| 0 <= i < d ==> a[i] == b[i],
        d == a.len() || (a[d] as int) < (b[d] as int),
    ensures
        text_lt(a, b),
    decreases d,
{
    if d > 0 {
        lemma_lt_at(a.drop_first(), b.drop_first(), d - 1);
    }
}

/// The actions are listed in the order of their names.
pub proof fn names_are_in_order(i: int)
    requires
        0 <= i < 20,
    ensures
        text_lt(by_name()[i].config_name(), by_name()[i + 1].config_name()),
{
    let a = by_name()[i].config_name();
    let b = by_name()[i + 1].config_name();
    reveal_strlit("clear_marks");
    reveal_strlit("clear_query");
    reveal_strlit("copy_path");
    reveal_strlit("density_toggle");
    reveal_strlit("fold_toggle");
    reveal_strlit("help");
    reveal_strlit("history_next");
    reveal_strlit("history_prev");
    reveal_strlit("menu");
    reveal_strlit("move_down");
    reveal_strlit("move_up");
    reveal_strlit("open");
    reveal_strlit("preview_layout");
    reveal_strlit("preview_page_down");
    reveal_strlit("preview_page_up");
    reveal_strlit("quick_look");
    reveal_strlit("quit");
    reveal_strlit("regex_toggle");
    reveal_strlit("reveal");
    reveal_strlit("theme_cycle");
    reveal_strlit("toggle_mark");
    let d = if i == 0 {
        6
    } else if i == 1 || i == 5 || i == 8 || i == 19 || i == 18 {
        if i == 18 {
            0int
        } else {
            1
        }
    } else if i == 6 || i == 12 {
        8
    } else if i == 9 {
        5
    } else if i == 13 {
        13
    } else if i == 15 || i == 17 {
        if i == 15 {
            3
        } else {
            2
        }
    } else {
        0
    };
    lemma_lt_at(a, b, d);
}

// ------------------------------------------------------------------ bindings

/// The default bindings.
pub open spec fn default_keys() -> Seq<(Key, Action)> {
    let none = held(false, false, false);
    let ctrl = held(true, false, false);
    let alt = held(false, true, false);
    seq![
        ((KeyCode::Esc, none), Action::Quit),
        ((KeyCode::Char('c'), ctrl), Action::Quit),
        ((KeyCode::Enter, none), Action::Open),
        ((KeyCode::Right, none), Action::Menu),
        ((KeyCode::Char(' '), ctrl), Action::QuickLook),
        ((KeyCode::Char('y'), ctrl), Action::CopyPath),
        ((KeyCode::Char('f'), ctrl), Action::Reveal),
        ((KeyCode::Char('u'), ctrl), Action::ClearQuery),
        ((KeyCode::Char('r'), ctrl), Action::RegexToggle),
        ((KeyCode::Char('p'), ctrl), Action::HistoryPrev),
        ((KeyCode::Char('n'), ctrl), Action::HistoryNext),
        ((KeyCode::Up, none), Action::MoveUp),
        ((KeyCode::Char('k'), ctrl), Action::MoveUp),
        ((KeyCode::Down, none), Action::MoveDown),
        ((KeyCode::Char('j'), ctrl), Action::MoveDown),
        ((KeyCode::Tab, none), Action::PreviewLayout),
        ((KeyCode::Char('t'), ctrl), Action::DensityToggle),
        ((KeyCode::Char('x'), ctrl), Action::FoldToggle),
        ((KeyCode::Char('g'), ctrl), Action::ThemeCycle),
        ((KeyCode::PageUp, none), Action::PreviewPageUp),
        ((KeyCode::PageDown, none), Action::PreviewPageDown),
        ((KeyCode::F(1), none), Action::Help),
        ((KeyCode::Char('o'), ctrl), Action::Help),
        ((KeyCode::Char('b'), ctrl), Action::ToggleMark),
        ((KeyCode::Char('b'), alt), Action::ClearMarks),
    ]
}

fn default_bindings() -> (r: Vec<(Key, Action)>)
    ensures
        r@ == default_keys(),
{
    let none = KeyModifiers::none();
    let ctrl = KeyModifiers::control();
    let alt = KeyModifiers::alt();
    let r: Vec<(Key, Action)> = vec![
        ((KeyCode::Esc, none), Action::Quit),
        ((KeyCode::Char('c'), ctrl), Action::Quit),
        ((KeyCode::Enter, none), Action::Open),
        ((KeyCode::Right, none), Action::Menu),
        ((KeyCode::Char(' '), ctrl), Action::QuickLook),
        ((KeyCode::Char('y'), ctrl), Action::CopyPath),
        ((KeyCode::Char('f'), ctrl), Action::Reveal),
        ((KeyCode::Char('u'), ctrl), Action::ClearQuery),
        ((KeyCode::Char('r'), ctrl), Action::RegexToggle),
        ((KeyCode::Char('p'), ctrl), Action::HistoryPrev),
        ((KeyCode::Char('n'), ctrl), Action::HistoryNext),
        ((KeyCode::Up, none), Action::MoveUp),
        ((KeyCode::Char('k'), ctrl), Action::MoveUp),
        ((KeyCode::Down, none), Action::MoveDown),
        ((KeyCode::Char('j'), ctrl), Action::MoveDown),
        ((KeyCode::Tab, none), Action::PreviewLayout),
        ((KeyCode::Char('t'), ctrl), Action::DensityToggle),
        ((KeyCode::Char('x'), ctrl), Action::FoldToggle),
        ((KeyCode::Char('g'), ctrl), Action::ThemeCycle),
        ((KeyCode::PageUp, none), Action::PreviewPageUp),
        ((KeyCode::PageDown, none), Action::PreviewPageDown),
        ((KeyCode::F(1), none), Action::Help),
        ((KeyCode::Char('o'), ctrl), Action::Help),
        ((KeyCode::Char('b'), ctrl), Action::ToggleMark),
        ((KeyCode::Char('b'), alt), Action::ClearMarks),
    ];
    assert(r@ =~= default_keys());
    r
}

/// The keys that the configuration gives an action.
pub open spec fn override_keys(
    overrides: Map<Seq<char>, Vec<String>>,
    action: Action,
) -> Seq<Key> {
    if overrides.dom().contains(action.config_name()) {
        usable(texts(overrides[action.config_name()]@))
    } else {
        Seq::empty()
    }
}

/// The action has usable keys of its own; its defaults no longer count.
pub open spec fn is_overridden(
    overrides: Map<Seq<char>, Vec<String>>,
    action: Action,
) -> bool {
    override_keys(overrides, action).len() > 0
}

/// The default bindings that are left, up to the `n`th.
pub open spec fn kept_defaults(
    overrides: Map<Seq<char>, Vec<String>>,
    n: int,
) -> Map<Key, Action>
    decreases n,
{
    if n <= 0 {
        Map::empty()
    } else {
        let (key, action) = default_keys()[n - 1];
        if is_overridden(overrides, action) {
            kept_defaults(overrides, n - 1)
        } else {
            kept_defaults(overrides, n - 1).insert(key, action)
        }
    }
}

/// The first `n` keys bound to an action, over what was bound before.
pub open spec fn bind_keys(m: Map<Key, Action>, keys: Seq<Key>, n: int, action: Action) -> Map<
    Key,
    Action,
>
    decreases n,
{
    if n <= 0 {
        m
    } else {
        bind_keys(m, keys, n - 1, action).insert(keys[n - 1], action)
    }
}

/// The bindings with the overrides of the first `n` actions by name.
pub open spec fn bound_upto(overrides: Map<Seq<char>, Vec<String>>, n: int) -> Map<Key, Action>
    decreases n,
{
    if n <= 0 {
        kept_defaults(overrides, default_keys().len() as int)
    } else {
        let action = by_name()[n - 1];
        let keys = override_keys(overrides, action);
        bind_keys(bound_upto(overrides, n - 1), keys, keys.len() as int, action)
    }
}

/// All bindings: the defaults of the actions that have no usable override, and
/// over them the overrides, later names over earlier ones.
pub open spec fn all_bindings(overrides: Map<Seq<char>, Vec<String>>) -> Map<Key, Action> {
    bound_upto(overrides, by_name().len() as int)
}

/// Key -> command map; `lookup` resolves a key event to its action.
#[derive(Debug)]
pub struct Keymap {
    bindings: Vec<(Key, Action)>,
}

spec fn as_map(s: Seq<(Key, Action)>) -> Map<Key, Action>
    decreases s.len(),
{
    if s.len() == 0 {
        Map::empty()
    } else {
        as_map(s.drop_last()).insert(s.last().0, s.last().1)
    }
}

spec fn distinct_keys(s: Seq<(Key, Action)>) -> bool {
    forall|i: int, j: int| 0 <= i < j < s.len() ==> (#[trigger] s[i]).0 != (#[trigger] s[j]).0
}

proof fn lemma_as_map(s: Seq<(Key, Action)>)
    requires
        distinct_keys(s),
    ensures
        forall|k: Key|
            #[trigger] as_map(s).dom().contains(k) <==> exists|i: int|
                0 <= i < s.len() && (#[trigger] s[i]).0 == k,
        forall|i: int| 0 <= i < s.len() ==> as_map(s)[(#[trigger] s[i]).0] == s[i].1,
    decreases s.len(),
{
    if s.len() > 0 {
        let t = s.drop_last();
        assert forall|i: int, j: int| 0 <= i < j < t.len() implies (#[trigger] t[i]).0 != (
        #[trigger] t[j]).0 by {
            assert(s[i].0 != s[j].0);
        }
        lemma_as_map(t);
        assert forall|k: Key| #[trigger] as_map(s).dom().contains(k) implies exists|i: int|
            0 <= i < s.len() && (#[trigger] s[i]).0 == k by {
            if k == s.last().0 {
                assert(s[s.len() - 1].0 == k);
            } else {
                assert(as_map(t).dom().contains(k));
                let i = choose|i: int| 0 <= i < t.len() && (#[trigger] t[i]).0 == k;
                assert(s[i].0 == k);
            }
        }
        assert forall|k: Key|
            (exists|i: int| 0 <= i < s.len() && (#[trigger] s[i]).0 == k) implies #[trigger] as_map(
            s,
        ).dom().contains(k) by {
            let i = choose|i: int| 0 <= i < s.len() && (#[trigger] s[i]).0 == k;
            if i < t.len() {
                assert(t[i].0 == k);
            }
        }
        assert forall|i: int| 0 <= i < s.len() implies as_map(s)[(#[trigger] s[i]).0] == s[i].1 by {
            if i < t.len() {
                assert(t[i] == s[i]);
                assert(s[i].0 != s[s.len() - 1].0);
            }
        }
    }
}

impl View for Keymap {
    type V = Map<Key, Action>;

    closed spec fn view(&self) -> Map<Key, Action> {
        as_map(self.bindings@)
    }
}

impl Keymap {
    #[verifier::type_invariant]
    spec fn well_formed(&self) -> bool {
        distinct_keys(self.bindings@)
    }

    fn position(&self, key: Key) -> (r: Option<usize>)
        ensures
            match r {
                Some(i) => i < self.bindings@.len() && self.bindings@[i as int].0 == key,
                None => forall|i: int|
                    0 <= i < self.bindings@.len() ==> (#[trigger] self.bindings@[i]).0 != key,
            },
    {
        let mut i: usize = 0;
        while i < self.bindings.len()
            invariant
                i <= self.bindings@.len(),
                forall|k: int| 0 <= k < i ==> (#[trigger] self.bindings@[k]).0 != key,
            decreases self.bindings@.len() - i,
        {
            let (code, mods) = self.bindings[i].0;
            if code == key.0 && mods == key.1 {
                return Some(i);
            }
            i += 1;
        }
        None
    }

    pub fn lookup(&self, code: KeyCode, mods: KeyModifiers) -> (r: Option<Action>)
        ensures
            r == (if self@.dom().contains((code, mods)) {
                Some(self@[(code, mods)])
            } else {
                None
            }),
    {
        proof {
            use_type_invariant(self);
            lemma_as_map(self.bindings@);
        }
        match self.position((code, mods)) {
            Some(i) => Some(self.bindings[i].1),
            None => None,
        }
    }
}

fn place(v: &mut Vec<(Key, Action)>, key: Key, action: Action)
    requires
        distinct_keys(old(v)@),
    ensures
        distinct_keys(final(v)@),
        as_map(final(v)@) == as_map(old(v)@).insert(key, action),
{
    let ghost before = v@;
    let mut i: usize = 0;
    while i < v.len()
        invariant
            i <= v@.len(),
            v@ == before,
            before == old(v)@,
            distinct_keys(before),
            forall|k: int| 0 <= k < i ==> (#[trigger] before[k]).0 != key,
        decreases v@.len() - i,
    {
        let (code, mods) = v[i].0;
        if code == key.0 && mods == key.1 {
            v.set(i, (key, action));
            proof {
                let after = v@;
                assert(after =~= before.update(i as int, (key, action)));
                assert forall|a: int, b: int| 0 <= a < b < after.len() implies (
                #[trigger] after[a]).0 != (#[trigger] after[b]).0 by {
                    assert(before[a].0 != before[b].0);
                }
                lemma_as_map(before);
                lemma_as_map(after);
                let m = as_map(before).insert(key, action);
                assert forall|k: Key| #[trigger] as_map(after).dom().contains(k)
                    <==> m.dom().contains(k) by {
                    if as_map(after).dom().contains(k) {
                        let x = choose|x: int| 0 <= x < after.len() && (#[trigger] after[x]).0 == k;
                        assert(before[x].0 == k);
                    }
                    if as_map(before).dom().contains(k) {
                        let x = choose|x: int|
                            0 <= x < before.len() && (#[trigger] before[x]).0 == k;
                        assert(after[x].0 == k);
                    }
                    assert(after[i as int].0 == key);
                }
                assert forall|k: Key| m.dom().contains(k) implies #[trigger] as_map(after)[k]
                    == m[k] by {
                    assert(as_map(after).dom().contains(k));
                    let x = choose|x: int| 0 <= x < after.len() && (#[trigger] after[x]).0 == k;
                    assert(as_map(after)[after[x].0] == after[x].1);
                    if x == i {
                    } else {
                        assert(before[x] == after[x]);
                        assert(as_map(before)[before[x].0] == before[x].1);
                        assert(before[x].0 != before[i as int].0);
                    }
                }
                assert(as_map(after) =~= m);
            }
            return;
        }
        i += 1;
    }
    v.push((key, action));
    assert(v@.drop_last() =~= before);
}

impl Keymap {
    /// Builds a keymap from config overrides (action name -> key specs).
    /// Starts from the defaults; a valid override REPLACES that action's
    /// whole key list (silently skipping unparsable specs and reserved
    /// editing keys; if none parse, the defaults are kept). Overrides are
    /// inserted after all defaults, in action-name order, so collisions are
    /// deterministic and an override wins over a colliding default key.
    pub fn from_config(overrides: &PathMap<Vec<String>>) -> (r: Keymap)
        ensures
            r@ == all_bindings(overrides@),
    {
        let ghost m = overrides@;
        let mut v: Vec<(Key, Action)> = Vec::new();
        let defaults = default_bindings();
        let mut i: usize = 0;
        while i < defaults.len()
            invariant
                i <= defaults@.len(),
                defaults@ == default_keys(),
                m == overrides@,
                distinct_keys(v@),
                as_map(v@) == kept_defaults(m, i as int),
            decreases defaults@.len() - i,
        {
            let (key, action) = defaults[i];
            let keys = keys_for(overrides, action);
            if keys.len() == 0 {
                place(&mut v, key, action);
            }
            i += 1;
        }
        let names = actions_by_name();
        let mut i: usize = 0;
        while i < names.len()
            invariant
                i <= names@.len(),
                names@ == by_name(),
                m == overrides@,
                distinct_keys(v@),
                as_map(v@) == bound_upto(m, i as int),
            decreases names@.len() - i,
        {
            let action = names[i];
            let keys = keys_for(overrides, action);
            let ghost before = as_map(v@);
            let mut k: usize = 0;
            while k < keys.len()
                invariant
                    k <= keys@.len(),
                    distinct_keys(v@),
                    as_map(v@) == bind_keys(before, keys@, k as int, action),
                decreases keys@.len() - k,
            {
                place(&mut v, keys[k], action);
                k += 1;
            }
            i += 1;
        }
        Keymap { bindings: v }
    }
}

fn keys_for(overrides: &PathMap<Vec<String>>, action: Action) -> (r: Vec<Key>)
    ensures
        r@ == override_keys(overrides@, action),
{
    match overrides.get(action.name()) {
        Some(specs) => parse_specs(specs),
        None => Vec::new(),
    }
}

impl Default for Keymap {
    fn default() -> (r: Keymap)
        ensures
            r@ == all_bindings(Map::empty()),
    {
        let none: PathMap<Vec<String>> = PathMap::new();
        Keymap::from_config(&none)
    }
}

proof fn lemma_bind_keys(m: Map<Key, Action>, keys: Seq<Key>, n: int, action: Action, key: Key)
    requires
        0 <= n <= keys.len(),
    ensures
        ({
            let claimed = exists|i: int| 0 <= i < n && #[trigger] keys[i] == key;
            let after = bind_keys(m, keys, n, action);
            &&& after.dom().contains(key) == (claimed || m.dom().contains(key))
            &&& claimed ==> after[key] == action
            &&& !claimed && m.dom().contains(key) ==> after[key] == m[key]
        }),
    decreases n,
{
    if n > 0 {
        lemma_bind_keys(m, keys, n - 1, action, key);
        let before = exists|i: int| 0 <= i < n - 1 && #[trigger] keys[i] == key;
        let now = exists|i: int| 0 <= i < n && #[trigger] keys[i] == key;
        if before {
            let i = choose|i: int| 0 <= i < n - 1 && #[trigger] keys[i] == key;
            assert(keys[i] == key && 0 <= i < n);
        }
        if keys[n - 1] == key {
            assert(now);
        }
        if now && keys[n - 1] != key {
            let i = choose|i: int| 0 <= i < n && #[trigger] keys[i] == key;
            assert(keys[i] == key && 0 <= i < n - 1);
        }
    }
}

proof fn lemma_usable(specs: Seq<Seq<char>>, i: int)
    requires
        0 <= i < usable(specs).len(),
    ensures
        !is_reserved(usable(specs)[i]),
    decreases specs.len(),
{
    if specs.len() > 0 {
        let before = usable(specs.drop_last());
        if i < before.len() {
            lemma_usable(specs.drop_last(), i);
        }
    }
}

proof fn lemma_kept_defaults(overrides: Map<Seq<char>, Vec<String>>, n: int, key: Key)
    requires
        0 <= n <= default_keys().len(),
    ensures
        kept_defaults(overrides, n).dom().contains(key) ==> {
            let action = kept_defaults(overrides, n)[key];
            &&& !is_overridden(overrides, action)
            &&& default_keys().contains((key, action))
        },
    decreases n,
{
    if n > 0 {
        lemma_kept_defaults(overrides, n - 1, key);
        assert(default_keys().contains(default_keys()[n - 1]));
    }
}

proof fn lemma_bound(overrides: Map<Seq<char>, Vec<String>>, n: int, key: Key)
    requires
        0 <= n <= by_name().len(),
    ensures
        bound_upto(overrides, n).dom().contains(key) ==> {
            let action = bound_upto(overrides, n)[key];
            ||| override_keys(overrides, action).contains(key)
            ||| !is_overridden(overrides, action) && default_keys().contains((key, action))
        },
    decreases n,
{
    if n == 0 {
        lemma_kept_defaults(overrides, default_keys().len() as int, key);
    } else {
        lemma_bound(overrides, n - 1, key);
        let action = by_name()[n - 1];
        let keys = override_keys(overrides, action);
        lemma_bind_keys(
            bound_upto(overrides, n - 1),
            keys,
            keys.len() as int,
            action,
            key,
        );
    }
}

/// A key runs an action either because the configuration says so, or because it
/// is a default of an action that the configuration leaves alone.
pub proof fn bindings_have_a_reason(overrides: Map<Seq<char>, Vec<String>>, key: Key)
    ensures
        all_bindings(overrides).dom().contains(key) ==> {
            let action = all_bindings(overrides)[key];
            ||| override_keys(overrides, action).contains(key)
            ||| !is_overridden(overrides, action) && default_keys().contains((key, action))
        },
{
    lemma_bound(overrides, by_name().len() as int, key);
}

/// No configuration rebinds an editing key.
pub proof fn editing_keys_stay(overrides: Map<Seq<char>, Vec<String>>, key: Key)
    requires
        is_reserved(key),
    ensures
        all_bindings(overrides).dom().contains(key) ==> default_keys().contains(
            (key, all_bindings(overrides)[key]),
        ),
{
    bindings_have_a_reason(overrides, key);
    if all_bindings(overrides).dom().contains(key) {
        let action = all_bindings(overrides)[key];
        let keys = override_keys(overrides, action);
        if keys.contains(key) {
            let i = choose|i: int| 0 <= i < keys.len() && keys[i] == key;
            lemma_usable(texts(overrides[action.config_name()]@), i);
        }
    }
}

/// The place of a key among the default bindings.
spec fn default_place(key: Key) -> int {
    let none = held(false, false, false);
    let ctrl = held(true, false, false);
    let alt = held(false, true, false);
    if key == (KeyCode::Esc, none) {
        0
    } else if key == (KeyCode::Char('c'), ctrl) {
        1
    } else if key == (KeyCode::Enter, none) {
        2
    } else if key == (KeyCode::Right, none) {
        3
    } else if key == (KeyCode::Char(' '), ctrl) {
        4
    } else if key == (KeyCode::Char('y'), ctrl) {
        5
    } else if key == (KeyCode::Char('f'), ctrl) {
        6
    } else if key == (KeyCode::Char('u'), ctrl) {
        7
    } else if key == (KeyCode::Char('r'), ctrl) {
        8
    } else if key == (KeyCode::Char('p'), ctrl) {
        9
    } else if key == (KeyCode::Char('n'), ctrl) {
        10
    } else if key == (KeyCode::Up, none) {
        11
    } else if key == (KeyCode::Char('k'), ctrl) {
        12
    } else if key == (KeyCode::Down, none) {
        13
    } else if key == (KeyCode::Char('j'), ctrl) {
        14
    } else if key == (KeyCode::Tab, none) {
        15
    } else if key == (KeyCode::Char('t'), ctrl) {
        16
    } else if key == (KeyCode::Char('x'), ctrl) {
        17
    } else if key == (KeyCode::Char('g'), ctrl) {
        18
    } else if key == (KeyCode::PageUp, none) {
        19
    } else if key == (KeyCode::PageDown, none) {
        20
    } else if key == (KeyCode::F(1), none) {
        21
    } else if key == (KeyCode::Char('o'), ctrl) {
        22
    } else if key == (KeyCode::Char('b'), ctrl) {
        23
    } else if key == (KeyCode::Char('b'), alt) {
        24
    } else {
        -1
    }
}

proof fn lemma_default_place(i: int)
    requires
        0 <= i < default_keys().len(),
    ensures
        default_place(default_keys()[i].0) == i,
{
}

proof fn lemma_kept_default(overrides: Map<Seq<char>, Vec<String>>, n: int, i: int)
    requires
        0 <= i < n <= default_keys().len(),
        !is_overridden(overrides, default_keys()[i].1),
    ensures
        kept_defaults(overrides, n).dom().contains(default_keys()[i].0),
        kept_defaults(overrides, n)[default_keys()[i].0] == default_keys()[i].1,
    decreases n,
{
    if i < n - 1 {
        lemma_kept_default(overrides, n - 1, i);
        lemma_default_place(i);
        lemma_default_place(n - 1);
    }
}

proof fn lemma_unclaimed(overrides: Map<Seq<char>, Vec<String>>, n: int, i: int)
    requires
        0 <= n <= by_name().len(),
        0 <= i < default_keys().len(),
        !is_overridden(overrides, default_keys()[i].1),
        forall|k: int|
            0 <= k < by_name().len() ==> !override_keys(
                overrides,
                #[trigger] by_name()[k],
            ).contains(default_keys()[i].0),
    ensures
        bound_upto(overrides, n).dom().contains(default_keys()[i].0),
        bound_upto(overrides, n)[default_keys()[i].0] == default_keys()[i].1,
    decreases n,
{
    if n == 0 {
        lemma_kept_default(overrides, default_keys().len() as int, i);
    } else {
        lemma_unclaimed(overrides, n - 1, i);
        let keys = override_keys(overrides, by_name()[n - 1]);
        lemma_bind_keys(
            bound_upto(overrides, n - 1),
            keys,
            keys.len() as int,
            by_name()[n - 1],
            default_keys()[i].0,
        );
    }
}

/// A default key of an action that the configuration leaves alone stays with it,
/// unless the configuration gives the key to another action.
pub proof fn unclaimed_defaults_stay(overrides: Map<Seq<char>, Vec<String>>, i: int)
    requires
        0 <= i < default_keys().len(),
        !is_overridden(overrides, default_keys()[i].1),
        forall|k: int|
            0 <= k < by_name().len() ==> !override_keys(
                overrides,
                #[trigger] by_name()[k],
            ).contains(default_keys()[i].0),
    ensures
        all_bindings(overrides).dom().contains(default_keys()[i].0),
        all_bindings(overrides)[default_keys()[i].0] == default_keys()[i].1,
{
    lemma_unclaimed(overrides, by_name().len() as int, i);
}

/// A key that only one action's override claims runs that action.
pub proof fn claimed_keys_are_bound(
    overrides: Map<Seq<char>, Vec<String>>,
    n: int,
    k: int,
    key: Key,
)
    requires
        0 <= k < n <= by_name().len(),
        override_keys(overrides, by_name()[k]).contains(key),
        forall|j: int|
            k < j < n ==> !override_keys(overrides, #[trigger] by_name()[j]).contains(key),
    ensures
        bound_upto(overrides, n).dom().contains(key),
        bound_upto(overrides, n)[key] == by_name()[k],
    decreases n,
{
    let action = by_name()[n - 1];
    let keys = override_keys(overrides, action);
    lemma_bind_keys(bound_upto(overrides, n - 1), keys, keys.len() as int, action, key);
    if k == n - 1 {
        let i = choose|i: int| 0 <= i < keys.len() && keys[i] == key;
        assert(keys[i] == key);
    } else {
        claimed_keys_are_bound(overrides, n - 1, k, key);
        assert(!keys.contains(key));
    }
}

// -------------------------------------------------------------------- labels

/// The name of a key.
pub open spec fn base_label(code: KeyCode) -> Option<Seq<char>> {
    match code {
        KeyCode::Esc => Some("esc"@),
        KeyCode::Enter => Some("enter"@),
        KeyCode::Tab => Some("tab"@),
        KeyCode::Char(c) => if c == ' ' {
            Some("space"@)
        } else {
            Some(seq![c])
        },
        KeyCode::Up => Some("↑"@),
        KeyCode::Down => Some("↓"@),
        KeyCode::Left => Some("←"@),
        KeyCode::Right => Some("→"@),
        KeyCode::PageUp => Some("pgup"@),
        KeyCode::PageDown => Some("pgdn"@),
        KeyCode::Backspace => Some("backspace"@),
        KeyCode::Delete => Some("delete"@),
        KeyCode::Home => Some("home"@),
        KeyCode::End => Some("end"@),
        KeyCode::F(n) => Some(seq!['f'] + digits_of(n as nat)),
        KeyCode::Other => None,
    }
}

/// The name of a key with its modifiers.
pub open spec fn label_of(key: Key) -> Option<Seq<char>> {
    match base_label(key.0) {
        None => None,
        Some(base) => Some(
            (if key.1.control {
                "ctrl-"@
            } else {
                Seq::empty()
            }) + (if key.1.alt {
                "alt-"@
            } else {
                Seq::empty()
            }) + (if key.1.shift {
                "shift-"@
            } else {
                Seq::empty()
            }) + base,
        ),
    }
}

fn base_name(code: KeyCode) -> (r: Option<String>)
    ensures
        match r {
            Some(s) => base_label(code) == Some(s@),
            None => base_label(code) is None,
        },
{
    let name = match code {
        KeyCode::Esc => "esc",
        KeyCode::Enter => "enter",
        KeyCode::Tab => "tab",
        KeyCode::Char(c) => {
            if c == ' ' {
                "space"
            } else {
                let mut s = "".to_owned();
                s.push(c);
                proof {
                    reveal_strlit("");
                    assert(s@ =~= seq![c]);
                }
                return Some(s);
            }
        },
        KeyCode::Up => "↑",
        KeyCode::Down => "↓",
        KeyCode::Left => "←",
        KeyCode::Right => "→",
        KeyCode::PageUp => "pgup",
        KeyCode::PageDown => "pgdn",
        KeyCode::Backspace => "backspace",
        KeyCode::Delete => "delete",
        KeyCode::Home => "home",
        KeyCode::End => "end",
        KeyCode::F(n) => {
            let mut s = "f".to_owned();
            push_decimal(&mut s, n as u64);
            proof {
                reveal_strlit("f");
                assert(s@ =~= seq!['f'] + digits_of(n as nat));
            }
            return Some(s);
        },
        KeyCode::Other => {
            return None;
        },
    };
    Some(name.to_owned())
}

/// The name of a key with its modifiers; keys without a name have none.
pub fn key_label(code: KeyCode, mods: KeyModifiers) -> (r: Option<String>)
    ensures
        match r {
            Some(s) => label_of((code, mods)) == Some(s@),
            None => label_of((code, mods)) is None,
        },
{
    match base_name(code) {
        None => None,
        Some(base) => {
            let mut s = "".to_owned();
            proof {
                reveal_strlit("");
            }
            if mods.control {
                s.append("ctrl-");
            }
            if mods.alt {
                s.append("alt-");
            }
            if mods.shift {
                s.append("shift-");
            }
            s.append(&base);
            assert(s@ =~= label_of((code, mods))->Some_0);
            Some(s)
        },
    }
}

/// Short labels first; labels of one length in the order of their text.
pub open spec fn label_before(a: Seq<char>, b: Seq<char>) -> bool {
    a.len() < b.len() || (a.len() == b.len() && text_lt(a, b))
}

/// A bound key and its label.
struct KeyLabel {
    key: Key,
    label: String,
}

impl Ordered for KeyLabel {
    closed spec fn before(&self, other: &Self) -> bool {
        label_before(self.label@, other.label@)
    }

    proof fn order_laws(a: &Self, b: &Self, c: &Self) {
        let (x, y, z) = (a.label@, b.label@, c.label@);
        lemma_text_order(x, y, z);
    }

    fn comes_before(&self, other: &Self) -> (r: bool) {
        let a: usize = chars_of(&self.label).len();
        let b: usize = chars_of(&other.label).len();
        a < b || (a == b && text_less(&self.label, &other.label))
    }
}

/// `keys` are the keys that run the action and have a label, each once.
pub open spec fn are_keys_of(keys: Seq<Key>, m: Map<Key, Action>, action: Action) -> bool {
    &&& keys.no_duplicates()
    &&& forall|k: Key|
        #[trigger] keys.contains(k) <==> m.dom().contains(k) && m[k] == action && label_of(
            k,
        ) is Some
}

pub open spec fn labels_of(keys: Seq<Key>) -> Seq<Seq<char>> {
    keys.map_values(|k: Key| label_of(k)->Some_0)
}

/// The labels of the action's keys, short ones first.
pub open spec fn are_labels(labels: Seq<Seq<char>>, m: Map<Key, Action>, action: Action) -> bool {
    &&& exists|keys: Seq<Key>|
        {
            &&& #[trigger] are_keys_of(keys, m, action)
            &&& labels == labels_of(keys)
        }
    &&& forall|i: int, j: int|
        0 <= i < j < labels.len() ==> !label_before(#[trigger] labels[j], #[trigger] labels[i])
}

impl Keymap {
    /// All configured key labels for an action, shortest first. The help
    /// overlay lists every binding, not just the shortest.
    pub fn labels(&self, action: Action) -> (r: Vec<String>)
        ensures
            are_labels(texts(r@), self@, action),
    {
        proof {
            use_type_invariant(self);
            lemma_as_map(self.bindings@);
        }
        let ghost all = self.bindings@;
        let mut found: Vec<KeyLabel> = Vec::new();
        let mut i: usize = 0;
        while i < self.bindings.len()
            invariant
                i <= self.bindings@.len(),
                all == self.bindings@,
                distinct_keys(all),
                forall|k: int|
                    0 <= k < found@.len() ==> is_found(#[trigger] found@[k], all, i as int, action),
                forall|k: int|
                    0 <= k < i && (#[trigger] all[k]).1 == action && label_of(all[k].0) is Some
                        ==> exists|x: int|
                        0 <= x < found@.len() && (#[trigger] found@[x]).key == all[k].0,
                forall|a: int, b: int|
                    0 <= a < b < found@.len() ==> (#[trigger] found@[a]).key != (
                    #[trigger] found@[b]).key,
            decreases self.bindings@.len() - i,
        {
            let (key, bound) = self.bindings[i];
            let ghost before = found@;
            if bound == action {
                match key_label(key.0, key.1) {
                    Some(label) => {
                        found.push(KeyLabel { key, label });
                        assert(found@[found@.len() - 1].key == key);
                    },
                    None => {},
                }
            }
            proof {
                assert forall|k: int| 0 <= k < found@.len() implies is_found(
                    #[trigger] found@[k],
                    all,
                    i + 1,
                    action,
                ) by {
                    if k < before.len() {
                        assert(is_found(before[k], all, i as int, action));
                    } else {
                        assert(all[i as int].0 == found@[k].key);
                    }
                }
                assert forall|k: int|
                    0 <= k < i + 1 && (#[trigger] all[k]).1 == action && label_of(
                        all[k].0,
                    ) is Some implies exists|x: int|
                    0 <= x < found@.len() && (#[trigger] found@[x]).key == all[k].0 by {
                    if k < i {
                        let x = choose|x: int|
                            0 <= x < before.len() && (#[trigger] before[x]).key == all[k].0;
                        assert(found@[x].key == all[k].0);
                    }
                }
                assert forall|a: int, b: int| 0 <= a < b < found@.len() implies (
                #[trigger] found@[a]).key != (#[trigger] found@[b]).key by {
                    assert(is_found(before[a], all, i as int, action));
                }
            }
            i += 1;
        }
        let ghost unsorted = found@;
        let sorted = sort(found);
        let mut out: Vec<String> = Vec::new();
        let mut i: usize = 0;
        while i < sorted.len()
            invariant
                i <= sorted@.len(),
                out@.len() == i,
                forall|k: int| 0 <= k < i ==> (#[trigger] out@[k])@ == sorted@[k].label@,
            decreases sorted@.len() - i,
        {
            out.push(sorted[i].label.as_str().to_owned());
            i += 1;
        }
        proof {
            lemma_labels(self@, all, unsorted, sorted@, action);
            let keys = sorted@.map_values(|k: KeyLabel| k.key);
            assert forall|k: int| 0 <= k < sorted@.len() implies label_of(
                (#[trigger] sorted@[k]).key,
            ) == Some(sorted@[k].label@) by {
                assert(sorted@.contains(sorted@[k]));
                assert(unsorted.contains(sorted@[k])) by {
                    lemma_same_members(sorted@, unsorted);
                }
                let x = choose|x: int| 0 <= x < unsorted.len() && unsorted[x] == sorted@[k];
                assert(is_found(unsorted[x], all, all.len() as int, action));
            }
            assert(texts(out@) =~= labels_of(keys));
            assert(are_keys_of(keys, self@, action));
            let labels = texts(out@);
            assert forall|i: int, j: int| 0 <= i < j < labels.len() implies !label_before(
                #[trigger] labels[j],
                #[trigger] labels[i],
            ) by {
                assert(!sorted@[j].before(&sorted@[i]));
                assert(labels[j] == out@[j]@ && labels[i] == out@[i]@);
            }
        }
        out
    }

    /// Shortest configured key label for an action, for contextual UI help.
    pub fn shortcut(&self, action: Action) -> (r: Option<String>)
        ensures
            exists|labels: Seq<Seq<char>>|
                #[trigger] are_labels(labels, self@, action) && (match r {
                    Some(s) => labels.len() > 0 && s@ == labels[0],
                    None => labels.len() == 0,
                }),
    {
        let labels = self.labels(action);
        if labels.len() == 0 {
            None
        } else {
            assert(texts(labels@)[0] == labels@[0]@);
            Some(labels[0].as_str().to_owned())
        }
    }
}

/// `l` is the label of one of the first `n` bindings, of the action.
spec fn is_found(l: KeyLabel, all: Seq<(Key, Action)>, n: int, action: Action) -> bool {
    &&& label_of(l.key) == Some(l.label@)
    &&& exists|k: int| 0 <= k < n && #[trigger] all[k] == (l.key, action)
}

proof fn lemma_labels(
    m: Map<Key, Action>,
    all: Seq<(Key, Action)>,
    unsorted: Seq<KeyLabel>,
    sorted: Seq<KeyLabel>,
    action: Action,
)
    requires
        distinct_keys(all),
        m == as_map(all),
        sorted.to_multiset() == unsorted.to_multiset(),
        forall|k: int|
            0 <= k < unsorted.len() ==> is_found(
                #[trigger] unsorted[k],
                all,
                all.len() as int,
                action,
            ),
        forall|k: int|
            0 <= k < all.len() && (#[trigger] all[k]).1 == action && label_of(
                all[k].0,
            ) is Some ==> exists|x: int|
                0 <= x < unsorted.len() && (#[trigger] unsorted[x]).key == all[k].0,
        forall|a: int, b: int|
            0 <= a < b < unsorted.len() ==> (#[trigger] unsorted[a]).key != (
            #[trigger] unsorted[b]).key,
    ensures
        are_keys_of(sorted.map_values(|k: KeyLabel| k.key), m, action),
{
    lemma_as_map(all);
    lemma_same_members(unsorted, sorted);
    lemma_same_members(sorted, unsorted);
    let keys = sorted.map_values(|k: KeyLabel| k.key);
    assert(unsorted.no_duplicates());
    assert forall|a: int, b: int| 0 <= a < keys.len() && 0 <= b < keys.len() && a != b implies
        keys[a] != keys[b] by {
        let (p, q) = (sorted[a], sorted[b]);
        assert(sorted.contains(p) && sorted.contains(q));
        let x = choose|x: int| 0 <= x < unsorted.len() && unsorted[x] == p;
        let y = choose|y: int| 0 <= y < unsorted.len() && unsorted[y] == q;
        assert(p != q);
        assert(x != y);
        if x < y {
            assert(unsorted[x].key != unsorted[y].key);
        } else {
            assert(unsorted[y].key != unsorted[x].key);
        }
    }
    assert forall|k: Key| #[trigger] keys.contains(k) implies m.dom().contains(k) && m[k] == action
        && label_of(k) is Some by {
        let i = choose|i: int| 0 <= i < keys.len() && keys[i] == k;
        assert(sorted.contains(sorted[i]));
        let x = choose|x: int| 0 <= x < unsorted.len() && unsorted[x] == sorted[i];
        assert(is_found(unsorted[x], all, all.len() as int, action));
        let j = choose|j: int| 0 <= j < all.len() && #[trigger] all[j] == (k, action);
        assert(all[j].0 == k);
    }
    assert forall|k: Key|
        m.dom().contains(k) && m[k] == action && label_of(k) is Some implies #[trigger] keys.contains(
        k,
    ) by {
        let j = choose|j: int| 0 <= j < all.len() && (#[trigger] all[j]).0 == k;
        assert(all[j].1 == action);
        let x = choose|x: int| 0 <= x < unsorted.len() && (#[trigger] unsorted[x]).key == k;
        assert(unsorted.contains(unsorted[x]));
        let i = choose|i: int| 0 <= i < sorted.len() && sorted[i] == unsorted[x];
        assert(keys[i] == k);
    }
}

// ---------------------------------------------------------------------- help

/// Every action, ordered by its help group and its label.
pub open spec fn by_group() -> Seq<Action> {
    seq![
        Action::HistoryPrev,
        Action::HistoryNext,
        Action::MoveDown,
        Action::MoveUp,
        Action::Quit,
        Action::Menu,
        Action::ClearMarks,
        Action::CopyPath,
        Action::Open,
        Action::QuickLook,
        Action::Reveal,
        Action::ToggleMark,
        Action::ClearQuery,
        Action::Help,
        Action::RegexToggle,
        Action::ThemeCycle,
        Action::FoldToggle,
        Action::PreviewLayout,
        Action::PreviewPageDown,
        Action::PreviewPageUp,
        Action::DensityToggle,
    ]
}

fn actions_by_group() -> (r: Vec<Action>)
    ensures
        r@ == by_group(),
{
    let r: Vec<Action> = vec![
        Action::HistoryPrev,
        Action::HistoryNext,
        Action::MoveDown,
        Action::MoveUp,
        Action::Quit,
        Action::Menu,
        Action::ClearMarks,
        Action::CopyPath,
        Action::Open,
        Action::QuickLook,
        Action::Reveal,
        Action::ToggleMark,
        Action::ClearQuery,
        Action::Help,
        Action::RegexToggle,
        Action::ThemeCycle,
        Action::FoldToggle,
        Action::PreviewLayout,
        Action::PreviewPageDown,
        Action::PreviewPageUp,
        Action::DensityToggle,
    ];
    assert(r@ =~= by_group());
    r
}

/// The help lists actions by group, and within a group by label.
pub proof fn help_is_in_order(i: int)
    requires
        0 <= i < 20,
    ensures
        ({
            let (a, b) = (by_group()[i], by_group()[i + 1]);
            text_lt(a.shown_group(), b.shown_group()) || (a.shown_group() == b.shown_group()
                && text_lt(a.shown_label(), b.shown_label()))
        }),
{
    let (a, b) = (by_group()[i], by_group()[i + 1]);
    reveal_strlit("actions menu");
    reveal_strlit("clear marks");
    reveal_strlit("clear query");
    reveal_strlit("copy path");
    reveal_strlit("cycle theme");
    reveal_strlit("fold weak matches");
    reveal_strlit("help");
    reveal_strlit("history back");
    reveal_strlit("history forward");
    reveal_strlit("move down");
    reveal_strlit("move up");
    reveal_strlit("navigation");
    reveal_strlit("open");
    reveal_strlit("open & actions");
    reveal_strlit("preview layout");
    reveal_strlit("preview page down");
    reveal_strlit("preview page up");
    reveal_strlit("query modes");
    reveal_strlit("quick look");
    reveal_strlit("quit");
    reveal_strlit("reveal in finder");
    reveal_strlit("row density");
    reveal_strlit("toggle mark");
    reveal_strlit("toggle regex");
    reveal_strlit("view");
    let d = if i == 6 {
        1
    } else if i == 2 {
        5
    } else if i == 0 || i == 17 {
        8
    } else if i == 18 {
        13
    } else {
        0int
    };
    if i == 4 || i == 11 || i == 14 {
        lemma_lt_at(a.shown_group(), b.shown_group(), d);
    } else {
        lemma_lt_at(a.shown_label(), b.shown_label(), d);
    }
}

/// Some key runs the action.
pub open spec fn has_key(m: Map<Key, Action>, action: Action) -> bool {
    exists|k: Key| #[trigger] m.dom().contains(k) && m[k] == action
}

/// The actions with a key among the first `n` of the help.
pub open spec fn listed_actions(m: Map<Key, Action>, n: int) -> Seq<Action>
    decreases n,
{
    if n <= 0 {
        Seq::empty()
    } else if has_key(m, by_group()[n - 1]) {
        listed_actions(m, n - 1).push(by_group()[n - 1])
    } else {
        listed_actions(m, n - 1)
    }
}

impl Keymap {
    fn is_bound(&self, action: Action) -> (r: bool)
        ensures
            r == has_key(self@, action),
    {
        proof {
            use_type_invariant(self);
            lemma_as_map(self.bindings@);
        }
        let mut i: usize = 0;
        while i < self.bindings.len()
            invariant
                i <= self.bindings@.len(),
                forall|k: int| 0 <= k < i ==> (#[trigger] self.bindings@[k]).1 != action,
                forall|k: int|
                    0 <= k < self.bindings@.len() ==> self@.dom().contains(
                        (#[trigger] self.bindings@[k]).0,
                    ) && self@[self.bindings@[k].0] == self.bindings@[k].1,
            decreases self.bindings@.len() - i,
        {
            if self.bindings[i].1 == action {
                assert(self@.dom().contains(self.bindings@[i as int].0));
                return true;
            }
            i += 1;
        }
        false
    }

    /// Actions that currently have at least one configured binding, by group
    /// and label. The help overlay uses this instead of duplicating the binding
    /// list.
    pub fn actions(&self) -> (r: Vec<Action>)
        ensures
            r@ == listed_actions(self@, by_group().len() as int),
    {
        let all = actions_by_group();
        let mut out: Vec<Action> = Vec::new();
        let mut i: usize = 0;
        while i < all.len()
            invariant
                i <= all@.len(),
                all@ == by_group(),
                out@ == listed_actions(self@, i as int),
            decreases all@.len() - i,
        {
            if self.is_bound(all[i]) {
                out.push(all[i]);
            }
            i += 1;
        }
        out
    }
}


// ---------------------------------------------------------------------- laws

proof fn lemma_split_after(a: Seq<char>, c: char, b: Seq<char>)
    requires
        is_separator(c),
        forall|i: int| 0 <= i < a.len() ==> !is_separator(#[trigger] a[i]),
    ensures
        split_spec(a + seq![c] + b) == seq![a] + split_spec(b),
    decreases b.len(),
{
    let s = a + seq![c] + b;
    if b.len() == 0 {
        assert(s.drop_last() =~= a);
        lemma_split_whole(a);
        assert(split_spec(s) =~= seq![a] + split_spec(b));
    } else {
        let t = b.drop_last();
        assert(s.drop_last() =~= a + seq![c] + t);
        assert(s.last() == b.last());
        lemma_split_after(a, c, t);
        lemma_split_nonempty(t);
        assert(split_spec(s) =~= seq![a] + split_spec(b));
    }
}

proof fn lemma_split_whole(a: Seq<char>)
    requires
        forall|i: int| 0 <= i < a.len() ==> !is_separator(#[trigger] a[i]),
    ensures
        split_spec(a) == seq![a],
    decreases a.len(),
{
    if a.len() > 0 {
        lemma_split_whole(a.drop_last());
        assert(a.drop_last().push(a.last()) =~= a);
        assert(split_spec(a) =~= seq![a]);
    } else {
        assert(a =~= Seq::<char>::empty());
    }
}

/// A text without spaces at its ends.
pub open spec fn is_trimmed(s: Seq<char>) -> bool {
    s.len() > 0 && !is_space(s[0]) && !is_space(s.last())
}

proof fn lemma_trimmed_key(s: Seq<char>)
    requires
        is_trimmed(s),
    ensures
        trim(s) == s,
{
    let none = Seq::<char>::empty();
    trimming_cuts_outer_spaces(none, s, none);
    assert(none + s + none =~= s);
}

/// A modifier before a key, with a hyphen or a plus sign between, is held with
/// it, in any case: what follows is read as it is without it.
pub proof fn modifiers_are_held_with_the_key(word: Seq<char>, c: char, rest: Seq<char>)
    requires
        is_separator(c),
        is_modifier(ascii_lower_all(word)),
        is_trimmed(rest),
        is_trimmed(word),
    ensures
        key_of_spec(word + seq![c] + rest) == match key_of_spec(rest) {
            Some((code, mods)) => Some(
                (
                    code,
                    KeyModifiers {
                        control: mods.control || ascii_lower_all(word) == "ctrl"@,
                        alt: mods.alt || ascii_lower_all(word) == "alt"@,
                        shift: mods.shift || ascii_lower_all(word) == "shift"@,
                    },
                ),
            ),
            None => None,
        },
{
    reveal_strlit("ctrl");
    reveal_strlit("alt");
    reveal_strlit("shift");
    let spec = word + seq![c] + rest;
    assert(spec[0] == word[0] && spec.last() == rest.last());
    lemma_trimmed_key(spec);
    lemma_trimmed_key(rest);
    let (a, b) = (ascii_lower_all(word), ascii_lower_all(rest));
    assert(ascii_lower(c) == c);
    assert(ascii_lower_all(spec) =~= a + seq![c] + b);
    lemma_split_after(a, c, b);
    lemma_split_nonempty(b);
    let all = split_spec(a + seq![c] + b);
    let parts = split_spec(b);
    let n = parts.len() as int;
    assert(all.len() == n + 1);
    assert(forall|i: int| 0 <= i < n ==> all[i + 1] == #[trigger] parts[i]);
    assert(all[0] == a);
    assert(all[n] == parts[n - 1]);
    lemma_among_after(a, parts, "ctrl"@);
    lemma_among_after(a, parts, "alt"@);
    lemma_among_after(a, parts, "shift"@);
    if exists|i: int| 0 <= i < n - 1 && !is_modifier(#[trigger] parts[i]) {
        let i = choose|i: int| 0 <= i < n - 1 && !is_modifier(#[trigger] parts[i]);
        assert(!is_modifier(all[i + 1]));
    }
    if exists|i: int| 0 <= i < n && !is_modifier(#[trigger] all[i]) {
        let i = choose|i: int| 0 <= i < n && !is_modifier(#[trigger] all[i]);
        assert(!is_modifier(parts[i - 1]));
    }
}

proof fn lemma_among_after(a: Seq<char>, parts: Seq<Seq<char>>, word: Seq<char>)
    requires
        parts.len() > 0,
    ensures
        among(seq![a] + parts, parts.len() as int, word) == (a == word || among(
            parts,
            parts.len() - 1,
            word,
        )),
{
    let all = seq![a] + parts;
    let n = parts.len() as int;
    assert(all[0] == a);
    if among(parts, n - 1, word) {
        let i = choose|i: int| 0 <= i < n - 1 && #[trigger] parts[i] == word;
        assert(all[i + 1] == word);
    }
    if among(all, n, word) {
        let i = choose|i: int| 0 <= i < n && #[trigger] all[i] == word;
        if i > 0 {
            assert(parts[i - 1] == word);
        }
    }
}

/// A single character that is no separator stands for its own key, with nothing
/// held; letters are read in lower case.
pub proof fn characters_are_their_own_keys(c: char)
    requires
        !is_space(c),
        !is_separator(c),
    ensures
        key_of_spec(seq![c]) == Some(
            (KeyCode::Char(ascii_lower(c)), KeyModifiers { control: false, alt: false, shift: false }),
        ),
{
    let s = seq![c];
    lemma_trimmed_key(s);
    let b = ascii_lower_all(s);
    assert(b =~= seq![ascii_lower(c)]);
    lemma_split_whole(b);
    assert(split_spec(b)[0] == b);
    lemma_long_names();
    assert(!is_function_key(b));
    assert(base_key(b) == Some(KeyCode::Char(ascii_lower(c))));
    assert(!among(split_spec(b), 0, "ctrl"@));
}

proof fn lemma_long_names()
    ensures
        "ctrl"@.len() > 1,
        "alt"@.len() > 1,
        "shift"@.len() > 1,
        "esc"@.len() > 1,
        "enter"@.len() > 1,
        "return"@.len() > 1,
        "tab"@.len() > 1,
        "space"@.len() > 1,
        "up"@.len() > 1,
        "down"@.len() > 1,
        "left"@.len() > 1,
        "right"@.len() > 1,
        "pgup"@.len() > 1,
        "pageup"@.len() > 1,
        "pgdn"@.len() > 1,
        "pagedown"@.len() > 1,
        "backspace"@.len() > 1,
        "delete"@.len() > 1,
        "del"@.len() > 1,
        "home"@.len() > 1,
        "end"@.len() > 1,
{
    reveal_strlit("ctrl");
    reveal_strlit("alt");
    reveal_strlit("shift");
    reveal_strlit("esc");
    reveal_strlit("enter");
    reveal_strlit("return");
    reveal_strlit("tab");
    reveal_strlit("space");
    reveal_strlit("up");
    reveal_strlit("down");
    reveal_strlit("left");
    reveal_strlit("right");
    reveal_strlit("pgup");
    reveal_strlit("pageup");
    reveal_strlit("pgdn");
    reveal_strlit("pagedown");
    reveal_strlit("backspace");
    reveal_strlit("delete");
    reveal_strlit("del");
    reveal_strlit("home");
    reveal_strlit("end");
}

/// Every key that can be typed as text is kept for typing, whatever the
/// configuration says; with control or alt held it can be bound.
pub proof fn typing_is_kept(c: char, shift: bool, specs: Seq<Seq<char>>)
    ensures
        is_reserved((KeyCode::Char(c), held(false, false, shift))),
        !is_reserved((KeyCode::Char(c), held(false, true, shift))),
        !usable(specs).contains((KeyCode::Char(c), held(false, false, shift))),
{
    let key = (KeyCode::Char(c), held(false, false, shift));
    if usable(specs).contains(key) {
        let i = choose|i: int| 0 <= i < usable(specs).len() && usable(specs)[i] == key;
        lemma_usable(specs, i);
    }
}

} // verus!
