//! The colors and shapes of the interface.

use crate::config::ThemeConfig;
use crate::fusion::text_option;
use crate::text::{
    ascii_lower_all, chars_of, eq_ignore_ascii_case, same, same_ignoring_case, sub_chars,
};
use vstd::prelude::*;

verus! {

/// How the pane chrome is drawn.
#[derive(Debug, Clone, Copy, PartialEq, Eq, Structural)]
pub enum BorderKind {
    Sharp,
    Rounded,
    Absent,
}

impl Default for BorderKind {
    fn default() -> (r: BorderKind)
        ensures
            r == BorderKind::Sharp,
    {
        BorderKind::Sharp
    }
}

/// A terminal color.
#[derive(Debug, Clone, Copy, PartialEq, Eq, Structural)]
pub enum Color {
    Reset,
    Black,
    Red,
    Green,
    Yellow,
    Blue,
    Magenta,
    Cyan,
    DarkGray,
    Indexed(u8),
    Rgb(u8, u8, u8),
}

/// The colors and shapes the UI is painted with. Everything else is the
/// terminal's own foreground/background.
#[derive(Debug, Clone, Copy, PartialEq)]
pub struct Theme {
    /// Match highlights, directory entries, content-hit paths.
    pub accent: Color,
    /// Status line, hints, gutters.
    pub dim: Color,
    /// Pane borders.
    pub border: Color,
    /// Pane titles.
    pub title: Color,
    /// Selected-row background; None keeps the REVERSED style.
    pub selection_bg: Option<Color>,
    /// Match-highlight color; None falls back to accent.
    pub match_fg: Option<Color>,
    /// Section-header color; None falls back to dim.
    pub section: Option<Color>,
    /// Badge palette: [image, video/audio, doc, code, archive, other].
    pub badges: [Color; 6],
    /// Pane border style.
    pub borders: BorderKind,
}

/// The model of a [`Theme`].
#[verifier::ext_equal]
pub struct ThemeView {
    pub accent: Color,
    pub dim: Color,
    pub border: Color,
    pub title: Color,
    pub selection_bg: Option<Color>,
    pub match_fg: Option<Color>,
    pub section: Option<Color>,
    pub badges: Seq<Color>,
    pub borders: BorderKind,
}

impl View for Theme {
    type V = ThemeView;

    open spec fn view(&self) -> ThemeView {
        ThemeView {
            accent: self.accent,
            dim: self.dim,
            border: self.border,
            title: self.title,
            selection_bg: self.selection_bg,
            match_fg: self.match_fg,
            section: self.section,
            badges: self.badges@,
            borders: self.borders,
        }
    }
}

// ------------------------------------------------------------------- presets

/// The color with the given red, green and blue bytes.
pub open spec fn rgb(v: u32) -> Color {
    Color::Rgb((v / 65536) as u8, (v / 256 % 256) as u8, (v % 256) as u8)
}

fn rgb_color(v: u32) -> (r: Color)
    requires
        v < 0x100_0000,
    ensures
        r == rgb(v),
{
    Color::Rgb((v / 65536) as u8, (v / 256 % 256) as u8, (v % 256) as u8)
}

/// The default badge palette.
pub open spec fn default_badges() -> Seq<Color> {
    seq![Color::Cyan, Color::Magenta, Color::Yellow, Color::Green, Color::Red, Color::DarkGray]
}

/// The preset that leaves most to the terminal.
pub open spec fn classic() -> ThemeView {
    ThemeView {
        accent: Color::Cyan,
        dim: Color::DarkGray,
        border: Color::Reset,
        title: Color::Reset,
        selection_bg: None,
        match_fg: None,
        section: None,
        badges: default_badges(),
        borders: BorderKind::Sharp,
    }
}

/// A preset of its own colors: accent (also for matches), dim, border, title,
/// selection and section, then the badges.
pub open spec fn painted(c: Seq<u32>) -> ThemeView {
    ThemeView {
        accent: rgb(c[0]),
        dim: rgb(c[1]),
        border: rgb(c[2]),
        title: rgb(c[3]),
        selection_bg: Some(rgb(c[4])),
        match_fg: Some(rgb(c[0])),
        section: Some(rgb(c[5])),
        badges: seq![rgb(c[6]), rgb(c[7]), rgb(c[8]), rgb(c[9]), rgb(c[10]), rgb(c[11])],
        borders: BorderKind::Sharp,
    }
}

fn classic_theme() -> (r: Theme)
    ensures
        r@ == classic(),
{
    let badges: [Color; 6] = [
        Color::Cyan,
        Color::Magenta,
        Color::Yellow,
        Color::Green,
        Color::Red,
        Color::DarkGray,
    ];
    assert(badges@ =~= default_badges());
    Theme {
        accent: Color::Cyan,
        dim: Color::DarkGray,
        border: Color::Reset,
        title: Color::Reset,
        selection_bg: None,
        match_fg: None,
        section: None,
        badges,
        borders: BorderKind::Sharp,
    }
}

fn painted_theme(c: [u32; 12]) -> (r: Theme)
    requires
        forall|i: int| 0 <= i < 12 ==> (#[trigger] c@[i]) < 0x100_0000,
    ensures
        r@ == painted(c@),
{
    let badges: [Color; 6] = [
        rgb_color(c[6]),
        rgb_color(c[7]),
        rgb_color(c[8]),
        rgb_color(c[9]),
        rgb_color(c[10]),
        rgb_color(c[11]),
    ];
    assert(badges@ =~= painted(c@).badges);
    Theme {
        accent: rgb_color(c[0]),
        dim: rgb_color(c[1]),
        border: rgb_color(c[2]),
        title: rgb_color(c[3]),
        selection_bg: Some(rgb_color(c[4])),
        match_fg: Some(rgb_color(c[0])),
        section: Some(rgb_color(c[5])),
        badges,
        borders: BorderKind::Sharp,
    }
}

/// The preset of a name, whatever its case; unknown names fall back to the
/// classic one.
pub open spec fn preset(name: Seq<char>) -> ThemeView {
    if same_ignoring_case(name, "catppuccin"@) {
        painted(
            seq![
                0xcba6f7u32, 0x6c7086, 0x585b70, 0xb4befe, 0x313244, 0xa6adc8,
                0x94e2d5, 0xeba0ac, 0xf9e2af, 0xa6e3a1, 0xfab387, 0x89b4fa,
            ],
        )
    } else if same_ignoring_case(name, "gruvbox"@) {
        painted(
            seq![
                0xfe8019u32, 0x928374, 0x504945, 0xfabd2f, 0x3c3836, 0xa89984,
                0x8ec07c, 0xd3869b, 0xfabd2f, 0xb8bb26, 0xfb4934, 0xa89984,
            ],
        )
    } else if same_ignoring_case(name, "nord"@) {
        painted(
            seq![
                0x88c0d0u32, 0x4c566a, 0x434c5e, 0x81a1c1, 0x3b4252, 0x8fbcbb,
                0x8fbcbb, 0xb48ead, 0xebcb8b, 0xa3be8c, 0xbf616a, 0x81a1c1,
            ],
        )
    } else if same_ignoring_case(name, "tokyonight"@) {
        painted(
            seq![
                0x7aa2f7u32, 0x565f89, 0x3b4261, 0xbb9af7, 0x24283b, 0xa9b1d6,
                0x7dcfff, 0xbb9af7, 0xe0af68, 0x9ece6a, 0xf7768e, 0x7aa2f7,
            ],
        )
    } else if same_ignoring_case(name, "slate"@) {
        painted(
            seq![
                0x7aa2f7u32, 0xa9b1d6, 0x3b4261, 0xc0caf5, 0x283457, 0xa9b1d6,
                0x7dcfee, 0xbb9af7, 0xe0af68, 0x9ece6a, 0xf7768e, 0x565f89,
            ],
        )
    } else {
        classic()
    }
}

fn preset_theme(name: &str) -> (r: Theme)
    ensures
        r@ == preset(name@),
{
    if eq_ignore_ascii_case(name, "catppuccin") {
        let c: [u32; 12] = [
            0xcba6f7, 0x6c7086, 0x585b70, 0xb4befe, 0x313244, 0xa6adc8,
            0x94e2d5, 0xeba0ac, 0xf9e2af, 0xa6e3a1, 0xfab387, 0x89b4fa,
        ];
        assert(c@ =~= seq![
            0xcba6f7u32, 0x6c7086, 0x585b70, 0xb4befe, 0x313244, 0xa6adc8,
            0x94e2d5, 0xeba0ac, 0xf9e2af, 0xa6e3a1, 0xfab387, 0x89b4fa,
        ]);
        painted_theme(c)
    } else if eq_ignore_ascii_case(name, "gruvbox") {
        let c: [u32; 12] = [
            0xfe8019, 0x928374, 0x504945, 0xfabd2f, 0x3c3836, 0xa89984,
            0x8ec07c, 0xd3869b, 0xfabd2f, 0xb8bb26, 0xfb4934, 0xa89984,
        ];
        assert(c@ =~= seq![
            0xfe8019u32, 0x928374, 0x504945, 0xfabd2f, 0x3c3836, 0xa89984,
            0x8ec07c, 0xd3869b, 0xfabd2f, 0xb8bb26, 0xfb4934, 0xa89984,
        ]);
        painted_theme(c)
    } else if eq_ignore_ascii_case(name, "nord") {
        let c: [u32; 12] = [
            0x88c0d0, 0x4c566a, 0x434c5e, 0x81a1c1, 0x3b4252, 0x8fbcbb,
            0x8fbcbb, 0xb48ead, 0xebcb8b, 0xa3be8c, 0xbf616a, 0x81a1c1,
        ];
        assert(c@ =~= seq![
            0x88c0d0u32, 0x4c566a, 0x434c5e, 0x81a1c1, 0x3b4252, 0x8fbcbb,
            0x8fbcbb, 0xb48ead, 0xebcb8b, 0xa3be8c, 0xbf616a, 0x81a1c1,
        ]);
        painted_theme(c)
    } else if eq_ignore_ascii_case(name, "tokyonight") {
        let c: [u32; 12] = [
            0x7aa2f7, 0x565f89, 0x3b4261, 0xbb9af7, 0x24283b, 0xa9b1d6,
            0x7dcfff, 0xbb9af7, 0xe0af68, 0x9ece6a, 0xf7768e, 0x7aa2f7,
        ];
        assert(c@ =~= seq![
            0x7aa2f7u32, 0x565f89, 0x3b4261, 0xbb9af7, 0x24283b, 0xa9b1d6,
            0x7dcfff, 0xbb9af7, 0xe0af68, 0x9ece6a, 0xf7768e, 0x7aa2f7,
        ]);
        painted_theme(c)
    } else if eq_ignore_ascii_case(name, "slate") {
        let c: [u32; 12] = [
            0x7aa2f7, 0xa9b1d6, 0x3b4261, 0xc0caf5, 0x283457, 0xa9b1d6,
            0x7dcfee, 0xbb9af7, 0xe0af68, 0x9ece6a, 0xf7768e, 0x565f89,
        ];
        assert(c@ =~= seq![
            0x7aa2f7u32, 0xa9b1d6, 0x3b4261, 0xc0caf5, 0x283457, 0xa9b1d6,
            0x7dcfee, 0xbb9af7, 0xe0af68, 0x9ece6a, 0xf7768e, 0x565f89,
        ]);
        painted_theme(c)
    } else {
        classic_theme()
    }
}

// ----------------------------------------------------------------- overrides

/// The value of a digit in base sixteen.
pub open spec fn hex_value(c: char) -> Option<u32> {
    if '0' <= c <= '9' {
        Some((c as u32 - 48) as u32)
    } else if 'a' <= c <= 'f' {
        Some((c as u32 - 87) as u32)
    } else if 'A' <= c <= 'F' {
        Some((c as u32 - 55) as u32)
    } else {
        None
    }
}

/// The number that digits in base sixteen denote.
pub open spec fn hex_number(s: Seq<char>) -> Option<nat>
    decreases s.len(),
{
    if s.len() == 0 {
        Some(0)
    } else {
        match (hex_number(s.drop_last()), hex_value(s.last())) {
            (Some(n), Some(d)) => Some(16 * n + d as nat),
            _ => None,
        }
    }
}

/// The color that a text denotes: six digits in base sixteen, after `#` or
/// without it.
pub open spec fn hex_color(s: Seq<char>) -> Option<Color> {
    let hex = if s.len() > 0 && s[0] == '#' {
        s.skip(1)
    } else {
        s
    };
    if hex.len() == 6 {
        match hex_number(hex) {
            Some(n) => Some(rgb(n as u32)),
            None => None,
        }
    } else {
        None
    }
}

fn read_hex_digit(c: char) -> (r: Option<u32>)
    ensures
        r == hex_value(c),
        r matches Some(d) ==> d < 16,
{
    if c >= '0' && c <= '9' {
        Some(c as u32 - 48)
    } else if c >= 'a' && c <= 'f' {
        Some(c as u32 - 87)
    } else if c >= 'A' && c <= 'F' {
        Some(c as u32 - 55)
    } else {
        None
    }
}

proof fn lemma_hex_prefix(s: Seq<char>, i: int)
    requires
        0 <= i <= s.len(),
        hex_number(s.take(i)) is None,
    ensures
        hex_number(s) is None,
    decreases s.len() - i,
{
    if i < s.len() {
        assert(s.take(i + 1).drop_last() =~= s.take(i));
        lemma_hex_prefix(s, i + 1);
    } else {
        assert(s.take(i) =~= s);
    }
}

fn read_hex(s: &[char]) -> (r: Option<u32>)
    requires
        s.len() <= 6,
    ensures
        match r {
            Some(n) => hex_number(s@) == Some(n as nat) && n < 0x100_0000,
            None => hex_number(s@) is None,
        },
{
    let mut n: u32 = 0;
    let mut i: usize = 0;
    let mut limit: u32 = 1;
    assert(s@.take(0) =~= Seq::empty());
    while i < s.len()
        invariant
            i <= s.len() <= 6,
            hex_number(s@.take(i as int)) == Some(n as nat),
            n < limit,
            i == 0 ==> limit == 1,
            i == 1 ==> limit == 16,
            i == 2 ==> limit == 256,
            i == 3 ==> limit == 4096,
            i == 4 ==> limit == 65536,
            i == 5 ==> limit == 0x10_0000,
            i == 6 ==> limit == 0x100_0000,
        decreases s.len() - i,
    {
        assert(s@.take(i + 1).drop_last() =~= s@.take(i as int));
        match read_hex_digit(s[i]) {
            Some(d) => {
                n = 16 * n + d;
                limit = 16 * limit;
            },
            None => {
                proof {
                    lemma_hex_prefix(s@, i + 1);
                }
                return None;
            },
        }
        i += 1;
    }
    assert(s@.take(i as int) =~= s@);
    Some(n)
}

fn parse_hex(s: &str) -> (r: Option<Color>)
    ensures
        r == hex_color(s@),
{
    let all = chars_of(s);
    let from: usize = if all.len() > 0 && all[0] == '#' {
        1
    } else {
        0
    };
    let hex = sub_chars(&all, from, all.len());
    assert(hex@ =~= if from == 1 {
        s@.skip(1)
    } else {
        s@
    });
    if hex.len() != 6 {
        return None;
    }
    match read_hex(&hex) {
        Some(n) => Some(rgb_color(n)),
        None => None,
    }
}

/// The color that an override picks, where it is there and well formed.
pub open spec fn picked(value: Option<Seq<char>>) -> Option<Color> {
    match value {
        Some(s) => hex_color(s),
        None => None,
    }
}

fn pick(value: &Option<String>) -> (r: Option<Color>)
    ensures
        r == picked(text_option(*value)),
{
    match value {
        Some(s) => parse_hex(s.as_str()),
        None => None,
    }
}

/// The preset that follows one, around the end; what is not a preset stands for
/// the default.
pub open spec fn preset_after(name: Seq<char>) -> Seq<char> {
    if same_ignoring_case(name, "catppuccin"@) {
        "gruvbox"@
    } else if same_ignoring_case(name, "gruvbox"@) {
        "nord"@
    } else if same_ignoring_case(name, "nord"@) {
        "tokyonight"@
    } else if same_ignoring_case(name, "tokyonight"@) {
        "slate"@
    } else if same_ignoring_case(name, "slate"@) {
        "default"@
    } else {
        "catppuccin"@
    }
}

/// The next preset when the themes are cycled.
pub fn next_preset(name: &str) -> (r: &'static str)
    ensures
        r@ == preset_after(name@),
{
    if eq_ignore_ascii_case(name, "catppuccin") {
        "gruvbox"
    } else if eq_ignore_ascii_case(name, "gruvbox") {
        "nord"
    } else if eq_ignore_ascii_case(name, "nord") {
        "tokyonight"
    } else if eq_ignore_ascii_case(name, "tokyonight") {
        "slate"
    } else if eq_ignore_ascii_case(name, "slate") {
        "default"
    } else {
        "catppuccin"
    }
}

/// Cycling goes through all presets and comes back to the default.
pub proof fn presets_cycle()
    ensures
        preset_after("default"@) == "catppuccin"@,
        preset_after("catppuccin"@) == "gruvbox"@,
        preset_after("gruvbox"@) == "nord"@,
        preset_after("nord"@) == "tokyonight"@,
        preset_after("tokyonight"@) == "slate"@,
        preset_after("slate"@) == "default"@,
{
    reveal_strlit("default");
    reveal_strlit("catppuccin");
    reveal_strlit("gruvbox");
    reveal_strlit("nord");
    reveal_strlit("tokyonight");
    reveal_strlit("slate");
    assert(ascii_lower_all("default"@)[0] == 'd');
    assert(ascii_lower_all("catppuccin"@)[0] == 'c');
    assert(ascii_lower_all("gruvbox"@)[0] == 'g');
    assert(ascii_lower_all("nord"@)[0] == 'n');
    assert(ascii_lower_all("tokyonight"@)[0] == 't');
    assert(ascii_lower_all("slate"@)[0] == 's');
}

/// The preset with the overrides of the configuration.
pub open spec fn resolved(
    name: Seq<char>,
    accent: Option<Seq<char>>,
    borders: Option<Seq<char>>,
    selection_bg: Option<Seq<char>>,
    match_fg: Option<Seq<char>>,
    section: Option<Seq<char>>,
) -> ThemeView {
    let base = preset(name);
    ThemeView {
        accent: if picked(accent) is Some {
            picked(accent)->Some_0
        } else {
            base.accent
        },
        selection_bg: if picked(selection_bg) is Some {
            picked(selection_bg)
        } else {
            base.selection_bg
        },
        match_fg: if picked(match_fg) is Some {
            picked(match_fg)
        } else {
            base.match_fg
        },
        section: if picked(section) is Some {
            picked(section)
        } else {
            base.section
        },
        borders: if borders == Some("rounded"@) {
            BorderKind::Rounded
        } else if borders == Some("none"@) {
            BorderKind::Absent
        } else {
            base.borders
        },
        ..base
    }
}

/// Resolves a preset name (unknown names fall back to the default) with an
/// optional accent override.
pub fn resolve(preset: &str, accent: Option<&str>) -> (r: Theme)
    ensures
        r@ == resolved(
            preset@,
            match accent {
                Some(a) => Some(a@),
                None => None,
            },
            None,
            None,
            None,
            None,
        ),
{
    let mut theme = preset_theme(preset);
    match accent {
        Some(a) => {
            match parse_hex(a) {
                Some(color) => {
                    theme.accent = color;
                },
                None => {},
            }
        },
        None => {},
    }
    theme
}

/// Full theme resolution: preset + accent, then the config's border style
/// and the hex overrides (`selection_bg` / `match_fg` / `section`).
/// Unknown or malformed values are ignored, leaving the preset's choice.
pub fn resolve_config(cfg: &ThemeConfig) -> (r: Theme)
    ensures
        r@ == resolved(
            cfg.preset@,
            text_option(cfg.accent),
            text_option(cfg.borders),
            text_option(cfg.selection_bg),
            text_option(cfg.match_fg),
            text_option(cfg.section),
        ),
{
    let mut theme = preset_theme(cfg.preset.as_str());
    match pick(&cfg.accent) {
        Some(color) => {
            theme.accent = color;
        },
        None => {},
    }
    match pick(&cfg.selection_bg) {
        Some(color) => {
            theme.selection_bg = Some(color);
        },
        None => {},
    }
    match pick(&cfg.match_fg) {
        Some(color) => {
            theme.match_fg = Some(color);
        },
        None => {},
    }
    match pick(&cfg.section) {
        Some(color) => {
            theme.section = Some(color);
        },
        None => {},
    }
    match &cfg.borders {
        Some(b) => {
            if same(b.as_str(), "rounded") {
                theme.borders = BorderKind::Rounded;
            } else if same(b.as_str(), "none") {
                theme.borders = BorderKind::Absent;
            }
        },
        None => {},
    }
    proof {
        reveal_strlit("rounded");
        reveal_strlit("none");
        assert("rounded"@.len() != "none"@.len());
    }
    theme
}


// ---------------------------------------------------------------------- laws

/// The value of a digit in base sixteen: its place among the digits.
pub open spec fn is_hex_digit(c: char, d: int) -> bool {
    &&& 0 <= d < 16
    &&& c == "0123456789abcdef"@[d] || c == "0123456789ABCDEF"@[d]
}

proof fn lemma_hex_digit(c: char, d: int)
    requires
        is_hex_digit(c, d),
    ensures
        hex_value(c) == Some(d as u32),
        c != '#',
{
    reveal_strlit("0123456789abcdef");
    reveal_strlit("0123456789ABCDEF");
}

/// A color is written with two digits in base sixteen for each of red, green and
/// blue, after `#` or without it.
pub proof fn colors_are_read_by_their_digits(s: Seq<char>, d: Seq<int>)
    requires
        s.len() == 6,
        d.len() == 6,
        forall|i: int| 0 <= i < 6 ==> is_hex_digit(#[trigger] s[i], d[i]),
    ensures
        hex_color(s) == Some(
            Color::Rgb(
                (16 * d[0] + d[1]) as u8,
                (16 * d[2] + d[3]) as u8,
                (16 * d[4] + d[5]) as u8,
            ),
        ),
        hex_color(seq!['#'] + s) == hex_color(s),
{
    assert forall|i: int| 0 <= i < 6 implies hex_value(#[trigger] s[i]) == Some(d[i] as u32)
        && s[i] != '#' && 0 <= d[i] < 16 by {
        lemma_hex_digit(s[i], d[i]);
    }
    lemma_hex_take(s, d, 1);
    lemma_hex_take(s, d, 2);
    lemma_hex_take(s, d, 3);
    lemma_hex_take(s, d, 4);
    lemma_hex_take(s, d, 5);
    lemma_hex_take(s, d, 6);
    assert(s.take(6) =~= s);
    assert(s.take(0) =~= Seq::<char>::empty());
    assert((seq!['#'] + s).skip(1) =~= s);
    let (r, g, b) = (16 * d[0] + d[1], 16 * d[2] + d[3], 16 * d[4] + d[5]);
    let n = hex_number(s)->0;
    assert(n == 65536 * r + 256 * g + b);
    assert(n as u32 / 65536 == r);
    assert(n as u32 / 256 % 256 == g);
    assert(n as u32 % 256 == b);
}

proof fn lemma_hex_take(s: Seq<char>, d: Seq<int>, n: int)
    requires
        0 < n <= s.len(),
        hex_value(s[n - 1]) == Some(d[n - 1] as u32),
        0 <= d[n - 1] < 16,
    ensures
        hex_number(s.take(n)) == match hex_number(s.take(n - 1)) {
            Some(m) => Some((16 * m + d[n - 1]) as nat),
            None => None,
        },
{
    assert(s.take(n).drop_last() =~= s.take(n - 1));
    assert(s.take(n).last() == s[n - 1]);
}

/// A text of another length, or with a character that is no digit, is no color.
pub proof fn other_texts_are_no_colors(s: Seq<char>, i: int)
    requires
        s.len() > 0,
        s[0] != '#',
    ensures
        s.len() != 6 ==> hex_color(s) is None && hex_color(seq!['#'] + s) is None,
        0 <= i < s.len() && (forall|d: int| !is_hex_digit(s[i], d)) ==> hex_color(s) is None
            && hex_color(seq!['#'] + s) is None,
{
    assert((seq!['#'] + s).skip(1) =~= s);
    if 0 <= i < s.len() && (forall|d: int| !is_hex_digit(s[i], d)) {
        let c = s[i];
        if hex_value(c) is Some {
            reveal_strlit("0123456789abcdef");
            reveal_strlit("0123456789ABCDEF");
            assert(is_hex_digit(c, hex_value(c)->0 as int));
        }
        lemma_no_number(s, i, s.len() as int);
        assert(s.take(s.len() as int) =~= s);
    }
}

proof fn lemma_no_number(s: Seq<char>, i: int, n: int)
    requires
        0 <= i < n <= s.len(),
        hex_value(s[i]) is None,
    ensures
        hex_number(s.take(n)) is None,
    decreases n,
{
    assert(s.take(n).drop_last() =~= s.take(n - 1));
    assert(s.take(n).last() == s[n - 1]);
    if i < n - 1 {
        lemma_no_number(s, i, n - 1);
    }
}

/// Every color of the configuration replaces that color of the preset and no
/// other; what is no color changes nothing.
pub proof fn overrides_replace_their_own_colors(name: Seq<char>, s: Seq<char>)
    ensures
        resolved(name, None, None, None, None, None) == preset(name),
        ({
            let base = preset(name);
            let accent = resolved(name, Some(s), None, None, None, None);
            let selection = resolved(name, None, None, Some(s), None, None);
            let matches = resolved(name, None, None, None, Some(s), None);
            let section = resolved(name, None, None, None, None, Some(s));
            match hex_color(s) {
                Some(c) => {
                    &&& accent == ThemeView { accent: c, ..base }
                    &&& selection == ThemeView { selection_bg: Some(c), ..base }
                    &&& matches == ThemeView { match_fg: Some(c), ..base }
                    &&& section == ThemeView { section: Some(c), ..base }
                },
                None => accent == base && selection == base && matches == base && section == base,
            }
        }),
{
}

} // verus!
