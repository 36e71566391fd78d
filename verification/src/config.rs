//! The configuration: its defaults, and what a config file makes of them.

use crate::filters::{is_known_kind, kind_for_ext, kind_lists, kind_named, kind_table};
use crate::fusion::text_option;
use crate::order::{is_sorted, sort, Ordered};
use crate::pathmap::PathMap;
use crate::paths::{
    base_dir, extension, extension_of, extensions_follow_the_last_dot, is_name, is_start, join_path,
    joined_path, program_file, program_path,
};
use crate::quiet::{default_quiet, quiet_by_default};
use crate::text::{
    ascii_lower_all, chars_of, digits_of, dots_end, eq_ignore_ascii_case, is_space,
    lemma_text_order, lemma_texts_push, lower_string, push_decimal, same, same_ignoring_case,
    starts_with, string_of_range, text_less, text_lt, texts, trim, trimmed,
    trimming_cuts_outer_spaces, without_leading_dots,
};
use vstd::prelude::*;
use vstd::string::*;

verus! {

/// Content search skips larger files unless configured otherwise.
pub const MAX_CONTENT_FILESIZE: u64 = 2_097_152;

pub open spec fn default_excludes() -> Seq<Seq<char>> {
    seq![
        ".git"@, "node_modules"@, "target"@, ".bun"@, ".cache"@, ".cargo"@, ".npm"@, ".Trash"@,
        ".DS_Store"@, ".venv"@, ".venvs"@, "venv"@, ".tox"@, ".mypy_cache"@, ".pytest_cache"@,
        ".ruff_cache"@, "__pycache__"@, "Library/Caches"@, "Library/Containers"@, "Library/Logs"@,
        "Library/Application Support/MobileSync"@, "Library/Mobile Documents"@,
        "Library/CloudStorage"@,
    ]
}

/// Directory and file names that are never indexed. Cloud-synced trees are
/// among them; a config file can leave them out to opt in.
pub fn excludes_by_default() -> (r: Vec<String>)
    ensures
        texts(r@) == default_excludes(),
{
    let names: Vec<&'static str> = vec![
        ".git", "node_modules", "target", ".bun", ".cache", ".cargo", ".npm", ".Trash",
        ".DS_Store", ".venv", ".venvs", "venv", ".tox", ".mypy_cache", ".pytest_cache",
        ".ruff_cache", "__pycache__", "Library/Caches", "Library/Containers", "Library/Logs",
        "Library/Application Support/MobileSync", "Library/Mobile Documents",
        "Library/CloudStorage",
    ];
    let mut r: Vec<String> = Vec::new();
    let mut i: usize = 0;
    while i < names.len()
        invariant
            i <= names@.len(),
            r@.len() == i,
            forall|k: int| 0 <= k < i ==> (#[trigger] r@[k])@ == names@[k]@,
        decreases names@.len() - i,
    {
        r.push(names[i].to_owned());
        i += 1;
    }
    assert(texts(r@) =~= default_excludes());
    r
}

#[derive(Debug)]
pub struct ThemeConfig {
    pub preset: String,
    pub accent: Option<String>,
    /// "sharp" (default) | "rounded" | "none"; None keeps the preset.
    pub borders: Option<String>,
    /// Hex overrides; None keeps the preset's choice.
    pub selection_bg: Option<String>,
    pub match_fg: Option<String>,
    pub section: Option<String>,
}

impl Default for ThemeConfig {
    fn default() -> (r: ThemeConfig)
        ensures
            r.preset@ == Seq::<char>::empty(),
            r.accent is None,
            r.borders is None,
            r.selection_bg is None,
            r.match_fg is None,
            r.section is None,
    {
        let preset = "".to_owned();
        proof {
            reveal_strlit("");
            assert(preset@ =~= Seq::empty());
        }
        ThemeConfig {
            preset,
            accent: None,
            borders: None,
            selection_bg: None,
            match_fg: None,
            section: None,
        }
    }
}

// ------------------------------------------------------------- custom actions

/// A command configured by the user.
#[derive(Debug)]
pub struct CustomAction {
    pub name: String,
    pub cmd: Vec<String>,
    pub ext: Vec<String>,
    pub kind: Option<String>,
    pub enter: bool,
}

#[verifier::ext_equal]
pub struct ActionView {
    pub name: Seq<char>,
    pub cmd: Seq<Seq<char>>,
    pub ext: Seq<Seq<char>>,
    pub kind: Option<Seq<char>>,
    pub enter: bool,
}

impl View for CustomAction {
    type V = ActionView;

    open spec fn view(&self) -> ActionView {
        ActionView {
            name: self.name@,
            cmd: texts(self.cmd@),
            ext: texts(self.ext@),
            kind: text_option(self.kind),
            enter: self.enter,
        }
    }
}

pub open spec fn action_views(v: Seq<CustomAction>) -> Seq<ActionView> {
    v.map_values(|a: CustomAction| a@)
}

/// The extension belongs to the kind.
pub open spec fn is_of_kind(ext: Seq<char>, kind: Seq<char>) -> bool {
    exists|k: int|
        {
            &&& 0 <= k < kind_table().len()
            &&& #[trigger] kind_lists(k, ext)
            &&& forall|m: int| 0 <= m < k ==> !#[trigger] kind_lists(m, ext)
            &&& same_ignoring_case(kind_table()[k].0, kind)
        }
}

/// The action applies to the file: it is no directory, it has one of the
/// extensions where there are any, and it is of the kind where there is one.
pub open spec fn applies_to(a: ActionView, path: Seq<char>) -> bool {
    let ext = extension(path);
    &&& !(path.len() > 0 && path.last() == '/')
    &&& a.ext.len() == 0 || (ext is Some && exists|k: int|
        0 <= k < a.ext.len() && same_ignoring_case(
            #[trigger] a.ext[k],
            ascii_lower_all(ext->Some_0),
        ))
    &&& a.kind matches Some(kind) ==> ext is Some && is_of_kind(
        ascii_lower_all(ext->Some_0),
        kind,
    )
}

proof fn lemma_first_kind(ext: Seq<char>, a: int, b: int)
    requires
        0 <= a < kind_table().len(),
        0 <= b < kind_table().len(),
        kind_lists(a, ext),
        kind_lists(b, ext),
        forall|m: int| 0 <= m < a ==> !#[trigger] kind_lists(m, ext),
        forall|m: int| 0 <= m < b ==> !#[trigger] kind_lists(m, ext),
    ensures
        a == b,
{
}

fn has_kind(ext: &str, kind: &str) -> (r: bool)
    ensures
        r == is_of_kind(ext@, kind@),
{
    match kind_for_ext(ext) {
        None => false,
        Some(actual) => {
            let r = eq_ignore_ascii_case(actual, kind);
            proof {
                let k = choose|k: int|
                    {
                        &&& 0 <= k < kind_table().len()
                        &&& #[trigger] kind_lists(k, ext@)
                        &&& actual@ == kind_table()[k].0
                        &&& forall|m: int| 0 <= m < k ==> !#[trigger] kind_lists(m, ext@)
                    };
                assert(kind_lists(k, ext@));
                if is_of_kind(ext@, kind@) {
                    let j = choose|j: int|
                        {
                            &&& 0 <= j < kind_table().len()
                            &&& #[trigger] kind_lists(j, ext@)
                            &&& forall|m: int| 0 <= m < j ==> !#[trigger] kind_lists(m, ext@)
                            &&& same_ignoring_case(kind_table()[j].0, kind@)
                        };
                    lemma_first_kind(ext@, k, j);
                }
            }
            r
        },
    }
}

impl CustomAction {
    /// Whether this action applies to a file path. Directories are represented
    /// by a trailing slash in the index and never match custom actions.
    pub fn matches(&self, path: &str) -> (r: bool)
        ensures
            r == applies_to(self@, path@),
    {
        let s = chars_of(path);
        if s.len() > 0 && s[s.len() - 1] == '/' {
            return false;
        }
        let ext = match extension_of(path) {
            Some(e) => Some(lower_string(&e)),
            None => None,
        };
        if self.ext.len() > 0 {
            match &ext {
                None => {
                    return false;
                },
                Some(e) => {
                    let mut found: bool = false;
                    let mut i: usize = 0;
                    while i < self.ext.len() && !found
                        invariant
                            i <= self.ext@.len(),
                            found ==> exists|k: int|
                                0 <= k < self@.ext.len() && same_ignoring_case(
                                    #[trigger] self@.ext[k],
                                    e@,
                                ),
                            !found ==> forall|k: int|
                                0 <= k < i ==> !same_ignoring_case(#[trigger] self@.ext[k], e@),
                        decreases self.ext@.len() - i,
                    {
                        assert(self@.ext[i as int] == self.ext@[i as int]@);
                        if eq_ignore_ascii_case(&self.ext[i], e) {
                            found = true;
                        }
                        i += 1;
                    }
                    if !found {
                        return false;
                    }
                },
            }
        }
        match &self.kind {
            None => true,
            Some(kind) => match &ext {
                None => false,
                Some(e) => has_kind(e, kind),
            },
        }
    }
}

/// A value in a config file, as far as actions go.
#[derive(Debug)]
pub enum RawValue {
    Text(String),
    Flag(bool),
    /// The items of a list; those that are not texts are `None`.
    List(Vec<Option<String>>),
    Other,
}

pub enum RawView {
    Text(Seq<char>),
    Flag(bool),
    List(Seq<Option<Seq<char>>>),
    Other,
}

impl View for RawValue {
    type V = RawView;

    open spec fn view(&self) -> RawView {
        match *self {
            RawValue::Text(s) => RawView::Text(s@),
            RawValue::Flag(b) => RawView::Flag(b),
            RawValue::List(v) => RawView::List(v@.map_values(|s: Option<String>| text_option(s))),
            RawValue::Other => RawView::Other,
        }
    }
}

/// The table of an action in a config file.
#[derive(Debug)]
pub struct RawAction {
    pub name: Option<RawValue>,
    pub cmd: Option<RawValue>,
    pub ext: Option<RawValue>,
    pub kind: Option<RawValue>,
    pub enter: Option<RawValue>,
}

pub open spec fn raw_option(v: Option<RawValue>) -> Option<RawView> {
    match v {
        Some(v) => Some(v@),
        None => None,
    }
}

/// A name that is not blank.
pub open spec fn raw_name(v: Option<RawView>) -> Option<Seq<char>> {
    match v {
        Some(RawView::Text(s)) => if trim(s).len() == 0 {
            None
        } else {
            Some(trim(s))
        },
        _ => None,
    }
}

pub open spec fn all_texts(v: Seq<Option<Seq<char>>>) -> bool {
    forall|i: int| 0 <= i < v.len() ==> (#[trigger] v[i]) is Some
}

pub open spec fn unwrapped(v: Seq<Option<Seq<char>>>) -> Seq<Seq<char>> {
    v.map_values(|s: Option<Seq<char>>| s->Some_0)
}

/// A list of texts whose first is not blank.
pub open spec fn raw_command(v: Option<RawView>) -> Option<Seq<Seq<char>>> {
    match v {
        Some(RawView::List(items)) => if all_texts(items) && items.len() > 0 && trim(
            unwrapped(items)[0],
        ).len() > 0 {
            Some(unwrapped(items))
        } else {
            None
        },
        _ => None,
    }
}

/// An extension without blanks and leading dots, in lower case.
pub open spec fn clean_ext(s: Seq<char>) -> Seq<char> {
    ascii_lower_all(without_leading_dots(trim(s)))
}

/// The extensions that are left once cleaned.
pub open spec fn clean_exts(v: Seq<Seq<char>>) -> Seq<Seq<char>>
    decreases v.len(),
{
    if v.len() == 0 {
        Seq::empty()
    } else {
        let before = clean_exts(v.drop_last());
        let last = clean_ext(v.last());
        if last.len() == 0 {
            before
        } else {
            before.push(last)
        }
    }
}

pub open spec fn raw_exts(v: Option<RawView>) -> Option<Seq<Seq<char>>> {
    match v {
        None => Some(Seq::empty()),
        Some(RawView::List(items)) => if all_texts(items) {
            Some(clean_exts(unwrapped(items)))
        } else {
            None
        },
        _ => None,
    }
}

pub open spec fn is_query_kind(kind: Seq<char>) -> bool {
    exists|k: int| #[trigger] kind_named(k, kind)
}

/// No kind, or one that queries know.
pub open spec fn raw_kind(v: Option<RawView>) -> Option<Option<Seq<char>>> {
    match v {
        None => Some(None),
        Some(RawView::Text(s)) => {
            let kind = ascii_lower_all(trim(s));
            if is_query_kind(kind) {
                Some(Some(kind))
            } else {
                None
            }
        },
        _ => None,
    }
}

pub open spec fn raw_flag(v: Option<RawView>) -> Option<bool> {
    match v {
        None => Some(false),
        Some(RawView::Flag(b)) => Some(b),
        _ => None,
    }
}

/// The action that a table stands for; `None` if it is malformed.
pub open spec fn read_action(raw: RawAction) -> Option<ActionView> {
    let name = raw_name(raw_option(raw.name));
    let cmd = raw_command(raw_option(raw.cmd));
    let ext = raw_exts(raw_option(raw.ext));
    let kind = raw_kind(raw_option(raw.kind));
    let enter = raw_flag(raw_option(raw.enter));
    if name is Some && cmd is Some && ext is Some && kind is Some && enter is Some {
        Some(
            ActionView {
                name: name->Some_0,
                cmd: cmd->Some_0,
                ext: ext->Some_0,
                kind: kind->Some_0,
                enter: enter->Some_0,
            },
        )
    } else {
        None
    }
}

fn name_in(v: &Option<RawValue>) -> (r: Option<String>)
    ensures
        text_option(r) == raw_name(raw_option(*v)),
{
    match v {
        Some(RawValue::Text(s)) => {
            let name = trimmed(&chars_of(s));
            if chars_of(&name).len() == 0 {
                None
            } else {
                Some(name)
            }
        },
        _ => None,
    }
}

/// The texts of a list, if it holds nothing else.
fn texts_in(items: &Vec<Option<String>>) -> (r: Option<Vec<String>>)
    ensures
        ({
            let views = items@.map_values(|s: Option<String>| text_option(s));
            match r {
                Some(v) => all_texts(views) && texts(v@) == unwrapped(views),
                None => !all_texts(views),
            }
        }),
{
    let ghost views = items@.map_values(|s: Option<String>| text_option(s));
    let mut out: Vec<String> = Vec::new();
    let mut i: usize = 0;
    while i < items.len()
        invariant
            i <= items@.len(),
            views == items@.map_values(|s: Option<String>| text_option(s)),
            out@.len() == i,
            forall|k: int|
                0 <= k < i ==> (#[trigger] views[k]) is Some && out@[k]@ == views[k]->Some_0,
        decreases items@.len() - i,
    {
        assert(views[i as int] == text_option(items@[i as int]));
        match &items[i] {
            Some(s) => {
                out.push(s.as_str().to_owned());
            },
            None => {
                return None;
            },
        }
        i += 1;
    }
    assert(texts(out@) =~= unwrapped(views));
    Some(out)
}

fn command_in(v: &Option<RawValue>) -> (r: Option<Vec<String>>)
    ensures
        match r {
            Some(cmd) => raw_command(raw_option(*v)) == Some(texts(cmd@)),
            None => raw_command(raw_option(*v)) is None,
        },
{
    match v {
        Some(RawValue::List(items)) => match texts_in(items) {
            Some(cmd) => {
                proof {
                    let views = items@.map_values(|s: Option<String>| text_option(s));
                    assert(texts(cmd@).len() == cmd@.len());
                    assert(unwrapped(views).len() == views.len());
                    assert(v->Some_0@ == RawView::List(views));
                }
                if cmd.len() == 0 {
                    return None;
                }
                assert(texts(cmd@)[0] == cmd@[0]@);
                let program = trimmed(&chars_of(&cmd[0]));
                if chars_of(&program).len() == 0 {
                    None
                } else {
                    Some(cmd)
                }
            },
            None => None,
        },
        _ => None,
    }
}

fn cleaned_ext(s: &str) -> (r: String)
    ensures
        r@ == clean_ext(s@),
{
    let t = chars_of(&trimmed(&chars_of(s)));
    let i = dots_end(&t, 0);
    assert(t@.skip(0) =~= t@);
    let rest = string_of_range(&t, i, t.len());
    assert(rest@ =~= t@.skip(i as int));
    lower_string(&rest)
}

fn exts_in(v: &Option<RawValue>) -> (r: Option<Vec<String>>)
    ensures
        match r {
            Some(exts) => raw_exts(raw_option(*v)) == Some(texts(exts@)),
            None => raw_exts(raw_option(*v)) is None,
        },
{
    let mut out: Vec<String> = Vec::new();
    assert(texts(out@) =~= Seq::empty());
    match v {
        None => Some(out),
        Some(RawValue::List(items)) => match texts_in(items) {
            None => None,
            Some(given) => {
                let ghost all = texts(given@);
                let mut i: usize = 0;
                assert(all.take(0) =~= Seq::empty());
                while i < given.len()
                    invariant
                        i <= given@.len(),
                        all == texts(given@),
                        texts(out@) == clean_exts(all.take(i as int)),
                    decreases given@.len() - i,
                {
                    proof {
                        assert(all.take(i + 1).drop_last() =~= all.take(i as int));
                        assert(all[i as int] == given@[i as int]@);
                    }
                    let ext = cleaned_ext(&given[i]);
                    if chars_of(&ext).len() > 0 {
                        proof {
                            lemma_texts_push(out@, ext);
                        }
                        out.push(ext);
                    }
                    i += 1;
                }
                assert(all.take(i as int) =~= all);
                Some(out)
            },
        },
        _ => None,
    }
}

fn kind_in(v: &Option<RawValue>) -> (r: Option<Option<String>>)
    ensures
        match r {
            Some(kind) => raw_kind(raw_option(*v)) == Some(text_option(kind)),
            None => raw_kind(raw_option(*v)) is None,
        },
{
    match v {
        None => {
            Some(None)
        },
        Some(RawValue::Text(s)) => {
            let kind = lower_string(&trimmed(&chars_of(s)));
            if is_known_kind(&kind) {
                assert(is_query_kind(kind@));
                Some(Some(kind))
            } else {
                None
            }
        },
        _ => None,
    }
}

/// The action that a table stands for; `None` if it is malformed.
pub fn parse_action(raw: &RawAction) -> (r: Option<CustomAction>)
    ensures
        match r {
            Some(a) => read_action(*raw) == Some(a@),
            None => read_action(*raw) is None,
        },
{
    let name = match name_in(&raw.name) {
        Some(name) => name,
        None => {
            return None;
        },
    };
    let cmd = match command_in(&raw.cmd) {
        Some(cmd) => cmd,
        None => {
            return None;
        },
    };
    let ext = match exts_in(&raw.ext) {
        Some(ext) => ext,
        None => {
            return None;
        },
    };
    let kind = match kind_in(&raw.kind) {
        Some(kind) => kind,
        None => {
            return None;
        },
    };
    let enter = match &raw.enter {
        None => false,
        Some(RawValue::Flag(b)) => *b,
        _ => {
            return None;
        },
    };
    let r = CustomAction { name, cmd, ext, kind, enter };
    proof {
        assert(r@ =~= read_action(*raw)->Some_0);
    }
    Some(r)
}

/// The well-formed actions among the first `n` items; an item that is no table
/// is malformed.
pub open spec fn actions_upto(raw: Seq<Option<RawAction>>, n: int) -> Seq<ActionView>
    decreases n,
{
    if n <= 0 {
        Seq::empty()
    } else {
        let before = actions_upto(raw, n - 1);
        match raw[n - 1] {
            Some(table) => match read_action(table) {
                Some(a) => before.push(a),
                None => before,
            },
            None => before,
        }
    }
}

/// Reads the actions of a config file. Malformed ones are skipped and counted.
pub fn parse_actions(raw: &Vec<Option<RawAction>>) -> (r: (Vec<CustomAction>, usize))
    ensures
        action_views(r.0@) == actions_upto(raw@, raw@.len() as int),
        r.0@.len() + r.1 == raw@.len(),
{
    let mut actions: Vec<CustomAction> = Vec::new();
    let mut skipped: usize = 0;
    let mut i: usize = 0;
    assert(action_views(actions@) =~= Seq::empty());
    while i < raw.len()
        invariant
            i <= raw@.len(),
            action_views(actions@) == actions_upto(raw@, i as int),
            actions@.len() + skipped == i,
        decreases raw@.len() - i,
    {
        let parsed = match &raw[i] {
            Some(table) => parse_action(table),
            None => None,
        };
        match parsed {
            Some(a) => {
                let ghost before = actions@;
                actions.push(a);
                assert(action_views(actions@) =~= action_views(before).push(a@));
            },
            None => {
                skipped += 1;
            },
        }
        i += 1;
    }
    (actions, skipped)
}

/// The warning about skipped actions, if there are any.
pub open spec fn warning_for(skipped: nat) -> Option<Seq<char>> {
    if skipped == 0 {
        None
    } else {
        Some(
            "warning: skipped "@ + digits_of(skipped) + " malformed custom action"@ + (if skipped
                == 1 {
                Seq::empty()
            } else {
                seq!['s']
            }),
        )
    }
}

pub fn action_warning(skipped: usize) -> (r: Option<String>)
    ensures
        text_option(r) == warning_for(skipped as nat),
{
    if skipped == 0 {
        return None;
    }
    let mut s = "warning: skipped ".to_owned();
    push_decimal(&mut s, skipped as u64);
    s.append(" malformed custom action");
    if skipped != 1 {
        s.push('s');
    }
    assert(s@ =~= warning_for(skipped as nat)->Some_0);
    Some(s)
}

// ------------------------------------------------------------------- editors

/// One menu entry for code files that runs a command on the path.
pub open spec fn editor_entry(name: Seq<char>, cmd: Seq<Seq<char>>) -> ActionView {
    ActionView { name, cmd, ext: Seq::empty(), kind: Some("code"@), enter: false }
}

/// The editor bundles looked for on macOS: bundle, application, menu entry.
pub open spec fn editor_apps() -> Seq<(Seq<char>, Seq<char>, Seq<char>)> {
    seq![
        ("Cursor.app"@, "Cursor"@, "open in cursor"@),
        ("Visual Studio Code.app"@, "Visual Studio Code"@, "open in vs code"@),
        ("Zed.app"@, "Zed"@, "open in zed"@),
        ("Sublime Text.app"@, "Sublime Text"@, "open in sublime text"@),
    ]
}

/// The editor programs looked for elsewhere: program, menu entry.
pub open spec fn editor_programs() -> Seq<(Seq<char>, Seq<char>)> {
    seq![
        ("cursor"@, "open in cursor"@),
        ("code"@, "open in vs code"@),
        ("zed"@, "open in zed"@),
        ("subl"@, "open in sublime text"@),
    ]
}

/// The menu entries for the applications that were found.
pub open spec fn app_entries(found: Seq<bool>, n: int) -> Seq<ActionView>
    decreases n,
{
    if n <= 0 {
        Seq::empty()
    } else {
        let (_, app, name) = editor_apps()[n - 1];
        let before = app_entries(found, n - 1);
        if n <= found.len() && found[n - 1] {
            before.push(editor_entry(name, seq!["open"@, "-a"@, app, "{path}"@]))
        } else {
            before
        }
    }
}

/// The menu entries for the programs that were found.
pub open spec fn program_entries(found: Seq<bool>, n: int) -> Seq<ActionView>
    decreases n,
{
    if n <= 0 {
        Seq::empty()
    } else {
        let (program, name) = editor_programs()[n - 1];
        let before = program_entries(found, n - 1);
        if n <= found.len() && found[n - 1] {
            before.push(editor_entry(name, seq![program, "{path}"@]))
        } else {
            before
        }
    }
}

fn code_action(name: &str, cmd: Vec<String>) -> (r: CustomAction)
    ensures
        r@ == editor_entry(name@, texts(cmd@)),
{
    let r = CustomAction {
        name: name.to_owned(),
        cmd,
        ext: Vec::new(),
        kind: Some("code".to_owned()),
        enter: false,
    };
    assert(texts(r.ext@) =~= Seq::empty());
    r
}

pub fn app_table() -> (r: Vec<(&'static str, &'static str, &'static str)>)
    ensures
        r@.len() == editor_apps().len(),
        forall|i: int|
            0 <= i < r@.len() ==> ((#[trigger] r@[i]).0@, r@[i].1@, r@[i].2@) == editor_apps()[i],
{
    vec![
        ("Cursor.app", "Cursor", "open in cursor"),
        ("Visual Studio Code.app", "Visual Studio Code", "open in vs code"),
        ("Zed.app", "Zed", "open in zed"),
        ("Sublime Text.app", "Sublime Text", "open in sublime text"),
    ]
}

pub fn program_table() -> (r: Vec<(&'static str, &'static str)>)
    ensures
        r@.len() == editor_programs().len(),
        forall|i: int|
            0 <= i < r@.len() ==> ((#[trigger] r@[i]).0@, r@[i].1@) == editor_programs()[i],
{
    vec![
        ("cursor", "open in cursor"),
        ("code", "open in vs code"),
        ("zed", "open in zed"),
        ("subl", "open in sublime text"),
    ]
}

/// macOS: one action per editor bundle that is installed.
pub fn editor_actions_in(found: &Vec<bool>) -> (r: Vec<CustomAction>)
    ensures
        action_views(r@) == app_entries(found@, 4),
{
    let table = app_table();
    let mut out: Vec<CustomAction> = Vec::new();
    let mut i: usize = 0;
    assert(action_views(out@) =~= Seq::empty());
    while i < table.len()
        invariant
            i <= table@.len(),
            table@.len() == 4,
            table@.len() == editor_apps().len(),
            forall|i: int|
                0 <= i < table@.len() ==> (
                (#[trigger] table@[i]).0@,
                table@[i].1@,
                table@[i].2@) == editor_apps()[i],
            action_views(out@) == app_entries(found@, i as int),
        decreases table@.len() - i,
    {
        let (_, app, name) = table[i];
        if i < found.len() && found[i] {
            let mut cmd: Vec<String> = Vec::new();
            cmd.push("open".to_owned());
            cmd.push("-a".to_owned());
            cmd.push(app.to_owned());
            cmd.push("{path}".to_owned());
            assert(texts(cmd@) =~= seq!["open"@, "-a"@, app@, "{path}"@]);
            let action = code_action(name, cmd);
            let ghost before = out@;
            out.push(action);
            assert(action_views(out@) =~= action_views(before).push(action@));
        }
        i += 1;
    }
    out
}

/// Elsewhere: one action per editor program that is installed.
pub fn editor_actions_on_path(found: &Vec<bool>) -> (r: Vec<CustomAction>)
    ensures
        action_views(r@) == program_entries(found@, 4),
{
    let table = program_table();
    let mut out: Vec<CustomAction> = Vec::new();
    let mut i: usize = 0;
    assert(action_views(out@) =~= Seq::empty());
    while i < table.len()
        invariant
            i <= table@.len(),
            table@.len() == 4,
            table@.len() == editor_programs().len(),
            forall|i: int|
                0 <= i < table@.len() ==> ((#[trigger] table@[i]).0@, table@[i].1@)
                    == editor_programs()[i],
            action_views(out@) == program_entries(found@, i as int),
        decreases table@.len() - i,
    {
        let (program, name) = table[i];
        if i < found.len() && found[i] {
            let mut cmd: Vec<String> = Vec::new();
            cmd.push(program.to_owned());
            cmd.push("{path}".to_owned());
            assert(texts(cmd@) =~= seq![program@, "{path}"@]);
            let action = code_action(name, cmd);
            let ghost before = out@;
            out.push(action);
            assert(action_views(out@) =~= action_views(before).push(action@));
        }
        i += 1;
    }
    out
}

// -------------------------------------------------------------------- config

/// A named query.
#[derive(Debug, Clone, PartialEq)]
pub struct Search {
    pub name: String,
    pub query: String,
}

impl View for Search {
    type V = (Seq<char>, Seq<char>);

    open spec fn view(&self) -> (Seq<char>, Seq<char>) {
        (self.name@, self.query@)
    }
}

impl Ordered for Search {
    open spec fn before(&self, other: &Self) -> bool {
        text_lt(self.name@, other.name@)
    }

    proof fn order_laws(a: &Self, b: &Self, c: &Self) {
        let (x, y, z) = (a.name@, b.name@, c.name@);
        lemma_text_order(x, y, z);
    }

    fn comes_before(&self, other: &Self) -> (r: bool) {
        text_less(&self.name, &other.name)
    }
}

/// The query of that name.
pub open spec fn search_named(searches: Seq<Search>, name: Seq<char>) -> Option<Seq<char>>
    decreases searches.len(),
{
    if searches.len() == 0 {
        None
    } else if searches[0]@.0 == name {
        Some(searches[0]@.1)
    } else {
        search_named(searches.skip(1), name)
    }
}

/// Looks up a named query.
pub fn find_search<'a>(searches: &'a Vec<Search>, name: &str) -> (r: Option<&'a str>)
    ensures
        search_named(searches@, name@) == (match r {
            Some(query) => Some(query@),
            None => None,
        }),
{
    let mut i: usize = 0;
    assert(searches@.skip(0) =~= searches@);
    while i < searches.len()
        invariant
            i <= searches@.len(),
            search_named(searches@, name@) == search_named(searches@.skip(i as int), name@),
        decreases searches@.len() - i,
    {
        let ghost rest = searches@.skip(i as int);
        assert(rest[0] == searches@[i as int]);
        assert(rest.skip(1) =~= searches@.skip(i + 1));
        if same(searches[i].name.as_str(), name) {
            return Some(searches[i].query.as_str());
        }
        i += 1;
    }
    None
}

/// The lines of a list of searches: each name, a tab and its query.
pub open spec fn search_lines(searches: Seq<Search>) -> Seq<char>
    decreases searches.len(),
{
    if searches.len() == 0 {
        Seq::empty()
    } else {
        search_lines(searches.drop_last()) + (searches.last()@.0 + "\t"@ + searches.last()@.1
            + "\n"@)
    }
}

/// Lists named queries, by name.
pub fn list_searches(searches: Vec<Search>) -> (r: String)
    ensures
        exists|all: Seq<Search>|
            is_sorted(all) && all.to_multiset() == searches@.to_multiset() && r@
                == #[trigger] search_lines(all),
{
    let all = sort(searches);
    let mut out = String::new();
    let mut i: usize = 0;
    proof {
        reveal_strlit("");
    }
    assert(all@.take(0) =~= Seq::<Search>::empty());
    while i < all.len()
        invariant
            i <= all@.len(),
            out@ == search_lines(all@.take(i as int)),
        decreases all@.len() - i,
    {
        let ghost now = all@.take(i + 1);
        assert(now.drop_last() =~= all@.take(i as int));
        out.append(all[i].name.as_str());
        out.append("\t");
        out.append(all[i].query.as_str());
        out.append("\n");
        assert(out@ =~= search_lines(now));
        i += 1;
    }
    assert(all@.take(i as int) =~= all@);
    out
}

#[derive(Debug)]
pub struct Config {
    pub roots: Vec<String>,
    pub excludes: Vec<String>,
    pub max_content_filesize: u64,
    pub theme: ThemeConfig,
    /// Command key overrides: action name -> key specs.
    pub keys: PathMap<Vec<String>>,
    /// Mouse support: click to select, double-click to open, wheel scrolls.
    pub mouse: bool,
    /// Restore the preview layout and row density from the last run.
    pub remember_session: bool,
    /// Load and save opened files and queries.
    pub remember_history: bool,
    /// Named queries.
    pub searches: Vec<Search>,
    /// Substring patterns demoted below the fold and off the launch screen.
    pub quiet: Vec<String>,
    /// Include application bundles in the index (macOS).
    pub index_apps: bool,
    /// Nerd-font glyphs before filenames in result rows.
    pub icons: bool,
    /// Blend bare filename searches with semantic results when available.
    pub unified: bool,
    /// User-defined commands shown in the actions menu.
    pub actions: Vec<CustomAction>,
    /// One warning for any malformed actions that were skipped.
    pub action_warning: Option<String>,
}

/// The keys of a command: either one spec or a list of them.
#[derive(Debug)]
pub enum KeySpec {
    One(String),
    Many(Vec<String>),
}

pub open spec fn spec_texts(k: KeySpec) -> Seq<Seq<char>> {
    match k {
        KeySpec::One(s) => seq![s@],
        KeySpec::Many(v) => texts(v@),
    }
}

#[derive(Debug)]
pub struct RawTheme {
    pub preset: Option<String>,
    pub accent: Option<String>,
    pub borders: Option<String>,
    pub selection_bg: Option<String>,
    pub match_fg: Option<String>,
    pub section: Option<String>,
}

/// A config file as it was read: whatever is left out is `None`.
#[derive(Debug)]
pub struct RawConfig {
    pub roots: Option<Vec<String>>,
    pub excludes: Option<Vec<String>>,
    pub max_content_filesize: Option<u64>,
    pub theme: Option<RawTheme>,
    pub keys: Option<Vec<(String, KeySpec)>>,
    pub mouse: Option<bool>,
    pub remember_session: Option<bool>,
    pub remember_history: Option<bool>,
    pub searches: Option<Vec<Search>>,
    pub quiet: Option<Vec<String>>,
    pub index_apps: Option<bool>,
    pub icons: Option<bool>,
    pub unified: Option<bool>,
    pub actions: Option<Vec<Option<RawAction>>>,
}

/// A path with a leading tilde replaced by the home directory.
pub open spec fn expanded(s: Seq<char>, home: Seq<char>) -> Seq<char> {
    if s == "~"@ {
        home
    } else if "~/"@.is_prefix_of(s) {
        join_path(home, s.skip(2))
    } else {
        s
    }
}

pub fn expand_tilde(s: &str, home: &str) -> (r: String)
    ensures
        r@ == expanded(s@, home@),
{
    if same(s, "~") {
        return home.to_owned();
    }
    let v = chars_of(s);
    if starts_with(&v, "~/") {
        proof {
            reveal_strlit("~/");
        }
        let rest = string_of_range(&v, 2, v.len());
        assert(rest@ =~= s@.skip(2));
        joined_path(home, &rest)
    } else {
        s.to_owned()
    }
}

/// The last specs given for a name among the first `n` entries.
pub open spec fn given_keys(entries: Seq<(String, KeySpec)>, n: int, name: Seq<char>) -> Option<
    Seq<Seq<char>>,
>
    decreases n,
{
    if n <= 0 {
        None
    } else if entries[n - 1].0@ == name {
        Some(spec_texts(entries[n - 1].1))
    } else {
        given_keys(entries, n - 1, name)
    }
}

/// What a map of overrides says of a name.
pub open spec fn mapped_keys(m: Map<Seq<char>, Vec<String>>, name: Seq<char>) -> Option<
    Seq<Seq<char>>,
> {
    if m.dom().contains(name) {
        Some(texts(m[name]@))
    } else {
        None
    }
}

fn key_overrides(entries: Vec<(String, KeySpec)>) -> (r: PathMap<Vec<String>>)
    ensures
        forall|name: Seq<char>|
            #[trigger] mapped_keys(r@, name) == given_keys(
                entries@,
                entries@.len() as int,
                name,
            ),
{
    let ghost all = entries@;
    let mut rest = entries;
    let mut backward: Vec<(String, KeySpec)> = Vec::new();
    while rest.len() > 0
        invariant
            rest@.len() + backward@.len() == all.len(),
            rest@ == all.take(rest@.len() as int),
            forall|i: int|
                0 <= i < backward@.len() ==> backward@[i] == all[all.len() - 1 - i],
        decreases rest@.len(),
    {
        match rest.pop() {
            Some(e) => {
                backward.push(e);
            },
            None => {},
        }
    }
    let mut m: PathMap<Vec<String>> = PathMap::new();
    let ghost mut n: int = 0;
    while backward.len() > 0
        invariant
            backward@.len() + n == all.len(),
            0 <= n,
            forall|i: int|
                0 <= i < backward@.len() ==> backward@[i] == all[all.len() - 1 - i],
            forall|name: Seq<char>|
                #[trigger] mapped_keys(m@, name) == given_keys(all, n, name),
        decreases backward@.len(),
    {
        let ghost before = m@;
        match backward.pop() {
            Some((name, spec)) => {
                proof {
                    assert((name, spec) == all[n]);
                }
                let ghost key = name@;
                let specs = match spec {
                    KeySpec::One(s) => {
                        let one: Vec<String> = vec![s];
                        assert(texts(one@) =~= seq![s@]);
                        one
                    },
                    KeySpec::Many(v) => v,
                };
                m.insert(name, specs);
                proof {
                    n = n + 1;
                    assert forall|x: Seq<char>| #[trigger] mapped_keys(m@, x) == given_keys(
                        all,
                        n,
                        x,
                    ) by {
                        assert(mapped_keys(before, x) == given_keys(all, n - 1, x));
                    }
                }
            },
            None => {},
        }
    }
    m
}

/// The roots that a config file names, or the home directory.
pub open spec fn roots_of(raw: RawConfig, home: Seq<char>) -> Seq<Seq<char>> {
    match raw.roots {
        Some(v) => texts(v@).map_values(|s: Seq<char>| expanded(s, home)),
        None => seq![home],
    }
}

pub open spec fn theme_of(raw: Option<RawTheme>, t: ThemeConfig) -> bool {
    match raw {
        Some(r) => {
            &&& t.preset@ == (match r.preset {
                Some(p) => p@,
                None => Seq::empty(),
            })
            &&& t.accent == r.accent
            &&& t.borders == r.borders
            &&& t.selection_bg == r.selection_bg
            &&& t.match_fg == r.match_fg
            &&& t.section == r.section
        },
        None => {
            &&& t.preset@ == Seq::<char>::empty()
            &&& t.accent is None
            &&& t.borders is None
            &&& t.selection_bg is None
            &&& t.match_fg is None
            &&& t.section is None
        },
    }
}

pub open spec fn or_default<T>(v: Option<T>, d: T) -> T {
    match v {
        Some(x) => x,
        None => d,
    }
}

pub open spec fn raw_actions(raw: RawConfig) -> Seq<Option<RawAction>> {
    match raw.actions {
        Some(v) => v@,
        None => Seq::empty(),
    }
}

pub open spec fn key_entries(raw: RawConfig) -> Seq<(String, KeySpec)> {
    match raw.keys {
        Some(v) => v@,
        None => Seq::empty(),
    }
}

/// `c` is what the file says, with defaults for what it leaves out.
pub open spec fn is_config(c: Config, raw: RawConfig, home: Seq<char>) -> bool {
    let actions = raw_actions(raw);
    let entries = key_entries(raw);
    &&& texts(c.roots@) == roots_of(raw, home)
    &&& texts(c.excludes@) == (match raw.excludes {
        Some(v) => texts(v@),
        None => default_excludes(),
    })
    &&& c.max_content_filesize == or_default(raw.max_content_filesize, MAX_CONTENT_FILESIZE)
    &&& theme_of(raw.theme, c.theme)
    &&& forall|name: Seq<char>|
        #[trigger] mapped_keys(c.keys@, name) == given_keys(entries, entries.len() as int, name)
    &&& c.mouse == or_default(raw.mouse, true)
    &&& c.remember_session == or_default(raw.remember_session, true)
    &&& c.remember_history == or_default(raw.remember_history, true)
    &&& c.searches@ == (match raw.searches {
        Some(v) => v@,
        None => Seq::empty(),
    })
    &&& texts(c.quiet@) == (match raw.quiet {
        Some(v) => texts(v@),
        None => default_quiet(),
    })
    &&& c.index_apps == or_default(raw.index_apps, true)
    &&& c.icons == or_default(raw.icons, false)
    &&& c.unified == or_default(raw.unified, true)
    &&& action_views(c.actions@) == actions_upto(actions, actions.len() as int)
    &&& text_option(c.action_warning) == warning_for(
        (actions.len() - actions_upto(actions, actions.len() as int).len()) as nat,
    )
}

/// A file that leaves everything out.
pub open spec fn is_blank_file(raw: RawConfig) -> bool {
    &&& raw.roots is None
    &&& raw.excludes is None
    &&& raw.max_content_filesize is None
    &&& raw.theme is None
    &&& raw.keys is None
    &&& raw.mouse is None
    &&& raw.remember_session is None
    &&& raw.remember_history is None
    &&& raw.searches is None
    &&& raw.quiet is None
    &&& raw.index_apps is None
    &&& raw.icons is None
    &&& raw.unified is None
    &&& raw.actions is None
}

fn unwrap_flag(v: Option<bool>, d: bool) -> (r: bool)
    ensures
        r == or_default(v, d),
{
    match v {
        Some(x) => x,
        None => d,
    }
}

fn expanded_roots(roots: &Vec<String>, home: &str) -> (r: Vec<String>)
    ensures
        texts(r@) == texts(roots@).map_values(|s: Seq<char>| expanded(s, home@)),
{
    let mut out: Vec<String> = Vec::new();
    let mut i: usize = 0;
    while i < roots.len()
        invariant
            i <= roots@.len(),
            out@.len() == i,
            forall|k: int| 0 <= k < i ==> (#[trigger] out@[k])@ == expanded(roots@[k]@, home@),
        decreases roots@.len() - i,
    {
        out.push(expand_tilde(&roots[i], home));
        i += 1;
    }
    assert(texts(out@) =~= texts(roots@).map_values(|s: Seq<char>| expanded(s, home@)));
    out
}

/// The configuration that a file stands for.
pub fn merge(raw: RawConfig, home: &str) -> (r: Config)
    ensures
        is_config(r, raw, home@),
{
    let ghost given = raw;
    let tables = match raw.actions {
        Some(v) => v,
        None => Vec::new(),
    };
    let (actions, skipped) = parse_actions(&tables);
    assert(tables@ =~= raw_actions(given));
    assert(action_views(actions@).len() == actions@.len());
    let entries = match raw.keys {
        Some(v) => v,
        None => Vec::new(),
    };
    assert(entries@ =~= key_entries(given));
    let roots = match raw.roots {
        Some(v) => expanded_roots(&v, home),
        None => {
            let one: Vec<String> = vec![home.to_owned()];
            assert(texts(one@) =~= seq![home@]);
            one
        },
    };
    let theme = match raw.theme {
        Some(t) => {
            let blank = ThemeConfig::default();
            ThemeConfig {
                preset: match t.preset {
                    Some(p) => p,
                    None => blank.preset,
                },
                accent: t.accent,
                borders: t.borders,
                selection_bg: t.selection_bg,
                match_fg: t.match_fg,
                section: t.section,
            }
        },
        None => ThemeConfig::default(),
    };
    Config {
        roots,
        excludes: match raw.excludes {
            Some(v) => v,
            None => excludes_by_default(),
        },
        max_content_filesize: match raw.max_content_filesize {
            Some(n) => n,
            None => MAX_CONTENT_FILESIZE,
        },
        theme,
        keys: key_overrides(entries),
        mouse: unwrap_flag(raw.mouse, true),
        remember_session: unwrap_flag(raw.remember_session, true),
        remember_history: unwrap_flag(raw.remember_history, true),
        searches: match raw.searches {
            Some(v) => v,
            None => Vec::new(),
        },
        quiet: match raw.quiet {
            Some(v) => v,
            None => quiet_by_default(),
        },
        index_apps: unwrap_flag(raw.index_apps, true),
        icons: unwrap_flag(raw.icons, false),
        unified: unwrap_flag(raw.unified, true),
        actions,
        action_warning: action_warning(skipped),
    }
}

impl Config {
    /// The configuration without a config file.
    pub fn defaults(home: &str) -> (r: Config)
        ensures
            exists|raw: RawConfig| is_blank_file(raw) && #[trigger] is_config(r, raw, home@),
    {
        let raw = RawConfig {
            roots: None,
            excludes: None,
            max_content_filesize: None,
            theme: None,
            keys: None,
            mouse: None,
            remember_session: None,
            remember_history: None,
            searches: None,
            quiet: None,
            index_apps: None,
            icons: None,
            unified: None,
            actions: None,
        };
        let ghost given = raw;
        let r = merge(raw, home);
        assert(is_blank_file(given) && is_config(r, given, home@));
        r
    }
}

// ------------------------------------------------------------------ template

/// The explanations at the start of a new config file.
pub const DEFAULT_TEMPLATE_HEADER: &'static str = "\
# fsearch configuration
# roots: directories to index (~ expands to your home directory)
# excludes: directory or file names/paths never indexed
#   cloud drives are excluded by default; delete \"Library/Mobile Documents\"
#   (iCloud) or \"Library/CloudStorage\" (Box, Dropbox, ...) to index them
# max_content_filesize: content search skips files larger than this (bytes)
# [theme] preset: default, catppuccin, gruvbox, nord, slate, tokyonight, forge
#         accent: optional hex override, e.g. \"#7aa2f7\"
#         borders: \"sharp\" (default), \"rounded\", or \"none\"
#         selection_bg / match_fg / section: optional hex overrides,
#           e.g. selection_bg = \"#313244\"
# [keys] remaps commands, e.g. quit = \"ctrl-q\", move_up = [\"up\", \"ctrl-k\"]
#   help = [\"f1\", \"ctrl-o\"], toggle_mark = \"ctrl-s\", clear_marks = \"alt-s\"
#   theme_cycle = \"ctrl-g\"
#   (text editing keys - typing, backspace, cursor, ctrl-a/e/w/d - are fixed)
# index_apps: include /Applications app bundles in the index (macOS)
# icons: nerd-font glyphs before filenames (true/false; needs a nerd font)
# unified: blend bare filename and semantic results (true/false)
# quiet: substrings demoted in ranking (app internals); set [] to disable
# mouse: click to select, double-click to open, wheel scrolls (true/false)
# remember_session: restore preview layout and row density between runs
#   (true/false)
# Custom actions run argv directly (never through a shell). Paths support
# {path}, {paths} (one argv element spliced per marked file), and {dir}.
# Until you define any [[actions]], fsearch offers built-in defaults:
# \"open in <editor>\" menu entries for installed GUI code editors
# (Cursor, VS Code, Zed, Sublime Text). Defining your own replaces them.
#
# [[actions]]
# name = \"open in cursor\"
# cmd = [\"cursor\", \"{path}\"]
# kind = \"code\"
#
# [[actions]]
# name = \"open in Preview\"
# cmd = [\"open\", \"-a\", \"Preview\", \"{path}\"]
# ext = [\"pdf\"]
#
# [[actions]]
# name = \"open in Word\"
# cmd = [\"open\", \"-a\", \"Microsoft Word\", \"{path}\"]
# ext = [\"docx\"]
# enter = true replaces the default opener for matching files.
# Malformed actions are skipped; only add commands you trust.
";

/// Quoted texts, separated by commas.
pub open spec fn quoted(v: Seq<Seq<char>>) -> Seq<char>
    decreases v.len(),
{
    if v.len() == 0 {
        Seq::empty()
    } else if v.len() == 1 {
        seq!['"'] + v[0] + seq!['"']
    } else {
        quoted(v.drop_last()) + ", "@ + seq!['"'] + v.last() + seq!['"']
    }
}

/// The config file that is written when there is none.
pub open spec fn new_file() -> Seq<char> {
    DEFAULT_TEMPLATE_HEADER@ + "roots = [\"~\"]\nexcludes = ["@ + quoted(default_excludes())
        + "]\nmax_content_filesize = "@ + digits_of(MAX_CONTENT_FILESIZE as nat) + "\n"@
}

pub fn default_file() -> (r: String)
    ensures
        r@ == new_file(),
{
    let mut s = DEFAULT_TEMPLATE_HEADER.to_owned();
    s.append("roots = [\"~\"]\nexcludes = [");
    let ghost start = s@;
    let excludes = excludes_by_default();
    let ghost all = texts(excludes@);
    let mut i: usize = 0;
    assert(all.take(0) =~= Seq::empty());
    while i < excludes.len()
        invariant
            i <= excludes@.len(),
            all == texts(excludes@),
            s@ == start + quoted(all.take(i as int)),
        decreases excludes@.len() - i,
    {
        let ghost before = s@;
        if i > 0 {
            s.append(", ");
        }
        s.push('"');
        s.append(&excludes[i]);
        s.push('"');
        proof {
            let next = all.take(i + 1);
            assert(next.drop_last() =~= all.take(i as int));
            assert(next.last() == excludes@[i as int]@);
            assert(s@ =~= start + quoted(next));
        }
        i += 1;
    }
    assert(all.take(i as int) =~= all);
    s.append("]\nmax_content_filesize = ");
    push_decimal(&mut s, MAX_CONTENT_FILESIZE);
    s.append("\n");
    assert(s@ =~= new_file());
    s
}

/// What a new config file says.
pub open spec fn is_new_file(raw: RawConfig) -> bool {
    &&& raw.roots matches Some(v) && texts(v@) == seq!["~"@]
    &&& raw.excludes matches Some(v) && texts(v@) == default_excludes()
    &&& raw.max_content_filesize == Some(MAX_CONTENT_FILESIZE)
    &&& is_blank_file(RawConfig { roots: None, excludes: None, max_content_filesize: None, ..raw })
}

/// A new config file stands for the same configuration as no file.
pub proof fn new_files_say_the_defaults(c: Config, raw: RawConfig, blank: RawConfig, home: Seq<char>)
    requires
        is_new_file(raw),
        is_blank_file(blank),
    ensures
        is_config(c, raw, home) == is_config(c, blank, home),
{
    assert(roots_of(raw, home) =~= seq![home]);
    assert(raw_actions(raw) == raw_actions(blank));
    assert(key_entries(raw) == key_entries(blank));
}

/// Where the settings are: below `XDG_CONFIG_HOME` where that is set.
pub fn default_config_path(set: Option<&str>, home: Option<&str>) -> (r: String)
    ensures
        r@ == program_file(base_dir(set, home, ".config"@), "config.toml"@),
{
    program_path(set, home, ".config", "config.toml")
}


proof fn lemma_dots_dropped(dots: Seq<char>, ext: Seq<char>)
    requires
        forall|i: int| 0 <= i < dots.len() ==> #[trigger] dots[i] == '.',
        ext.len() == 0 || ext[0] != '.',
    ensures
        without_leading_dots(dots + ext) == ext,
    decreases dots.len(),
{
    if dots.len() > 0 {
        assert((dots + ext).drop_first() =~= dots.drop_first() + ext);
        lemma_dots_dropped(dots.drop_first(), ext);
    } else {
        assert(dots + ext =~= ext);
    }
}

/// An extension in the settings counts without spaces around it and dots before
/// it, in lower case.
pub proof fn extensions_are_cleaned(
    before: Seq<char>,
    dots: Seq<char>,
    ext: Seq<char>,
    after: Seq<char>,
)
    requires
        forall|k: int| 0 <= k < before.len() ==> is_space(#[trigger] before[k]),
        forall|k: int| 0 <= k < after.len() ==> is_space(#[trigger] after[k]),
        forall|i: int| 0 <= i < dots.len() ==> #[trigger] dots[i] == '.',
        ext.len() > 0,
        ext[0] != '.',
        !is_space(ext[0]),
        !is_space(ext.last()),
    ensures
        clean_ext(before + dots + ext + after) == ascii_lower_all(ext),
{
    let core = dots + ext;
    trimming_cuts_outer_spaces(before, core, after);
    assert(before + core + after =~= before + dots + ext + after);
    lemma_dots_dropped(dots, ext);
}

/// An action applies to files only: to every one where it names neither
/// extensions nor a kind, and else to those with one of its extensions, in any
/// case, and of its kind.
pub proof fn actions_apply_by_extension_and_kind(
    a: ActionView,
    dir: Seq<char>,
    stem: Seq<char>,
    ext: Seq<char>,
)
    requires
        is_start(dir),
        stem.len() > 0,
        !ext.contains('.'),
        is_name(stem + seq!['.'] + ext),
        is_name(stem),
    ensures
        ({
            let path = dir + stem + seq!['.'] + ext;
            let listed = exists|k: int|
                0 <= k < a.ext.len() && same_ignoring_case(
                    #[trigger] a.ext[k],
                    ascii_lower_all(ext),
                );
            let fits = is_of_kind(ascii_lower_all(ext), a.kind->0);
            &&& applies_to(a, path) <==> (a.ext.len() == 0 || listed) && (a.kind is None || fits)
            &&& !applies_to(a, path + seq!['/'])
        }),
{
    extensions_follow_the_last_dot(dir, stem, ext);
    let name = stem + seq!['.'] + ext;
    let path = dir + stem + seq!['.'] + ext;
    assert(path =~= dir + name);
    assert(path.last() == name.last());
    assert(name.contains(name.last()));
}


/// A tilde at the start of a root stands for the home directory; any other root
/// stays as it is.
pub proof fn tildes_stand_for_the_home_directory(
    home: Seq<char>,
    rest: Seq<char>,
    other: Seq<char>,
)
    requires
        home.len() > 0,
        home.last() != '/',
        rest.len() > 0,
        rest[0] != '/',
        other.len() == 0 || other[0] != '~',
    ensures
        expanded(seq!['~'], home) == home,
        expanded(seq!['~', '/'] + rest, home) == home + seq!['/'] + rest,
        expanded(other, home) == other,
{
    reveal_strlit("~");
    reveal_strlit("~/");
    assert("~"@ =~= seq!['~']);
    assert("~/"@ =~= seq!['~', '/']);
    let s = seq!['~', '/'] + rest;
    assert("~/"@.is_prefix_of(s));
    assert(s.len() > 1);
    assert(s.skip(2) =~= rest);
    if "~/"@.is_prefix_of(other) {
        assert(other.subrange(0, 2)[0] == other[0]);
    }
}

/// Where a name is given keys twice, the last ones count.
pub proof fn later_keys_replace_earlier_ones(entries: Seq<(String, KeySpec)>, i: int, n: int)
    requires
        0 <= i < n <= entries.len(),
        forall|k: int| i < k < n ==> (#[trigger] entries[k]).0@ != entries[i].0@,
    ensures
        given_keys(entries, n, entries[i].0@) == Some(spec_texts(entries[i].1)),
    decreases n,
{
    if i < n - 1 {
        later_keys_replace_earlier_ones(entries, i, n - 1);
    }
}

} // verus!
