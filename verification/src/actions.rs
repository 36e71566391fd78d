//! What can be done with a result: the commands to run, and transfers.

use crate::fusion::text_option;
use crate::paths::{join_path, joined_path, parent, parent_of};
use crate::text::{
    chars_of, contains_text, decimal_string, digits_of, has_text, joined, lemma_texts_push,
    matches_at, occurs_at, string_of_range, texts,
};
use vstd::prelude::*;
use vstd::string::*;

verus! {

#[derive(Debug, Clone, Copy, PartialEq, Eq, Structural)]
pub enum Platform {
    MacOs,
    Other,
}

/// A program and its arguments.
pub type CommandLine = (&'static str, Vec<String>);

pub open spec fn is_command(c: CommandLine, program: Seq<char>, args: Seq<Seq<char>>) -> bool {
    c.0@ == program && texts(c.1@) == args
}

fn one_arg(a: &str) -> (r: Vec<String>)
    ensures
        texts(r@) == seq![a@],
{
    let r: Vec<String> = vec![a.to_owned()];
    assert(texts(r@) =~= seq![a@]);
    r
}

fn two_args(a: &str, b: &str) -> (r: Vec<String>)
    ensures
        texts(r@) == seq![a@, b@],
{
    let r: Vec<String> = vec![a.to_owned(), b.to_owned()];
    assert(texts(r@) =~= seq![a@, b@]);
    r
}

pub fn open_args(platform: Platform, path: &str) -> (r: CommandLine)
    ensures
        platform == Platform::MacOs ==> is_command(r, "open"@, seq![path@]),
        platform == Platform::Other ==> is_command(r, "xdg-open"@, seq![path@]),
{
    match platform {
        Platform::MacOs => ("open", one_arg(path)),
        Platform::Other => ("xdg-open", one_arg(path)),
    }
}

/// Elsewhere there is no standard "reveal in file manager"; the parent
/// directory is opened.
pub fn reveal_args(platform: Platform, path: &str) -> (r: CommandLine)
    ensures
        platform == Platform::MacOs ==> is_command(r, "open"@, seq!["-R"@, path@]),
        platform == Platform::Other ==> is_command(
            r,
            "xdg-open"@,
            seq![
                match parent(path@) {
                    Some(p) => p,
                    None => path@,
                },
            ],
        ),
{
    match platform {
        Platform::MacOs => ("open", two_args("-R", path)),
        Platform::Other => match parent_of(path) {
            Some(p) => ("xdg-open", one_arg(&p)),
            None => ("xdg-open", one_arg(path)),
        },
    }
}

/// Elsewhere there is no Quick Look; opening is the closest equivalent.
pub fn quick_look_args(platform: Platform, path: &str) -> (r: CommandLine)
    ensures
        platform == Platform::MacOs ==> is_command(r, "qlmanage"@, seq!["-p"@, path@]),
        platform == Platform::Other ==> is_command(r, "xdg-open"@, seq![path@]),
{
    match platform {
        Platform::MacOs => ("qlmanage", two_args("-p", path)),
        Platform::Other => open_args(platform, path),
    }
}

/// Backslashes and quotes get a backslash before them.
pub open spec fn escaped(s: Seq<char>) -> Seq<char>
    decreases s.len(),
{
    if s.len() == 0 {
        Seq::empty()
    } else {
        let c = s.last();
        let before = escaped(s.drop_last());
        if c == '\\' || c == '"' {
            before.push('\\').push(c)
        } else {
            before.push(c)
        }
    }
}

fn escape(s: &str) -> (r: String)
    ensures
        r@ == escaped(s@),
{
    let v = chars_of(s);
    let mut out = "".to_owned();
    proof {
        reveal_strlit("");
        assert(v@.take(0) =~= Seq::empty());
        assert(out@ =~= escaped(v@.take(0)));
    }
    let mut i: usize = 0;
    while i < v.len()
        invariant
            i <= v@.len(),
            out@ == escaped(v@.take(i as int)),
        decreases v@.len() - i,
    {
        assert(v@.take(i + 1).drop_last() =~= v@.take(i as int));
        if v[i] == '\\' || v[i] == '"' {
            out.push('\\');
        }
        out.push(v[i]);
        i += 1;
    }
    assert(v@.take(i as int) =~= v@);
    out
}

/// The system trash, where files can be recovered from.
pub fn trash_args(platform: Platform, path: &str) -> (r: CommandLine)
    ensures
        platform == Platform::MacOs ==> is_command(
            r,
            "osascript"@,
            seq![
                "-e"@,
                "tell application \"Finder\" to delete POSIX file \""@ + escaped(path@) + "\""@,
            ],
        ),
        platform == Platform::Other ==> is_command(r, "gio"@, seq!["trash"@, path@]),
{
    match platform {
        Platform::MacOs => {
            let mut script = joined(
                "tell application \"Finder\" to delete POSIX file \"",
                &escape(path),
            );
            script.append("\"");
            ("osascript", two_args("-e", &script))
        },
        Platform::Other => ("gio", two_args("trash", path)),
    }
}

/// The tools that put text on the clipboard, in the order they are tried.
pub open spec fn clipboard_tools(platform: Platform) -> Seq<(Seq<char>, Seq<Seq<char>>)> {
    match platform {
        Platform::MacOs => seq![("pbcopy"@, Seq::empty())],
        Platform::Other => seq![
            ("wl-copy"@, Seq::empty()),
            ("xclip"@, seq!["-selection"@, "clipboard"@]),
            ("xsel"@, seq!["--clipboard"@, "--input"@]),
        ],
    }
}

pub fn clipboard_commands(platform: Platform) -> (r: Vec<CommandLine>)
    ensures
        r@.len() == clipboard_tools(platform).len(),
        forall|i: int|
            0 <= i < r@.len() ==> is_command(
                #[trigger] r@[i],
                clipboard_tools(platform)[i].0,
                clipboard_tools(platform)[i].1,
            ),
{
    let none: Vec<String> = Vec::new();
    assert(texts(none@) =~= Seq::empty());
    match platform {
        Platform::MacOs => vec![("pbcopy", none)],
        Platform::Other => vec![
            ("wl-copy", none),
            ("xclip", two_args("-selection", "clipboard")),
            ("xsel", two_args("--clipboard", "--input")),
        ],
    }
}

// -------------------------------------------------------------- placeholders

/// A result path as an absolute path, without requiring it to exist.
pub open spec fn absolute(path: Seq<char>, cwd: Option<Seq<char>>) -> Seq<char> {
    if path.len() > 0 && path[0] == '/' {
        path
    } else {
        match cwd {
            Some(dir) => join_path(dir, path),
            None => path,
        }
    }
}

pub open spec fn str_option(s: Option<&str>) -> Option<Seq<char>> {
    match s {
        Some(t) => Some(t@),
        None => None,
    }
}

/// Turns a result path into an absolute path without requiring it to exist.
pub fn absolute_path(path: &str, cwd: Option<&str>) -> (r: String)
    ensures
        r@ == absolute(path@, str_option(cwd)),
{
    let s = chars_of(path);
    if s.len() > 0 && s[0] == '/' {
        path.to_owned()
    } else {
        match cwd {
            Some(dir) => joined_path(dir, path),
            None => path.to_owned(),
        }
    }
}

/// What the placeholders of a template stand for: the selected path, one path
/// of the batch, the selected path's directory and the line.
pub struct Filling {
    pub path: Seq<char>,
    pub batch: Seq<char>,
    pub dir: Seq<char>,
    pub line: Seq<char>,
}

/// The placeholder that starts at `i`, by its length and what it stands for.
pub open spec fn placeholder_at(t: Seq<char>, i: int, f: Filling) -> Option<(int, Seq<char>)> {
    if occurs_at(t, "{paths}"@, i) {
        Some((7, f.batch))
    } else if occurs_at(t, "{path}"@, i) {
        Some((6, f.path))
    } else if occurs_at(t, "{dir}"@, i) {
        Some((5, f.dir))
    } else if occurs_at(t, "{line}"@, i) {
        Some((6, f.line))
    } else {
        None
    }
}

/// A template from `i` on with its placeholders filled. Only the template is
/// scanned: what is filled in stays as it is.
pub open spec fn filled(t: Seq<char>, i: int, f: Filling) -> Seq<char>
    decreases t.len() - i,
{
    if i < 0 || i >= t.len() {
        Seq::empty()
    } else {
        match placeholder_at(t, i, f) {
            Some((n, value)) => if i + n > t.len() {
                Seq::empty()
            } else {
                value + filled(t, i + n, f)
            },
            None => seq![t[i]] + filled(t, i + 1, f),
        }
    }
}

fn fill(template: &str, path: &str, batch: &str, dir: &str, line: &str) -> (r: String)
    ensures
        r@ == filled(template@, 0, Filling { path: path@, batch: batch@, dir: dir@, line: line@ }),
{
    let t = chars_of(template);
    let ghost f = Filling { path: path@, batch: batch@, dir: dir@, line: line@ };
    let all = chars_of("{paths}");
    let one = chars_of("{path}");
    let directory = chars_of("{dir}");
    let number = chars_of("{line}");
    proof {
        reveal_strlit("{paths}");
        reveal_strlit("{path}");
        reveal_strlit("{dir}");
        reveal_strlit("{line}");
        reveal_strlit("");
    }
    let mut out = "".to_owned();
    let mut i: usize = 0;
    assert(out@ + filled(t@, 0, f) =~= filled(t@, 0, f));
    while i < t.len()
        invariant
            i <= t@.len(),
            all@ == "{paths}"@,
            one@ == "{path}"@,
            directory@ == "{dir}"@,
            number@ == "{line}"@,
            all@.len() == 7,
            one@.len() == 6,
            directory@.len() == 5,
            number@.len() == 6,
            f == (Filling { path: path@, batch: batch@, dir: dir@, line: line@ }),
            out@ + filled(t@, i as int, f) == filled(t@, 0, f),
        decreases t@.len() - i,
    {
        let ghost before = out@;
        let ghost rest = filled(t@, i as int, f);
        if matches_at(&t, &all, i) {
            out.append(batch);
            i += 7;
        } else if matches_at(&t, &one, i) {
            out.append(path);
            i += 6;
        } else if matches_at(&t, &directory, i) {
            out.append(dir);
            i += 5;
        } else if matches_at(&t, &number, i) {
            out.append(line);
            i += 6;
        } else {
            out.push(t[i]);
            i += 1;
        }
        assert(out@ + filled(t@, i as int, f) =~= before + rest);
    }
    assert(out@ + filled(t@, i as int, f) =~= out@);
    out
}

/// The directory of a path, for a command line.
pub open spec fn dir_of(path: Seq<char>) -> Seq<char> {
    match parent(path) {
        Some(p) => p,
        None => "."@,
    }
}

/// The matched line, or the first.
pub open spec fn line_text(line: Option<u64>) -> Seq<char> {
    digits_of(
        match line {
            Some(n) => if n < 1 {
                1
            } else {
                n as nat
            },
            None => 1,
        },
    )
}

/// The arguments that one template makes: one, or one for each path.
pub open spec fn args_for(
    t: Seq<char>,
    path: Seq<char>,
    paths: Seq<Seq<char>>,
    line: Option<u64>,
) -> Seq<Seq<char>> {
    let dir = dir_of(path);
    if contains_text(t, "{paths}"@) {
        paths.map_values(
            |p: Seq<char>| filled(t, 0, Filling { path, batch: p, dir, line: line_text(line) }),
        )
    } else {
        seq![filled(t, 0, Filling { path, batch: path, dir, line: line_text(line) })]
    }
}

/// The arguments that the first `n` templates make.
pub open spec fn args_upto(
    cmd: Seq<Seq<char>>,
    n: int,
    path: Seq<char>,
    paths: Seq<Seq<char>>,
    line: Option<u64>,
) -> Seq<Seq<char>>
    decreases n,
{
    if n <= 0 {
        Seq::empty()
    } else {
        args_upto(cmd, n - 1, path, paths, line) + args_for(cmd[n - 1], path, paths, line)
    }
}

fn absolute_paths(paths: &Vec<String>, cwd: Option<&str>) -> (r: Vec<String>)
    ensures
        texts(r@) == texts(paths@).map_values(|p: Seq<char>| absolute(p, str_option(cwd))),
{
    let mut out: Vec<String> = Vec::new();
    let mut i: usize = 0;
    while i < paths.len()
        invariant
            i <= paths@.len(),
            out@.len() == i,
            forall|k: int|
                0 <= k < i ==> (#[trigger] out@[k])@ == absolute(paths@[k]@, str_option(cwd)),
        decreases paths@.len() - i,
    {
        out.push(absolute_path(&paths[i], cwd));
        i += 1;
    }
    assert(texts(out@) =~= texts(paths@).map_values(
        |p: Seq<char>| absolute(p, str_option(cwd)),
    ));
    out
}

/// Expands custom-action placeholders into argv without shell parsing, with an
/// optional matched line (`{line}` defaults to 1). `{paths}` is special: its
/// argv element is repeated once per path of the batch, and `{path}` stays the
/// selected one.
pub fn expand_args_with_line(
    cmd: &Vec<String>,
    path: &str,
    paths: &Vec<String>,
    line: Option<u64>,
    cwd: Option<&str>,
) -> (r: Vec<String>)
    ensures
        texts(r@) == args_upto(
            texts(cmd@),
            cmd@.len() as int,
            absolute(path@, str_option(cwd)),
            texts(paths@).map_values(|p: Seq<char>| absolute(p, str_option(cwd))),
            line,
        ),
{
    let path = absolute_path(path, cwd);
    let paths = absolute_paths(paths, cwd);
    let dir = match parent_of(&path) {
        Some(p) => p,
        None => ".".to_owned(),
    };
    let number: u64 = match line {
        Some(n) => if n < 1 {
            1
        } else {
            n
        },
        None => 1,
    };
    let shown = decimal_string(number);
    let ghost all = texts(cmd@);
    let ghost ps = texts(paths@);
    let mut args: Vec<String> = Vec::new();
    let mut i: usize = 0;
    assert(texts(args@) =~= Seq::empty());
    while i < cmd.len()
        invariant
            i <= cmd@.len(),
            all == texts(cmd@),
            ps == texts(paths@),
            dir@ == dir_of(path@),
            shown@ == line_text(line),
            texts(args@) == args_upto(all, i as int, path@, ps, line),
        decreases cmd@.len() - i,
    {
        assert(all[i as int] == cmd@[i as int]@);
        let template = cmd[i].as_str();
        let ghost before = texts(args@);
        let ghost more = args_for(all[i as int], path@, ps, line);
        if has_text(template, "{paths}") {
            let mut k: usize = 0;
            assert(before + more.take(0) =~= before);
            while k < paths.len()
                invariant
                    k <= paths@.len(),
                    ps == texts(paths@),
                    dir@ == dir_of(path@),
                    shown@ == line_text(line),
                    contains_text(template@, "{paths}"@),
                    more == args_for(template@, path@, ps, line),
                    texts(args@) == before + more.take(k as int),
                decreases paths@.len() - k,
            {
                assert(ps[k as int] == paths@[k as int]@);
                let arg = fill(template, &path, &paths[k], &dir, &shown);
                proof {
                    lemma_texts_push(args@, arg);
                    assert(more[k as int] == arg@);
                }
                args.push(arg);
                k += 1;
                assert(texts(args@) =~= before + more.take(k as int));
            }
            assert(more.take(k as int) =~= more);
        } else {
            let arg = fill(template, &path, &path, &dir, &shown);
            proof {
                lemma_texts_push(args@, arg);
            }
            args.push(arg);
            assert(texts(args@) =~= before + more);
        }
        i += 1;
    }
    args
}

/// Expands custom-action placeholders into argv without shell parsing.
pub fn expand_args(cmd: &Vec<String>, path: &str, paths: &Vec<String>, cwd: Option<&str>) -> (r: Vec<
    String,
>)
    ensures
        texts(r@) == args_upto(
            texts(cmd@),
            cmd@.len() as int,
            absolute(path@, str_option(cwd)),
            texts(paths@).map_values(|p: Seq<char>| absolute(p, str_option(cwd))),
            None,
        ),
{
    expand_args_with_line(cmd, path, paths, None, cwd)
}

/// Whether one of the first `n` templates stands for the batch.
pub open spec fn takes_batch(cmd: Seq<Seq<char>>, n: int) -> bool {
    exists|i: int| 0 <= i < n && contains_text(#[trigger] cmd[i], "{paths}"@)
}

/// Whether an action takes all marked files at once.
pub fn has_paths_placeholder(cmd: &Vec<String>) -> (r: bool)
    ensures
        r == takes_batch(texts(cmd@), cmd@.len() as int),
{
    let mut i: usize = 0;
    while i < cmd.len()
        invariant
            i <= cmd@.len(),
            forall|k: int| 0 <= k < i ==> !contains_text(#[trigger] texts(cmd@)[k], "{paths}"@),
        decreases cmd@.len() - i,
    {
        assert(texts(cmd@)[i as int] == cmd@[i as int]@);
        if has_text(&cmd[i], "{paths}") {
            return true;
        }
        i += 1;
    }
    false
}

/// An action takes all marked files at once exactly when an empty batch leaves it
/// with fewer arguments than templates. Any other action makes one argument of
/// each template, whatever the batch.
pub proof fn only_batches_change_the_number_of_arguments(
    cmd: Seq<Seq<char>>,
    path: Seq<char>,
    paths: Seq<Seq<char>>,
    line: Option<u64>,
)
    ensures
        takes_batch(cmd, cmd.len() as int) == (args_upto(
            cmd,
            cmd.len() as int,
            path,
            Seq::empty(),
            line,
        ).len() < cmd.len()),
        !takes_batch(cmd, cmd.len() as int) ==> args_upto(
            cmd,
            cmd.len() as int,
            path,
            paths,
            line,
        ).len() == cmd.len(),
{
    lemma_argument_count(cmd, cmd.len() as int, path, Seq::empty(), line);
    lemma_argument_count(cmd, cmd.len() as int, path, paths, line);
}

proof fn lemma_argument_count(
    cmd: Seq<Seq<char>>,
    n: int,
    path: Seq<char>,
    paths: Seq<Seq<char>>,
    line: Option<u64>,
)
    requires
        0 <= n <= cmd.len(),
    ensures
        !takes_batch(cmd, n) ==> args_upto(cmd, n, path, paths, line).len() == n,
        paths.len() == 0 ==> args_upto(cmd, n, path, paths, line).len() <= n,
        paths.len() == 0 && takes_batch(cmd, n) ==> args_upto(cmd, n, path, paths, line).len() < n,
    decreases n,
{
    if n > 0 {
        lemma_argument_count(cmd, n - 1, path, paths, line);
        let last = contains_text(cmd[n - 1], "{paths}"@);
        assert(takes_batch(cmd, n) == (takes_batch(cmd, n - 1) || last)) by {
            if takes_batch(cmd, n - 1) {
                let i = choose|i: int|
                    0 <= i < n - 1 && contains_text(#[trigger] cmd[i], "{paths}"@);
                assert(0 <= i < n && contains_text(cmd[i], "{paths}"@));
            }
            if last {
                assert(0 <= n - 1 < n);
            }
        }
    }
}

/// A path is handed on as it is, even if it looks like a placeholder itself.
pub proof fn paths_are_handed_on_unchanged(f: Filling)
    ensures
        filled("{path}"@, 0, f) == f.path,
        filled("{paths}"@, 0, f) == f.batch,
{
    reveal_strlit("{path}");
    reveal_strlit("{paths}");
    reveal_strlit("{dir}");
    reveal_strlit("{line}");
    let one = "{path}"@;
    let all = "{paths}"@;
    assert(one.subrange(0, 6) =~= one);
    assert(all.subrange(0, 7) =~= all);
    assert(!occurs_at(one, all, 0));
    assert(placeholder_at(one, 0, f) == Some((6int, f.path)));
    assert(placeholder_at(all, 0, f) == Some((7int, f.batch)));
    assert(filled(one, 6, f) =~= Seq::empty());
    assert(filled(all, 7, f) =~= Seq::empty());
    assert(filled(one, 0, f) =~= f.path);
    assert(filled(all, 0, f) =~= f.batch);
}

// ----------------------------------------------------------------- transfers

#[derive(Debug, Clone, Copy, PartialEq, Eq, Structural)]
pub enum TransferKind {
    Move,
    Copy,
}

#[derive(Debug)]
pub struct TransferOutcome {
    pub succeeded: usize,
    pub skipped: usize,
    pub failed: usize,
    /// Files not started because cancellation was requested between files.
    pub cancelled: usize,
    pub skipped_exists: usize,
    pub skipped_directories: usize,
    pub succeeded_paths: Vec<String>,
    pub first_error: Option<(String, String)>,
}

#[verifier::ext_equal]
pub struct OutcomeView {
    pub succeeded: nat,
    pub skipped: nat,
    pub failed: nat,
    pub cancelled: nat,
    pub skipped_exists: nat,
    pub skipped_directories: nat,
    pub succeeded_paths: Seq<Seq<char>>,
    pub first_error: Option<(Seq<char>, Seq<char>)>,
}

impl View for TransferOutcome {
    type V = OutcomeView;

    open spec fn view(&self) -> OutcomeView {
        OutcomeView {
            succeeded: self.succeeded as nat,
            skipped: self.skipped as nat,
            failed: self.failed as nat,
            cancelled: self.cancelled as nat,
            skipped_exists: self.skipped_exists as nat,
            skipped_directories: self.skipped_directories as nat,
            succeeded_paths: texts(self.succeeded_paths@),
            first_error: match self.first_error {
                Some((p, e)) => Some((p@, e@)),
                None => None,
            },
        }
    }
}

/// How many files the outcome speaks of.
pub open spec fn files_counted(o: OutcomeView) -> nat {
    o.succeeded + o.skipped + o.failed + o.cancelled
}

/// The counts agree: every skipped file has a reason, every transferred one is
/// listed, and there is an error if and only if a file failed.
pub open spec fn counts_agree(o: OutcomeView) -> bool {
    &&& o.skipped == o.skipped_exists + o.skipped_directories
    &&& o.succeeded == o.succeeded_paths.len()
    &&& o.first_error is Some == (o.failed > 0)
}

pub open spec fn no_transfers() -> OutcomeView {
    OutcomeView {
        succeeded: 0,
        skipped: 0,
        failed: 0,
        cancelled: 0,
        skipped_exists: 0,
        skipped_directories: 0,
        succeeded_paths: Seq::empty(),
        first_error: None,
    }
}

/// One more file failed; the first error is kept.
pub open spec fn with_error(o: OutcomeView, path: Seq<char>, error: Seq<char>) -> OutcomeView {
    OutcomeView {
        failed: o.failed + 1,
        first_error: if o.first_error is Some {
            o.first_error
        } else {
            Some((path, error))
        },
        ..o
    }
}

pub open spec fn with_directory(o: OutcomeView) -> OutcomeView {
    OutcomeView { skipped: o.skipped + 1, skipped_directories: o.skipped_directories + 1, ..o }
}

pub open spec fn with_existing(o: OutcomeView) -> OutcomeView {
    OutcomeView { skipped: o.skipped + 1, skipped_exists: o.skipped_exists + 1, ..o }
}

pub open spec fn with_success(o: OutcomeView, path: Seq<char>) -> OutcomeView {
    OutcomeView {
        succeeded: o.succeeded + 1,
        succeeded_paths: o.succeeded_paths.push(path),
        ..o
    }
}

/// What is found at a source path.
#[derive(Debug)]
pub enum SourceKind {
    Directory,
    Regular,
    /// A symlink or a special file.
    Special,
    Unreadable(String),
}

/// What a transfer came to.
#[derive(Debug)]
pub enum TransferResult {
    Done,
    /// The destination is taken; nothing was overwritten.
    Exists,
    Failed(String),
}

/// The end of a path without its trailing slashes.
pub open spec fn slashless(s: Seq<char>, n: int) -> int
    decreases n,
{
    if n > 0 && s[n - 1] == '/' {
        slashless(s, n - 1)
    } else {
        n
    }
}

/// The last segment of a path; trailing slashes do not count.
pub open spec fn last_segment(s: Seq<char>) -> Option<Seq<char>> {
    let n = slashless(s, s.len() as int);
    let a = crate::paths::component_start(s, n);
    if a < n {
        Some(s.subrange(a, n))
    } else {
        None
    }
}

/// The name under which a file is transferred.
pub fn source_name(path: &str) -> (r: Option<String>)
    ensures
        text_option(r) == last_segment(path@),
{
    let s = chars_of(path);
    let mut n: usize = s.len();
    while n > 0 && s[n - 1] == '/'
        invariant
            n <= s@.len(),
            slashless(s@, s@.len() as int) == slashless(s@, n as int),
        decreases n,
    {
        n -= 1;
    }
    let mut a: usize = n;
    while a > 0 && s[a - 1] != '/'
        invariant
            a <= n <= s@.len(),
            crate::paths::component_start(s@, n as int) == crate::paths::component_start(
                s@,
                a as int,
            ),
        decreases a,
    {
        a -= 1;
    }
    if a < n {
        Some(string_of_range(&s, a, n))
    } else {
        None
    }
}

impl Default for TransferOutcome {
    fn default() -> (r: TransferOutcome)
        ensures
            r@ == no_transfers(),
    {
        let r = TransferOutcome {
            succeeded: 0,
            skipped: 0,
            failed: 0,
            cancelled: 0,
            skipped_exists: 0,
            skipped_directories: 0,
            succeeded_paths: Vec::new(),
            first_error: None,
        };
        assert(texts(r.succeeded_paths@) =~= Seq::empty());
        r
    }
}

impl TransferOutcome {
    /// Takes note of a failure; the first is kept to be shown.
    pub fn record_error(&mut self, path: &str, error: String)
        requires
            old(self)@.failed < usize::MAX,
        ensures
            final(self)@ == with_error(old(self)@, path@, error@),
            files_counted(final(self)@) == files_counted(old(self)@) + 1,
            counts_agree(old(self)@) ==> counts_agree(final(self)@),
    {
        self.failed += 1;
        if self.first_error.is_none() {
            self.first_error = Some((path.to_owned(), error));
        }
    }

    /// Starts on a file: the name it will have, unless it cannot be
    /// transferred.
    pub fn begin(&mut self, source: &str, found: SourceKind) -> (r: Option<String>)
        requires
            old(self)@.failed < usize::MAX,
            old(self)@.skipped < usize::MAX,
            old(self)@.skipped_directories < usize::MAX,
        ensures
            ({
                let o = old(self)@;
                match (last_segment(source@), found) {
                    (None, _) => r is None && final(self)@ == with_error(
                        o,
                        source@,
                        "path has no file name"@,
                    ),
                    (Some(_), SourceKind::Unreadable(e)) => r is None && final(self)@
                        == with_error(o, source@, e@),
                    (Some(_), SourceKind::Directory) => r is None && final(self)@
                        == with_directory(o),
                    (Some(_), SourceKind::Special) => r is None && final(self)@ == with_error(
                        o,
                        source@,
                        "symlinks and special files are not supported"@,
                    ),
                    (Some(name), SourceKind::Regular) => text_option(r) == Some(name)
                        && final(self)@ == o,
                }
            }),
            files_counted(final(self)@) == files_counted(old(self)@) + (if r is None {
                1nat
            } else {
                0
            }),
            counts_agree(old(self)@) ==> counts_agree(final(self)@),
    {
        match source_name(source) {
            None => {
                self.record_error(source, "path has no file name".to_owned());
                None
            },
            Some(name) => match found {
                SourceKind::Unreadable(e) => {
                    self.record_error(source, e);
                    None
                },
                SourceKind::Directory => {
                    self.skipped += 1;
                    self.skipped_directories += 1;
                    None
                },
                SourceKind::Special => {
                    self.record_error(
                        source,
                        "symlinks and special files are not supported".to_owned(),
                    );
                    None
                },
                SourceKind::Regular => Some(name),
            },
        }
    }

    /// Takes note of what the transfer of a file came to.
    pub fn settle(&mut self, source: &str, result: TransferResult)
        requires
            old(self)@.failed < usize::MAX,
            old(self)@.skipped < usize::MAX,
            old(self)@.skipped_exists < usize::MAX,
            old(self)@.succeeded < usize::MAX,
        ensures
            final(self)@ == (match result {
                TransferResult::Done => with_success(old(self)@, source@),
                TransferResult::Exists => with_existing(old(self)@),
                TransferResult::Failed(e) => with_error(old(self)@, source@, e@),
            }),
            files_counted(final(self)@) == files_counted(old(self)@) + 1,
            counts_agree(old(self)@) ==> counts_agree(final(self)@),
    {
        match result {
            TransferResult::Done => {
                self.succeeded += 1;
                let path = source.to_owned();
                proof {
                    lemma_texts_push(self.succeeded_paths@, path);
                }
                self.succeeded_paths.push(path);
            },
            TransferResult::Exists => {
                self.skipped += 1;
                self.skipped_exists += 1;
            },
            TransferResult::Failed(e) => {
                self.record_error(source, e);
            },
        }
    }

    /// Takes note of the files that were not started.
    pub fn cancel(&mut self, left: usize)
        ensures
            final(self)@ == (OutcomeView { cancelled: left as nat, ..old(self)@ }),
            counts_agree(old(self)@) ==> counts_agree(final(self)@),
    {
        self.cancelled = left;
    }
}

/// How a file gets to its destination: what was tried last, and what it came to.
#[derive(Debug, Clone, Copy, PartialEq, Eq, Structural)]
pub enum TransferStep {
    Rename,
    CopyThenRemove,
    Copy,
}

/// The first attempt: a move is a rename that never replaces anything.
pub fn first_step(kind: TransferKind) -> (r: TransferStep)
    ensures
        r == (match kind {
            TransferKind::Move => TransferStep::Rename,
            TransferKind::Copy => TransferStep::Copy,
        }),
{
    match kind {
        TransferKind::Move => TransferStep::Rename,
        TransferKind::Copy => TransferStep::Copy,
    }
}

/// The attempt after a failed one: only a rename across devices falls back to
/// copying, and then the source goes last.
pub fn next_step(step: TransferStep, crosses_devices: bool) -> (r: Option<TransferStep>)
    ensures
        r == (if step == TransferStep::Rename && crosses_devices {
            Some(TransferStep::CopyThenRemove)
        } else {
            None
        }),
{
    match step {
        TransferStep::Rename => {
            if crosses_devices {
                Some(TransferStep::CopyThenRemove)
            } else {
                None
            }
        },
        _ => None,
    }
}


// ---------------------------------------------------------------------- laws

/// What a quoted text stands for: a backslash stands for the character after
/// it, and a bare quote would end the text.
pub open spec fn unescaped(t: Seq<char>) -> Option<Seq<char>>
    decreases t.len(),
{
    if t.len() == 0 {
        Some(Seq::empty())
    } else if t[0] == '"' {
        None
    } else if t[0] == '\\' {
        if t.len() < 2 {
            None
        } else {
            match unescaped(t.skip(2)) {
                Some(rest) => Some(seq![t[1]] + rest),
                None => None,
            }
        }
    } else {
        match unescaped(t.skip(1)) {
            Some(rest) => Some(seq![t[0]] + rest),
            None => None,
        }
    }
}

proof fn lemma_unescaped(s: Seq<char>, t: Seq<char>, rest: Seq<char>)
    requires
        unescaped(t) == Some(rest),
    ensures
        unescaped(escaped(s) + t) == Some(s + rest),
    decreases s.len(),
{
    if s.len() == 0 {
        assert(escaped(s) + t =~= t);
        assert(s + rest =~= rest);
    } else {
        let c = s.last();
        let before = s.drop_last();
        let piece = if c == '\\' || c == '"' {
            seq!['\\', c]
        } else {
            seq![c]
        };
        let u = piece + t;
        assert(u.skip(piece.len() as int) =~= t);
        assert(unescaped(u) == Some(seq![c] + rest));
        lemma_unescaped(before, u, seq![c] + rest);
        assert(escaped(s) + t =~= escaped(before) + u);
        assert(before + (seq![c] + rest) =~= s + rest);
    }
}

/// A text that was escaped is read back from between quotes, whatever it holds.
pub proof fn escapes_are_read_back(s: Seq<char>)
    ensures
        unescaped(escaped(s)) == Some(s),
{
    lemma_unescaped(s, Seq::empty(), Seq::empty());
    assert(escaped(s) + Seq::<char>::empty() =~= escaped(s));
    assert(s + Seq::<char>::empty() =~= s);
}

proof fn lemma_filled_from(t: Seq<char>, i: int, f: Filling)
    requires
        0 <= i <= t.len(),
    ensures
        filled(t, i, f) == filled(t.skip(i), 0, f),
{
    assert(t.skip(i).skip(0) =~= t.skip(i));
    lemma_filled_shifted(t, t.skip(i), i, 0, f);
}

proof fn lemma_filled_shifted(t: Seq<char>, u: Seq<char>, i: int, j: int, f: Filling)
    requires
        0 <= j <= u.len(),
        0 <= i <= t.len(),
        t.skip(i) == u.skip(j),
    ensures
        filled(t, i, f) == filled(u, j, f),
    decreases t.len() - i,
{
    assert(t.skip(i).len() == t.len() - i && u.skip(j).len() == u.len() - j);
    if i < t.len() {
        lemma_occurs_shifted(t, u, i, j, "{paths}"@);
        lemma_occurs_shifted(t, u, i, j, "{path}"@);
        lemma_occurs_shifted(t, u, i, j, "{dir}"@);
        lemma_occurs_shifted(t, u, i, j, "{line}"@);
        assert(placeholder_at(t, i, f) == placeholder_at(u, j, f));
        let n = match placeholder_at(t, i, f) {
            Some((n, value)) => n,
            None => 1,
        };
        assert(n > 0);
        assert(t.skip(i)[0] == t[i] && u.skip(j)[0] == u[j]);
        if i + n <= t.len() {
            assert(t.skip(i + n) =~= t.skip(i).skip(n));
            assert(u.skip(j + n) =~= u.skip(j).skip(n));
            lemma_filled_shifted(t, u, i + n, j + n, f);
        }
    } else {
        assert(filled(t, i, f) =~= filled(u, j, f));
    }
}

proof fn lemma_occurs_shifted(t: Seq<char>, u: Seq<char>, i: int, j: int, w: Seq<char>)
    requires
        0 <= j <= u.len(),
        0 <= i <= t.len(),
        t.skip(i) == u.skip(j),
    ensures
        occurs_at(t, w, i) == occurs_at(u, w, j),
{
    assert(t.skip(i).len() == t.len() - i && u.skip(j).len() == u.len() - j);
    if i + w.len() <= t.len() {
        assert(t.subrange(i, i + w.len()) =~= t.skip(i).take(w.len() as int));
        assert(u.subrange(j, j + w.len()) =~= u.skip(j).take(w.len() as int));
    }
}

proof fn lemma_begins(w: Seq<char>, rest: Seq<char>)
    ensures
        occurs_at(w + rest, w, 0),
        (w + rest).skip(w.len() as int) == rest,
{
    assert((w + rest).subrange(0, w.len() as int) =~= w);
    assert((w + rest).skip(w.len() as int) =~= rest);
}

proof fn lemma_other_start(w: Seq<char>, rest: Seq<char>, other: Seq<char>, k: int)
    requires
        0 <= k < w.len(),
        k < other.len(),
        w[k] != other[k],
    ensures
        !occurs_at(w + rest, other, 0),
{
    let t = w + rest;
    if occurs_at(t, other, 0) {
        assert(t.subrange(0, other.len() as int)[k] == t[k]);
    }
}

/// A template is filled from left to right: each placeholder gives way to what
/// it stands for, and any other character stays.
pub proof fn templates_are_filled_piece_by_piece(c: char, rest: Seq<char>, f: Filling)
    ensures
        filled("{path}"@ + rest, 0, f) == f.path + filled(rest, 0, f),
        filled("{paths}"@ + rest, 0, f) == f.batch + filled(rest, 0, f),
        filled("{dir}"@ + rest, 0, f) == f.dir + filled(rest, 0, f),
        filled("{line}"@ + rest, 0, f) == f.line + filled(rest, 0, f),
        c != '{' ==> filled(seq![c] + rest, 0, f) == seq![c] + filled(rest, 0, f),
        filled(Seq::empty(), 0, f) == Seq::<char>::empty(),
        ({
            let t = seq!['{'] + rest;
            &&& !"{path}"@.is_prefix_of(t)
            &&& !"{paths}"@.is_prefix_of(t)
            &&& !"{dir}"@.is_prefix_of(t)
            &&& !"{line}"@.is_prefix_of(t)
        }) ==> filled(seq!['{'] + rest, 0, f) == seq!['{'] + filled(rest, 0, f),
{
    reveal_strlit("{path}");
    reveal_strlit("{paths}");
    reveal_strlit("{dir}");
    reveal_strlit("{line}");
    let (path, paths, dir, line) = ("{path}"@, "{paths}"@, "{dir}"@, "{line}"@);
    lemma_begins(path, rest);
    lemma_other_start(path, rest, paths, 5);
    lemma_filled_from(path + rest, 6, f);
    lemma_begins(paths, rest);
    lemma_filled_from(paths + rest, 7, f);
    lemma_begins(dir, rest);
    lemma_other_start(dir, rest, paths, 1);
    lemma_other_start(dir, rest, path, 1);
    lemma_filled_from(dir + rest, 5, f);
    lemma_begins(line, rest);
    lemma_other_start(line, rest, paths, 1);
    lemma_other_start(line, rest, path, 1);
    lemma_other_start(line, rest, dir, 1);
    lemma_filled_from(line + rest, 6, f);
    let one = seq![c];
    lemma_begins(one, rest);
    if c != '{' {
        lemma_other_start(one, rest, paths, 0);
        lemma_other_start(one, rest, path, 0);
        lemma_other_start(one, rest, dir, 0);
        lemma_other_start(one, rest, line, 0);
        lemma_filled_from(one + rest, 1, f);
    }
    let t = seq!['{'] + rest;
    lemma_begins(seq!['{'], rest);
    if !path.is_prefix_of(t) && !paths.is_prefix_of(t) && !dir.is_prefix_of(t)
        && !line.is_prefix_of(t) {
        lemma_no_start(t, path);
        lemma_no_start(t, paths);
        lemma_no_start(t, dir);
        lemma_no_start(t, line);
        lemma_filled_from(t, 1, f);
    }
}

proof fn lemma_no_start(t: Seq<char>, w: Seq<char>)
    requires
        !w.is_prefix_of(t),
    ensures
        !occurs_at(t, w, 0),
{
}

/// A relative path is found below the working directory; an absolute one stays.
pub proof fn relative_paths_are_below_the_working_directory(
    dir: Seq<char>,
    rest: Seq<char>,
    path: Seq<char>,
)
    requires
        rest.len() == 0 || rest[0] != '/',
        dir.len() > 0,
        dir.last() != '/',
    ensures
        absolute(rest, Some(dir)) == dir + seq!['/'] + rest,
        absolute(rest, Some(dir + seq!['/'])) == dir + seq!['/'] + rest,
        absolute(rest, None) == rest,
        absolute(seq!['/'] + path, Some(dir)) == seq!['/'] + path,
        absolute(seq!['/'] + path, None) == seq!['/'] + path,
{
}

/// A command is its templates with the placeholders filled, in their order. A
/// template with `{paths}` makes one argument for each path of the batch, in the
/// order of the batch.
pub proof fn commands_follow_their_templates(
    cmd: Seq<Seq<char>>,
    t: Seq<char>,
    path: Seq<char>,
    paths: Seq<Seq<char>>,
    last: Seq<char>,
    line: Option<u64>,
)
    ensures
        ({
            let n = cmd.len() as int;
            let before = args_upto(cmd, n, path, paths, line);
            let dir = dir_of(path);
            let number = line_text(line);
            let one = Filling { path, batch: path, dir, line: number };
            &&& !contains_text(t, "{paths}"@) ==> args_upto(
                cmd.push(t),
                n + 1,
                path,
                paths,
                line,
            ) == before.push(filled(t, 0, one))
            &&& contains_text(t, "{paths}"@) ==> {
                &&& args_upto(seq![t], 1, path, Seq::empty(), line).len() == 0
                &&& args_upto(seq![t], 1, path, paths.push(last), line) == args_upto(
                    seq![t],
                    1,
                    path,
                    paths,
                    line,
                ).push(filled(t, 0, Filling { path, batch: last, dir, line: number }))
            }
        }),
{
    let n = cmd.len() as int;
    lemma_args_of_prefix(cmd.push(t), cmd, n, path, paths, line);
    let dir = dir_of(path);
    let one = Filling { path, batch: path, dir, line: line_text(line) };
    assert(cmd.push(t)[n] == t);
    if !contains_text(t, "{paths}"@) {
        assert(args_upto(cmd.push(t), n + 1, path, paths, line) =~= args_upto(
            cmd,
            n,
            path,
            paths,
            line,
        ).push(filled(t, 0, one)));
    } else {
        let s = seq![t];
        assert(args_upto(s, 0, path, paths, line) =~= Seq::empty());
        assert(args_upto(s, 0, path, paths.push(last), line) =~= Seq::empty());
        assert(args_upto(s, 0, path, Seq::empty(), line) =~= Seq::empty());
        assert(args_upto(s, 1, path, paths.push(last), line) =~= args_upto(
            s,
            1,
            path,
            paths,
            line,
        ).push(filled(t, 0, Filling { path, batch: last, dir, line: line_text(line) })));
    }
}

proof fn lemma_args_of_prefix(
    a: Seq<Seq<char>>,
    b: Seq<Seq<char>>,
    n: int,
    path: Seq<char>,
    paths: Seq<Seq<char>>,
    line: Option<u64>,
)
    requires
        n <= a.len(),
        n <= b.len(),
        forall|i: int| 0 <= i < n ==> a[i] == b[i],
    ensures
        args_upto(a, n, path, paths, line) == args_upto(b, n, path, paths, line),
    decreases n,
{
    if n > 0 {
        lemma_args_of_prefix(a, b, n - 1, path, paths, line);
    }
}

/// The line that a command gets is that of the match, or else the first.
pub proof fn lines_count_from_one(n: u64)
    ensures
        n >= 1 ==> line_text(Some(n)) == digits_of(n as nat),
        line_text(Some(0)) == line_text(Some(1)),
        line_text(None) == line_text(Some(1)),
{
}

} // verus!
