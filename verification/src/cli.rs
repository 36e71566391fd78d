//! The command line.

use crate::fusion::text_option;
use crate::text::{all_digits, chars_of, decimal, parse_digits, same, sub_chars, texts};
use vstd::prelude::*;
use vstd::string::*;

verus! {

#[derive(Debug, Clone, PartialEq)]
pub enum Command {
    Run,
    Help,
    Version,
    Config,
    Reindex,
    IndexSemantic,
    Doctor,
    Status,
    ClearCache,
    ClearHistory,
    Searches,
    Print(String),
    Pick(String),
    Filter(String),
    Big(usize),
    Unknown(String),
}

/// How records are written for scripts.
#[derive(Debug, Clone, Copy, PartialEq, Eq, Structural)]
pub enum OutputFormat {
    Text,
    Json,
    Nul,
}

pub const HELP: &'static str = "fsearch — fast Alfred-style file search for the terminal

usage:
  fsearch              launch the interactive search ui
  fsearch --config     open the config file in $VISUAL/$EDITOR,
                       or reveal it in Finder when neither is set
  fsearch --reindex    rebuild the file index now
  fsearch --index-semantic
                       build/refresh the semantic index for ? queries
                       (notes, docs, pdfs; embeds changed files only)
  fsearch --big [N]    largest N files in the index (default 20)
  fsearch -p QUERY     print matches to stdout (no ui); \"> pattern\"
                       searches file contents
  fsearch --pick [Q]   interactive ui, but enter prints the selection to
                       stdout instead of opening it (for scripts/pipes)
  fsearch --doctor     print what the terminal probe detected
  fsearch --help       show this help
  fsearch --version    print the version

query syntax:
  plain text           fuzzy match on file names and paths
  ctrl-r               toggle regex match on the full path
  'word                exact substring (^word prefix, word$ suffix,
                       !word excludes)
  > pattern            regex search inside file contents
  ? words              search documents by meaning (semantic; run
                       fsearch --index-semantic first)
  ext:pdf path:term    narrow any search by extension or path
  kind:image           extension shorthands: image, video, audio,
                       doc, code, archive
  changed:7d           only files modified in the window (m/h/d/w)
  larger:100mb         size bounds (also smaller:)
  dir:                 search folders instead of files

keys:
  up/down, ctrl-k/j    move selection
  enter                open with default app
  ctrl-f               reveal in Finder
  ctrl-y               copy path to clipboard
  ctrl-u               clear query
  tab                  cycle preview: side, full-window, hidden
  esc, ctrl-c          quit

files:
  config               ~/.config/fsearch/config.toml
  index cache          ~/.cache/fsearch/index.bin
";

/// The model of a [`Command`].
pub enum CommandView {
    Run,
    Help,
    Version,
    Config,
    Reindex,
    IndexSemantic,
    Doctor,
    Status,
    ClearCache,
    ClearHistory,
    Searches,
    Print(Seq<char>),
    Pick(Seq<char>),
    Filter(Seq<char>),
    Big(usize),
    Unknown(Seq<char>),
}

impl View for Command {
    type V = CommandView;

    open spec fn view(&self) -> CommandView {
        match self {
            Command::Run => CommandView::Run,
            Command::Help => CommandView::Help,
            Command::Version => CommandView::Version,
            Command::Config => CommandView::Config,
            Command::Reindex => CommandView::Reindex,
            Command::IndexSemantic => CommandView::IndexSemantic,
            Command::Doctor => CommandView::Doctor,
            Command::Status => CommandView::Status,
            Command::ClearCache => CommandView::ClearCache,
            Command::ClearHistory => CommandView::ClearHistory,
            Command::Searches => CommandView::Searches,
            Command::Print(query) => CommandView::Print(query@),
            Command::Pick(query) => CommandView::Pick(query@),
            Command::Filter(query) => CommandView::Filter(query@),
            Command::Big(n) => CommandView::Big(*n),
            Command::Unknown(arg) => CommandView::Unknown(arg@),
        }
    }
}

#[derive(Debug, Clone, PartialEq)]
pub enum ConfigOpen {
    Editor(String),
    Reveal,
}

/// $VISUAL wins over $EDITOR; with neither set, reveal the file in Finder.
/// Empty counts as unset.
pub fn choose_config_open(visual: Option<&str>, editor: Option<&str>) -> (r: ConfigOpen)
    ensures
        r matches ConfigOpen::Editor(e) ==> e@ == (if is_set(visual) {
            visual->Some_0@
        } else {
            editor->Some_0@
        }),
        (r is Reveal) == (!is_set(visual) && !is_set(editor)),
{
    match visual {
        Some(e) => {
            if chars_of(e).len() > 0 {
                return ConfigOpen::Editor(e.to_owned());
            }
        },
        None => {},
    }
    match editor {
        Some(e) => {
            if chars_of(e).len() > 0 {
                return ConfigOpen::Editor(e.to_owned());
            }
        },
        None => {},
    }
    ConfigOpen::Reveal
}

/// A variable that is there and not empty.
pub open spec fn is_set(value: Option<&str>) -> bool {
    value matches Some(v) && v@.len() > 0
}

/// The words of a text by the rules of a shell; nothing where its quoting is
/// wrong.
pub uninterp spec fn shell_words(text: Seq<char>) -> Option<Seq<Seq<char>>>;

/// `shlex::split`: a function of the text.
#[verifier::external_body]
fn split_words(text: &str) -> (r: Option<Vec<String>>)
    ensures
        match r {
            Some(words) => shell_words(text@) == Some(texts(words@)),
            None => shell_words(text@) is None,
        },
{
    shlex::split(text)
}

pub const BAD_EDITOR: &'static str = "invalid quoting in $VISUAL/$EDITOR";

/// The words of a command; there has to be one.
pub fn command_words(words: Option<Vec<String>>) -> (r: Result<Vec<String>, &'static str>)
    ensures
        match r {
            Ok(argv) => words == Some(argv) && argv@.len() > 0,
            Err(e) => (words matches Some(w) ==> w@.len() == 0) && e@ == BAD_EDITOR@,
        },
{
    match words {
        Some(argv) => if argv.len() > 0 {
            Ok(argv)
        } else {
            Err(BAD_EDITOR)
        },
        None => Err(BAD_EDITOR),
    }
}

/// The command that runs an editor, which may come with arguments.
pub fn editor_command(editor: &str) -> (r: Result<Vec<String>, &'static str>)
    ensures
        match r {
            Ok(argv) => shell_words(editor@) == Some(texts(argv@)) && argv@.len() > 0,
            Err(e) => (shell_words(editor@) matches Some(w) ==> w.len() == 0) && e@ == BAD_EDITOR@,
        },
{
    command_words(split_words(editor))
}

// ----------------------------------------------------------------- arguments

/// Words with one space between them.
pub open spec fn join_words(words: Seq<Seq<char>>) -> Seq<char>
    decreases words.len(),
{
    if words.len() == 0 {
        Seq::empty()
    } else if words.len() == 1 {
        words[0]
    } else {
        join_words(words.drop_last()) + " "@ + words.last()
    }
}

/// The arguments from `from` on with one space between them.
fn joined_from(args: &[String], from: usize) -> (r: String)
    requires
        from <= args.len(),
    ensures
        r@ == join_words(texts(args@).skip(from as int)),
{
    let ghost words = texts(args@).skip(from as int);
    let mut out = String::new();
    let mut i: usize = from;
    proof {
        reveal_strlit("");
    }
    assert(words.take(0) =~= Seq::empty());
    while i < args.len()
        invariant
            from <= i <= args.len(),
            words == texts(args@).skip(from as int),
            out@ == join_words(words.take(i - from)),
        decreases args.len() - i,
    {
        let ghost now = words.take(i - from + 1);
        assert(now.drop_last() =~= words.take(i - from));
        assert(now.last() == args@[i as int]@);
        if i > from {
            out.append(" ");
        }
        out.append(args[i].as_str());
        assert(out@ =~= join_words(now));
        i += 1;
    }
    assert(words.take(i - from) =~= words);
    out
}

/// The number that an argument denotes: decimal digits, after a plus sign or
/// without one.
pub open spec fn count_of(arg: Seq<char>) -> Option<nat> {
    let digits = if arg.len() > 1 && arg[0] == '+' {
        arg.skip(1)
    } else {
        arg
    };
    if digits.len() > 0 && all_digits(digits) && decimal(digits) <= usize::MAX {
        Some(decimal(digits))
    } else {
        None
    }
}

fn parse_count(arg: &str) -> (r: Option<usize>)
    ensures
        match r {
            Some(n) => count_of(arg@) == Some(n as nat),
            None => count_of(arg@) is None,
        },
{
    let s = chars_of(arg);
    let from: usize = if s.len() > 1 && s[0] == '+' {
        1
    } else {
        0
    };
    let digits = sub_chars(&s, from, s.len());
    assert(digits@ =~= if from == 1 {
        arg@.skip(1)
    } else {
        arg@
    });
    match parse_digits(&digits) {
        Some(n) => {
            if n <= usize::MAX as u64 {
                Some(n as usize)
            } else {
                None
            }
        },
        None => None,
    }
}

/// The command that a lone flag stands for.
pub open spec fn flag_command(arg: Seq<char>) -> Option<CommandView> {
    if arg == "--help"@ || arg == "-h"@ {
        Some(CommandView::Help)
    } else if arg == "--version"@ || arg == "-V"@ {
        Some(CommandView::Version)
    } else if arg == "--config"@ {
        Some(CommandView::Config)
    } else if arg == "--reindex"@ {
        Some(CommandView::Reindex)
    } else if arg == "--index-semantic"@ {
        Some(CommandView::IndexSemantic)
    } else if arg == "--doctor"@ {
        Some(CommandView::Doctor)
    } else if arg == "--status"@ {
        Some(CommandView::Status)
    } else if arg == "--clear-cache"@ {
        Some(CommandView::ClearCache)
    } else if arg == "--clear-history"@ {
        Some(CommandView::ClearHistory)
    } else if arg == "--searches"@ {
        Some(CommandView::Searches)
    } else {
        None
    }
}

fn flag(arg: &str) -> (r: Option<Command>)
    ensures
        match r {
            Some(c) => flag_command(arg@) == Some(c@),
            None => flag_command(arg@) is None,
        },
{
    if same(arg, "--help") || same(arg, "-h") {
        Some(Command::Help)
    } else if same(arg, "--version") || same(arg, "-V") {
        Some(Command::Version)
    } else if same(arg, "--config") {
        Some(Command::Config)
    } else if same(arg, "--reindex") {
        Some(Command::Reindex)
    } else if same(arg, "--index-semantic") {
        Some(Command::IndexSemantic)
    } else if same(arg, "--doctor") {
        Some(Command::Doctor)
    } else if same(arg, "--status") {
        Some(Command::Status)
    } else if same(arg, "--clear-cache") {
        Some(Command::ClearCache)
    } else if same(arg, "--clear-history") {
        Some(Command::ClearHistory)
    } else if same(arg, "--searches") {
        Some(Command::Searches)
    } else {
        None
    }
}

/// The command of an argument list. `-p`, `--pick` and `--filter` take the rest as
/// their query, `--big` takes a count; every other flag stands alone. An argument
/// that is not expected is reported.
pub open spec fn command_of(args: Seq<Seq<char>>) -> CommandView {
    if args.len() == 0 {
        CommandView::Run
    } else if args[0] == "-p"@ || args[0] == "--print"@ {
        let query = join_words(args.skip(1));
        if query.len() == 0 {
            CommandView::Unknown(args[0])
        } else {
            CommandView::Print(query)
        }
    } else if args[0] == "--pick"@ {
        CommandView::Pick(join_words(args.skip(1)))
    } else if args[0] == "--filter"@ {
        CommandView::Filter(join_words(args.skip(1)))
    } else if args[0] == "--big"@ {
        if args.len() == 1 {
            CommandView::Big(20)
        } else if args.len() == 2 && count_of(args[1]) is Some {
            CommandView::Big(count_of(args[1])->Some_0 as usize)
        } else {
            CommandView::Unknown(args[1])
        }
    } else {
        match flag_command(args[0]) {
            None => CommandView::Unknown(args[0]),
            Some(c) => if args.len() == 1 {
                c
            } else {
                CommandView::Unknown(args[1])
            },
        }
    }
}

/// Parses the arguments (without the program name) into a command.
pub fn parse(args: &[String]) -> (r: Command)
    ensures
        r@ == command_of(texts(args@)),
{
    let ghost words = texts(args@);
    if args.len() == 0 {
        return Command::Run;
    }
    let first = args[0].as_str();
    assert(words[0] == first@);
    if same(first, "-p") || same(first, "--print") {
        let query = joined_from(args, 1);
        return if chars_of(&query).len() == 0 {
            Command::Unknown(first.to_owned())
        } else {
            Command::Print(query)
        };
    }
    if same(first, "--pick") {
        return Command::Pick(joined_from(args, 1));
    }
    if same(first, "--filter") {
        return Command::Filter(joined_from(args, 1));
    }
    if same(first, "--big") {
        if args.len() == 1 {
            return Command::Big(20);
        }
        let second = args[1].as_str();
        assert(words[1] == second@);
        return match parse_count(second) {
            Some(n) => if args.len() == 2 {
                Command::Big(n)
            } else {
                Command::Unknown(second.to_owned())
            },
            None => Command::Unknown(second.to_owned()),
        };
    }
    match flag(first) {
        None => Command::Unknown(first.to_owned()),
        Some(c) => if args.len() == 1 {
            c
        } else {
            assert(words[1] == args@[1]@);
            Command::Unknown(args[1].as_str().to_owned())
        },
    }
}

// ------------------------------------------------------------------- options

/// A command with the options that stand before it.
pub struct Invocation {
    pub command: Command,
    /// how records are written
    pub format: OutputFormat,
    /// records on the input end in NUL
    pub read0: bool,
    /// neither history nor layout is remembered
    pub no_history: bool,
    /// the name of a saved search
    pub saved: Option<String>,
}

/// The model of an [`Invocation`].
pub struct InvocationView {
    pub command: CommandView,
    pub format: OutputFormat,
    pub read0: bool,
    pub no_history: bool,
    pub saved: Option<Seq<char>>,
}

impl View for Invocation {
    type V = InvocationView;

    open spec fn view(&self) -> InvocationView {
        InvocationView {
            command: self.command@,
            format: self.format,
            read0: self.read0,
            no_history: self.no_history,
            saved: text_option(self.saved),
        }
    }
}

pub const TWO_FORMATS: &'static str = "--json and --print0 cannot be combined";

pub const NO_NAME: &'static str = "--saved needs the name of a search";

/// The invocation of the arguments from `i` on, with the options before them.
/// The first argument that is no option starts the command.
pub open spec fn invocation_from(args: Seq<Seq<char>>, i: int, so_far: InvocationView) -> Result<
    InvocationView,
    Seq<char>,
>
    decreases args.len() - i,
{
    if i >= args.len() || i < 0 {
        Ok(InvocationView { command: command_of(Seq::empty()), ..so_far })
    } else if args[i] == "--json"@ {
        if so_far.format == OutputFormat::Nul {
            Err(TWO_FORMATS@)
        } else {
            invocation_from(
                args,
                i + 1,
                InvocationView { format: OutputFormat::Json, ..so_far },
            )
        }
    } else if args[i] == "--print0"@ {
        if so_far.format == OutputFormat::Json {
            Err(TWO_FORMATS@)
        } else {
            invocation_from(args, i + 1, InvocationView { format: OutputFormat::Nul, ..so_far })
        }
    } else if args[i] == "--read0"@ {
        invocation_from(args, i + 1, InvocationView { read0: true, ..so_far })
    } else if args[i] == "--no-history"@ {
        invocation_from(args, i + 1, InvocationView { no_history: true, ..so_far })
    } else if args[i] == "--saved"@ {
        if i + 1 < args.len() {
            invocation_from(args, i + 2, InvocationView { saved: Some(args[i + 1]), ..so_far })
        } else {
            Err(NO_NAME@)
        }
    } else {
        Ok(InvocationView { command: command_of(args.skip(i)), ..so_far })
    }
}

/// No options, and no command yet.
pub open spec fn bare_invocation() -> InvocationView {
    InvocationView {
        command: CommandView::Run,
        format: OutputFormat::Text,
        read0: false,
        no_history: false,
        saved: None,
    }
}

/// Parses the arguments (without the program name): options first, then a
/// command. After `-p`, `--pick` and `--filter` all arguments are query text.
pub fn parse_invocation(args: &[String]) -> (r: Result<Invocation, &'static str>)
    ensures
        match r {
            Ok(given) => invocation_from(texts(args@), 0, bare_invocation()) == Ok::<
                InvocationView,
                Seq<char>,
            >(given@),
            Err(e) => invocation_from(texts(args@), 0, bare_invocation()) == Err::<
                InvocationView,
                Seq<char>,
            >(e@),
        },
{
    let ghost words = texts(args@);
    let mut given = Invocation {
        command: Command::Run,
        format: OutputFormat::Text,
        read0: false,
        no_history: false,
        saved: None,
    };
    let ghost outcome = invocation_from(words, 0, bare_invocation());
    assert(given@ == bare_invocation());
    let mut i: usize = 0;
    while i < args.len()
        invariant
            i <= args@.len(),
            words == texts(args@),
            outcome == invocation_from(words, i as int, given@),
            outcome == invocation_from(texts(args@), 0, bare_invocation()),
        decreases args@.len() - i,
    {
        let arg = args[i].as_str();
        assert(words[i as int] == arg@);
        if same(arg, "--json") {
            if given.format == OutputFormat::Nul {
                return Err(TWO_FORMATS);
            }
            given.format = OutputFormat::Json;
            i += 1;
        } else if same(arg, "--print0") {
            if given.format == OutputFormat::Json {
                return Err(TWO_FORMATS);
            }
            given.format = OutputFormat::Nul;
            i += 1;
        } else if same(arg, "--read0") {
            given.read0 = true;
            i += 1;
        } else if same(arg, "--no-history") {
            given.no_history = true;
            i += 1;
        } else if same(arg, "--saved") {
            if i + 1 >= args.len() {
                return Err(NO_NAME);
            }
            assert(words[i + 1] == args@[i + 1]@);
            given.saved = Some(args[i + 1].as_str().to_owned());
            i += 2;
        } else {
            let rest = vstd::slice::slice_subrange(args, i, args.len());
            assert(texts(rest@) =~= words.skip(i as int));
            given.command = parse(rest);
            return Ok(given);
        }
    }
    given.command = Command::Run;
    Ok(given)
}

// --------------------------------------------------------------------- laws

/// What is reported as unexpected is one of the arguments.
pub proof fn unknown_arguments_were_given(args: Seq<Seq<char>>)
    ensures
        command_of(args) matches CommandView::Unknown(arg) ==> args.contains(arg),
{
    if args.len() > 0 {
        assert(args.contains(args[0]));
        if args.len() > 1 {
            assert(args.contains(args[1]));
        }
    }
}

/// What stands behind a command is never read as an option: after `-p`,
/// `--pick` and `--filter` it is the query, word for word.
pub proof fn queries_are_taken_whole(name: Seq<char>, words: Seq<Seq<char>>)
    requires
        name == "-p"@ || name == "--pick"@ || name == "--filter"@,
        join_words(words).len() > 0,
    ensures
        invocation_from(seq![name] + words, 0, bare_invocation()) == Ok::<
            InvocationView,
            Seq<char>,
        >(
            InvocationView {
                command: if name == "-p"@ {
                    CommandView::Print(join_words(words))
                } else if name == "--pick"@ {
                    CommandView::Pick(join_words(words))
                } else {
                    CommandView::Filter(join_words(words))
                },
                ..bare_invocation()
            },
        ),
{
    let args = seq![name] + words;
    reveal_strlit("-p");
    reveal_strlit("--pick");
    reveal_strlit("--print");
    reveal_strlit("--filter");
    reveal_strlit("--json");
    reveal_strlit("--print0");
    reveal_strlit("--read0");
    reveal_strlit("--no-history");
    reveal_strlit("--saved");
    reveal_strlit("--big");
    assert(args.skip(0) =~= args);
    assert(args.skip(1) =~= words);
    assert("--json"@.len() == 6 && "--print0"@.len() == 8 && "--read0"@.len() == 7);
    assert("--no-history"@.len() == 12 && "--saved"@.len() == 7 && "--print"@.len() == 7);
    assert("-p"@.len() == 2 && "--pick"@.len() == 6 && "--filter"@.len() == 8);
    assert("--json"@[2] == 'j' && "--pick"@[2] == 'p');
    assert("--print0"@[2] == 'p' && "--filter"@[2] == 'f');
}

/// Both record formats at once are refused, in either order and wherever they
/// stand among the options.
pub proof fn formats_do_not_mix(args: Seq<Seq<char>>, i: int, so_far: InvocationView)
    requires
        0 <= i < args.len(),
        (args[i] == "--json"@ && so_far.format == OutputFormat::Nul) || (args[i] == "--print0"@
            && so_far.format == OutputFormat::Json),
    ensures
        invocation_from(args, i, so_far) == Err::<InvocationView, Seq<char>>(TWO_FORMATS@),
{
    reveal_strlit("--json");
    reveal_strlit("--print0");
    assert("--json"@.len() == 6 && "--print0"@.len() == 8);
}


/// An option is among the arguments from `i` on.
pub open spec fn is_given(args: Seq<Seq<char>>, i: int, option: Seq<char>) -> bool {
    exists|k: int| i <= k < args.len() && #[trigger] args[k] == option
}

/// An invocation has the settings that its options ask for, and no others: what
/// an option has set stays, and what is set was asked for.
pub proof fn options_set_what_they_say(
    args: Seq<Seq<char>>,
    i: int,
    so_far: InvocationView,
    v: InvocationView,
)
    requires
        0 <= i <= args.len(),
        invocation_from(args, i, so_far) == Ok::<InvocationView, Seq<char>>(v),
    ensures
        so_far.read0 ==> v.read0,
        so_far.no_history ==> v.no_history,
        so_far.format != OutputFormat::Text ==> v.format == so_far.format,
        v.read0 ==> so_far.read0 || is_given(args, i, "--read0"@),
        v.no_history ==> so_far.no_history || is_given(args, i, "--no-history"@),
        v.format == OutputFormat::Json ==> so_far.format == OutputFormat::Json || is_given(
            args,
            i,
            "--json"@,
        ),
        v.format == OutputFormat::Nul ==> so_far.format == OutputFormat::Nul || is_given(
            args,
            i,
            "--print0"@,
        ),
        i < args.len() && args[i] == "--read0"@ ==> v.read0,
        i < args.len() && args[i] == "--no-history"@ ==> v.no_history,
        i < args.len() && args[i] == "--json"@ ==> v.format == OutputFormat::Json,
        i < args.len() && args[i] == "--print0"@ ==> v.format == OutputFormat::Nul,
    decreases args.len() - i,
{
    reveal_strlit("--json");
    reveal_strlit("--print0");
    reveal_strlit("--read0");
    reveal_strlit("--no-history");
    reveal_strlit("--saved");
    assert("--json"@.len() == 6 && "--print0"@.len() == 8 && "--read0"@.len() == 7);
    assert("--no-history"@.len() == 12 && "--saved"@.len() == 7);
    assert("--read0"@[2] == 'r' && "--saved"@[2] == 's');
    if i < args.len() {
        if args[i] == "--json"@ {
            let next = InvocationView { format: OutputFormat::Json, ..so_far };
            options_set_what_they_say(args, i + 1, next, v);
        } else if args[i] == "--print0"@ {
            let next = InvocationView { format: OutputFormat::Nul, ..so_far };
            options_set_what_they_say(args, i + 1, next, v);
        } else if args[i] == "--read0"@ {
            let next = InvocationView { read0: true, ..so_far };
            options_set_what_they_say(args, i + 1, next, v);
        } else if args[i] == "--no-history"@ {
            let next = InvocationView { no_history: true, ..so_far };
            options_set_what_they_say(args, i + 1, next, v);
        } else if args[i] == "--saved"@ && i + 1 < args.len() {
            let next = InvocationView { saved: Some(args[i + 1]), ..so_far };
            options_set_what_they_say(args, i + 2, next, v);
        }
    }
}

} // verus!
