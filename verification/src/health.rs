//! Index diagnostics and explicit, narrowly scoped cleanup.

use crate::display::{human_size, size_text};
use crate::text::{digits_of, push_decimal, str_texts};
use vstd::prelude::*;
use vstd::string::*;

verus! {

#[derive(Debug)]
pub struct RootHealth {
    pub path: String,
    pub readable: bool,
}

#[derive(Debug)]
pub struct CacheHealth {
    pub path: String,
    pub state: &'static str,
    pub bytes: u64,
    pub age_seconds: Option<u64>,
    pub entries: Option<usize>,
}

#[derive(Debug)]
pub struct ExtractedCacheHealth {
    pub path: String,
    pub files: usize,
    pub bytes: u64,
    pub truncated: bool,
}

#[derive(Debug)]
pub struct Health {
    pub roots: Vec<RootHealth>,
    pub path_index: CacheHealth,
    pub semantic_index: CacheHealth,
    pub semantic_chunks: Option<usize>,
    pub extracted_caches: Vec<ExtractedCacheHealth>,
    pub semantic_feature: bool,
    pub chafa_feature: bool,
    pub remember_history: bool,
}

/// The report does not start the interactive watcher or verify on-disk documents
/// against stored vectors, so it never claims freshness from age alone.
pub const LIVE_UPDATES: &'static str =
    "not running in this command; watcher failures are reported in the interactive UI";

pub const FRESHNESS: &'static str =
    "snapshot age is not a freshness guarantee; --reindex refreshes paths, --index-semantic refreshes documents";

// -------------------------------------------------------------------- caches

/// A cache that could be read is valid; one that is there and could not be read
/// is invalid.
pub open spec fn cache_state(readable: bool, exists_on_disk: bool) -> Seq<char> {
    if readable {
        "valid"@
    } else if exists_on_disk {
        "invalid"@
    } else {
        "missing"@
    }
}

/// The health of a cache: `entries` where it could be read, and the size and age
/// of its file where there is one.
pub fn cache_health(
    path: String,
    entries: Option<usize>,
    file: Option<(u64, Option<u64>)>,
) -> (r: CacheHealth)
    ensures
        r.path == path,
        r.entries == entries,
        r.state@ == cache_state(entries is Some, file is Some),
        r.bytes == (match file {
            Some(f) => f.0,
            None => 0,
        }),
        r.age_seconds == (match file {
            Some(f) => f.1,
            None => None,
        }),
{
    let state = if entries.is_some() {
        "valid"
    } else if file.is_some() {
        "invalid"
    } else {
        "missing"
    };
    match file {
        Some((bytes, age_seconds)) => CacheHealth { path, state, bytes, age_seconds, entries },
        None => CacheHealth { path, state, bytes: 0, age_seconds: None, entries },
    }
}

/// How many entries of a directory are counted.
pub const MAX_COUNTED: usize = 8192;

/// How many of the first `n` entries are files.
pub open spec fn count_files(sizes: Seq<Option<u64>>, n: int) -> nat
    decreases n,
{
    if n <= 0 {
        0
    } else {
        count_files(sizes, n - 1) + (if sizes[n - 1] is Some {
            1nat
        } else {
            0nat
        })
    }
}

/// The total size of the files among the first `n` entries.
pub open spec fn total_bytes(sizes: Seq<Option<u64>>, n: int) -> nat
    decreases n,
{
    if n <= 0 {
        0
    } else {
        total_bytes(sizes, n - 1) + (match sizes[n - 1] {
            Some(bytes) => bytes as nat,
            None => 0,
        })
    }
}

/// The files of a cache directory: `sizes` holds the size of each entry that is
/// a file. A directory with very many entries is counted in part.
pub fn extracted_cache(path: String, sizes: &Vec<Option<u64>>) -> (r: ExtractedCacheHealth)
    ensures
        ({
            let n = if sizes@.len() < MAX_COUNTED {
                sizes@.len() as int
            } else {
                MAX_COUNTED as int
            };
            &&& r.path == path
            &&& r.files == count_files(sizes@, n)
            &&& r.bytes == (if total_bytes(sizes@, n) > u64::MAX {
                u64::MAX as nat
            } else {
                total_bytes(sizes@, n)
            })
            &&& r.truncated == (sizes@.len() > MAX_COUNTED)
        }),
{
    let mut files: usize = 0;
    let mut bytes: u64 = 0;
    let mut i: usize = 0;
    while i < sizes.len() && i < MAX_COUNTED
        invariant
            i <= sizes@.len(),
            i <= MAX_COUNTED,
            files == count_files(sizes@, i as int),
            files <= i,
            bytes == (if total_bytes(sizes@, i as int) > u64::MAX {
                u64::MAX as nat
            } else {
                total_bytes(sizes@, i as int)
            }),
        decreases sizes@.len() - i,
    {
        match sizes[i] {
            Some(size) => {
                files += 1;
                bytes = bytes.saturating_add(size);
            },
            None => {},
        }
        i += 1;
    }
    ExtractedCacheHealth { path, files, bytes, truncated: sizes.len() > MAX_COUNTED }
}

// -------------------------------------------------------------------- report

pub open spec fn yes_no(b: bool) -> Seq<char> {
    if b {
        "true"@
    } else {
        "false"@
    }
}

pub open spec fn root_line(root: RootHealth) -> Seq<char> {
    "root: "@ + root.path@ + (if root.readable {
        " (readable)\n"@
    } else {
        " (missing or unreadable)\n"@
    })
}

pub open spec fn root_lines(roots: Seq<RootHealth>, n: int) -> Seq<char>
    decreases n,
{
    if n <= 0 {
        Seq::empty()
    } else {
        root_lines(roots, n - 1) + root_line(roots[n - 1])
    }
}

pub open spec fn cache_lines(name: Seq<char>, cache: CacheHealth) -> Seq<char> {
    name + ": "@ + cache.state@ + " — "@ + cache.path@ + "\n  "@ + (match cache.entries {
        Some(n) => digits_of(n as nat),
        None => "unknown"@,
    }) + " entries, "@ + size_text(cache.bytes) + ", age "@ + (match cache.age_seconds {
        Some(s) => digits_of(s as nat) + "s"@,
        None => "unknown"@,
    }) + "\n"@
}

pub open spec fn extracted_line(cache: ExtractedCacheHealth) -> Seq<char> {
    "extracted cache: "@ + cache.path@ + " — "@ + digits_of(cache.files as nat) + " files, "@
        + size_text(cache.bytes) + (if cache.truncated {
        " (partial count)\n"@
    } else {
        "\n"@
    })
}

pub open spec fn extracted_lines(caches: Seq<ExtractedCacheHealth>, n: int) -> Seq<char>
    decreases n,
{
    if n <= 0 {
        Seq::empty()
    } else {
        extracted_lines(caches, n - 1) + extracted_line(caches[n - 1])
    }
}

/// The whole report.
pub open spec fn report(h: Health) -> Seq<char> {
    "semantic feature: "@ + yes_no(h.semantic_feature) + "\nchafa feature: "@ + yes_no(
        h.chafa_feature,
    ) + "\nhistory enabled: "@ + yes_no(h.remember_history) + "\n"@ + root_lines(
        h.roots@,
        h.roots@.len() as int,
    ) + cache_lines("path index"@, h.path_index) + cache_lines("semantic index"@, h.semantic_index)
        + extracted_lines(h.extracted_caches@, h.extracted_caches@.len() as int)
        + "live updates: "@ + LIVE_UPDATES@ + "\n"@ + FRESHNESS@ + "\n"@
}

fn push_bool(out: &mut String, b: bool)
    ensures
        final(out)@ == old(out)@ + yes_no(b),
{
    if b {
        out.append("true");
    } else {
        out.append("false");
    }
}

fn push_cache(out: &mut String, name: &str, cache: &CacheHealth)
    ensures
        final(out)@ == old(out)@ + cache_lines(name@, *cache),
{
    out.append(name);
    out.append(": ");
    out.append(cache.state);
    out.append(" — ");
    out.append(&cache.path);
    out.append("\n  ");
    match cache.entries {
        Some(n) => push_decimal(out, n as u64),
        None => out.append("unknown"),
    }
    out.append(" entries, ");
    out.append(&human_size(cache.bytes));
    out.append(", age ");
    match cache.age_seconds {
        Some(s) => {
            push_decimal(out, s);
            out.append("s");
        },
        None => out.append("unknown"),
    }
    out.append("\n");
    assert(out@ =~= old(out)@ + cache_lines(name@, *cache));
}

fn push_root(out: &mut String, root: &RootHealth)
    ensures
        final(out)@ == old(out)@ + root_line(*root),
{
    out.append("root: ");
    out.append(&root.path);
    if root.readable {
        out.append(" (readable)\n");
    } else {
        out.append(" (missing or unreadable)\n");
    }
    assert(out@ =~= old(out)@ + root_line(*root));
}

fn push_extracted(out: &mut String, cache: &ExtractedCacheHealth)
    ensures
        final(out)@ == old(out)@ + extracted_line(*cache),
{
    out.append("extracted cache: ");
    out.append(&cache.path);
    out.append(" — ");
    push_decimal(out, cache.files as u64);
    out.append(" files, ");
    out.append(&human_size(cache.bytes));
    if cache.truncated {
        out.append(" (partial count)\n");
    } else {
        out.append("\n");
    }
    assert(out@ =~= old(out)@ + extracted_line(*cache));
}

impl Health {
    pub fn text(&self) -> (r: String)
        ensures
            r@ == report(*self),
    {
        let mut out = "semantic feature: ".to_owned();
        push_bool(&mut out, self.semantic_feature);
        out.append("\nchafa feature: ");
        push_bool(&mut out, self.chafa_feature);
        out.append("\nhistory enabled: ");
        push_bool(&mut out, self.remember_history);
        out.append("\n");
        let ghost start = out@;
        let mut i: usize = 0;
        assert(out@ =~= start + root_lines(self.roots@, 0));
        while i < self.roots.len()
            invariant
                i <= self.roots@.len(),
                out@ == start + root_lines(self.roots@, i as int),
            decreases self.roots@.len() - i,
        {
            push_root(&mut out, &self.roots[i]);
            i += 1;
            assert(out@ =~= start + root_lines(self.roots@, i as int));
        }
        push_cache(&mut out, "path index", &self.path_index);
        push_cache(&mut out, "semantic index", &self.semantic_index);
        let ghost middle = out@;
        let mut k: usize = 0;
        assert(out@ =~= middle + extracted_lines(self.extracted_caches@, 0));
        while k < self.extracted_caches.len()
            invariant
                k <= self.extracted_caches@.len(),
                out@ == middle + extracted_lines(self.extracted_caches@, k as int),
            decreases self.extracted_caches@.len() - k,
        {
            push_extracted(&mut out, &self.extracted_caches[k]);
            k += 1;
            assert(out@ =~= middle + extracted_lines(self.extracted_caches@, k as int));
        }
        out.append("live updates: ");
        out.append(LIVE_UPDATES);
        out.append("\n");
        out.append(FRESHNESS);
        out.append("\n");
        out
    }
}

// ------------------------------------------------------------------- cleanup

/// What stands under a path, without following links.
#[derive(Debug, Clone, Copy, PartialEq, Eq, Structural)]
pub enum OnDisk {
    Missing,
    Directory,
    Link,
    Other,
}

/// What a cleanup does with a path.
#[derive(Debug, Clone, Copy, PartialEq, Eq, Structural)]
pub enum Removal {
    Skip,
    Tree,
    Entry,
}

/// The entries that a cleanup of the caches removes. Downloaded models,
/// configuration and original documents are not among them.
pub open spec fn cache_names() -> Seq<Seq<char>> {
    seq!["index.bin"@, "semantic.bin"@, "pdftext"@, "officetext"@]
}

/// The entries that a cleanup of the history removes.
pub open spec fn history_names() -> Seq<Seq<char>> {
    seq!["history"@, "queries"@, "session.toml"@]
}

/// The names that a cleanup may touch.
pub open spec fn names_of_cleanup(history: bool) -> Seq<Seq<char>> {
    if history {
        history_names()
    } else {
        cache_names()
    }
}

pub fn cleanup_names(history: bool) -> (r: Vec<&'static str>)
    ensures
        str_texts(r@) == names_of_cleanup(history),
{
    if history {
        let r: Vec<&'static str> = vec!["history", "queries", "session.toml"];
        assert(str_texts(r@) =~= history_names());
        r
    } else {
        let r: Vec<&'static str> = vec!["index.bin", "semantic.bin", "pdftext", "officetext"];
        assert(str_texts(r@) =~= cache_names());
        r
    }
}

pub const CLEANUP_REFUSED: &'static str = "refusing cleanup through a non-directory or symlink";

/// Whether a cleanup goes on below a directory: there is nothing to do where it
/// is missing, and anything but a directory is refused.
pub fn enter_root(root: OnDisk) -> (r: Result<bool, &'static str>)
    ensures
        match r {
            Ok(go) => (root == OnDisk::Missing || root == OnDisk::Directory) && go == (root
                == OnDisk::Directory),
            Err(e) => (root == OnDisk::Link || root == OnDisk::Other) && e@ == CLEANUP_REFUSED@,
        },
{
    match root {
        OnDisk::Missing => Ok(false),
        OnDisk::Directory => Ok(true),
        _ => Err(CLEANUP_REFUSED),
    }
}

/// How an entry is removed: directories with all they hold, anything else,
/// links too, by itself.
pub open spec fn removal_of(found: OnDisk) -> Removal {
    match found {
        OnDisk::Missing => Removal::Skip,
        OnDisk::Directory => Removal::Tree,
        _ => Removal::Entry,
    }
}

pub fn removal(found: OnDisk) -> (r: Removal)
    ensures
        r == removal_of(found),
{
    match found {
        OnDisk::Missing => Removal::Skip,
        OnDisk::Directory => Removal::Tree,
        _ => Removal::Entry,
    }
}

/// A running cleanup: the names that it has still to look at, and how many
/// entries it has removed.
pub struct Cleanup {
    names: Vec<&'static str>,
    at: usize,
    removed: usize,
}

#[verifier::ext_equal]
pub struct CleanupView {
    pub names: Seq<Seq<char>>,
    pub removed: nat,
}

impl View for Cleanup {
    type V = CleanupView;

    closed spec fn view(&self) -> CleanupView {
        CleanupView { names: str_texts(self.names@).skip(self.at as int), removed: self.removed as nat }
    }
}

/// The cleanup once it saw what stands under the first of its names.
pub open spec fn cleanup_step(c: CleanupView, found: OnDisk) -> CleanupView {
    CleanupView {
        names: c.names.drop_first(),
        removed: if removal_of(found) == Removal::Skip {
            c.removed
        } else {
            c.removed + 1
        },
    }
}

impl Cleanup {
    #[verifier::type_invariant]
    spec fn is_counted(&self) -> bool {
        self.removed <= self.at <= self.names@.len()
    }

    pub fn new(history: bool) -> (r: Cleanup)
        ensures
            r@ == (CleanupView { names: names_of_cleanup(history), removed: 0 }),
    {
        let r = Cleanup { names: cleanup_names(history), at: 0, removed: 0 };
        assert(str_texts(r.names@).skip(0) =~= str_texts(r.names@));
        r
    }

    /// The name to look at.
    pub fn name(&self) -> (r: Option<&'static str>)
        ensures
            match r {
                Some(s) => self@.names.len() > 0 && s@ == self@.names[0],
                None => self@.names.len() == 0,
            },
    {
        proof {
            use_type_invariant(self);
        }
        if self.at < self.names.len() {
            assert(str_texts(self.names@)[self.at as int] == self.names@[self.at as int]@);
            Some(self.names[self.at])
        } else {
            None
        }
    }

    /// What to do with the entry under the name.
    pub fn found(&mut self, found: OnDisk) -> (r: Removal)
        requires
            old(self)@.names.len() > 0,
        ensures
            r == removal_of(found),
            final(self)@ == cleanup_step(old(self)@, found),
    {
        proof {
            use_type_invariant(&*self);
        }
        let ghost all = str_texts(self.names@);
        let ghost before = self.at as int;
        let r = removal(found);
        assert(all.skip(before).len() > 0);
        assert(self.at < self.names.len());
        self.at += 1;
        if r != Removal::Skip {
            self.removed += 1;
        }
        assert(all.skip(before).drop_first() =~= all.skip(before + 1));
        r
    }

    /// How many entries were removed.
    pub fn removed(&self) -> (r: usize)
        ensures
            r == self@.removed,
    {
        self.removed
    }
}

/// What stands under a name of a directory.
pub open spec fn standing(dir: Map<Seq<char>, OnDisk>, name: Seq<char>) -> OnDisk {
    if dir.dom().contains(name) {
        dir[name]
    } else {
        OnDisk::Missing
    }
}

/// A cleanup of a directory to its end, with what is left of the directory.
pub open spec fn cleaned_up(c: CleanupView, dir: Map<Seq<char>, OnDisk>) -> (
    CleanupView,
    Map<Seq<char>, OnDisk>,
)
    decreases c.names.len(),
{
    if c.names.len() == 0 {
        (c, dir)
    } else {
        let found = standing(dir, c.names[0]);
        cleaned_up(
            cleanup_step(c, found),
            if removal_of(found) == Removal::Skip {
                dir
            } else {
                dir.remove(c.names[0])
            },
        )
    }
}

/// How many of the names a directory holds.
pub open spec fn held(dir: Map<Seq<char>, OnDisk>, names: Seq<Seq<char>>) -> nat
    decreases names.len(),
{
    if names.len() == 0 {
        0
    } else {
        held(dir, names.drop_first()) + if standing(dir, names[0]) == OnDisk::Missing {
            0nat
        } else {
            1nat
        }
    }
}

proof fn lemma_held_same(
    a: Map<Seq<char>, OnDisk>,
    b: Map<Seq<char>, OnDisk>,
    names: Seq<Seq<char>>,
)
    requires
        forall|i: int| 0 <= i < names.len() ==> standing(a, #[trigger] names[i]) == standing(
            b,
            names[i],
        ),
    ensures
        held(a, names) == held(b, names),
    decreases names.len(),
{
    if names.len() > 0 {
        let rest = names.drop_first();
        assert forall|i: int| 0 <= i < rest.len() implies standing(a, #[trigger] rest[i])
            == standing(b, rest[i]) by {
            assert(rest[i] == names[i + 1]);
        }
        assert(standing(a, names[0]) == standing(b, names[0]));
        lemma_held_same(a, b, rest);
    }
}

proof fn lemma_cleaned_up(c: CleanupView, dir: Map<Seq<char>, OnDisk>)
    requires
        c.names.no_duplicates(),
    ensures
        ({
            let (end, left) = cleaned_up(c, dir);
            &&& end.removed == c.removed + held(dir, c.names)
            &&& forall|name: Seq<char>|
                (#[trigger] standing(left, name)) == if c.names.contains(name) {
                    OnDisk::Missing
                } else {
                    standing(dir, name)
                }
        }),
    decreases c.names.len(),
{
    let names = c.names;
    if names.len() > 0 {
        let found = standing(dir, names[0]);
        let next = if removal_of(found) == Removal::Skip {
            dir
        } else {
            dir.remove(names[0])
        };
        let rest = names.drop_first();
        assert(!rest.contains(names[0])) by {
            if rest.contains(names[0]) {
                let k = choose|k: int| 0 <= k < rest.len() && rest[k] == names[0];
                assert(names[k + 1] == names[0]);
            }
        }
        assert(rest.no_duplicates()) by {
            assert forall|i: int, j: int|
                0 <= i < rest.len() && 0 <= j < rest.len() && i != j implies rest[i] != rest[j] by {
                assert(names[i + 1] != names[j + 1]);
            }
        }
        lemma_cleaned_up(cleanup_step(c, found), next);
        assert forall|i: int| 0 <= i < rest.len() implies standing(next, #[trigger] rest[i])
            == standing(dir, rest[i]) by {
            assert(rest.contains(rest[i]));
        }
        lemma_held_same(next, dir, rest);
        let left = cleaned_up(c, dir).1;
        assert forall|name: Seq<char>| (#[trigger] standing(left, name)) == if names.contains(name) {
            OnDisk::Missing
        } else {
            standing(dir, name)
        } by {
            assert(names.contains(name) == (name == names[0] || rest.contains(name))) by {
                if names.contains(name) && name != names[0] {
                    let k = choose|k: int| 0 <= k < names.len() && names[k] == name;
                    assert(rest[k - 1] == name);
                }
                if rest.contains(name) {
                    let k = choose|k: int| 0 <= k < rest.len() && rest[k] == name;
                    assert(names[k + 1] == name);
                }
                assert(names.contains(names[0]));
            }
        }
    }
}

proof fn lemma_nothing_held(dir: Map<Seq<char>, OnDisk>, names: Seq<Seq<char>>)
    requires
        forall|i: int| 0 <= i < names.len() ==> standing(dir, #[trigger] names[i])
            == OnDisk::Missing,
    ensures
        held(dir, names) == 0,
    decreases names.len(),
{
    if names.len() > 0 {
        let rest = names.drop_first();
        assert forall|i: int| 0 <= i < rest.len() implies standing(dir, #[trigger] rest[i])
            == OnDisk::Missing by {
            assert(rest[i] == names[i + 1]);
        }
        assert(standing(dir, names[0]) == OnDisk::Missing);
        lemma_nothing_held(dir, rest);
    }
}

proof fn lemma_names_differ()
    ensures
        cache_names().no_duplicates(),
        history_names().no_duplicates(),
{
    reveal_strlit("index.bin");
    reveal_strlit("semantic.bin");
    reveal_strlit("pdftext");
    reveal_strlit("officetext");
    reveal_strlit("history");
    reveal_strlit("queries");
    reveal_strlit("session.toml");
    assert("index.bin"@.len() == 9);
    assert("semantic.bin"@.len() == 12);
    assert("pdftext"@.len() == 7);
    assert("officetext"@.len() == 10);
    assert("history"@[0] == 'h' && "queries"@[0] == 'q');
    let names = cache_names();
    assert(names[0].len() == 9 && names[1].len() == 12 && names[2].len() == 7 && names[3].len()
        == 10);
}

/// A cleanup counts what it removes, leaves none of its names and nothing else
/// changed; a second one finds nothing to remove.
pub proof fn cleanups_are_scoped_and_final(history: bool, dir: Map<Seq<char>, OnDisk>)
    ensures
        ({
            let names = names_of_cleanup(history);
            let start = CleanupView { names, removed: 0 };
            let (end, left) = cleaned_up(start, dir);
            &&& end.removed == held(dir, names)
            &&& forall|name: Seq<char>|
                (#[trigger] standing(left, name)) == if names.contains(name) {
                    OnDisk::Missing
                } else {
                    standing(dir, name)
                }
            &&& cleaned_up(start, left).0.removed == 0
        }),
{
    lemma_names_differ();
    let names = names_of_cleanup(history);
    let start = CleanupView { names, removed: 0 };
    lemma_cleaned_up(start, dir);
    let left = cleaned_up(start, dir).1;
    lemma_cleaned_up(start, left);
    assert forall|i: int| 0 <= i < names.len() implies standing(left, #[trigger] names[i])
        == OnDisk::Missing by {
        assert(names.contains(names[i]));
    }
    lemma_nothing_held(left, names);
}

} // verus!
