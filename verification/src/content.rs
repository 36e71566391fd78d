//! Content search: the lines of files that match a pattern.

use crate::matcher::{ignores_case, smart_case};
use crate::text::{chars_of, is_space, trim_end, trim_end_at, trimmed_end};
use grep_regex::{RegexMatcher, RegexMatcherBuilder};
use grep_searcher::{BinaryDetection, SearcherBuilder};
use grep_searcher::sinks::UTF8;
use vstd::prelude::*;
use vstd::string::*;

verus! {

/// How many lines of one file are reported.
pub const PER_FILE_CAP: usize = 20;

/// A line of a file that matches.
#[derive(Debug, PartialEq)]
pub struct ContentMatch {
    pub path: String,
    pub line_number: u64,
    pub line: String,
}

/// The model of a [`ContentMatch`].
pub struct HitView {
    pub path: Seq<char>,
    pub line_number: u64,
    pub line: Seq<char>,
}

impl View for ContentMatch {
    type V = HitView;

    open spec fn view(&self) -> HitView {
        HitView { path: self.path@, line_number: self.line_number, line: self.line@ }
    }
}

// ------------------------------------------------------------ outside calls

/// A compiled pattern of the line searcher.
#[verifier::external_type_specification]
#[verifier::external_body]
pub struct ExRegexMatcher(grep_regex::RegexMatcher);

/// A matcher was built from this pattern, with case ignored or not.
pub uninterp spec fn built_from(
    m: grep_regex::RegexMatcher,
    pattern: Seq<char>,
    ignore_case: bool,
) -> bool;

/// The text of the error if a pattern cannot be searched for.
pub uninterp spec fn grep_error(pattern: Seq<char>, ignore_case: bool) -> Option<Seq<char>>;

/// The lines of a file that the searcher reports for a pattern, with their
/// numbers, in order.
pub uninterp spec fn grep_lines(pattern: Seq<char>, ignore_case: bool, data: Seq<u8>) -> Seq<
    (u64, Seq<char>),
>;

/// `grep_regex::RegexMatcherBuilder::build`: whether it succeeds, and the text
/// of the error, is a function of the pattern and the case switch.
#[verifier::external_body]
fn build_matcher(pattern: &str, ignore_case: bool) -> (r: Result<RegexMatcher, String>)
    ensures
        match r {
            Ok(m) => grep_error(pattern@, ignore_case) is None && built_from(
                m,
                pattern@,
                ignore_case,
            ),
            Err(e) => grep_error(pattern@, ignore_case) == Some(e@),
        },
{
    let built = RegexMatcherBuilder::new().case_insensitive(ignore_case).build(pattern);
    built.map_err(|e| e.to_string())
}

/// Lines with their numbers.
pub open spec fn numbered(lines: Seq<(u64, String)>) -> Seq<(u64, Seq<char>)> {
    lines.map_values(|l: (u64, String)| (l.0, l.1@))
}

/// `grep_searcher::Searcher::search_reader`, which stops at a NUL byte and at a
/// matching line that is not UTF-8: what it reports up to there is a function
/// of the pattern and the case switch that the matcher was built from, and of the
/// bytes.
#[verifier::external_body]
fn search_bytes(matcher: &RegexMatcher, data: &Vec<u8>) -> (r: Vec<(u64, String)>)
    ensures
        forall|pattern: Seq<char>, ignore_case: bool| #[trigger]
            built_from(*matcher, pattern, ignore_case) ==> numbered(r@) == grep_lines(
                pattern,
                ignore_case,
                data@,
            ),
{
    let quit = BinaryDetection::quit(0);
    let mut searcher = SearcherBuilder::new().binary_detection(quit).line_number(true).build();
    let mut lines: Vec<(u64, String)> = Vec::new();
    let sink = UTF8(|number, line| {
        lines.push((number, line.to_string()));
        Ok(true)
    });
    let _ = searcher.search_reader(matcher, data.as_slice(), sink);
    lines
}

// --------------------------------------------------------------- one file

/// What is reported of one file: its first matching lines, without trailing
/// spaces.
pub open spec fn hits_in(path: Seq<char>, lines: Seq<(u64, Seq<char>)>) -> Seq<HitView> {
    Seq::new(
        if lines.len() < PER_FILE_CAP {
            lines.len()
        } else {
            PER_FILE_CAP as nat
        },
        |i: int| HitView { path, line_number: lines[i].0, line: trim_end(lines[i].1) },
    )
}

/// The model of a list of hits.
pub open spec fn hit_views(hits: Seq<ContentMatch>) -> Seq<HitView> {
    hits.map_values(|h: ContentMatch| h@)
}

/// The hits of the lines that match in a file.
pub fn hits_from(path: &str, lines: &Vec<(u64, String)>) -> (r: Vec<ContentMatch>)
    ensures
        hit_views(r@) == hits_in(path@, numbered(lines@)),
{
    let mut hits: Vec<ContentMatch> = Vec::new();
    let mut i: usize = 0;
    while i < lines.len() && i < PER_FILE_CAP
        invariant
            i <= lines@.len(),
            i <= PER_FILE_CAP,
            hits@.len() == i,
            forall|j: int|
                0 <= j < i ==> (#[trigger] hits@[j])@ == hits_in(path@, numbered(lines@))[j],
        decreases lines@.len() - i,
    {
        let line = trimmed_end(&chars_of(lines[i].1.as_str()));
        hits.push(ContentMatch { path: path.to_owned(), line_number: lines[i].0, line });
        i += 1;
    }
    assert(hit_views(hits@) =~= hits_in(path@, numbered(lines@)));
    hits
}

/// A file as a content search sees it.
pub struct TextFile {
    pub path: String,
    pub is_file: bool,
    pub size: u64,
    pub data: Vec<u8>,
}

/// The model of a [`TextFile`].
pub struct FileView {
    pub path: Seq<char>,
    pub is_file: bool,
    pub size: u64,
    pub data: Seq<u8>,
}

impl View for TextFile {
    type V = FileView;

    open spec fn view(&self) -> FileView {
        FileView { path: self.path@, is_file: self.is_file, size: self.size, data: self.data@ }
    }
}

/// Only regular files up to the configured size are searched.
pub fn is_eligible(is_file: bool, size: u64, max_filesize: u64) -> (r: bool)
    ensures
        r == (is_file && size <= max_filesize),
{
    size <= max_filesize && is_file
}

// --------------------------------------------------------------- searches

/// A pattern that can be searched for, with smart case: a pattern without
/// capitals ignores case.
pub struct Grep {
    matcher: RegexMatcher,
    source: Ghost<(Seq<char>, bool)>,
}

impl View for Grep {
    type V = (Seq<char>, bool);

    closed spec fn view(&self) -> (Seq<char>, bool) {
        self.source@
    }
}

/// The hits of one file for a pattern and its case switch.
pub open spec fn file_hits(source: (Seq<char>, bool), f: FileView, max: u64) -> Seq<HitView> {
    if f.is_file && f.size <= max {
        hits_in(f.path, grep_lines(source.0, source.1, f.data))
    } else {
        Seq::empty()
    }
}

/// The hits of the first `n` files, file by file.
pub open spec fn all_hits(source: (Seq<char>, bool), fs: Seq<FileView>, max: u64, n: int) -> Seq<
    HitView,
>
    decreases n,
{
    if n <= 0 {
        Seq::empty()
    } else {
        all_hits(source, fs, max, n - 1) + file_hits(source, fs[n - 1], max)
    }
}

/// The model of a list of files.
pub open spec fn file_views(files: Seq<TextFile>) -> Seq<FileView> {
    files.map_values(|f: TextFile| f@)
}

impl Grep {
    #[verifier::type_invariant]
    spec fn is_built(self) -> bool {
        built_from(self.matcher, self.source@.0, self.source@.1)
    }

    pub fn new(pattern: &str) -> (r: Result<Grep, String>)
        ensures
            match r {
                Ok(g) => grep_error(pattern@, ignores_case(pattern@)) is None && g@ == (
                    pattern@,
                    ignores_case(pattern@),
                ),
                Err(e) => grep_error(pattern@, ignores_case(pattern@)) == Some(e@),
            },
    {
        let ignore_case = smart_case(pattern);
        match build_matcher(pattern, ignore_case) {
            Ok(matcher) => Ok(Grep { matcher, source: Ghost((pattern@, ignore_case)) }),
            Err(e) => Err(e),
        }
    }

    /// The hits of one file.
    pub fn search_file(&self, file: &TextFile, max_filesize: u64) -> (r: Vec<ContentMatch>)
        ensures
            hit_views(r@) == file_hits(self@, file@, max_filesize),
    {
        proof {
            use_type_invariant(self);
        }
        if is_eligible(file.is_file, file.size, max_filesize) {
            hits_from(file.path.as_str(), &search_bytes(&self.matcher, &file.data))
        } else {
            let none: Vec<ContentMatch> = Vec::new();
            assert(hit_views(none@) =~= Seq::<HitView>::empty());
            none
        }
    }
}

/// The hits of all files, file by file. A pattern that cannot be searched for is
/// an error.
pub fn search(files: &Vec<TextFile>, pattern: &str, max_filesize: u64) -> (r: Result<
    Vec<ContentMatch>,
    String,
>)
    ensures
        match r {
            Ok(hits) => grep_error(pattern@, ignores_case(pattern@)) is None && hit_views(hits@)
                == all_hits(
                (pattern@, ignores_case(pattern@)),
                file_views(files@),
                max_filesize,
                files@.len() as int,
            ),
            Err(e) => grep_error(pattern@, ignores_case(pattern@)) == Some(e@),
        },
{
    let grep = match Grep::new(pattern) {
        Ok(grep) => grep,
        Err(e) => return Err(e),
    };
    let ghost fs = file_views(files@);
    let mut hits: Vec<ContentMatch> = Vec::new();
    let mut i: usize = 0;
    assert(hit_views(hits@) =~= Seq::<HitView>::empty());
    while i < files.len()
        invariant
            i <= files@.len(),
            fs == file_views(files@),
            hit_views(hits@) == all_hits(grep@, fs, max_filesize, i as int),
        decreases files@.len() - i,
    {
        let mut more = grep.search_file(&files[i], max_filesize);
        let ghost before = hits@;
        let ghost added = more@;
        hits.append(&mut more);
        assert(hit_views(hits@) =~= hit_views(before) + hit_views(added));
        i += 1;
    }
    Ok(hits)
}

// --------------------------------------------------------------------- laws

/// A file is reported at most [`PER_FILE_CAP`] times, each time under its own
/// path and with a line that does not end in a space.
pub proof fn hits_of_a_file_are_bounded(source: (Seq<char>, bool), f: FileView, max: u64)
    ensures
        file_hits(source, f, max).len() <= PER_FILE_CAP,
        forall|i: int|
            0 <= i < file_hits(source, f, max).len() ==> {
                let hit = #[trigger] file_hits(source, f, max)[i];
                hit.path == f.path && hit.line == trim_end(hit.line)
            },
{
    if f.is_file && f.size <= max {
        let lines = grep_lines(source.0, source.1, f.data);
        assert forall|i: int| 0 <= i < file_hits(source, f, max).len() implies {
            let hit = #[trigger] file_hits(source, f, max)[i];
            hit.path == f.path && hit.line == trim_end(hit.line)
        } by {
            lemma_trimmed(lines[i].1, lines[i].1.len() as int);
        }
    }
}

proof fn lemma_trimmed(s: Seq<char>, n: int)
    requires
        0 <= n <= s.len(),
    ensures
        ({
            let e = trim_end_at(s, n, 0);
            0 <= e <= n && trim_end(s.take(e)) == s.take(e)
        }),
    decreases n,
{
    if n > 0 && is_space(s[n - 1]) {
        lemma_trimmed(s, n - 1);
    } else {
        let t = s.take(n);
        assert(n > 0 ==> t[n - 1] == s[n - 1]);
        assert(trim_end_at(t, t.len() as int, 0) == n);
        assert(t.take(n) =~= t);
    }
}

/// What is found in some files is what is found in each of them, in order.
pub proof fn files_are_searched_one_by_one(
    source: (Seq<char>, bool),
    a: Seq<FileView>,
    b: Seq<FileView>,
    max: u64,
)
    ensures
        all_hits(source, a + b, max, (a + b).len() as int) == all_hits(
            source,
            a,
            max,
            a.len() as int,
        ) + all_hits(source, b, max, b.len() as int),
    decreases b.len(),
{
    if b.len() == 0 {
        assert(a + b =~= a);
        assert(all_hits(source, a, max, a.len() as int) + Seq::<HitView>::empty() =~= all_hits(
            source,
            a,
            max,
            a.len() as int,
        ));
    } else {
        let rest = b.drop_last();
        files_are_searched_one_by_one(source, a, rest, max);
        lemma_hits_of_prefix(source, a + b, a + rest, max, (a + rest).len() as int);
        lemma_hits_of_prefix(source, b, rest, max, rest.len() as int);
        let last = file_hits(source, b.last(), max);
        let left = all_hits(source, a, max, a.len() as int);
        let right = all_hits(source, rest, max, rest.len() as int);
        assert(left + right + last =~= left + (right + last));
    }
}

proof fn lemma_hits_of_prefix(
    source: (Seq<char>, bool),
    s: Seq<FileView>,
    t: Seq<FileView>,
    max: u64,
    n: int,
)
    requires
        n <= s.len(),
        n <= t.len(),
        forall|i: int| 0 <= i < n ==> s[i] == t[i],
    ensures
        all_hits(source, s, max, n) == all_hits(source, t, max, n),
    decreases n,
{
    if n > 0 {
        lemma_hits_of_prefix(source, s, t, max, n - 1);
    }
}


/// Of a regular file that is not too large the first matching lines are
/// reported, with their numbers and their order; only spaces at their ends are
/// cut. Of any other file nothing is.
pub proof fn first_matches_are_reported(
    source: (Seq<char>, bool),
    f: FileView,
    max: u64,
    i: int,
)
    ensures
        ({
            let lines = grep_lines(source.0, source.1, f.data);
            let hits = file_hits(source, f, max);
            &&& f.is_file && f.size <= max ==> hits.len() == if lines.len() < 20 {
                lines.len()
            } else {
                20
            }
            &&& !f.is_file || f.size > max ==> hits.len() == 0
            &&& 0 <= i < hits.len() ==> {
                let (number, line) = lines[i];
                &&& hits[i].line_number == number
                &&& hits[i].line.is_prefix_of(line)
                &&& forall|k: int|
                    hits[i].line.len() <= k < line.len() ==> is_space(#[trigger] line[k])
                &&& hits[i].line.len() > 0 ==> !is_space(hits[i].line.last())
            }
        }),
{
    let lines = grep_lines(source.0, source.1, f.data);
    let hits = file_hits(source, f, max);
    if 0 <= i < hits.len() {
        let line = lines[i].1;
        lemma_cut(line, line.len() as int);
        assert(hits[i].line.is_prefix_of(line));
    }
}

proof fn lemma_cut(s: Seq<char>, n: int)
    requires
        0 <= n <= s.len(),
    ensures
        ({
            let e = trim_end_at(s, n, 0);
            &&& 0 <= e <= n
            &&& forall|k: int| e <= k < n ==> is_space(#[trigger] s[k])
            &&& e > 0 ==> !is_space(s[e - 1])
        }),
    decreases n,
{
    if n > 0 && is_space(s[n - 1]) {
        lemma_cut(s, n - 1);
    }
}

} // verus!
