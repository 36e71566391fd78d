//! Query-side result filters, written as `ext:` / `path:` / `dir:` /
//! `kind:` / `changed:` / `larger:` / `smaller:` tokens of a query.

use crate::binary64::ten;
use crate::number::{digits_end, read_number, scale_number, whole_numbers_scale_exactly};
use crate::paths::{
    ext_among, extension, extension_of, extensions_follow_the_last_dot, is_name, is_start,
};
use crate::text::{
    all_digits, ascii_lower, ascii_lower_all, char_is_space, chars_of, contains_text, decimal, dots_end,
    ends_with, eq_ignore_ascii_case, find_from, is_space, lemma_texts_push, lower_chars,
    occurs_at, parse_digits, push_range, same_chars, same_ignoring_case, skip_spaces, starts_with, str_texts,
    string_of, string_of_range, sub_chars, texts, without_leading_dots,
};
use crate::walker::FileMeta;
use vstd::prelude::*;

verus! {

/// Directories are marked in the index by a trailing `/`; without `dir:` they
/// are excluded, so plain searches keep returning files.
#[derive(Debug, Clone, PartialEq)]
pub struct Filters {
    pub exts: Vec<String>,
    pub path_terms: Vec<String>,
    pub dirs_only: bool,
    pub changed_after: Option<i64>,
    pub min_size: Option<u64>,
    pub max_size: Option<u64>,
}

/// The model of [`Filters`].
#[verifier::ext_equal]
pub struct FilterSet {
    pub exts: Seq<Seq<char>>,
    pub path_terms: Seq<Seq<char>>,
    pub dirs_only: bool,
    pub changed_after: Option<i64>,
    pub min_size: Option<u64>,
    pub max_size: Option<u64>,
}

impl View for Filters {
    type V = FilterSet;

    open spec fn view(&self) -> FilterSet {
        FilterSet {
            exts: texts(self.exts@),
            path_terms: texts(self.path_terms@),
            dirs_only: self.dirs_only,
            changed_after: self.changed_after,
            min_size: self.min_size,
            max_size: self.max_size,
        }
    }
}

/// No filter at all.
pub open spec fn no_filters() -> FilterSet {
    FilterSet {
        exts: Seq::empty(),
        path_terms: Seq::empty(),
        dirs_only: false,
        changed_after: None,
        min_size: None,
        max_size: None,
    }
}

impl Default for Filters {
    fn default() -> (r: Filters)
        ensures
            r@ == no_filters(),
    {
        let r = Filters {
            exts: Vec::new(),
            path_terms: Vec::new(),
            dirs_only: false,
            changed_after: None,
            min_size: None,
            max_size: None,
        };
        assert(r@ =~= no_filters());
        r
    }
}

// -------------------------------------------------------------------- kinds

/// `kind:` shorthands with their extensions.
pub open spec fn kind_table() -> Seq<(Seq<char>, Seq<Seq<char>>)> {
    seq![
        (
            "image"@,
            seq![
                "png"@, "jpg"@, "jpeg"@, "gif"@, "webp"@, "tif"@, "tiff"@, "bmp"@, "heic"@, "svg"@,
                "ico"@,
            ],
        ),
        ("video"@, seq!["mp4"@, "mov"@, "mkv"@, "avi"@, "webm"@, "m4v"@]),
        ("audio"@, seq!["mp3"@, "wav"@, "flac"@, "m4a"@, "aac"@, "ogg"@]),
        (
            "doc"@,
            seq![
                "pdf"@, "doc"@, "docx"@, "xls"@, "xlsx"@, "ppt"@, "pptx"@, "pages"@, "key"@,
                "numbers"@, "md"@, "txt"@, "rtf"@,
            ],
        ),
        (
            "code"@,
            seq![
                "rs"@, "py"@, "js"@, "ts"@, "tsx"@, "jsx"@, "go"@, "c"@, "h"@, "cpp"@, "hpp"@,
                "java"@, "rb"@, "sh"@, "swift"@, "kt"@, "lua"@, "sql"@, "html"@, "css"@, "toml"@,
                "yaml"@, "yml"@, "json"@,
            ],
        ),
        ("app"@, seq!["app"@]),
        (
            "archive"@,
            seq!["zip"@, "tar"@, "gz"@, "tgz"@, "bz2"@, "xz"@, "7z"@, "rar"@, "dmg"@],
        ),
    ]
}

fn kind_names() -> (r: Vec<&'static str>)
    ensures
        r@.len() == kind_table().len(),
        forall|k: int| 0 <= k < r@.len() ==> #[trigger] r@[k]@ == kind_table()[k].0,
{
    vec!["image", "video", "audio", "doc", "code", "app", "archive"]
}

fn kind_exts(k: usize) -> (r: Vec<&'static str>)
    requires
        k < kind_table().len(),
    ensures
        str_texts(r@) == kind_table()[k as int].1,
{
    let r: Vec<&'static str> = if k == 0 {
        vec!["png", "jpg", "jpeg", "gif", "webp", "tif", "tiff", "bmp", "heic", "svg", "ico"]
    } else if k == 1 {
        vec!["mp4", "mov", "mkv", "avi", "webm", "m4v"]
    } else if k == 2 {
        vec!["mp3", "wav", "flac", "m4a", "aac", "ogg"]
    } else if k == 3 {
        vec![
            "pdf", "doc", "docx", "xls", "xlsx", "ppt", "pptx", "pages", "key", "numbers", "md",
            "txt", "rtf",
        ]
    } else if k == 4 {
        vec![
            "rs", "py", "js", "ts", "tsx", "jsx", "go", "c", "h", "cpp", "hpp", "java", "rb", "sh",
            "swift", "kt", "lua", "sql", "html", "css", "toml", "yaml", "yml", "json",
        ]
    } else if k == 5 {
        vec!["app"]
    } else {
        vec!["zip", "tar", "gz", "tgz", "bz2", "xz", "7z", "rar", "dmg"]
    };
    assert(str_texts(r@) =~= kind_table()[k as int].1);
    r
}

/// The kind at `k` lists this extension.
pub open spec fn kind_lists(k: int, ext: Seq<char>) -> bool {
    exists|j: int|
        0 <= j < kind_table()[k].1.len() && same_ignoring_case(
            #[trigger] kind_table()[k].1[j],
            ext,
        )
}

/// The kind at `k` is the first with this name.
pub open spec fn kind_named(k: int, name: Seq<char>) -> bool {
    &&& 0 <= k < kind_table().len()
    &&& same_ignoring_case(kind_table()[k].0, name)
    &&& forall|m: int| 0 <= m < k ==> !same_ignoring_case(#[trigger] kind_table()[m].0, name)
}

/// The extension is of the kind with this name: the first that lists it, and the
/// only one, see [`extensions_have_one_kind`].
pub open spec fn has_kind(ext: Seq<char>, name: Seq<char>) -> bool {
    exists|k: int|
        {
            &&& 0 <= k < kind_table().len()
            &&& #[trigger] kind_lists(k, ext)
            &&& name == kind_table()[k].0
            &&& forall|m: int| 0 <= m < k ==> !#[trigger] kind_lists(m, ext)
        }
}

/// The `kind:` bucket this extension belongs to ("image", "video", ...).
pub fn kind_for_ext(ext: &str) -> (r: Option<&'static str>)
    ensures
        match r {
            Some(name) => has_kind(ext@, name@),
            None => forall|k: int| 0 <= k < kind_table().len() ==> !#[trigger] kind_lists(k, ext@),
        },
{
    let names = kind_names();
    let mut k: usize = 0;
    while k < names.len()
        invariant
            k <= names.len(),
            names@.len() == kind_table().len(),
            forall|j: int| 0 <= j < names@.len() ==> #[trigger] names@[j]@ == kind_table()[j].0,
            forall|m: int| 0 <= m < k ==> !#[trigger] kind_lists(m, ext@),
        decreases names.len() - k,
    {
        let exts = kind_exts(k);
        let mut j: usize = 0;
        while j < exts.len()
            invariant
                j <= exts.len(),
                str_texts(exts@) == kind_table()[k as int].1,
                forall|i: int|
                    0 <= i < j ==> !same_ignoring_case(
                        #[trigger] kind_table()[k as int].1[i],
                        ext@,
                    ),
            ensures
                j < exts.len() ==> kind_lists(k as int, ext@),
                j >= exts.len() ==> !kind_lists(k as int, ext@),
            decreases exts.len() - j,
        {
            assert(kind_table()[k as int].1[j as int] == str_texts(exts@)[j as int]);
            if eq_ignore_ascii_case(exts[j], ext) {
                break;
            }
            j += 1;
        }
        if j < exts.len() {
            return Some(names[k]);
        }
        k += 1;
    }
    None
}

fn find_kind(kind: &str) -> (r: Option<usize>)
    ensures
        match r {
            Some(k) => kind_named(k as int, kind@),
            None => forall|k: int|
                0 <= k < kind_table().len() ==> !same_ignoring_case(
                    #[trigger] kind_table()[k].0,
                    kind@,
                ),
        },
{
    let names = kind_names();
    let mut k: usize = 0;
    while k < names.len()
        invariant
            k <= names.len(),
            names@.len() == kind_table().len(),
            forall|j: int| 0 <= j < names@.len() ==> #[trigger] names@[j]@ == kind_table()[j].0,
            forall|m: int| 0 <= m < k ==> !same_ignoring_case(#[trigger] kind_table()[m].0, kind@),
        decreases names.len() - k,
    {
        assert(names@[k as int]@ == kind_table()[k as int].0);
        if eq_ignore_ascii_case(names[k], kind) {
            return Some(k);
        }
        k += 1;
    }
    None
}

/// Whether `kind` is one of the buckets accepted by the `kind:` query filter.
pub fn is_known_kind(kind: &str) -> (r: bool)
    ensures
        r == exists|k: int| #[trigger] kind_named(k, kind@),
{
    let found = find_kind(kind);
    proof {
        if found is Some {
            assert(kind_named(found->0 as int, kind@));
        }
    }
    found.is_some()
}

// ------------------------------------------------------ durations and sizes

pub open spec fn unit_seconds(unit: char) -> Option<nat> {
    if unit == 'm' {
        Some(60)
    } else if unit == 'h' {
        Some(3600)
    } else if unit == 'd' {
        Some(86_400)
    } else if unit == 'w' {
        Some(604_800)
    } else {
        None
    }
}

/// A whole number of minutes, hours, days or weeks, in seconds.
pub open spec fn duration_secs(s: Seq<char>) -> Option<i64> {
    if s.len() == 0 {
        None
    } else {
        let body = s.drop_last();
        let signed = body.len() > 0 && (body[0] == '+' || body[0] == '-');
        let digits = if signed {
            body.skip(1)
        } else {
            body
        };
        match unit_seconds(s.last()) {
            None => None,
            Some(unit) => if digits.len() == 0 || !all_digits(digits) {
                None
            } else if signed && body[0] == '-' && decimal(digits) > 0 {
                None
            } else if decimal(digits) * unit > i64::MAX {
                None
            } else {
                Some((decimal(digits) * unit) as i64)
            },
        }
    }
}

/// "7d", "12h", "30m", "2w" in seconds.
pub fn parse_duration_secs(s: &str) -> (r: Option<i64>)
    ensures
        r == duration_secs(s@),
{
    let v = chars_of(s);
    let n: usize = v.len();
    if n == 0 {
        return None;
    }
    let unit: u64 = match v[n - 1] {
        'm' => 60,
        'h' => 3600,
        'd' => 86_400,
        'w' => 604_800,
        _ => {
            return None;
        },
    };
    let body = sub_chars(&v, 0, n - 1);
    assert(body@ == v@.drop_last());
    let signed = body.len() > 0 && (body[0] == '+' || body[0] == '-');
    let from: usize = if signed {
        1
    } else {
        0
    };
    let digits = sub_chars(&body, from, body.len());
    assert(digits@ == if signed { body@.skip(1) } else { body@ });
    let ghost value = decimal(digits@);
    match parse_digits(&digits) {
        None => {
            assert(value > u64::MAX ==> value * unit > i64::MAX) by (nonlinear_arith)
                requires
                    unit >= 60,
            ;
            None
        },
        Some(count) => {
            if signed && body[0] == '-' && count > 0 {
                return None;
            }
            assert(value * unit == count * unit);
            match count.checked_mul(unit) {
                None => None,
                Some(total) => if total > 0x7fff_ffff_ffff_ffff {
                    None
                } else {
                    Some(total as i64)
                },
            }
        },
    }
}

/// The number part of a size and its unit in bytes.
pub open spec fn size_parts(lower: Seq<char>) -> (Seq<char>, nat) {
    if "gb"@.is_suffix_of(lower) {
        (lower.take(lower.len() - 2), 1_000_000_000)
    } else if "mb"@.is_suffix_of(lower) {
        (lower.take(lower.len() - 2), 1_000_000)
    } else if "kb"@.is_suffix_of(lower) {
        (lower.take(lower.len() - 2), 1_000)
    } else if "b"@.is_suffix_of(lower) {
        (lower.take(lower.len() - 1), 1)
    } else {
        (lower, 1)
    }
}

/// A size in bytes: a decimal number with an optional unit, computed in
/// double precision and truncated.
pub open spec fn size_bytes(s: Seq<char>) -> Option<u64> {
    let (digits, unit) = size_parts(ascii_lower_all(s));
    match read_number(digits) {
        Some(n) => n.scaled(unit),
        None => None,
    }
}

/// "100mb", "1.5gb", "200kb", "512b" in bytes.
pub fn parse_size_bytes(s: &str) -> (r: Option<u64>)
    ensures
        r == size_bytes(s@),
{
    let lower = lower_chars(&chars_of(s));
    proof {
        reveal_strlit("gb");
        reveal_strlit("mb");
        reveal_strlit("kb");
        reveal_strlit("b");
    }
    let n: usize = lower.len();
    let (end, unit): (usize, u64) = if ends_with(&lower, "gb") {
        (n - 2, 1_000_000_000)
    } else if ends_with(&lower, "mb") {
        (n - 2, 1_000_000)
    } else if ends_with(&lower, "kb") {
        (n - 2, 1_000)
    } else if ends_with(&lower, "b") {
        (n - 1, 1)
    } else {
        (n, 1)
    };
    let digits = sub_chars(&lower, 0, end);
    assert(digits@ == size_parts(lower@).0);
    scale_number(&digits, unit)
}

// ----------------------------------------------------------------- matching

/// Substring search up to the case of ASCII letters.
pub open spec fn contains_folded(hay: Seq<char>, needle: Seq<char>) -> bool {
    contains_text(ascii_lower_all(hay), ascii_lower_all(needle))
}

/// A file whose metadata the filters admit.
pub open spec fn meta_passes(f: FilterSet, meta: FileMeta) -> bool {
    &&& f.changed_after matches Some(after) ==> meta.mtime >= after
    &&& f.min_size matches Some(min) ==> meta.size >= min
    &&& f.max_size matches Some(max) ==> meta.size <= max
}

pub open spec fn is_dir_path(path: Seq<char>) -> bool {
    path.len() > 0 && path.last() == '/'
}

pub open spec fn has_terms(terms: Seq<Seq<char>>, path: Seq<char>) -> bool {
    forall|k: int| 0 <= k < terms.len() ==> contains_folded(path, #[trigger] terms[k])
}

/// A path that the filters admit: of the right type, with one of the
/// extensions where there are any, and with all of the path terms.
pub open spec fn path_passes(f: FilterSet, path: Seq<char>) -> bool {
    &&& is_dir_path(path) == f.dirs_only
    &&& f.exts.len() == 0 || ext_among(f.exts, path)
    &&& has_terms(f.path_terms, path)
}

/// Substring search that folds ASCII case.
pub fn contains_ignore_ascii_case(hay: &str, needle: &str) -> (r: bool)
    ensures
        r == contains_folded(hay@, needle@),
{
    let h = lower_chars(&chars_of(hay));
    let n = lower_chars(&chars_of(needle));
    find_from(&h, &n, 0).is_some()
}

/// Whether `path` contains every term, up to the case of ASCII letters.
pub fn contains_terms(terms: &Vec<String>, path: &str) -> (r: bool)
    ensures
        r == has_terms(texts(terms@), path@),
{
    let mut k: usize = 0;
    while k < terms.len()
        invariant
            k <= terms.len(),
            forall|j: int| 0 <= j < k ==> contains_folded(path@, #[trigger] texts(terms@)[j]),
        decreases terms.len() - k,
    {
        assert(texts(terms@)[k as int] == terms@[k as int]@);
        if !contains_ignore_ascii_case(path, &terms[k]) {
            return false;
        }
        k += 1;
    }
    true
}

pub fn is_dir(path: &str) -> (r: bool)
    ensures
        r == is_dir_path(path@),
{
    let v = chars_of(path);
    v.len() > 0 && v[v.len() - 1] == '/'
}

impl Filters {
    pub fn is_empty(&self) -> (r: bool)
        ensures
            r == (self@ == no_filters()),
    {
        let r = self.exts.is_empty() && self.path_terms.is_empty() && !self.dirs_only
            && self.changed_after.is_none() && self.min_size.is_none() && self.max_size.is_none();
        proof {
            assert(r ==> self@ =~= no_filters());
            assert(texts(self.exts@).len() == self.exts@.len());
            assert(texts(self.path_terms@).len() == self.path_terms@.len());
        }
        r
    }

    /// Metadata-side checks; pair with [`Filters::matches`] for the path side.
    pub fn matches_meta(&self, meta: &FileMeta) -> (r: bool)
        ensures
            r == meta_passes(self@, *meta),
    {
        if let Some(after) = self.changed_after {
            if meta.mtime < after {
                return false;
            }
        }
        if let Some(min) = self.min_size {
            if meta.size < min {
                return false;
            }
        }
        if let Some(max) = self.max_size {
            if meta.size > max {
                return false;
            }
        }
        true
    }

    pub fn matches(&self, path: &str) -> (r: bool)
        ensures
            r == path_passes(self@, path@),
    {
        if is_dir(path) != self.dirs_only {
            return false;
        }
        if !self.exts.is_empty() && !self.matches_ext(path) {
            return false;
        }
        assert(texts(self.exts@).len() == self.exts@.len());
        contains_terms(&self.path_terms, path)
    }

    fn matches_ext(&self, path: &str) -> (r: bool)
        ensures
            r == ext_among(self@.exts, path@),
    {
        match extension_of(path) {
            None => false,
            Some(e) => {
                let mut k: usize = 0;
                while k < self.exts.len()
                    invariant
                        k <= self.exts.len(),
                        extension(path@) == Some(e@),
                        forall|j: int|
                            0 <= j < k ==> !same_ignoring_case(e@, #[trigger] self@.exts[j]),
                    decreases self.exts.len() - k,
                {
                    assert(self@.exts[k as int] == self.exts@[k as int]@);
                    if eq_ignore_ascii_case(&e, &self.exts[k]) {
                        return true;
                    }
                    k += 1;
                }
                false
            },
        }
    }
}

// ------------------------------------------------------------------ parsing

/// The end of the token that holds position `i`.
pub open spec fn token_end(q: Seq<char>, i: int) -> int
    decreases q.len() - i,
{
    if 0 <= i < q.len() && !is_space(q[i]) {
        token_end(q, i + 1)
    } else {
        i
    }
}

/// The filters with one token added, or none where the token is no filter.
pub open spec fn with_token(f: FilterSet, token: Seq<char>, now: i64) -> Option<FilterSet> {
    if "ext:"@.is_prefix_of(token) {
        let ext = without_leading_dots(token.skip(4));
        Some(
            if ext.len() > 0 {
                FilterSet { exts: f.exts.push(ascii_lower_all(ext)), ..f }
            } else {
                f
            },
        )
    } else if "path:"@.is_prefix_of(token) {
        let term = token.skip(5);
        Some(
            if term.len() > 0 {
                FilterSet { path_terms: f.path_terms.push(ascii_lower_all(term)), ..f }
            } else {
                f
            },
        )
    } else if "kind:"@.is_prefix_of(token) {
        let kind = token.skip(5);
        if exists|k: int| kind_named(k, kind) {
            let k = choose|k: int| kind_named(k, kind);
            Some(FilterSet { exts: f.exts + kind_table()[k].1, ..f })
        } else {
            None
        }
    } else if "changed:"@.is_prefix_of(token) {
        match duration_secs(token.skip(8)) {
            Some(secs) => if now - secs >= i64::MIN {
                Some(FilterSet { changed_after: Some((now - secs) as i64), ..f })
            } else {
                None
            },
            None => None,
        }
    } else if "larger:"@.is_prefix_of(token) {
        match size_bytes(token.skip(7)) {
            Some(b) => Some(FilterSet { min_size: Some(b), ..f }),
            None => None,
        }
    } else if "smaller:"@.is_prefix_of(token) {
        match size_bytes(token.skip(8)) {
            Some(b) => Some(FilterSet { max_size: Some(b), ..f }),
            None => None,
        }
    } else if token == "dir:"@ {
        Some(FilterSet { dirs_only: true, ..f })
    } else {
        None
    }
}

proof fn lemma_kind_named_unique(a: int, b: int, name: Seq<char>)
    requires
        kind_named(a, name),
        kind_named(b, name),
    ensures
        a == b,
{
    if a < b {
        assert(!same_ignoring_case(kind_table()[a].0, name));
    } else if b < a {
        assert(!same_ignoring_case(kind_table()[b].0, name));
    }
}

fn push_text(v: &mut Vec<String>, s: String)
    ensures
        texts(final(v)@) == texts(old(v)@).push(s@),
{
    proof {
        lemma_texts_push(v@, s);
    }
    v.push(s);
}

fn push_lower(v: &mut Vec<String>, s: &[char])
    ensures
        texts(final(v)@) == texts(old(v)@).push(ascii_lower_all(s@)),
{
    let lower = lower_chars(s);
    push_text(v, string_of(&lower));
}

fn add_kind(v: &mut Vec<String>, k: usize)
    requires
        k < kind_table().len(),
    ensures
        texts(final(v)@) == texts(old(v)@) + kind_table()[k as int].1,
{
    let exts = kind_exts(k);
    let mut j: usize = 0;
    while j < exts.len()
        invariant
            j <= exts.len(),
            texts(v@) == texts(old(v)@) + str_texts(exts@).take(j as int),
        decreases exts.len() - j,
    {
        push_text(v, exts[j].to_owned());
        j += 1;
        assert(texts(v@) =~= texts(old(v)@) + str_texts(exts@).take(j as int));
    }
    assert(str_texts(exts@).take(j as int) == str_texts(exts@));
}

impl Filters {
    /// Adds one token of a query; the result says whether it was a filter.
    fn add_token(&mut self, token: &[char], now: i64) -> (removed: bool)
        ensures
            match with_token(old(self)@, token@, now) {
                Some(f) => removed && final(self)@ == f,
                None => !removed && final(self)@ == old(self)@,
            },
    {
        proof {
            reveal_strlit("ext:");
            reveal_strlit("path:");
            reveal_strlit("kind:");
            reveal_strlit("changed:");
            reveal_strlit("larger:");
            reveal_strlit("smaller:");
            reveal_strlit("dir:");
        }
        let n: usize = token.len();
        if starts_with(token, "ext:") {
            let from = dots_end(token, 4);
            if from < n {
                let ext = sub_chars(token, from, n);
                assert(ext@ == token@.skip(from as int));
                push_lower(&mut self.exts, &ext);
            }
            return true;
        }
        if starts_with(token, "path:") {
            if n > 5 {
                let term = sub_chars(token, 5, n);
                assert(term@ == token@.skip(5));
                push_lower(&mut self.path_terms, &term);
            }
            return true;
        }
        if starts_with(token, "kind:") {
            let kind = string_of_range(token, 5, n);
            assert(kind@ == token@.skip(5));
            match find_kind(&kind) {
                Some(k) => {
                    proof {
                        let c = choose|k: int| kind_named(k, kind@);
                        lemma_kind_named_unique(k as int, c, kind@);
                    }
                    add_kind(&mut self.exts, k);
                    return true;
                },
                None => {
                    return false;
                },
            }
        }
        if starts_with(token, "changed:") {
            let text = string_of_range(token, 8, n);
            assert(text@ == token@.skip(8));
            match parse_duration_secs(&text) {
                Some(secs) => match now.checked_sub(secs) {
                    Some(after) => {
                        self.changed_after = Some(after);
                        return true;
                    },
                    None => {
                        return false;
                    },
                },
                None => {
                    return false;
                },
            }
        }
        if starts_with(token, "larger:") {
            let text = string_of_range(token, 7, n);
            assert(text@ == token@.skip(7));
            match parse_size_bytes(&text) {
                Some(b) => {
                    self.min_size = Some(b);
                    return true;
                },
                None => {
                    return false;
                },
            }
        }
        if starts_with(token, "smaller:") {
            let text = string_of_range(token, 8, n);
            assert(text@ == token@.skip(8));
            match parse_size_bytes(&text) {
                Some(b) => {
                    self.max_size = Some(b);
                    return true;
                },
                None => {
                    return false;
                },
            }
        }
        if same_chars(token, &chars_of("dir:")) {
            self.dirs_only = true;
            return true;
        }
        false
    }
}

/// A token that starts inside the query is not empty.
pub proof fn lemma_token_bounds(q: Seq<char>, cursor: int)
    requires
        0 <= cursor <= q.len(),
    ensures
        ({
            let start = skip_spaces(q, cursor);
            let end = token_end(q, start);
            &&& cursor <= start <= end <= q.len()
            &&& start < q.len() ==> start < end
        }),
{
    lemma_span_bounds(q, cursor);
    lemma_span_bounds(q, skip_spaces(q, cursor));
}

proof fn lemma_span_bounds(q: Seq<char>, cursor: int)
    requires
        0 <= cursor <= q.len(),
    ensures
        cursor <= skip_spaces(q, cursor) <= q.len(),
        skip_spaces(q, cursor) < q.len() ==> !is_space(q[skip_spaces(q, cursor)]),
        cursor <= token_end(q, cursor) <= q.len(),
        cursor < q.len() && !is_space(q[cursor]) ==> cursor < token_end(q, cursor),
    decreases q.len() - cursor,
{
    if cursor < q.len() {
        lemma_span_bounds(q, cursor + 1);
    }
}

/// Parsing from position `cursor` on, after the filters `f` and the pattern
/// text `rest`; `removed` says whether the token before was a filter.
pub open spec fn parse_from(
    q: Seq<char>,
    now: i64,
    cursor: int,
    f: FilterSet,
    rest: Seq<char>,
    removed: bool,
) -> (FilterSet, Seq<char>)
    decreases q.len() - cursor,
    when 0 <= cursor <= q.len()
{
    let start = skip_spaces(q, cursor);
    let end = token_end(q, start);
    proof {
        lemma_token_bounds(q, cursor);
    }
    if start >= q.len() {
        (
            f,
            if removed {
                rest
            } else {
                rest + q.skip(cursor)
            },
        )
    } else {
        let token = q.subrange(start, end);
        match with_token(f, token, now) {
            Some(g) => parse_from(q, now, end, g, rest, true),
            None => {
                let gap = if !removed {
                    q.subrange(cursor, start)
                } else if rest.len() > 0 {
                    seq![' ']
                } else {
                    Seq::empty()
                };
                parse_from(q, now, end, f, rest + gap + token, false)
            },
        }
    }
}

/// The filters of a query and the pattern text that is left.
pub open spec fn parsed(q: Seq<char>, now: i64) -> (FilterSet, Seq<char>) {
    parse_from(q, now, 0, no_filters(), Seq::empty(), false)
}

fn find_token(q: &[char], from: usize) -> (r: usize)
    requires
        from <= q.len(),
    ensures
        r == skip_spaces(q@, from as int),
        from <= r <= q.len(),
        r < q.len() ==> !is_space(q@[r as int]),
{
    let mut i: usize = from;
    while i < q.len() && char_is_space(q[i])
        invariant
            from <= i <= q.len(),
            skip_spaces(q@, from as int) == skip_spaces(q@, i as int),
        decreases q.len() - i,
    {
        i += 1;
    }
    i
}

fn find_token_end(q: &[char], from: usize) -> (r: usize)
    requires
        from <= q.len(),
    ensures
        r == token_end(q@, from as int),
        from <= r <= q.len(),
        from < q.len() && !is_space(q@[from as int]) ==> from < r,
{
    let mut i: usize = from;
    while i < q.len() && !char_is_space(q[i])
        invariant
            from <= i <= q.len(),
            token_end(q@, from as int) == token_end(q@, i as int),
        decreases q.len() - i,
    {
        i += 1;
    }
    i
}

/// Splits filter tokens out of a query; returns the filters and the remaining
/// pattern text. Whitespace is preserved except around removed filter tokens;
/// separated pattern fragments are joined with one space. `now` (unix
/// seconds) anchors relative dates.
pub fn parse(query: &str, now: i64) -> (r: (Filters, String))
    ensures
        (r.0@, r.1@) == parsed(query@, now),
{
    let q = chars_of(query);
    let mut filters = Filters::default();
    assert(q@ == query@);
    let mut rest: String = String::new();
    let mut rest_empty = true;
    let mut cursor: usize = 0;
    let mut removed_previous = false;
    loop
        invariant_except_break
            cursor <= q.len(),
            rest_empty == (rest@.len() == 0),
            parse_from(q@, now, cursor as int, filters@, rest@, removed_previous) == parsed(q@, now),
        ensures
            (filters@, rest@) == parsed(q@, now),
        decreases q.len() - cursor,
    {
        let start = find_token(&q, cursor);
        let end = find_token_end(&q, start);
        if start >= q.len() {
            if !removed_previous {
                push_range(&mut rest, &q, cursor, q.len());
                assert(q@.subrange(cursor as int, q@.len() as int) == q@.skip(cursor as int));
            }
            break;
        }
        let token = sub_chars(&q, start, end);
        let removed = filters.add_token(&token, now);
        if !removed {
            let ghost before = rest@;
            if !removed_previous {
                push_range(&mut rest, &q, cursor, start);
            } else if !rest_empty {
                rest.push(' ');
            }
            push_range(&mut rest, &q, start, end);
            rest_empty = false;
            proof {
                let gap = if !removed_previous {
                    q@.subrange(cursor as int, start as int)
                } else if before.len() > 0 {
                    seq![' ']
                } else {
                    Seq::empty()
                };
                assert(rest@ =~= before + gap + token@);
            }
        }
        removed_previous = removed;
        cursor = end;
    }
    (filters, rest)
}

/// No token of `q` from `cursor` on is a filter.
pub open spec fn only_pattern(q: Seq<char>, now: i64, cursor: int) -> bool
    decreases q.len() - cursor,
    when 0 <= cursor <= q.len()
{
    let start = skip_spaces(q, cursor);
    let end = token_end(q, start);
    proof {
        lemma_token_bounds(q, cursor);
    }
    start >= q.len() || (with_token(no_filters(), q.subrange(start, end), now) is None
        && only_pattern(q, now, end))
}

proof fn lemma_token_effect(f: FilterSet, g: FilterSet, token: Seq<char>, now: i64)
    ensures
        (with_token(f, token, now) is None) == (with_token(g, token, now) is None),
{
}

proof fn lemma_pattern_kept(q: Seq<char>, now: i64, cursor: int, f: FilterSet, rest: Seq<char>)
    requires
        0 <= cursor <= q.len(),
        only_pattern(q, now, cursor),
    ensures
        parse_from(q, now, cursor, f, rest, false) == (f, rest + q.skip(cursor)),
    decreases q.len() - cursor,
{
    let start = skip_spaces(q, cursor);
    lemma_token_bounds(q, cursor);
    let end = token_end(q, start);
    if start < q.len() {
        let token = q.subrange(start, end);
        lemma_token_effect(f, no_filters(), token, now);
        let more = rest + q.subrange(cursor, start) + token;
        lemma_pattern_kept(q, now, end, f, more);
        assert(more + q.skip(end) =~= rest + q.skip(cursor));
    }
}

/// A query without filter tokens is all pattern: it comes back unchanged,
/// with no filters.
pub proof fn plain_query_is_kept(q: Seq<char>, now: i64)
    requires
        only_pattern(q, now, 0),
    ensures
        parsed(q, now) == (no_filters(), q),
{
    lemma_pattern_kept(q, now, 0, no_filters(), Seq::empty());
    assert(Seq::<char>::empty() + q.skip(0) =~= q);
}

/// Scanning a longer text finds the same ends inside its first part.
proof fn lemma_scan_append(a: Seq<char>, b: Seq<char>, c: int)
    requires
        0 <= c <= a.len(),
    ensures
        ({
            let (s, e) = (skip_spaces(a, c), token_end(a, c));
            &&& s < a.len() ==> skip_spaces(a + b, c) == s
            &&& s >= a.len() ==> skip_spaces(a + b, c) == skip_spaces(a + b, a.len() as int)
            &&& e < a.len() || b.len() == 0 || is_space(b[0]) ==> token_end(a + b, c) == e
        }),
    decreases a.len() - c,
{
    if c < a.len() {
        assert((a + b)[c] == a[c]);
        lemma_scan_append(a, b, c + 1);
    } else if b.len() > 0 {
        assert((a + b)[c] == b[0]);
    }
}

/// Scanning the second part of a text is like scanning that part alone.
proof fn lemma_scan_shift(a: Seq<char>, b: Seq<char>, k: int)
    requires
        0 <= k <= b.len(),
    ensures
        skip_spaces(a + b, a.len() + k) == a.len() + skip_spaces(b, k),
        token_end(a + b, a.len() + k) == a.len() + token_end(b, k),
    decreases b.len() - k,
{
    if k < b.len() {
        assert((a + b)[a.len() + k] == b[k]);
        lemma_scan_shift(a, b, k + 1);
    }
}

proof fn lemma_pattern_shift(a: Seq<char>, b: Seq<char>, now: i64, k: int)
    requires
        0 <= k <= b.len(),
        only_pattern(b, now, k),
    ensures
        only_pattern(a + b, now, a.len() + k),
    decreases b.len() - k,
{
    lemma_token_bounds(b, k);
    let start = skip_spaces(b, k);
    let end = token_end(b, start);
    lemma_scan_shift(a, b, k);
    lemma_scan_shift(a, b, start);
    if start < b.len() {
        assert((a + b).subrange(a.len() + start, a.len() + end) =~= b.subrange(start, end));
        lemma_pattern_shift(a, b, now, end);
    }
}

/// Patterns that are set apart make one pattern.
proof fn lemma_pattern_append(a: Seq<char>, b: Seq<char>, now: i64, c: int)
    requires
        0 <= c <= a.len(),
        only_pattern(a, now, c),
        only_pattern(b, now, 0),
        a.len() == 0 || b.len() == 0 || is_space(b[0]),
    ensures
        only_pattern(a + b, now, c),
    decreases a.len() - c,
{
    lemma_token_bounds(a, c);
    let start = skip_spaces(a, c);
    let end = token_end(a, start);
    lemma_scan_append(a, b, c);
    lemma_token_bounds(a + b, c);
    if start < a.len() {
        lemma_scan_append(a, b, start);
        assert((a + b).subrange(start, end) =~= a.subrange(start, end));
        lemma_pattern_append(a, b, now, end);
    } else {
        lemma_pattern_shift(a, b, now, 0);
        lemma_token_bounds(a + b, a.len() as int);
    }
}

/// A token behind spaces is a pattern where it is no filter.
proof fn lemma_pattern_token(gap: Seq<char>, token: Seq<char>, now: i64)
    requires
        forall|i: int| 0 <= i < gap.len() ==> is_space(#[trigger] gap[i]),
        forall|i: int| 0 <= i < token.len() ==> !is_space(#[trigger] token[i]),
        token.len() > 0,
        with_token(no_filters(), token, now) is None,
    ensures
        only_pattern(gap + token, now, 0),
{
    let s = gap + token;
    lemma_spaces_skipped(gap, 0);
    lemma_token_whole(token, 0);
    lemma_scan_append(gap, token, 0);
    lemma_scan_shift(gap, token, 0);
    assert(!is_space(token[0]));
    assert(skip_spaces(token, 0) == 0);
    assert(s.subrange(gap.len() as int, s.len() as int) =~= token);
    assert(only_pattern(s, now, s.len() as int));
}

proof fn lemma_spaces_skipped(s: Seq<char>, c: int)
    requires
        0 <= c <= s.len(),
        forall|i: int| c <= i < s.len() ==> is_space(#[trigger] s[i]),
    ensures
        skip_spaces(s, c) == s.len(),
    decreases s.len() - c,
{
    if c < s.len() {
        lemma_spaces_skipped(s, c + 1);
    }
}

proof fn lemma_token_whole(s: Seq<char>, c: int)
    requires
        0 <= c <= s.len(),
        forall|i: int| c <= i < s.len() ==> !is_space(#[trigger] s[i]),
    ensures
        token_end(s, c) == s.len(),
    decreases s.len() - c,
{
    if c < s.len() {
        lemma_token_whole(s, c + 1);
    }
}

/// What lies before the next token is space, and a token holds none.
proof fn lemma_scanned(q: Seq<char>, c: int)
    requires
        0 <= c <= q.len(),
    ensures
        forall|i: int| c <= i < skip_spaces(q, c) ==> is_space(#[trigger] q[i]),
        forall|i: int| c <= i < token_end(q, c) ==> !is_space(#[trigger] q[i]),
        token_end(q, c) < q.len() ==> is_space(q[token_end(q, c)]),
    decreases q.len() - c,
{
    if c < q.len() {
        lemma_scanned(q, c + 1);
    }
}

proof fn lemma_rest_is_pattern(
    q: Seq<char>,
    now: i64,
    cursor: int,
    f: FilterSet,
    rest: Seq<char>,
    removed: bool,
)
    requires
        0 <= cursor <= q.len(),
        only_pattern(rest, now, 0),
        rest.len() == 0 || cursor == q.len() || is_space(q[cursor]),
    ensures
        only_pattern(parse_from(q, now, cursor, f, rest, removed).1, now, 0),
    decreases q.len() - cursor,
{
    let start = skip_spaces(q, cursor);
    let end = token_end(q, start);
    lemma_token_bounds(q, cursor);
    lemma_scanned(q, cursor);
    lemma_scanned(q, start);
    if start >= q.len() {
        let tail = q.skip(cursor);
        lemma_spaces_skipped(tail, 0);
        lemma_pattern_append(rest, tail, now, 0);
    } else {
        let token = q.subrange(start, end);
        match with_token(f, token, now) {
            Some(g) => {
                lemma_rest_is_pattern(q, now, end, g, rest, true);
            },
            None => {
                let gap = if !removed {
                    q.subrange(cursor, start)
                } else if rest.len() > 0 {
                    seq![' ']
                } else {
                    Seq::empty()
                };
                lemma_token_effect(f, no_filters(), token, now);
                lemma_pattern_token(gap, token, now);
                if rest.len() > 0 {
                    if !removed {
                        assert(start > cursor);
                        assert(gap[0] == q[cursor]);
                    }
                    assert((gap + token)[0] == gap[0]);
                }
                lemma_pattern_append(rest, gap + token, now, 0);
                assert(rest + gap + token =~= rest + (gap + token));
                lemma_rest_is_pattern(q, now, end, f, rest + gap + token, false);
            },
        }
    }
}

/// Every filter of a query is taken out of it: reading what is left again finds
/// no filter and leaves it as it is.
pub proof fn filters_are_taken_out(q: Seq<char>, now: i64)
    ensures
        only_pattern(parsed(q, now).1, now, 0),
        parsed(parsed(q, now).1, now) == (no_filters(), parsed(q, now).1),
{
    lemma_rest_is_pattern(q, now, 0, no_filters(), Seq::empty(), false);
    plain_query_is_kept(parsed(q, now).1, now);
}

/// The characters of a short text as digits in base 256, the first one lowest.
spec fn text_number(s: Seq<char>) -> int {
    digit_at(s, 0) + 0x100 * digit_at(s, 1) + 0x1_0000 * digit_at(s, 2) + 0x100_0000 * digit_at(s, 3)
        + 0x1_0000_0000 * digit_at(s, 4) + 0x100_0000_0000 * digit_at(s, 5) + 0x1_0000_0000_0000
        * digit_at(s, 6)
}

spec fn digit_at(s: Seq<char>, i: int) -> int {
    if i < s.len() {
        s[i] as int
    } else {
        0
    }
}

/// The kind of an extension, found by its number.
spec fn kind_of_number(n: int) -> int {
    if n == 0x676e70 || n == 0x67706a || n == 0x6765706a || n == 0x666967
        || n == 0x70626577 || n == 0x666974 || n == 0x66666974 || n == 0x706d62
        || n == 0x63696568 || n == 0x677673 || n == 0x6f6369 {
        0
    } else if n == 0x34706d || n == 0x766f6d || n == 0x766b6d || n == 0x697661 || n == 0x6d626577
        || n == 0x76346d {
        1
    } else if n == 0x33706d || n == 0x766177 || n == 0x63616c66 || n == 0x61346d || n == 0x636161
        || n == 0x67676f {
        2
    } else if n == 0x666470 || n == 0x636f64 || n == 0x78636f64 || n == 0x736c78
        || n == 0x78736c78 || n == 0x747070 || n == 0x78747070 || n == 0x7365676170
        || n == 0x79656b || n == 0x737265626d756e || n == 0x646d || n == 0x747874
        || n == 0x667472 {
        3
    } else if n == 0x7372 || n == 0x7970 || n == 0x736a || n == 0x7374 || n == 0x787374
        || n == 0x78736a || n == 0x6f67 || n == 0x63 || n == 0x68 || n == 0x707063
        || n == 0x707068 || n == 0x6176616a || n == 0x6272 || n == 0x6873
        || n == 0x7466697773 || n == 0x746b || n == 0x61756c || n == 0x6c7173
        || n == 0x6c6d7468 || n == 0x737363 || n == 0x6c6d6f74 || n == 0x6c6d6179
        || n == 0x6c6d79 || n == 0x6e6f736a {
        4
    } else if n == 0x707061 {
        5
    } else if n == 0x70697a || n == 0x726174 || n == 0x7a67 || n == 0x7a6774 || n == 0x327a62
        || n == 0x7a78 || n == 0x7a37 || n == 0x726172 || n == 0x676d64 {
        6
    } else {
        -1
    }
}

/// An extension in lower case with the number of its kind.
#[verifier::opaque]
spec fn is_numbered(k: int, ext: Seq<char>) -> bool {
    ext == ascii_lower_all(ext) && kind_of_number(text_number(ext)) == k
}

#[verifier::spinoff_prover]
proof fn lemma_image_exts()
    ensures
        forall|j: int|
            0 <= j < kind_table()[0].1.len() ==> is_numbered(0, #[trigger] kind_table()[0].1[j]),
{
    assert(is_numbered(0, "png"@)) by {
        reveal(is_numbered);
        reveal_strlit("png");
        assert("png"@ =~= ascii_lower_all("png"@));
    }
    assert(is_numbered(0, "jpg"@)) by {
        reveal(is_numbered);
        reveal_strlit("jpg");
        assert("jpg"@ =~= ascii_lower_all("jpg"@));
    }
    assert(is_numbered(0, "jpeg"@)) by {
        reveal(is_numbered);
        reveal_strlit("jpeg");
        assert("jpeg"@ =~= ascii_lower_all("jpeg"@));
    }
    assert(is_numbered(0, "gif"@)) by {
        reveal(is_numbered);
        reveal_strlit("gif");
        assert("gif"@ =~= ascii_lower_all("gif"@));
    }
    assert(is_numbered(0, "webp"@)) by {
        reveal(is_numbered);
        reveal_strlit("webp");
        assert("webp"@ =~= ascii_lower_all("webp"@));
    }
    assert(is_numbered(0, "tif"@)) by {
        reveal(is_numbered);
        reveal_strlit("tif");
        assert("tif"@ =~= ascii_lower_all("tif"@));
    }
    assert(is_numbered(0, "tiff"@)) by {
        reveal(is_numbered);
        reveal_strlit("tiff");
        assert("tiff"@ =~= ascii_lower_all("tiff"@));
    }
    assert(is_numbered(0, "bmp"@)) by {
        reveal(is_numbered);
        reveal_strlit("bmp");
        assert("bmp"@ =~= ascii_lower_all("bmp"@));
    }
    assert(is_numbered(0, "heic"@)) by {
        reveal(is_numbered);
        reveal_strlit("heic");
        assert("heic"@ =~= ascii_lower_all("heic"@));
    }
    assert(is_numbered(0, "svg"@)) by {
        reveal(is_numbered);
        reveal_strlit("svg");
        assert("svg"@ =~= ascii_lower_all("svg"@));
    }
    assert(is_numbered(0, "ico"@)) by {
        reveal(is_numbered);
        reveal_strlit("ico");
        assert("ico"@ =~= ascii_lower_all("ico"@));
    }
}

#[verifier::spinoff_prover]
proof fn lemma_video_exts()
    ensures
        forall|j: int|
            0 <= j < kind_table()[1].1.len() ==> is_numbered(1, #[trigger] kind_table()[1].1[j]),
{
    assert(is_numbered(1, "mp4"@)) by {
        reveal(is_numbered);
        reveal_strlit("mp4");
        assert("mp4"@ =~= ascii_lower_all("mp4"@));
    }
    assert(is_numbered(1, "mov"@)) by {
        reveal(is_numbered);
        reveal_strlit("mov");
        assert("mov"@ =~= ascii_lower_all("mov"@));
    }
    assert(is_numbered(1, "mkv"@)) by {
        reveal(is_numbered);
        reveal_strlit("mkv");
        assert("mkv"@ =~= ascii_lower_all("mkv"@));
    }
    assert(is_numbered(1, "avi"@)) by {
        reveal(is_numbered);
        reveal_strlit("avi");
        assert("avi"@ =~= ascii_lower_all("avi"@));
    }
    assert(is_numbered(1, "webm"@)) by {
        reveal(is_numbered);
        reveal_strlit("webm");
        assert("webm"@ =~= ascii_lower_all("webm"@));
    }
    assert(is_numbered(1, "m4v"@)) by {
        reveal(is_numbered);
        reveal_strlit("m4v");
        assert("m4v"@ =~= ascii_lower_all("m4v"@));
    }
}

#[verifier::spinoff_prover]
proof fn lemma_audio_exts()
    ensures
        forall|j: int|
            0 <= j < kind_table()[2].1.len() ==> is_numbered(2, #[trigger] kind_table()[2].1[j]),
{
    assert(is_numbered(2, "mp3"@)) by {
        reveal(is_numbered);
        reveal_strlit("mp3");
        assert("mp3"@ =~= ascii_lower_all("mp3"@));
    }
    assert(is_numbered(2, "wav"@)) by {
        reveal(is_numbered);
        reveal_strlit("wav");
        assert("wav"@ =~= ascii_lower_all("wav"@));
    }
    assert(is_numbered(2, "flac"@)) by {
        reveal(is_numbered);
        reveal_strlit("flac");
        assert("flac"@ =~= ascii_lower_all("flac"@));
    }
    assert(is_numbered(2, "m4a"@)) by {
        reveal(is_numbered);
        reveal_strlit("m4a");
        assert("m4a"@ =~= ascii_lower_all("m4a"@));
    }
    assert(is_numbered(2, "aac"@)) by {
        reveal(is_numbered);
        reveal_strlit("aac");
        assert("aac"@ =~= ascii_lower_all("aac"@));
    }
    assert(is_numbered(2, "ogg"@)) by {
        reveal(is_numbered);
        reveal_strlit("ogg");
        assert("ogg"@ =~= ascii_lower_all("ogg"@));
    }
}

#[verifier::spinoff_prover]
proof fn lemma_doc_exts_a()
    ensures
        is_numbered(3, "pdf"@),
        is_numbered(3, "doc"@),
        is_numbered(3, "docx"@),
        is_numbered(3, "xls"@),
        is_numbered(3, "xlsx"@),
        is_numbered(3, "ppt"@),
{
    assert(is_numbered(3, "pdf"@)) by {
        reveal(is_numbered);
        reveal_strlit("pdf");
        assert("pdf"@ =~= ascii_lower_all("pdf"@));
    }
    assert(is_numbered(3, "doc"@)) by {
        reveal(is_numbered);
        reveal_strlit("doc");
        assert("doc"@ =~= ascii_lower_all("doc"@));
    }
    assert(is_numbered(3, "docx"@)) by {
        reveal(is_numbered);
        reveal_strlit("docx");
        assert("docx"@ =~= ascii_lower_all("docx"@));
    }
    assert(is_numbered(3, "xls"@)) by {
        reveal(is_numbered);
        reveal_strlit("xls");
        assert("xls"@ =~= ascii_lower_all("xls"@));
    }
    assert(is_numbered(3, "xlsx"@)) by {
        reveal(is_numbered);
        reveal_strlit("xlsx");
        assert("xlsx"@ =~= ascii_lower_all("xlsx"@));
    }
    assert(is_numbered(3, "ppt"@)) by {
        reveal(is_numbered);
        reveal_strlit("ppt");
        assert("ppt"@ =~= ascii_lower_all("ppt"@));
    }
}

#[verifier::spinoff_prover]
proof fn lemma_doc_exts_b()
    ensures
        is_numbered(3, "pptx"@),
        is_numbered(3, "pages"@),
        is_numbered(3, "key"@),
        is_numbered(3, "numbers"@),
        is_numbered(3, "md"@),
        is_numbered(3, "txt"@),
{
    assert(is_numbered(3, "pptx"@)) by {
        reveal(is_numbered);
        reveal_strlit("pptx");
        assert("pptx"@ =~= ascii_lower_all("pptx"@));
    }
    assert(is_numbered(3, "pages"@)) by {
        reveal(is_numbered);
        reveal_strlit("pages");
        assert("pages"@ =~= ascii_lower_all("pages"@));
    }
    assert(is_numbered(3, "key"@)) by {
        reveal(is_numbered);
        reveal_strlit("key");
        assert("key"@ =~= ascii_lower_all("key"@));
    }
    assert(is_numbered(3, "numbers"@)) by {
        reveal(is_numbered);
        reveal_strlit("numbers");
        assert("numbers"@ =~= ascii_lower_all("numbers"@));
    }
    assert(is_numbered(3, "md"@)) by {
        reveal(is_numbered);
        reveal_strlit("md");
        assert("md"@ =~= ascii_lower_all("md"@));
    }
    assert(is_numbered(3, "txt"@)) by {
        reveal(is_numbered);
        reveal_strlit("txt");
        assert("txt"@ =~= ascii_lower_all("txt"@));
    }
}

#[verifier::spinoff_prover]
proof fn lemma_doc_exts_c()
    ensures
        is_numbered(3, "rtf"@),
{
    assert(is_numbered(3, "rtf"@)) by {
        reveal(is_numbered);
        reveal_strlit("rtf");
        assert("rtf"@ =~= ascii_lower_all("rtf"@));
    }
}

#[verifier::spinoff_prover]
proof fn lemma_doc_exts()
    ensures
        forall|j: int|
            0 <= j < kind_table()[3].1.len() ==> is_numbered(3, #[trigger] kind_table()[3].1[j]),
{
    lemma_doc_exts_a();
    lemma_doc_exts_b();
    lemma_doc_exts_c();
}

#[verifier::spinoff_prover]
proof fn lemma_code_exts_a()
    ensures
        is_numbered(4, "rs"@),
        is_numbered(4, "py"@),
        is_numbered(4, "js"@),
        is_numbered(4, "ts"@),
        is_numbered(4, "tsx"@),
        is_numbered(4, "jsx"@),
{
    assert(is_numbered(4, "rs"@)) by {
        reveal(is_numbered);
        reveal_strlit("rs");
        assert("rs"@ =~= ascii_lower_all("rs"@));
    }
    assert(is_numbered(4, "py"@)) by {
        reveal(is_numbered);
        reveal_strlit("py");
        assert("py"@ =~= ascii_lower_all("py"@));
    }
    assert(is_numbered(4, "js"@)) by {
        reveal(is_numbered);
        reveal_strlit("js");
        assert("js"@ =~= ascii_lower_all("js"@));
    }
    assert(is_numbered(4, "ts"@)) by {
        reveal(is_numbered);
        reveal_strlit("ts");
        assert("ts"@ =~= ascii_lower_all("ts"@));
    }
    assert(is_numbered(4, "tsx"@)) by {
        reveal(is_numbered);
        reveal_strlit("tsx");
        assert("tsx"@ =~= ascii_lower_all("tsx"@));
    }
    assert(is_numbered(4, "jsx"@)) by {
        reveal(is_numbered);
        reveal_strlit("jsx");
        assert("jsx"@ =~= ascii_lower_all("jsx"@));
    }
}

#[verifier::spinoff_prover]
proof fn lemma_code_exts_b()
    ensures
        is_numbered(4, "go"@),
        is_numbered(4, "c"@),
        is_numbered(4, "h"@),
        is_numbered(4, "cpp"@),
        is_numbered(4, "hpp"@),
        is_numbered(4, "java"@),
{
    assert(is_numbered(4, "go"@)) by {
        reveal(is_numbered);
        reveal_strlit("go");
        assert("go"@ =~= ascii_lower_all("go"@));
    }
    assert(is_numbered(4, "c"@)) by {
        reveal(is_numbered);
        reveal_strlit("c");
        assert("c"@ =~= ascii_lower_all("c"@));
    }
    assert(is_numbered(4, "h"@)) by {
        reveal(is_numbered);
        reveal_strlit("h");
        assert("h"@ =~= ascii_lower_all("h"@));
    }
    assert(is_numbered(4, "cpp"@)) by {
        reveal(is_numbered);
        reveal_strlit("cpp");
        assert("cpp"@ =~= ascii_lower_all("cpp"@));
    }
    assert(is_numbered(4, "hpp"@)) by {
        reveal(is_numbered);
        reveal_strlit("hpp");
        assert("hpp"@ =~= ascii_lower_all("hpp"@));
    }
    assert(is_numbered(4, "java"@)) by {
        reveal(is_numbered);
        reveal_strlit("java");
        assert("java"@ =~= ascii_lower_all("java"@));
    }
}

#[verifier::spinoff_prover]
proof fn lemma_code_exts_c()
    ensures
        is_numbered(4, "rb"@),
        is_numbered(4, "sh"@),
        is_numbered(4, "swift"@),
        is_numbered(4, "kt"@),
        is_numbered(4, "lua"@),
        is_numbered(4, "sql"@),
{
    assert(is_numbered(4, "rb"@)) by {
        reveal(is_numbered);
        reveal_strlit("rb");
        assert("rb"@ =~= ascii_lower_all("rb"@));
    }
    assert(is_numbered(4, "sh"@)) by {
        reveal(is_numbered);
        reveal_strlit("sh");
        assert("sh"@ =~= ascii_lower_all("sh"@));
    }
    assert(is_numbered(4, "swift"@)) by {
        reveal(is_numbered);
        reveal_strlit("swift");
        assert("swift"@ =~= ascii_lower_all("swift"@));
    }
    assert(is_numbered(4, "kt"@)) by {
        reveal(is_numbered);
        reveal_strlit("kt");
        assert("kt"@ =~= ascii_lower_all("kt"@));
    }
    assert(is_numbered(4, "lua"@)) by {
        reveal(is_numbered);
        reveal_strlit("lua");
        assert("lua"@ =~= ascii_lower_all("lua"@));
    }
    assert(is_numbered(4, "sql"@)) by {
        reveal(is_numbered);
        reveal_strlit("sql");
        assert("sql"@ =~= ascii_lower_all("sql"@));
    }
}

#[verifier::spinoff_prover]
proof fn lemma_code_exts_d()
    ensures
        is_numbered(4, "html"@),
        is_numbered(4, "css"@),
        is_numbered(4, "toml"@),
        is_numbered(4, "yaml"@),
        is_numbered(4, "yml"@),
        is_numbered(4, "json"@),
{
    assert(is_numbered(4, "html"@)) by {
        reveal(is_numbered);
        reveal_strlit("html");
        assert("html"@ =~= ascii_lower_all("html"@));
    }
    assert(is_numbered(4, "css"@)) by {
        reveal(is_numbered);
        reveal_strlit("css");
        assert("css"@ =~= ascii_lower_all("css"@));
    }
    assert(is_numbered(4, "toml"@)) by {
        reveal(is_numbered);
        reveal_strlit("toml");
        assert("toml"@ =~= ascii_lower_all("toml"@));
    }
    assert(is_numbered(4, "yaml"@)) by {
        reveal(is_numbered);
        reveal_strlit("yaml");
        assert("yaml"@ =~= ascii_lower_all("yaml"@));
    }
    assert(is_numbered(4, "yml"@)) by {
        reveal(is_numbered);
        reveal_strlit("yml");
        assert("yml"@ =~= ascii_lower_all("yml"@));
    }
    assert(is_numbered(4, "json"@)) by {
        reveal(is_numbered);
        reveal_strlit("json");
        assert("json"@ =~= ascii_lower_all("json"@));
    }
}

#[verifier::spinoff_prover]
proof fn lemma_code_exts()
    ensures
        forall|j: int|
            0 <= j < kind_table()[4].1.len() ==> is_numbered(4, #[trigger] kind_table()[4].1[j]),
{
    lemma_code_exts_a();
    lemma_code_exts_b();
    lemma_code_exts_c();
    lemma_code_exts_d();
}

#[verifier::spinoff_prover]
proof fn lemma_app_exts()
    ensures
        forall|j: int|
            0 <= j < kind_table()[5].1.len() ==> is_numbered(5, #[trigger] kind_table()[5].1[j]),
{
    assert(is_numbered(5, "app"@)) by {
        reveal(is_numbered);
        reveal_strlit("app");
        assert("app"@ =~= ascii_lower_all("app"@));
    }
}

#[verifier::spinoff_prover]
proof fn lemma_archive_exts()
    ensures
        forall|j: int|
            0 <= j < kind_table()[6].1.len() ==> is_numbered(6, #[trigger] kind_table()[6].1[j]),
{
    assert(is_numbered(6, "zip"@)) by {
        reveal(is_numbered);
        reveal_strlit("zip");
        assert("zip"@ =~= ascii_lower_all("zip"@));
    }
    assert(is_numbered(6, "tar"@)) by {
        reveal(is_numbered);
        reveal_strlit("tar");
        assert("tar"@ =~= ascii_lower_all("tar"@));
    }
    assert(is_numbered(6, "gz"@)) by {
        reveal(is_numbered);
        reveal_strlit("gz");
        assert("gz"@ =~= ascii_lower_all("gz"@));
    }
    assert(is_numbered(6, "tgz"@)) by {
        reveal(is_numbered);
        reveal_strlit("tgz");
        assert("tgz"@ =~= ascii_lower_all("tgz"@));
    }
    assert(is_numbered(6, "bz2"@)) by {
        reveal(is_numbered);
        reveal_strlit("bz2");
        assert("bz2"@ =~= ascii_lower_all("bz2"@));
    }
    assert(is_numbered(6, "xz"@)) by {
        reveal(is_numbered);
        reveal_strlit("xz");
        assert("xz"@ =~= ascii_lower_all("xz"@));
    }
    assert(is_numbered(6, "7z"@)) by {
        reveal(is_numbered);
        reveal_strlit("7z");
        assert("7z"@ =~= ascii_lower_all("7z"@));
    }
    assert(is_numbered(6, "rar"@)) by {
        reveal(is_numbered);
        reveal_strlit("rar");
        assert("rar"@ =~= ascii_lower_all("rar"@));
    }
    assert(is_numbered(6, "dmg"@)) by {
        reveal(is_numbered);
        reveal_strlit("dmg");
        assert("dmg"@ =~= ascii_lower_all("dmg"@));
    }
}

proof fn lemma_numbered(k: int, j: int)
    requires
        0 <= k < kind_table().len(),
        0 <= j < kind_table()[k].1.len(),
    ensures
        is_numbered(k, kind_table()[k].1[j]),
{
    lemma_image_exts();
    lemma_video_exts();
    lemma_audio_exts();
    lemma_doc_exts();
    lemma_code_exts();
    lemma_app_exts();
    lemma_archive_exts();
}

/// An extension is listed where the kind holds it in lower case.
proof fn lemma_listed_lower(k: int, ext: Seq<char>)
    requires
        0 <= k < kind_table().len(),
    ensures
        kind_lists(k, ext) == kind_table()[k].1.contains(ascii_lower_all(ext)),
        kind_lists(k, ext) ==> kind_of_number(text_number(ascii_lower_all(ext))) == k,
{
    reveal(is_numbered);
    let exts = kind_table()[k].1;
    if kind_lists(k, ext) {
        let j = choose|j: int| 0 <= j < exts.len() && same_ignoring_case(#[trigger] exts[j], ext);
        lemma_numbered(k, j);
    }
    if exts.contains(ascii_lower_all(ext)) {
        let j = choose|j: int| 0 <= j < exts.len() && exts[j] == ascii_lower_all(ext);
        lemma_numbered(k, j);
        assert(same_ignoring_case(exts[j], ext));
    }
}

/// The names of the kinds are tokens in lower case, and differ.
proof fn lemma_kind_names(k: int)
    requires
        0 <= k < kind_table().len(),
    ensures
        kind_named(k, kind_table()[k].0),
        forall|i: int| 0 <= i < kind_table()[k].0.len() ==> !is_space(#[trigger] kind_table()[k].0[i]),
        forall|m: int| 0 <= m < kind_table().len() && m != k ==> (#[trigger] kind_table()[m]).0
            != kind_table()[k].0,
{
    reveal_strlit("image");
    reveal_strlit("video");
    reveal_strlit("audio");
    reveal_strlit("doc");
    reveal_strlit("code");
    reveal_strlit("app");
    reveal_strlit("archive");
    assert("image"@ =~= ascii_lower_all("image"@));
    assert("video"@ =~= ascii_lower_all("video"@));
    assert("audio"@ =~= ascii_lower_all("audio"@));
    assert("doc"@ =~= ascii_lower_all("doc"@));
    assert("code"@ =~= ascii_lower_all("code"@));
    assert("app"@ =~= ascii_lower_all("app"@));
    assert("archive"@ =~= ascii_lower_all("archive"@));
    let name = kind_table()[k].0;
    assert(name == ascii_lower_all(name));
    assert forall|m: int| 0 <= m < kind_table().len() && m != k implies (#[trigger] kind_table()[m]).0
        != name by {
        assert(text_number(kind_table()[m].0) != text_number(name));
    }
    assert forall|m: int| 0 <= m < k implies !same_ignoring_case(
        #[trigger] kind_table()[m].0,
        name,
    ) by {
        assert(kind_table()[m].0 == ascii_lower_all(kind_table()[m].0));
    }
}

/// No extension has two kinds.
pub proof fn extensions_have_one_kind(ext: Seq<char>, a: Seq<char>, b: Seq<char>)
    requires
        has_kind(ext, a),
        has_kind(ext, b),
    ensures
        a == b,
{
    let j = choose|j: int| 0 <= j < kind_table().len() && kind_table()[j].0 == a && #[trigger]
        kind_lists(j, ext);
    let k = choose|k: int| 0 <= k < kind_table().len() && kind_table()[k].0 == b && #[trigger]
        kind_lists(k, ext);
    lemma_listed_lower(j, ext);
    lemma_listed_lower(k, ext);
}

/// A `kind:` filter lists exactly the extensions of its kind.
pub proof fn kinds_are_what_filters_list(k: int, ext: Seq<char>, now: i64)
    requires
        0 <= k < kind_table().len(),
    ensures
        ({
            let name = kind_table()[k].0;
            let (f, rest) = parsed("kind:"@ + name, now);
            &&& rest.len() == 0
            &&& f == FilterSet { exts: kind_table()[k].1, ..no_filters() }
            &&& has_kind(ext, name) == f.exts.contains(ascii_lower_all(ext))
        }),
{
    let name = kind_table()[k].0;
    let q = "kind:"@ + name;
    lemma_kind_names(k);
    reveal_strlit("ext:");
    reveal_strlit("path:");
    reveal_strlit("kind:");
    assert forall|i: int| 0 <= i < q.len() implies !is_space(#[trigger] q[i]) by {
        if i >= 5 {
            assert(q[i] == name[i - 5]);
        }
    }
    lemma_token_whole(q, 0);
    assert(q.subrange(0, q.len() as int) =~= q);
    assert("kind:"@ =~= q.subrange(0, 5));
    assert(q.skip(5) =~= name);
    assert(q[0] == 'k');
    let c = choose|c: int| kind_named(c, name);
    lemma_kind_named_unique(k, c, name);
    let f = FilterSet { exts: kind_table()[k].1, ..no_filters() };
    assert(no_filters().exts + kind_table()[k].1 =~= kind_table()[k].1);
    assert(!"ext:"@.is_prefix_of(q)) by {
        assert("ext:"@[0] == 'e');
        if "ext:"@.is_prefix_of(q) {
            assert(q.subrange(0, 4)[0] == q[0]);
        }
    }
    assert(!"path:"@.is_prefix_of(q)) by {
        assert("path:"@[0] == 'p');
        if "path:"@.is_prefix_of(q) {
            assert(q.subrange(0, 5)[0] == q[0]);
        }
    }
    assert(with_token(no_filters(), q, now) == Some(f));
    assert(parse_from(q, now, q.len() as int, f, Seq::empty(), true) == (f, Seq::<char>::empty()));
    assert(parsed(q, now) == (f, Seq::<char>::empty()));
    lemma_listed_lower(k, ext);
    if kind_lists(k, ext) {
        assert forall|m: int| 0 <= m < k implies !#[trigger] kind_lists(m, ext) by {
            lemma_listed_lower(m, ext);
        }
    }
    if has_kind(ext, name) {
        let m = choose|m: int| 0 <= m < kind_table().len() && kind_table()[m].0 == name
            && #[trigger] kind_lists(m, ext);
        assert(m == k);
    }
}

// ----------------------------------------------------- what filters let through

/// A file passes exactly when it is no older than `changed:` asks, no smaller than
/// `larger:` and no larger than `smaller:`, as far as these are there.
pub proof fn files_pass_within_bounds(f: FilterSet, meta: FileMeta)
    ensures
        meta_passes(f, meta) ==> (f.changed_after matches Some(after) ==> after <= meta.mtime),
        meta_passes(f, meta) ==> (f.min_size matches Some(min) ==> min <= meta.size),
        meta_passes(f, meta) ==> (f.max_size matches Some(max) ==> meta.size <= max),
        (f.changed_after matches Some(after) ==> after <= meta.mtime) && (f.min_size matches Some(
            min,
        ) ==> min <= meta.size) && (f.max_size matches Some(max) ==> meta.size <= max)
            ==> meta_passes(f, meta),
{
}

/// With a file every newer one of its size passes; without a least size every
/// smaller one of its time, and without a greatest every larger one.
pub proof fn bounds_are_one_sided(f: FilterSet, meta: FileMeta, other: FileMeta)
    requires
        meta_passes(f, meta),
    ensures
        meta.mtime <= other.mtime && meta.size == other.size ==> meta_passes(f, other),
        f.min_size is None && other.mtime == meta.mtime && other.size <= meta.size
            ==> meta_passes(f, other),
        f.max_size is None && other.mtime == meta.mtime && other.size >= meta.size
            ==> meta_passes(f, other),
{
}

/// All filters of `a` and of `b`; of two bounds of one kind that of `b` counts.
pub open spec fn both(a: FilterSet, b: FilterSet) -> FilterSet {
    FilterSet {
        exts: a.exts + b.exts,
        path_terms: a.path_terms + b.path_terms,
        dirs_only: a.dirs_only || b.dirs_only,
        changed_after: if b.changed_after is Some {
            b.changed_after
        } else {
            a.changed_after
        },
        min_size: if b.min_size is Some {
            b.min_size
        } else {
            a.min_size
        },
        max_size: if b.max_size is Some {
            b.max_size
        } else {
            a.max_size
        },
    }
}

proof fn lemma_both_token(a: FilterSet, f: FilterSet, token: Seq<char>, now: i64)
    ensures
        match with_token(f, token, now) {
            Some(g) => with_token(both(a, f), token, now) == Some(both(a, g)),
            None => with_token(both(a, f), token, now) is None,
        },
{
    if let Some(g) = with_token(f, token, now) {
        let h = with_token(both(a, f), token, now)->0;
        assert(h.exts =~= both(a, g).exts);
        assert(h.path_terms =~= both(a, g).path_terms);
        assert(h =~= both(a, g));
    }
}

proof fn lemma_both_parsed(
    q: Seq<char>,
    now: i64,
    cursor: int,
    a: FilterSet,
    f: FilterSet,
    rest: Seq<char>,
    removed: bool,
)
    requires
        0 <= cursor <= q.len(),
    ensures
        ({
            let (g, left) = parse_from(q, now, cursor, f, rest, removed);
            parse_from(q, now, cursor, both(a, f), rest, removed) == (both(a, g), left)
        }),
    decreases q.len() - cursor,
{
    let start = skip_spaces(q, cursor);
    let end = token_end(q, start);
    lemma_token_bounds(q, cursor);
    if start < q.len() {
        let token = q.subrange(start, end);
        lemma_both_token(a, f, token, now);
        match with_token(f, token, now) {
            Some(g) => {
                lemma_both_parsed(q, now, end, a, g, rest, true);
            },
            None => {
                let gap = if !removed {
                    q.subrange(cursor, start)
                } else if rest.len() > 0 {
                    seq![' ']
                } else {
                    Seq::empty()
                };
                lemma_both_parsed(q, now, end, a, f, rest + gap + token, false);
            },
        }
    }
}

/// A query behind another text is read as it is alone.
proof fn lemma_parse_shift(
    a: Seq<char>,
    q: Seq<char>,
    now: i64,
    k: int,
    f: FilterSet,
    rest: Seq<char>,
    removed: bool,
)
    requires
        0 <= k <= q.len(),
    ensures
        parse_from(a + q, now, a.len() + k, f, rest, removed) == parse_from(
            q,
            now,
            k,
            f,
            rest,
            removed,
        ),
    decreases q.len() - k,
{
    let start = skip_spaces(q, k);
    let end = token_end(q, start);
    let n = a.len() as int;
    lemma_token_bounds(q, k);
    lemma_scan_shift(a, q, k);
    lemma_scan_shift(a, q, start);
    lemma_token_bounds(a + q, n + k);
    if start < q.len() {
        let token = q.subrange(start, end);
        assert((a + q).subrange(n + start, n + end) =~= token);
        match with_token(f, token, now) {
            Some(g) => {
                lemma_parse_shift(a, q, now, end, g, rest, true);
            },
            None => {
                let gap = if !removed {
                    q.subrange(k, start)
                } else if rest.len() > 0 {
                    seq![' ']
                } else {
                    Seq::empty()
                };
                assert((a + q).subrange(n + k, n + start) =~= q.subrange(k, start));
                lemma_parse_shift(a, q, now, end, f, rest + gap + token, false);
            },
        }
    } else {
        assert((a + q).skip(n + k) =~= q.skip(k));
    }
}

/// A word without spaces.
pub open spec fn is_word(w: Seq<char>) -> bool {
    w.len() > 0 && forall|k: int| 0 <= k < w.len() ==> !is_space(#[trigger] w[k])
}

proof fn lemma_word_parsed(w: Seq<char>, now: i64)
    requires
        is_word(w),
    ensures
        match with_token(no_filters(), w, now) {
            Some(f) => parsed(w, now) == (f, Seq::<char>::empty()),
            None => parsed(w, now) == (no_filters(), w),
        },
{
    lemma_token_whole(w, 0);
    assert(!is_space(w[0]));
    assert(skip_spaces(w, 0) == 0);
    assert(w.subrange(0, w.len() as int) =~= w);
    let n = w.len() as int;
    let none = Seq::<char>::empty();
    assert(skip_spaces(w, n) == n);
    match with_token(no_filters(), w, now) {
        Some(f) => {
            assert(parse_from(w, now, n, f, none, true) == (f, none));
        },
        None => {
            assert(w.subrange(0, 0) =~= none);
            assert(none + none + w =~= w);
            assert(w + w.skip(n) =~= w);
            assert(parse_from(w, now, n, no_filters(), w, false) == (no_filters(), w));
        },
    }
}

/// The first word of a query that is a filter.
#[verifier::spinoff_prover]
proof fn lemma_first_filter(w: Seq<char>, r: Seq<char>, now: i64, f: FilterSet)
    requires
        is_word(w),
        with_token(no_filters(), w, now) == Some(f),
        r.len() > 0,
        is_space(r[0]),
    ensures
        parsed(w + r, now) == parse_from(r, now, 0, f, Seq::empty(), true),
{
    let whole = w + r;
    let n = w.len() as int;
    lemma_token_whole(w, 0);
    assert(!is_space(w[0]));
    lemma_scan_append(w, r, 0);
    assert(skip_spaces(w, 0) == 0);
    assert(whole.subrange(0, n) =~= w);
    lemma_parse_shift(w, r, now, 0, f, Seq::empty(), true);
}

/// Behind a filter a query is read as it is alone.
#[verifier::spinoff_prover]
proof fn lemma_after_filter(q: Seq<char>, now: i64, f: FilterSet)
    requires
        q.len() > 0,
        !is_space(q[0]),
    ensures
        parse_from(seq![' '] + q, now, 0, f, Seq::empty(), true) == parse_from(
            q,
            now,
            0,
            f,
            Seq::empty(),
            false,
        ),
{
    let gap = seq![' '];
    let r = gap + q;
    assert(is_space(' '));
    assert(skip_spaces(q, 0) == 0);
    lemma_scan_shift(gap, q, 0);
    assert(r[0] == ' ');
    assert(skip_spaces(r, 0) == skip_spaces(r, 1));
    let end = token_end(q, 0);
    lemma_token_bounds(q, 0);
    let token = q.subrange(0, end);
    assert(r.subrange(1, 1 + end) =~= token);
    let none = Seq::<char>::empty();
    assert(q.subrange(0, 0) =~= none);
    match with_token(f, token, now) {
        Some(g) => {
            lemma_parse_shift(gap, q, now, end, g, none, true);
        },
        None => {
            lemma_parse_shift(gap, q, now, end, f, none + none + token, false);
        },
    }
}

/// Filters add up: a filter before a query adds to the filters of the query and
/// leaves its pattern alone.
#[verifier::spinoff_prover]
pub proof fn filters_add_up(w: Seq<char>, q: Seq<char>, now: i64)
    requires
        is_word(w),
        parsed(w, now).1.len() == 0,
        q.len() > 0,
        !is_space(q[0]),
    ensures
        parsed(w + seq![' '] + q, now) == (both(parsed(w, now).0, parsed(q, now).0), parsed(
            q,
            now,
        ).1),
{
    lemma_word_parsed(w, now);
    let f = parsed(w, now).0;
    let r = seq![' '] + q;
    assert(w + seq![' '] + q =~= w + r);
    assert(is_space(' '));
    assert(r[0] == ' ');
    lemma_first_filter(w, r, now, f);
    lemma_after_filter(q, now, f);
    assert(both(f, no_filters()) =~= f) by {
        assert(f.exts + Seq::<Seq<char>>::empty() =~= f.exts);
        assert(f.path_terms + Seq::<Seq<char>>::empty() =~= f.path_terms);
    }
    lemma_both_parsed(q, now, 0, f, no_filters(), Seq::empty(), false);
}

/// A text without a colon holds no filters: it is all pattern.
pub proof fn plain_words_are_no_filters(q: Seq<char>, now: i64)
    requires
        !q.contains(':'),
    ensures
        parsed(q, now) == (no_filters(), q),
{
    lemma_colonless(q, now, 0);
    plain_query_is_kept(q, now);
}

proof fn lemma_colonless(q: Seq<char>, now: i64, cursor: int)
    requires
        0 <= cursor <= q.len(),
        !q.contains(':'),
    ensures
        only_pattern(q, now, cursor),
    decreases q.len() - cursor,
{
    let start = skip_spaces(q, cursor);
    let end = token_end(q, start);
    lemma_token_bounds(q, cursor);
    if start < q.len() {
        let token = q.subrange(start, end);
        lemma_colonless(q, now, end);
        assert forall|k: int| 0 <= k < token.len() implies token[k] != ':' by {
            assert(token[k] == q[start + k]);
            assert(q.contains(q[start + k]));
        }
        lemma_no_prefix(token, "ext:"@, 3);
        lemma_no_prefix(token, "path:"@, 4);
        lemma_no_prefix(token, "kind:"@, 4);
        lemma_no_prefix(token, "changed:"@, 7);
        lemma_no_prefix(token, "larger:"@, 6);
        lemma_no_prefix(token, "smaller:"@, 7);
        reveal_strlit("ext:");
        reveal_strlit("path:");
        reveal_strlit("kind:");
        reveal_strlit("changed:");
        reveal_strlit("larger:");
        reveal_strlit("smaller:");
        reveal_strlit("dir:");
        if token == "dir:"@ {
            assert(token[3] == ':');
        }
    }
}

proof fn lemma_no_prefix(token: Seq<char>, name: Seq<char>, k: int)
    ensures
        0 <= k < name.len() && name.is_prefix_of(token) ==> k < token.len() && token[k] == name[k],
{
    if 0 <= k < name.len() && name.is_prefix_of(token) {
        assert(token.subrange(0, name.len() as int)[k] == token[k]);
    }
}

/// What a token of a filter is told by: which prefix it has.
proof fn lemma_prefixes(name: Seq<char>, text: Seq<char>)
    requires
        name == "ext:"@ || name == "path:"@ || name == "changed:"@ || name == "larger:"@ || name
            == "smaller:"@,
    ensures
        name.is_prefix_of(name + text),
        (name + text).skip(name.len() as int) == text,
        name != "ext:"@ ==> !"ext:"@.is_prefix_of(name + text),
        name != "path:"@ ==> !"path:"@.is_prefix_of(name + text),
        !"kind:"@.is_prefix_of(name + text),
        name != "changed:"@ ==> !"changed:"@.is_prefix_of(name + text),
        name != "larger:"@ ==> !"larger:"@.is_prefix_of(name + text),
        name != "smaller:"@ ==> !"smaller:"@.is_prefix_of(name + text),
{
    reveal_strlit("ext:");
    reveal_strlit("path:");
    reveal_strlit("kind:");
    reveal_strlit("changed:");
    reveal_strlit("larger:");
    reveal_strlit("smaller:");
    let token = name + text;
    assert(name =~= token.subrange(0, name.len() as int));
    assert(token.skip(name.len() as int) =~= text);
    assert(token[0] == name[0]);
    lemma_no_prefix(token, "ext:"@, 0);
    lemma_no_prefix(token, "path:"@, 0);
    lemma_no_prefix(token, "kind:"@, 0);
    lemma_no_prefix(token, "changed:"@, 0);
    lemma_no_prefix(token, "larger:"@, 0);
    lemma_no_prefix(token, "smaller:"@, 0);
}

/// Digits of a number that is not signed.
pub open spec fn is_digits(d: Seq<char>) -> bool {
    d.len() > 0 && forall|k: int| 0 <= k < d.len() ==> '0' <= #[trigger] d[k] <= '9'
}

/// The units of sizes, in any case; bytes need none.
pub open spec fn is_size_unit(u: Seq<char>, bytes: nat) -> bool {
    ||| u.len() == 0 && bytes == 1
    ||| u.len() == 1 && (u[0] == 'b' || u[0] == 'B') && bytes == 1
    ||| u.len() == 2 && (u[1] == 'b' || u[1] == 'B') && (u[0] == 'k' || u[0] == 'K') && bytes
        == 1_000
    ||| u.len() == 2 && (u[1] == 'b' || u[1] == 'B') && (u[0] == 'm' || u[0] == 'M') && bytes
        == 1_000_000
    ||| u.len() == 2 && (u[1] == 'b' || u[1] == 'B') && (u[0] == 'g' || u[0] == 'G') && bytes
        == 1_000_000_000
}

proof fn lemma_digit_span(d: Seq<char>, k: int)
    requires
        is_digits(d),
        0 <= k <= d.len(),
    ensures
        digits_end(d, k) == d.len(),
    decreases d.len() - k,
{
    if k < d.len() {
        lemma_digit_span(d, k + 1);
    }
}

proof fn lemma_whole_number(d: Seq<char>)
    requires
        is_digits(d),
    ensures
        read_number(d) matches Some(w) && !w.negative && w.num() == decimal(d) && w.den() == 1,
{
    lemma_digit_span(d, 0);
    assert('0' <= d[0] <= '9');
    let w = read_number(d)->0;
    let n = d.len() as int;
    assert(d.subrange(0, n) =~= d);
    assert(d.subrange(n, n) =~= Seq::empty());
    assert(w.before + w.after =~= d);
    assert(decimal(w.exponent) == 0);
    assert(w.scale() == 0);
    assert(ten(0) == 1);
    assert(decimal(d) * 1 == decimal(d));
}

proof fn lemma_size_split(d: Seq<char>, u: Seq<char>, bytes: nat)
    requires
        is_digits(d),
        is_size_unit(u, bytes),
    ensures
        size_parts(ascii_lower_all(d + u)) == (d, bytes),
{
    let lower = ascii_lower_all(d + u);
    let n = lower.len() as int;
    assert(lower.take(d.len() as int) =~= d) by {
        assert forall|k: int| 0 <= k < d.len() implies lower[k] == d[k] by {
            assert('0' <= d[k] <= '9');
        }
    }
    reveal_strlit("gb");
    reveal_strlit("mb");
    reveal_strlit("kb");
    reveal_strlit("b");
    let last = d[d.len() - 1];
    assert('0' <= last <= '9');
    let tail = lower.skip(d.len() as int);
    assert(forall|k: int| 0 <= k < u.len() ==> tail[k] == ascii_lower(u[k]));
    assert(lower[d.len() - 1] == last);
    lemma_suffix_chars(lower, "gb"@);
    lemma_suffix_chars(lower, "mb"@);
    lemma_suffix_chars(lower, "kb"@);
    lemma_suffix_chars(lower, "b"@);
    if u.len() == 2 {
        assert(lower[n - 1] == tail[1]);
        assert(lower[n - 2] == tail[0]);
        assert(lower[n - 1] == 'b');
        let name = lower.subrange(n - 2, n);
        if bytes == 1_000 {
            assert("kb"@ =~= name);
        } else if bytes == 1_000_000 {
            assert("mb"@ =~= name);
        } else {
            assert("gb"@ =~= name);
        }
    } else if u.len() == 1 {
        assert(lower[n - 1] == tail[0]);
        assert(lower[n - 2] == last);
        assert("b"@ =~= lower.subrange(n - 1, n));
    } else {
        assert(lower[n - 1] == last);
        assert(lower =~= d);
    }
}

proof fn lemma_suffix_chars(s: Seq<char>, name: Seq<char>)
    requires
        1 <= name.len() <= 2,
    ensures
        name.is_suffix_of(s) ==> name.len() <= s.len() && name.last() == s.last() && name[0]
            == s[s.len() - name.len()],
        name.len() <= s.len() && s.subrange(s.len() - name.len(), s.len() as int) == name
            ==> name.is_suffix_of(s),
{
    if name.is_suffix_of(s) {
        let part = s.subrange(s.len() - name.len(), s.len() as int);
        assert(name =~= part);
        assert(part[0] == s[s.len() - name.len()]);
        assert(part[name.len() - 1] == s[s.len() - 1]);
    }
}

/// A size is its number of units, in bytes.
pub proof fn sizes_are_in_bytes(d: Seq<char>, u: Seq<char>, bytes: nat)
    requires
        is_digits(d),
        is_size_unit(u, bytes),
        decimal(d) * bytes < 0x20_0000_0000_0000,
    ensures
        size_bytes(d + u) == Some((decimal(d) * bytes) as u64),
{
    lemma_size_split(d, u, bytes);
    lemma_whole_number(d);
    whole_numbers_scale_exactly(decimal(d), bytes);
}

proof fn lemma_filter_word(name: Seq<char>, text: Seq<char>)
    requires
        name == "ext:"@ || name == "path:"@ || name == "changed:"@ || name == "larger:"@ || name
            == "smaller:"@,
        forall|k: int| 0 <= k < text.len() ==> !is_space(#[trigger] text[k]),
    ensures
        is_word(name + text),
{
    reveal_strlit("ext:");
    reveal_strlit("path:");
    reveal_strlit("changed:");
    reveal_strlit("larger:");
    reveal_strlit("smaller:");
    let w = name + text;
    assert forall|k: int| 0 <= k < w.len() implies !is_space(#[trigger] w[k]) by {
        if k >= name.len() {
            assert(w[k] == text[k - name.len()]);
        }
    }
}

proof fn lemma_filter_names_differ()
    ensures
        "ext:"@ != "path:"@,
        "changed:"@ != "ext:"@,
        "changed:"@ != "path:"@,
        "larger:"@ != "ext:"@,
        "larger:"@ != "path:"@,
        "larger:"@ != "changed:"@,
        "smaller:"@ != "ext:"@,
        "smaller:"@ != "path:"@,
        "smaller:"@ != "changed:"@,
        "smaller:"@ != "larger:"@,
{
    reveal_strlit("ext:");
    reveal_strlit("path:");
    reveal_strlit("changed:");
    reveal_strlit("larger:");
    reveal_strlit("smaller:");
    assert("ext:"@[0] == 'e' && "path:"@[0] == 'p' && "changed:"@[0] == 'c' && "larger:"@[0] == 'l'
        && "smaller:"@[0] == 's');
}

/// `smaller:` lets through the files of at most its size, and `larger:` those of
/// at least its size; other words stay the pattern.
pub proof fn size_filters_bound_sizes(
    d: Seq<char>,
    u: Seq<char>,
    bytes: nat,
    q: Seq<char>,
    now: i64,
    meta: FileMeta,
)
    requires
        is_digits(d),
        is_size_unit(u, bytes),
        decimal(d) * bytes < 0x20_0000_0000_0000,
        !q.contains(':'),
        q.len() > 0,
        !is_space(q[0]),
    ensures
        ({
            let (small, pattern) = parsed("smaller:"@ + d + u + seq![' '] + q, now);
            let (large, same) = parsed("larger:"@ + d + u + seq![' '] + q, now);
            &&& pattern == q && same == q
            &&& meta_passes(small, meta) <==> meta.size <= decimal(d) * bytes
            &&& meta_passes(large, meta) <==> meta.size >= decimal(d) * bytes
            &&& small.exts.len() == 0 && small.path_terms.len() == 0 && !small.dirs_only
        }),
{
    lemma_size_query("smaller:"@, d, u, bytes, q, now);
    lemma_size_query("larger:"@, d, u, bytes, q, now);
    lemma_filter_names_differ();
}

#[verifier::spinoff_prover]
proof fn lemma_size_query(
    name: Seq<char>,
    d: Seq<char>,
    u: Seq<char>,
    bytes: nat,
    q: Seq<char>,
    now: i64,
)
    requires
        name == "smaller:"@ || name == "larger:"@,
        is_digits(d),
        is_size_unit(u, bytes),
        decimal(d) * bytes < 0x20_0000_0000_0000,
        !q.contains(':'),
        q.len() > 0,
        !is_space(q[0]),
    ensures
        ({
            let size = (decimal(d) * bytes) as u64;
            &&& size == decimal(d) * bytes
            &&& parsed(name + d + u + seq![' '] + q, now) == (
                if name == "smaller:"@ {
                    FilterSet { max_size: Some(size), ..no_filters() }
                } else {
                    FilterSet { min_size: Some(size), ..no_filters() }
                },
                q,
            )
        }),
{
    let text = d + u;
    assert forall|k: int| 0 <= k < text.len() implies !is_space(#[trigger] text[k]) by {
        if k < d.len() {
            assert('0' <= d[k] <= '9');
        } else {
            assert(text[k] == u[k - d.len()]);
        }
    }
    sizes_are_in_bytes(d, u, bytes);
    lemma_size_filter(name, text, (decimal(d) * bytes) as u64, q, now);
    assert(name + d + u =~= name + text);
}

proof fn lemma_size_filter(name: Seq<char>, text: Seq<char>, size: u64, q: Seq<char>, now: i64)
    requires
        name == "smaller:"@ || name == "larger:"@,
        forall|k: int| 0 <= k < text.len() ==> !is_space(#[trigger] text[k]),
        size_bytes(text) == Some(size),
        !q.contains(':'),
        q.len() > 0,
        !is_space(q[0]),
    ensures
        parsed(name + text + seq![' '] + q, now) == (
            if name == "smaller:"@ {
                FilterSet { max_size: Some(size), ..no_filters() }
            } else {
                FilterSet { min_size: Some(size), ..no_filters() }
            },
            q,
        ),
{
    lemma_filter_names_differ();
    plain_words_are_no_filters(q, now);
    let f = if name == "smaller:"@ {
        FilterSet { max_size: Some(size), ..no_filters() }
    } else {
        FilterSet { min_size: Some(size), ..no_filters() }
    };
    lemma_prefixes(name, text);
    lemma_filter_word(name, text);
    reveal_strlit("smaller:");
    reveal_strlit("larger:");
    let a = name + text;
    assert(with_token(no_filters(), a, now) == Some(f));
    lemma_word_parsed(a, now);
    filters_add_up(a, q, now);
    assert(both(f, no_filters()) =~= f);
}

/// The seconds in the units of `changed:`.
pub open spec fn is_time_unit(c: char, secs: nat) -> bool {
    ||| c == 'm' && secs == 60
    ||| c == 'h' && secs == 3_600
    ||| c == 'd' && secs == 86_400
    ||| c == 'w' && secs == 604_800
}

/// `changed:` lets through the files that changed no longer ago than it says.
pub proof fn time_filters_bound_ages(
    d: Seq<char>,
    c: char,
    secs: nat,
    q: Seq<char>,
    now: i64,
    meta: FileMeta,
)
    requires
        is_digits(d),
        is_time_unit(c, secs),
        decimal(d) * secs <= i64::MAX,
        now - decimal(d) * secs >= i64::MIN,
        !q.contains(':'),
        q.len() > 0,
        !is_space(q[0]),
    ensures
        ({
            let (f, pattern) = parsed("changed:"@ + d + seq![c] + seq![' '] + q, now);
            &&& pattern == q
            &&& meta_passes(f, meta) <==> now - meta.mtime <= decimal(d) * secs
        }),
{
    let text = d + seq![c];
    assert forall|k: int| 0 <= k < text.len() implies !is_space(#[trigger] text[k]) by {
        if k < d.len() {
            assert('0' <= d[k] <= '9');
        }
    }
    assert(text.drop_last() =~= d);
    assert(text.last() == c);
    assert('0' <= d[0] <= '9');
    assert(all_digits(d));
    assert(duration_secs(text) == Some((decimal(d) * secs) as i64));
    lemma_filter_names_differ();
    plain_words_are_no_filters(q, now);
    lemma_prefixes("changed:"@, text);
    lemma_filter_word("changed:"@, text);
    reveal_strlit("changed:");
    let a = "changed:"@ + text;
    let f = FilterSet {
        changed_after: Some((now - decimal(d) * secs) as i64),
        ..no_filters()
    };
    assert(with_token(no_filters(), a, now) == Some(f));
    lemma_word_parsed(a, now);
    assert("changed:"@ + d + seq![c] + seq![' '] + q =~= a + seq![' '] + q);
    filters_add_up(a, q, now);
}

/// `ext:` lets through the files with its extension, whatever the case.
pub proof fn extension_filters_pick_extensions(
    e: Seq<char>,
    dir: Seq<char>,
    stem: Seq<char>,
    ext: Seq<char>,
    now: i64,
)
    requires
        is_word(e),
        e[0] != '.',
        is_start(dir),
        is_name(stem),
        is_name(stem + seq!['.'] + ext),
        !ext.contains('.'),
    ensures
        ({
            let f = parsed("ext:"@ + e, now).0;
            &&& path_passes(f, dir + stem + seq!['.'] + ext) <==> same_ignoring_case(e, ext)
            &&& !path_passes(f, dir + stem + seq!['.'] + ext + seq!['/'])
            &&& !stem.contains('.') ==> !path_passes(f, dir + stem)
        }),
{
    lemma_filter_names_differ();
    lemma_prefixes("ext:"@, e);
    lemma_filter_word("ext:"@, e);
    reveal_strlit("ext:");
    let a = "ext:"@ + e;
    assert(without_leading_dots(e) == e);
    let f = with_token(no_filters(), a, now)->0;
    assert(f.exts =~= seq![ascii_lower_all(e)]);
    lemma_word_parsed(a, now);
    extensions_follow_the_last_dot(dir, stem, ext);
    let path = dir + stem + seq!['.'] + ext;
    let name = stem + seq!['.'] + ext;
    assert(path.last() == name.last());
    assert(name.contains(name[name.len() - 1]));
    assert(stem.contains(stem[stem.len() - 1]));
    assert((dir + stem).last() == stem.last());
    lemma_lower_twice(e);
    assert(f.exts[0] == ascii_lower_all(e));
    if same_ignoring_case(e, ext) {
        assert(same_ignoring_case(ext, f.exts[0]));
    }
}

proof fn lemma_lower_twice(s: Seq<char>)
    ensures
        ascii_lower_all(ascii_lower_all(s)) == ascii_lower_all(s),
{
    assert(ascii_lower_all(ascii_lower_all(s)) =~= ascii_lower_all(s));
}

/// `path:` lets through the files with its text anywhere in their paths, whatever
/// the case.
pub proof fn path_filters_find_texts(term: Seq<char>, path: Seq<char>, now: i64)
    requires
        is_word(term),
        path.len() > 0,
        path.last() != '/',
    ensures
        path_passes(parsed("path:"@ + term, now).0, path) <==> exists|i: int|
            0 <= i <= path.len() - term.len() && same_ignoring_case(
                #[trigger] path.subrange(i, i + term.len()),
                term,
            ),
{
    lemma_filter_names_differ();
    lemma_prefixes("path:"@, term);
    lemma_filter_word("path:"@, term);
    reveal_strlit("path:");
    let a = "path:"@ + term;
    let f = with_token(no_filters(), a, now)->0;
    let low = ascii_lower_all(term);
    assert(f.path_terms =~= seq![low]);
    lemma_word_parsed(a, now);
    lemma_lower_twice(term);
    let hay = ascii_lower_all(path);
    assert(f.path_terms[0] == low);
    if contains_folded(path, low) {
        let i = choose|i: int| occurs_at(hay, low, i);
        let part = path.subrange(i, i + term.len());
        assert(ascii_lower_all(part) =~= hay.subrange(i, i + low.len()));
        assert(same_ignoring_case(part, term));
    }
    if exists|i: int|
        0 <= i <= path.len() - term.len() && same_ignoring_case(
            #[trigger] path.subrange(i, i + term.len()),
            term,
        ) {
        let i = choose|i: int|
            0 <= i <= path.len() - term.len() && same_ignoring_case(
                #[trigger] path.subrange(i, i + term.len()),
                term,
            );
        let part = path.subrange(i, i + term.len());
        assert(ascii_lower_all(part) =~= hay.subrange(i, i + low.len()));
        assert(occurs_at(hay, low, i));
    }
}

/// `dir:` lets through directories only; without it they are left out.
pub proof fn directories_have_a_filter_of_their_own(path: Seq<char>, now: i64)
    ensures
        path_passes(parsed("dir:"@, now).0, path) <==> path.len() > 0 && path.last() == '/',
        path_passes(no_filters(), path) <==> !(path.len() > 0 && path.last() == '/'),
        parsed("dir:"@, now).1.len() == 0,
{
    reveal_strlit("dir:");
    reveal_strlit("ext:");
    reveal_strlit("path:");
    reveal_strlit("kind:");
    reveal_strlit("changed:");
    reveal_strlit("larger:");
    reveal_strlit("smaller:");
    let w = "dir:"@;
    lemma_no_prefix(w, "ext:"@, 0);
    lemma_no_prefix(w, "path:"@, 0);
    lemma_no_prefix(w, "kind:"@, 0);
    lemma_no_prefix(w, "changed:"@, 0);
    lemma_no_prefix(w, "larger:"@, 0);
    lemma_no_prefix(w, "smaller:"@, 0);
    assert(is_word(w));
    lemma_word_parsed(w, now);
}

/// A path passes all filters together exactly when it is of the right type, has
/// one of the extensions where there are any, and passes each `path:` filter.
pub proof fn paths_pass_all_filters(a: FilterSet, b: FilterSet, path: Seq<char>)
    requires
        a.dirs_only == b.dirs_only,
        a.exts.len() == 0 || b.exts.len() == 0,
    ensures
        path_passes(both(a, b), path) <==> path_passes(a, path) && path_passes(b, path),
{
    let c = both(a, b);
    assert(a.exts.len() == 0 ==> c.exts =~= b.exts);
    assert(b.exts.len() == 0 ==> c.exts =~= a.exts);
    if has_terms(c.path_terms, path) {
        assert forall|k: int| 0 <= k < a.path_terms.len() implies contains_folded(
            path,
            #[trigger] a.path_terms[k],
        ) by {
            assert(c.path_terms[k] == a.path_terms[k]);
        }
        assert forall|k: int| 0 <= k < b.path_terms.len() implies contains_folded(
            path,
            #[trigger] b.path_terms[k],
        ) by {
            assert(c.path_terms[a.path_terms.len() + k] == b.path_terms[k]);
        }
    }
    if has_terms(a.path_terms, path) && has_terms(b.path_terms, path) {
        assert forall|k: int| 0 <= k < c.path_terms.len() implies contains_folded(
            path,
            #[trigger] c.path_terms[k],
        ) by {
            if k >= a.path_terms.len() {
                assert(c.path_terms[k] == b.path_terms[k - a.path_terms.len()]);
            }
        }
    }
}


/// `kind:` lets through the files whose extension is listed for that kind,
/// whatever the case, and no others.
pub proof fn kind_filters_pick_kinds(
    kind: Seq<char>,
    k: int,
    dir: Seq<char>,
    stem: Seq<char>,
    ext: Seq<char>,
    now: i64,
)
    requires
        is_word(kind),
        kind_named(k, kind),
        is_start(dir),
        is_name(stem),
        is_name(stem + seq!['.'] + ext),
        !ext.contains('.'),
    ensures
        ({
            let f = parsed("kind:"@ + kind, now).0;
            let path = dir + stem + seq!['.'] + ext;
            &&& path_passes(f, path) <==> exists|j: int|
                0 <= j < kind_table()[k].1.len() && same_ignoring_case(
                    ext,
                    #[trigger] kind_table()[k].1[j],
                )
            &&& !path_passes(f, path + seq!['/'])
        }),
{
    let token = "kind:"@ + kind;
    reveal_strlit("kind:");
    reveal_strlit("ext:");
    reveal_strlit("path:");
    assert(token[0] == 'k');
    assert("kind:"@.is_prefix_of(token));
    assert(token.skip(5) =~= kind);
    assert(!"ext:"@.is_prefix_of(token)) by {
        if "ext:"@.is_prefix_of(token) {
            assert(token.subrange(0, 4)[0] == token[0]);
        }
    }
    assert(!"path:"@.is_prefix_of(token)) by {
        if "path:"@.is_prefix_of(token) {
            assert(token.subrange(0, 5)[0] == token[0]);
        }
    }
    assert forall|i: int| 0 <= i < token.len() implies !is_space(#[trigger] token[i]) by {
        if i >= 5 {
            assert(token[i] == kind[i - 5]);
        }
    }
    let m = choose|m: int| kind_named(m, kind);
    lemma_kind_named_unique(m, k, kind);
    let f = with_token(no_filters(), token, now)->0;
    assert(f.exts =~= kind_table()[k].1);
    lemma_word_parsed(token, now);
    extensions_follow_the_last_dot(dir, stem, ext);
    let path = dir + stem + seq!['.'] + ext;
    let name = stem + seq!['.'] + ext;
    assert(path.last() == name.last());
    assert(name.contains(name[name.len() - 1]));
    lemma_kinds_list_extensions(k);
}

proof fn lemma_kinds_list_extensions(k: int)
    requires
        0 <= k < kind_table().len(),
    ensures
        kind_table()[k].1.len() > 0,
{
}

} // verus!
