//! Filename search: fuzzy, by regular expression, or the head of the index.

use crate::codec::{chars_within, lemma_encode_concat, lemma_prefix_width};
use crate::filters::{
    contains_terms, has_terms, is_dir, is_dir_path, meta_passes, no_filters, path_passes, token_end,
    FilterSet, Filters,
};
use crate::index::PathStore;
use crate::pathmap::PathMap;
use crate::paths::{component_start, last_index_of};
use crate::quiet::{quiet_path, Quiet};
use crate::text::{
    char_is_space, chars_of, contains_text, has_char, is_space, skip_spaces, string_of_range,
};
use crate::walker::EntryView;
use nucleo_matcher::{Config, Matcher, Utf32Str};
use nucleo_matcher::pattern::{CaseMatching, Normalization, Pattern};
use std::sync::atomic::{AtomicU64, Ordering};
use vstd::prelude::*;
use vstd::string::*;
use vstd::utf8::*;

verus! {

// ------------------------------------------------------------ outside calls

/// The scratch memory of the fuzzy matcher.
#[verifier::external_type_specification]
#[verifier::external_body]
pub struct ExMatcher(nucleo_matcher::Matcher);

/// What the fuzzy matcher scores a text for a query, where it matches. Builds
/// for Windows count another path separator.
pub uninterp spec fn fuzzy_score(query: Seq<char>, text: Seq<char>) -> Option<u32>;

/// The character positions that the fuzzy matcher reports for a query in a
/// text, in the order in which it reports them.
pub uninterp spec fn fuzzy_indices(query: Seq<char>, text: Seq<char>) -> Seq<u32>;

/// Scores of matches of this length still fit in 16 bits: the first character
/// adds at most 34 to a score, and each further one at most 25.
pub const SCORABLE_LEN: usize = 2621;

/// How many characters the words of a query can have in the matcher, which may
/// double a backslash.
pub open spec fn needle_room(query: Seq<char>) -> nat
    decreases query.len(),
{
    if query.len() == 0 {
        0
    } else {
        needle_room(query.drop_last()) + if query.last() == '\\' {
            2nat
        } else {
            1nat
        }
    }
}

/// Characters in the tables by which the matcher takes marks off letters.
pub open spec fn may_lose_marks(c: char) -> bool {
    ||| 0xc0 <= c as u32 <= 0x36f
    ||| 0x1d00 <= c as u32 <= 0x1ef9
    ||| 0x2071 <= c as u32 <= 0x2184
}

/// What a small letter folds to, by number, where it does not fold to itself.
pub open spec fn small_fold(u: u32) -> Option<u32> {
    if u == 0xb5 {
        Some(0x3bc)
    } else if u == 0x17f {
        Some(0x73)
    } else if u == 0x345 || u == 0x1fbe {
        Some(0x3b9)
    } else if u == 0x3c2 {
        Some(0x3c3)
    } else if u == 0x3d0 {
        Some(0x3b2)
    } else if u == 0x3d1 {
        Some(0x3b8)
    } else if u == 0x3d5 {
        Some(0x3c6)
    } else if u == 0x3d6 {
        Some(0x3c0)
    } else if u == 0x3f0 {
        Some(0x3ba)
    } else if u == 0x3f1 {
        Some(0x3c1)
    } else if u == 0x3f5 {
        Some(0x3b5)
    } else if 0x13f8 <= u <= 0x13fd {
        Some((u - 8) as u32)
    } else if u == 0x1c80 {
        Some(0x432)
    } else if u == 0x1c81 {
        Some(0x434)
    } else if u == 0x1c82 {
        Some(0x43e)
    } else if u == 0x1c83 {
        Some(0x441)
    } else if u == 0x1c84 || u == 0x1c85 {
        Some(0x442)
    } else if u == 0x1c86 {
        Some(0x44a)
    } else if u == 0x1c87 {
        Some(0x463)
    } else if u == 0x1c88 {
        Some(0xa64b)
    } else if u == 0x1e9b {
        Some(0x1e61)
    } else if 0xab70 <= u <= 0xabbf {
        Some((u - 0x97d0) as u32)
    } else {
        None
    }
}

pub open spec fn has_marks(query: Seq<char>) -> bool {
    exists|i: int| 0 <= i < query.len() && may_lose_marks(#[trigger] query[i])
}

/// A small letter of the text folds to a letter of the query.
pub open spec fn folds_into(text: Seq<char>, query: Seq<char>) -> bool {
    exists|i: int, j: int|
        0 <= i < text.len() && 0 <= j < query.len() && small_fold(#[trigger] text[i] as u32) == Some(
            #[trigger] query[j] as u32,
        )
}

/// What the matcher can score. It counts positions in 32 bits and the cells of
/// its table in a machine word, scores in 16 bits and their sum in 32 bits: a
/// match that is too long could overflow. For a query that keeps its marks it
/// looks for the start of a match with small letters folded, but scores without
/// folding them, and the two have to agree.
pub open spec fn scorable_text(query: Seq<char>, text: Seq<char>) -> bool {
    let bytes = encode_utf8(text).len();
    &&& bytes <= u32::MAX
    &&& 34 * needle_room(query) <= u32::MAX
    &&& text.len() <= SCORABLE_LEN || (needle_room(query) <= SCORABLE_LEN && bytes * SCORABLE_LEN
        <= usize::MAX)
    &&& !(has_marks(query) && folds_into(text, query))
}

/// `nucleo_matcher::Matcher::new`; nothing is said of the value.
#[verifier::external_body]
fn new_matcher() -> Matcher {
    Matcher::new(Config::DEFAULT)
}

/// `nucleo_matcher::pattern::Pattern::score`, with smart case, smart
/// normalization and the matcher set up for paths: the score is a function of
/// the query and the text.
#[verifier::external_body]
fn score_text(query: &str, text: &str, matcher: &mut Matcher) -> (r: Option<u32>)
    requires
        scorable_text(query@, text@),
    ensures
        r == fuzzy_score(query@, text@),
{
    matcher.config = Config::DEFAULT;
    matcher.config.set_match_paths();
    let mut buf = Vec::new();
    Pattern::parse(query, CaseMatching::Smart, Normalization::Smart).score(
        Utf32Str::new(text, &mut buf),
        matcher,
    )
}

/// `nucleo_matcher::pattern::Pattern::indices`, set up like the scores: the
/// positions are a function of the query and the text.
#[verifier::external_body]
fn matched_indices(query: &str, text: &str, matcher: &mut Matcher) -> (r: Vec<u32>)
    requires
        scorable_text(query@, text@),
    ensures
        r@ == fuzzy_indices(query@, text@),
{
    matcher.config = Config::DEFAULT;
    matcher.config.set_match_paths();
    let mut buf = Vec::new();
    let mut indices = Vec::new();
    Pattern::parse(query, CaseMatching::Smart, Normalization::Smart).indices(
        Utf32Str::new(text, &mut buf),
        matcher,
        &mut indices,
    );
    indices
}

/// A compiled regular expression.
#[verifier::external_type_specification]
#[verifier::external_body]
pub struct ExRegex(regex::Regex);

/// An expression was compiled from this pattern, with case ignored or not.
pub uninterp spec fn compiled_from(
    re: regex::Regex,
    pattern: Seq<char>,
    ignore_case: bool,
) -> bool;

/// The text of the error if a pattern does not compile.
pub uninterp spec fn regex_error(pattern: Seq<char>, ignore_case: bool) -> Option<Seq<char>>;

/// Whether a pattern matches somewhere in a text.
pub uninterp spec fn regex_matches(pattern: Seq<char>, ignore_case: bool, text: Seq<char>) -> bool;

/// `regex::RegexBuilder::build`: whether it succeeds, and the text of the error,
/// is a function of the pattern and the case switch.
#[verifier::external_body]
fn compile_regex(pattern: &str, ignore_case: bool) -> (r: Result<regex::Regex, String>)
    ensures
        match r {
            Ok(re) => regex_error(pattern@, ignore_case) is None && compiled_from(
                re,
                pattern@,
                ignore_case,
            ),
            Err(e) => regex_error(pattern@, ignore_case) == Some(e@),
        },
{
    let built = regex::RegexBuilder::new(pattern).case_insensitive(ignore_case).build();
    built.map_err(|e| e.to_string())
}

/// `regex::Regex::is_match`: a function of what the expression was compiled from
/// and the text.
#[verifier::external_body]
fn is_regex_match(re: &regex::Regex, text: &str) -> (r: bool)
    ensures
        forall|pattern: Seq<char>, ignore_case: bool| #[trigger]
            compiled_from(*re, pattern, ignore_case) ==> r == regex_matches(
                pattern,
                ignore_case,
                text@,
            ),
{
    re.is_match(text)
}

/// Where a pattern first matches in a text, in bytes.
pub uninterp spec fn regex_found(
    pattern: Seq<char>,
    ignore_case: bool,
    text: Seq<char>,
) -> Option<(usize, usize)>;

/// `regex::Regex::find`: a function of what the expression was compiled from and
/// the text. The range starts and ends at characters of the text.
#[verifier::external_body]
fn find_in(re: &regex::Regex, text: &str) -> (r: Option<(usize, usize)>)
    ensures
        forall|pattern: Seq<char>, ignore_case: bool| #[trigger]
            compiled_from(*re, pattern, ignore_case) ==> r == regex_found(
                pattern,
                ignore_case,
                text@,
            ),
        r matches Some((start, end)) ==> {
            &&& start <= end
            &&& is_char_boundary(encode_utf8(text@), start as int)
            &&& is_char_boundary(encode_utf8(text@), end as int)
        },
{
    re.find(text).map(|m| (m.start(), m.end()))
}

/// Whether a character has the Unicode property `Uppercase`.
pub uninterp spec fn is_uppercase(c: char) -> bool;

/// `char::is_uppercase` is a function of the character.
pub assume_specification[ char::is_uppercase ](c: char) -> (r: bool)
    ensures
        r == is_uppercase(c),
;

// -------------------------------------------------------------------- types

#[derive(Debug, Clone, Copy, PartialEq, Eq, Structural)]
pub enum FilenameMode {
    Fuzzy,
    Regex,
}

/// Ranked indices plus how many lead entries are "strong" (above the relative
/// score floor). Non-fuzzy modes report everything strong.
#[derive(Debug, Clone, PartialEq)]
pub struct Ranked {
    pub indices: Vec<usize>,
    pub strong: usize,
}

impl Default for Ranked {
    fn default() -> (r: Ranked)
        ensures
            r.indices@.len() == 0,
            r.strong == 0,
    {
        Ranked { indices: Vec::new(), strong: 0 }
    }
}

impl Ranked {
    pub fn len(&self) -> (r: usize)
        ensures
            r == self.indices@.len(),
    {
        self.indices.len()
    }

    pub fn is_empty(&self) -> (r: bool)
        ensures
            r == (self.indices@.len() == 0),
    {
        self.indices.is_empty()
    }
}

/// An entry of the index with its score.
#[derive(Clone, Copy, Debug, PartialEq, Eq, Structural)]
pub struct Candidate {
    pub score: u64,
    pub index: usize,
    pub quiet: bool,
}

/// Loud before quiet, high scores before low ones, ties in index order.
pub open spec fn ranks_before(a: Candidate, b: Candidate) -> bool {
    if a.quiet != b.quiet {
        b.quiet
    } else if a.score != b.score {
        a.score > b.score
    } else {
        a.index < b.index
    }
}

impl Candidate {
    fn beats(&self, other: &Candidate) -> (r: bool)
        ensures
            r == ranks_before(*self, *other),
    {
        if self.quiet != other.quiet {
            other.quiet
        } else if self.score != other.score {
            self.score > other.score
        } else {
            self.index < other.index
        }
    }
}

// ------------------------------------------------------------------ ranking

/// `c` put before the first element that it ranks before.
pub open spec fn insert_ranked(s: Seq<Candidate>, c: Candidate) -> Seq<Candidate>
    decreases s.len(),
{
    if s.len() == 0 {
        seq![c]
    } else if ranks_before(c, s[0]) {
        seq![c] + s
    } else {
        seq![s[0]] + insert_ranked(s.drop_first(), c)
    }
}

/// The candidates, best first.
pub open spec fn best_first(cs: Seq<Candidate>) -> Seq<Candidate>
    decreases cs.len(),
{
    if cs.len() == 0 {
        Seq::empty()
    } else {
        insert_ranked(best_first(cs.drop_last()), cs.last())
    }
}

/// Every element ranks before those that follow, or equals them.
pub open spec fn is_ranked(s: Seq<Candidate>) -> bool {
    forall|i: int, j: int|
        0 <= i < j < s.len() ==> !ranks_before(#[trigger] s[j], #[trigger] s[i])
}

proof fn lemma_insert_ranked(s: Seq<Candidate>, c: Candidate)
    requires
        is_ranked(s),
    ensures
        is_ranked(insert_ranked(s, c)),
        insert_ranked(s, c).len() == s.len() + 1,
        insert_ranked(s, c).to_multiset() == s.to_multiset().insert(c),
    decreases s.len(),
{
    broadcast use vstd::seq_lib::group_to_multiset_ensures;

    if s.len() == 0 {
        assert(seq![c] == s.push(c));
    } else if ranks_before(c, s[0]) {
        let t = seq![c] + s;
        assert(t == s.insert(0, c));
        assert forall|i: int, j: int| 0 <= i < j < t.len() implies !ranks_before(
            #[trigger] t[j],
            #[trigger] t[i],
        ) by {
            if i == 0 {
                assert(t[j] == s[j - 1]);
                if j > 1 {
                    assert(!ranks_before(s[j - 1], s[0]));
                }
            } else {
                assert(t[i] == s[i - 1] && t[j] == s[j - 1]);
            }
        }
    } else {
        let rest = s.drop_first();
        assert(is_ranked(rest)) by {
            assert forall|i: int, j: int| 0 <= i < j < rest.len() implies !ranks_before(
                #[trigger] rest[j],
                #[trigger] rest[i],
            ) by {
                assert(rest[i] == s[i + 1] && rest[j] == s[j + 1]);
            }
        }
        lemma_insert_ranked(rest, c);
        let inner = insert_ranked(rest, c);
        let t = seq![s[0]] + inner;
        assert(t == inner.insert(0, s[0]));
        assert(s == rest.insert(0, s[0]));
        assert(t.to_multiset() =~= s.to_multiset().insert(c));
        assert forall|i: int, j: int| 0 <= i < j < t.len() implies !ranks_before(
            #[trigger] t[j],
            #[trigger] t[i],
        ) by {
            if i == 0 {
                assert(t[j] == inner[j - 1]);
                assert(inner.to_multiset().contains(inner[j - 1]));
                if inner[j - 1] != c {
                    assert(rest.to_multiset().contains(inner[j - 1]));
                    let k = choose|k: int| 0 <= k < rest.len() && rest[k] == inner[j - 1];
                    assert(rest[k] == s[k + 1]);
                }
            } else {
                assert(t[i] == inner[i - 1] && t[j] == inner[j - 1]);
            }
        }
    }
}

/// Ranking only reorders: the candidates stay the same, and each ranks before
/// all that follow.
pub proof fn ranking_sorts(cs: Seq<Candidate>)
    ensures
        is_ranked(best_first(cs)),
        best_first(cs).len() == cs.len(),
        best_first(cs).to_multiset() == cs.to_multiset(),
    decreases cs.len(),
{
    broadcast use vstd::seq_lib::group_to_multiset_ensures;

    if cs.len() > 0 {
        ranking_sorts(cs.drop_last());
        lemma_insert_ranked(best_first(cs.drop_last()), cs.last());
        assert(cs == cs.drop_last().push(cs.last()));
    } else {
        assert(best_first(cs) == cs);
    }
}

proof fn lemma_insert_take(s: Seq<Candidate>, c: Candidate, k: int)
    requires
        0 <= k,
        is_ranked(s),
    ensures
        ({
            let a = insert_ranked(s, c);
            let b = insert_ranked(s.take(if k < s.len() { k } else { s.len() as int }), c);
            a.take(if k < a.len() { k } else { a.len() as int }) == b.take(
                if k < b.len() { k } else { b.len() as int },
            )
        }),
    decreases s.len(),
{
    if k >= s.len() {
        assert(s.take(s.len() as int) == s);
    } else {
        let a = insert_ranked(s, c);
        let t = s.take(k);
        let b = insert_ranked(t, c);
        lemma_insert_ranked(s, c);
        assert(is_ranked(t)) by {
            assert forall|i: int, j: int| 0 <= i < j < t.len() implies !ranks_before(
                #[trigger] t[j],
                #[trigger] t[i],
            ) by {
                assert(t[i] == s[i] && t[j] == s[j]);
            }
        }
        lemma_insert_ranked(t, c);
        if k == 0 {
            assert(a.take(0) =~= b.take(0));
        } else if ranks_before(c, s[0]) {
            assert(a.take(k) =~= b.take(k));
        } else {
            let rest = s.drop_first();
            assert(is_ranked(rest)) by {
                assert forall|i: int, j: int| 0 <= i < j < rest.len() implies !ranks_before(
                    #[trigger] rest[j],
                    #[trigger] rest[i],
                ) by {
                    assert(rest[i] == s[i + 1] && rest[j] == s[j + 1]);
                }
            }
            lemma_insert_take(rest, c, k - 1);
            lemma_insert_ranked(rest, c);
            assert(t.drop_first() == rest.take(k - 1));
            let a1 = insert_ranked(rest, c);
            let b1 = insert_ranked(rest.take(k - 1), c);
            assert(b == seq![s[0]] + b1);
            assert(a == seq![s[0]] + a1);
            assert(b1.len() == k);
            assert(a.take(k) =~= seq![s[0]] + a1.take(k - 1));
            assert(b.take(k) =~= seq![s[0]] + b1.take(k - 1));
        }
    }
}

/// The first `k` elements, or all where there are fewer.
pub open spec fn head<T>(s: Seq<T>, k: int) -> Seq<T> {
    s.take(
        if k < s.len() {
            k
        } else {
            s.len() as int
        },
    )
}

proof fn lemma_insert_at(s: Seq<Candidate>, c: Candidate, at: int)
    requires
        0 <= at <= s.len(),
        forall|i: int| 0 <= i < at ==> !ranks_before(c, #[trigger] s[i]),
        at < s.len() ==> ranks_before(c, s[at]),
    ensures
        insert_ranked(s, c) == s.insert(at, c),
    decreases s.len(),
{
    if at == 0 {
        if s.len() == 0 {
            assert(seq![c] =~= s.insert(0, c));
        } else {
            assert(seq![c] + s =~= s.insert(0, c));
        }
    } else {
        let rest = s.drop_first();
        assert(!ranks_before(c, s[0]));
        assert forall|i: int| 0 <= i < at - 1 implies !ranks_before(c, #[trigger] rest[i]) by {
            assert(rest[i] == s[i + 1]);
        }
        lemma_insert_at(rest, c, at - 1);
        assert(seq![s[0]] + rest.insert(at - 1, c) =~= s.insert(at, c));
    }
}

/// Keeps the best `cap` candidates, best first.
struct TopK {
    cap: usize,
    kept: Vec<Candidate>,
}

impl TopK {
    spec fn holds(&self, cs: Seq<Candidate>) -> bool {
        self.kept@ == head(best_first(cs), self.cap as int)
    }

    fn new(cap: usize) -> (r: TopK)
        ensures
            r.cap == cap,
            r.holds(Seq::empty()),
    {
        let r = TopK { cap, kept: Vec::new() };
        assert(r.kept@ =~= head(best_first(Seq::empty()), cap as int));
        r
    }

    fn push(&mut self, c: Candidate, Ghost(cs): Ghost<Seq<Candidate>>)
        requires
            old(self).holds(cs),
        ensures
            final(self).cap == old(self).cap,
            final(self).holds(cs.push(c)),
    {
        let ghost kept = self.kept@;
        proof {
            ranking_sorts(cs);
            lemma_insert_take(best_first(cs), c, self.cap as int);
            assert(cs.push(c).drop_last() == cs);
            assert(cs.push(c).last() == c);
            lemma_head_ranked(best_first(cs), self.cap as int);
            lemma_insert_ranked(kept, c);
        }
        let mut at: usize = 0;
        let mut hi: usize = self.kept.len();
        while at < hi
            invariant
                at <= hi <= self.kept@.len(),
                self.kept@ == kept,
                is_ranked(kept),
                forall|i: int| 0 <= i < at ==> !ranks_before(c, #[trigger] kept[i]),
                forall|i: int| hi <= i < kept.len() ==> ranks_before(c, #[trigger] kept[i]),
            decreases hi - at,
        {
            let mid: usize = at + (hi - at) / 2;
            if c.beats(&self.kept[mid]) {
                proof {
                    assert forall|i: int| mid <= i < kept.len() implies ranks_before(
                        c,
                        #[trigger] kept[i],
                    ) by {
                        if i > mid {
                            assert(!ranks_before(kept[i], kept[mid as int]));
                        }
                    }
                }
                hi = mid;
            } else {
                proof {
                    assert forall|i: int| 0 <= i < mid + 1 implies !ranks_before(
                        c,
                        #[trigger] kept[i],
                    ) by {
                        if i < mid {
                            assert(!ranks_before(kept[mid as int], kept[i]));
                        }
                    }
                }
                at = mid + 1;
            }
        }
        proof {
            lemma_insert_at(kept, c, at as int);
        }
        if at < self.cap {
            self.kept.insert(at, c);
            if self.kept.len() > self.cap {
                self.kept.truncate(self.cap);
            }
            assert(self.kept@ =~= head(kept.insert(at as int, c), self.cap as int));
        } else {
            assert(self.kept@ =~= head(kept.insert(at as int, c), self.cap as int));
        }
    }
}

proof fn lemma_head_ranked(s: Seq<Candidate>, k: int)
    requires
        is_ranked(s),
        0 <= k,
    ensures
        is_ranked(head(s, k)),
{
    let t = head(s, k);
    assert forall|i: int, j: int| 0 <= i < j < t.len() implies !ranks_before(
        #[trigger] t[j],
        #[trigger] t[i],
    ) by {
        assert(t[i] == s[i] && t[j] == s[j]);
    }
}

// ------------------------------------------------------------------ passing

/// An entry that the filters admit. Lines from standard input are no
/// directories, whatever they end in, unless an explicit filter says so.
pub open spec fn entry_passes(e: EntryView, f: FilterSet, lines: bool) -> bool {
    &&& (lines && !f.dirs_only && f.exts.len() == 0 && has_terms(f.path_terms, e.0))
        || path_passes(f, e.0)
    &&& meta_passes(f, e.1)
}

/// Fuzzy filename searches may surface directories, while every other mode
/// keeps the filter's default file-only behaviour. Extension filters still
/// exclude directories, and metadata and path filters apply to them normally.
pub open spec fn entry_passes_fuzzy(e: EntryView, f: FilterSet, lines: bool) -> bool {
    ||| entry_passes(e, f, lines)
    ||| is_dir_path(e.0) && !f.dirs_only && f.exts.len() == 0 && has_terms(f.path_terms, e.0)
        && meta_passes(f, e.1)
}

fn passes(store: &PathStore, i: usize, filters: &Filters, lines: bool) -> (r: bool)
    requires
        i < store@.len(),
    ensures
        r == entry_passes(store@[i as int], filters@, lines),
{
    let path = store.get(i);
    assert(filters@.exts.len() == filters.exts@.len());
    let line_matches = lines && !filters.dirs_only && filters.exts.is_empty() && contains_terms(
        &filters.path_terms,
        path,
    );
    (line_matches || filters.matches(path)) && filters.matches_meta(&store.meta(i))
}

fn passes_fuzzy(store: &PathStore, i: usize, filters: &Filters, lines: bool) -> (r: bool)
    requires
        i < store@.len(),
    ensures
        r == entry_passes_fuzzy(store@[i as int], filters@, lines),
{
    if passes(store, i, filters, lines) {
        return true;
    }
    let path = store.get(i);
    assert(filters@.exts.len() == filters.exts@.len());
    is_dir(path) && !filters.dirs_only && filters.exts.is_empty() && contains_terms(
        &filters.path_terms,
        path,
    ) && filters.matches_meta(&store.meta(i))
}

// ----------------------------------------------------------- path segments

/// The length of a path without trailing separators.
pub open spec fn unslashed_len(s: Seq<char>, n: int) -> int
    decreases n,
{
    if n > 0 && s[n - 1] == '/' {
        unslashed_len(s, n - 1)
    } else {
        n
    }
}

/// The final path component.
pub open spec fn last_segment(s: Seq<char>) -> Seq<char> {
    let n = unslashed_len(s, s.len() as int);
    s.subrange(component_start(s, n), n)
}

/// The final two path components without a leading separator.
pub open spec fn last_two_segments(s: Seq<char>) -> Option<Seq<char>> {
    let n = unslashed_len(s, s.len() as int);
    let separator = last_index_of(s, '/', n);
    if separator < 0 {
        None
    } else {
        Some(s.subrange(last_index_of(s, '/', separator) + 1, n))
    }
}

fn find_unslashed(s: &[char]) -> (n: usize)
    ensures
        n == unslashed_len(s@, s@.len() as int),
        n <= s.len(),
{
    let mut n: usize = s.len();
    while n > 0 && s[n - 1] == '/'
        invariant
            n <= s.len(),
            unslashed_len(s@, s@.len() as int) == unslashed_len(s@, n as int),
        decreases n,
    {
        n -= 1;
    }
    n
}

/// One past the last separator below `n`, or 0.
fn after_separator(s: &[char], n: usize) -> (r: usize)
    requires
        n <= s.len(),
    ensures
        r == last_index_of(s@, '/', n as int) + 1,
        r == component_start(s@, n as int),
        r <= n,
{
    let mut i: usize = n;
    while i > 0 && s[i - 1] != '/'
        invariant
            i <= n <= s.len(),
            last_index_of(s@, '/', n as int) == last_index_of(s@, '/', i as int),
            component_start(s@, n as int) == component_start(s@, i as int),
        decreases i,
    {
        i -= 1;
    }
    i
}

fn segment_of(s: &[char]) -> (r: String)
    ensures
        r@ == last_segment(s@),
        exists|a: int, b: int| 0 <= a <= b <= s@.len() && r@ == #[trigger] s@.subrange(a, b),
{
    let n = find_unslashed(s);
    let from = after_separator(s, n);
    string_of_range(s, from, n)
}

fn pair_of(s: &[char]) -> (r: Option<String>)
    ensures
        match r {
            Some(t) => last_two_segments(s@) == Some(t@) && exists|a: int, b: int|
                0 <= a <= b <= s@.len() && t@ == #[trigger] s@.subrange(a, b),
            None => last_two_segments(s@) is None,
        },
{
    let n = find_unslashed(s);
    let after = after_separator(s, n);
    if after == 0 {
        return None;
    }
    let from = after_separator(s, after - 1);
    Some(string_of_range(s, from, n))
}

// ------------------------------------------------------------------- scores

pub open spec fn score_or_zero(score: Option<u32>) -> nat {
    match score {
        Some(s) => s as nat,
        None => 0,
    }
}

/// What a candidate scores in all: its path, and its file name and last two
/// segments as bonuses, and its boost; a quiet one two fifths of that. None
/// where the path does not match, or only the name could count and does not.
pub open spec fn total_score(
    path: Option<u32>,
    name: Option<u32>,
    pair: Option<u32>,
    name_required: bool,
    boost: nat,
    quiet: bool,
) -> Option<nat> {
    if path is None || (name_required && name is None) {
        None
    } else {
        let total = score_or_zero(path) + score_or_zero(name) + score_or_zero(pair) / 2 + boost;
        Some(
            if quiet {
                total * 2 / 5
            } else {
                total
            },
        )
    }
}

/// See [`total_score`].
pub fn weigh(
    path: Option<u32>,
    name: Option<u32>,
    pair: Option<u32>,
    name_required: bool,
    boost: u32,
    quiet: bool,
) -> (r: Option<u64>)
    ensures
        match r {
            Some(t) => total_score(path, name, pair, name_required, boost as nat, quiet) == Some(
                t as nat,
            ),
            None => total_score(path, name, pair, name_required, boost as nat, quiet) is None,
        },
{
    match path {
        None => None,
        Some(score) => {
            if name_required && name.is_none() {
                return None;
            }
            let bonus: u64 = match name {
                Some(n) => n as u64,
                None => 0,
            };
            let pair_bonus: u64 = match pair {
                Some(p) => (p / 2) as u64,
                None => 0,
            };
            let total: u64 = score as u64 + bonus + pair_bonus + boost as u64;
            if quiet {
                Some(total * 2 / 5)
            } else {
                Some(total)
            }
        },
    }
}

/// A query of more than one word.
pub open spec fn multi_word(q: Seq<char>) -> bool {
    let end = token_end(q, skip_spaces(q, 0));
    skip_spaces(q, end) < q.len()
}

fn has_two_words(q: &[char]) -> (r: bool)
    ensures
        r == multi_word(q@),
{
    let n: usize = q.len();
    let mut i: usize = 0;
    while i < n && char_is_space(q[i])
        invariant
            i <= n,
            n == q@.len(),
            skip_spaces(q@, 0) == skip_spaces(q@, i as int),
        decreases n - i,
    {
        i += 1;
    }
    let ghost start = i as int;
    while i < n && !char_is_space(q[i])
        invariant
            start <= i <= n,
            n == q@.len(),
            token_end(q@, start) == token_end(q@, i as int),
        decreases n - i,
    {
        i += 1;
    }
    let ghost end = i as int;
    while i < n && char_is_space(q[i])
        invariant
            end <= i <= n,
            n == q@.len(),
            skip_spaces(q@, end) == skip_spaces(q@, i as int),
        decreases n - i,
    {
        i += 1;
    }
    i < n
}

pub open spec fn boost_of(boosts: Map<Seq<char>, u32>, path: Seq<char>) -> nat {
    if boosts.dom().contains(path) {
        boosts[path] as nat
    } else {
        0
    }
}

fn find_boost(boosts: &PathMap<u32>, path: &str) -> (r: u32)
    ensures
        r == boost_of(boosts@, path@),
{
    match boosts.get(path) {
        Some(b) => *b,
        None => 0,
    }
}

/// What a search looks for.
#[verifier::ext_equal]
pub struct Ask {
    pub query: Seq<char>,
    pub filters: FilterSet,
    pub lines: bool,
    pub boosts: Map<Seq<char>, u32>,
    /// the patterns of quiet paths, where those are demoted
    pub demote: Option<Seq<Seq<char>>>,
}

impl Ask {
    pub open spec fn quiet(self, path: Seq<char>) -> bool {
        self.demote matches Some(patterns) && quiet_path(patterns, path)
    }

    pub open spec fn is_dir(self, path: Seq<char>) -> bool {
        !self.lines && is_dir_path(path)
    }

    /// A directory counts only when its own name matches, rather than merely
    /// inheriting a match from an ancestor, unless the user navigates paths.
    pub open spec fn name_required(self, path: Seq<char>) -> bool {
        &&& self.is_dir(path)
        &&& !self.filters.dirs_only
        &&& self.filters.path_terms.len() == 0
        &&& !self.query.contains('/')
    }

    pub open spec fn pair_score(self, path: Seq<char>) -> Option<u32> {
        match last_two_segments(path) {
            Some(pair) => if multi_word(self.query) && !self.is_dir(path) {
                fuzzy_score(self.query, pair)
            } else {
                None
            },
            None => None,
        }
    }

    /// The fuzzy score of an entry, where it is a result.
    pub open spec fn fuzzy(self, e: EntryView) -> Option<nat> {
        if !entry_passes_fuzzy(e, self.filters, self.lines) {
            None
        } else {
            total_score(
                fuzzy_score(self.query, e.0),
                fuzzy_score(self.query, last_segment(e.0)),
                self.pair_score(e.0),
                self.name_required(e.0),
                boost_of(self.boosts, e.0),
                self.quiet(e.0),
            )
        }
    }

    /// The fuzzy candidates among the first `n` entries, in index order.
    pub open spec fn fuzzy_candidates(self, es: Seq<EntryView>, n: int) -> Seq<Candidate>
        decreases n,
    {
        if n <= 0 {
            Seq::empty()
        } else {
            let e = es[n - 1];
            let before = self.fuzzy_candidates(es, n - 1);
            match self.fuzzy(e) {
                Some(score) => before.push(
                    Candidate {
                        score: score as u64,
                        index: (n - 1) as usize,
                        quiet: self.quiet(e.0),
                    },
                ),
                None => before,
            }
        }
    }

    /// The entries among the first `n` that the filters admit and `keep`
    /// keeps, each with its boost, in index order.
    pub open spec fn listed(
        self,
        es: Seq<EntryView>,
        n: int,
        keep: spec_fn(Seq<char>) -> bool,
    ) -> Seq<Candidate>
        decreases n,
    {
        if n <= 0 {
            Seq::empty()
        } else {
            let e = es[n - 1];
            let before = self.listed(es, n - 1, keep);
            if entry_passes(e, self.filters, self.lines) && keep(e.0) {
                before.push(
                    Candidate {
                        score: boost_of(self.boosts, e.0) as u64,
                        index: (n - 1) as usize,
                        quiet: false,
                    },
                )
            } else {
                before
            }
        }
    }

    pub open spec fn boosted(self) -> spec_fn(Seq<char>) -> bool {
        |path: Seq<char>| self.boosts.dom().contains(path)
    }

    pub open spec fn plain(self) -> spec_fn(Seq<char>) -> bool {
        |path: Seq<char>| !self.boosts.dom().contains(path) && !self.quiet(path)
    }

    pub open spec fn folded(self) -> spec_fn(Seq<char>) -> bool {
        |path: Seq<char>| !self.boosts.dom().contains(path) && self.quiet(path)
    }
}

pub open spec fn indices_of(cs: Seq<Candidate>) -> Seq<usize> {
    cs.map_values(|c: Candidate| c.index)
}

// -------------------------------------------------------------------- folds

/// How many leading candidates score at least `floor`.
pub open spec fn leading(cs: Seq<Candidate>, floor: int) -> int
    decreases cs.len(),
{
    if cs.len() > 0 && cs[0].score >= floor {
        1 + leading(cs.drop_first(), floor)
    } else {
        0
    }
}

/// How many leading candidates are not quiet.
pub open spec fn loud(cs: Seq<Candidate>) -> int
    decreases cs.len(),
{
    if cs.len() > 0 && !cs[0].quiet {
        1 + loud(cs.drop_first())
    } else {
        0
    }
}

/// A floor on how many fuzzy results survive the low-score cutoff.
pub const MIN_KEEP: usize = 8;

/// The results that stay above the fold: those that score at least half of
/// the best, and never fewer than eight where there are as many.
pub open spec fn above_floor(cs: Seq<Candidate>) -> int {
    if cs.len() == 0 {
        0
    } else {
        let kept = leading(cs, (cs[0].score / 2) as int);
        let least = if cs.len() < MIN_KEEP {
            cs.len() as int
        } else {
            MIN_KEEP as int
        };
        if kept < least {
            least
        } else {
            kept
        }
    }
}

/// How many ranked candidates are strong: quiet ones count only where no
/// other matches.
pub open spec fn strong_of(cs: Seq<Candidate>) -> int {
    if loud(cs) > 0 {
        above_floor(cs.take(loud(cs)))
    } else {
        above_floor(cs)
    }
}

proof fn lemma_leading(cs: Seq<Candidate>, floor: int)
    ensures
        0 <= leading(cs, floor) <= cs.len(),
        forall|i: int| 0 <= i < leading(cs, floor) ==> (#[trigger] cs[i]).score >= floor,
        leading(cs, floor) < cs.len() ==> cs[leading(cs, floor)].score < floor,
    decreases cs.len(),
{
    if cs.len() > 0 && cs[0].score >= floor {
        let rest = cs.drop_first();
        lemma_leading(rest, floor);
        assert forall|i: int| 0 <= i < leading(cs, floor) implies (#[trigger] cs[i]).score
            >= floor by {
            if i > 0 {
                assert(cs[i] == rest[i - 1]);
            }
        }
    }
}

proof fn lemma_loud(cs: Seq<Candidate>)
    ensures
        0 <= loud(cs) <= cs.len(),
        forall|i: int| 0 <= i < loud(cs) ==> !(#[trigger] cs[i]).quiet,
        loud(cs) < cs.len() ==> cs[loud(cs)].quiet,
    decreases cs.len(),
{
    if cs.len() > 0 && !cs[0].quiet {
        let rest = cs.drop_first();
        lemma_loud(rest);
        assert forall|i: int| 0 <= i < loud(cs) implies !(#[trigger] cs[i]).quiet by {
            if i > 0 {
                assert(cs[i] == rest[i - 1]);
            }
        }
    }
}

fn count_above_floor(cs: &[Candidate], n: usize) -> (r: usize)
    requires
        n <= cs.len(),
    ensures
        r == above_floor(cs@.take(n as int)),
        r <= n,
{
    if n == 0 {
        return 0;
    }
    let ghost part = cs@.take(n as int);
    let floor: u64 = cs[0].score / 2;
    let mut i: usize = 0;
    assert(part.skip(0) == part);
    while i < n && cs[i].score >= floor
        invariant
            i <= n <= cs.len(),
            part == cs@.take(n as int),
            leading(part, floor as int) == i + leading(part.skip(i as int), floor as int),
        decreases n - i,
    {
        assert(part.skip(i as int).drop_first() == part.skip(i + 1));
        i += 1;
    }
    proof {
        lemma_leading(part, floor as int);
    }
    let least: usize = if n < MIN_KEEP {
        n
    } else {
        MIN_KEEP
    };
    if i < least {
        least
    } else {
        i
    }
}

/// How many of the ranked candidates are strong.
pub fn count_strong(cs: &[Candidate]) -> (r: usize)
    ensures
        r == strong_of(cs@),
        r <= cs.len(),
{
    let mut i: usize = 0;
    assert(cs@.skip(0) == cs@);
    while i < cs.len() && !cs[i].quiet
        invariant
            i <= cs.len(),
            loud(cs@) == i + loud(cs@.skip(i as int)),
        decreases cs.len() - i,
    {
        assert(cs@.skip(i as int).drop_first() == cs@.skip(i + 1));
        i += 1;
    }
    assert(cs@.take(cs@.len() as int) == cs@);
    if i > 0 {
        count_above_floor(cs, i)
    } else {
        count_above_floor(cs, cs.len())
    }
}

/// The best `limit` candidates, best first.
pub fn rank(cs: &Vec<Candidate>, limit: usize) -> (r: Vec<Candidate>)
    ensures
        r@ == head(best_first(cs@), limit as int),
{
    let mut top = TopK::new(limit);
    let mut i: usize = 0;
    assert(cs@.take(0) == Seq::<Candidate>::empty());
    while i < cs.len()
        invariant
            i <= cs.len(),
            top.cap == limit,
            top.holds(cs@.take(i as int)),
        decreases cs.len() - i,
    {
        top.push(cs[i], Ghost(cs@.take(i as int)));
        assert(cs@.take(i as int).push(cs@[i as int]) == cs@.take(i + 1));
        i += 1;
    }
    assert(cs@.take(i as int) == cs@);
    top.kept
}

fn push_indices(out: &mut Vec<usize>, cs: &Vec<Candidate>)
    ensures
        final(out)@ == old(out)@ + indices_of(cs@),
{
    let mut i: usize = 0;
    while i < cs.len()
        invariant
            i <= cs.len(),
            out@ == old(out)@ + indices_of(cs@.take(i as int)),
        decreases cs.len() - i,
    {
        out.push(cs[i].index);
        i += 1;
        assert(out@ =~= old(out)@ + indices_of(cs@.take(i as int)));
    }
    assert(cs@.take(i as int) == cs@);
}

// ----------------------------------------------------------------- searches

/// How many entries a running search takes before it looks again whether it is
/// still wanted.
pub const CHUNK: usize = 16_384;

/// A read of the counter gave `v`.
pub open spec fn was_read(counter: &AtomicU64, v: u64) -> bool {
    call_ensures(AtomicU64::load, (counter, Ordering::Acquire), v)
}

/// Reads of the counter gave `seen`.
pub open spec fn were_read(counter: &AtomicU64, seen: Seq<u64>) -> bool {
    forall|k: int| 0 <= k < seen.len() ==> was_read(counter, #[trigger] seen[k])
}

fn read_counter<F: Fn(&AtomicU64, Ordering) -> u64>(read: F, counter: &AtomicU64) -> (v: u64)
    requires
        call_requires(read, (counter, Ordering::Acquire)),
    ensures
        call_ensures(read, (counter, Ordering::Acquire), v),
{
    read(counter, Ordering::Acquire)
}

/// Where a search learns which generation is current.
enum Source<'a> {
    /// The search is never given up.
    Nowhere,
    Counter(&'a AtomicU64),
    Readings(&'a [u64]),
}

/// A search belongs to a generation; it is given up once another one is
/// current.
struct Watch<'a> {
    generation: u64,
    source: Source<'a>,
    taken: usize,
    seen: Ghost<Seq<u64>>,
}

impl<'a> Watch<'a> {
    /// What the source may show at look `k`.
    spec fn shows(&self, k: int, v: u64) -> bool {
        match self.source {
            Source::Nowhere => v == self.generation,
            Source::Counter(c) => was_read(c, v),
            Source::Readings(rs) => v == if k < rs@.len() {
                rs@[k]
            } else {
                self.generation
            },
        }
    }

    spec fn valid(&self) -> bool {
        &&& forall|k: int| 0 <= k < self.seen@.len() ==> self.shows(k, #[trigger] self.seen@[k])
        &&& self.source matches Source::Readings(rs) ==> self.taken == if self.seen@.len()
            < rs@.len() {
            self.seen@.len()
        } else {
            rs@.len()
        }
    }

    /// Every look showed the search's own generation.
    spec fn wanted(&self) -> bool {
        forall|k: int| 0 <= k < self.seen@.len() ==> #[trigger] self.seen@[k] == self.generation
    }

    /// The last look, and only that one, showed another generation.
    spec fn given_up(&self) -> bool {
        &&& self.seen@.len() > 0
        &&& self.seen@.last() != self.generation
        &&& forall|k: int|
            0 <= k < self.seen@.len() - 1 ==> #[trigger] self.seen@[k] == self.generation
    }

    /// The watch after some more looks.
    spec fn follows(&self, before: Watch<'a>) -> bool {
        &&& self.valid()
        &&& self.generation == before.generation
        &&& self.source == before.source
    }

    /// The watch once a part of a search with so many looks is through, or
    /// given up.
    spec fn after_looks(&self, before: Watch<'a>, looks: int, through: bool) -> bool {
        &&& self.follows(before)
        &&& if through {
            self.wanted() && self.seen@.len() == before.seen@.len() + looks
        } else {
            self.given_up() && self.seen@.len() <= before.seen@.len() + looks
        }
    }

    /// Given readings are what was seen, as far as they go.
    proof fn lemma_readings(&self, readings: Seq<u64>)
        requires
            self.valid(),
            self.source matches Source::Readings(rs) && rs@ == readings,
        ensures
            self.wanted() ==> forall|k: int|
                0 <= k < self.seen@.len() && k < readings.len() ==> #[trigger] readings[k]
                    == self.generation,
            self.given_up() ==> self.seen@.len() <= readings.len() && readings[self.seen@.len() - 1]
                != self.generation,
    {
        assert forall|k: int| 0 <= k < self.seen@.len() && k < readings.len() implies
            #[trigger] readings[k] == self.seen@[k] by {
            assert(self.shows(k, self.seen@[k]));
        }
        if self.given_up() {
            let k = self.seen@.len() - 1;
            assert(self.shows(k, self.seen@[k]));
        }
    }

    fn new(generation: u64, source: Source<'a>) -> (r: Watch<'a>)
        ensures
            r.valid(),
            r.generation == generation,
            r.source == source,
            r.seen@.len() == 0,
    {
        Watch { generation, source, taken: 0, seen: Ghost(Seq::empty()) }
    }

    /// Looks whether another generation is current.
    fn is_stale(&mut self) -> (r: bool)
        requires
            old(self).valid(),
            old(self).wanted(),
        ensures
            final(self).follows(*old(self)),
            final(self).seen@.len() == old(self).seen@.len() + 1,
            r ==> final(self).given_up(),
            !r ==> final(self).wanted(),
    {
        let current: u64 = match self.source {
            Source::Nowhere => self.generation,
            Source::Counter(c) => read_counter(AtomicU64::load, c),
            Source::Readings(rs) => if self.taken < rs.len() {
                let v: u64 = rs[self.taken];
                self.taken += 1;
                v
            } else {
                self.generation
            },
        };
        self.seen = Ghost(self.seen@.push(current));
        current != self.generation
    }
}

/// The query can be scored against every entry.
pub open spec fn searchable(es: Seq<EntryView>, query: Seq<char>) -> bool {
    forall|i: int| 0 <= i < es.len() ==> scorable_text(query, (#[trigger] es[i]).0)
}

fn room_of(q: &Vec<char>) -> (r: u128)
    ensures
        r == needle_room(q@),
{
    let mut r: u128 = 0;
    let mut i: usize = 0;
    assert(q@.take(0) =~= Seq::empty());
    while i < q.len()
        invariant
            i <= q@.len(),
            r == needle_room(q@.take(i as int)),
            r <= 2 * i,
        decreases q@.len() - i,
    {
        assert(q@.take(i + 1).drop_last() =~= q@.take(i as int));
        r += if q[i] == '\\' {
            2
        } else {
            1
        };
        i += 1;
    }
    assert(q@.take(i as int) =~= q@);
    r
}

fn any_marks(q: &Vec<char>) -> (r: bool)
    ensures
        r == has_marks(q@),
{
    let mut i: usize = 0;
    while i < q.len()
        invariant
            i <= q@.len(),
            forall|j: int| 0 <= j < i ==> !may_lose_marks(#[trigger] q@[j]),
        decreases q@.len() - i,
    {
        let u = q[i] as u32;
        if (0xc0 <= u && u <= 0x36f) || (0x1d00 <= u && u <= 0x1ef9) || (0x2071 <= u && u
            <= 0x2184) {
            assert(may_lose_marks(q@[i as int]));
            return true;
        }
        i += 1;
    }
    false
}

fn fold_of(u: u32) -> (r: Option<u32>)
    ensures
        r == small_fold(u),
{
    match u {
        0xb5 => Some(0x3bc),
        0x17f => Some(0x73),
        0x345 | 0x1fbe => Some(0x3b9),
        0x3c2 => Some(0x3c3),
        0x3d0 => Some(0x3b2),
        0x3d1 => Some(0x3b8),
        0x3d5 => Some(0x3c6),
        0x3d6 => Some(0x3c0),
        0x3f0 => Some(0x3ba),
        0x3f1 => Some(0x3c1),
        0x3f5 => Some(0x3b5),
        0x1c80 => Some(0x432),
        0x1c81 => Some(0x434),
        0x1c82 => Some(0x43e),
        0x1c83 => Some(0x441),
        0x1c84 | 0x1c85 => Some(0x442),
        0x1c86 => Some(0x44a),
        0x1c87 => Some(0x463),
        0x1c88 => Some(0xa64b),
        0x1e9b => Some(0x1e61),
        _ => if 0x13f8 <= u && u <= 0x13fd {
            Some(u - 8)
        } else if 0xab70 <= u && u <= 0xabbf {
            Some(u - 0x97d0)
        } else {
            None
        },
    }
}

fn any_fold(text: &Vec<char>, q: &Vec<char>) -> (r: bool)
    ensures
        r == folds_into(text@, q@),
{
    let mut i: usize = 0;
    while i < text.len()
        invariant
            i <= text@.len(),
            forall|a: int, j: int|
                0 <= a < i && 0 <= j < q@.len() ==> small_fold(#[trigger] text@[a] as u32) != Some(
                    #[trigger] q@[j] as u32,
                ),
        decreases text@.len() - i,
    {
        if let Some(u) = fold_of(text[i] as u32) {
            let mut j: usize = 0;
            while j < q.len()
                invariant
                    i < text@.len(),
                    j <= q@.len(),
                    small_fold(text@[i as int] as u32) == Some(u),
                    forall|k: int| 0 <= k < j ==> #[trigger] q@[k] as u32 != u,
                decreases q@.len() - j,
            {
                if q[j] as u32 == u {
                    assert(small_fold(text@[i as int] as u32) == Some(q@[j as int] as u32));
                    return true;
                }
                j += 1;
            }
        }
        i += 1;
    }
    false
}

/// What the limits of the matcher ask of texts, for one query.
struct Limits {
    query: Vec<char>,
    room: u128,
    marks: bool,
}

impl Limits {
    spec fn wf(&self) -> bool {
        self.room == needle_room(self.query@) && self.marks == has_marks(self.query@)
    }

    fn new(query: &str) -> (r: Limits)
        ensures
            r.wf(),
            r.query@ == query@,
    {
        let q = chars_of(query);
        let room = room_of(&q);
        let marks = any_marks(&q);
        Limits { query: q, room, marks }
    }

    fn allow(&self, text: &str) -> (r: bool)
        requires
            self.wf(),
        ensures
            r == scorable_text(self.query@, text@),
    {
        let bytes = text.as_bytes().len();
        if bytes as u64 > u32::MAX as u64 || self.room > (u32::MAX / 34) as u128 {
            return false;
        }
        let within = self.room <= SCORABLE_LEN as u128 && bytes <= usize::MAX / SCORABLE_LEN;
        proof {
            assert(bytes <= usize::MAX / SCORABLE_LEN <==> bytes * SCORABLE_LEN <= usize::MAX);
        }
        if within && !self.marks {
            return true;
        }
        let chars = chars_of(text);
        (within || chars.len() <= SCORABLE_LEN) && !(self.marks && any_fold(&chars, &self.query))
    }
}

/// Whether the matcher can score a text; see [`scorable_text`].
pub fn is_scorable(query: &str, text: &str) -> (r: bool)
    ensures
        r == scorable_text(query@, text@),
{
    Limits::new(query).allow(text)
}

/// A part of a text that can be scored can be scored too.
proof fn lemma_scorable_part(query: Seq<char>, text: Seq<char>, a: int, b: int)
    requires
        scorable_text(query, text),
        0 <= a <= b <= text.len(),
    ensures
        scorable_text(query, text.subrange(a, b)),
{
    let part = text.subrange(a, b);
    assert(text =~= text.take(a) + part + text.skip(b));
    lemma_encode_concat(text.take(a) + part, text.skip(b));
    lemma_encode_concat(text.take(a), part);
    let (n, m) = (encode_utf8(part).len(), encode_utf8(text).len());
    assert(n <= m);
    assert(n * SCORABLE_LEN <= m * SCORABLE_LEN) by (nonlinear_arith)
        requires
            n <= m,
    ;
    if folds_into(part, query) {
        let (i, j) = choose|i: int, j: int|
            0 <= i < part.len() && 0 <= j < query.len() && small_fold(#[trigger] part[i] as u32)
                == Some(#[trigger] query[j] as u32);
        assert(text[a + i] == part[i]);
        assert(small_fold(text[a + i] as u32) == Some(query[j] as u32));
    }
}

/// Whether every path can be scored for the query; see [`scorable_text`].
pub fn is_searchable(store: &PathStore, query: &str) -> (r: bool)
    ensures
        r == searchable(store@, query@),
{
    let limits = Limits::new(query);
    let mut i: usize = 0;
    while i < store.len()
        invariant
            i <= store@.len(),
            limits.wf(),
            limits.query@ == query@,
            forall|j: int| 0 <= j < i ==> scorable_text(query@, (#[trigger] store@[j]).0),
        decreases store@.len() - i,
    {
        if !limits.allow(store.get(i)) {
            assert(!scorable_text(query@, store@[i as int].0));
            return false;
        }
        i += 1;
    }
    true
}

/// What a search returns: the indices in order and the number of strong ones,
/// or the text of an error.
pub type Outcome = Result<(Seq<usize>, int), Seq<char>>;

pub open spec fn matches_outcome(r: Ranked, o: Outcome) -> bool {
    o matches Ok(v) && r.indices@ == v.0 && r.strong == v.1
}

impl Ask {
    /// Every fuzzy candidate ranked, the best `limit` of them.
    pub open spec fn fuzzy_outcome(self, es: Seq<EntryView>, limit: int) -> Outcome {
        let best = head(best_first(self.fuzzy_candidates(es, es.len() as int)), limit);
        Ok((indices_of(best), strong_of(best)))
    }

    /// The entries that match, boosted ones first, others in index order.
    pub open spec fn regex_outcome(
        self,
        es: Seq<EntryView>,
        limit: int,
        pattern: Seq<char>,
        ignore_case: bool,
    ) -> Outcome {
        let hits = self.listed(
            es,
            es.len() as int,
            |path: Seq<char>| regex_matches(pattern, ignore_case, path),
        );
        let best = head(best_first(hits), limit);
        Ok((indices_of(best), best.len() as int))
    }

    /// Boosted entries first (opening something is an explicit signal, quiet
    /// or not), then plain entries in index order; quiet paths sink into a
    /// trailing block behind the fold.
    pub open spec fn head_outcome(self, es: Seq<EntryView>, limit: int) -> Outcome {
        let n = es.len() as int;
        let boosted = indices_of(best_first(self.listed(es, n, self.boosted())));
        let plain = indices_of(self.listed(es, n, self.plain()));
        let quiet = indices_of(self.listed(es, n, self.folded()));
        let front = boosted + plain;
        Ok(
            (
                head(front + quiet, limit),
                if front.len() < limit {
                    front.len() as int
                } else {
                    limit
                },
            ),
        )
    }

    pub open spec fn outcome(self, es: Seq<EntryView>, mode: FilenameMode, limit: int) -> Outcome {
        if self.query.len() == 0 {
            self.head_outcome(es, limit)
        } else {
            match mode {
                FilenameMode::Fuzzy => self.fuzzy_outcome(es, limit),
                FilenameMode::Regex => match regex_error(self.query, ignores_case(self.query)) {
                    None => self.regex_outcome(es, limit, self.query, ignores_case(self.query)),
                    Some(e) => Err(e),
                },
            }
        }
    }
}

/// The number of chunks that `n` entries make.
pub open spec fn chunks(n: int) -> int {
    (n + CHUNK - 1) / CHUNK as int
}

impl Ask {
    /// How often a search of `n` entries that nothing stops looks whether it is
    /// still wanted: at its start, before each chunk and, for a query that
    /// compiles, at its end.
    pub open spec fn looks(self, n: int, mode: FilenameMode) -> int {
        if self.query.len() == 0 {
            1 + chunks(n)
        } else if mode == FilenameMode::Regex && regex_error(
            self.query,
            ignores_case(self.query),
        ) is Some {
            1
        } else {
            2 + chunks(n)
        }
    }
}

/// Smart case: a query without upper-case letters ignores case.
pub open spec fn ignores_case(query: Seq<char>) -> bool {
    forall|i: int| 0 <= i < query.len() ==> !is_uppercase(#[trigger] query[i])
}

pub fn smart_case(query: &str) -> (r: bool)
    ensures
        r == ignores_case(query@),
{
    let q = chars_of(query);
    let mut i: usize = 0;
    while i < q.len()
        invariant
            i <= q.len(),
            q@ == query@,
            forall|j: int| 0 <= j < i ==> !is_uppercase(#[trigger] q@[j]),
        decreases q.len() - i,
    {
        if q[i].is_uppercase() {
            return false;
        }
        i += 1;
    }
    true
}

/// A `/` in the query, a `path:` filter, or `dir:` means the user is
/// navigating paths on purpose: quiet demotion switches off.
pub open spec fn demotion(
    patterns: Seq<Seq<char>>,
    query: Seq<char>,
    f: FilterSet,
) -> Option<Seq<Seq<char>>> {
    if patterns.len() == 0 || query.contains('/') || f.path_terms.len() > 0 || f.dirs_only {
        None
    } else {
        Some(patterns)
    }
}

/// The references that a search works on.
struct Job<'a> {
    store: &'a PathStore,
    query: &'a str,
    limit: usize,
    boosts: &'a PathMap<u32>,
    filters: &'a Filters,
    lines: bool,
    demote: Option<&'a Quiet>,
}

impl<'a> Job<'a> {
    spec fn ask(&self) -> Ask {
        Ask {
            query: self.query@,
            filters: self.filters@,
            lines: self.lines,
            boosts: self.boosts@,
            demote: match self.demote {
                Some(q) => Some(q@),
                None => None,
            },
        }
    }

    fn is_quiet(&self, path: &str) -> (r: bool)
        ensures
            r == self.ask().quiet(path@),
    {
        match self.demote {
            Some(q) => q.is_quiet(path),
            None => false,
        }
    }

    /// The fuzzy score of entry `i`, where it is a result.
    fn score(&self, i: usize, q: &Vec<char>, matcher: &mut Matcher) -> (r: Option<u64>)
        requires
            i < self.store@.len(),
            searchable(self.store@, self.query@),
            q@ == self.query@,
        ensures
            match r {
                Some(t) => self.ask().fuzzy(self.store@[i as int]) == Some(t as nat),
                None => self.ask().fuzzy(self.store@[i as int]) is None,
            },
    {
        if !passes_fuzzy(self.store, i, self.filters, self.lines) {
            return None;
        }
        let path = self.store.get(i);
        let chars = chars_of(path);
        let ghost ask = self.ask();
        assert(self.store@[i as int].0 == path@);
        let path_score = score_text(self.query, path, matcher);
        if path_score.is_none() {
            return None;
        }
        let name = segment_of(&chars);
        proof {
            let (a, b) = choose|a: int, b: int|
                0 <= a <= b <= path@.len() && name@ == #[trigger] path@.subrange(a, b);
            lemma_scorable_part(self.query@, path@, a, b);
        }
        let name_score = score_text(self.query, &name, matcher);
        let dir = !self.lines && is_dir(path);
        assert(self.filters@.path_terms.len() == self.filters.path_terms@.len());
        let name_required = dir && !self.filters.dirs_only && self.filters.path_terms.is_empty()
            && !has_char(q, '/');
        let pair_score: Option<u32> = if has_two_words(q) && !dir {
            match pair_of(&chars) {
                Some(pair) => {
                    proof {
                        let (a, b) = choose|a: int, b: int|
                            0 <= a <= b <= path@.len() && pair@ == #[trigger] path@.subrange(a, b);
                        lemma_scorable_part(self.query@, path@, a, b);
                    }
                    score_text(self.query, &pair, matcher)
                },
                None => None,
            }
        } else {
            None
        };
        assert(pair_score == ask.pair_score(path@));
        let boost = find_boost(self.boosts, path);
        weigh(path_score, name_score, pair_score, name_required, boost, self.is_quiet(path))
    }

    fn fuzzy(&self, watch: &mut Watch<'_>) -> (r: Option<Ranked>)
        requires
            searchable(self.store@, self.query@),
            old(watch).valid(),
            old(watch).wanted(),
        ensures
            final(watch).after_looks(
                *old(watch),
                chunks(self.store@.len() as int) + 1,
                r is Some,
            ),
            r matches Some(x) ==> matches_outcome(
                x,
                self.ask().fuzzy_outcome(self.store@, self.limit as int),
            ),
    {
        let q = chars_of(self.query);
        let mut matcher = new_matcher();
        let mut top = TopK::new(self.limit);
        let ghost ask = self.ask();
        let ghost es = self.store@;
        let ghost start = *watch;
        let mut i: usize = 0;
        while i < self.store.len()
            invariant
                i <= self.store@.len(),
                es == self.store@,
                ask == self.ask(),
                start == *old(watch),
                watch.follows(start),
                watch.wanted(),
                watch.seen@.len() == start.seen@.len() + chunks(i as int),
                searchable(self.store@, self.query@),
                q@ == self.query@,
                top.cap == self.limit,
                top.holds(ask.fuzzy_candidates(es, i as int)),
            decreases self.store@.len() - i,
        {
            if i % CHUNK == 0 && watch.is_stale() {
                return None;
            }
            match self.score(i, &q, &mut matcher) {
                Some(score) => {
                    let path = self.store.get(i);
                    let c = Candidate { score, index: i, quiet: self.is_quiet(path) };
                    assert(ask.fuzzy_candidates(es, i + 1) == ask.fuzzy_candidates(
                        es,
                        i as int,
                    ).push(c));
                    top.push(c, Ghost(ask.fuzzy_candidates(es, i as int)));
                },
                None => {},
            }
            i += 1;
        }
        if watch.is_stale() {
            return None;
        }
        let strong = count_strong(&top.kept);
        let mut indices: Vec<usize> = Vec::new();
        push_indices(&mut indices, &top.kept);
        assert(indices@ =~= indices_of(top.kept@));
        Some(Ranked { indices, strong })
    }

    fn regex_filter(
        &self,
        re: &regex::Regex,
        Ghost(pattern): Ghost<Seq<char>>,
        Ghost(ignore_case): Ghost<bool>,
        watch: &mut Watch<'_>,
    ) -> (r: Option<Ranked>)
        requires
            compiled_from(*re, pattern, ignore_case),
            old(watch).valid(),
            old(watch).wanted(),
        ensures
            final(watch).after_looks(
                *old(watch),
                chunks(self.store@.len() as int) + 1,
                r is Some,
            ),
            r matches Some(x) ==> matches_outcome(
                x,
                self.ask().regex_outcome(
                    self.store@,
                    self.limit as int,
                    pattern,
                    ignore_case,
                ),
            ),
    {
        let ghost ask = self.ask();
        let ghost es = self.store@;
        let ghost start = *watch;
        let ghost keep = |path: Seq<char>| regex_matches(pattern, ignore_case, path);
        let mut hits: Vec<Candidate> = Vec::new();
        let mut i: usize = 0;
        while i < self.store.len()
            invariant
                i <= self.store@.len(),
                es == self.store@,
                ask == self.ask(),
                start == *old(watch),
                watch.follows(start),
                watch.wanted(),
                watch.seen@.len() == start.seen@.len() + chunks(i as int),
                compiled_from(*re, pattern, ignore_case),
                keep == (|path: Seq<char>| regex_matches(pattern, ignore_case, path)),
                hits@ == ask.listed(es, i as int, keep),
            decreases self.store@.len() - i,
        {
            if i % CHUNK == 0 && watch.is_stale() {
                return None;
            }
            let path = self.store.get(i);
            if passes(self.store, i, self.filters, self.lines) && is_regex_match(re, path) {
                hits.push(
                    Candidate {
                        score: find_boost(self.boosts, path) as u64,
                        index: i,
                        quiet: false,
                    },
                );
            }
            i += 1;
        }
        if watch.is_stale() {
            return None;
        }
        let best = rank(&hits, self.limit);
        let mut indices: Vec<usize> = Vec::new();
        push_indices(&mut indices, &best);
        assert(indices@ =~= indices_of(best@));
        let strong = indices.len();
        Some(Ranked { indices, strong })
    }

    fn head_with_boosts(&self, watch: &mut Watch<'_>) -> (r: Option<Ranked>)
        requires
            old(watch).valid(),
            old(watch).wanted(),
        ensures
            final(watch).after_looks(
                *old(watch),
                chunks(self.store@.len() as int),
                r is Some,
            ),
            r matches Some(x) ==> matches_outcome(
                x,
                self.ask().head_outcome(self.store@, self.limit as int),
            ),
    {
        let ghost ask = self.ask();
        let ghost es = self.store@;
        let ghost start = *watch;
        let mut boosted: Vec<Candidate> = Vec::new();
        let mut plain: Vec<Candidate> = Vec::new();
        let mut quiet: Vec<Candidate> = Vec::new();
        let mut i: usize = 0;
        while i < self.store.len()
            invariant
                i <= self.store@.len(),
                es == self.store@,
                ask == self.ask(),
                start == *old(watch),
                watch.follows(start),
                watch.wanted(),
                watch.seen@.len() == start.seen@.len() + chunks(i as int),
                boosted@ == ask.listed(es, i as int, ask.boosted()),
                plain@ == ask.listed(es, i as int, ask.plain()),
                quiet@ == ask.listed(es, i as int, ask.folded()),
            decreases self.store@.len() - i,
        {
            if i % CHUNK == 0 && watch.is_stale() {
                return None;
            }
            if passes(self.store, i, self.filters, self.lines) {
                let path = self.store.get(i);
                match self.boosts.get(path) {
                    Some(b) => {
                        boosted.push(Candidate { score: *b as u64, index: i, quiet: false });
                    },
                    None => {
                        let c = Candidate { score: 0, index: i, quiet: false };
                        if self.is_quiet(path) {
                            quiet.push(c);
                        } else {
                            plain.push(c);
                        }
                    },
                }
            }
            i += 1;
        }
        let first = rank(&boosted, boosted.len());
        proof {
            ranking_sorts(boosted@);
            assert(first@ =~= best_first(boosted@));
        }
        let mut indices: Vec<usize> = Vec::new();
        push_indices(&mut indices, &first);
        push_indices(&mut indices, &plain);
        let ghost front = indices_of(first@) + indices_of(plain@);
        assert(indices@ =~= front);
        let strong: usize = if indices.len() < self.limit {
            indices.len()
        } else {
            self.limit
        };
        push_indices(&mut indices, &quiet);
        let ghost all = front + indices_of(quiet@);
        assert(indices@ == all);
        if indices.len() > self.limit {
            indices.truncate(self.limit);
        }
        assert(indices@ =~= head(all, self.limit as int));
        Some(Ranked { indices, strong })
    }

    fn run(&self, mode: FilenameMode, watch: &mut Watch<'_>) -> (r: Result<Option<Ranked>, String>)
        requires
            mode == FilenameMode::Fuzzy ==> searchable(self.store@, self.query@),
            old(watch).valid(),
            old(watch).seen@.len() == 0,
        ensures
            final(watch).follows(*old(watch)),
            ({
                let o = self.ask().outcome(self.store@, mode, self.limit as int);
                let looks = self.ask().looks(self.store@.len() as int, mode);
                let made = final(watch).seen@.len();
                match r {
                    Ok(Some(x)) => matches_outcome(x, o) && final(watch).wanted() && made == looks,
                    Ok(None) => final(watch).given_up() && made <= looks,
                    Err(e) => o == Outcome::Err(e@) && final(watch).wanted() && made == looks,
                }
            }),
    {
        if watch.is_stale() {
            return Ok(None);
        }
        let q = chars_of(self.query);
        if q.len() == 0 {
            return Ok(self.head_with_boosts(watch));
        }
        match mode {
            FilenameMode::Fuzzy => Ok(self.fuzzy(watch)),
            FilenameMode::Regex => match compile_regex(self.query, smart_case(self.query)) {
                Ok(re) => Ok(
                    self.regex_filter(
                        &re,
                        Ghost(self.query@),
                        Ghost(ignores_case(self.query@)),
                        watch,
                    ),
                ),
                Err(e) => Err(e),
            },
        }
    }
}

fn demoted<'a>(quiet: &'a Quiet, query: &str, filters: &Filters) -> (r: Option<&'a Quiet>)
    ensures
        (match r {
            Some(q) => Some(q@),
            None => None,
        }) == demotion(quiet@, query@, filters@),
{
    assert(filters@.path_terms.len() == filters.path_terms@.len());
    let q = chars_of(query);
    let path_intent = has_char(&q, '/') || !filters.path_terms.is_empty() || filters.dirs_only;
    if !quiet.is_empty() && !path_intent {
        Some(quiet)
    } else {
        None
    }
}

/// What a search over files looks for.
pub open spec fn file_ask(
    query: Seq<char>,
    boosts: Map<Seq<char>, u32>,
    filters: FilterSet,
    quiet: Seq<Seq<char>>,
) -> Ask {
    Ask { query, filters, lines: false, boosts, demote: demotion(quiet, query, filters) }
}

/// What a search over lines looks for.
pub open spec fn line_ask(query: Seq<char>, filters: FilterSet) -> Ask {
    Ask { query, filters, lines: true, boosts: Map::empty(), demote: None }
}

/// The contract of a search: its outcome, exactly.
pub open spec fn returns_outcome(r: Result<Ranked, String>, o: Outcome) -> bool {
    match r {
        Ok(x) => matches_outcome(x, o),
        Err(e) => o == Outcome::Err(e@),
    }
}

/// The contract of a search that is given up when one of its `looks` shows
/// another generation: nothing then, the outcome otherwise. Where `seen` ends,
/// the search's own generation stays current.
pub open spec fn returns_unless_stale(
    r: Result<Option<Ranked>, String>,
    generation: u64,
    seen: Seq<u64>,
    looks: int,
    o: Outcome,
) -> bool {
    let stale = exists|k: int| 0 <= k < looks && k < seen.len() && #[trigger] seen[k] != generation;
    match r {
        Ok(Some(x)) => !stale && matches_outcome(x, o),
        Ok(None) => stale,
        Err(e) => !stale && o == Outcome::Err(e@),
    }
}

/// The looks that a search made: all of them, or those up to the first that
/// showed another generation.
pub open spec fn made_looks(generation: u64, seen: Seq<u64>, looks: int) -> bool {
    &&& 0 < seen.len() <= looks
    &&& forall|k: int| 0 <= k < seen.len() - 1 ==> #[trigger] seen[k] == generation
    &&& seen.len() < looks ==> seen.last() != generation
}

/// The contract of a search that watches a counter: what the counter showed at
/// the search's looks decides what is returned.
pub open spec fn returns_while_current(
    r: Result<Option<Ranked>, String>,
    generation: u64,
    counter: &AtomicU64,
    looks: int,
    o: Outcome,
) -> bool {
    exists|seen: Seq<u64>| #[trigger]
        were_read(counter, seen) && made_looks(generation, seen, looks) && returns_unless_stale(
            r,
            generation,
            seen,
            looks,
            o,
        )
}

pub fn search(store: &PathStore, query: &str, mode: FilenameMode, limit: usize) -> (r: Result<
    Ranked,
    String,
>)
    requires
        mode == FilenameMode::Fuzzy ==> searchable(store@, query@),
    ensures
        returns_outcome(
            r,
            file_ask(query@, Map::empty(), no_filters(), Seq::empty()).outcome(
                store@,
                mode,
                limit as int,
            ),
        ),
{
    let quiet = Quiet::new(Vec::new());
    assert(quiet@ =~= Seq::<Seq<char>>::empty());
    search_boosted(store, query, mode, limit, &PathMap::new(), &Filters::default(), &quiet)
}

/// Like [`search`], with per-path ranking boosts (from open history).
pub fn search_boosted(
    store: &PathStore,
    query: &str,
    mode: FilenameMode,
    limit: usize,
    boosts: &PathMap<u32>,
    filters: &Filters,
    quiet: &Quiet,
) -> (r: Result<Ranked, String>)
    requires
        mode == FilenameMode::Fuzzy ==> searchable(store@, query@),
    ensures
        returns_outcome(
            r,
            file_ask(query@, boosts@, filters@, quiet@).outcome(store@, mode, limit as int),
        ),
{
    let demote = demoted(quiet, query, filters);
    let job = Job { store, query, limit, boosts, filters, lines: false, demote };
    match job.run(mode, &mut Watch::new(0, Source::Nowhere)) {
        Ok(Some(x)) => Ok(x),
        Ok(None) => Ok(Ranked::default()),
        Err(e) => Err(e),
    }
}

/// Like [`search_boosted`], but drops work when a newer generation is
/// published.
pub fn search_boosted_generation(
    store: &PathStore,
    query: &str,
    mode: FilenameMode,
    limit: usize,
    boosts: &PathMap<u32>,
    filters: &Filters,
    quiet: &Quiet,
    generation: u64,
    current_generation: &AtomicU64,
) -> (r: Result<Option<Ranked>, String>)
    requires
        mode == FilenameMode::Fuzzy ==> searchable(store@, query@),
    ensures
        ({
            let ask = file_ask(query@, boosts@, filters@, quiet@);
            returns_while_current(
                r,
                generation,
                current_generation,
                ask.looks(store@.len() as int, mode),
                ask.outcome(store@, mode, limit as int),
            )
        }),
{
    let demote = demoted(quiet, query, filters);
    let job = Job { store, query, limit, boosts, filters, lines: false, demote };
    let mut watch = Watch::new(generation, Source::Counter(current_generation));
    let r = job.run(mode, &mut watch);
    assert(were_read(current_generation, watch.seen@));
    r
}

/// Like [`search_boosted_generation`], for given readings of the current
/// generation, one for each look; after the last of them the search is left in
/// peace.
pub fn search_boosted_readings(
    store: &PathStore,
    query: &str,
    mode: FilenameMode,
    limit: usize,
    boosts: &PathMap<u32>,
    filters: &Filters,
    quiet: &Quiet,
    generation: u64,
    readings: &[u64],
) -> (r: Result<Option<Ranked>, String>)
    requires
        mode == FilenameMode::Fuzzy ==> searchable(store@, query@),
    ensures
        ({
            let ask = file_ask(query@, boosts@, filters@, quiet@);
            returns_unless_stale(
                r,
                generation,
                readings@,
                ask.looks(store@.len() as int, mode),
                ask.outcome(store@, mode, limit as int),
            )
        }),
{
    let demote = demoted(quiet, query, filters);
    let job = Job { store, query, limit, boosts, filters, lines: false, demote };
    let mut watch = Watch::new(generation, Source::Readings(readings));
    let r = job.run(mode, &mut watch);
    proof {
        watch.lemma_readings(readings@);
    }
    r
}

/// Match arbitrary lines without interpreting a trailing slash as a
/// directory. Explicit filters keep their normal meaning.
pub fn search_lines(
    store: &PathStore,
    query: &str,
    mode: FilenameMode,
    limit: usize,
    filters: &Filters,
) -> (r: Result<Ranked, String>)
    requires
        mode == FilenameMode::Fuzzy ==> searchable(store@, query@),
    ensures
        returns_outcome(r, line_ask(query@, filters@).outcome(store@, mode, limit as int)),
{
    let boosts: PathMap<u32> = PathMap::new();
    let job = Job {
        store,
        query,
        limit,
        boosts: &boosts,
        filters,
        lines: true,
        demote: None,
    };
    match job.run(mode, &mut Watch::new(0, Source::Nowhere)) {
        Ok(Some(x)) => Ok(x),
        Ok(None) => Ok(Ranked::default()),
        Err(e) => Err(e),
    }
}

/// Like [`search_lines`], but drops work when a newer generation is published.
pub fn search_lines_generation(
    store: &PathStore,
    query: &str,
    mode: FilenameMode,
    limit: usize,
    filters: &Filters,
    generation: u64,
    current_generation: &AtomicU64,
) -> (r: Result<Option<Ranked>, String>)
    requires
        mode == FilenameMode::Fuzzy ==> searchable(store@, query@),
    ensures
        ({
            let ask = line_ask(query@, filters@);
            returns_while_current(
                r,
                generation,
                current_generation,
                ask.looks(store@.len() as int, mode),
                ask.outcome(store@, mode, limit as int),
            )
        }),
{
    let boosts: PathMap<u32> = PathMap::new();
    let job = Job { store, query, limit, boosts: &boosts, filters, lines: true, demote: None };
    let mut watch = Watch::new(generation, Source::Counter(current_generation));
    let r = job.run(mode, &mut watch);
    assert(were_read(current_generation, watch.seen@));
    r
}

/// Like [`search_lines_generation`], for given readings of the current
/// generation, one for each look; after the last of them the search is left in
/// peace.
pub fn search_lines_readings(
    store: &PathStore,
    query: &str,
    mode: FilenameMode,
    limit: usize,
    filters: &Filters,
    generation: u64,
    readings: &[u64],
) -> (r: Result<Option<Ranked>, String>)
    requires
        mode == FilenameMode::Fuzzy ==> searchable(store@, query@),
    ensures
        ({
            let ask = line_ask(query@, filters@);
            returns_unless_stale(
                r,
                generation,
                readings@,
                ask.looks(store@.len() as int, mode),
                ask.outcome(store@, mode, limit as int),
            )
        }),
{
    let boosts: PathMap<u32> = PathMap::new();
    let job = Job { store, query, limit, boosts: &boosts, filters, lines: true, demote: None };
    let mut watch = Watch::new(generation, Source::Readings(readings));
    let r = job.run(mode, &mut watch);
    proof {
        watch.lemma_readings(readings@);
    }
    r
}

// ------------------------------------------------------------- highlighting

/// The distinct numbers of a list in increasing order.
pub fn sorted_unique(v: &Vec<u32>) -> (r: Vec<u32>)
    ensures
        forall|i: int, j: int| 0 <= i < j < r@.len() ==> r@[i] < r@[j],
        forall|x: u32| r@.contains(x) <==> v@.contains(x),
{
    let mut out: Vec<u32> = Vec::new();
    let mut i: usize = 0;
    while i < v.len()
        invariant
            i <= v.len(),
            forall|a: int, b: int| 0 <= a < b < out@.len() ==> out@[a] < out@[b],
            forall|x: u32| out@.contains(x) <==> v@.take(i as int).contains(x),
        decreases v.len() - i,
    {
        let x: u32 = v[i];
        let mut at: usize = out.len();
        while at > 0 && out[at - 1] > x
            invariant
                at <= out@.len(),
                forall|a: int, b: int| 0 <= a < b < out@.len() ==> out@[a] < out@[b],
                forall|a: int| at <= a < out@.len() ==> out@[a] > x,
            decreases at,
        {
            at -= 1;
        }
        let ghost before = out@;
        let present = at > 0 && out[at - 1] == x;
        if !present {
            out.insert(at, x);
            assert(out@ == before.insert(at as int, x));
        }
        proof {
            let t = v@.take(i as int);
            let u = v@.take(i + 1);
            assert(u == t.push(x));
            assert forall|y: u32| out@.contains(y) <==> u.contains(y) by {
                assert(before.contains(y) <==> t.contains(y));
                if u.contains(y) {
                    let k = choose|k: int| 0 <= k < u.len() && u[k] == y;
                    if k < i {
                        assert(t[k] == y);
                        assert(t.contains(y));
                        let m = choose|m: int| 0 <= m < before.len() && before[m] == y;
                        if !present && m >= at {
                            assert(out@[m + 1] == y);
                        } else {
                            assert(out@[m] == y);
                        }
                    } else {
                        if present {
                            assert(out@[at - 1] == y);
                        } else {
                            assert(out@[at as int] == y);
                        }
                    }
                }
                if out@.contains(y) {
                    let m = choose|m: int| 0 <= m < out@.len() && out@[m] == y;
                    if !present && m == at {
                        assert(u[i as int] == y);
                    } else {
                        if !present && m > at {
                            assert(before[m - 1] == y);
                        } else {
                            assert(before[m] == y);
                        }
                        assert(before.contains(y));
                        let k = choose|k: int| 0 <= k < t.len() && t[k] == y;
                        assert(u[k] == y);
                    }
                }
            }
        }
        i += 1;
    }
    assert(v@.take(i as int) == v@);
    out
}

/// Runs a fuzzy pattern against single strings to recover the matched
/// character positions (for highlighting the visible result rows).
pub struct Highlighter {
    query: String,
    matcher: Matcher,
}

impl Highlighter {
    pub closed spec fn query(&self) -> Seq<char> {
        self.query@
    }

    pub fn new(query: &str) -> (r: Highlighter)
        ensures
            r.query() == query@,
    {
        Highlighter { query: query.to_owned(), matcher: new_matcher() }
    }

    /// Matched character positions in `text`, sorted and deduplicated.
    pub fn positions(&mut self, text: &str) -> (r: Vec<u32>)
        requires
            scorable_text(old(self).query(), text@),
        ensures
            final(self).query() == old(self).query(),
            forall|i: int, j: int| 0 <= i < j < r@.len() ==> r@[i] < r@[j],
            forall|x: u32|
                r@.contains(x) <==> fuzzy_indices(old(self).query(), text@).contains(x),
    {
        let indices = matched_indices(&self.query, text, &mut self.matcher);
        sorted_unique(&indices)
    }
}

/// Finds the first match of a content query in a line, with smart case.
pub struct LineMatcher {
    re: regex::Regex,
    pattern: Ghost<(Seq<char>, bool)>,
}

impl LineMatcher {
    #[verifier::type_invariant]
    spec fn is_compiled(self) -> bool {
        compiled_from(self.re, self.pattern@.0, self.pattern@.1)
    }

    pub closed spec fn source(&self) -> (Seq<char>, bool) {
        self.pattern@
    }

    /// Nothing where the pattern is not a regular expression.
    pub fn new(pattern: &str) -> (r: Option<LineMatcher>)
        ensures
            r is Some == (regex_error(pattern@, ignores_case(pattern@)) is None),
            r matches Some(m) ==> m.source() == (pattern@, ignores_case(pattern@)),
    {
        let ignore_case = smart_case(pattern);
        match compile_regex(pattern, ignore_case) {
            Ok(re) => Some(LineMatcher { re, pattern: Ghost((pattern@, ignore_case)) }),
            Err(_) => None,
        }
    }

    /// The characters between which the line first matches.
    pub fn first_match(&self, line: &str) -> (r: Option<(usize, usize)>)
        ensures
            match regex_found(self.source().0, self.source().1, line@) {
                Some((from, to)) => r matches Some((start, end)) && {
                    &&& start <= end <= line@.len()
                    &&& encode_utf8(line@.take(start as int)).len() == from
                    &&& encode_utf8(line@.take(end as int)).len() == to
                },
                None => r is None,
            },
    {
        proof {
            use_type_invariant(self);
        }
        match find_in(&self.re, line) {
            Some((from, to)) => {
                let start = chars_within(line, from);
                let end = chars_within(line, to);
                proof {
                    if end < start {
                        lemma_prefix_width(line@, end as int, start as int);
                    }
                }
                Some((start, end))
            },
            None => None,
        }
    }
}

// --------------------------------------------------------------------- laws

proof fn lemma_candidates_in_range(ask: Ask, es: Seq<EntryView>, n: int)
    requires
        0 <= n <= es.len() <= usize::MAX,
    ensures
        ({
            let cs = ask.fuzzy_candidates(es, n);
            &&& cs.len() <= n
            &&& forall|k: int|
                0 <= k < cs.len() ==> {
                    let c = #[trigger] cs[k];
                    &&& c.index < n
                    &&& entry_passes_fuzzy(es[c.index as int], ask.filters, ask.lines)
                    &&& fuzzy_score(ask.query, es[c.index as int].0) is Some
                    &&& c.quiet == ask.quiet(es[c.index as int].0)
                }
            &&& forall|j: int, k: int|
                0 <= j < k < cs.len() ==> (#[trigger] cs[j]).index < (#[trigger] cs[k]).index
        }),
    decreases n,
{
    if n > 0 {
        lemma_candidates_in_range(ask, es, n - 1);
    }
}

/// What one order of some items holds, another one holds too.
pub proof fn lemma_permuted<T>(a: Seq<T>, b: Seq<T>, i: int)
    requires
        a.to_multiset() == b.to_multiset(),
        0 <= i < a.len(),
    ensures
        b.contains(a[i]),
{
    broadcast use vstd::seq_lib::group_to_multiset_ensures;

    assert(a.contains(a[i]));
    assert(a.to_multiset().contains(a[i]));
}

/// Every fuzzy result is an entry of the index that the filters admit and
/// whose path matches the query, and there are at most `limit`.
pub proof fn fuzzy_results_match(ask: Ask, es: Seq<EntryView>, limit: int)
    requires
        es.len() <= usize::MAX,
        0 <= limit,
    ensures
        ({
            let r = ask.fuzzy_outcome(es, limit)->Ok_0.0;
            &&& r.len() <= limit
            &&& forall|k: int|
                0 <= k < r.len() ==> {
                    let i = #[trigger] r[k];
                    &&& i < es.len()
                    &&& entry_passes_fuzzy(es[i as int], ask.filters, ask.lines)
                    &&& fuzzy_score(ask.query, es[i as int].0) is Some
                }
        }),
{
    let cs = ask.fuzzy_candidates(es, es.len() as int);
    lemma_candidates_in_range(ask, es, es.len() as int);
    ranking_sorts(cs);
    let best = head(best_first(cs), limit);
    let r = indices_of(best);
    assert forall|k: int| 0 <= k < r.len() implies {
        let i = #[trigger] r[k];
        &&& i < es.len()
        &&& entry_passes_fuzzy(es[i as int], ask.filters, ask.lines)
        &&& fuzzy_score(ask.query, es[i as int].0) is Some
    } by {
        lemma_permuted(best_first(cs), cs, k);
        assert(best[k] == best_first(cs)[k]);
        let j = choose|j: int| 0 <= j < cs.len() && cs[j] == best[k];
        assert(r[k] == cs[j].index);
    }
}

/// No entry is listed twice.
pub proof fn fuzzy_results_are_distinct(ask: Ask, es: Seq<EntryView>, limit: int)
    requires
        es.len() <= usize::MAX,
        0 <= limit,
    ensures
        ask.fuzzy_outcome(es, limit)->Ok_0.0.no_duplicates(),
{
    let cs = ask.fuzzy_candidates(es, es.len() as int);
    lemma_candidates_in_range(ask, es, es.len() as int);
    ranking_sorts(cs);
    let sorted = best_first(cs);
    let r = indices_of(head(sorted, limit));
    assert(cs.no_duplicates()) by {
        assert forall|i: int, j: int| 0 <= i < cs.len() && 0 <= j < cs.len() && i != j implies cs[i]
            != cs[j] by {
            if i < j {
                assert(cs[i].index < cs[j].index);
            } else {
                assert(cs[j].index < cs[i].index);
            }
        }
    }
    cs.lemma_multiset_has_no_duplicates();
    sorted.lemma_multiset_has_no_duplicates_conv();
    assert forall|i: int, j: int| 0 <= i < r.len() && 0 <= j < r.len() && i != j implies r[i]
        != r[j] by {
        assert(sorted[i] != sorted[j]);
        lemma_permuted(sorted, cs, i);
        lemma_permuted(sorted, cs, j);
        let a = choose|a: int| 0 <= a < cs.len() && cs[a] == sorted[i];
        let b = choose|b: int| 0 <= b < cs.len() && cs[b] == sorted[j];
        if a < b {
            assert(cs[a].index < cs[b].index);
        } else {
            assert(cs[b].index < cs[a].index);
        }
    }
}

/// Demotion never hides a path: with and without it the same entries are
/// candidates.
pub proof fn demotion_hides_nothing(
    ask: Ask,
    patterns: Option<Seq<Seq<char>>>,
    es: Seq<EntryView>,
    n: int,
)
    requires
        0 <= n <= es.len(),
    ensures
        indices_of(ask.fuzzy_candidates(es, n)) == indices_of(
            (Ask { demote: patterns, ..ask }).fuzzy_candidates(es, n),
        ),
    decreases n,
{
    let other = Ask { demote: patterns, ..ask };
    if n > 0 {
        demotion_hides_nothing(ask, patterns, es, n - 1);
        let (a, b) = (ask.fuzzy_candidates(es, n - 1), other.fuzzy_candidates(es, n - 1));
        assert((ask.fuzzy(es[n - 1]) is Some) == (other.fuzzy(es[n - 1]) is Some));
        assert(indices_of(ask.fuzzy_candidates(es, n)) =~= if ask.fuzzy(es[n - 1]) is Some {
            indices_of(a).push((n - 1) as usize)
        } else {
            indices_of(a)
        });
        assert(indices_of(other.fuzzy_candidates(es, n)) =~= if ask.fuzzy(es[n - 1]) is Some {
            indices_of(b).push((n - 1) as usize)
        } else {
            indices_of(b)
        });
    } else {
        assert(indices_of(ask.fuzzy_candidates(es, n)) =~= indices_of(
            other.fuzzy_candidates(es, n),
        ));
    }
}

proof fn lemma_leading_head(cs: Seq<Candidate>, floor: int, k: int)
    requires
        0 <= k,
    ensures
        leading(head(cs, k), floor) == (if leading(cs, floor) < k {
            leading(cs, floor)
        } else {
            k
        }),
    decreases cs.len(),
{
    lemma_leading(cs, floor);
    if cs.len() > 0 && cs[0].score >= floor && k > 0 {
        lemma_leading_head(cs.drop_first(), floor, k - 1);
        assert(head(cs, k).drop_first() =~= head(cs.drop_first(), k - 1));
        assert(head(cs, k)[0] == cs[0]);
    } else if cs.len() > 0 && k > 0 {
        assert(head(cs, k)[0] == cs[0]);
    }
}

proof fn lemma_loud_head(cs: Seq<Candidate>, k: int)
    requires
        0 <= k,
    ensures
        loud(head(cs, k)) == (if loud(cs) < k {
            loud(cs)
        } else {
            k
        }),
    decreases cs.len(),
{
    lemma_loud(cs);
    if cs.len() > 0 && !cs[0].quiet && k > 0 {
        lemma_loud_head(cs.drop_first(), k - 1);
        assert(head(cs, k).drop_first() =~= head(cs.drop_first(), k - 1));
        assert(head(cs, k)[0] == cs[0]);
    } else if cs.len() > 0 && k > 0 {
        assert(head(cs, k)[0] == cs[0]);
    }
}

proof fn lemma_floor_head(cs: Seq<Candidate>, k: int)
    requires
        0 <= k,
    ensures
        above_floor(head(cs, k)) == (if above_floor(cs) < k {
            above_floor(cs)
        } else {
            k
        }),
        0 <= above_floor(cs) <= cs.len(),
{
    if cs.len() > 0 {
        let floor = (cs[0].score / 2) as int;
        lemma_leading(cs, floor);
        lemma_leading_head(cs, floor, k);
        if k > 0 {
            assert(head(cs, k)[0] == cs[0]);
        }
    }
}

/// The fold does not depend on how many results are asked for: of the best
/// `limit` candidates those are strong that are strong among all.
pub proof fn fold_is_independent_of_the_limit(cs: Seq<Candidate>, limit: int)
    requires
        0 <= limit,
    ensures
        strong_of(head(cs, limit)) == (if strong_of(cs) < limit {
            strong_of(cs)
        } else {
            limit
        }),
{
    let t = head(cs, limit);
    lemma_loud(cs);
    lemma_loud_head(cs, limit);
    if limit == 0 {
        assert(t.len() == 0);
        lemma_floor_head(cs, 0);
        lemma_floor_head(cs.take(loud(cs)), 0);
    } else if loud(cs) > 0 {
        let l = cs.take(loud(cs));
        lemma_floor_head(l, limit);
        assert(t.take(loud(t)) =~= head(l, limit));
    } else {
        lemma_floor_head(cs, limit);
    }
}

proof fn lemma_head_of_head<T>(s: Seq<T>, n: int, k: int)
    requires
        0 <= k <= n,
    ensures
        head(head(s, n), k) == head(s, k),
{
    assert(head(head(s, n), k) =~= head(s, k));
}

/// Asking for fewer results gives a prefix of the longer ranking, and of its
/// strong results; the same error otherwise.
pub proof fn shorter_rankings_are_prefixes(
    ask: Ask,
    es: Seq<EntryView>,
    mode: FilenameMode,
    n: int,
    k: int,
)
    requires
        0 <= k <= n,
    ensures
        match (ask.outcome(es, mode, n), ask.outcome(es, mode, k)) {
            (Ok(long), Ok(short)) => {
                &&& short.0 == head(long.0, k)
                &&& short.1 == if long.1 < k {
                    long.1
                } else {
                    k
                }
            },
            (Err(a), Err(b)) => a == b,
            _ => false,
        },
{
    let es_len = es.len() as int;
    if ask.query.len() == 0 {
        let boosted = indices_of(best_first(ask.listed(es, es_len, ask.boosted())));
        let plain = indices_of(ask.listed(es, es_len, ask.plain()));
        let quiet = indices_of(ask.listed(es, es_len, ask.folded()));
        lemma_head_of_head(boosted + plain + quiet, n, k);
    } else {
        let best = match mode {
            FilenameMode::Fuzzy => best_first(ask.fuzzy_candidates(es, es_len)),
            FilenameMode::Regex => {
                let (pattern, ignore_case) = (ask.query, ignores_case(ask.query));
                best_first(
                    ask.listed(
                        es,
                        es_len,
                        |path: Seq<char>| regex_matches(pattern, ignore_case, path),
                    ),
                )
            },
        };
        lemma_head_of_head(best, n, k);
        fold_is_independent_of_the_limit(best, n);
        fold_is_independent_of_the_limit(best, k);
        assert(indices_of(head(best, k)) =~= head(indices_of(head(best, n)), k));
    }
}

/// Every candidate stands for an entry.
spec fn in_range(cs: Seq<Candidate>, n: int) -> bool {
    forall|k: int| 0 <= k < cs.len() ==> (#[trigger] cs[k]).index < n
}

proof fn lemma_listed_in_range(
    ask: Ask,
    es: Seq<EntryView>,
    n: int,
    keep: spec_fn(Seq<char>) -> bool,
)
    requires
        0 <= n <= es.len() <= usize::MAX,
    ensures
        in_range(ask.listed(es, n, keep), n),
    decreases n,
{
    if n > 0 {
        lemma_listed_in_range(ask, es, n - 1, keep);
    }
}

proof fn lemma_ranked_in_range(cs: Seq<Candidate>, n: int)
    requires
        in_range(cs, n),
    ensures
        in_range(best_first(cs), n),
{
    ranking_sorts(cs);
    assert forall|k: int| 0 <= k < best_first(cs).len() implies (#[trigger] best_first(
        cs,
    )[k]).index < n by {
        lemma_permuted(best_first(cs), cs, k);
        let j = choose|j: int| 0 <= j < cs.len() && cs[j] == best_first(cs)[k];
        assert(cs[j].index < n);
    }
}

/// Every result of a search is an entry of the index, and the fold lies within
/// the results.
pub proof fn results_are_entries(ask: Ask, es: Seq<EntryView>, mode: FilenameMode, limit: int)
    requires
        es.len() <= usize::MAX,
        0 <= limit,
    ensures
        ask.outcome(es, mode, limit) matches Ok(v) ==> {
            &&& 0 <= v.1 <= v.0.len() <= limit
            &&& forall|k: int| 0 <= k < v.0.len() ==> (#[trigger] v.0[k]) < es.len()
        },
{
    let n = es.len() as int;
    if ask.query.len() == 0 {
        lemma_listed_in_range(ask, es, n, ask.boosted());
        lemma_listed_in_range(ask, es, n, ask.plain());
        lemma_listed_in_range(ask, es, n, ask.folded());
        lemma_ranked_in_range(ask.listed(es, n, ask.boosted()), n);
    } else {
        match mode {
            FilenameMode::Fuzzy => {
                let cs = ask.fuzzy_candidates(es, n);
                lemma_candidates_in_range(ask, es, n);
                lemma_ranked_in_range(cs, n);
                let best = head(best_first(cs), limit);
                lemma_loud(best);
                lemma_floor_head(best, limit);
                lemma_floor_head(best.take(loud(best)), limit);
            },
            FilenameMode::Regex => {
                let pattern = ask.query;
                let ignore_case = ignores_case(ask.query);
                let keep = |path: Seq<char>| regex_matches(pattern, ignore_case, path);
                lemma_listed_in_range(ask, es, n, keep);
                lemma_ranked_in_range(ask.listed(es, n, keep), n);
            },
        }
    }
}


// ------------------------------------------------------------ laws of ranking

/// Wherever `j` is listed, `i` is listed above it.
pub open spec fn comes_first(r: Seq<usize>, i: int, j: int) -> bool {
    forall|q: int|
        0 <= q < r.len() && #[trigger] r[q] == j ==> exists|p: int|
            0 <= p < q && #[trigger] r[p] == i
}

/// The candidates stand in the order of the index, each once.
pub open spec fn in_index_order(cs: Seq<Candidate>) -> bool {
    forall|j: int, k: int|
        0 <= j < k < cs.len() ==> (#[trigger] cs[j]).index < (#[trigger] cs[k]).index
}

/// A candidate that ranks before another is listed above it.
pub proof fn lemma_comes_first(cs: Seq<Candidate>, limit: int, a: int, b: int)
    requires
        in_index_order(cs),
        0 <= limit,
        0 <= a < cs.len(),
        0 <= b < cs.len(),
        ranks_before(cs[a], cs[b]),
    ensures
        comes_first(
            indices_of(head(best_first(cs), limit)),
            cs[a].index as int,
            cs[b].index as int,
        ),
{
    ranking_sorts(cs);
    let sorted = best_first(cs);
    let r = indices_of(head(sorted, limit));
    assert forall|q: int| 0 <= q < r.len() && #[trigger] r[q] == cs[b].index as int implies exists|
        p: int,
    | 0 <= p < q && #[trigger] r[p] == cs[a].index as int by {
        lemma_permuted(sorted, cs, q);
        let c = choose|c: int| 0 <= c < cs.len() && cs[c] == sorted[q];
        if c < b {
            assert(cs[c].index < cs[b].index);
        } else if b < c {
            assert(cs[b].index < cs[c].index);
        }
        lemma_permuted(cs, sorted, a);
        let p = choose|p: int| 0 <= p < sorted.len() && sorted[p] == cs[a];
        if q < p {
            assert(!ranks_before(sorted[p], sorted[q]));
        }
        assert(r[p] == cs[a].index);
    }
}

/// A list that is not full holds every candidate.
pub proof fn lemma_listed_unless_full(cs: Seq<Candidate>, limit: int, a: int)
    requires
        0 <= limit,
        0 <= a < cs.len(),
        indices_of(head(best_first(cs), limit)).len() < limit,
    ensures
        indices_of(head(best_first(cs), limit)).contains(cs[a].index),
{
    ranking_sorts(cs);
    let sorted = best_first(cs);
    let r = indices_of(head(sorted, limit));
    lemma_permuted(cs, sorted, a);
    let p = choose|p: int| 0 <= p < sorted.len() && sorted[p] == cs[a];
    assert(r[p] == cs[a].index);
}

proof fn lemma_fuzzy_candidate(ask: Ask, es: Seq<EntryView>, n: int, i: int) -> (k: int)
    requires
        0 <= i < n <= es.len() <= usize::MAX,
        ask.fuzzy(es[i]) is Some,
    ensures
        0 <= k < ask.fuzzy_candidates(es, n).len(),
        ask.fuzzy_candidates(es, n)[k] == (Candidate {
            score: ask.fuzzy(es[i])->0 as u64,
            index: i as usize,
            quiet: ask.quiet(es[i].0),
        }),
    decreases n,
{
    if i == n - 1 {
        ask.fuzzy_candidates(es, n).len() - 1
    } else {
        lemma_fuzzy_candidate(ask, es, n - 1, i)
    }
}

/// An entry that a fuzzy search finds: the filters let it pass, its path
/// matches, and so does its own name where it is a directory and the user does
/// not navigate paths.
pub open spec fn is_found(ask: Ask, e: EntryView) -> bool {
    let navigates = ask.query.contains('/') || ask.filters.path_terms.len() > 0
        || ask.filters.dirs_only;
    &&& entry_passes_fuzzy(e, ask.filters, ask.lines)
    &&& fuzzy_score(ask.query, e.0) is Some
    &&& (ask.lines || navigates || e.0.len() == 0 || e.0.last() != '/' || fuzzy_score(
        ask.query,
        last_segment(e.0),
    ) is Some)
}

pub open spec fn points(score: Option<u32>) -> int {
    if score is Some {
        score->0 as int
    } else {
        0
    }
}

/// What an entry has been boosted by.
pub open spec fn boost(ask: Ask, e: EntryView) -> int {
    if ask.boosts.dom().contains(e.0) {
        ask.boosts[e.0] as int
    } else {
        0
    }
}

/// What counts for an entry in a fuzzy search, in half points: its path, its
/// name and its boost in full, and by half the last two segments of a file where
/// the query has several words.
pub open spec fn half_points(ask: Ask, e: EntryView) -> int {
    let is_file = ask.lines || e.0.len() == 0 || e.0.last() != '/';
    let pair = match last_two_segments(e.0) {
        Some(two) => if is_file && multi_word(ask.query) {
            points(fuzzy_score(ask.query, two))
        } else {
            0
        },
        None => 0,
    };
    2 * points(fuzzy_score(ask.query, e.0)) + 2 * points(
        fuzzy_score(ask.query, last_segment(e.0)),
    ) + pair + 2 * boost(ask, e)
}

/// The path is one of those that are kept low in the ranking.
pub open spec fn is_demoted(ask: Ask, e: EntryView) -> bool {
    ask.demote is Some && exists|k: int|
        0 <= k < ask.demote->0.len() && contains_text(e.0, #[trigger] ask.demote->0[k])
}

/// A fuzzy search finds every entry that matches: the list is full, or the
/// entry is on it. Nothing else is listed.
pub proof fn fuzzy_searches_find_all_matches(ask: Ask, es: Seq<EntryView>, limit: int, i: int)
    requires
        es.len() <= usize::MAX,
        0 <= limit,
        0 <= i < es.len(),
    ensures
        ({
            let r = ask.fuzzy_outcome(es, limit)->Ok_0.0;
            &&& is_found(ask, es[i]) && r.len() < limit ==> r.contains(i as usize)
            &&& r.contains(i as usize) ==> is_found(ask, es[i])
        }),
{
    let cs = ask.fuzzy_candidates(es, es.len() as int);
    let r = ask.fuzzy_outcome(es, limit)->Ok_0.0;
    assert(is_found(ask, es[i]) <==> ask.fuzzy(es[i]) is Some);
    if is_found(ask, es[i]) && r.len() < limit {
        let k = lemma_fuzzy_candidate(ask, es, es.len() as int, i);
        lemma_listed_unless_full(cs, limit, k);
    }
    if r.contains(i as usize) {
        let q = choose|q: int| 0 <= q < r.len() && r[q] == i as usize;
        ranking_sorts(cs);
        lemma_permuted(best_first(cs), cs, q);
        let k = choose|k: int| 0 <= k < cs.len() && cs[k] == best_first(cs)[q];
        lemma_candidate_scores(ask, es, es.len() as int, k);
    }
}

proof fn lemma_candidate_scores(ask: Ask, es: Seq<EntryView>, n: int, k: int)
    requires
        0 <= n <= es.len() <= usize::MAX,
        0 <= k < ask.fuzzy_candidates(es, n).len(),
    ensures
        ({
            let c = ask.fuzzy_candidates(es, n)[k];
            &&& c.index < n
            &&& ask.fuzzy(es[c.index as int]) is Some
            &&& c.score == ask.fuzzy(es[c.index as int])->0 as u64
        }),
    decreases n,
{
    if n > 0 && k < ask.fuzzy_candidates(es, n - 1).len() {
        lemma_candidate_scores(ask, es, n - 1, k);
    }
}

proof fn lemma_total(ask: Ask, e: EntryView)
    requires
        is_found(ask, e),
    ensures
        ask.fuzzy(e) is Some,
        ask.quiet(e.0) == is_demoted(ask, e),
        0 <= half_points(ask, e) <= 7 * u32::MAX,
        !is_demoted(ask, e) ==> ask.fuzzy(e)->0 == half_points(ask, e) / 2,
        is_demoted(ask, e) ==> ask.fuzzy(e)->0 == (half_points(ask, e) / 2) * 2 / 5,
{
}

/// Of two entries that a fuzzy search finds, the one that counts for more is
/// listed first, by what their paths, names, last two segments and boosts
/// score. Among equals the earlier one comes first. A demoted entry comes after
/// every other one.
pub proof fn better_matches_come_first(
    ask: Ask,
    es: Seq<EntryView>,
    limit: int,
    i: int,
    j: int,
)
    requires
        es.len() <= usize::MAX,
        0 <= limit,
        0 <= i < es.len(),
        0 <= j < es.len(),
        i != j,
        is_found(ask, es[i]),
        is_found(ask, es[j]),
    ensures
        ({
            let r = ask.fuzzy_outcome(es, limit)->Ok_0.0;
            let (a, b) = (half_points(ask, es[i]), half_points(ask, es[j]));
            let (low, other) = (is_demoted(ask, es[i]), is_demoted(ask, es[j]));
            &&& !low && other ==> comes_first(r, i, j)
            &&& !low && !other && a >= b + 2 ==> comes_first(r, i, j)
            &&& low && other && a >= b + 6 ==> comes_first(r, i, j)
            &&& low == other && a >= b && i < j ==> comes_first(r, i, j)
        }),
{
    let n = es.len() as int;
    let cs = ask.fuzzy_candidates(es, n);
    lemma_total(ask, es[i]);
    lemma_total(ask, es[j]);
    lemma_candidates_in_range(ask, es, n);
    let a = lemma_fuzzy_candidate(ask, es, n, i);
    let b = lemma_fuzzy_candidate(ask, es, n, j);
    if ranks_before(cs[a], cs[b]) {
        lemma_comes_first(cs, limit, a, b);
    }
}


proof fn lemma_listed(ask: Ask, es: Seq<EntryView>, n: int, keep: spec_fn(Seq<char>) -> bool)
    requires
        0 <= n <= es.len() <= usize::MAX,
    ensures
        in_index_order(ask.listed(es, n, keep)),
        forall|k: int|
            0 <= k < ask.listed(es, n, keep).len() ==> {
                let c = #[trigger] ask.listed(es, n, keep)[k];
                let e = es[c.index as int];
                &&& c.index < n
                &&& entry_passes(e, ask.filters, ask.lines)
                &&& keep(e.0)
                &&& !c.quiet
                &&& c.score == boost(ask, e)
            },
    decreases n,
{
    if n > 0 {
        lemma_listed(ask, es, n - 1, keep);
    }
}

proof fn lemma_listed_candidate(
    ask: Ask,
    es: Seq<EntryView>,
    n: int,
    keep: spec_fn(Seq<char>) -> bool,
    i: int,
) -> (k: int)
    requires
        0 <= i < n <= es.len() <= usize::MAX,
        entry_passes(es[i], ask.filters, ask.lines),
        keep(es[i].0),
    ensures
        0 <= k < ask.listed(es, n, keep).len(),
        ask.listed(es, n, keep)[k].index == i,
    decreases n,
{
    if i == n - 1 {
        ask.listed(es, n, keep).len() - 1
    } else {
        lemma_listed_candidate(ask, es, n - 1, keep, i)
    }
}

/// A search by a regular expression lists the entries that match it, all of
/// them unless the list is full. Those with higher boosts come first, and among
/// equals the earlier ones. Every one of them is strong.
pub proof fn expressions_list_their_matches(
    ask: Ask,
    es: Seq<EntryView>,
    limit: int,
    pattern: Seq<char>,
    ignore_case: bool,
    i: int,
    j: int,
)
    requires
        es.len() <= usize::MAX,
        0 <= limit,
        0 <= i < es.len(),
        0 <= j < es.len(),
    ensures
        ({
            let o = ask.regex_outcome(es, limit, pattern, ignore_case)->Ok_0;
            let hit = |e: EntryView|
                entry_passes(e, ask.filters, ask.lines) && regex_matches(
                    pattern,
                    ignore_case,
                    e.0,
                );
            let (a, b) = (boost(ask, es[i]), boost(ask, es[j]));
            &&& o.1 == o.0.len()
            &&& o.0.contains(i as usize) ==> hit(es[i])
            &&& hit(es[i]) && o.0.len() < limit ==> o.0.contains(i as usize)
            &&& hit(es[i]) && hit(es[j]) && (a > b || a == b && i < j) ==> comes_first(o.0, i, j)
        }),
{
    let n = es.len() as int;
    let keep = |path: Seq<char>| regex_matches(pattern, ignore_case, path);
    let cs = ask.listed(es, n, keep);
    let r = ask.regex_outcome(es, limit, pattern, ignore_case)->Ok_0.0;
    lemma_listed(ask, es, n, keep);
    ranking_sorts(cs);
    if r.contains(i as usize) {
        let q = choose|q: int| 0 <= q < r.len() && r[q] == i as usize;
        lemma_permuted(best_first(cs), cs, q);
        let k = choose|k: int| 0 <= k < cs.len() && cs[k] == best_first(cs)[q];
        assert(cs[k].index == i);
        assert(keep(es[i].0));
    }
    if entry_passes(es[i], ask.filters, ask.lines) && regex_matches(
        pattern,
        ignore_case,
        es[i].0,
    ) {
        let k = lemma_listed_candidate(ask, es, n, keep, i);
        if r.len() < limit {
            lemma_listed_unless_full(cs, limit, k);
        }
        if entry_passes(es[j], ask.filters, ask.lines) && regex_matches(
            pattern,
            ignore_case,
            es[j].0,
        ) {
            let m = lemma_listed_candidate(ask, es, n, keep, j);
            let (a, b) = (cs[k], cs[m]);
            if ranks_before(a, b) {
                lemma_comes_first(cs, limit, k, m);
            }
        }
    }
}

/// Where an entry stands without a query: entries that have been opened before,
/// then others, then demoted ones.
pub open spec fn block(ask: Ask, e: EntryView) -> int {
    if ask.boosts.dom().contains(e.0) {
        0
    } else if is_demoted(ask, e) {
        2
    } else {
        1
    }
}

/// The entries of a block, best first.
spec fn block_list(ask: Ask, es: Seq<EntryView>, b: int) -> Seq<usize> {
    let n = es.len() as int;
    if b == 0 {
        indices_of(best_first(ask.listed(es, n, ask.boosted())))
    } else if b == 1 {
        indices_of(ask.listed(es, n, ask.plain()))
    } else {
        indices_of(ask.listed(es, n, ask.folded()))
    }
}

spec fn block_keep(ask: Ask, b: int) -> spec_fn(Seq<char>) -> bool {
    if b == 0 {
        ask.boosted()
    } else if b == 1 {
        ask.plain()
    } else {
        ask.folded()
    }
}

/// Entry `i` is above entry `j` within their block.
spec fn above(ask: Ask, es: Seq<EntryView>, i: int, j: int) -> bool {
    let (a, b) = (boost(ask, es[i]), boost(ask, es[j]));
    a > b || a == b && i < j
}

proof fn lemma_block(ask: Ask, es: Seq<EntryView>, b: int)
    requires
        es.len() <= usize::MAX,
        0 <= b <= 2,
    ensures
        ({
            let l = block_list(ask, es, b);
            &&& forall|q: int|
                0 <= q < l.len() ==> {
                    let i = #[trigger] l[q];
                    &&& i < es.len()
                    &&& entry_passes(es[i as int], ask.filters, ask.lines)
                    &&& block(ask, es[i as int]) == b
                }
            &&& forall|i: int|
                #![trigger es[i]]
                0 <= i < es.len() && entry_passes(es[i], ask.filters, ask.lines) && block(
                    ask,
                    es[i],
                ) == b ==> l.contains(i as usize)
        }),
{
    let n = es.len() as int;
    let keep = block_keep(ask, b);
    let cs = ask.listed(es, n, keep);
    let l = block_list(ask, es, b);
    lemma_listed(ask, es, n, keep);
    ranking_sorts(cs);
    let order = if b == 0 {
        best_first(cs)
    } else {
        cs
    };
    assert(l == indices_of(order));
    assert forall|q: int| 0 <= q < l.len() implies {
        let i = #[trigger] l[q];
        &&& i < es.len()
        &&& entry_passes(es[i as int], ask.filters, ask.lines)
        &&& block(ask, es[i as int]) == b
    } by {
        lemma_permuted(order, cs, q);
        let k = choose|k: int| 0 <= k < cs.len() && cs[k] == order[q];
        assert(cs[k].index == l[q]);
        assert(keep(es[l[q] as int].0));
    }
    assert forall|i: int|
        #![trigger es[i]]
        0 <= i < es.len() && entry_passes(es[i], ask.filters, ask.lines) && block(ask, es[i])
            == b implies l.contains(i as usize) by {
        let k = lemma_listed_candidate(ask, es, n, keep, i);
        lemma_permuted(cs, order, k);
        let p = choose|p: int| 0 <= p < order.len() && order[p] == cs[k];
        assert(l[p] == i as usize);
    }
}

proof fn lemma_block_order(ask: Ask, es: Seq<EntryView>, b: int, i: int, j: int)
    requires
        es.len() <= usize::MAX,
        0 <= b <= 2,
        0 <= i < es.len(),
        0 <= j < es.len(),
        entry_passes(es[i], ask.filters, ask.lines),
        entry_passes(es[j], ask.filters, ask.lines),
        block(ask, es[i]) == b,
        block(ask, es[j]) == b,
        above(ask, es, i, j),
    ensures
        comes_first(block_list(ask, es, b), i, j),
{
    let n = es.len() as int;
    let keep = block_keep(ask, b);
    let cs = ask.listed(es, n, keep);
    let l = block_list(ask, es, b);
    lemma_listed(ask, es, n, keep);
    let k = lemma_listed_candidate(ask, es, n, keep, i);
    let m = lemma_listed_candidate(ask, es, n, keep, j);
    if b == 0 {
        let (x, y) = (cs[k], cs[m]);
        assert(ranks_before(x, y));
        ranking_sorts(cs);
        lemma_comes_first(cs, cs.len() as int, k, m);
        assert(head(best_first(cs), cs.len() as int) =~= best_first(cs));
    } else {
        assert forall|q: int| 0 <= q < l.len() && #[trigger] l[q] == j implies exists|p: int|
            0 <= p < q && #[trigger] l[p] == i by {
            assert(cs[q].index == j);
            if q < k {
                assert(cs[q].index < cs[k].index);
            }
            assert(l[k] == i);
        }
    }
}

/// Without a query every entry that passes the filters is listed, unless the
/// list is full: entries that have been opened before, by their boosts; others
/// in index order; demoted ones in index order. All but the last are strong.
pub proof fn launch_lists_are_in_order(ask: Ask, es: Seq<EntryView>, limit: int, i: int, j: int)
    requires
        es.len() <= usize::MAX,
        0 <= limit,
        0 <= i < es.len(),
        0 <= j < es.len(),
    ensures
        ({
            let o = ask.head_outcome(es, limit)->Ok_0;
            let passes = |e: EntryView| entry_passes(e, ask.filters, ask.lines);
            let (x, y) = (block(ask, es[i]), block(ask, es[j]));
            let (a, b) = (boost(ask, es[i]), boost(ask, es[j]));
            &&& o.0.contains(i as usize) ==> passes(es[i])
            &&& passes(es[i]) && o.0.len() < limit ==> o.0.contains(i as usize)
            &&& passes(es[i]) && passes(es[j]) && (x < y || x == y && (a > b || a == b && i < j))
                ==> comes_first(o.0, i, j)
            &&& 0 <= o.1 <= o.0.len()
            &&& forall|q: int|
                0 <= q < o.0.len() ==> #[trigger] o.0[q] < es.len() && (q < o.1 <==> block(
                    ask,
                    es[o.0[q] as int],
                ) < 2)
        }),
{
    let o = ask.head_outcome(es, limit)->Ok_0;
    let (l0, l1, l2) = (
        block_list(ask, es, 0),
        block_list(ask, es, 1),
        block_list(ask, es, 2),
    );
    let all = l0 + l1 + l2;
    lemma_block(ask, es, 0);
    lemma_block(ask, es, 1);
    lemma_block(ask, es, 2);
    assert(o.0 == head(all, limit));
    let (x, y) = (block(ask, es[i]), block(ask, es[j]));
    let start = |b: int|
        if b == 0 {
            0int
        } else if b == 1 {
            l0.len() as int
        } else {
            l0.len() as int + l1.len()
        };
    let passes = |e: EntryView| entry_passes(e, ask.filters, ask.lines);
    assert forall|q: int| 0 <= q < o.0.len() implies {
        let e = es[#[trigger] o.0[q] as int];
        &&& o.0[q] < es.len()
        &&& passes(e)
        &&& 0 <= q - start(block(ask, e)) < block_list(ask, es, block(ask, e)).len()
        &&& block_list(ask, es, block(ask, e))[q - start(block(ask, e))] == o.0[q]
        &&& (q < o.1 <==> block(ask, e) < 2)
    } by {
        if q < l0.len() {
            assert(o.0[q] == l0[q]);
        } else if q < l0.len() + l1.len() {
            assert(o.0[q] == l1[q - l0.len()]);
        } else {
            assert(o.0[q] == l2[q - l0.len() - l1.len()]);
        }
    }
    if passes(es[i]) {
        let l = block_list(ask, es, x);
        assert(l.contains(i as usize));
        let p = choose|p: int| 0 <= p < l.len() && l[p] == i as usize;
        assert(all[start(x) + p] == i as usize);
        if o.0.len() < limit {
            assert(o.0[start(x) + p] == i as usize);
        }
        if passes(es[j]) && (x < y || x == y && above(ask, es, i, j)) {
            assert forall|q: int| 0 <= q < o.0.len() && #[trigger] o.0[q] == j implies exists|
                p: int,
            | 0 <= p < q && #[trigger] o.0[p] == i by {
                assert(es[o.0[q] as int] == es[j]);
                if x < y {
                    assert(start(x) + p < q);
                    assert(o.0[start(x) + p] == i);
                } else {
                    lemma_block_order(ask, es, x, i, j);
                    assert(l[q - start(x)] == j);
                    let t = choose|t: int| 0 <= t < q - start(x) && l[t] == i;
                    assert(all[start(x) + t] == i);
                    assert(o.0[start(x) + t] == i);
                }
            }
        }
    }
}


/// What an entry that a fuzzy search finds scores: half its half points, and of
/// a demoted one two fifths of that.
pub open spec fn shown_score(ask: Ask, e: EntryView) -> int {
    if is_demoted(ask, e) {
        half_points(ask, e) / 2 * 2 / 5
    } else {
        half_points(ask, e) / 2
    }
}

proof fn lemma_above_floor(cs: Seq<Candidate>, q: int)
    requires
        0 <= q < cs.len(),
        forall|i: int, j: int|
            0 <= i < j < cs.len() ==> (#[trigger] cs[i]).score >= (#[trigger] cs[j]).score,
    ensures
        q < above_floor(cs) <==> q < 8 || cs[q].score >= cs[0].score / 2,
{
    let floor = (cs[0].score / 2) as int;
    lemma_leading(cs, floor);
    let kept = leading(cs, floor);
    if q < kept {
        assert(cs[q].score >= floor);
    } else if kept < q {
        assert(cs[kept].score >= cs[q].score);
    }
}

/// The fold of a fuzzy search: a result stays above it where it is demoted only
/// if the best one is, and scores at least half of what the best one does or is
/// among the first eight.
pub proof fn folds_keep_half_of_the_best(ask: Ask, es: Seq<EntryView>, limit: int, q: int)
    requires
        es.len() <= usize::MAX,
        0 <= q < ask.fuzzy_outcome(es, limit)->Ok_0.0.len(),
        0 <= limit,
    ensures
        ({
            let o = ask.fuzzy_outcome(es, limit)->Ok_0;
            let (e, best) = (es[o.0[q] as int], es[o.0[0] as int]);
            &&& o.0[q] < es.len()
            &&& q < o.1 <==> {
                &&& is_demoted(ask, e) == is_demoted(ask, best)
                &&& q < 8 || shown_score(ask, e) >= shown_score(ask, best) / 2
            }
        }),
{
    let n = es.len() as int;
    let cs = ask.fuzzy_candidates(es, n);
    let sorted = best_first(cs);
    let best = head(sorted, limit);
    let o = ask.fuzzy_outcome(es, limit)->Ok_0;
    ranking_sorts(cs);
    lemma_head_ranked(sorted, limit);
    lemma_candidates_in_range(ask, es, n);
    assert forall|p: int| 0 <= p < best.len() implies {
        let c = #[trigger] best[p];
        let e = es[c.index as int];
        &&& o.0[p] == c.index
        &&& c.index < es.len()
        &&& c.quiet == is_demoted(ask, e)
        &&& c.score == shown_score(ask, e)
    } by {
        lemma_permuted(sorted, cs, p);
        assert(best[p] == sorted[p]);
        let k = choose|k: int| 0 <= k < cs.len() && cs[k] == sorted[p];
        lemma_candidate_scores(ask, es, n, k);
        let e = es[cs[k].index as int];
        assert(is_found(ask, e));
        lemma_total(ask, e);
    }
    assert(best[q].index == o.0[q] && best[0].index == o.0[0]);
    lemma_loud(best);
    let l = loud(best);
    if l > 0 {
        let t = best.take(l);
        assert forall|i: int, j: int| 0 <= i < j < t.len() implies (#[trigger] t[i]).score >= (
        #[trigger] t[j]).score by {
            assert(t[i] == best[i] && t[j] == best[j]);
            assert(!ranks_before(best[j], best[i]));
        }
        if q < l {
            assert(t[q] == best[q] && t[0] == best[0]);
            lemma_above_floor(t, q);
        } else {
            lemma_floor_head(t, 0);
            if l < q {
                assert(!ranks_before(best[q], best[l]));
            }
        }
    } else {
        assert forall|i: int, j: int| 0 <= i < j < best.len() implies (#[trigger] best[i]).score
            >= (#[trigger] best[j]).score by {
            assert(!ranks_before(best[j], best[i]));
            if i > 0 {
                assert(!ranks_before(best[i], best[0]));
            }
            assert(!ranks_before(best[j], best[0]));
        }
        if q > 0 {
            assert(!ranks_before(best[q], best[0]));
        }
        lemma_above_floor(best, q);
    }
}

/// Demotion is off where the user navigates paths: with a slash in the query,
/// with a `path:` filter, and with `dir:`. Otherwise it falls on the paths that
/// hold one of the patterns. Lines of standard input are never demoted.
pub proof fn navigation_switches_demotion_off(
    query: Seq<char>,
    boosts: Map<Seq<char>, u32>,
    filters: FilterSet,
    patterns: Seq<Seq<char>>,
    e: EntryView,
)
    ensures
        is_demoted(file_ask(query, boosts, filters, patterns), e) <==> {
            &&& !query.contains('/')
            &&& filters.path_terms.len() == 0
            &&& !filters.dirs_only
            &&& exists|k: int|
                0 <= k < patterns.len() && contains_text(e.0, #[trigger] patterns[k])
        },
        !is_demoted(line_ask(query, filters), e),
{
}

/// A query minds case where, and only where, it holds an upper-case letter.
pub proof fn upper_case_letters_mind_case(before: Seq<char>, c: char, after: Seq<char>)
    ensures
        is_uppercase(c) ==> !ignores_case(before + seq![c] + after),
        !is_uppercase(c) && ignores_case(before) && ignores_case(after) ==> ignores_case(
            before + seq![c] + after,
        ),
        ignores_case(Seq::empty()),
{
    let q = before + seq![c] + after;
    assert(q[before.len() as int] == c);
    if !is_uppercase(c) && ignores_case(before) && ignores_case(after) {
        assert forall|i: int| 0 <= i < q.len() implies !is_uppercase(#[trigger] q[i]) by {
            if i < before.len() {
                assert(q[i] == before[i]);
            } else if i > before.len() {
                assert(q[i] == after[i - before.len() - 1]);
            }
        }
    }
}

proof fn lemma_slashes(s: Seq<char>, k: int, n: int)
    requires
        0 <= k <= n <= s.len(),
        forall|i: int| k <= i < n ==> s[i] == '/',
        k == 0 || s[k - 1] != '/',
    ensures
        unslashed_len(s, n) == k,
    decreases n,
{
    if k < n {
        assert(s[n - 1] == '/');
        lemma_slashes(s, k, n - 1);
    }
}

proof fn lemma_segment(s: Seq<char>, k: int, n: int)
    requires
        0 <= k <= n <= s.len(),
        forall|i: int| k <= i < n ==> s[i] != '/',
        k == 0 || s[k - 1] == '/',
    ensures
        component_start(s, n) == k,
        last_index_of(s, '/', n) == k - 1,
    decreases n,
{
    if k < n {
        assert(s[n - 1] != '/');
        lemma_segment(s, k, n - 1);
    }
}

/// The parts of a path that a fuzzy search looks at on their own: its last
/// name, and its last two names with the slash between them. Slashes at the end
/// do not count.
pub proof fn segments_are_the_last_names(
    before: Seq<char>,
    parent: Seq<char>,
    name: Seq<char>,
    slashes: Seq<char>,
)
    requires
        before.len() == 0 || before.last() == '/',
        name.len() > 0,
        !name.contains('/'),
        !parent.contains('/'),
        forall|i: int| 0 <= i < slashes.len() ==> #[trigger] slashes[i] == '/',
    ensures
        last_segment(before + name + slashes) == name,
        last_two_segments(before + parent + seq!['/'] + name + slashes) == Some(
            parent + seq!['/'] + name,
        ),
        last_two_segments(name + slashes) is None,
{
    let s = before + name + slashes;
    let n = before.len() as int + name.len();
    assert forall|i: int| before.len() <= i < n implies s[i] != '/' by {
        assert(s[i] == name[i - before.len()]);
        assert(name.contains(s[i]));
    }
    assert forall|i: int| n <= i < s.len() implies s[i] == '/' by {
        assert(s[i] == slashes[i - n]);
    }
    assert(s[n - 1] != '/');
    if before.len() > 0 {
        assert(s[before.len() as int - 1] == before.last());
    }
    lemma_slashes(s, n, s.len() as int);
    lemma_segment(s, before.len() as int, n);
    assert(s.subrange(before.len() as int, n) =~= name);
    let t = before + parent + seq!['/'] + name + slashes;
    let b = before.len() as int;
    let p = b + parent.len();
    let m = p + 1 + name.len();
    assert(t[p] == '/');
    assert forall|i: int| b <= i < p implies t[i] != '/' by {
        assert(t[i] == parent[i - b]);
        assert(parent.contains(t[i]));
    }
    assert forall|i: int| p + 1 <= i < m implies t[i] != '/' by {
        assert(t[i] == name[i - p - 1]);
        assert(name.contains(t[i]));
    }
    assert forall|i: int| m <= i < t.len() implies t[i] == '/' by {
        assert(t[i] == slashes[i - m]);
    }
    assert(t[m - 1] != '/');
    if before.len() > 0 {
        assert(t[b - 1] == before.last());
    }
    lemma_slashes(t, m, t.len() as int);
    lemma_segment(t, p + 1, m);
    lemma_segment(t, b, p);
    assert(t.subrange(b, m) =~= parent + seq!['/'] + name);
    let u = name + slashes;
    let k = name.len() as int;
    assert forall|i: int| 0 <= i < k implies u[i] != '/' by {
        assert(u[i] == name[i]);
        assert(name.contains(u[i]));
    }
    assert forall|i: int| k <= i < u.len() implies u[i] == '/' by {
        assert(u[i] == slashes[i - k]);
    }
    assert(u[k - 1] != '/');
    lemma_slashes(u, k, u.len() as int);
    lemma_segment(u, 0, k);
}

proof fn lemma_word(q: Seq<char>, i: int)
    requires
        0 <= i <= q.len(),
    ensures
        i <= skip_spaces(q, i) <= q.len(),
        forall|k: int| i <= k < skip_spaces(q, i) ==> is_space(#[trigger] q[k]),
        skip_spaces(q, i) < q.len() ==> !is_space(q[skip_spaces(q, i)]),
        i <= token_end(q, i) <= q.len(),
        forall|k: int| i <= k < token_end(q, i) ==> !is_space(#[trigger] q[k]),
        token_end(q, i) < q.len() ==> is_space(q[token_end(q, i)]),
    decreases q.len() - i,
{
    if i < q.len() {
        lemma_word(q, i + 1);
    }
}

/// A query has more than one word where a space stands between two characters
/// that are none.
pub proof fn words_are_parted_by_spaces(q: Seq<char>)
    ensures
        multi_word(q) <==> exists|i: int, j: int, k: int|
            0 <= i < j < k < q.len() && !is_space(#[trigger] q[i]) && is_space(#[trigger] q[j])
                && !is_space(#[trigger] q[k]),
{
    let a = skip_spaces(q, 0);
    lemma_word(q, 0);
    lemma_word(q, a);
    let b = token_end(q, a);
    lemma_word(q, b);
    let c = skip_spaces(q, b);
    if c < q.len() {
        if a == q.len() {
            assert(b == q.len());
        }
        assert(!is_space(q[a]) && !is_space(q[c]));
        assert(b < q.len());
        assert(is_space(q[b]));
        assert(a < b < c);
    }
    if exists|i: int, j: int, k: int|
        0 <= i < j < k < q.len() && !is_space(#[trigger] q[i]) && is_space(#[trigger] q[j])
            && !is_space(#[trigger] q[k]) {
        let (i, j, k) = choose|i: int, j: int, k: int|
            0 <= i < j < k < q.len() && !is_space(#[trigger] q[i]) && is_space(#[trigger] q[j])
                && !is_space(#[trigger] q[k]);
        assert(a <= i) by {
            if i < a {
                assert(is_space(q[i]));
            }
        }
        assert(b <= j) by {
            if j < b {
                assert(!is_space(q[j]));
            }
        }
        assert(c <= k) by {
            if k < c {
                assert(is_space(q[k]));
            }
        }
    }
}


/// Directories turn up in fuzzy searches and where they are asked for, files
/// wherever none are. The filters on paths, sizes and times hold for both.
/// Lines of standard input count as files, whatever they end in, unless the
/// filters ask for directories or extensions.
pub proof fn directories_turn_up_in_fuzzy_searches(e: EntryView, f: FilterSet)
    ensures
        is_dir_path(e.0) && !f.dirs_only ==> {
            &&& !entry_passes(e, f, false)
            &&& entry_passes_fuzzy(e, f, false) <==> f.exts.len() == 0 && has_terms(
                f.path_terms,
                e.0,
            ) && meta_passes(f, e.1)
        },
        is_dir_path(e.0) && f.dirs_only && f.exts.len() == 0 ==> {
            &&& entry_passes(e, f, false) <==> has_terms(f.path_terms, e.0) && meta_passes(f, e.1)
            &&& entry_passes_fuzzy(e, f, false) <==> entry_passes(e, f, false)
        },
        !is_dir_path(e.0) && f.dirs_only ==> !entry_passes_fuzzy(e, f, false),
        !is_dir_path(e.0) && !f.dirs_only && f.exts.len() == 0 ==> {
            &&& entry_passes(e, f, false) <==> has_terms(f.path_terms, e.0) && meta_passes(f, e.1)
            &&& entry_passes_fuzzy(e, f, false) <==> entry_passes(e, f, false)
        },
        !f.dirs_only && f.exts.len() == 0 ==> {
            &&& entry_passes(e, f, true) <==> has_terms(f.path_terms, e.0) && meta_passes(f, e.1)
            &&& entry_passes_fuzzy(e, f, true) <==> entry_passes(e, f, true)
        },
{
}

} // verus!
