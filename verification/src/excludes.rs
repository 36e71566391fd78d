//! Files that are never indexed.

use crate::text::{joined, lemma_texts_push, texts};
use globset::{Glob, GlobSet, GlobSetBuilder};
use vstd::prelude::*;
use vstd::string::*;

verus! {

/// A pattern for paths.
#[verifier::external_type_specification]
#[verifier::external_body]
pub struct ExGlob(globset::Glob);

/// The patterns of a set that is being made.
#[verifier::external_type_specification]
#[verifier::external_body]
pub struct ExGlobSetBuilder(globset::GlobSetBuilder);

/// A set of patterns.
#[verifier::external_type_specification]
#[verifier::external_body]
pub struct ExGlobSet(globset::GlobSet);

/// The text that a pattern was made of.
pub uninterp spec fn glob_text(glob: globset::Glob) -> Seq<char>;

/// The patterns added to a set that is being made, in order.
pub uninterp spec fn added_globs(builder: globset::GlobSetBuilder) -> Seq<Seq<char>>;

/// A set was made of these patterns.
pub uninterp spec fn made_of(set: globset::GlobSet, globs: Seq<Seq<char>>) -> bool;

/// The text of the error if a text is no pattern.
pub uninterp spec fn glob_error(text: Seq<char>) -> Option<Seq<char>>;

/// The text of the error if no set can be made of patterns.
pub uninterp spec fn glob_set_error(globs: Seq<Seq<char>>) -> Option<Seq<char>>;

/// Whether a pattern matches a path.
pub uninterp spec fn glob_matches(glob: Seq<char>, path: Seq<char>) -> bool;

/// `globset::Glob::new`: whether a text is a pattern, and the text of the error
/// if not, is a function of the text. The pattern stands for it.
#[verifier::external_body]
fn parse_glob(text: &str) -> (r: Result<Glob, String>)
    ensures
        match r {
            Ok(glob) => glob_error(text@) is None && glob_text(glob) == text@,
            Err(e) => glob_error(text@) == Some(e@),
        },
{
    Glob::new(text).map_err(|e| e.to_string())
}

/// `globset::GlobSetBuilder::new`, which holds no pattern.
#[verifier::external_body]
fn start_set() -> (r: GlobSetBuilder)
    ensures
        added_globs(r) == Seq::<Seq<char>>::empty(),
{
    GlobSetBuilder::new()
}

/// `globset::GlobSetBuilder::add`, which adds a pattern behind the others.
#[verifier::external_body]
fn add_glob(builder: &mut GlobSetBuilder, glob: Glob)
    ensures
        added_globs(*final(builder)) == added_globs(*old(builder)).push(glob_text(glob)),
{
    builder.add(glob);
}

/// `globset::GlobSetBuilder::build`, which makes a set of the added patterns:
/// whether it succeeds, and the text of the error, is a function of them.
#[verifier::external_body]
fn finish_set(builder: &GlobSetBuilder) -> (r: Result<GlobSet, String>)
    ensures
        match r {
            Ok(set) => glob_set_error(added_globs(*builder)) is None && made_of(
                set,
                added_globs(*builder),
            ),
            Err(e) => glob_set_error(added_globs(*builder)) == Some(e@),
        },
{
    builder.build().map_err(|e| e.to_string())
}

/// Whether one of the patterns matches a path.
pub open spec fn any_matches(globs: Seq<Seq<char>>, path: Seq<char>) -> bool {
    exists|i: int| 0 <= i < globs.len() && glob_matches(#[trigger] globs[i], path)
}

/// `globset::GlobSet::is_match`: a set matches a path if one of the patterns that
/// it was made of does.
#[verifier::external_body]
fn set_matches(set: &GlobSet, path: &str) -> (r: bool)
    ensures
        forall|globs: Seq<Seq<char>>| #[trigger]
            made_of(*set, globs) ==> r == (exists|i: int|
                0 <= i < globs.len() && glob_matches(#[trigger] globs[i], path@)),
{
    set.is_match(path)
}

/// The patterns for a name or path that is never indexed: itself, wherever it
/// stands, and all below it.
pub open spec fn globs_of(names: Seq<Seq<char>>) -> Seq<Seq<char>>
    decreases names.len(),
{
    if names.len() == 0 {
        Seq::empty()
    } else {
        globs_of(names.drop_last()).push("**/"@ + names.last()).push(
            "**/"@ + names.last() + "/**"@,
        )
    }
}

/// The error of the first text that is no pattern.
pub open spec fn first_glob_error(globs: Seq<Seq<char>>) -> Option<Seq<char>>
    decreases globs.len(),
{
    if globs.len() == 0 {
        None
    } else {
        match first_glob_error(globs.drop_last()) {
            Some(e) => Some(e),
            None => glob_error(globs.last()),
        }
    }
}

/// Why names cannot be excluded.
pub open spec fn exclude_error(names: Seq<Seq<char>>) -> Option<Seq<char>> {
    match first_glob_error(globs_of(names)) {
        Some(e) => Some(e),
        None => glob_set_error(globs_of(names)),
    }
}

/// The names and paths that are never indexed.
pub struct Excludes {
    set: GlobSet,
    globs: Ghost<Seq<Seq<char>>>,
}

impl View for Excludes {
    type V = Seq<Seq<char>>;

    /// The patterns of excluded paths.
    closed spec fn view(&self) -> Seq<Seq<char>> {
        self.globs@
    }
}

/// Adds a pattern of the given text.
fn add_pattern(builder: &mut GlobSetBuilder, text: &str) -> (r: Option<String>)
    ensures
        match r {
            Some(e) => glob_error(text@) == Some(e@),
            None => glob_error(text@) is None && added_globs(*final(builder)) == added_globs(
                *old(builder),
            ).push(text@),
        },
{
    match parse_glob(text) {
        Ok(glob) => {
            add_glob(builder, glob);
            None
        },
        Err(e) => Some(e),
    }
}

/// An error among the first patterns is the first error of all.
proof fn lemma_first_error_stays(globs: Seq<Seq<char>>, n: int)
    requires
        0 <= n <= globs.len(),
        first_glob_error(globs.take(n)) is Some,
    ensures
        first_glob_error(globs) == first_glob_error(globs.take(n)),
    decreases globs.len(),
{
    if n < globs.len() {
        assert(globs.drop_last().take(n) =~= globs.take(n));
        lemma_first_error_stays(globs.drop_last(), n);
    } else {
        assert(globs.take(n) =~= globs);
    }
}

/// The patterns of the first names come first.
proof fn lemma_globs_prefix(names: Seq<Seq<char>>, n: int)
    requires
        0 <= n <= names.len(),
    ensures
        globs_of(names.take(n)).len() <= globs_of(names).len(),
        globs_of(names).take(globs_of(names.take(n)).len() as int) == globs_of(names.take(n)),
    decreases names.len(),
{
    if n < names.len() {
        lemma_globs_prefix(names.drop_last(), n);
        assert(names.drop_last().take(n) =~= names.take(n));
        let less = globs_of(names.drop_last());
        let len = globs_of(names.take(n)).len() as int;
        assert(globs_of(names).take(len) =~= less.take(len));
    } else {
        assert(names.take(n) =~= names);
        assert(globs_of(names).take(globs_of(names).len() as int) =~= globs_of(names));
    }
}

/// The set of files that are never indexed, or what is wrong with a name.
pub fn build_exclude_set(names: &Vec<String>) -> (r: Result<Excludes, String>)
    ensures
        match r {
            Ok(excludes) => exclude_error(texts(names@)) is None && excludes@ == globs_of(
                texts(names@),
            ),
            Err(e) => exclude_error(texts(names@)) == Some(e@),
        },
{
    let ghost all = texts(names@);
    let mut builder = start_set();
    let mut i: usize = 0;
    assert(all.take(0) =~= Seq::<Seq<char>>::empty());
    while i < names.len()
        invariant
            i <= names@.len(),
            all == texts(names@),
            added_globs(builder) == globs_of(all.take(i as int)),
            first_glob_error(globs_of(all.take(i as int))) is None,
        decreases names@.len() - i,
    {
        let ghost now = all.take(i + 1);
        let ghost before = globs_of(all.take(i as int));
        let ghost mine = before.push("**/"@ + now.last());
        let ghost both = globs_of(now);
        assert(now.drop_last() =~= all.take(i as int));
        assert(now.last() == names@[i as int]@);
        assert(mine.drop_last() =~= before);
        assert(both.drop_last() =~= mine);
        assert(both.len() == before.len() + 2);
        proof {
            lemma_globs_prefix(all, i + 1);
            assert(both.take(mine.len() as int) =~= mine);
            assert(globs_of(all).take(mine.len() as int) =~= both.take(mine.len() as int));
        }
        let below = joined("**/", names[i].as_str());
        match add_pattern(&mut builder, below.as_str()) {
            Some(e) => {
                proof {
                    lemma_first_error_stays(globs_of(all), mine.len() as int);
                }
                return Err(e);
            },
            None => {},
        }
        let inside = joined(below.as_str(), "/**");
        assert(inside@ == "**/"@ + now.last() + "/**"@);
        match add_pattern(&mut builder, inside.as_str()) {
            Some(e) => {
                proof {
                    lemma_first_error_stays(globs_of(all), both.len() as int);
                }
                return Err(e);
            },
            None => {},
        }
        i += 1;
    }
    assert(all.take(i as int) =~= all);
    match finish_set(&builder) {
        Ok(set) => Ok(Excludes { set, globs: Ghost(globs_of(texts(names@))) }),
        Err(e) => Err(e),
    }
}

/// The paths among these that no pattern matches, in order.
pub open spec fn not_matched(globs: Seq<Seq<char>>, paths: Seq<Seq<char>>) -> Seq<Seq<char>>
    decreases paths.len(),
{
    if paths.len() == 0 {
        Seq::empty()
    } else {
        let before = not_matched(globs, paths.drop_last());
        if any_matches(globs, paths.last()) {
            before
        } else {
            before.push(paths.last())
        }
    }
}

impl Excludes {
    #[verifier::type_invariant]
    spec fn is_made(self) -> bool {
        made_of(self.set, self.globs@)
    }

    /// Whether a path is never indexed.
    pub fn is_match(&self, path: &str) -> (r: bool)
        ensures
            r == any_matches(self@, path@),
    {
        proof {
            use_type_invariant(self);
        }
        set_matches(&self.set, path)
    }

    /// The paths that may be indexed.
    pub fn kept(&self, paths: &Vec<String>) -> (r: Vec<String>)
        ensures
            texts(r@) == not_matched(self@, texts(paths@)),
    {
        let ghost all = texts(paths@);
        let mut out: Vec<String> = Vec::new();
        let mut i: usize = 0;
        assert(all.take(0) =~= Seq::<Seq<char>>::empty());
        assert(texts(out@) =~= Seq::<Seq<char>>::empty());
        while i < paths.len()
            invariant
                i <= paths@.len(),
                all == texts(paths@),
                texts(out@) == not_matched(self@, all.take(i as int)),
            decreases paths@.len() - i,
        {
            let ghost now = all.take(i + 1);
            assert(now.drop_last() =~= all.take(i as int));
            assert(now.last() == paths@[i as int]@);
            if !self.is_match(paths[i].as_str()) {
                let path = paths[i].as_str().to_owned();
                proof {
                    lemma_texts_push(out@, path);
                }
                out.push(path);
            }
            i += 1;
        }
        assert(all.take(i as int) =~= all);
        out
    }
}

/// What may be indexed is among the paths, and no pattern matches it; what is
/// left out is matched.
pub proof fn excluded_paths_are_left_out(globs: Seq<Seq<char>>, paths: Seq<Seq<char>>)
    ensures
        forall|path: Seq<char>| #[trigger]
            not_matched(globs, paths).contains(path) <==> paths.contains(path) && !any_matches(
                globs,
                path,
            ),
    decreases paths.len(),
{
    let kept = not_matched(globs, paths);
    if paths.len() > 0 {
        let fewer = paths.drop_last();
        let before = not_matched(globs, fewer);
        excluded_paths_are_left_out(globs, fewer);
        assert(fewer.push(paths.last()) =~= paths);
        assert forall|path: Seq<char>| #[trigger] kept.contains(path) <==> paths.contains(path)
            && !any_matches(globs, path) by {
            assert(before.contains(path) <==> fewer.contains(path) && !any_matches(globs, path));
            if fewer.contains(path) {
                let i = choose|i: int| 0 <= i < fewer.len() && fewer[i] == path;
                assert(paths[i] == path);
            }
            if paths.contains(path) && path != paths.last() {
                let i = choose|i: int| 0 <= i < paths.len() && paths[i] == path;
                assert(fewer[i] == path);
            }
            if path == paths.last() {
                assert(paths[paths.len() - 1] == path);
            }
            if before.contains(path) && kept.len() != before.len() {
                let i = choose|i: int| 0 <= i < before.len() && before[i] == path;
                assert(kept[i] == path);
            }
            if kept.contains(path) && path != paths.last() && kept.len() != before.len() {
                let i = choose|i: int| 0 <= i < kept.len() && kept[i] == path;
                assert(before[i] == path);
            }
            if path == paths.last() && kept.len() != before.len() {
                assert(kept[kept.len() - 1] == path);
            }
        }
    }
}


/// A path is never indexed where it is one of the names, wherever it stands, or
/// is below one.
pub proof fn names_are_excluded_with_all_below(names: Seq<Seq<char>>, path: Seq<char>)
    ensures
        any_matches(globs_of(names), path) <==> exists|i: int|
            #![trigger names[i]]
            0 <= i < names.len() && (glob_matches("**/"@ + names[i], path) || glob_matches(
                "**/"@ + names[i] + "/**"@,
                path,
            )),
    decreases names.len(),
{
    let globs = globs_of(names);
    if names.len() > 0 {
        let fewer = names.drop_last();
        names_are_excluded_with_all_below(fewer, path);
        let before = globs_of(fewer);
        let last = names.last();
        let n = before.len() as int;
        assert(globs.len() == n + 2);
        assert(globs[n] == "**/"@ + last && globs[n + 1] == "**/"@ + last + "/**"@);
        assert(forall|k: int| 0 <= k < n ==> globs[k] == before[k]);
        if any_matches(globs, path) {
            let k = choose|k: int| 0 <= k < globs.len() && glob_matches(#[trigger] globs[k], path);
            if k < n {
                assert(glob_matches(before[k], path));
                let i = choose|i: int|
                    #![trigger fewer[i]]
                    0 <= i < fewer.len() && (glob_matches("**/"@ + fewer[i], path) || glob_matches(
                        "**/"@ + fewer[i] + "/**"@,
                        path,
                    ));
                assert(names[i] == fewer[i]);
            } else {
                assert(names[names.len() - 1] == last);
            }
        }
        if exists|i: int|
            #![trigger names[i]]
            0 <= i < names.len() && (glob_matches("**/"@ + names[i], path) || glob_matches(
                "**/"@ + names[i] + "/**"@,
                path,
            )) {
            let i = choose|i: int|
                #![trigger names[i]]
                0 <= i < names.len() && (glob_matches("**/"@ + names[i], path) || glob_matches(
                    "**/"@ + names[i] + "/**"@,
                    path,
                ));
            if i < fewer.len() {
                assert(fewer[i] == names[i]);
                assert(any_matches(before, path));
                let k = choose|k: int|
                    0 <= k < before.len() && glob_matches(#[trigger] before[k], path);
                assert(glob_matches(globs[k], path));
            } else {
                assert(glob_matches(globs[n], path) || glob_matches(globs[n + 1], path));
            }
        }
    }
}

} // verus!
