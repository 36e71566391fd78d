//! "Quiet" paths: application internals that are technically files on disk
//! but almost never what a search is for. Quiet paths stay fully searchable;
//! they are demoted below the weaker-matches fold and skipped on the launch
//! screen, unless the query shows path intent (a `/`, a `path:` filter,
//! `dir:`).

use crate::text::{contains_text, has_text, texts};
use vstd::prelude::*;

verus! {

/// Substring patterns marking a path as quiet.
pub struct Quiet {
    patterns: Vec<String>,
}

impl View for Quiet {
    type V = Seq<Seq<char>>;

    closed spec fn view(&self) -> Seq<Seq<char>> {
        texts(self.patterns@)
    }
}

/// A path is quiet when it contains one of the patterns.
pub open spec fn quiet_path(patterns: Seq<Seq<char>>, path: Seq<char>) -> bool {
    exists|k: int| 0 <= k < patterns.len() && contains_text(path, #[trigger] patterns[k])
}

/// The default markers: macOS application internals and hidden directories.
/// `/.` also matches plain dotfiles like `~/.zshrc`; that is fine, because
/// demotion is relative.
pub open spec fn default_quiet() -> Seq<Seq<char>> {
    seq!["/Library/"@, "/."@]
}

impl Quiet {
    pub fn new(patterns: Vec<String>) -> (r: Quiet)
        ensures
            r@ == texts(patterns@),
    {
        Quiet { patterns }
    }

    pub fn is_quiet(&self, path: &str) -> (r: bool)
        ensures
            r == quiet_path(self@, path@),
    {
        let mut k: usize = 0;
        while k < self.patterns.len()
            invariant
                k <= self.patterns.len(),
                forall|j: int| 0 <= j < k ==> !contains_text(path@, #[trigger] self@[j]),
            decreases self.patterns.len() - k,
        {
            assert(self@[k as int] == self.patterns@[k as int]@);
            if has_text(path, &self.patterns[k]) {
                return true;
            }
            k += 1;
        }
        false
    }

    pub fn is_empty(&self) -> (r: bool)
        ensures
            r == (self@.len() == 0),
    {
        self.patterns.is_empty()
    }
}

/// The patterns where none are configured.
pub fn quiet_by_default() -> (r: Vec<String>)
    ensures
        texts(r@) == default_quiet(),
{
    let mut r: Vec<String> = Vec::new();
    r.push("/Library/".to_owned());
    r.push("/.".to_owned());
    assert(texts(r@) =~= default_quiet());
    r
}

impl Default for Quiet {
    fn default() -> (r: Quiet)
        ensures
            r@ == default_quiet(),
    {
        Quiet::new(quiet_by_default())
    }
}

} // verus!
