//! What the index records of a file beside its path.

use crate::order::{is_sorted, lemma_same_members, sort, Ordered};
use crate::text::{
    lemma_text_lt_irreflexive, lemma_text_lt_total, lemma_text_lt_transitive, lemma_text_order,
    text_less, text_lt,
};
use vstd::prelude::*;

verus! {

/// Modification time in unix seconds and size in bytes.
#[derive(Clone, Copy, Debug, PartialEq, Eq, Structural)]
pub struct FileMeta {
    pub mtime: i64,
    pub size: u64,
}

impl Default for FileMeta {
    fn default() -> (r: FileMeta)
        ensures
            r.mtime == 0,
            r.size == 0,
    {
        FileMeta { mtime: 0, size: 0 }
    }
}

/// An indexed file: its path and its metadata.
pub type Entry = (String, FileMeta);

/// The model of an entry.
pub type EntryView = (Seq<char>, FileMeta);

pub open spec fn entry_view(e: Entry) -> EntryView {
    (e.0@, e.1)
}

pub open spec fn entry_views(s: Seq<Entry>) -> Seq<EntryView> {
    s.map_values(|e: Entry| entry_view(e))
}

/// The order of the index: newest first, ties by path.
pub open spec fn entry_before(a: EntryView, b: EntryView) -> bool {
    a.1.mtime > b.1.mtime || (a.1.mtime == b.1.mtime && text_lt(a.0, b.0))
}

pub fn comes_before(a: &Entry, b: &Entry) -> (r: bool)
    ensures
        r == entry_before(entry_view(*a), entry_view(*b)),
{
    a.1.mtime > b.1.mtime || (a.1.mtime == b.1.mtime && text_less(&a.0, &b.0))
}

/// The order of the index is a strict order, and total but for entries with
/// equal path and time.
pub proof fn entry_order_is_total(a: EntryView, b: EntryView, c: EntryView)
    ensures
        !entry_before(a, a),
        entry_before(a, b) && entry_before(b, c) ==> entry_before(a, c),
        entry_before(a, b) || entry_before(b, a) || (a.0 == b.0 && a.1.mtime == b.1.mtime),
{
    lemma_text_lt_irreflexive(a.0);
    lemma_text_lt_total(a.0, b.0);
    if text_lt(a.0, b.0) && text_lt(b.0, c.0) {
        lemma_text_lt_transitive(a.0, b.0, c.0);
    }
}

// ------------------------------------------------------ unique, newest first

impl Ordered for Entry {
    open spec fn before(&self, other: &Self) -> bool {
        entry_before(entry_view(*self), entry_view(*other))
    }

    proof fn order_laws(a: &Self, b: &Self, c: &Self) {
        let (x, y, z) = (entry_view(*a), entry_view(*b), entry_view(*c));
        entry_order_is_total(x, y, z);
        entry_order_is_total(y, x, z);
        entry_order_is_total(z, y, x);
        entry_order_is_total(y, z, x);
        entry_order_is_total(x, z, y);
        entry_order_is_total(z, x, y);
    }

    fn comes_before(&self, other: &Self) -> (r: bool) {
        comes_before(self, other)
    }
}

/// An entry ordered by path, newest first under the same path.
struct ByPath {
    entry: Entry,
}

impl Ordered for ByPath {
    closed spec fn before(&self, other: &Self) -> bool {
        text_lt(self.entry.0@, other.entry.0@) || (self.entry.0@ == other.entry.0@
            && self.entry.1.mtime > other.entry.1.mtime)
    }

    proof fn order_laws(a: &Self, b: &Self, c: &Self) {
        let (x, y, z) = (a.entry.0@, b.entry.0@, c.entry.0@);
        lemma_text_order(x, y, z);
    }

    fn comes_before(&self, other: &Self) -> (r: bool) {
        text_less(&self.entry.0, &other.entry.0) || (crate::text::same(
            &self.entry.0,
            &other.entry.0,
        ) && self.entry.1.mtime > other.entry.1.mtime)
    }
}

/// `new` holds for each path of `old` its newest entry, and nothing else, in
/// the order of the index.
pub open spec fn newest_of_each(old: Seq<EntryView>, new: Seq<EntryView>) -> bool {
    &&& forall|i: int, j: int|
        0 <= i < j < new.len() ==> entry_before(#[trigger] new[i], #[trigger] new[j])
    &&& forall|i: int, j: int|
        0 <= i < j < new.len() ==> (#[trigger] new[i]).0 != (#[trigger] new[j]).0
    &&& forall|i: int| 0 <= i < new.len() ==> old.contains(#[trigger] new[i])
    &&& forall|i: int| 0 <= i < old.len() ==> has_as_new(new, #[trigger] old[i])
}

/// An entry with the path of `e` that is not older.
pub open spec fn has_as_new(s: Seq<EntryView>, e: EntryView) -> bool {
    exists|j: int| 0 <= j < s.len() && (#[trigger] s[j]).0 == e.0 && s[j].1.mtime >= e.1.mtime
}

/// Sorts entries for the index; of several entries with one path the newest
/// stays.
pub fn sort_unique_entries(entries: &mut Vec<Entry>)
    ensures
        newest_of_each(entry_views(old(entries)@), entry_views(final(entries)@)),
{
    let mut taken: Vec<Entry> = Vec::new();
    std::mem::swap(entries, &mut taken);
    let ghost given = taken@;
    let mut by_path: Vec<ByPath> = Vec::new();
    while taken.len() > 0
        invariant
            taken@ == given.take(taken@.len() as int),
            by_path@.len() + taken@.len() == given.len(),
            forall|i: int|
                0 <= i < by_path@.len() ==> (#[trigger] by_path@[i]).entry == given[given.len() - 1
                    - i],
        decreases taken@.len(),
    {
        match taken.pop() {
            Some(entry) => {
                by_path.push(ByPath { entry });
            },
            None => {},
        }
    }
    let ghost wrapped = by_path@;
    let mut sorted = sort(by_path);
    let ghost all = sorted@;
    proof {
        lemma_same_members(all, wrapped);
    }
    // the newest of each path stands last before the next path when taken
    // from the end
    let mut kept: Vec<Entry> = Vec::new();
    assert(all.take(all.len() as int) == all);
    while sorted.len() > 0
        invariant
            sorted@ == all.take(sorted@.len() as int),
            sorted@.len() <= all.len(),
            is_sorted(all),
            forall|i: int|
                0 <= i < kept@.len() ==> stands_from(all, sorted@.len() as int, #[trigger] kept@[i]),
            forall|k: int|
                sorted@.len() <= k < all.len() ==> covered(kept@, (#[trigger] all[k]).entry),
            forall|i: int, j: int|
                0 <= i < j < kept@.len() ==> (#[trigger] kept@[i]).0@ != (#[trigger] kept@[j]).0@,
            kept@.len() > 0 ==> sorted@.len() < all.len() && kept@.last()
                == all[sorted@.len() as int].entry,
            kept@.len() == 0 ==> sorted@.len() == all.len(),
        decreases sorted@.len(),
    {
        let ghost n = sorted@.len() - 1;
        let ghost kept0 = kept@;
        match sorted.pop() {
            Some(b) => {
                let entry = b.entry;
                assert(entry == all[n].entry);
                let m: usize = kept.len();
                if m > 0 && crate::text::same(&kept[m - 1].0, &entry.0) {
                    kept.pop();
                }
                kept.push(entry);
                proof {
                    assert(kept@ == with_newer(kept0, all[n].entry));
                    if kept0.len() > 0 {
                        assert(!all[n + 1].before(&all[n]));
                    }
                    lemma_keep_stands(all, n, kept0);
                    lemma_keep_all_covered(all, n, kept0);
                    lemma_keep_distinct(all, n, kept0);
                }
            },
            None => {},
        }
    }
    let ghost chosen = kept@;
    let r = sort(kept);
    proof {
        lemma_same_members(r@, chosen);
        lemma_same_members(chosen, r@);
        lemma_newest(given, wrapped, all, chosen, r@);
    }
    *entries = r;
}

/// The entry stands in `all` at `from` or later.
spec fn stands_from(all: Seq<ByPath>, from: int, e: Entry) -> bool {
    exists|k: int| from <= k < all.len() && (#[trigger] all[k]).entry == e
}

/// Some kept entry has this path and is not older.
spec fn covered(kept: Seq<Entry>, e: Entry) -> bool {
    exists|j: int|
        0 <= j < kept.len() && (#[trigger] kept[j]).0@ == e.0@ && kept[j].1.mtime >= e.1.mtime
}

/// `kept` with the entry at `n` put last, in place of a last one with the same
/// path.
spec fn with_newer(kept: Seq<Entry>, e: Entry) -> Seq<Entry> {
    if kept.len() > 0 && kept.last().0@ == e.0@ {
        kept.drop_last().push(e)
    } else {
        kept.push(e)
    }
}

proof fn lemma_keep_stands(all: Seq<ByPath>, n: int, kept: Seq<Entry>)
    requires
        0 <= n < all.len(),
        forall|i: int| 0 <= i < kept.len() ==> stands_from(all, n + 1, #[trigger] kept[i]),
    ensures
        ({
            let next = with_newer(kept, all[n].entry);
            forall|i: int| 0 <= i < next.len() ==> stands_from(all, n, #[trigger] next[i])
        }),
{
    let next = with_newer(kept, all[n].entry);
    assert forall|i: int| 0 <= i < next.len() implies stands_from(all, n, #[trigger] next[i]) by {
        if i == next.len() - 1 {
            assert(all[n].entry == next[i]);
        } else {
            assert(next[i] == kept[i]);
            let k = choose|k: int| n + 1 <= k < all.len() && (#[trigger] all[k]).entry == kept[i];
            assert(all[k].entry == next[i]);
        }
    }
}

proof fn lemma_keep_covered(kept: Seq<Entry>, e: Entry, x: Entry)
    requires
        covered(kept, x),
        kept.len() > 0 && kept.last().0@ == e.0@ ==> e.1.mtime >= kept.last().1.mtime,
    ensures
        covered(with_newer(kept, e), x),
{
    let next = with_newer(kept, e);
    let j = choose|j: int|
        0 <= j < kept.len() && (#[trigger] kept[j]).0@ == x.0@ && kept[j].1.mtime >= x.1.mtime;
    if j < next.len() - 1 || kept.last().0@ != e.0@ {
        assert(next[j] == kept[j]);
    } else {
        assert(next[j] == e);
    }
}

proof fn lemma_keep_all_covered(all: Seq<ByPath>, n: int, kept: Seq<Entry>)
    requires
        0 <= n < all.len(),
        kept.len() > 0 && kept.last().0@ == all[n].entry.0@ ==> all[n].entry.1.mtime
            >= kept.last().1.mtime,
        forall|k: int| n + 1 <= k < all.len() ==> covered(kept, (#[trigger] all[k]).entry),
    ensures
        forall|k: int|
            n <= k < all.len() ==> covered(
                with_newer(kept, all[n].entry),
                (#[trigger] all[k]).entry,
            ),
{
    let next = with_newer(kept, all[n].entry);
    assert forall|k: int| n <= k < all.len() implies covered(next, (#[trigger] all[k]).entry) by {
        if k == n {
            assert(next[next.len() - 1] == all[n].entry);
        } else {
            lemma_keep_covered(kept, all[n].entry, all[k].entry);
        }
    }
}

/// A path that stands behind the next one is another, or the next one's.
proof fn lemma_same_path_adjacent(all: Seq<ByPath>, n: int, k: int)
    requires
        is_sorted(all),
        0 <= n,
        n + 1 <= k < all.len(),
        all[k].entry.0@ == all[n].entry.0@,
    ensures
        all[n + 1].entry.0@ == all[n].entry.0@,
{
    let (x, y) = (all[n].entry.0@, all[n + 1].entry.0@);
    assert(!all[n + 1].before(&all[n]));
    if k > n + 1 {
        assert(!all[k].before(&all[n + 1]));
    }
    lemma_text_lt_total(y, x);
}

proof fn lemma_keep_distinct(all: Seq<ByPath>, n: int, kept: Seq<Entry>)
    requires
        0 <= n < all.len(),
        is_sorted(all),
        forall|i: int| 0 <= i < kept.len() ==> stands_from(all, n + 1, #[trigger] kept[i]),
        forall|i: int, j: int|
            0 <= i < j < kept.len() ==> (#[trigger] kept[i]).0@ != (#[trigger] kept[j]).0@,
        kept.len() > 0 ==> n + 1 < all.len() && kept.last() == all[n + 1].entry,
    ensures
        ({
            let next = with_newer(kept, all[n].entry);
            forall|i: int, j: int|
                0 <= i < j < next.len() ==> (#[trigger] next[i]).0@ != (#[trigger] next[j]).0@
        }),
{
    let e = all[n].entry;
    let next = with_newer(kept, e);
    let last = kept.len() - 1;
    assert forall|i: int| 0 <= i < next.len() - 1 implies (#[trigger] kept[i]).0@ != e.0@ by {
        if kept[i].0@ == e.0@ {
            assert(stands_from(all, n + 1, kept[i]));
            let k = choose|k: int| n + 1 <= k < all.len() && (#[trigger] all[k]).entry == kept[i];
            lemma_same_path_adjacent(all, n, k);
            assert(kept[last].0@ == e.0@);
            assert(i < last);
        }
    }
    assert forall|i: int, j: int| 0 <= i < j < next.len() implies (#[trigger] next[i]).0@ != (
    #[trigger] next[j]).0@ by {
        assert(next[i] == kept[i]);
        if j < next.len() - 1 {
            assert(next[j] == kept[j]);
        }
    }
}

proof fn lemma_newest(
    given: Seq<Entry>,
    wrapped: Seq<ByPath>,
    all: Seq<ByPath>,
    chosen: Seq<Entry>,
    r: Seq<Entry>,
)
    requires
        wrapped.len() == given.len(),
        forall|i: int|
            0 <= i < wrapped.len() ==> (#[trigger] wrapped[i]).entry == given[given.len() - 1 - i],
        all.len() == wrapped.len(),
        forall|x: ByPath| #[trigger] all.contains(x) <==> wrapped.contains(x),
        forall|i: int| 0 <= i < chosen.len() ==> stands_from(all, 0, #[trigger] chosen[i]),
        forall|k: int| 0 <= k < all.len() ==> covered(chosen, (#[trigger] all[k]).entry),
        forall|i: int, j: int|
            0 <= i < j < chosen.len() ==> (#[trigger] chosen[i]).0@ != (#[trigger] chosen[j]).0@,
        is_sorted(r),
        forall|x: Entry| #[trigger] r.contains(x) <==> chosen.contains(x),
        chosen.no_duplicates() ==> r.no_duplicates(),
    ensures
        newest_of_each(entry_views(given), entry_views(r)),
{
    let (old, new) = (entry_views(given), entry_views(r));
    assert(chosen.no_duplicates()) by {
        assert forall|i: int, j: int|
            0 <= i < chosen.len() && 0 <= j < chosen.len() && i != j implies chosen[i]
            != chosen[j] by {
            if i < j {
                assert(chosen[i].0@ != chosen[j].0@);
            } else {
                assert(chosen[j].0@ != chosen[i].0@);
            }
        }
    }
    assert forall|i: int, j: int| 0 <= i < j < new.len() implies (#[trigger] new[i]).0 != (
    #[trigger] new[j]).0 by {
        assert(r[i] != r[j]);
        assert(r.contains(r[i]) && r.contains(r[j]));
        let a = choose|a: int| 0 <= a < chosen.len() && chosen[a] == r[i];
        let b = choose|b: int| 0 <= b < chosen.len() && chosen[b] == r[j];
        if a < b {
            assert(chosen[a].0@ != chosen[b].0@);
        } else {
            assert(chosen[b].0@ != chosen[a].0@);
        }
    }
    assert forall|i: int, j: int| 0 <= i < j < new.len() implies entry_before(
        #[trigger] new[i],
        #[trigger] new[j],
    ) by {
        assert(!r[j].before(&r[i]));
        assert(new[i].0 != new[j].0);
        entry_order_is_total(new[i], new[j], new[i]);
    }
    assert forall|i: int| 0 <= i < new.len() implies old.contains(#[trigger] new[i]) by {
        assert(r.contains(r[i]));
        let a = choose|a: int| 0 <= a < chosen.len() && chosen[a] == r[i];
        assert(chosen[a] == r[i]);
        let k = choose|k: int| 0 <= k < all.len() && (#[trigger] all[k]).entry == chosen[a];
        assert(all.contains(all[k]));
        let w = choose|w: int| 0 <= w < wrapped.len() && wrapped[w] == all[k];
        assert(wrapped[w].entry == given[given.len() - 1 - w]);
        assert(old[given.len() - 1 - w] == new[i]);
    }
    assert forall|i: int| 0 <= i < old.len() implies has_as_new(new, #[trigger] old[i]) by {
        let w = given.len() - 1 - i;
        assert(wrapped[w].entry == given[i]);
        assert(wrapped.contains(wrapped[w]));
        assert(all.contains(wrapped[w]));
        let k = choose|k: int| 0 <= k < all.len() && all[k] == wrapped[w];
        assert(covered(chosen, all[k].entry));
        let c = choose|c: int|
            0 <= c < chosen.len() && (#[trigger] chosen[c]).0@ == all[k].entry.0@
                && chosen[c].1.mtime >= all[k].entry.1.mtime;
        assert(chosen.contains(chosen[c]));
        assert(r.contains(chosen[c]));
        let j = choose|j: int| 0 <= j < r.len() && r[j] == chosen[c];
        assert(new[j].0 == old[i].0);
    }
}


/// The index is ordered from new to old; entries of one time are ordered by
/// their paths.
pub proof fn newer_entries_come_first(a: EntryView, b: EntryView)
    ensures
        a.1.mtime > b.1.mtime ==> entry_before(a, b) && !entry_before(b, a),
        a.1.mtime == b.1.mtime && text_lt(a.0, b.0) ==> entry_before(a, b) && !entry_before(b, a),
{
    if text_lt(a.0, b.0) && text_lt(b.0, a.0) {
        lemma_text_lt_transitive(a.0, b.0, a.0);
        lemma_text_lt_irreflexive(a.0);
    }
}

} // verus!
