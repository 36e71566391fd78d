//! Folding filesystem events into index snapshots.

use crate::engine::Msg;
use crate::excludes::{not_matched, Excludes};
use crate::order::{is_sorted, lemma_same_members, sort, Ordered};
use crate::pathmap::PathMap;
use crate::semantic::{same_stamp, Stamp};
use crate::text::{
    chars_of, lemma_text_lt_irreflexive, lemma_text_lt_total, lemma_text_lt_transitive,
    lemma_texts_push, same_chars, starts_with, string_of, sub_chars, text_less, text_lt, texts,
};
use crate::walker::{
    entry_view, entry_views, has_as_new, newest_of_each, sort_unique_entries, Entry, EntryView, FileMeta,
};
use vstd::prelude::*;
use vstd::string::*;

verus! {

// --------------------------------------------------------------- components

/// The end of the path segment that starts at `from`.
pub open spec fn segment_end(s: Seq<char>, from: int) -> int
    decreases s.len() - from,
{
    if 0 <= from < s.len() && s[from] != '/' {
        segment_end(s, from + 1)
    } else {
        from
    }
}

pub proof fn lemma_segment_end(s: Seq<char>, from: int)
    requires
        0 <= from <= s.len(),
    ensures
        from <= segment_end(s, from) <= s.len(),
    decreases s.len() - from,
{
    if from < s.len() && s[from] != '/' {
        lemma_segment_end(s, from + 1);
    }
}

/// The segments from position `from` on. Empty segments do not count, nor
/// does `.` unless a path starts with it.
pub open spec fn segments(s: Seq<char>, from: int) -> Seq<Seq<char>>
    decreases s.len() + 1 - from,
    when 0 <= from
{
    if from >= s.len() {
        Seq::empty()
    } else {
        let end = segment_end(s, from);
        proof {
            lemma_segment_end(s, from);
        }
        let piece = s.subrange(from, end);
        let rest = segments(s, end + 1);
        if piece.len() == 0 || (from > 0 && piece == seq!['.']) {
            rest
        } else {
            seq![piece] + rest
        }
    }
}

/// The components of a path: `/` or an empty one for where it starts, and its
/// segments.
pub open spec fn components(s: Seq<char>) -> Seq<Seq<char>> {
    if s.len() > 0 && s[0] == '/' {
        seq![seq!['/']] + segments(s, 0)
    } else {
        seq![Seq::<char>::empty()] + segments(s, 0)
    }
}

/// `a` is a directory above `b`.
pub open spec fn is_ancestor(a: Seq<char>, b: Seq<char>) -> bool {
    components(a).len() < components(b).len() && components(a).is_prefix_of(components(b))
}

fn find_segment_end(s: &[char], from: usize) -> (r: usize)
    requires
        from <= s.len(),
    ensures
        r == segment_end(s@, from as int),
        from <= r <= s.len(),
{
    let mut i: usize = from;
    while i < s.len() && s[i] != '/'
        invariant
            from <= i <= s.len(),
            segment_end(s@, from as int) == segment_end(s@, i as int),
        decreases s.len() - i,
    {
        i += 1;
    }
    i
}

pub open spec fn char_texts(v: Seq<Vec<char>>) -> Seq<Seq<char>> {
    v.map_values(|c: Vec<char>| c@)
}

fn split_path(path: &str) -> (r: Vec<Vec<char>>)
    ensures
        char_texts(r@) == components(path@),
{
    let s = chars_of(path);
    let mut out: Vec<Vec<char>> = Vec::new();
    let mut first: Vec<char> = Vec::new();
    if s.len() > 0 && s[0] == '/' {
        first.push('/');
        assert(first@ == seq!['/']);
    }
    let ghost start = first@;
    out.push(first);
    assert(char_texts(out@) =~= seq![start]);
    let mut from: usize = 0;
    assert(components(s@) =~= char_texts(out@) + segments(s@, 0));
    loop
        invariant
            from <= s@.len(),
            s@ == path@,
            components(s@) == char_texts(out@) + segments(s@, from as int),
        ensures
            from >= s@.len(),
        decreases s@.len() + 1 - from,
    {
        if from >= s.len() {
            break;
        }
        let end = find_segment_end(&s, from);
        let piece = sub_chars(&s, from, end);
        let dot = from > 0 && piece.len() == 1 && piece[0] == '.';
        proof {
            assert(piece@ == seq!['.'] <==> piece@.len() == 1 && piece@[0] == '.') by {
                if piece@.len() == 1 && piece@[0] == '.' {
                    assert(piece@ =~= seq!['.']);
                }
            }
        }
        if piece.len() > 0 && !dot {
            let ghost (before, text) = (out@, piece@);
            out.push(piece);
            proof {
                assert(char_texts(out@) =~= char_texts(before).push(text));
                let rest = segments(s@, end + 1);
                assert(char_texts(before) + (seq![text] + rest) =~= char_texts(out@) + rest);
            }
        }
        if end == s.len() {
            proof {
                assert(segments(s@, end + 1) =~= Seq::empty());
                assert(components(s@) =~= char_texts(out@) + Seq::<Seq<char>>::empty());
            }
            from = end;
            proof {
                assert(segments(s@, from as int) =~= Seq::empty());
            }
        } else {
            from = end + 1;
        }
    }
    assert(components(s@) =~= char_texts(out@));
    out
}

// ------------------------------------------------------------ path ordering

pub open spec fn component_rank(c: Seq<char>) -> int {
    if c == seq!['/'] {
        0
    } else if c.len() == 0 {
        1
    } else if c == seq!['.'] {
        2
    } else if c == seq!['.', '.'] {
        3
    } else {
        4
    }
}

/// The root comes first, then the start of a relative path, `.` and `..`, then
/// names.
pub open spec fn component_lt(a: Seq<char>, b: Seq<char>) -> bool {
    component_rank(a) < component_rank(b) || (component_rank(a) == component_rank(b) && text_lt(
        a,
        b,
    ))
}

/// Lists of components in order.
pub open spec fn components_lt(a: Seq<Seq<char>>, b: Seq<Seq<char>>) -> bool
    decreases a.len(),
{
    if b.len() == 0 {
        false
    } else if a.len() == 0 {
        true
    } else if a[0] == b[0] {
        components_lt(a.drop_first(), b.drop_first())
    } else {
        component_lt(a[0], b[0])
    }
}

proof fn lemma_component_order(a: Seq<char>, b: Seq<char>, c: Seq<char>)
    ensures
        !component_lt(a, a),
        component_lt(a, b) && component_lt(b, c) ==> component_lt(a, c),
        component_lt(a, b) || component_lt(b, a) || a == b,
{
    lemma_text_lt_irreflexive(a);
    lemma_text_lt_total(a, b);
    if text_lt(a, b) && text_lt(b, c) {
        lemma_text_lt_transitive(a, b, c);
    }
}

pub proof fn lemma_components_irreflexive(a: Seq<Seq<char>>)
    ensures
        !components_lt(a, a),
    decreases a.len(),
{
    if a.len() > 0 {
        lemma_components_irreflexive(a.drop_first());
    }
}

pub proof fn lemma_components_transitive(
    a: Seq<Seq<char>>,
    b: Seq<Seq<char>>,
    c: Seq<Seq<char>>,
)
    requires
        components_lt(a, b),
        components_lt(b, c),
    ensures
        components_lt(a, c),
    decreases a.len(),
{
    if a.len() > 0 {
        lemma_component_order(a[0], b[0], c[0]);
        lemma_component_order(b[0], a[0], c[0]);
        if a[0] == b[0] && b[0] == c[0] {
            lemma_components_transitive(a.drop_first(), b.drop_first(), c.drop_first());
        } else if a[0] == c[0] {
            lemma_component_order(a[0], b[0], a[0]);
        }
    }
}

pub proof fn lemma_components_total(a: Seq<Seq<char>>, b: Seq<Seq<char>>)
    ensures
        components_lt(a, b) || components_lt(b, a) || a == b,
    decreases a.len(),
{
    if a.len() == 0 {
        assert(b.len() == 0 ==> a =~= b);
    } else if b.len() > 0 {
        lemma_component_order(a[0], b[0], a[0]);
        if a[0] == b[0] {
            lemma_components_total(a.drop_first(), b.drop_first());
            if a.drop_first() == b.drop_first() {
                assert(a =~= seq![a[0]] + a.drop_first());
                assert(b =~= seq![b[0]] + b.drop_first());
            }
        }
    }
}

proof fn lemma_prefix_first(a: Seq<Seq<char>>, b: Seq<Seq<char>>)
    requires
        a.is_prefix_of(b),
        a.len() > 0,
    ensures
        a[0] == b[0],
        a.drop_first().is_prefix_of(b.drop_first()),
{
    assert(a == b.subrange(0, a.len() as int));
    assert(a.drop_first() =~= b.drop_first().subrange(0, a.len() - 1));
}

/// A directory comes before what it contains.
proof fn lemma_prefix_lt(a: Seq<Seq<char>>, b: Seq<Seq<char>>)
    requires
        a.is_prefix_of(b),
        a.len() < b.len(),
    ensures
        components_lt(a, b),
    decreases a.len(),
{
    if a.len() > 0 {
        lemma_prefix_first(a, b);
        lemma_prefix_lt(a.drop_first(), b.drop_first());
    }
}

/// What lies between a directory and something in it is in it too.
proof fn lemma_prefix_between(a: Seq<Seq<char>>, x: Seq<Seq<char>>, b: Seq<Seq<char>>)
    requires
        a.is_prefix_of(b),
        !components_lt(x, a),
        !components_lt(b, x),
    ensures
        a.is_prefix_of(x),
    decreases a.len(),
{
    if a.len() == 0 {
        assert(a =~= x.subrange(0, 0));
    } else {
        lemma_prefix_first(a, b);
        if x.len() > 0 {
            lemma_component_order(x[0], a[0], x[0]);
            lemma_component_order(a[0], x[0], a[0]);
            if x[0] == a[0] {
                lemma_prefix_between(a.drop_first(), x.drop_first(), b.drop_first());
                assert(a =~= seq![a[0]] + a.drop_first());
                assert(x =~= seq![x[0]] + x.drop_first());
                assert(a =~= x.subrange(0, a.len() as int)) by {
                    assert(a.drop_first() == x.drop_first().subrange(0, a.len() - 1));
                    assert forall|i: int| 0 <= i < a.len() implies a[i] == x[i] by {
                        if i > 0 {
                            assert(a[i] == a.drop_first()[i - 1]);
                            assert(x.drop_first().subrange(0, a.len() - 1)[i - 1] == x[i]);
                        }
                    }
                }
            } else {
                // x[0] is neither before nor after a[0] == b[0]
                assert(component_lt(x[0], a[0]) || component_lt(a[0], x[0]));
                assert(false);
            }
        }
    }
}

fn component_less(a: &Vec<char>, b: &Vec<char>) -> (r: bool)
    ensures
        r == component_lt(a@, b@),
{
    let (x, y) = (rank_of(a), rank_of(b));
    x < y || (x == y && text_less(&string_of(a), &string_of(b)))
}

fn rank_of(c: &Vec<char>) -> (r: u8)
    ensures
        r == component_rank(c@),
{
    proof {
        if c@.len() == 1 {
            assert(c@ == seq!['/'] <==> c@[0] == '/') by {
                if c@[0] == '/' {
                    assert(c@ =~= seq!['/']);
                }
            }
            assert(c@ == seq!['.'] <==> c@[0] == '.') by {
                if c@[0] == '.' {
                    assert(c@ =~= seq!['.']);
                }
            }
        }
        if c@.len() == 2 && c@[0] == '.' && c@[1] == '.' {
            assert(c@ =~= seq!['.', '.']);
        }
        assert(seq!['.', '.'][0] == '.' && seq!['.', '.'][1] == '.');
    }
    if c.len() == 1 && c[0] == '/' {
        0
    } else if c.len() == 0 {
        1
    } else if c.len() == 1 && c[0] == '.' {
        2
    } else if c.len() == 2 && c[0] == '.' && c[1] == '.' {
        3
    } else {
        4
    }
}

proof fn lemma_components_common(a: Seq<Seq<char>>, b: Seq<Seq<char>>, n: int)
    requires
        0 <= n <= a.len(),
        n <= b.len(),
        forall|i: int| 0 <= i < n ==> #[trigger] a[i] == b[i],
    ensures
        components_lt(a, b) == components_lt(a.skip(n), b.skip(n)),
    decreases n,
{
    if n == 0 {
        assert(a.skip(0) =~= a);
        assert(b.skip(0) =~= b);
    } else {
        let (x, y) = (a.drop_first(), b.drop_first());
        assert(a[0] == b[0]);
        assert forall|i: int| 0 <= i < n - 1 implies #[trigger] x[i] == y[i] by {
            assert(a[i + 1] == b[i + 1]);
        }
        lemma_components_common(x, y, n - 1);
        assert(x.skip(n - 1) =~= a.skip(n));
        assert(y.skip(n - 1) =~= b.skip(n));
    }
}

fn components_less(a: &Vec<Vec<char>>, b: &Vec<Vec<char>>) -> (r: bool)
    ensures
        r == components_lt(char_texts(a@), char_texts(b@)),
{
    let mut i: usize = 0;
    let ghost (x, y) = (char_texts(a@), char_texts(b@));
    while i < a.len() && i < b.len() && same_chars(&a[i], &b[i])
        invariant
            i <= a.len(),
            i <= b.len(),
            x == char_texts(a@),
            y == char_texts(b@),
            forall|j: int| 0 <= j < i ==> #[trigger] x[j] == y[j],
        decreases a.len() - i,
    {
        assert(x[i as int] == a@[i as int]@ && y[i as int] == b@[i as int]@);
        i += 1;
    }
    proof {
        lemma_components_common(x, y, i as int);
        if i < a.len() && i < b.len() {
            assert(x.skip(i as int)[0] == a@[i as int]@);
            assert(y.skip(i as int)[0] == b@[i as int]@);
        }
    }
    if i >= b.len() {
        false
    } else if i >= a.len() {
        true
    } else {
        component_less(&a[i], &b[i])
    }
}

fn is_prefix(a: &Vec<Vec<char>>, b: &Vec<Vec<char>>) -> (r: bool)
    ensures
        r == char_texts(a@).is_prefix_of(char_texts(b@)),
{
    let ghost (x, y) = (char_texts(a@), char_texts(b@));
    if a.len() > b.len() {
        return false;
    }
    let mut i: usize = 0;
    while i < a.len()
        invariant
            i <= a.len() <= b.len(),
            x == char_texts(a@),
            y == char_texts(b@),
            forall|j: int| 0 <= j < i ==> #[trigger] x[j] == y[j],
        decreases a.len() - i,
    {
        assert(x[i as int] == a@[i as int]@ && y[i as int] == b@[i as int]@);
        if !same_chars(&a[i], &b[i]) {
            assert(y.subrange(0, x.len() as int)[i as int] != x[i as int]);
            return false;
        }
        i += 1;
    }
    assert(x =~= y.subrange(0, x.len() as int));
    true
}

// ------------------------------------------------------------ disjoint paths

/// A path with its components and its place in a list.
struct Located {
    path: String,
    parts: Vec<Vec<char>>,
    at: usize,
}

spec fn parts_of(l: Located) -> Seq<Seq<char>> {
    char_texts(l.parts@)
}

impl Ordered for Located {
    closed spec fn before(&self, other: &Self) -> bool {
        components_lt(parts_of(*self), parts_of(*other)) || (parts_of(*self) == parts_of(*other)
            && self.at < other.at)
    }

    proof fn order_laws(a: &Self, b: &Self, c: &Self) {
        let (x, y, z) = (parts_of(*a), parts_of(*b), parts_of(*c));
        lemma_components_irreflexive(x);
        lemma_components_irreflexive(y);
        lemma_components_total(x, y);
        lemma_components_total(y, z);
        if components_lt(x, y) && components_lt(y, z) {
            lemma_components_transitive(x, y, z);
        }
        if components_lt(y, x) && components_lt(z, y) {
            lemma_components_transitive(z, y, x);
        }
        if components_lt(x, z) && components_lt(z, x) {
            lemma_components_transitive(x, z, x);
        }
    }

    fn comes_before(&self, other: &Self) -> (r: bool) {
        if components_less(&self.parts, &other.parts) {
            true
        } else {
            let same = is_prefix(&self.parts, &other.parts) && self.parts.len()
                == other.parts.len();
            proof {
                let (x, y) = (parts_of(*self), parts_of(*other));
                if x.is_prefix_of(y) && x.len() == y.len() {
                    assert(x =~= y);
                }
                if x == y {
                    assert(x =~= y.subrange(0, x.len() as int));
                }
            }
            same && self.at < other.at
        }
    }
}

/// The path at `k` is not below another one, nor a repetition of one before.
pub open spec fn stands_alone(paths: Seq<Seq<char>>, k: int) -> bool {
    &&& 0 <= k < paths.len()
    &&& forall|m: int|
        0 <= m < paths.len() ==> !is_ancestor(#[trigger] paths[m], paths[k]) && !(m < k
            && components(paths[m]) == components(paths[k]))
}

/// The components of a path but for the empty one that a relative path starts
/// with.
pub open spec fn named_components(p: Seq<char>) -> Seq<Seq<char>> {
    let c = components(p);
    if c[0].len() == 0 {
        c.drop_first()
    } else {
        c
    }
}

/// The order of paths: component by component, the empty path first.
pub open spec fn path_lt(a: Seq<char>, b: Seq<char>) -> bool {
    components_lt(named_components(a), named_components(b))
}

/// Only the empty path has no component, and no relative path starts at the
/// root.
proof fn lemma_named(p: Seq<char>)
    ensures
        p.len() == 0 ==> named_components(p) == Seq::<Seq<char>>::empty(),
        p.len() > 0 ==> named_components(p).len() > 0,
        p.len() > 0 && p[0] != '/' ==> {
            &&& components(p)[0] == Seq::<char>::empty()
            &&& component_rank(named_components(p)[0]) > 1
        },
        p.len() > 0 && p[0] == '/' ==> {
            &&& components(p)[0] == seq!['/']
            &&& named_components(p) == components(p)
        },
{
    let c = components(p);
    if p.len() == 0 {
        assert(named_components(p) =~= Seq::empty());
    } else if p[0] != '/' {
        lemma_segment_end(p, 0);
        lemma_segment_end(p, 1);
        let piece = p.subrange(0, segment_end(p, 0));
        assert(segments(p, 0) == seq![piece] + segments(p, segment_end(p, 0) + 1));
        assert(c.drop_first() =~= segments(p, 0));
        assert(piece[0] == p[0]);
        assert(seq!['/'][0] == '/');
    } else {
        assert(c[0] == seq!['/']);
    }
}

/// Apart from the empty path, paths are in the order of their components.
proof fn lemma_path_order(a: Seq<char>, b: Seq<char>)
    requires
        components_lt(components(a), components(b)),
        a.len() > 0,
        b.len() > 0,
    ensures
        path_lt(a, b),
{
    lemma_named(a);
    lemma_named(b);
    let (x, y) = (components(a), components(b));
    if x[0] != y[0] {
        assert(component_rank(x[0]) < component_rank(y[0]));
        assert(named_components(a) == x);
    }
}

/// Nothing but what is below the empty path comes after it.
proof fn lemma_after_empty(a: Seq<char>, b: Seq<char>)
    requires
        components_lt(components(a), components(b)),
        a.len() == 0,
    ensures
        is_ancestor(a, b),
{
    lemma_named(b);
    let (x, y) = (components(a), components(b));
    assert(x =~= seq![Seq::<char>::empty()]);
    if b.len() == 0 {
        lemma_components_irreflexive(x);
    } else if y[0] != x[0] {
        assert(component_rank(y[0]) == 0);
    }
    assert(x =~= y.subrange(0, 1));
}

/// `r` holds the paths that stand alone, in order.
pub open spec fn disjoint_of(paths: Seq<Seq<char>>, r: Seq<Seq<char>>) -> bool {
    &&& forall|i: int, j: int|
        0 <= i < j < r.len() ==> path_lt(#[trigger] r[i], #[trigger] r[j])
    &&& forall|i: int| 0 <= i < r.len() ==> is_standing(paths, #[trigger] r[i])
    &&& forall|k: int| #[trigger] stands_alone(paths, k) ==> r.contains(paths[k])
}

pub open spec fn is_standing(paths: Seq<Seq<char>>, p: Seq<char>) -> bool {
    exists|k: int| #[trigger] stands_alone(paths, k) && paths[k] == p
}

/// `all` lists every path once.
spec fn lists_all(all: Seq<Located>, paths: Seq<Seq<char>>) -> bool {
    &&& all.len() == paths.len()
    &&& forall|n: int|
        0 <= n < all.len() ==> {
            let l = #[trigger] all[n];
            &&& l.at < paths.len()
            &&& l.path@ == paths[l.at as int]
            &&& parts_of(l) == components(paths[l.at as int])
        }
    &&& forall|k: int| 0 <= k < paths.len() ==> listed(all, #[trigger] paths[k], k)
    &&& forall|i: int, j: int|
        0 <= i < j < all.len() ==> (#[trigger] all[i]).at != (#[trigger] all[j]).at
}

spec fn listed(all: Seq<Located>, p: Seq<char>, k: int) -> bool {
    exists|n: int| 0 <= n < all.len() && (#[trigger] all[n]).at == k
}

/// Position `n` holds a path that stands alone.
spec fn alone(all: Seq<Located>, paths: Seq<Seq<char>>, n: int) -> bool {
    stands_alone(paths, all[n].at as int)
}

/// A path that does not stand alone has one before it that is a prefix.
proof fn lemma_not_alone(all: Seq<Located>, paths: Seq<Seq<char>>, n: int) -> (w: int)
    requires
        lists_all(all, paths),
        is_sorted(all),
        0 <= n < all.len(),
        !alone(all, paths, n),
    ensures
        0 <= w < n,
        parts_of(all[w]).is_prefix_of(parts_of(all[n])),
{
    let k = all[n].at as int;
    let m = choose|m: int|
        0 <= m < paths.len() && (is_ancestor(#[trigger] paths[m], paths[k]) || (m < k && components(
            paths[m],
        ) == components(paths[k])));
    assert(listed(all, paths[m], m));
    let w = choose|w: int| 0 <= w < all.len() && (#[trigger] all[w]).at == m;
    let (a, b) = (parts_of(all[w]), parts_of(all[n]));
    if a == b {
        assert(a =~= b.subrange(0, a.len() as int));
    } else {
        lemma_prefix_lt(a, b);
    }
    lemma_components_irreflexive(b);
    assert(all[w].before(&all[n]));
    if w > n {
        assert(!all[w].before(&all[n]));
    }
    w
}

proof fn lemma_prefix_transitive(a: Seq<Seq<char>>, b: Seq<Seq<char>>, c: Seq<Seq<char>>)
    requires
        a.is_prefix_of(b),
        b.is_prefix_of(c),
    ensures
        a.is_prefix_of(c),
{
    assert(b.subrange(0, a.len() as int) =~= c.subrange(0, a.len() as int));
}

/// Every path is below, or equals, one that stands alone.
proof fn lemma_top(all: Seq<Located>, paths: Seq<Seq<char>>, n: int) -> (p: int)
    requires
        lists_all(all, paths),
        is_sorted(all),
        0 <= n < all.len(),
    ensures
        0 <= p <= n,
        alone(all, paths, p),
        parts_of(all[p]).is_prefix_of(parts_of(all[n])),
    decreases n,
{
    if alone(all, paths, n) {
        let a = parts_of(all[n]);
        assert(a =~= a.subrange(0, a.len() as int));
        n
    } else {
        let w = lemma_not_alone(all, paths, n);
        let p = lemma_top(all, paths, w);
        lemma_prefix_transitive(parts_of(all[p]), parts_of(all[w]), parts_of(all[n]));
        p
    }
}

/// Something that has a prefix before it does not stand alone.
proof fn lemma_below(all: Seq<Located>, paths: Seq<Seq<char>>, p: int, n: int)
    requires
        lists_all(all, paths),
        is_sorted(all),
        0 <= p < n < all.len(),
        parts_of(all[p]).is_prefix_of(parts_of(all[n])),
    ensures
        !alone(all, paths, n),
{
    let (a, b) = (parts_of(all[p]), parts_of(all[n]));
    let (i, k) = (all[p].at as int, all[n].at as int);
    assert(!all[n].before(&all[p]));
    assert(i != k);
    if a.len() == b.len() {
        assert(a =~= b);
        assert(i < k);
    }
    assert(is_ancestor(paths[i], paths[k]) || (i < k && components(paths[i]) == components(
        paths[k],
    )));
}

/// Given the last path that was kept, the next one stands alone exactly where
/// that is no prefix of it.
proof fn lemma_scan(all: Seq<Located>, paths: Seq<Seq<char>>, last: int, n: int)
    requires
        lists_all(all, paths),
        is_sorted(all),
        0 <= n < all.len(),
        last < n,
        last >= 0 ==> alone(all, paths, last),
        forall|j: int| last < j < n && j >= 0 ==> !#[trigger] alone(all, paths, j),
    ensures
        alone(all, paths, n) == (last < 0 || !parts_of(all[last]).is_prefix_of(parts_of(all[n]))),
{
    if last >= 0 && parts_of(all[last]).is_prefix_of(parts_of(all[n])) {
        lemma_below(all, paths, last, n);
    } else if !alone(all, paths, n) {
        let p = lemma_top(all, paths, n);
        assert(p < n);
        assert(p <= last);
        if p < last {
            let (a, x, b) = (parts_of(all[p]), parts_of(all[last]), parts_of(all[n]));
            assert(!all[last].before(&all[p]));
            assert(!all[n].before(&all[last]));
            lemma_prefix_between(a, x, b);
            lemma_below(all, paths, p, last);
        }
    }
}

/// Paths that stand alone, from the order of their components to that of paths:
/// an empty one moves to the front.
fn empty_first(paths: Vec<String>, Ghost(given): Ghost<Seq<Seq<char>>>) -> (r: Vec<String>)
    requires
        forall|i: int, j: int|
            0 <= i < j < paths@.len() ==> components_lt(
                components(#[trigger] texts(paths@)[i]),
                components(#[trigger] texts(paths@)[j]),
            ),
        forall|i: int| 0 <= i < paths@.len() ==> is_standing(given, #[trigger] texts(paths@)[i]),
        forall|k: int| #[trigger]
            stands_alone(given, k) ==> texts(paths@).contains(given[k]),
    ensures
        disjoint_of(given, texts(r@)),
{
    let mut out = paths;
    let ghost old = texts(out@);
    let ghost last = old.len() - 1;
    proof {
        assert forall|i: int| 0 <= i < last implies (#[trigger] old[i]).len() > 0 by {
            if old[i].len() == 0 {
                assert(components_lt(components(old[i]), components(old[last])));
                lemma_after_empty(old[i], old[last]);
                assert(is_standing(given, old[i]) && is_standing(given, old[last]));
                let a = choose|k: int| #[trigger] stands_alone(given, k) && given[k] == old[i];
                let b = choose|k: int| #[trigger] stands_alone(given, k) && given[k] == old[last];
                assert(!is_ancestor(given[a], given[b]));
            }
        }
        assert forall|i: int, j: int|
            0 <= i < j < old.len() && old[j].len() > 0 implies path_lt(
            #[trigger] old[i],
            #[trigger] old[j],
        ) by {
            lemma_path_order(old[i], old[j]);
        }
    }
    let n = out.len();
    if n > 0 && chars_of(&out[n - 1]).len() == 0 {
        let empty = out.remove(n - 1);
        out.insert(0, empty);
        proof {
            let new = texts(out@);
            assert(new =~= seq![old[last]] + old.take(last));
            assert forall|i: int, j: int| 0 <= i < j < new.len() implies path_lt(
                #[trigger] new[i],
                #[trigger] new[j],
            ) by {
                assert(new[j] == old[j - 1]);
                if i > 0 {
                    assert(new[i] == old[i - 1]);
                } else {
                    lemma_named(old[last]);
                    lemma_named(old[j - 1]);
                }
            }
            assert forall|i: int| 0 <= i < new.len() implies is_standing(
                given,
                #[trigger] new[i],
            ) by {
                assert(new[i] == if i == 0 {
                    old[last]
                } else {
                    old[i - 1]
                });
            }
            assert forall|k: int| #[trigger] stands_alone(given, k) implies new.contains(
                given[k],
            ) by {
                let i = choose|i: int| 0 <= i < old.len() && old[i] == given[k];
                assert(new[if i == last {
                    0
                } else {
                    i + 1
                }] == given[k]);
            }
        }
    }
    out
}

/// An ancestor refresh already replaces its whole subtree: removes duplicate
/// and nested paths.
pub fn disjoint_paths(paths: Vec<String>) -> (r: Vec<String>)
    ensures
        disjoint_of(texts(paths@), texts(r@)),
{
    let ghost given = texts(paths@);
    let mut located: Vec<Located> = Vec::new();
    let mut i: usize = 0;
    while i < paths.len()
        invariant
            i <= paths.len(),
            given == texts(paths@),
            located@.len() == i,
            forall|n: int|
                0 <= n < i ==> {
                    let l = #[trigger] located@[n];
                    &&& l.at == n
                    &&& l.path@ == given[n]
                    &&& parts_of(l) == components(given[n])
                },
        decreases paths.len() - i,
    {
        let path = paths[i].clone();
        let parts = split_path(&path);
        assert(given[i as int] == paths@[i as int]@);
        located.push(Located { path, parts, at: i });
        i += 1;
    }
    let ghost wrapped = located@;
    let sorted = sort(located);
    let ghost all = sorted@;
    proof {
        lemma_lists_all(all, wrapped, given);
    }
    let mut out: Vec<String> = Vec::new();
    let mut last: usize = 0;
    let mut some: bool = false;
    let mut n: usize = 0;
    while n < sorted.len()
        invariant
            n <= sorted@.len(),
            sorted@ == all,
            lists_all(all, given),
            is_sorted(all),
            some ==> last < n && alone(all, given, last as int),
            some ==> out@.len() > 0 && out@.last()@ == all[last as int].path@,
            !some ==> out@.len() == 0,
            forall|j: int|
                0 <= j < n && (some ==> last < j) ==> !#[trigger] alone(all, given, j),
            forall|j: int|
                0 <= j < n && #[trigger] alone(all, given, j) ==> texts(out@).contains(
                    all[j].path@,
                ),
            forall|k: int| 0 <= k < out@.len() ==> is_standing(given, #[trigger] texts(out@)[k]),
            forall|a: int, b: int|
                0 <= a < b < out@.len() ==> components_lt(
                    components(#[trigger] texts(out@)[a]),
                    components(#[trigger] texts(out@)[b]),
                ),
        decreases sorted@.len() - n,
    {
        let keep = !some || !is_prefix(&sorted[last].parts, &sorted[n].parts);
        proof {
            lemma_scan(
                all,
                given,
                if some {
                    last as int
                } else {
                    -1
                },
                n as int,
            );
        }
        if keep {
            let path = sorted[n].path.clone();
            let ghost before = texts(out@);
            proof {
                lemma_texts_push(out@, path);
                let k = all[n as int].at as int;
                assert(stands_alone(given, k));
                assert(given[k] == path@);
                if some {
                    assert(!all[n as int].before(&all[last as int]));
                    let (x, y) = (parts_of(all[last as int]), parts_of(all[n as int]));
                    lemma_components_total(x, y);
                    assert(x == y ==> x =~= y.subrange(0, x.len() as int));
                    assert(components_lt(x, y));
                }
                assert forall|a: int, b: int| 0 <= a < b < before.len() + 1 implies components_lt(
                    components(#[trigger] before.push(path@)[a]),
                    components(#[trigger] before.push(path@)[b]),
                ) by {
                    if b == before.len() {
                        let l = before.len() - 1;
                        assert(before.push(path@)[l] == before[l]);
                        assert(before[l] == out@.last()@);
                        if a < l {
                            assert(components_lt(components(before[a]), components(before[l])));
                            lemma_components_transitive(
                                components(before[a]),
                                components(before[l]),
                                components(path@),
                            );
                        }
                    } else {
                        assert(components_lt(components(before[a]), components(before[b])));
                    }
                }
                assert forall|j: int|
                    0 <= j < n + 1 && #[trigger] alone(all, given, j) implies before.push(
                    path@,
                ).contains(all[j].path@) by {
                    if j < n {
                        assert(before.contains(all[j].path@));
                        let q = choose|q: int| 0 <= q < before.len() && before[q] == all[j].path@;
                        assert(before.push(path@)[q] == all[j].path@);
                    } else {
                        assert(before.push(path@)[before.len() as int] == path@);
                    }
                }
                assert forall|k: int| 0 <= k < before.len() + 1 implies is_standing(
                    given,
                    #[trigger] before.push(path@)[k],
                ) by {
                    if k < before.len() {
                        assert(before.push(path@)[k] == before[k]);
                    }
                }
            }
            out.push(path);
            last = n;
            some = true;
        }
        n += 1;
    }
    proof {
        let r = texts(out@);
        assert forall|k: int| #[trigger] stands_alone(given, k) implies r.contains(given[k]) by {
            assert(listed(all, given[k], k));
            let j = choose|j: int| 0 <= j < all.len() && (#[trigger] all[j]).at == k;
            assert(alone(all, given, j));
        }
    }
    empty_first(out, Ghost(given))
}

proof fn lemma_lists_all(all: Seq<Located>, wrapped: Seq<Located>, paths: Seq<Seq<char>>)
    requires
        all.to_multiset() == wrapped.to_multiset(),
        wrapped.len() == paths.len(),
        forall|n: int|
            0 <= n < wrapped.len() ==> {
                let l = #[trigger] wrapped[n];
                &&& l.at == n
                &&& l.path@ == paths[n]
                &&& parts_of(l) == components(paths[n])
            },
    ensures
        lists_all(all, paths),
{
    lemma_same_members(all, wrapped);
    lemma_same_members(wrapped, all);
    assert(wrapped.no_duplicates()) by {
        assert forall|i: int, j: int|
            0 <= i < wrapped.len() && 0 <= j < wrapped.len() && i != j implies wrapped[i]
            != wrapped[j] by {
            assert(wrapped[i].at == i && wrapped[j].at == j);
        }
    }
    assert forall|n: int| 0 <= n < all.len() implies {
        let l = #[trigger] all[n];
        &&& l.at < paths.len()
        &&& l.path@ == paths[l.at as int]
        &&& parts_of(l) == components(paths[l.at as int])
    } by {
        assert(all.contains(all[n]));
        let w = choose|w: int| 0 <= w < wrapped.len() && wrapped[w] == all[n];
        assert(wrapped[w].at == w);
    }
    assert forall|k: int| 0 <= k < paths.len() implies listed(all, #[trigger] paths[k], k) by {
        assert(wrapped.contains(wrapped[k]));
        assert(all.contains(wrapped[k]));
        let n = choose|n: int| 0 <= n < all.len() && all[n] == wrapped[k];
        assert(all[n].at == k);
    }
    assert forall|i: int, j: int| 0 <= i < j < all.len() implies (#[trigger] all[i]).at != (
    #[trigger] all[j]).at by {
        assert(all[i] != all[j]);
        assert(all.contains(all[i]) && all.contains(all[j]));
        let a = choose|a: int| 0 <= a < wrapped.len() && wrapped[a] == all[i];
        let b = choose|b: int| 0 <= b < wrapped.len() && wrapped[b] == all[j];
        assert(wrapped[a].at == a && wrapped[b].at == b);
    }
}

/// No path of the result is below another one.
pub proof fn disjoint_paths_are_disjoint(paths: Seq<Seq<char>>, r: Seq<Seq<char>>, i: int, j: int)
    requires
        disjoint_of(paths, r),
        0 <= i < r.len(),
        0 <= j < r.len(),
    ensures
        !is_ancestor(r[i], r[j]),
{
    assert(is_standing(paths, r[i]) && is_standing(paths, r[j]));
    let a = choose|k: int| #[trigger] stands_alone(paths, k) && paths[k] == r[i];
    let b = choose|k: int| #[trigger] stands_alone(paths, k) && paths[k] == r[j];
    assert(!is_ancestor(paths[a], paths[b]));
}

proof fn lemma_standing_above(paths: Seq<Seq<char>>, k: int) -> (m: int)
    requires
        0 <= k < paths.len(),
    ensures
        stands_alone(paths, m),
        components(paths[m]).is_prefix_of(components(paths[k])),
    decreases components(paths[k]).len(), k,
{
    let c = components(paths[k]);
    if stands_alone(paths, k) {
        assert(c =~= c.subrange(0, c.len() as int));
        k
    } else {
        let m = choose|m: int|
            0 <= m < paths.len() && (is_ancestor(#[trigger] paths[m], paths[k]) || (m < k
                && components(paths[m]) == components(paths[k])));
        let t = lemma_standing_above(paths, m);
        if components(paths[m]) == c {
            assert(c =~= c.subrange(0, c.len() as int));
        }
        lemma_prefix_transitive(components(paths[t]), components(paths[m]), c);
        t
    }
}

/// Every path is one of the result, or below one.
pub proof fn disjoint_paths_cover(paths: Seq<Seq<char>>, r: Seq<Seq<char>>, k: int)
    requires
        disjoint_of(paths, r),
        0 <= k < paths.len(),
    ensures
        exists|i: int|
            0 <= i < r.len() && components(#[trigger] r[i]).is_prefix_of(components(paths[k])),
{
    let m = lemma_standing_above(paths, k);
    assert(r.contains(paths[m]));
    let i = choose|i: int| 0 <= i < r.len() && r[i] == paths[m];
    assert(components(r[i]).is_prefix_of(components(paths[k])));
}

// ------------------------------------------------------------------- events

/// What the watcher reports: a change, or that it failed.
pub enum WatchEvent {
    Change { rescan: bool, access: bool, paths: Vec<String> },
    Failure { error: String },
}

/// The events of one burst.
pub struct WatchBatch {
    pub touched: Vec<String>,
    pub rescan: bool,
    pub errors: Vec<String>,
}

impl Default for WatchBatch {
    fn default() -> (r: WatchBatch)
        ensures
            r.touched@.len() == 0,
            !r.rescan,
            r.errors@.len() == 0,
    {
        WatchBatch { touched: Vec::new(), rescan: false, errors: Vec::new() }
    }
}

pub open spec fn failure_text(error: Seq<char>) -> Seq<char> {
    "live update error: "@ + error
}

impl WatchBatch {
    /// Adds an event. Reading files must not trigger an indexing loop, so
    /// accesses touch nothing; a failure calls for a rescan.
    pub fn absorb(&mut self, event: WatchEvent)
        ensures
            match event {
                WatchEvent::Change { rescan, access, paths } => {
                    &&& final(self).rescan == (old(self).rescan || rescan)
                    &&& final(self).errors@ == old(self).errors@
                    &&& final(self).touched@ == (if access {
                        old(self).touched@
                    } else {
                        old(self).touched@ + paths@
                    })
                },
                WatchEvent::Failure { error } => {
                    &&& final(self).rescan
                    &&& final(self).touched@ == old(self).touched@
                    &&& texts(final(self).errors@) == texts(old(self).errors@).push(
                        failure_text(error@),
                    )
                },
            },
    {
        match event {
            WatchEvent::Change { rescan, access, paths } => {
                if rescan {
                    self.rescan = true;
                }
                if !access {
                    let mut paths = paths;
                    self.touched.append(&mut paths);
                }
            },
            WatchEvent::Failure { error } => {
                self.rescan = true;
                let mut text = "live update error: ".to_owned();
                text.append(&error);
                proof {
                    lemma_texts_push(self.errors@, text);
                }
                self.errors.push(text);
            },
        }
    }

    /// The paths to look at: none if everything is rescanned, else the topmost
    /// of the touched ones, without those that are never indexed.
    pub fn to_look_at(self, excludes: &Excludes) -> (r: Vec<String>)
        ensures
            self.rescan ==> r@.len() == 0,
            !self.rescan ==> exists|top: Seq<Seq<char>>| #[trigger]
                disjoint_of(texts(self.touched@), top) && texts(r@) == not_matched(excludes@, top),
    {
        if self.rescan {
            return Vec::new();
        }
        let top = disjoint_paths(self.touched);
        assert(disjoint_of(texts(self.touched@), texts(top@)));
        excludes.kept(&top)
    }
}

// ---------------------------------------------------------------- snapshots

/// What stands at a touched path now.
pub enum Observation {
    File { meta: FileMeta },
    /// a directory with everything below it; roots are no entries themselves
    Dir { meta: FileMeta, root: bool, children: Vec<Entry> },
    Gone,
}

pub struct Touched {
    pub path: String,
    pub seen: Observation,
}

/// What a burst changes: new entries, paths that are replaced or gone, and
/// directories whose old content is.
pub struct Change {
    pub fronts: Seq<EntryView>,
    pub gone: Set<Seq<char>>,
    pub dirs: Seq<Seq<char>>,
}

pub open spec fn no_change() -> Change {
    Change { fronts: Seq::empty(), gone: Set::empty(), dirs: Seq::empty() }
}

/// A new entry, unless its path has been dealt with.
pub open spec fn with_front(c: Change, e: EntryView) -> Change {
    if c.gone.contains(e.0) {
        c
    } else {
        Change { fronts: c.fronts.push(e), gone: c.gone.insert(e.0), ..c }
    }
}

pub open spec fn with_fronts(c: Change, es: Seq<EntryView>) -> Change
    decreases es.len(),
{
    if es.len() == 0 {
        c
    } else {
        with_front(with_fronts(c, es.drop_last()), es.last())
    }
}

pub open spec fn as_dir(path: Seq<char>) -> Seq<char> {
    path.push('/')
}

/// A file replaces what stood at its path, and everything below a directory
/// of that name. A directory replaces its prior state: a recreated one must
/// not keep stale children.
pub open spec fn with_touched(c: Change, t: Touched) -> Change {
    let path = t.path@;
    match t.seen {
        Observation::File { meta } => {
            let d = with_front(c, (path, meta));
            Change { dirs: d.dirs.push(as_dir(path)), ..d }
        },
        Observation::Dir { meta, root, children } => {
            let d = Change { dirs: c.dirs.push(as_dir(path)), gone: c.gone.insert(path), ..c };
            let e = if root {
                d
            } else {
                with_front(d, (as_dir(path), meta))
            };
            with_fronts(e, entry_views(children@))
        },
        Observation::Gone => Change {
            dirs: c.dirs.push(as_dir(path)),
            gone: c.gone.insert(path),
            ..c
        },
    }
}

pub open spec fn change_of(ts: Seq<Touched>) -> Change
    decreases ts.len(),
{
    if ts.len() == 0 {
        no_change()
    } else {
        with_touched(change_of(ts.drop_last()), ts.last())
    }
}

pub open spec fn below_any(dirs: Seq<Seq<char>>, path: Seq<char>) -> bool {
    exists|k: int| 0 <= k < dirs.len() && (#[trigger] dirs[k]).is_prefix_of(path)
}

/// The entry is untouched by the change.
pub open spec fn survives(c: Change, e: EntryView) -> bool {
    !c.gone.contains(e.0) && !below_any(c.dirs, e.0)
}

pub open spec fn survivors(c: Change, es: Seq<EntryView>) -> Seq<EntryView>
    decreases es.len(),
{
    if es.len() == 0 {
        Seq::empty()
    } else {
        let rest = survivors(c, es.drop_last());
        if survives(c, es.last()) {
            rest.push(es.last())
        } else {
            rest
        }
    }
}

struct Pending {
    fronts: Vec<Entry>,
    gone: PathMap<bool>,
    dirs: Vec<String>,
    empty: bool,
}

spec fn pending_is(p: Pending, c: Change) -> bool {
    &&& entry_views(p.fronts@) == c.fronts
    &&& forall|k: Seq<char>| #[trigger] p.gone@.dom().contains(k) == c.gone.contains(k)
    &&& texts(p.dirs@) == c.dirs
    &&& p.empty == (c.fronts.len() == 0 && c.gone == Set::<Seq<char>>::empty())
}

fn push_entry(v: &mut Vec<Entry>, e: Entry)
    ensures
        entry_views(final(v)@) == entry_views(old(v)@).push(entry_view(e)),
{
    v.push(e);
    assert(entry_views(v@) =~= entry_views(old(v)@).push(entry_view(e)));
}

fn push_front(p: &mut Pending, e: Entry, Ghost(c): Ghost<Change>)
    requires
        pending_is(*old(p), c),
    ensures
        pending_is(*final(p), with_front(c, entry_view(e))),
{
    if p.gone.get(&e.0).is_some() {
        return;
    }
    p.gone.insert(e.0.clone(), true);
    push_entry(&mut p.fronts, e);
    p.empty = false;
    proof {
        assert(with_front(c, entry_view(e)).gone.contains(e.0@));
    }
}

fn mark_gone(p: &mut Pending, path: &str, Ghost(c): Ghost<Change>)
    requires
        pending_is(*old(p), c),
    ensures
        pending_is(
            *final(p),
            Change { dirs: c.dirs.push(as_dir(path@)), gone: c.gone.insert(path@), ..c },
        ),
{
    p.gone.insert(path.to_owned(), true);
    p.empty = false;
    push_dir(&mut p.dirs, path);
    proof {
        assert(c.gone.insert(path@).contains(path@));
    }
}

fn push_dir(dirs: &mut Vec<String>, path: &str)
    ensures
        texts(final(dirs)@) == texts(old(dirs)@).push(as_dir(path@)),
{
    let mut dir = path.to_owned();
    dir.push('/');
    proof {
        lemma_texts_push(dirs@, dir);
    }
    dirs.push(dir);
}

fn push_fronts(p: &mut Pending, es: &Vec<Entry>, Ghost(c): Ghost<Change>)
    requires
        pending_is(*old(p), c),
    ensures
        pending_is(*final(p), with_fronts(c, entry_views(es@))),
{
    let mut i: usize = 0;
    let ghost all = entry_views(es@);
    assert(all.take(0) =~= Seq::<EntryView>::empty());
    while i < es.len()
        invariant
            i <= es.len(),
            all == entry_views(es@),
            pending_is(*p, with_fronts(c, all.take(i as int))),
        decreases es.len() - i,
    {
        let e = (es[i].0.clone(), es[i].1);
        assert(all.take(i + 1).drop_last() =~= all.take(i as int));
        assert(all.take(i + 1).last() == entry_view(es@[i as int]));
        push_front(p, e, Ghost(with_fronts(c, all.take(i as int))));
        i += 1;
    }
    assert(all.take(i as int) =~= all);
}

fn is_below(dirs: &Vec<String>, path: &[char]) -> (r: bool)
    ensures
        r == below_any(texts(dirs@), path@),
{
    let mut k: usize = 0;
    while k < dirs.len()
        invariant
            k <= dirs.len(),
            forall|j: int| 0 <= j < k ==> !(#[trigger] texts(dirs@)[j]).is_prefix_of(path@),
        decreases dirs.len() - k,
    {
        assert(texts(dirs@)[k as int] == dirs@[k as int]@);
        if starts_with(path, &dirs[k]) {
            return true;
        }
        k += 1;
    }
    false
}

/// The next snapshot after a burst: the new entries and what is left of the
/// current ones, sorted, one per path. None where nothing has changed.
/// `rescanned` says that `current` was walked anew.
pub fn next_snapshot(current: Vec<Entry>, touched: &Vec<Touched>, rescanned: bool) -> (r: Option<
    Vec<Entry>,
>)
    ensures
        ({
            let c = change_of(touched@);
            let unchanged = !rescanned && c.fronts.len() == 0 && c.gone
                == Set::<Seq<char>>::empty();
            match r {
                None => unchanged,
                Some(next) => !unchanged && newest_of_each(
                    c.fronts + survivors(c, entry_views(current@)),
                    entry_views(next@),
                ),
            }
        }),
{
    let mut p = Pending {
        fronts: Vec::new(),
        gone: PathMap::new(),
        dirs: Vec::new(),
        empty: true,
    };
    assert(entry_views(p.fronts@) =~= Seq::<EntryView>::empty());
    assert(texts(p.dirs@) =~= Seq::<Seq<char>>::empty());
    let mut i: usize = 0;
    assert(touched@.take(0) =~= Seq::<Touched>::empty());
    while i < touched.len()
        invariant
            i <= touched.len(),
            pending_is(p, change_of(touched@.take(i as int))),
        decreases touched.len() - i,
    {
        let t = &touched[i];
        let ghost c = change_of(touched@.take(i as int));
        proof {
            assert(touched@.take(i + 1).drop_last() =~= touched@.take(i as int));
            assert(touched@.take(i + 1).last() == touched@[i as int]);
        }
        match &t.seen {
            Observation::File { meta } => {
                push_front(&mut p, (t.path.clone(), *meta), Ghost(c));
                push_dir(&mut p.dirs, &t.path);
            },
            Observation::Dir { meta, root, children } => {
                let ghost d = Change {
                    dirs: c.dirs.push(as_dir(t.path@)),
                    gone: c.gone.insert(t.path@),
                    ..c
                };
                mark_gone(&mut p, &t.path, Ghost(c));
                if !*root {
                    let mut dir = t.path.clone();
                    dir.push('/');
                    push_front(&mut p, (dir, *meta), Ghost(d));
                }
                push_fronts(
                    &mut p,
                    children,
                    Ghost(
                        if *root {
                            d
                        } else {
                            with_front(d, (as_dir(t.path@), *meta))
                        },
                    ),
                );
            },
            Observation::Gone => {
                mark_gone(&mut p, &t.path, Ghost(c));
            },
        }
        i += 1;
    }
    assert(touched@.take(i as int) =~= touched@);
    let ghost c = change_of(touched@);
    if !rescanned && p.empty {
        return None;
    }
    let Pending { fronts, gone, dirs, empty } = p;
    let mut next: Vec<Entry> = fronts;
    let ghost now = entry_views(current@);
    let mut i: usize = 0;
    assert(now.take(0) =~= Seq::<EntryView>::empty());
    assert(c.fronts + survivors(c, now.take(0)) =~= c.fronts);
    while i < current.len()
        invariant
            i <= current.len(),
            now == entry_views(current@),
            forall|k: Seq<char>| #[trigger] gone@.dom().contains(k) == c.gone.contains(k),
            texts(dirs@) == c.dirs,
            entry_views(next@) == c.fronts + survivors(c, now.take(i as int)),
        decreases current.len() - i,
    {
        proof {
            assert(now.take(i + 1).drop_last() =~= now.take(i as int));
            assert(now.take(i + 1).last() == entry_view(current@[i as int]));
        }
        let e = &current[i];
        if gone.get(&e.0).is_none() && !is_below(&dirs, &chars_of(&e.0)) {
            let copy = (e.0.clone(), e.1);
            let ghost rest = survivors(c, now.take(i as int));
            push_entry(&mut next, copy);
            assert((c.fronts + rest).push(entry_view(*e)) =~= c.fronts + rest.push(entry_view(*e)));
        }
        i += 1;
    }
    assert(now.take(i as int) =~= now);
    sort_unique_entries(&mut next);
    Some(next)
}

// -------------------------------------------------------------------- texts

/// What is said when some roots cannot be watched.
pub open spec fn unwatched_text(count: nat) -> Seq<char> {
    "live updates unavailable for "@ + crate::text::digits_of(count) + (if count == 1 {
        " root"@
    } else {
        " roots"@
    })
}

pub fn unwatched_message(count: usize) -> (r: String)
    ensures
        r@ == unwatched_text(count as nat),
{
    let mut text = "live updates unavailable for ".to_owned();
    crate::text::push_decimal(&mut text, count as u64);
    if count == 1 {
        text.append(" root");
    } else {
        text.append(" roots");
    }
    text
}

/// Whether a watcher that failed for so many of the roots is worth keeping: one
/// that watches nothing is not.
pub fn watches_some(failed: usize, roots: usize) -> (r: bool)
    ensures
        r == (failed < roots),
{
    failed < roots
}

// --------------------------------------------------------------- the indexer

/// How far a walk has come: the files so far, how many are expected from the
/// previous index, and when it was last reported.
pub struct Progress {
    count: usize,
    expected: Option<usize>,
    reported: u64,
}

/// The model of a [`Progress`].
pub struct ProgressView {
    pub count: nat,
    pub expected: Option<usize>,
    pub reported: u64,
}

impl View for Progress {
    type V = ProgressView;

    closed spec fn view(&self) -> ProgressView {
        ProgressView { count: self.count as nat, expected: self.expected, reported: self.reported }
    }
}

/// Whether progress is reported with the next file: every so many files, four
/// times a second at most. The clock counts milliseconds.
pub open spec fn reports(p: ProgressView, clock: u64) -> bool {
    (p.count + 1) % 8192 == 0 && clock - p.reported > 250
}

impl Progress {
    pub fn new(expected: Option<usize>, clock: u64) -> (r: Progress)
        ensures
            r@ == (ProgressView { count: 0, expected, reported: clock }),
    {
        Progress { count: 0, expected, reported: clock }
    }

    /// One more file was found. The message to send, if any.
    pub fn found(&mut self, clock: u64) -> (r: Option<Msg>)
        requires
            old(self)@.count < usize::MAX,
        ensures
            match r {
                Some(msg) => reports(old(self)@, clock) && final(self)@ == (ProgressView {
                    count: old(self)@.count + 1,
                    expected: old(self)@.expected,
                    reported: clock,
                }) && match msg {
                    Msg::IndexProgress { count, expected } => count == final(self)@.count
                        && expected == final(self)@.expected,
                    _ => false,
                },
                None => !reports(old(self)@, clock) && final(self)@ == (ProgressView {
                    count: old(self)@.count + 1,
                    ..old(self)@
                }),
            },
    {
        self.count += 1;
        if self.count % 8192 == 0 && clock >= self.reported && clock - self.reported > 250 {
            self.reported = clock;
            Some(Msg::IndexProgress { count: self.count, expected: self.expected })
        } else {
            None
        }
    }
}

/// How often the live index is saved, in milliseconds.
pub const SAVE_EVERY_MS: u64 = 60_000;

/// When the live index was last saved, and the stamp that its file had then.
pub struct Saver {
    last: u64,
    stamp: Stamp,
}

/// The model of a [`Saver`].
pub struct SaverView {
    pub last: u64,
    pub stamp: Stamp,
}

impl View for Saver {
    type V = SaverView;

    closed spec fn view(&self) -> SaverView {
        SaverView { last: self.last, stamp: self.stamp }
    }
}

impl Saver {
    pub fn new(clock: u64, stamp: Stamp) -> (r: Saver)
        ensures
            r@ == (SaverView { last: clock, stamp }),
    {
        Saver { last: clock, stamp }
    }

    /// Whether it is time to save. The clock counts milliseconds.
    pub fn is_due(&mut self, clock: u64) -> (r: bool)
        ensures
            r == (clock - old(self)@.last >= SAVE_EVERY_MS),
            final(self)@ == (if r {
                SaverView { last: clock, ..old(self)@ }
            } else {
                old(self)@
            }),
    {
        if clock >= self.last && clock - self.last >= SAVE_EVERY_MS {
            self.last = clock;
            true
        } else {
            false
        }
    }

    /// Whether the file is the one that was saved here: what another process
    /// has written since is fresher, and is not overwritten.
    pub fn may_write(&self, stamp: Stamp) -> (r: bool)
        ensures
            r == (stamp == self@.stamp),
    {
        same_stamp(stamp, self.stamp)
    }

    /// The file was saved.
    pub fn written(&mut self, stamp: Stamp)
        ensures
            final(self)@ == (SaverView { stamp, ..old(self)@ }),
    {
        self.stamp = stamp;
    }
}

// ---------------------------------------------------------------------- laws

proof fn lemma_fronts_keep_dirs(c: Change, es: Seq<EntryView>)
    ensures
        with_fronts(c, es).dirs == c.dirs,
    decreases es.len(),
{
    if es.len() > 0 {
        lemma_fronts_keep_dirs(c, es.drop_last());
    }
}

proof fn lemma_change_dirs(ts: Seq<Touched>)
    ensures
        change_of(ts).dirs.len() == ts.len(),
        forall|k: int| 0 <= k < ts.len() ==> #[trigger] change_of(ts).dirs[k] == as_dir(ts[k].path@),
    decreases ts.len(),
{
    if ts.len() > 0 {
        let before = change_of(ts.drop_last());
        lemma_change_dirs(ts.drop_last());
        let t = ts.last();
        match t.seen {
            Observation::Dir { meta, root, children } => {
                let d = Change {
                    dirs: before.dirs.push(as_dir(t.path@)),
                    gone: before.gone.insert(t.path@),
                    ..before
                };
                let e = if root {
                    d
                } else {
                    with_front(d, (as_dir(t.path@), meta))
                };
                lemma_fronts_keep_dirs(e, entry_views(children@));
            },
            _ => {},
        }
        assert(change_of(ts).dirs == before.dirs.push(as_dir(t.path@)));
    }
}

proof fn lemma_survivors(c: Change, es: Seq<EntryView>, e: EntryView)
    requires
        survivors(c, es).contains(e),
    ensures
        es.contains(e),
        survives(c, e),
    decreases es.len(),
{
    if es.len() > 0 {
        let all = survivors(c, es);
        let rest = survivors(c, es.drop_last());
        let k = choose|k: int| 0 <= k < all.len() && all[k] == e;
        if k < rest.len() {
            assert(rest[k] == e);
            lemma_survivors(c, es.drop_last(), e);
            let i = choose|i: int| 0 <= i < es.drop_last().len() && es.drop_last()[i] == e;
            assert(es[i] == e);
        } else {
            assert(es[es.len() - 1] == e);
        }
    }
}

/// No ghosts survive: after a burst, what the index holds below a touched path
/// was found by looking there.
pub proof fn touched_paths_hold_what_was_found(
    ts: Seq<Touched>,
    current: Seq<EntryView>,
    next: Seq<EntryView>,
    k: int,
    i: int,
)
    requires
        newest_of_each(change_of(ts).fronts + survivors(change_of(ts), current), next),
        0 <= k < ts.len(),
        0 <= i < next.len(),
        as_dir(ts[k].path@).is_prefix_of(next[i].0),
    ensures
        change_of(ts).fronts.contains(next[i]),
{
    let c = change_of(ts);
    let kept = survivors(c, current);
    let all = c.fronts + kept;
    let e = next[i];
    assert(all.contains(e));
    let j = choose|j: int| 0 <= j < all.len() && all[j] == e;
    if j >= c.fronts.len() {
        assert(kept[j - c.fronts.len()] == e);
        lemma_survivors(c, current, e);
        lemma_change_dirs(ts);
        assert(c.dirs[k].is_prefix_of(e.0));
    } else {
        assert(c.fronts[j] == e);
    }
}

/// A path that is gone is no longer in the index, unless it was found again.
pub proof fn gone_paths_leave_the_index(
    ts: Seq<Touched>,
    current: Seq<EntryView>,
    next: Seq<EntryView>,
    i: int,
)
    requires
        newest_of_each(change_of(ts).fronts + survivors(change_of(ts), current), next),
        0 <= i < next.len(),
        change_of(ts).gone.contains(next[i].0),
    ensures
        change_of(ts).fronts.contains(next[i]),
{
    let c = change_of(ts);
    let kept = survivors(c, current);
    let all = c.fronts + kept;
    let e = next[i];
    assert(all.contains(e));
    let j = choose|j: int| 0 <= j < all.len() && all[j] == e;
    if j >= c.fronts.len() {
        assert(kept[j - c.fronts.len()] == e);
        lemma_survivors(c, current, e);
    } else {
        assert(c.fronts[j] == e);
    }
}

proof fn lemma_segment_end_kept(s: Seq<char>, t: Seq<char>, from: int)
    requires
        0 <= from <= s.len() < t.len(),
        forall|i: int| 0 <= i < s.len() ==> s[i] == t[i],
        t[s.len() as int] == '/',
    ensures
        segment_end(s, from) == segment_end(t, from),
    decreases s.len() - from,
{
    if from < s.len() && s[from] != '/' {
        lemma_segment_end_kept(s, t, from + 1);
    }
}

proof fn lemma_segment_ends_at(s: Seq<char>, from: int, end: int)
    requires
        0 <= from <= end <= s.len(),
        forall|i: int| from <= i < end ==> s[i] != '/',
        end < s.len() ==> s[end] == '/',
    ensures
        segment_end(s, from) == end,
    decreases end - from,
{
    if from < end {
        lemma_segment_ends_at(s, from + 1, end);
    }
}

proof fn lemma_segments_below(s: Seq<char>, name: Seq<char>, from: int)
    requires
        0 <= from <= s.len(),
        s.len() > 0,
        name.len() > 0,
        !name.contains('/'),
        name != seq!['.'],
    ensures
        segments(s + seq!['/'] + name, from) == segments(s, from).push(name),
    decreases s.len() - from,
{
    let t = s + seq!['/'] + name;
    let n = s.len() as int;
    assert(t[n] == '/');
    assert(forall|i: int| 0 <= i < n ==> s[i] == t[i]);
    assert forall|i: int| n + 1 <= i < t.len() implies t[i] != '/' by {
        assert(t[i] == name[i - n - 1]);
        assert(name.contains(t[i]));
    }
    lemma_segment_ends_at(t, n + 1, t.len() as int);
    assert(t.subrange(n + 1, t.len() as int) =~= name);
    assert(segments(t, t.len() as int + 1) =~= Seq::<Seq<char>>::empty());
    assert(segments(t, n + 1) =~= seq![name]);
    if from == n {
        lemma_segment_ends_at(t, n, n);
        assert(t.subrange(n, n).len() == 0);
        assert(segments(t, n) == segments(t, n + 1));
        assert(segments(s, n) =~= Seq::<Seq<char>>::empty());
        assert(segments(t, from) =~= segments(s, from).push(name));
    } else {
        lemma_segment_end_kept(s, t, from);
        lemma_segment_end(s, from);
        let end = segment_end(s, from);
        assert(t.subrange(from, end) =~= s.subrange(from, end));
        if end < n {
            lemma_segments_below(s, name, end + 1);
        } else {
            assert(segments(s, end + 1) =~= Seq::<Seq<char>>::empty());
        }
        assert(segments(t, from) =~= segments(s, from).push(name));
    }
}

/// A directory is above what is in it, and above what is in that; it is not
/// above itself, nor above what merely starts with its name.
pub proof fn directories_are_above_what_is_in_them(
    dir: Seq<char>,
    name: Seq<char>,
    below: Seq<char>,
)
    requires
        dir.len() > 0,
        name.len() > 0,
        !name.contains('/'),
        name != seq!['.'],
        below.len() > 0,
        !below.contains('/'),
        below != seq!['.'],
    ensures
        is_ancestor(dir, dir + seq!['/'] + name),
        is_ancestor(dir, dir + seq!['/'] + name + seq!['/'] + below),
        !is_ancestor(dir, dir),
        !is_ancestor(dir + seq!['/'] + name, dir),
        name != below ==> !is_ancestor(
            dir + seq!['/'] + name,
            dir + seq!['/'] + below + seq!['/'] + name,
        ),
{
    let child = dir + seq!['/'] + name;
    let other = dir + seq!['/'] + below;
    lemma_segments_below(dir, name, 0);
    lemma_segments_below(dir, below, 0);
    lemma_segments_below(child, below, 0);
    lemma_segments_below(other, name, 0);
    let c = components(dir);
    assert(components(child) =~= c.push(name));
    assert(components(other) =~= c.push(below));
    assert(components(child + seq!['/'] + below) =~= c.push(name).push(below));
    assert(components(other + seq!['/'] + name) =~= c.push(below).push(name));
    assert(c.is_prefix_of(c.push(name)));
    assert(c.is_prefix_of(c.push(name).push(below)));
    if name != below {
        let (x, y) = (c.push(name), c.push(below).push(name));
        assert(x[c.len() as int] != y[c.len() as int]);
        if x.is_prefix_of(y) {
            assert(y.subrange(0, x.len() as int)[c.len() as int] == y[c.len() as int]);
        }
    }
}


/// The path is that of an entry.
pub open spec fn is_listed(es: Seq<EntryView>, path: Seq<char>) -> bool {
    exists|j: int| 0 <= j < es.len() && (#[trigger] es[j]).0 == path
}

/// The path is touched, or below a touched one.
pub open spec fn is_touched(ts: Seq<Touched>, path: Seq<char>) -> bool {
    exists|k: int|
        0 <= k < ts.len() && {
            let p = (#[trigger] ts[k]).path@;
            path == p || p.push('/').is_prefix_of(path)
        }
}

proof fn lemma_fronts_are_gone(c: Change, es: Seq<EntryView>, path: Seq<char>)
    ensures
        with_fronts(c, es).dirs == c.dirs,
        c.fronts.is_prefix_of(with_fronts(c, es).fronts),
        with_fronts(c, es).gone.contains(path) ==> c.gone.contains(path) || is_listed(
            with_fronts(c, es).fronts,
            path,
        ),
    decreases es.len(),
{
    if es.len() > 0 {
        lemma_fronts_are_gone(c, es.drop_last(), path);
        let d = with_fronts(c, es.drop_last());
        lemma_front_is_gone(d, es.last(), path);
        lemma_longer_list(d.fronts, with_fronts(c, es).fronts, path);
    }
}

proof fn lemma_front_is_gone(c: Change, e: EntryView, path: Seq<char>)
    ensures
        with_front(c, e).dirs == c.dirs,
        c.fronts.is_prefix_of(with_front(c, e).fronts),
        with_front(c, e).gone.contains(path) ==> c.gone.contains(path) || is_listed(
            with_front(c, e).fronts,
            path,
        ),
{
    let d = with_front(c, e);
    assert(c.fronts.is_prefix_of(d.fronts));
    if d.gone.contains(path) && !c.gone.contains(path) {
        assert(d.fronts[d.fronts.len() - 1].0 == path);
    }
}

proof fn lemma_longer_list(a: Seq<EntryView>, b: Seq<EntryView>, path: Seq<char>)
    requires
        a.is_prefix_of(b),
    ensures
        is_listed(a, path) ==> is_listed(b, path),
{
    if is_listed(a, path) {
        let j = choose|j: int| 0 <= j < a.len() && (#[trigger] a[j]).0 == path;
        assert(b[j].0 == path);
    }
}

proof fn lemma_change_is_local(ts: Seq<Touched>, path: Seq<char>)
    requires
        !is_touched(ts, path),
    ensures
        !below_any(change_of(ts).dirs, path),
        change_of(ts).gone.contains(path) ==> is_listed(change_of(ts).fronts, path),
    decreases ts.len(),
{
    if ts.len() > 0 {
        let fewer = ts.drop_last();
        let t = ts.last();
        assert(!is_touched(fewer, path)) by {
            if is_touched(fewer, path) {
                let k = choose|k: int|
                    0 <= k < fewer.len() && {
                        let p = (#[trigger] fewer[k]).path@;
                        path == p || p.push('/').is_prefix_of(path)
                    };
                assert(ts[k] == fewer[k]);
            }
        }
        lemma_change_is_local(fewer, path);
        let c = change_of(fewer);
        let d = change_of(ts);
        let p = t.path@;
        assert(ts[ts.len() - 1] == t);
        assert(path != p && !p.push('/').is_prefix_of(path));
        match t.seen {
            Observation::File { meta } => {
                lemma_front_is_gone(c, (p, meta), path);
                lemma_longer_list(c.fronts, d.fronts, path);
            },
            Observation::Dir { meta, root, children } => {
                let x = Change { dirs: c.dirs.push(as_dir(p)), gone: c.gone.insert(p), ..c };
                let y = if root {
                    x
                } else {
                    with_front(x, (as_dir(p), meta))
                };
                lemma_front_is_gone(x, (as_dir(p), meta), path);
                assert(x.fronts.is_prefix_of(y.fronts));
                lemma_longer_list(x.fronts, y.fronts, path);
                lemma_fronts_are_gone(y, entry_views(children@), path);
                lemma_longer_list(y.fronts, d.fronts, path);
            },
            Observation::Gone => {},
        }
        assert(d.dirs == c.dirs.push(as_dir(p)));
        if below_any(d.dirs, path) {
            let k = choose|k: int| 0 <= k < d.dirs.len() && (#[trigger] d.dirs[k]).is_prefix_of(
                path,
            );
            if k < c.dirs.len() {
                assert(c.dirs[k].is_prefix_of(path));
            }
        }
    }
}

proof fn lemma_survivor(c: Change, es: Seq<EntryView>, i: int)
    requires
        0 <= i < es.len(),
        survives(c, es[i]),
    ensures
        survivors(c, es).contains(es[i]),
    decreases es.len(),
{
    let rest = survivors(c, es.drop_last());
    let all = survivors(c, es);
    if i < es.len() - 1 {
        lemma_survivor(c, es.drop_last(), i);
        let k = choose|k: int| 0 <= k < rest.len() && rest[k] == es[i];
        assert(all[k] == es[i]);
    } else {
        assert(all[rest.len() as int] == es[i]);
    }
}

/// What a burst does not touch stays in the index: only the touched paths, and
/// what is below them, can go.
pub proof fn untouched_paths_stay(
    ts: Seq<Touched>,
    current: Seq<EntryView>,
    next: Seq<EntryView>,
    i: int,
)
    requires
        newest_of_each(change_of(ts).fronts + survivors(change_of(ts), current), next),
        0 <= i < current.len(),
        !is_touched(ts, current[i].0),
    ensures
        is_listed(next, current[i].0),
{
    let c = change_of(ts);
    let path = current[i].0;
    let kept = survivors(c, current);
    let all = c.fronts + kept;
    lemma_change_is_local(ts, path);
    if c.gone.contains(path) {
        let j = choose|j: int| 0 <= j < c.fronts.len() && (#[trigger] c.fronts[j]).0 == path;
        assert(all[j] == c.fronts[j]);
        assert(has_as_new(next, all[j]));
    } else {
        lemma_survivor(c, current, i);
        let k = choose|k: int| 0 <= k < kept.len() && kept[k] == current[i];
        assert(all[c.fronts.len() + k] == current[i]);
        assert(has_as_new(next, all[c.fronts.len() + k]));
    }
}

/// A file that changed is in the index as it is now.
pub proof fn changed_files_are_listed_anew(
    t: Touched,
    meta: FileMeta,
    current: Seq<EntryView>,
    next: Seq<EntryView>,
)
    requires
        t.seen == (Observation::File { meta }),
        newest_of_each(
            change_of(seq![t]).fronts + survivors(change_of(seq![t]), current),
            next,
        ),
    ensures
        next.contains((t.path@, meta)),
        forall|j: int| 0 <= j < next.len() && (#[trigger] next[j]).0 == t.path@ ==> next[j].1 == meta,
{
    let ts = seq![t];
    let c = change_of(ts);
    let path = t.path@;
    assert(ts.drop_last() =~= Seq::<Touched>::empty());
    assert(change_of(Seq::<Touched>::empty()) == no_change());
    assert(c.fronts =~= seq![(path, meta)]);
    assert(c.gone.contains(path));
    let kept = survivors(c, current);
    let all = c.fronts + kept;
    assert(all[0] == (path, meta));
    assert(has_as_new(next, all[0]));
    assert forall|j: int| 0 <= j < next.len() && (#[trigger] next[j]).0 == path implies next[j].1
        == meta by {
        assert(all.contains(next[j]));
        let k = choose|k: int| 0 <= k < all.len() && all[k] == next[j];
        if k > 0 {
            assert(kept[k - 1] == next[j]);
            lemma_survivors(c, current, next[j]);
        }
    }
    let j = choose|j: int| 0 <= j < next.len() && (#[trigger] next[j]).0 == path;
    assert(next[j] == (path, meta));
}

} // verus!
