//! File names and extensions of Unix paths.

use crate::text::{chars_of, eq_ignore_ascii_case, same_ignoring_case, str_texts, string_of_range};
use vstd::prelude::*;
use vstd::string::*;

verus! {

/// The end of the last component: trailing separators and `.` components do
/// not count.
pub open spec fn trimmed_len(s: Seq<char>, n: int) -> int
    decreases n,
{
    if n <= 0 {
        0
    } else if s[n - 1] == '/' {
        trimmed_len(s, n - 1)
    } else if s[n - 1] == '.' && n >= 2 && s[n - 2] == '/' {
        trimmed_len(s, n - 1)
    } else {
        n
    }
}

/// The start of the component that ends at `n`.
pub open spec fn component_start(s: Seq<char>, n: int) -> int
    decreases n,
{
    if n <= 0 || s[n - 1] == '/' {
        n
    } else {
        component_start(s, n - 1)
    }
}

/// The last component of a path, unless it is the root, `.` or `..`.
pub open spec fn file_name(s: Seq<char>) -> Option<Seq<char>> {
    let n = trimmed_len(s, s.len() as int);
    let name = s.subrange(component_start(s, n), n);
    if name.len() == 0 || name == seq!['.'] || name == seq!['.', '.'] {
        None
    } else {
        Some(name)
    }
}

/// The last position of a character below `n`, or -1.
pub open spec fn last_index_of(s: Seq<char>, c: char, n: int) -> int
    decreases n,
{
    if n <= 0 {
        -1
    } else if s[n - 1] == c {
        n - 1
    } else {
        last_index_of(s, c, n - 1)
    }
}

/// What follows the last dot of the file name, unless that dot comes first.
pub open spec fn extension(s: Seq<char>) -> Option<Seq<char>> {
    match file_name(s) {
        None => None,
        Some(name) => {
            let dot = last_index_of(name, '.', name.len() as int);
            if dot <= 0 {
                None
            } else {
                Some(name.skip(dot + 1))
            }
        },
    }
}

pub proof fn lemma_last_index(s: Seq<char>, c: char, n: int)
    requires
        0 <= n <= s.len(),
    ensures
        -1 <= last_index_of(s, c, n) < n || (n == 0 && last_index_of(s, c, n) == -1),
        last_index_of(s, c, n) >= 0 ==> s[last_index_of(s, c, n)] == c,
        forall|j: int| last_index_of(s, c, n) < j < n ==> s[j] != c,
    decreases n,
{
    if n > 0 && s[n - 1] != c {
        lemma_last_index(s, c, n - 1);
    }
}

fn find_trimmed(s: &[char]) -> (n: usize)
    ensures
        n == trimmed_len(s@, s@.len() as int),
        n <= s.len(),
{
    let mut n: usize = s.len();
    while n > 0 && (s[n - 1] == '/' || (s[n - 1] == '.' && n >= 2 && s[n - 2] == '/'))
        invariant
            n <= s.len(),
            trimmed_len(s@, s@.len() as int) == trimmed_len(s@, n as int),
        decreases n,
    {
        n -= 1;
    }
    n
}

fn find_start(s: &[char], n: usize) -> (r: usize)
    requires
        n <= s.len(),
    ensures
        r == component_start(s@, n as int),
        r <= n,
{
    let mut i: usize = n;
    while i > 0 && s[i - 1] != '/'
        invariant
            i <= n <= s.len(),
            component_start(s@, n as int) == component_start(s@, i as int),
        decreases i,
    {
        i -= 1;
    }
    i
}

/// Where the file name of a path stands.
pub fn file_name_span(s: &[char]) -> (r: Option<(usize, usize)>)
    ensures
        match r {
            Some((a, b)) => a <= b <= s.len() && file_name(s@) == Some(
                s@.subrange(a as int, b as int),
            ),
            None => file_name(s@) is None,
        },
{
    let n = find_trimmed(s);
    let a = find_start(s, n);
    let ghost name = s@.subrange(a as int, n as int);
    if n == a {
        return None;
    }
    if n - a == 1 && s[a] == '.' {
        assert(name == seq!['.']);
        return None;
    }
    if n - a == 2 && s[a] == '.' && s[a + 1] == '.' {
        assert(name == seq!['.', '.']);
        return None;
    }
    proof {
        if name == seq!['.'] {
            assert(name.len() == 1);
            assert(s@[a as int] == name[0]);
        }
        if name == seq!['.', '.'] {
            assert(name.len() == 2);
            assert(s@[a as int] == name[0]);
            assert(s@[a + 1] == name[1]);
        }
    }
    Some((a, n))
}

/// The extension of a path.
pub fn extension_of(path: &str) -> (r: Option<String>)
    ensures
        match r {
            Some(e) => extension(path@) == Some(e@),
            None => extension(path@) is None,
        },
{
    let s = chars_of(path);
    match file_name_span(&s) {
        None => None,
        Some((a, b)) => {
            let ghost name = s@.subrange(a as int, b as int);
            let mut i: usize = b;
            while i > a && s[i - 1] != '.'
                invariant
                    a <= i <= b <= s.len(),
                    name == s@.subrange(a as int, b as int),
                    last_index_of(name, '.', name.len() as int) == last_index_of(name, '.', i - a),
                decreases i,
            {
                assert(name[i - 1 - a] == s@[i - 1]);
                i -= 1;
            }
            if i > a {
                assert(name[i - 1 - a] == s@[i - 1]);
            }
            if i <= a + 1 {
                return None;
            }
            let e = string_of_range(&s, i, b);
            assert(e@ == name.skip(i - a));
            Some(e)
        },
    }
}

/// The path has one of these extensions, up to the case of ASCII letters.
pub open spec fn ext_among(exts: Seq<Seq<char>>, path: Seq<char>) -> bool {
    extension(path) matches Some(e) && exists|k: int|
        0 <= k < exts.len() && same_ignoring_case(e, #[trigger] exts[k])
}

pub fn has_ext_among(exts: &Vec<&'static str>, path: &str) -> (r: bool)
    ensures
        r == ext_among(str_texts(exts@), path@),
{
    match extension_of(path) {
        None => false,
        Some(e) => {
            let mut k: usize = 0;
            while k < exts.len()
                invariant
                    k <= exts.len(),
                    extension(path@) == Some(e@),
                    forall|j: int|
                        0 <= j < k ==> !same_ignoring_case(e@, #[trigger] str_texts(exts@)[j]),
                decreases exts.len() - k,
            {
                assert(str_texts(exts@)[k as int] == exts@[k as int]@);
                if eq_ignore_ascii_case(&e, exts[k]) {
                    return true;
                }
                k += 1;
            }
            false
        },
    }
}

/// `rest` under `base`, as paths are joined: an absolute path replaces the base,
/// and one separator stands between the two.
pub open spec fn join_path(base: Seq<char>, rest: Seq<char>) -> Seq<char> {
    if rest.len() > 0 && rest[0] == '/' {
        rest
    } else if base.len() == 0 || base.last() == '/' {
        base + rest
    } else {
        base + seq!['/'] + rest
    }
}

pub fn joined_path(base: &str, rest: &str) -> (r: String)
    ensures
        r@ == join_path(base@, rest@),
{
    let b = chars_of(base);
    let t = chars_of(rest);
    if t.len() > 0 && t[0] == '/' {
        return rest.to_owned();
    }
    let mut r = base.to_owned();
    if b.len() > 0 && b[b.len() - 1] != '/' {
        r.push('/');
    }
    r.append(rest);
    assert(r@ =~= join_path(base@, rest@));
    r
}

/// The path of the directory that a path is in: what stands before the last
/// component. The root and the empty path have none.
pub open spec fn parent(s: Seq<char>) -> Option<Seq<char>> {
    let n = trimmed_len(s, s.len() as int);
    let m = trimmed_len(s, component_start(s, n));
    if n == 0 {
        None
    } else if m == 0 && s[0] == '/' {
        Some(seq!['/'])
    } else {
        Some(s.take(m))
    }
}

fn find_trimmed_upto(s: &[char], end: usize) -> (n: usize)
    requires
        end <= s@.len(),
    ensures
        n == trimmed_len(s@, end as int),
        n <= end,
{
    let mut n: usize = end;
    while n > 0 && (s[n - 1] == '/' || (s[n - 1] == '.' && n >= 2 && s[n - 2] == '/'))
        invariant
            n <= end <= s@.len(),
            trimmed_len(s@, end as int) == trimmed_len(s@, n as int),
        decreases n,
    {
        n -= 1;
    }
    n
}

pub fn parent_of(path: &str) -> (r: Option<String>)
    ensures
        match r {
            Some(p) => parent(path@) == Some(p@),
            None => parent(path@) is None,
        },
{
    let s = chars_of(path);
    let n: usize = find_trimmed(&s);
    if n == 0 {
        return None;
    }
    let m: usize = find_trimmed_upto(&s, find_start(&s, n));
    let end: usize = if m == 0 && s[0] == '/' {
        1
    } else {
        m
    };
    let r = string_of_range(&s, 0, end);
    proof {
        if m == 0 && s@[0] == '/' {
            assert(r@ =~= seq!['/']);
        } else {
            assert(r@ =~= s@.take(m as int));
        }
    }
    Some(r)
}

// ---------------------------------------------------------- the program's own

/// A base directory: the one that the environment sets, else one below the home
/// directory.
pub open spec fn base_dir(
    set: Option<&str>,
    home: Option<&str>,
    below: Seq<char>,
) -> Seq<char> {
    match set {
        Some(dir) => dir@,
        None => join_path(
            match home {
                Some(h) => h@,
                None => "/"@,
            },
            below,
        ),
    }
}

/// A file of the program in a base directory.
pub open spec fn program_file(base: Seq<char>, name: Seq<char>) -> Seq<char> {
    join_path(join_path(base, "fsearch"@), name)
}

/// The path of a file of the program: in the base directory that the environment
/// sets, else below the home directory.
pub fn program_path(set: Option<&str>, home: Option<&str>, below: &str, name: &str) -> (r: String)
    ensures
        r@ == program_file(base_dir(set, home, below@), name@),
{
    let base = match set {
        Some(dir) => dir.to_owned(),
        None => match home {
            Some(h) => joined_path(h, below),
            None => joined_path("/", below),
        },
    };
    joined_path(&joined_path(&base, "fsearch"), name)
}

// ---------------------------------------------------------------------- laws

/// A name of a file: not empty, without a slash, and neither `.` nor `..`.
pub open spec fn is_name(name: Seq<char>) -> bool {
    &&& name.len() > 0
    &&& !name.contains('/')
    &&& name != seq!['.']
    &&& name != seq!['.', '.']
}

/// The start of a path up to a name: empty, or with a slash at its end.
pub open spec fn is_start(dir: Seq<char>) -> bool {
    dir.len() == 0 || dir.last() == '/'
}

proof fn lemma_name_span(dir: Seq<char>, name: Seq<char>, k: int)
    requires
        is_start(dir),
        !name.contains('/'),
        0 <= k <= name.len(),
    ensures
        component_start(dir + name, dir.len() + k) == dir.len(),
    decreases k,
{
    let s = dir + name;
    if k > 0 {
        assert(s[dir.len() + k - 1] == name[k - 1]);
        assert(name.contains(name[k - 1]));
        lemma_name_span(dir, name, k - 1);
    } else if dir.len() > 0 {
        assert(s[dir.len() - 1] == dir.last());
    }
}

proof fn lemma_name_kept(dir: Seq<char>, name: Seq<char>)
    requires
        is_start(dir),
        is_name(name),
    ensures
        trimmed_len(dir + name, (dir + name).len() as int) == (dir + name).len(),
{
    let s = dir + name;
    let n = s.len() as int;
    assert(s[n - 1] == name.last());
    assert(name.contains(name[name.len() - 1]));
    if name.last() == '.' && n >= 2 && s[n - 2] == '/' {
        if name.len() >= 2 {
            assert(s[n - 2] == name[name.len() - 2]);
            assert(name.contains(name[name.len() - 2]));
        } else {
            assert(name =~= seq!['.']);
        }
    }
}

/// The name of a file is what follows the last slash.
pub proof fn names_follow_the_last_slash(dir: Seq<char>, name: Seq<char>)
    requires
        is_start(dir),
        is_name(name),
    ensures
        file_name(dir + name) == Some(name),
{
    let s = dir + name;
    lemma_name_kept(dir, name);
    lemma_name_span(dir, name, name.len() as int);
    assert(s.subrange(dir.len() as int, s.len() as int) =~= name);
}

/// The extension of a file is what follows the last dot of its name. Names without
/// a dot have none, nor do names with a dot at their start only.
pub proof fn extensions_follow_the_last_dot(dir: Seq<char>, stem: Seq<char>, ext: Seq<char>)
    requires
        is_start(dir),
        stem.len() > 0,
        !ext.contains('.'),
        is_name(stem + seq!['.'] + ext),
        is_name(stem),
    ensures
        extension(dir + stem + seq!['.'] + ext) == Some(ext),
        !stem.contains('.') ==> extension(dir + stem) is None,
        !stem.contains('.') ==> extension(dir + seq!['.'] + stem) is None,
{
    let name = stem + seq!['.'] + ext;
    assert(dir + stem + seq!['.'] + ext =~= dir + name);
    names_follow_the_last_slash(dir, name);
    lemma_last_dot(name, stem.len() as int, name.len() as int);
    assert(name.skip(stem.len() as int + 1) =~= ext);
    if !stem.contains('.') {
        names_follow_the_last_slash(dir, stem);
        lemma_last_index(stem, '.', stem.len() as int);
        let dot = last_index_of(stem, '.', stem.len() as int);
        if dot >= 0 {
            assert(stem.contains(stem[dot]));
        }
        let hidden = seq!['.'] + stem;
        assert(dir + seq!['.'] + stem =~= dir + hidden);
        assert(hidden[1] == stem[0]);
        assert(!hidden.contains('/')) by {
            if hidden.contains('/') {
                let k = choose|k: int| 0 <= k < hidden.len() && hidden[k] == '/';
                assert(stem[k - 1] == '/');
                assert(stem.contains('/'));
            }
        }
        if hidden == seq!['.', '.'] {
            assert(stem[0] == hidden[1]);
            assert(stem.contains('.'));
        }
        names_follow_the_last_slash(dir, hidden);
        assert forall|k: int| 0 < k < hidden.len() implies hidden[k] != '.' by {
            assert(hidden[k] == stem[k - 1]);
            assert(stem.contains(stem[k - 1]));
        }
        lemma_last_index(hidden, '.', hidden.len() as int);
    }
}

proof fn lemma_last_dot(name: Seq<char>, dot: int, n: int)
    requires
        0 <= dot < n <= name.len(),
        name[dot] == '.',
        forall|k: int| dot < k < n ==> name[k] != '.',
    ensures
        last_index_of(name, '.', n) == dot,
    decreases n,
{
    if dot < n - 1 {
        lemma_last_dot(name, dot, n - 1);
    }
}

/// Slashes at the end of a path change neither its name nor its parent.
pub proof fn trailing_slashes_do_not_matter(s: Seq<char>)
    requires
        trimmed_len(s, s.len() as int) > 0,
    ensures
        file_name(s + seq!['/']) == file_name(s),
        extension(s + seq!['/']) == extension(s),
        parent(s + seq!['/']) == parent(s),
{
    let t = s + seq!['/'];
    let n = trimmed_len(s, s.len() as int);
    lemma_trimmed_same(s, t, s.len() as int);
    assert(trimmed_len(t, t.len() as int) == n);
    lemma_trimmed_bound(s, s.len() as int);
    lemma_component_same(s, t, n);
    let c = component_start(s, n);
    assert(t.subrange(c, n) =~= s.subrange(c, n));
    lemma_trimmed_same(s, t, c);
    lemma_trimmed_bound(s, c);
    let m = trimmed_len(s, c);
    assert(t.take(m) =~= s.take(m));
    assert(t[0] == s[0]);
}

proof fn lemma_trimmed_bound(s: Seq<char>, n: int)
    requires
        0 <= n,
    ensures
        0 <= trimmed_len(s, n) <= n,
    decreases n,
{
    if n > 0 {
        lemma_trimmed_bound(s, n - 1);
    }
}

proof fn lemma_trimmed_same(s: Seq<char>, t: Seq<char>, n: int)
    requires
        0 <= n <= s.len() <= t.len(),
        forall|k: int| 0 <= k < s.len() ==> s[k] == t[k],
    ensures
        trimmed_len(t, n) == trimmed_len(s, n),
    decreases n,
{
    if n > 0 {
        lemma_trimmed_same(s, t, n - 1);
    }
}

proof fn lemma_component_same(s: Seq<char>, t: Seq<char>, n: int)
    requires
        0 <= n <= s.len() <= t.len(),
        forall|k: int| 0 <= k < s.len() ==> s[k] == t[k],
    ensures
        component_start(t, n) == component_start(s, n),
        0 <= component_start(s, n) <= n,
    decreases n,
{
    if n > 0 {
        lemma_component_same(s, t, n - 1);
    }
}

/// The parent of a file is the path before its name.
pub proof fn parents_come_before_the_name(dir: Seq<char>, name: Seq<char>)
    requires
        is_name(name),
        dir.len() > 0,
        dir.last() != '/',
        dir.len() >= 2 ==> !(dir.last() == '.' && dir[dir.len() - 2] == '/'),
    ensures
        parent(dir + seq!['/'] + name) == Some(dir),
        parent(seq!['/'] + name) == Some(seq!['/']),
{
    let start = dir + seq!['/'];
    let s = start + name;
    lemma_name_kept(start, name);
    lemma_name_span(start, name, name.len() as int);
    let c = start.len() as int;
    assert(s[c - 1] == '/');
    assert(trimmed_len(s, c) == trimmed_len(s, c - 1));
    assert(s[c - 2] == dir.last());
    if c >= 3 {
        assert(s[c - 3] == dir[dir.len() - 2]);
    }
    assert(trimmed_len(s, c - 1) == c - 1);
    assert(s.take(c - 1) =~= dir);
    let root = seq!['/'];
    let t = root + name;
    lemma_name_kept(root, name);
    lemma_name_span(root, name, name.len() as int);
    assert(t[0] == '/');
    assert(trimmed_len(t, 1) == trimmed_len(t, 0));
}


/// Paths are joined with one slash between them; an absolute path stands for
/// itself.
pub proof fn joined_paths_have_one_slash(base: Seq<char>, rest: Seq<char>)
    requires
        base.len() > 0,
        base.last() != '/',
        rest.len() == 0 || rest[0] != '/',
    ensures
        join_path(base, rest) == base + seq!['/'] + rest,
        join_path(base + seq!['/'], rest) == base + seq!['/'] + rest,
        join_path(base, seq!['/'] + rest) == seq!['/'] + rest,
{
}

/// The files of the program are in a directory of its own: in the one that the
/// environment sets, or else below the home directory.
pub proof fn program_files_have_their_directory(
    set: &str,
    home: &str,
    below: Seq<char>,
    name: Seq<char>,
)
    requires
        set@.len() > 0,
        set@.last() != '/',
        home@.len() > 0,
        home@.last() != '/',
        below.len() > 0,
        below[0] != '/',
        below.last() != '/',
        name.len() > 0,
        name[0] != '/',
    ensures
        program_file(base_dir(Some(set), Some(home), below), name) == set@ + "/fsearch/"@ + name,
        program_file(base_dir(None, Some(home), below), name) == home@ + seq!['/'] + below
            + "/fsearch/"@ + name,
        program_file(base_dir(None, None, below), name) == seq!['/'] + below + "/fsearch/"@ + name,
{
    reveal_strlit("/fsearch/");
    reveal_strlit("fsearch");
    reveal_strlit("/");
    assert("/"@ =~= seq!['/']);
    assert("/fsearch/"@ =~= seq!['/'] + "fsearch"@ + seq!['/']);
    lemma_program_file(set@, name);
    let a = home@ + seq!['/'] + below;
    assert(a.last() == below.last());
    lemma_program_file(a, name);
    let b = seq!['/'] + below;
    assert(b.last() == below.last());
    lemma_program_file(b, name);
}

proof fn lemma_program_file(base: Seq<char>, name: Seq<char>)
    requires
        base.len() > 0,
        base.last() != '/',
        name.len() > 0,
        name[0] != '/',
    ensures
        program_file(base, name) == base + "/fsearch/"@ + name,
{
    reveal_strlit("/fsearch/");
    reveal_strlit("fsearch");
    assert("/fsearch/"@ =~= seq!['/'] + "fsearch"@ + seq!['/']);
    let dir = base + seq!['/'] + "fsearch"@;
    assert(dir.last() == 'h');
    assert(dir + seq!['/'] + name =~= base + "/fsearch/"@ + name);
}

} // verus!
