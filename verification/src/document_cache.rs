//! Disk budgets for extracted document text, failure markers included.

use crate::codec::utf8_text;
use crate::fusion::text_option;
use crate::order::{is_sorted, sort, Ordered};
use crate::text::{
    chars_of, digit_char, digits_of, ends_with, is_digit, joined, lemma_digits_of,
    lemma_text_order, push_decimal, push_wide_decimal, starts_with, text_less, text_lt,
};
use vstd::prelude::*;
use vstd::string::*;
use vstd::utf8::*;

verus! {

pub const MAX_ENTRY_BYTES: u64 = 8_388_608;

pub const MAX_ERROR_BYTES: u64 = 16_384;

pub const MAX_TOTAL_BYTES: u64 = 134_217_728;

pub const MAX_FILES: usize = 4096;

// --------------------------------------------------------------------- names

pub open spec fn is_hex(c: char) -> bool {
    ('0' <= c && c <= '9') || ('a' <= c && c <= 'f') || ('A' <= c && c <= 'F')
}

/// Sixteen hexadecimal digits, up to a hyphen or the end.
pub open spec fn starts_with_hash(key: Seq<char>) -> bool {
    &&& key.len() >= 16
    &&& forall|i: int| 0 <= i < 16 ==> is_hex(#[trigger] key[i])
    &&& key.len() == 16 || key[16] == '-'
}

/// The name of a cached text or failure marker.
pub open spec fn is_cache_key(key: Seq<char>) -> bool {
    (".txt"@.is_suffix_of(key) || ".txt.err"@.is_suffix_of(key)) && starts_with_hash(key)
}

/// Texts of Office files have a prefix of their own.
pub open spec fn is_entry_name(name: Seq<char>, office: bool) -> bool {
    if office {
        "office-"@.is_prefix_of(name) && is_cache_key(name.skip(7))
    } else {
        is_cache_key(name)
    }
}

/// Whether a file of the cache directory belongs to the cache.
pub fn is_entry(name: &str, office: bool) -> (r: bool)
    ensures
        r == is_entry_name(name@, office),
{
    let s = chars_of(name);
    proof {
        reveal_strlit("office-");
    }
    let from: usize = if office {
        if !starts_with(&s, "office-") {
            return false;
        }
        7
    } else {
        0
    };
    let key = vstd::slice::slice_subrange(s.as_slice(), from, s.len());
    assert(key@ =~= name@.skip(from as int));
    assert(name@.skip(0) =~= name@);
    if !ends_with(key, ".txt") && !ends_with(key, ".txt.err") {
        return false;
    }
    if key.len() < 16 || (key.len() > 16 && key[16] != '-') {
        return false;
    }
    let mut i: usize = 0;
    while i < 16
        invariant
            i <= 16 <= key@.len(),
            is_entry_name(name@, office) ==> starts_with_hash(key@),
            forall|k: int| 0 <= k < i ==> is_hex(#[trigger] key@[k]),
        decreases 16 - i,
    {
        let c = key[i];
        if !(('0' <= c && c <= '9') || ('a' <= c && c <= 'f') || ('A' <= c && c <= 'F')) {
            return false;
        }
        i += 1;
    }
    true
}

/// How large an entry may be: failure markers are short.
pub open spec fn entry_limit(name: Seq<char>) -> u64 {
    if ".err"@.is_suffix_of(name) {
        MAX_ERROR_BYTES
    } else {
        MAX_ENTRY_BYTES
    }
}

pub fn limit_for(name: &str) -> (r: u64)
    ensures
        r == entry_limit(name@),
{
    let s = chars_of(name);
    if ends_with(&s, ".err") {
        MAX_ERROR_BYTES
    } else {
        MAX_ENTRY_BYTES
    }
}

/// The last `n` hexadecimal digits of a number.
pub open spec fn hex_digits(v: nat, n: nat) -> Seq<char>
    decreases n,
{
    if n == 0 {
        Seq::empty()
    } else {
        hex_digits(v / 16, (n - 1) as nat).push(hex_digit((v % 16) as u8))
    }
}

pub open spec fn hex_digit(d: u8) -> char {
    if d < 10 {
        digit_char(d as nat)
    } else {
        ('a' as u8 + (d - 10)) as char
    }
}

/// Where the text of a document is cached: by the hash of its path, its
/// modification time and its size.
pub open spec fn key_name(prefix: Seq<char>, hash: u64, mtime: nat, size: u64) -> Seq<char> {
    prefix + hex_digits(hash as nat, 16) + seq!['-'] + digits_of(mtime) + seq!['-']
        + digits_of(size as nat) + ".txt"@
}

fn push_hex(out: &mut String, v: u64, n: usize)
    requires
        n <= 16,
    ensures
        final(out)@ == old(out)@ + hex_digits(v as nat, n as nat),
    decreases n,
{
    let ghost before = out@;
    if n > 0 {
        push_hex(out, v / 16, n - 1);
        let d: u8 = (v % 16) as u8;
        let c: char = if d < 10 {
            (48u8 + d) as char
        } else {
            (97u8 + (d - 10)) as char
        };
        out.push(c);
        assert(c == hex_digit(d));
    }
    assert(out@ =~= before + hex_digits(v as nat, n as nat));
}

/// The name of the cache entry for a document.
pub fn cache_key(prefix: &str, hash: u64, mtime: u128, size: u64) -> (r: String)
    ensures
        r@ == key_name(prefix@, hash, mtime as nat, size),
{
    let mut r = prefix.to_owned();
    push_hex(&mut r, hash, 16);
    r.push('-');
    push_wide_decimal(&mut r, mtime);
    r.push('-');
    push_decimal(&mut r, size);
    r.append(".txt");
    assert(r@ =~= key_name(prefix@, hash, mtime as nat, size));
    r
}

proof fn lemma_hex_digits(v: nat, n: nat)
    ensures
        hex_digits(v, n).len() == n,
        forall|i: int| 0 <= i < n ==> is_hex(#[trigger] hex_digits(v, n)[i]),
    decreases n,
{
    if n > 0 {
        lemma_hex_digits(v / 16, (n - 1) as nat);
        let d = (v % 16) as u8;
        assert(is_hex(hex_digit(d))) by {
            if d < 10 {
            } else {
                assert(97 <= 97 + (d - 10) <= 102);
            }
        }
    }
}

/// What is written to the cache is found there again when space is needed.
pub proof fn keys_are_entries(hash: u64, mtime: nat, size: u64)
    ensures
        is_entry_name(key_name(Seq::empty(), hash, mtime, size), false),
        is_entry_name(key_name("office-"@, hash, mtime, size), true),
        is_entry_name(key_name(Seq::empty(), hash, mtime, size) + ".err"@, false),
        is_entry_name(key_name("office-"@, hash, mtime, size) + ".err"@, true),
{
    let plain = key_name(Seq::empty(), hash, mtime, size);
    let office = key_name("office-"@, hash, mtime, size);
    let h = hex_digits(hash as nat, 16);
    lemma_hex_digits(hash as nat, 16);
    reveal_strlit("office-");
    reveal_strlit(".txt");
    reveal_strlit(".err");
    reveal_strlit(".txt.err");
    assert(office.skip(7) =~= plain);
    assert((office + ".err"@).skip(7) =~= plain + ".err"@);
    assert("office-"@.is_prefix_of(office));
    assert("office-"@.is_prefix_of(office + ".err"@));
    assert forall|i: int| 0 <= i < 16 implies is_hex(#[trigger] plain[i]) by {
        assert(plain[i] == h[i]);
    }
    assert(plain[16] == '-');
    assert(".txt"@.is_suffix_of(plain));
    assert(".txt.err"@.is_suffix_of(plain + ".err"@));
    assert forall|i: int| 0 <= i < 16 implies is_hex(#[trigger] (plain + ".err"@)[i]) by {
        assert((plain + ".err"@)[i] == plain[i]);
    }
}

// ------------------------------------------------------------------- entries

/// What extracting the text of a document gives, or why it failed.
pub open spec fn extraction(r: Result<String, String>) -> Result<Seq<char>, Seq<char>> {
    match r {
        Ok(text) => Ok(text@),
        Err(e) => Err(e@),
    }
}

/// The text in a cache file, none if it is too large or no text.
pub open spec fn entry_content(name: Seq<char>, bytes: Seq<u8>) -> Option<Seq<char>> {
    if bytes.len() <= entry_limit(name) && valid_utf8(bytes) {
        Some(decode_utf8(bytes))
    } else {
        None
    }
}

/// Reads a cache file.
pub fn entry_text(name: &str, bytes: &[u8]) -> (r: Option<String>)
    ensures
        text_option(r) == entry_content(name@, bytes@),
{
    if bytes.len() as u64 > limit_for(name) {
        return None;
    }
    match utf8_text(bytes) {
        Some(text) => {
            proof {
                encode_utf8_decode_utf8(text@);
            }
            Some(text.to_owned())
        },
        None => None,
    }
}

/// The file in which a failure is remembered, so that a document that defeats
/// its parser is attempted once.
pub open spec fn failure_name(key: Seq<char>) -> Seq<char> {
    key + ".err"@
}

pub fn failure_entry(key: &str) -> (r: String)
    ensures
        r@ == failure_name(key@),
{
    joined(key, ".err")
}

/// What the cache says of a document, by the text and the failure it holds.
pub open spec fn recalled(text: Option<Seq<char>>, failure: Option<Seq<char>>) -> Option<
    Result<Seq<char>, Seq<char>>,
> {
    match (text, failure) {
        (Some(t), _) => Some(Ok(t)),
        (None, Some(e)) => Some(Err(e)),
        (None, None) => None,
    }
}

/// The cached outcome for a document: its text first, else its failure.
pub fn recall(text: Option<String>, failure: Option<String>) -> (r: Option<Result<String, String>>)
    ensures
        match r {
            Some(outcome) => recalled(text_option(text), text_option(failure)) == Some(
                extraction(outcome),
            ),
            None => recalled(text_option(text), text_option(failure)) is None,
        },
{
    match text {
        Some(t) => Some(Ok(t)),
        None => match failure {
            Some(e) => Some(Err(e)),
            None => None,
        },
    }
}

/// The file name and the body under which an outcome is cached; none if it is
/// too large.
pub open spec fn recorded(key: Seq<char>, outcome: Result<Seq<char>, Seq<char>>) -> Option<
    (Seq<char>, Seq<char>),
> {
    let (name, body) = match outcome {
        Ok(text) => (key, text),
        Err(e) => (failure_name(key), e),
    };
    if encode_utf8(body).len() <= entry_limit(name) {
        Some((name, body))
    } else {
        None
    }
}

/// The entry that remembers an outcome: its file name and its body.
pub fn entry_for(key: &str, outcome: &Result<String, String>) -> (r: Option<(String, String)>)
    ensures
        match r {
            Some(entry) => recorded(key@, extraction(*outcome)) == Some((entry.0@, entry.1@)),
            None => recorded(key@, extraction(*outcome)) is None,
        },
{
    let (name, body): (String, &str) = match outcome {
        Ok(text) => (key.to_owned(), text.as_str()),
        Err(e) => (failure_entry(key), e.as_str()),
    };
    if body.as_bytes().len() as u64 <= limit_for(name.as_str()) {
        Some((name, body.to_owned()))
    } else {
        None
    }
}

/// The cache answers with what was recorded: reading back the entry of an
/// outcome gives that outcome, be it a text or a failure.
pub proof fn recorded_outcomes_are_recalled(
    key: Seq<char>,
    outcome: Result<Seq<char>, Seq<char>>,
)
    requires
        recorded(key, outcome) is Some,
    ensures
        ({
            let (name, body) = recorded(key, outcome)->Some_0;
            let found = entry_content(name, encode_utf8(body));
            match outcome {
                Ok(_) => recalled(found, None) == Some(outcome),
                Err(_) => recalled(None, found) == Some(outcome),
            }
        }),
{
    let (name, body) = recorded(key, outcome)->Some_0;
    encode_utf8_valid_utf8(body);
    encode_utf8_decode_utf8(body);
}

// ------------------------------------------------------------------ eviction

/// A file of the cache.
#[derive(Debug)]
pub struct CacheFile {
    pub modified: i64,
    pub name: String,
    pub size: u64,
}

#[verifier::ext_equal]
pub struct FileView {
    pub modified: i64,
    pub name: Seq<char>,
    pub size: u64,
}

impl View for CacheFile {
    type V = FileView;

    open spec fn view(&self) -> FileView {
        FileView { modified: self.modified, name: self.name@, size: self.size }
    }
}

pub open spec fn file_views(files: Seq<CacheFile>) -> Seq<FileView> {
    files.map_values(|f: CacheFile| f@)
}

/// Older files first; files of the same age by name.
pub open spec fn goes_first(a: FileView, b: FileView) -> bool {
    a.modified < b.modified || (a.modified == b.modified && text_lt(a.name, b.name))
}

impl Ordered for CacheFile {
    open spec fn before(&self, other: &Self) -> bool {
        goes_first(self@, other@)
    }

    proof fn order_laws(a: &Self, b: &Self, c: &Self) {
        let (x, y, z) = (a.name@, b.name@, c.name@);
        lemma_text_order(x, y, z);
    }

    fn comes_before(&self, other: &Self) -> (r: bool) {
        self.modified < other.modified || (self.modified == other.modified && text_less(
            &self.name,
            &other.name,
        ))
    }
}

/// The size of the first `n` files.
pub open spec fn total_size(files: Seq<FileView>, n: int) -> nat
    decreases n,
{
    if n <= 0 {
        0
    } else {
        total_size(files, n - 1) + files[n - 1].size as nat
    }
}

/// The removal of files, oldest first, until the rest is within its budget.
#[derive(Debug)]
pub struct Eviction {
    files: Vec<CacheFile>,
    at: usize,
    total: u64,
    remaining: usize,
    bytes: u64,
    count: usize,
}

#[verifier::ext_equal]
pub struct EvictionView {
    pub files: Seq<FileView>,
    pub at: int,
    pub total: u64,
    pub remaining: usize,
    pub bytes: u64,
    pub count: usize,
}

impl View for Eviction {
    type V = EvictionView;

    closed spec fn view(&self) -> EvictionView {
        EvictionView {
            files: file_views(self.files@),
            at: self.at as int,
            total: self.total,
            remaining: self.remaining,
            bytes: self.bytes,
            count: self.count,
        }
    }
}

pub open spec fn within_budget(v: EvictionView) -> bool {
    v.total <= v.bytes && v.remaining <= v.count
}

/// Another file has to go.
pub open spec fn must_evict(v: EvictionView) -> bool {
    v.at < v.files.len() && !within_budget(v)
}

/// A file that went counts no more; one that could not be removed is passed
/// over.
pub open spec fn after_removal(v: EvictionView, removed: bool) -> EvictionView {
    let size = v.files[v.at].size;
    EvictionView {
        at: v.at + 1,
        total: if !removed {
            v.total
        } else if v.total > size {
            (v.total - size) as u64
        } else {
            0
        },
        remaining: if removed {
            (v.remaining - 1) as usize
        } else {
            v.remaining
        },
        ..v
    }
}

impl Eviction {
    pub closed spec fn wf(&self) -> bool {
        self.at <= self.files@.len() && self.files@.len() - self.at <= self.remaining
    }

    /// The files in the order in which they go.
    pub closed spec fn listed(&self) -> Seq<CacheFile> {
        self.files@
    }

    /// Plans for the files of the cache.
    pub fn new(files: Vec<CacheFile>, bytes: u64, count: usize) -> (r: Eviction)
        ensures
            r.wf(),
            r@.at == 0,
            r@.bytes == bytes,
            r@.count == count,
            r@.remaining == files@.len(),
            r@.files == file_views(r.listed()),
            r.listed().to_multiset() == files@.to_multiset(),
            forall|i: int, j: int|
                0 <= i < j < r@.files.len() ==> !goes_first(
                    #[trigger] r@.files[j],
                    #[trigger] r@.files[i],
                ),
            r@.total == (if total_size(r@.files, r@.files.len() as int) <= u64::MAX {
                total_size(r@.files, r@.files.len() as int)
            } else {
                u64::MAX as nat
            }),
    {
        let files = sort(files);
        let ghost views = file_views(files@);
        let mut total: u64 = 0;
        let mut i: usize = 0;
        while i < files.len()
            invariant
                i <= files@.len(),
                views == file_views(files@),
                total == (if total_size(views, i as int) <= u64::MAX {
                    total_size(views, i as int)
                } else {
                    u64::MAX as nat
                }),
            decreases files@.len() - i,
        {
            assert(views[i as int] == files@[i as int]@);
            total = if files[i].size > u64::MAX - total {
                u64::MAX
            } else {
                total + files[i].size
            };
            i += 1;
        }
        let remaining: usize = files.len();
        let r = Eviction { files, at: 0, total, remaining, bytes, count };
        proof {
            assert forall|i: int, j: int| 0 <= i < j < r@.files.len() implies !goes_first(
                #[trigger] r@.files[j],
                #[trigger] r@.files[i],
            ) by {
                assert(r@.files[j] == r.files@[j]@);
                assert(r@.files[i] == r.files@[i]@);
                assert(!r.files@[j].before(&r.files@[i]));
            }
        }
        r
    }

    /// The file to remove next, until enough has gone.
    pub fn next(&self) -> (r: Option<&CacheFile>)
        requires
            self.wf(),
        ensures
            r is Some == must_evict(self@),
            r matches Some(f) ==> f@ == self@.files[self@.at],
    {
        if self.at < self.files.len() && (self.total > self.bytes || self.remaining > self.count) {
            assert(self@.files[self.at as int] == self.files@[self.at as int]@);
            Some(&self.files[self.at])
        } else {
            None
        }
    }

    /// Takes note of whether the file could be removed.
    pub fn settle(&mut self, removed: bool)
        requires
            old(self).wf(),
            must_evict(old(self)@),
        ensures
            final(self).wf(),
            final(self)@ == after_removal(old(self)@, removed),
    {
        assert(self@.files[self.at as int] == self.files@[self.at as int]@);
        assert(self.files@.len() == self.files.len());
        if removed {
            let size: u64 = self.files[self.at].size;
            self.total = if self.total > size {
                self.total - size
            } else {
                0
            };
            self.remaining -= 1;
        }
        self.at += 1;
    }
}

/// What is left when every removal succeeds.
pub open spec fn evicted(v: EvictionView) -> EvictionView
    decreases v.files.len() - v.at,
{
    if must_evict(v) && v.at >= 0 {
        evicted(after_removal(v, true))
    } else {
        v
    }
}

/// Once the files that had to go are gone, the cache is within its budget,
/// whatever it held before.
pub proof fn eviction_meets_the_budget(v: EvictionView)
    requires
        0 <= v.at <= v.files.len(),
        v.remaining == v.files.len() - v.at,
        v.total == total_size(v.files, v.files.len() as int) - total_size(v.files, v.at),
    ensures
        within_budget(evicted(v)),
    decreases v.files.len() - v.at,
{
    if must_evict(v) {
        lemma_total_monotone(v.files, v.at + 1, v.files.len() as int);
        eviction_meets_the_budget(after_removal(v, true));
    }
}

proof fn lemma_total_monotone(files: Seq<FileView>, i: int, j: int)
    requires
        0 <= i <= j,
    ensures
        total_size(files, i) <= total_size(files, j),
    decreases j - i,
{
    if i < j {
        lemma_total_monotone(files, i, j - 1);
    }
}

/// The files that have to go so that `max` remain, oldest first.
pub fn oldest_excess(files: Vec<CacheFile>, max: usize) -> (r: Vec<CacheFile>)
    ensures
        exists|all: Seq<CacheFile>|
            {
                &&& #[trigger] is_sorted(all)
                &&& all.to_multiset() == files@.to_multiset()
                &&& all.len() == files@.len()
                &&& r@ == all.take(
                    if files@.len() > max {
                        files@.len() - max
                    } else {
                        0
                    },
                )
            },
{
    let mut all = sort(files);
    let ghost sorted = all@;
    let keep: usize = if all.len() > max {
        all.len() - max
    } else {
        0
    };
    all.truncate(keep);
    assert(is_sorted(sorted));
    assert(all@ =~= sorted.take(keep as int));
    all
}


/// Files go from old to new.
pub proof fn older_files_go_first(a: FileView, b: FileView)
    ensures
        a.modified < b.modified ==> goes_first(a, b) && !goes_first(b, a),
        a.modified == b.modified && text_lt(a.name, b.name) ==> goes_first(a, b) && !goes_first(
            b,
            a,
        ),
{
    lemma_text_order(a.name, b.name, a.name);
}

/// No file goes that could stay: nothing goes where all is within the budget,
/// and the last that went had to, as with it the rest would have been beyond.
pub proof fn only_what_has_to_go_goes(v: EvictionView)
    requires
        0 <= v.at <= v.files.len(),
        v.remaining == v.files.len() - v.at,
        v.total == total_size(v.files, v.files.len() as int) - total_size(v.files, v.at),
    ensures
        within_budget(v) ==> evicted(v) == v,
        evicted(v).at >= v.at,
        evicted(v).remaining == v.files.len() - evicted(v).at,
        evicted(v).total == total_size(v.files, v.files.len() as int) - total_size(
            v.files,
            evicted(v).at,
        ),
        evicted(v).at > v.at ==> {
            let last = evicted(v).at - 1;
            ||| total_size(v.files, v.files.len() as int) - total_size(v.files, last) > v.bytes
            ||| v.files.len() - last > v.count
        },
    decreases v.files.len() - v.at,
{
    if must_evict(v) {
        lemma_total_monotone(v.files, v.at + 1, v.files.len() as int);
        only_what_has_to_go_goes(after_removal(v, true));
    }
}


/// What is left of a number when `n` of its hexadecimal digits are cut off.
spec fn without_digits(v: nat, n: nat) -> nat
    decreases n,
{
    if n == 0 {
        v
    } else {
        without_digits(v / 16, (n - 1) as nat)
    }
}

proof fn lemma_hex_unambiguous(v: nat, w: nat, n: nat)
    requires
        hex_digits(v, n) == hex_digits(w, n),
        without_digits(v, n) == without_digits(w, n),
    ensures
        v == w,
    decreases n,
{
    if n > 0 {
        let m = (n - 1) as nat;
        let (a, b) = (hex_digits(v / 16, m), hex_digits(w / 16, m));
        let (c, d) = (hex_digit((v % 16) as u8), hex_digit((w % 16) as u8));
        assert(a.push(c).drop_last() =~= a && b.push(d).drop_last() =~= b);
        assert(a.push(c).last() == c && b.push(d).last() == d);
        assert(v % 16 == w % 16);
        lemma_hex_unambiguous(v / 16, w / 16, m);
    }
}

proof fn lemma_no_digits_left(v: u64)
    ensures
        without_digits(v as nat, 16) == 0,
{
    reveal_with_fuel(without_digits, 17);
}

proof fn lemma_number_ends(a: nat, b: nat, s: Seq<char>, t: Seq<char>)
    requires
        digits_of(a) + seq!['-'] + s == digits_of(b) + seq!['-'] + t,
    ensures
        a == b,
        s == t,
{
    lemma_digits_of(a);
    lemma_digits_of(b);
    let (x, y) = (digits_of(a), digits_of(b));
    let all = x + seq!['-'] + s;
    let other = y + seq!['-'] + t;
    if x.len() < y.len() {
        assert(all[x.len() as int] == '-');
        assert(other[x.len() as int] == y[x.len() as int]);
        assert(is_digit(y[x.len() as int]));
    } else if y.len() < x.len() {
        assert(other[y.len() as int] == '-');
        assert(all[y.len() as int] == x[y.len() as int]);
        assert(is_digit(x[y.len() as int]));
    }
    assert(x =~= all.take(x.len() as int));
    assert(y =~= other.take(y.len() as int));
    assert(s =~= all.skip(x.len() as int + 1));
    assert(t =~= other.skip(y.len() as int + 1));
}

/// A document that changed in time or size has another place in the cache, and so
/// has one at a path with another hash.
pub proof fn changed_documents_have_other_keys(
    prefix: Seq<char>,
    hash: u64,
    mtime: nat,
    size: u64,
    other_hash: u64,
    other_mtime: nat,
    other_size: u64,
)
    requires
        key_name(prefix, hash, mtime, size) == key_name(
            prefix,
            other_hash,
            other_mtime,
            other_size,
        ),
    ensures
        hash == other_hash,
        mtime == other_mtime,
        size == other_size,
{
    reveal_strlit(".txt");
    let (h, g) = (hex_digits(hash as nat, 16), hex_digits(other_hash as nat, 16));
    lemma_hex_digits(hash as nat, 16);
    lemma_hex_digits(other_hash as nat, 16);
    let a = key_name(prefix, hash, mtime, size);
    let b = key_name(prefix, other_hash, other_mtime, other_size);
    let p = prefix.len() as int;
    assert(h =~= a.subrange(p, p + 16) && g =~= b.subrange(p, p + 16));
    lemma_no_digits_left(hash);
    lemma_no_digits_left(other_hash);
    lemma_hex_unambiguous(hash as nat, other_hash as nat, 16);
    let (s, t) = (digits_of(size as nat), digits_of(other_size as nat));
    let x = digits_of(mtime) + seq!['-'] + (s + ".txt"@);
    let y = digits_of(other_mtime) + seq!['-'] + (t + ".txt"@);
    assert(x =~= a.skip(p + 17));
    assert(y =~= b.skip(p + 17));
    lemma_number_ends(mtime, other_mtime, s + ".txt"@, t + ".txt"@);
    assert(s =~= (s + ".txt"@).take(s.len() as int));
    assert((s + ".txt"@).len() == (t + ".txt"@).len());
    assert(t =~= (t + ".txt"@).take(t.len() as int));
    lemma_digits_of(size as nat);
    lemma_digits_of(other_size as nat);
}

} // verus!
