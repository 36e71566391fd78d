//! What the command line does around a search: saved queries, records from a
//! pipe, the largest files, summaries.

use crate::cli::OutputFormat;
use crate::codec::utf8_text;
use crate::display::{align_right, human_size, right_aligned, size_text};
use crate::filters::{is_dir, is_dir_path};
use crate::index::PathStore;
use crate::matcher::{
    best_first, comes_first, head, in_index_order, indices_of, lemma_comes_first,
    lemma_listed_unless_full, lemma_permuted, rank, ranking_sorts, ranks_before, Candidate,
};
use crate::output::{json_quoted, json_string};
use crate::paths::{ext_among, extensions_follow_the_last_dot, is_name, is_start};
use crate::sem::{is_semantic_path, semantic_exts, MAX_SEMANTIC_BYTES};
use crate::text::{
    chars_of, digits_of, find_trim_start, is_space, push_decimal, push_signed,
    same_ignoring_case, signed_digits, skip_spaces, string_of_range, sub_chars, texts, trim_start,
};
use crate::walker::EntryView;
use vstd::prelude::*;
use vstd::string::*;
use vstd::utf8::*;

verus! {

// -------------------------------------------------------------- saved queries

/// The mode prefix of a query, and its text.
pub open spec fn prefix_parts(query: Seq<char>) -> (Option<char>, Seq<char>) {
    if query.len() > 0 && (query[0] == '>' || query[0] == '?' || query[0] == '=') {
        (Some(query[0]), trim_start(query.skip(1)))
    } else {
        (None, query)
    }
}

/// Two texts with a space between them where both are there.
pub open spec fn spaced(a: Seq<char>, b: Seq<char>) -> Seq<char> {
    if a.len() == 0 {
        b
    } else if b.len() == 0 {
        a
    } else {
        a + " "@ + b
    }
}

/// A saved search refined by a query: nothing where their modes differ.
pub open spec fn combined(saved: Seq<char>, query: Seq<char>) -> Option<Seq<char>> {
    let (saved_mode, saved_text) = prefix_parts(saved);
    let (query_mode, query_text) = prefix_parts(query);
    let body = spaced(saved_text, query_text);
    let mode = if query_mode is Some {
        query_mode
    } else {
        saved_mode
    };
    if saved_mode is Some && query_mode is Some && saved_mode != query_mode {
        None
    } else {
        match mode {
            Some(prefix) => Some(seq![prefix] + " "@ + body),
            None => Some(body),
        }
    }
}

fn split_prefix(query: &str) -> (r: (Option<char>, String))
    ensures
        (r.0, r.1@) == prefix_parts(query@),
{
    let s = chars_of(query);
    if s.len() > 0 && (s[0] == '>' || s[0] == '?' || s[0] == '=') {
        let rest = sub_chars(&s, 1, s.len());
        assert(rest@ =~= query@.skip(1));
        let a = find_trim_start(&rest, 0);
        let text = string_of_range(&rest, a, rest.len());
        assert(text@ =~= trim_start(rest@));
        (Some(s[0]), text)
    } else {
        (None, query.to_owned())
    }
}

/// A saved search refined by a query. Both may pick a mode, but only the same.
pub fn combine_queries(saved: &str, query: &str) -> (r: Result<String, &'static str>)
    ensures
        match r {
            Ok(text) => combined(saved@, query@) == Some(text@),
            Err(e) => combined(saved@, query@) is None && e@
                == "saved search and supplied query use different modes"@,
        },
{
    let (saved_mode, saved_text) = split_prefix(saved);
    let (query_mode, query_text) = split_prefix(query);
    let mode = match (saved_mode, query_mode) {
        (Some(a), Some(b)) => {
            if a != b {
                return Err("saved search and supplied query use different modes");
            }
            query_mode
        },
        (None, Some(_)) => query_mode,
        _ => saved_mode,
    };
    let mut out = String::new();
    proof {
        reveal_strlit("");
    }
    match mode {
        Some(prefix) => {
            out.push(prefix);
            out.append(" ");
        },
        None => {},
    }
    let ghost start = out@;
    out.append(&saved_text);
    if chars_of(&saved_text).len() > 0 && chars_of(&query_text).len() > 0 {
        out.append(" ");
    }
    out.append(&query_text);
    assert(out@ =~= start + spaced(saved_text@, query_text@));
    assert(out@ =~= combined(saved@, query@)->Some_0);
    Ok(out)
}

/// The query to run: the one that was given, or one that refines a saved search.
/// `saved` is what the configuration holds under the name, where one was given.
pub fn saved_query(query: &str, saved: Option<&str>) -> (r: Result<String, &'static str>)
    ensures
        match (saved, r) {
            (None, Ok(text)) => text@ == query@,
            (Some(s), Ok(text)) => combined(s@, query@) == Some(text@),
            (Some(s), Err(e)) => combined(s@, query@) is None && e@
                == "saved search and supplied query use different modes"@,
            (None, Err(_)) => false,
        },
{
    match saved {
        None => Ok(query.to_owned()),
        Some(s) => combine_queries(s, query),
    }
}

/// Where a saved search and a query go together, the result has the mode of the
/// one that picks a mode.
pub proof fn combined_queries_keep_the_mode(saved: Seq<char>, query: Seq<char>)
    requires
        combined(saved, query) is Some,
        prefix_parts(saved).0 is Some || prefix_parts(query).0 is Some,
    ensures
        prefix_parts(combined(saved, query)->Some_0).0 == (if prefix_parts(query).0 is Some {
            prefix_parts(query).0
        } else {
            prefix_parts(saved).0
        }),
{
    let mode = if prefix_parts(query).0 is Some {
        prefix_parts(query).0
    } else {
        prefix_parts(saved).0
    };
    assert(combined(saved, query)->Some_0[0] == mode->Some_0);
}

// ------------------------------------------------------------------- records

/// How much is read from a pipe.
pub const MAX_INPUT_BYTES: usize = 67_108_864;

/// How long one record may be, with its delimiter.
pub const MAX_RECORD: usize = 1_048_576;

/// How many records are kept.
pub const MAX_RECORDS: usize = 500_000;

pub const INPUT_TOO_LONG: &'static str =
    "stdin exceeds the 64 MiB total or 1 MiB per-record limit";

pub const INPUT_NOT_TEXT: &'static str = "stdin is not valid UTF-8";

/// Where the record that starts at `i` ends, with its delimiter.
pub open spec fn record_end(b: Seq<u8>, delimiter: u8, i: int) -> int
    decreases b.len() - i,
{
    if i >= b.len() {
        b.len() as int
    } else if b[i] == delimiter {
        i + 1
    } else {
        record_end(b, delimiter, i + 1)
    }
}

pub proof fn lemma_record_end(b: Seq<u8>, delimiter: u8, i: int)
    requires
        0 <= i < b.len(),
    ensures
        i < record_end(b, delimiter, i) <= b.len(),
    decreases b.len() - i,
{
    reveal_with_fuel(record_end, 2);
    if b[i] != delimiter && i + 1 < b.len() {
        lemma_record_end(b, delimiter, i + 1);
    }
}

pub open spec fn delimiter_of(nul: bool) -> u8 {
    if nul {
        0
    } else {
        10
    }
}

/// A record without its delimiter; a line may also end in a carriage return and
/// a newline.
pub open spec fn record_body(record: Seq<u8>, nul: bool) -> Seq<u8> {
    if record.len() > 0 && record.last() == delimiter_of(nul) {
        let body = record.drop_last();
        if !nul && body.len() > 0 && body.last() == 13 {
            body.drop_last()
        } else {
            body
        }
    } else {
        record
    }
}

/// The records from `i` on, after those that were read, and whether some were
/// left out; or the text of an error.
pub open spec fn records(b: Seq<u8>, nul: bool, i: int, done: Seq<Seq<char>>) -> Result<
    (Seq<Seq<char>>, bool),
    Seq<char>,
>
    decreases b.len() - i,
{
    if i < 0 || i >= b.len() {
        Ok((done, false))
    } else {
        proof {
            lemma_record_end(b, delimiter_of(nul), i);
        }
        let end = record_end(b, delimiter_of(nul), i);
        let body = record_body(b.subrange(i, end), nul);
        if end > MAX_INPUT_BYTES || end - i > MAX_RECORD {
            Err(INPUT_TOO_LONG@)
        } else if done.len() == MAX_RECORDS {
            Ok((done, true))
        } else if !valid_utf8(body) {
            Err(INPUT_NOT_TEXT@)
        } else {
            records(b, nul, end, done.push(decode_utf8(body)))
        }
    }
}

fn find_record_end(b: &Vec<u8>, delimiter: u8, i: usize) -> (r: usize)
    requires
        i < b@.len(),
    ensures
        r == record_end(b@, delimiter, i as int),
        i < r <= b@.len(),
{
    let mut k: usize = i;
    while k < b.len()
        invariant
            i <= k <= b@.len(),
            i < b@.len(),
            record_end(b@, delimiter, i as int) == record_end(b@, delimiter, k as int),
        decreases b@.len() - k,
    {
        if b[k] == delimiter {
            return k + 1;
        }
        k += 1;
    }
    k
}

/// The records of a pipe, and whether some were left out because there were too
/// many. `b` holds what was read, up to one byte more than
/// [`MAX_INPUT_BYTES`].
pub fn read_filter_input(b: &Vec<u8>, nul: bool) -> (r: Result<(Vec<String>, bool), &'static str>)
    ensures
        match r {
            Ok(v) => records(b@, nul, 0, Seq::empty()) == Ok::<(Seq<Seq<char>>, bool), Seq<char>>(
                (texts(v.0@), v.1),
            ),
            Err(e) => records(b@, nul, 0, Seq::empty()) == Err::<
                (Seq<Seq<char>>, bool),
                Seq<char>,
            >(e@),
        },
{
    let delimiter: u8 = if nul {
        0
    } else {
        10
    };
    let mut out: Vec<String> = Vec::new();
    let mut i: usize = 0;
    assert(texts(out@) =~= Seq::empty());
    while i < b.len()
        invariant
            i <= b@.len(),
            delimiter == delimiter_of(nul),
            out@.len() <= MAX_RECORDS,
            records(b@, nul, 0, Seq::empty()) == records(b@, nul, i as int, texts(out@)),
        decreases b@.len() - i,
    {
        let end = find_record_end(b, delimiter, i);
        if end > MAX_INPUT_BYTES || end - i > MAX_RECORD {
            return Err(INPUT_TOO_LONG);
        }
        if out.len() == MAX_RECORDS {
            return Ok((out, true));
        }
        let ghost record = b@.subrange(i as int, end as int);
        let mut stop: usize = end;
        if b[end - 1] == delimiter {
            stop = end - 1;
            if !nul && stop > i && b[stop - 1] == 13 {
                stop = stop - 1;
            }
        }
        let body = vstd::slice::slice_subrange(b.as_slice(), i, stop);
        assert(body@ =~= record_body(record, nul));
        match utf8_text(body) {
            None => {
                return Err(INPUT_NOT_TEXT);
            },
            Some(text) => {
                proof {
                    encode_utf8_decode_utf8(text@);
                }
                let ghost before = out@;
                let text = text.to_owned();
                out.push(text);
                assert(texts(out@) =~= texts(before).push(text@));
            },
        }
        i = end;
    }
    Ok((out, false))
}

// -------------------------------------------------------------- largest files

/// The files among the first `n` entries, with their sizes as scores.
pub open spec fn sized_files(es: Seq<EntryView>, n: int) -> Seq<Candidate>
    decreases n,
{
    if n <= 0 {
        Seq::empty()
    } else {
        let rest = sized_files(es, n - 1);
        if is_dir_path(es[n - 1].0) {
            rest
        } else {
            rest.push(
                Candidate { score: es[n - 1].1.size, index: (n - 1) as usize, quiet: false },
            )
        }
    }
}

/// The `n` largest files of the index, largest first; files of one size keep
/// their order.
pub fn largest(store: &PathStore, n: usize) -> (r: Vec<usize>)
    ensures
        r@ == indices_of(head(best_first(sized_files(store@, store@.len() as int)), n as int)),
{
    let mut files: Vec<Candidate> = Vec::new();
    let mut i: usize = 0;
    while i < store.len()
        invariant
            i <= store@.len(),
            files@ == sized_files(store@, i as int),
        decreases store@.len() - i,
    {
        if !is_dir(store.get(i)) {
            files.push(Candidate { score: store.meta(i).size, index: i, quiet: false });
        }
        i += 1;
    }
    let best = rank(&files, n);
    let mut out: Vec<usize> = Vec::new();
    let mut k: usize = 0;
    while k < best.len()
        invariant
            k <= best@.len(),
            out@ == indices_of(best@.take(k as int)),
        decreases best@.len() - k,
    {
        out.push(best[k].index);
        k += 1;
        assert(out@ =~= indices_of(best@.take(k as int)));
    }
    assert(best@.take(k as int) =~= best@);
    out
}

/// A file in the list of the largest files.
pub open spec fn file_record(e: EntryView, format: OutputFormat) -> Seq<char> {
    if format == OutputFormat::Json {
        "{\"mtime\":"@ + signed_digits(e.1.mtime as int) + ",\"path\":"@ + json_string(e.0)
            + ",\"size\":"@ + digits_of(e.1.size as nat) + ",\"type\":\"file\"}"@ + "\n"@
    } else {
        right_aligned(size_text(e.1.size), 10) + "  "@ + e.0 + "\n"@
    }
}

/// The line for an entry in the list of the largest files.
pub fn largest_line(store: &PathStore, i: usize, format: OutputFormat) -> (r: String)
    requires
        i < store@.len(),
    ensures
        r@ == file_record(store@[i as int], format),
{
    let path = store.get(i);
    let meta = store.meta(i);
    let mut out = String::new();
    proof {
        reveal_strlit("");
    }
    if format == OutputFormat::Json {
        out.append("{\"mtime\":");
        push_signed(&mut out, meta.mtime);
        out.append(",\"path\":");
        out.append(&json_quoted(path));
        out.append(",\"size\":");
        push_decimal(&mut out, meta.size);
        out.append(",\"type\":\"file\"}");
        out.append("\n");
    } else {
        out.append(&align_right(&human_size(meta.size), 10));
        out.append("  ");
        out.append(path);
        out.append("\n");
    }
    assert(out@ =~= file_record(store@[i as int], format));
    out
}

// ------------------------------------------------------------ semantic index

/// An entry belongs into the semantic index.
pub open spec fn is_document(e: EntryView) -> bool {
    !is_dir_path(e.0) && ext_among(semantic_exts(), e.0) && e.1.size <= MAX_SEMANTIC_BYTES
}

/// The documents among the first `n` entries.
pub open spec fn documents(es: Seq<EntryView>, n: int) -> Seq<usize>
    decreases n,
{
    if n <= 0 {
        Seq::empty()
    } else if is_document(es[n - 1]) {
        documents(es, n - 1).push((n - 1) as usize)
    } else {
        documents(es, n - 1)
    }
}

/// The entries that the semantic index covers.
pub fn semantic_files(store: &PathStore) -> (r: Vec<usize>)
    ensures
        r@ == documents(store@, store@.len() as int),
{
    let mut out: Vec<usize> = Vec::new();
    let mut i: usize = 0;
    while i < store.len()
        invariant
            i <= store@.len(),
            out@ == documents(store@, i as int),
        decreases store@.len() - i,
    {
        let path = store.get(i);
        if !is_dir(path) && is_semantic_path(path) && store.meta(i).size <= MAX_SEMANTIC_BYTES {
            out.push(i);
        }
        i += 1;
    }
    out
}

/// Whether the vectors of a document may be used again. The store records
/// seconds; a file that was modified since the store was written is read again
/// even if its size and its second are unchanged.
pub fn is_fresh(modified: Option<u64>, stored: Option<u64>) -> (r: bool)
    ensures
        r == (modified is None || (stored is Some && modified->Some_0 < stored->Some_0)),
{
    match (modified, stored) {
        (None, _) => true,
        (Some(m), Some(s)) => m < s,
        (Some(_), None) => false,
    }
}

// ----------------------------------------------------------------- summaries

/// What is said after the semantic index was built.
pub open spec fn semantic_text(
    docs: nat,
    chunks: nat,
    embedded: nat,
    reused: nat,
    skipped: nat,
    secs: Seq<char>,
) -> Seq<char> {
    "semantic index: "@ + digits_of(docs) + " documents, "@ + digits_of(chunks) + " chunks ("@
        + digits_of(embedded) + " embedded, "@ + digits_of(reused) + " unchanged"@ + (if skipped
        > 0 {
        ", "@ + digits_of(skipped) + " unreadable"@
    } else {
        Seq::empty()
    }) + ") in "@ + secs + "s\n"@
}

pub fn semantic_summary(
    docs: usize,
    chunks: usize,
    stats: &crate::sem::BuildStats,
    secs: &str,
) -> (r: String)
    ensures
        r@ == semantic_text(
            docs as nat,
            chunks as nat,
            stats.embedded as nat,
            stats.reused as nat,
            stats.skipped as nat,
            secs@,
        ),
{
    let mut out = "semantic index: ".to_owned();
    push_decimal(&mut out, docs as u64);
    out.append(" documents, ");
    push_decimal(&mut out, chunks as u64);
    out.append(" chunks (");
    push_decimal(&mut out, stats.embedded as u64);
    out.append(" embedded, ");
    push_decimal(&mut out, stats.reused as u64);
    out.append(" unchanged");
    let ghost before = out@;
    if stats.skipped > 0 {
        out.append(", ");
        push_decimal(&mut out, stats.skipped as u64);
        out.append(" unreadable");
    }
    out.append(") in ");
    out.append(secs);
    out.append("s\n");
    assert(out@ =~= semantic_text(
        docs as nat,
        chunks as nat,
        stats.embedded as nat,
        stats.reused as nat,
        stats.skipped as nat,
        secs@,
    ));
    out
}

/// What is said after the index was rebuilt.
pub open spec fn index_text(files: nat, skipped: nat, secs: Seq<char>) -> Seq<char> {
    "indexed "@ + digits_of(files) + " files in "@ + secs + "s"@ + (if skipped > 0 {
        " ("@ + digits_of(skipped) + " unreadable entries skipped)"@
    } else {
        Seq::empty()
    }) + "\n"@
}

pub fn index_summary(files: usize, skipped: usize, secs: &str) -> (r: String)
    ensures
        r@ == index_text(files as nat, skipped as nat, secs@),
{
    let mut out = "indexed ".to_owned();
    push_decimal(&mut out, files as u64);
    out.append(" files in ");
    out.append(secs);
    out.append("s");
    if skipped > 0 {
        out.append(" (");
        push_decimal(&mut out, skipped as u64);
        out.append(" unreadable entries skipped)");
    }
    out.append("\n");
    assert(out@ =~= index_text(files as nat, skipped as nat, secs@));
    out
}

/// What is said after a cleanup.
pub fn clear_summary(removed: usize, history: bool) -> (r: String)
    ensures
        r@ == "removed "@ + digits_of(removed as nat) + (if history {
            " history/session"@
        } else {
            " cache"@
        }) + " entries; close other fsearch instances to prevent recreation\n"@,
{
    let mut out = "removed ".to_owned();
    push_decimal(&mut out, removed as u64);
    out.append(
        if history {
            " history/session"
        } else {
            " cache"
        },
    );
    out.append(" entries; close other fsearch instances to prevent recreation\n");
    out
}


// ---------------------------------------------------------------------- laws

/// A text that starts neither with a space nor with a character that picks a
/// mode.
pub open spec fn is_plain(s: Seq<char>) -> bool {
    s.len() > 0 && !is_space(s[0]) && s[0] != '>' && s[0] != '?' && s[0] != '='
}

pub open spec fn picks_mode(c: char) -> bool {
    c == '>' || c == '?' || c == '='
}

proof fn lemma_plain_parts(c: char, s: Seq<char>)
    requires
        is_plain(s),
        picks_mode(c),
    ensures
        prefix_parts(s) == (None::<char>, s),
        prefix_parts(seq![c] + s) == (Some(c), s),
{
    let t = seq![c] + s;
    assert(t.skip(1) =~= s);
    assert(skip_spaces(s, 0) == 0);
    assert(s.skip(0) =~= s);
}

/// A saved search and a query make one query of both texts, the saved one first,
/// in the mode that either picks. They do not go together where they pick
/// different modes.
pub proof fn saved_searches_are_refined(saved: Seq<char>, query: Seq<char>, c: char, d: char)
    requires
        is_plain(saved),
        is_plain(query),
        picks_mode(c),
        picks_mode(d),
    ensures
        ({
            let both = saved + seq![' '] + query;
            let moded = seq![c, ' '] + both;
            &&& combined(saved, query) == Some(both)
            &&& combined(seq![c] + saved, query) == Some(moded)
            &&& combined(saved, seq![c] + query) == Some(moded)
            &&& combined(seq![c] + saved, seq![c] + query) == Some(moded)
            &&& c != d ==> combined(seq![c] + saved, seq![d] + query) is None
        }),
{
    reveal_strlit(" ");
    assert(" "@ =~= seq![' ']);
    lemma_plain_parts(c, saved);
    lemma_plain_parts(c, query);
    lemma_plain_parts(d, query);
    let both = saved + seq![' '] + query;
    assert(seq![c] + " "@ + both =~= seq![c, ' '] + both);
}

proof fn lemma_record_ends(b: Seq<u8>, delimiter: u8, i: int, end: int)
    requires
        0 <= i <= end < b.len(),
        b[end] == delimiter,
        forall|k: int| i <= k < end ==> b[k] != delimiter,
    ensures
        record_end(b, delimiter, i) == end + 1,
    decreases end - i,
{
    if i < end {
        lemma_record_ends(b, delimiter, i + 1, end);
    }
}

/// Records one after another, each with its delimiter.
pub open spec fn delimited(bodies: Seq<Seq<u8>>, nul: bool) -> Seq<u8>
    decreases bodies.len(),
{
    if bodies.len() == 0 {
        Seq::empty()
    } else {
        bodies[0] + seq![if nul {
            0u8
        } else {
            10u8
        }] + delimited(bodies.drop_first(), nul)
    }
}

/// A record that is read as it is written: text without the delimiter, and a
/// line without a carriage return at its end.
pub open spec fn is_readable(body: Seq<u8>, nul: bool) -> bool {
    &&& valid_utf8(body)
    &&& body.len() < MAX_RECORD
    &&& nul ==> !body.contains(0u8)
    &&& !nul ==> !body.contains(10u8) && (body.len() > 0 ==> body.last() != 13)
}

proof fn lemma_records(b: Seq<u8>, bodies: Seq<Seq<u8>>, nul: bool, i: int, done: Seq<Seq<char>>)
    requires
        0 <= i <= b.len() <= MAX_INPUT_BYTES,
        b.skip(i) == delimited(bodies, nul),
        done.len() + bodies.len() <= MAX_RECORDS,
        forall|k: int| 0 <= k < bodies.len() ==> is_readable(#[trigger] bodies[k], nul),
    ensures
        records(b, nul, i, done) == Ok::<(Seq<Seq<char>>, bool), Seq<char>>(
            (done + bodies.map_values(|body: Seq<u8>| decode_utf8(body)), false),
        ),
    decreases bodies.len(),
{
    let texts = bodies.map_values(|body: Seq<u8>| decode_utf8(body));
    assert(b.skip(i).len() == b.len() - i);
    if bodies.len() == 0 {
        assert(done + texts =~= done);
    } else {
        let delimiter = delimiter_of(nul);
        let body = bodies[0];
        let rest = bodies.drop_first();
        let all = delimited(bodies, nul);
        let n = body.len() as int;
        assert(all == body + seq![delimiter] + delimited(rest, nul));
        assert(all[n] == delimiter && b[i + n] == b.skip(i)[n]);
        assert forall|k: int| i <= k < i + n implies b[k] != delimiter by {
            assert(b[k] == b.skip(i)[k - i]);
            assert(all[k - i] == body[k - i]);
            assert(body.contains(b[k]));
        }
        lemma_record_ends(b, delimiter, i, i + n);
        let end = i + n + 1;
        let record = b.subrange(i, end);
        assert(record =~= body.push(delimiter)) by {
            assert forall|k: int| 0 <= k < n + 1 implies record[k] == body.push(delimiter)[k] by {
                assert(record[k] == b.skip(i)[k]);
            }
        }
        assert(record.drop_last() =~= body);
        assert(record_body(record, nul) == body);
        assert(is_readable(body, nul));
        assert(b.skip(end) =~= delimited(rest, nul)) by {
            assert(b.skip(end) =~= b.skip(i).skip(n + 1));
            assert(all.skip(n + 1) =~= delimited(rest, nul));
        }
        assert forall|k: int| 0 <= k < rest.len() implies is_readable(#[trigger] rest[k], nul) by {
            assert(rest[k] == bodies[k + 1]);
        }
        lemma_records(b, rest, nul, end, done.push(decode_utf8(body)));
        let more = rest.map_values(|body: Seq<u8>| decode_utf8(body));
        assert(done.push(decode_utf8(body)) + more =~= done + texts);
    }
}

/// Records that were written with their delimiters are read back, in their
/// order: lines, or records that end in a NUL.
pub proof fn records_are_read_back(bodies: Seq<Seq<u8>>, nul: bool)
    requires
        bodies.len() <= MAX_RECORDS,
        delimited(bodies, nul).len() <= MAX_INPUT_BYTES,
        forall|k: int| 0 <= k < bodies.len() ==> is_readable(#[trigger] bodies[k], nul),
    ensures
        records(delimited(bodies, nul), nul, 0, Seq::empty()) == Ok::<
            (Seq<Seq<char>>, bool),
            Seq<char>,
        >((bodies.map_values(|body: Seq<u8>| decode_utf8(body)), false)),
{
    let b = delimited(bodies, nul);
    assert(b.skip(0) =~= b);
    lemma_records(b, bodies, nul, 0, Seq::empty());
    let texts = bodies.map_values(|body: Seq<u8>| decode_utf8(body));
    assert(Seq::<Seq<char>>::empty() + texts =~= texts);
}

proof fn lemma_sized(es: Seq<EntryView>, n: int)
    requires
        0 <= n <= es.len() <= usize::MAX,
    ensures
        in_index_order(sized_files(es, n)),
        forall|k: int|
            0 <= k < sized_files(es, n).len() ==> {
                let c = #[trigger] sized_files(es, n)[k];
                &&& c.index < n
                &&& !is_dir_path(es[c.index as int].0)
                &&& c.score == es[c.index as int].1.size
                &&& !c.quiet
            },
    decreases n,
{
    if n > 0 {
        lemma_sized(es, n - 1);
    }
}

proof fn lemma_sized_file(es: Seq<EntryView>, n: int, i: int) -> (k: int)
    requires
        0 <= i < n <= es.len() <= usize::MAX,
        !is_dir_path(es[i].0),
    ensures
        0 <= k < sized_files(es, n).len(),
        sized_files(es, n)[k].index == i,
    decreases n,
{
    if i == n - 1 {
        sized_files(es, n).len() - 1
    } else {
        lemma_sized_file(es, n - 1, i)
    }
}

/// The list of the largest files holds files only, larger ones above smaller
/// ones and files of one size in index order. A file is missing only where the
/// list is full.
pub proof fn larger_files_come_first(es: Seq<EntryView>, limit: int, i: int, j: int)
    requires
        es.len() <= usize::MAX,
        0 <= limit,
        0 <= i < es.len(),
        0 <= j < es.len(),
    ensures
        ({
            let r = indices_of(head(best_first(sized_files(es, es.len() as int)), limit));
            let is_file = |k: int| !is_dir_path(es[k].0);
            let (a, b) = (es[i].1.size, es[j].1.size);
            &&& r.len() <= limit
            &&& r.contains(i as usize) ==> is_file(i)
            &&& is_file(i) && r.len() < limit ==> r.contains(i as usize)
            &&& is_file(i) && is_file(j) && (a > b || a == b && i < j) ==> comes_first(r, i, j)
        }),
{
    let n = es.len() as int;
    let cs = sized_files(es, n);
    let r = indices_of(head(best_first(cs), limit));
    lemma_sized(es, n);
    ranking_sorts(cs);
    if r.contains(i as usize) {
        let q = choose|q: int| 0 <= q < r.len() && r[q] == i as usize;
        lemma_permuted(best_first(cs), cs, q);
        let k = choose|k: int| 0 <= k < cs.len() && cs[k] == best_first(cs)[q];
        assert(cs[k].index == i);
    }
    if !is_dir_path(es[i].0) {
        let k = lemma_sized_file(es, n, i);
        if r.len() < limit {
            lemma_listed_unless_full(cs, limit, k);
        }
        if !is_dir_path(es[j].0) {
            let m = lemma_sized_file(es, n, j);
            let (x, y) = (cs[k], cs[m]);
            if ranks_before(x, y) {
                lemma_comes_first(cs, limit, k, m);
            }
        }
    }
}


proof fn lemma_documents(es: Seq<EntryView>, n: int, i: int)
    requires
        0 <= n <= es.len() <= usize::MAX,
        0 <= i < es.len(),
    ensures
        documents(es, n).contains(i as usize) <==> i < n && is_document(es[i]),
    decreases n,
{
    if n > 0 {
        lemma_documents(es, n - 1, i);
        let rest = documents(es, n - 1);
        let all = documents(es, n);
        if rest.contains(i as usize) {
            let k = choose|k: int| 0 <= k < rest.len() && rest[k] == i as usize;
            assert(all[k] == i as usize);
        }
        if i == n - 1 && is_document(es[i]) {
            assert(all[rest.len() as int] == i as usize);
        }
        if all.contains(i as usize) {
            let k = choose|k: int| 0 <= k < all.len() && all[k] == i as usize;
            if k < rest.len() {
                assert(rest[k] == i as usize);
            }
        }
    }
}

/// The semantic index covers the files with one of its extensions, in any case,
/// that are not too large; no directories.
pub proof fn documents_go_by_extension_and_size(
    es: Seq<EntryView>,
    i: int,
    dir: Seq<char>,
    stem: Seq<char>,
    ext: Seq<char>,
)
    requires
        0 <= i < es.len() <= usize::MAX,
        es[i].0 == dir + stem + seq!['.'] + ext,
        is_start(dir),
        stem.len() > 0,
        !ext.contains('.'),
        is_name(stem + seq!['.'] + ext),
        is_name(stem),
    ensures
        documents(es, es.len() as int).contains(i as usize) <==> es[i].1.size <= MAX_SEMANTIC_BYTES
            && exists|k: int|
            0 <= k < semantic_exts().len() && same_ignoring_case(
                ext,
                #[trigger] semantic_exts()[k],
            ),
{
    lemma_documents(es, es.len() as int, i);
    extensions_follow_the_last_dot(dir, stem, ext);
    let name = stem + seq!['.'] + ext;
    assert(es[i].0.last() == name.last());
    assert(name.contains(name[name.len() - 1]));
}

} // verus!
