//! What was opened and searched before: ranking boosts and the query history.

use crate::codec::{lemma_encode_concat, utf8_text};
use crate::pathmap::PathMap;
use crate::paths::{base_dir, program_file, program_path};
use crate::text::{
    all_digits, chars_of, decimal, digits_of, is_digit, lemma_digits_of, lemma_texts_push,
    lemma_trim, parse_digits, push_decimal, push_signed, same, signed_digits, string_of_range,
    texts, trim, trimmed,
};
use vstd::prelude::*;
use vstd::string::*;
use vstd::utf8::*;

verus! {

pub const COMPACT_THRESHOLD: usize = 20_000;

pub const QUERY_LIMIT: usize = 100;

pub const MAX_HISTORY_LINE: usize = 1_048_576;

// ------------------------------------------------------------------- records

/// The first newline byte at or after `i`, or the length.
pub open spec fn line_break(d: Seq<u8>, i: int) -> int
    decreases d.len() - i,
{
    if i < 0 || i >= d.len() {
        d.len() as int
    } else if d[i] == 10 {
        i
    } else {
        line_break(d, i + 1)
    }
}

/// One record, unless it is too long.
pub open spec fn record(line: Seq<u8>) -> Option<Seq<u8>> {
    if line.len() <= MAX_HISTORY_LINE {
        Some(line)
    } else {
        None
    }
}

/// The records from `i` on; the last need not be terminated.
pub open spec fn records_from(d: Seq<u8>, i: int) -> Seq<Option<Seq<u8>>>
    decreases d.len() - i,
    when 0 <= i
    via records_decrease
{
    if i >= d.len() {
        Seq::empty()
    } else {
        let end = line_break(d, i);
        seq![record(d.subrange(i, end))] + (if end < d.len() {
            records_from(d, end + 1)
        } else {
            Seq::empty()
        })
    }
}

proof fn lemma_line_break(d: Seq<u8>, i: int)
    requires
        0 <= i <= d.len(),
    ensures
        i <= line_break(d, i) <= d.len(),
        line_break(d, i) < d.len() ==> d[line_break(d, i)] == 10,
        forall|k: int| i <= k < line_break(d, i) ==> d[k] != 10,
    decreases d.len() - i,
{
    if i < d.len() && d[i] != 10 {
        lemma_line_break(d, i + 1);
    }
}

#[via_fn]
proof fn records_decrease(d: Seq<u8>, i: int) {
    if i < d.len() {
        lemma_line_break(d, i);
    }
}

/// The text of a record: it has to be short enough and to be UTF-8.
pub open spec fn record_text(r: Option<Seq<u8>>) -> Option<Seq<char>> {
    match r {
        Some(line) => if valid_utf8(line) {
            Some(decode_utf8(line))
        } else {
            None
        },
        None => None,
    }
}

/// Where the record that is not terminated yet starts.
pub open spec fn open_start(d: Seq<u8>) -> int
    decreases d.len(),
{
    if d.len() == 0 {
        0
    } else if d.last() == 10 {
        d.len() as int
    } else {
        open_start(d.drop_last())
    }
}

/// The records that are terminated.
pub open spec fn terminated(d: Seq<u8>) -> Seq<Option<Seq<u8>>> {
    records_from(d.take(open_start(d)), 0)
}

proof fn lemma_open_start(d: Seq<u8>)
    ensures
        0 <= open_start(d) <= d.len(),
        open_start(d) > 0 ==> d[open_start(d) - 1] == 10,
        forall|k: int| open_start(d) <= k < d.len() ==> d[k] != 10,
    decreases d.len(),
{
    if d.len() > 0 && d.last() != 10 {
        lemma_open_start(d.drop_last());
        assert forall|k: int| open_start(d) <= k < d.len() implies d[k] != 10 by {
            if k < d.len() - 1 {
                assert(d.drop_last()[k] == d[k]);
            }
        }
    }
}

/// What one more byte does to the records.
proof fn lemma_next_byte(d: Seq<u8>, b: u8)
    ensures
        b != 10 ==> open_start(d.push(b)) == open_start(d) && terminated(d.push(b)) == terminated(d),
        b == 10 ==> open_start(d.push(b)) == d.len() + 1 && terminated(d.push(b)) == terminated(
            d,
        ).push(record(d.skip(open_start(d)))),
{
    let e = d.push(b);
    let s = open_start(d);
    lemma_open_start(d);
    assert(e.drop_last() =~= d);
    if b == 10 {
        let (a, line) = (d.take(s), d.skip(s));
        assert(e.take(e.len() as int) =~= a + line + seq![10u8]);
        assert forall|i: int| 0 <= i < line.len() implies line[i] != 10 by {
            assert(line[i] == d[s + i]);
        }
        if a.len() > 0 {
            assert(a.last() == d[s - 1]);
        }
        lemma_last_record(a, line);
    } else {
        assert(e.take(s) =~= d.take(s));
    }
}

/// The last record need not be terminated.
proof fn lemma_open_record(d: Seq<u8>)
    ensures
        open_start(d) == d.len() ==> records_from(d, 0) == terminated(d),
        open_start(d) < d.len() ==> records_from(d, 0) == terminated(d).push(
            record(d.skip(open_start(d))),
        ),
{
    let s = open_start(d);
    lemma_open_start(d);
    let (a, line) = (d.take(s), d.skip(s));
    assert(a + line =~= d);
    if s < d.len() {
        if s > 0 {
            assert(a.last() == d[s - 1]);
        }
        lemma_records_split(a, line, 0);
        lemma_line_break(d, s);
        assert(line_break(d, s) == d.len());
        assert(d.subrange(s, d.len() as int) =~= line);
        assert(records_from(d, s) =~= seq![record(line)]);
        assert(terminated(d) + seq![record(line)] =~= terminated(d).push(record(line)));
    } else {
        assert(a =~= d);
    }
}

proof fn lemma_record_count(d: Seq<u8>, i: int)
    requires
        0 <= i <= d.len(),
    ensures
        records_from(d, i).len() <= d.len() - i,
    decreases d.len() - i,
{
    if i < d.len() {
        lemma_line_break(d, i);
        let end = line_break(d, i);
        if end < d.len() {
            lemma_record_count(d, end + 1);
        }
    }
}

/// One record, or the place of one that is too long.
pub enum Record {
    Line(Vec<u8>),
    TooLong,
}

impl View for Record {
    type V = Option<Seq<u8>>;

    open spec fn view(&self) -> Option<Seq<u8>> {
        match self {
            Record::Line(line) => Some(line@),
            Record::TooLong => None,
        }
    }
}

impl Record {
    fn text(&self) -> (r: Option<&str>)
        ensures
            match r {
                Some(s) => record_text(self@) == Some(s@),
                None => record_text(self@) is None,
            },
    {
        match self {
            Record::Line(line) => match utf8_text(line.as_slice()) {
                Some(s) => {
                    proof {
                        encode_utf8_decode_utf8(s@);
                    }
                    Some(s)
                },
                None => None,
            },
            Record::TooLong => None,
        }
    }
}

/// Splits what is read into records. A record that is too long is not kept, so
/// a malformed file does not fill the memory.
pub struct RecordReader {
    line: Vec<u8>,
    over: bool,
    read: Ghost<Seq<u8>>,
}

impl RecordReader {
    /// What was read so far.
    pub closed spec fn seen(&self) -> Seq<u8> {
        self.read@
    }

    pub closed spec fn wf(&self) -> bool {
        let open = self.read@.skip(open_start(self.read@));
        &&& self.over == (open.len() > MAX_HISTORY_LINE)
        &&& !self.over ==> self.line@ == open
    }

    pub fn new() -> (r: RecordReader)
        ensures
            r.wf(),
            r.seen() == Seq::<u8>::empty(),
    {
        let r = RecordReader { line: Vec::new(), over: false, read: Ghost(Seq::empty()) };
        assert(r.line@ =~= r.read@.skip(0));
        r
    }

    /// Reads one byte; a newline completes a record.
    pub fn next(&mut self, b: u8) -> (r: Option<Record>)
        requires
            old(self).wf(),
        ensures
            final(self).wf(),
            final(self).seen() == old(self).seen().push(b),
            match r {
                Some(x) => terminated(final(self).seen()) == terminated(old(self).seen()).push(x@),
                None => terminated(final(self).seen()) == terminated(old(self).seen()),
            },
    {
        let ghost before = self.read@;
        let ghost open = before.skip(open_start(before));
        proof {
            lemma_next_byte(before, b);
            lemma_open_start(before);
        }
        self.read = Ghost(before.push(b));
        if b == 10 {
            let r = if self.over {
                self.over = false;
                Record::TooLong
            } else {
                let mut line: Vec<u8> = Vec::new();
                std::mem::swap(&mut line, &mut self.line);
                Record::Line(line)
            };
            self.line = Vec::new();
            assert(r@ == record(open));
            assert(self.line@ =~= before.push(b).skip(before.len() as int + 1));
            Some(r)
        } else {
            assert(before.push(b).skip(open_start(before)) =~= open.push(b));
            if !self.over {
                if self.line.len() >= MAX_HISTORY_LINE {
                    self.line = Vec::new();
                    self.over = true;
                } else {
                    self.line.push(b);
                }
            }
            None
        }
    }

    /// The record that the end completes, where there is one.
    pub fn finish(self) -> (r: Option<Record>)
        requires
            self.wf(),
        ensures
            records_from(self.seen(), 0) == match r {
                Some(x) => terminated(self.seen()).push(x@),
                None => terminated(self.seen()),
            },
    {
        proof {
            lemma_open_record(self.read@);
            lemma_open_start(self.read@);
        }
        if self.over {
            Some(Record::TooLong)
        } else if self.line.len() > 0 {
            Some(Record::Line(self.line))
        } else {
            None
        }
    }
}

// ------------------------------------------------------------------- queries

/// The history without a query.
pub open spec fn without(s: Seq<Seq<char>>, q: Seq<char>) -> Seq<Seq<char>>
    decreases s.len(),
{
    if s.len() == 0 {
        Seq::empty()
    } else {
        let before = without(s.drop_last(), q);
        if s.last() == q {
            before
        } else {
            before.push(s.last())
        }
    }
}

/// The last queries, up to the limit.
pub open spec fn capped(s: Seq<Seq<char>>) -> Seq<Seq<char>> {
    if s.len() > QUERY_LIMIT {
        s.skip(1)
    } else {
        s
    }
}

/// The history once a query ran: it moves to the end, and the oldest goes.
pub open spec fn remembered(s: Seq<Seq<char>>, q: Seq<char>) -> Seq<Seq<char>> {
    capped(without(s, q).push(q))
}

/// The query that a record holds.
pub open spec fn record_query(r: Option<Seq<u8>>) -> Option<Seq<char>> {
    match record_text(r) {
        Some(s) => if trim(s).len() == 0 {
            None
        } else {
            Some(trim(s))
        },
        None => None,
    }
}

/// The history after the first `n` records.
pub open spec fn history_upto(records: Seq<Option<Seq<u8>>>, n: int) -> Seq<Seq<char>>
    decreases n,
{
    if n <= 0 {
        Seq::empty()
    } else {
        match record_query(records[n - 1]) {
            Some(q) => remembered(history_upto(records, n - 1), q),
            None => history_upto(records, n - 1),
        }
    }
}

/// The history that a file holds.
pub open spec fn history_of(d: Seq<u8>) -> Seq<Seq<char>> {
    history_upto(records_from(d, 0), records_from(d, 0).len() as int)
}

/// Remembers a query: it moves to the end, and the oldest goes.
pub fn remember(queries: Vec<String>, query: &str) -> (r: Vec<String>)
    ensures
        texts(r@) == remembered(texts(queries@), query@),
{
    let ghost all = texts(queries@);
    let mut out: Vec<String> = Vec::new();
    let mut i: usize = 0;
    proof {
        assert(texts(out@) =~= Seq::empty());
        assert(all.take(0) =~= Seq::empty());
    }
    while i < queries.len()
        invariant
            i <= queries@.len(),
            all == texts(queries@),
            texts(out@) == without(all.take(i as int), query@),
        decreases queries@.len() - i,
    {
        proof {
            assert(all.take(i + 1).drop_last() =~= all.take(i as int));
            assert(all[i as int] == queries@[i as int]@);
        }
        if !same(&queries[i], query) {
            let q = queries[i].as_str().to_owned();
            proof {
                lemma_texts_push(out@, q);
            }
            out.push(q);
        }
        i += 1;
    }
    assert(all.take(i as int) =~= all);
    let q = query.to_owned();
    proof {
        lemma_texts_push(out@, q);
    }
    out.push(q);
    if out.len() > QUERY_LIMIT {
        let ghost before = out@;
        let _ = out.remove(0);
        assert(texts(out@) =~= texts(before).skip(1));
    }
    out
}

/// Reads the query history bit by bit: recent unique queries, oldest first,
/// capped, and how many records there were. Malformed records count, but are
/// skipped.
pub struct QueryLoader {
    reader: RecordReader,
    queries: Vec<String>,
    lines: usize,
}

impl QueryLoader {
    /// What was read so far.
    pub closed spec fn seen(&self) -> Seq<u8> {
        self.reader.seen()
    }

    pub closed spec fn wf(&self) -> bool {
        let records = terminated(self.seen());
        &&& self.reader.wf()
        &&& texts(self.queries@) == history_upto(records, records.len() as int)
        &&& self.lines == records.len()
    }

    pub fn new() -> (r: QueryLoader)
        ensures
            r.wf(),
            r.seen() == Seq::<u8>::empty(),
    {
        let r = QueryLoader { reader: RecordReader::new(), queries: Vec::new(), lines: 0 };
        assert(r.seen().take(0) =~= Seq::empty());
        assert(texts(r.queries@) =~= Seq::empty());
        r
    }

    fn take(&mut self, r: Record, Ghost(records): Ghost<Seq<Option<Seq<u8>>>>)
        requires
            texts(old(self).queries@) == history_upto(records, records.len() as int),
            old(self).lines == records.len() < usize::MAX,
        ensures
            texts(final(self).queries@) == history_upto(records.push(r@), records.len() as int + 1),
            final(self).lines == records.len() + 1,
            final(self).reader == old(self).reader,
    {
        proof {
            lemma_history_prefix(records.push(r@), records, records.len() as int);
        }
        if let Some(text) = r.text() {
            let query = trimmed(&chars_of(text));
            if chars_of(&query).len() > 0 {
                let mut queries: Vec<String> = Vec::new();
                std::mem::swap(&mut queries, &mut self.queries);
                self.queries = remember(queries, &query);
            }
        }
        self.lines += 1;
    }

    /// Reads on.
    pub fn feed(&mut self, d: &[u8])
        requires
            old(self).wf(),
            old(self).seen().len() + d@.len() <= usize::MAX,
        ensures
            final(self).wf(),
            final(self).seen() == old(self).seen() + d@,
    {
        let ghost start = self.seen();
        let mut i: usize = 0;
        assert(start + d@.take(0) =~= start);
        while i < d.len()
            invariant
                i <= d@.len(),
                self.wf(),
                self.seen() == start + d@.take(i as int),
                start.len() + d@.len() <= usize::MAX,
            decreases d@.len() - i,
        {
            let ghost records = terminated(self.seen());
            proof {
                lemma_terminated_count(self.seen());
            }
            if let Some(r) = self.reader.next(d[i]) {
                self.take(r, Ghost(records));
            }
            i += 1;
            assert(start + d@.take(i as int) =~= (start + d@.take(i - 1)).push(d@[i - 1]));
        }
        assert(d@.take(i as int) =~= d@);
    }

    /// The history, and the number of records.
    pub fn finish(self) -> (r: (Vec<String>, usize))
        requires
            self.wf(),
            self.seen().len() <= usize::MAX,
        ensures
            texts(r.0@) == history_of(self.seen()),
            r.1 == records_from(self.seen(), 0).len(),
    {
        let ghost records = terminated(self.seen());
        let ghost all = records_from(self.seen(), 0);
        proof {
            lemma_open_record(self.seen());
            lemma_record_count(self.seen(), 0);
        }
        let mut loader = QueryLoader {
            reader: RecordReader::new(),
            queries: self.queries,
            lines: self.lines,
        };
        if let Some(r) = self.reader.finish() {
            loader.take(r, Ghost(records));
        }
        (loader.queries, loader.lines)
    }
}

proof fn lemma_terminated_count(d: Seq<u8>)
    ensures
        terminated(d).len() <= d.len(),
{
    lemma_open_start(d);
    lemma_record_count(d.take(open_start(d)), 0);
}

/// Reads the query history in a file; see [`QueryLoader`].
pub fn load_queries(d: &[u8]) -> (r: (Vec<String>, usize))
    ensures
        texts(r.0@) == history_of(d@),
        r.1 == records_from(d@, 0).len(),
{
    let mut loader = QueryLoader::new();
    assert(d@.len() == d.len());
    loader.feed(d);
    assert(loader.seen() =~= d@);
    loader.finish()
}

/// Whether a history file holds more than the history: too much, duplicates or
/// malformed records.
pub fn needs_rewrite(lines: usize, queries: usize) -> (r: bool)
    ensures
        r == (lines > QUERY_LIMIT || lines != queries),
{
    lines > QUERY_LIMIT || lines != queries
}

/// The query as it is remembered; `None` for one that cannot be.
pub open spec fn kept_query(query: Seq<char>) -> Option<Seq<char>> {
    let q = trim(query);
    if q.len() == 0 || encode_utf8(q).len() > MAX_HISTORY_LINE || q.contains('\n') || q.contains(
        '\r',
    ) {
        None
    } else {
        Some(q)
    }
}

fn has_break(s: &Vec<char>) -> (r: bool)
    ensures
        r == (s@.contains('\n') || s@.contains('\r')),
{
    let mut i: usize = 0;
    while i < s.len()
        invariant
            i <= s@.len(),
            forall|k: int| 0 <= k < i ==> s@[k] != '\n' && s@[k] != '\r',
        decreases s@.len() - i,
    {
        if s[i] == '\n' || s[i] == '\r' {
            assert(s@.contains(s@[i as int]));
            return true;
        }
        i += 1;
    }
    false
}

/// What becomes of the history file when a query ran.
#[derive(Debug)]
pub enum QueryUpdate {
    /// Nothing is written.
    Ignore,
    /// The record is added at the end.
    Append(String),
    /// The file is replaced by these queries.
    Rewrite(Vec<String>),
}

/// The update for a query that ran, given the history and the number of records.
pub open spec fn updates_history(
    old: Seq<Seq<char>>,
    lines: nat,
    query: Seq<char>,
    update: QueryUpdate,
) -> bool {
    match kept_query(query) {
        None => update is Ignore,
        Some(q) => if lines >= QUERY_LIMIT || lines != old.len() || old.contains(q) {
            update matches QueryUpdate::Rewrite(v) && texts(v@) == remembered(old, q)
        } else {
            update matches QueryUpdate::Append(s) && s@ == q
        },
    }
}

/// Adds a query to the history in a file. A short file without duplicates and
/// malformed records is only appended to.
pub fn append_query(d: &[u8], query: &str) -> (r: QueryUpdate)
    ensures
        updates_history(history_of(d@), records_from(d@, 0).len(), query@, r),
{
    let (queries, lines) = load_queries(d);
    query_update(queries, lines, query)
}

/// Adds a query to a history that was read, with the number of its records.
pub fn query_update(queries: Vec<String>, lines: usize, query: &str) -> (r: QueryUpdate)
    ensures
        updates_history(texts(queries@), lines as nat, query@, r),
{
    let q = trimmed(&chars_of(query));
    let chars = chars_of(&q);
    if chars.len() == 0 || q.as_str().as_bytes().len() > MAX_HISTORY_LINE || has_break(&chars) {
        return QueryUpdate::Ignore;
    }
    let ghost old = texts(queries@);
    let count: usize = queries.len();
    let mut duplicate: bool = false;
    let mut i: usize = 0;
    while i < queries.len() && !duplicate
        invariant
            i <= queries@.len(),
            old == texts(queries@),
            duplicate ==> old.contains(q@),
            !duplicate ==> forall|k: int| 0 <= k < i ==> old[k] != q@,
        decreases queries@.len() - i,
    {
        assert(old[i as int] == queries@[i as int]@);
        if same(&queries[i], &q) {
            assert(old[i as int] == q@);
            duplicate = true;
        }
        i += 1;
    }
    if lines >= QUERY_LIMIT || lines != count || duplicate {
        QueryUpdate::Rewrite(remember(queries, &q))
    } else {
        QueryUpdate::Append(q)
    }
}

proof fn lemma_without(s: Seq<Seq<char>>, q: Seq<char>)
    ensures
        without(s, q).len() <= s.len(),
        !without(s, q).contains(q),
        s.no_duplicates() ==> without(s, q).no_duplicates(),
        forall|x: Seq<char>| #[trigger] without(s, q).contains(x) ==> s.contains(x),
        !s.contains(q) ==> without(s, q) == s,
    decreases s.len(),
{
    if s.len() > 0 {
        let t = s.drop_last();
        lemma_without(t, q);
        let before = without(t, q);
        assert forall|x: Seq<char>| #[trigger] without(s, q).contains(x) implies s.contains(x) by {
            let i = choose|i: int| 0 <= i < without(s, q).len() && without(s, q)[i] == x;
            if i < before.len() {
                assert(before[i] == x);
                assert(before.contains(x));
                let k = choose|k: int| 0 <= k < t.len() && t[k] == x;
                assert(s[k] == x);
            } else {
                assert(s[s.len() - 1] == x);
            }
        }
        assert(!without(s, q).contains(q)) by {
            if without(s, q).contains(q) {
                let i = choose|i: int| 0 <= i < without(s, q).len() && without(s, q)[i] == q;
                if i < before.len() {
                    assert(before.contains(q));
                }
            }
        }
        if s.no_duplicates() {
            assert(t.no_duplicates());
            assert forall|i: int, j: int|
                0 <= i < without(s, q).len() && 0 <= j < without(s, q).len() && i != j implies
                without(s, q)[i] != without(s, q)[j] by {
                if i < before.len() && j < before.len() {
                    assert(before[i] != before[j]);
                } else if i < before.len() {
                    assert(before.contains(before[i]));
                    assert(t.contains(before[i]));
                    let k = choose|k: int| 0 <= k < t.len() && t[k] == before[i];
                    assert(s[k] != s[s.len() - 1]);
                } else {
                    assert(before.contains(before[j]));
                    assert(t.contains(before[j]));
                    let k = choose|k: int| 0 <= k < t.len() && t[k] == before[j];
                    assert(s[k] != s[s.len() - 1]);
                }
            }
        }
        if !s.contains(q) {
            assert(s.last() == s[s.len() - 1]);
            assert(!t.contains(q)) by {
                if t.contains(q) {
                    let k = choose|k: int| 0 <= k < t.len() && t[k] == q;
                    assert(s[k] == q);
                }
            }
            assert(t.push(s.last()) =~= s);
        }
    } else {
        assert(without(s, q) =~= s);
    }
}

/// A remembered query is the last, and the history stays short and without
/// duplicates.
pub proof fn remembering_keeps_the_history_small(s: Seq<Seq<char>>, q: Seq<char>)
    requires
        s.len() <= QUERY_LIMIT,
        s.no_duplicates(),
    ensures
        0 < remembered(s, q).len() <= QUERY_LIMIT,
        remembered(s, q).no_duplicates(),
        remembered(s, q).last() == q,
{
    lemma_without(s, q);
    let t = without(s, q);
    let u = t.push(q);
    assert forall|i: int, j: int| 0 <= i < u.len() && 0 <= j < u.len() && i != j implies u[i]
        != u[j] by {
        if i < t.len() && j < t.len() {
            assert(t[i] != t[j]);
        } else if i < t.len() {
            assert(t.contains(t[i]));
        } else {
            assert(t.contains(t[j]));
        }
    }
}

/// Whatever a file holds, the history in it is short and without duplicates.
pub proof fn histories_are_bounded(records: Seq<Option<Seq<u8>>>, n: int)
    ensures
        history_upto(records, n).len() <= QUERY_LIMIT,
        history_upto(records, n).no_duplicates(),
    decreases n,
{
    if n > 0 {
        histories_are_bounded(records, n - 1);
        match record_query(records[n - 1]) {
            Some(q) => remembering_keeps_the_history_small(history_upto(records, n - 1), q),
            None => {},
        }
    }
}

/// The last of the first `n` records that holds a query, or -1.
pub open spec fn last_use(records: Seq<Option<Seq<u8>>>, n: int, q: Seq<char>) -> int
    decreases n,
{
    if n <= 0 {
        -1
    } else if record_query(records[n - 1]) == Some(q) {
        n - 1
    } else {
        last_use(records, n - 1, q)
    }
}

proof fn lemma_last_use(records: Seq<Option<Seq<u8>>>, n: int, q: Seq<char>)
    ensures
        n >= 0 ==> -1 <= last_use(records, n, q) < n,
    decreases n,
{
    if n > 0 {
        lemma_last_use(records, n - 1, q);
    }
}

/// Whether the queries stand in the order of their last uses.
pub open spec fn in_order_of_use(
    s: Seq<Seq<char>>,
    records: Seq<Option<Seq<u8>>>,
    n: int,
) -> bool {
    forall|i: int, j: int|
        0 <= i < j < s.len() ==> last_use(records, n, #[trigger] s[i]) < last_use(
            records,
            n,
            #[trigger] s[j],
        )
}

proof fn lemma_without_in_order(
    s: Seq<Seq<char>>,
    q: Seq<char>,
    records: Seq<Option<Seq<u8>>>,
    n: int,
)
    requires
        in_order_of_use(s, records, n),
    ensures
        in_order_of_use(without(s, q), records, n),
        s.contains(q) ==> without(s, q).len() == s.len() - 1,
        forall|x: Seq<char>| #[trigger] s.contains(x) && x != q ==> without(s, q).contains(x),
    decreases s.len(),
{
    if s.len() > 0 {
        let t = s.drop_last();
        let last = s.last();
        assert(last == s[s.len() - 1]);
        assert forall|i: int, j: int| 0 <= i < j < t.len() implies last_use(
            records,
            n,
            #[trigger] t[i],
        ) < last_use(records, n, #[trigger] t[j]) by {
            assert(t[i] == s[i] && t[j] == s[j]);
        }
        lemma_without_in_order(t, q, records, n);
        lemma_without(t, q);
        let before = without(t, q);
        let now = without(s, q);
        assert forall|i: int, j: int| 0 <= i < j < now.len() implies last_use(
            records,
            n,
            #[trigger] now[i],
        ) < last_use(records, n, #[trigger] now[j]) by {
            assert(now[i] == before[i]);
            if j < before.len() {
                assert(now[j] == before[j]);
            } else {
                assert(before.contains(before[i]));
                let k = choose|k: int| 0 <= k < t.len() && t[k] == before[i];
                assert(s[k] == before[i]);
            }
        }
        if s.contains(q) {
            if last == q {
                assert(!t.contains(q)) by {
                    if t.contains(q) {
                        let k = choose|k: int| 0 <= k < t.len() && t[k] == q;
                        assert(s[k] == q);
                    }
                }
            } else {
                let k = choose|k: int| 0 <= k < s.len() && s[k] == q;
                assert(t[k] == q);
            }
        }
        assert forall|x: Seq<char>| #[trigger] s.contains(x) && x != q implies now.contains(x) by {
            let k = choose|k: int| 0 <= k < s.len() && s[k] == x;
            if k < t.len() {
                assert(t[k] == x);
                assert(t.contains(x));
                let m = choose|m: int| 0 <= m < before.len() && before[m] == x;
                assert(now[m] == x);
            } else {
                assert(now.last() == x);
            }
        }
    }
}

/// What a history keeps of the first `n` records: queries that they hold, in the
/// order of their last uses. What it lacks, though they hold it, was used last
/// before all that it has, and then it is full.
pub open spec fn is_latest(s: Seq<Seq<char>>, records: Seq<Option<Seq<u8>>>, n: int) -> bool {
    &&& forall|i: int| 0 <= i < s.len() ==> last_use(records, n, #[trigger] s[i]) >= 0
    &&& in_order_of_use(s, records, n)
    &&& forall|q: Seq<char>, k: int|
        #![trigger last_use(records, n, q), s[k]]
        last_use(records, n, q) >= 0 && !s.contains(q) && 0 <= k < s.len() ==> last_use(
            records,
            n,
            q,
        ) < last_use(records, n, s[k])
    &&& forall|q: Seq<char>|
        #![trigger last_use(records, n, q)]
        last_use(records, n, q) >= 0 && !s.contains(q) ==> s.len() == QUERY_LIMIT
}

proof fn lemma_history_is_latest(records: Seq<Option<Seq<u8>>>, n: int)
    requires
        n >= 0,
    ensures
        is_latest(history_upto(records, n), records, n),
    decreases n,
{
    if n > 0 {
        lemma_history_is_latest(records, n - 1);
        histories_are_bounded(records, n - 1);
        let h = history_upto(records, n - 1);
        let now = history_upto(records, n);
        match record_query(records[n - 1]) {
            Some(new) => {
                lemma_without(h, new);
                lemma_without_in_order(h, new, records, n - 1);
                let kept = without(h, new);
                let all = kept.push(new);
                let cut: int = if all.len() > QUERY_LIMIT {
                    1
                } else {
                    0
                };
                assert forall|i: int| 0 <= i < kept.len() implies (#[trigger] kept[i]) != new
                    && h.contains(kept[i]) && last_use(records, n, kept[i]) == last_use(
                    records,
                    n - 1,
                    kept[i],
                ) && 0 <= last_use(records, n - 1, kept[i]) < n - 1 by {
                    assert(kept.contains(kept[i]));
                    let k = choose|k: int| 0 <= k < h.len() && h[k] == kept[i];
                    assert(last_use(records, n - 1, h[k]) >= 0);
                    lemma_last_use(records, n - 1, kept[i]);
                }
                assert(last_use(records, n, new) == n - 1);
                assert forall|i: int| 0 <= i < now.len() implies #[trigger] now[i] == all[i
                    + cut] by {}
                assert forall|i: int| 0 <= i < now.len() implies last_use(
                    records,
                    n,
                    #[trigger] now[i],
                ) >= 0 by {
                    let j = i + cut;
                    if j < kept.len() {
                        assert(now[i] == kept[j]);
                    }
                }
                assert forall|i: int, j: int| 0 <= i < j < now.len() implies last_use(
                    records,
                    n,
                    #[trigger] now[i],
                ) < last_use(records, n, #[trigger] now[j]) by {
                    let a = i + cut;
                    let b = j + cut;
                    assert(now[i] == kept[a]);
                    if b < kept.len() {
                        assert(now[j] == kept[b]);
                    }
                }
                assert forall|q: Seq<char>| #[trigger] last_use(records, n, q) >= 0
                    && !now.contains(q) implies now.len() == QUERY_LIMIT && forall|k: int|
                    0 <= k < now.len() ==> last_use(records, n, q) < last_use(
                        records,
                        n,
                        #[trigger] now[k],
                    ) by {
                    lemma_dropped_query(records, n, q, new);
                }
            },
            None => {
                assert forall|q: Seq<char>| #[trigger] last_use(records, n, q) == last_use(
                    records,
                    n - 1,
                    q,
                ) by {}
                assert(in_order_of_use(now, records, n));
                assert forall|q: Seq<char>, k: int|
                    #![trigger last_use(records, n, q), now[k]]
                    last_use(records, n, q) >= 0 && !now.contains(q) && 0 <= k
                        < now.len() implies last_use(records, n, q) < last_use(
                    records,
                    n,
                    now[k],
                ) by {
                    assert(last_use(records, n - 1, q) < last_use(records, n - 1, h[k]));
                }
                assert forall|q: Seq<char>|
                    #![trigger last_use(records, n, q)]
                    last_use(records, n, q) >= 0 && !now.contains(q) implies now.len()
                    == QUERY_LIMIT by {
                    assert(last_use(records, n - 1, q) >= 0);
                }
            },
        }
    }
}

proof fn lemma_dropped_query(
    records: Seq<Option<Seq<u8>>>,
    n: int,
    q: Seq<char>,
    new: Seq<char>,
)
    requires
        n > 0,
        record_query(records[n - 1]) == Some(new),
        is_latest(history_upto(records, n - 1), records, n - 1),
        last_use(records, n, q) >= 0,
        !history_upto(records, n).contains(q),
    ensures
        history_upto(records, n).len() == QUERY_LIMIT,
        forall|k: int|
            0 <= k < history_upto(records, n).len() ==> last_use(records, n, q) < last_use(
                records,
                n,
                #[trigger] history_upto(records, n)[k],
            ),
{
    let h = history_upto(records, n - 1);
    let now = history_upto(records, n);
    histories_are_bounded(records, n - 1);
    lemma_without(h, new);
    lemma_without_in_order(h, new, records, n - 1);
    lemma_last_use(records, n - 1, q);
    let kept = without(h, new);
    let all = kept.push(new);
    let cut: int = if all.len() > QUERY_LIMIT {
        1
    } else {
        0
    };
    assert(all.last() == new);
    assert(now[now.len() - 1] == new);
    assert(q != new);
    assert(last_use(records, n, q) == last_use(records, n - 1, q));
    if h.contains(q) {
        assert(kept.contains(q));
        let i = choose|i: int| 0 <= i < kept.len() && kept[i] == q;
        if i >= cut {
            assert(now[i - cut] == q);
        }
        assert(i == 0 && cut == 1);
    } else if h.contains(new) {
        assert(kept.len() == h.len() - 1);
    }
    assert forall|k: int| 0 <= k < now.len() implies last_use(records, n, q) < last_use(
        records,
        n,
        #[trigger] now[k],
    ) by {
        let j = k + cut;
        assert(now[k] == all[j]);
        if j < kept.len() {
            assert(kept.contains(kept[j]));
            assert(kept[j] != new);
            assert(last_use(records, n, kept[j]) == last_use(records, n - 1, kept[j]));
            if h.contains(q) {
                assert(last_use(records, n - 1, kept[0]) < last_use(records, n - 1, kept[j]));
            } else {
                let m = choose|m: int| 0 <= m < h.len() && h[m] == kept[j];
                assert(last_use(records, n - 1, q) < last_use(records, n - 1, h[m]));
            }
        }
    }
}

/// The history in a file keeps the queries that were used last, in the order of
/// their last uses.
pub proof fn histories_keep_the_latest_queries(d: Seq<u8>)
    ensures
        is_latest(history_of(d), records_from(d, 0), records_from(d, 0).len() as int),
        history_of(d).len() <= QUERY_LIMIT,
        history_of(d).no_duplicates(),
{
    let records = records_from(d, 0);
    lemma_history_is_latest(records, records.len() as int);
    histories_are_bounded(records, records.len() as int);
}

// --------------------------------------------------------------------- opens

/// How often a file was opened, and when last.
#[derive(Debug, Clone, Copy, PartialEq, Eq, Structural)]
pub struct Opened {
    pub count: u32,
    pub last: i64,
}

/// The first tab at or after `i`, or the length.
pub open spec fn tab_from(s: Seq<char>, i: int) -> int
    decreases s.len() - i,
{
    if i < 0 || i >= s.len() {
        s.len() as int
    } else if s[i] == '\t' {
        i
    } else {
        tab_from(s, i + 1)
    }
}

/// A text without the carriage returns at its end.
pub open spec fn without_returns(s: Seq<char>) -> Seq<char>
    decreases s.len(),
{
    if s.len() > 0 && s.last() == '\r' {
        without_returns(s.drop_last())
    } else {
        s
    }
}

/// A number with an optional sign, within the range of a 64-bit integer.
pub open spec fn signed_value(s: Seq<char>) -> Option<i64> {
    let negative = s.len() > 0 && s[0] == '-';
    let digits = if s.len() > 0 && (s[0] == '-' || s[0] == '+') {
        s.skip(1)
    } else {
        s
    };
    let value = if negative {
        -(decimal(digits) as int)
    } else {
        decimal(digits) as int
    };
    if digits.len() > 0 && all_digits(digits) && i64::MIN <= value <= i64::MAX {
        Some(value as i64)
    } else {
        None
    }
}

/// A number with an optional plus sign, within 32 bits.
pub open spec fn count_value(s: Seq<char>) -> Option<u32> {
    let digits = if s.len() > 0 && s[0] == '+' {
        s.skip(1)
    } else {
        s
    };
    if digits.len() > 0 && all_digits(digits) && decimal(digits) <= u32::MAX {
        Some(decimal(digits) as u32)
    } else {
        None
    }
}

/// What a line of the history says: a time, a count and a path, separated by
/// tabs.
pub open spec fn line_open(line: Seq<char>) -> Option<(i64, u32, Seq<char>)> {
    let a = tab_from(line, 0);
    let b = tab_from(line, a + 1);
    if a >= line.len() || b >= line.len() {
        None
    } else {
        match (signed_value(line.take(a)), count_value(line.subrange(a + 1, b))) {
            (Some(ts), Some(count)) => Some((ts, count, without_returns(line.skip(b + 1)))),
            _ => None,
        }
    }
}

pub open spec fn opened_before(m: Map<Seq<char>, Opened>, path: Seq<char>) -> Opened {
    if m.dom().contains(path) {
        m[path]
    } else {
        Opened { count: 0, last: 0 }
    }
}

/// The opens with some more of a file; the count stays within 32 bits.
pub open spec fn with_opens(
    m: Map<Seq<char>, Opened>,
    path: Seq<char>,
    count: u32,
    ts: i64,
) -> Map<Seq<char>, Opened> {
    let old = opened_before(m, path);
    m.insert(
        path,
        Opened {
            count: if old.count + count > u32::MAX {
                u32::MAX
            } else {
                (old.count + count) as u32
            },
            last: if ts > old.last {
                ts
            } else {
                old.last
            },
        },
    )
}

/// The opens after the first `n` records.
pub open spec fn opens_upto(records: Seq<Option<Seq<u8>>>, n: int) -> Map<Seq<char>, Opened>
    decreases n,
{
    if n <= 0 {
        Map::empty()
    } else {
        let before = opens_upto(records, n - 1);
        match record_text(records[n - 1]) {
            Some(line) => match line_open(line) {
                Some((ts, count, path)) => with_opens(before, path, count, ts),
                None => before,
            },
            None => before,
        }
    }
}

/// The opens that a file holds.
pub open spec fn opens_of(d: Seq<u8>) -> Map<Seq<char>, Opened> {
    opens_upto(records_from(d, 0), records_from(d, 0).len() as int)
}

/// Tracks which files get opened, to boost them in ranking. Backed by an
/// append-only file of `<unix_ts>\t<count>\t<path>` lines, compacted to one
/// line per path when it grows past [`COMPACT_THRESHOLD`] lines.
#[derive(Debug)]
pub struct Frecency {
    map: PathMap<Opened>,
}

impl View for Frecency {
    type V = Map<Seq<char>, Opened>;

    closed spec fn view(&self) -> Map<Seq<char>, Opened> {
        self.map@
    }
}

fn find_tab(s: &Vec<char>, i: usize) -> (r: usize)
    requires
        i <= s@.len(),
    ensures
        r == tab_from(s@, i as int),
        i <= r <= s@.len(),
{
    let mut k: usize = i;
    while k < s.len()
        invariant
            i <= k <= s@.len(),
            tab_from(s@, i as int) == tab_from(s@, k as int),
        decreases s@.len() - k,
    {
        if s[k] == '\t' {
            return k;
        }
        k += 1;
    }
    k
}

fn parse_signed(s: &[char]) -> (r: Option<i64>)
    ensures
        r == signed_value(s@),
{
    let negative = s.len() > 0 && s[0] == '-';
    let from: usize = if s.len() > 0 && (s[0] == '-' || s[0] == '+') {
        1
    } else {
        0
    };
    let digits = vstd::slice::slice_subrange(s, from, s.len());
    assert(digits@ =~= s@.skip(from as int));
    assert(s@.skip(0) =~= s@);
    match parse_digits(digits) {
        None => None,
        Some(n) => {
            if negative {
                if n < 0x8000_0000_0000_0000 {
                    Some(-(n as i64))
                } else if n == 0x8000_0000_0000_0000 {
                    Some(i64::MIN)
                } else {
                    None
                }
            } else if n < 0x8000_0000_0000_0000 {
                Some(n as i64)
            } else {
                None
            }
        },
    }
}

fn parse_count(s: &[char]) -> (r: Option<u32>)
    ensures
        r == count_value(s@),
{
    let from: usize = if s.len() > 0 && s[0] == '+' {
        1
    } else {
        0
    };
    let digits = vstd::slice::slice_subrange(s, from, s.len());
    assert(digits@ =~= s@.skip(from as int));
    assert(s@.skip(0) =~= s@);
    match parse_digits(digits) {
        None => None,
        Some(n) => {
            if n <= u32::MAX as u64 {
                Some(n as u32)
            } else {
                None
            }
        },
    }
}

proof fn lemma_without_returns(s: Seq<char>, n: int)
    requires
        0 <= n <= s.len(),
        forall|k: int| n <= k < s.len() ==> s[k] == '\r',
        n == 0 || s[n - 1] != '\r',
    ensures
        without_returns(s) == s.take(n),
    decreases s.len(),
{
    if n < s.len() {
        lemma_without_returns(s.drop_last(), n);
        assert(s.drop_last().take(n) =~= s.take(n));
    } else {
        assert(s.take(n) =~= s);
    }
}

/// Reads a line of the history.
pub fn parse_open(line: &str) -> (r: Option<(i64, u32, String)>)
    ensures
        match r {
            Some((ts, count, path)) => line_open(line@) == Some((ts, count, path@)),
            None => line_open(line@) is None,
        },
{
    let s = chars_of(line);
    let a: usize = find_tab(&s, 0);
    if a >= s.len() {
        return None;
    }
    let b: usize = find_tab(&s, a + 1);
    if b >= s.len() {
        return None;
    }
    let first = vstd::slice::slice_subrange(s.as_slice(), 0, a);
    let second = vstd::slice::slice_subrange(s.as_slice(), a + 1, b);
    assert(first@ =~= s@.take(a as int));
    match (parse_signed(first), parse_count(second)) {
        (Some(ts), Some(count)) => {
            let mut end: usize = s.len();
            while end > b + 1 && s[end - 1] == '\r'
                invariant
                    b + 1 <= end <= s@.len(),
                    forall|k: int| end <= k < s@.len() ==> s@[k] == '\r',
                decreases end,
            {
                end -= 1;
            }
            let path = string_of_range(&s, b + 1, end);
            proof {
                let rest = s@.skip(b + 1);
                lemma_without_returns(rest, end - (b + 1));
                assert(path@ =~= rest.take(end - (b + 1)));
            }
            Some((ts, count, path))
        },
        _ => None,
    }
}

/// Paths that can stand in a line of the history.
pub open spec fn is_recordable(path: Seq<char>) -> bool {
    encode_utf8(path).len() <= MAX_HISTORY_LINE && !path.contains('\n') && !path.contains('\r')
}

/// The line for some opens of a file.
pub open spec fn open_line(ts: i64, count: u32, path: Seq<char>) -> Seq<char> {
    signed_digits(ts as int) + seq!['\t'] + digits_of(count as nat) + seq!['\t'] + path
}

fn push_open_line(out: &mut String, ts: i64, count: u32, path: &str)
    ensures
        final(out)@ == old(out)@ + open_line(ts, count, path@),
{
    let ghost before = out@;
    push_signed(out, ts);
    out.push('\t');
    push_decimal(out, count as u64);
    out.push('\t');
    out.append(path);
    assert(out@ =~= before + open_line(ts, count, path@));
}

/// The lines for the first `n` files.
pub open spec fn open_lines(
    paths: Seq<Seq<char>>,
    m: Map<Seq<char>, Opened>,
    n: int,
) -> Seq<char>
    decreases n,
{
    if n <= 0 {
        Seq::empty()
    } else {
        let p = paths[n - 1];
        open_lines(paths, m, n - 1) + open_line(m[p].last, m[p].count, p) + seq!['\n']
    }
}

/// The paths are those that were opened, each once.
pub open spec fn lists_paths(paths: Seq<Seq<char>>, m: Map<Seq<char>, Opened>) -> bool {
    &&& paths.no_duplicates()
    &&& forall|p: Seq<char>| #[trigger] paths.contains(p) <==> m.dom().contains(p)
}

/// How much an opened file is boosted.
pub open spec fn boost_of(o: Opened, now: i64) -> u32 {
    let age = now - o.last;
    let recency = if age < 3600 {
        48int
    } else if age < 86_400 {
        40
    } else if age < 604_800 {
        28
    } else {
        16
    };
    (recency + (if o.count < 10 {
        o.count as int
    } else {
        10
    }) * 4) as u32
}

/// Reads the opens bit by bit, and how many records there are. Malformed records
/// count, but are skipped.
pub struct OpensLoader {
    reader: RecordReader,
    opens: Frecency,
    lines: usize,
}

impl OpensLoader {
    /// What was read so far.
    pub closed spec fn seen(&self) -> Seq<u8> {
        self.reader.seen()
    }

    pub closed spec fn wf(&self) -> bool {
        let records = terminated(self.seen());
        &&& self.reader.wf()
        &&& self.opens@ == opens_upto(records, records.len() as int)
        &&& self.lines == records.len()
    }

    pub fn new() -> (r: OpensLoader)
        ensures
            r.wf(),
            r.seen() == Seq::<u8>::empty(),
    {
        let r = OpensLoader { reader: RecordReader::new(), opens: Frecency::new(), lines: 0 };
        assert(r.seen().take(0) =~= Seq::empty());
        r
    }

    fn take(&mut self, r: Record, Ghost(records): Ghost<Seq<Option<Seq<u8>>>>)
        requires
            old(self).opens@ == opens_upto(records, records.len() as int),
            old(self).lines == records.len() < usize::MAX,
        ensures
            final(self).opens@ == opens_upto(records.push(r@), records.len() as int + 1),
            final(self).lines == records.len() + 1,
            final(self).reader == old(self).reader,
    {
        proof {
            lemma_opens_prefix(records.push(r@), records, records.len() as int);
        }
        if let Some(line) = r.text() {
            if let Some((ts, count, path)) = parse_open(line) {
                self.opens.add_opens(path, count, ts);
            }
        }
        self.lines += 1;
    }

    /// Reads on.
    pub fn feed(&mut self, d: &[u8])
        requires
            old(self).wf(),
            old(self).seen().len() + d@.len() <= usize::MAX,
        ensures
            final(self).wf(),
            final(self).seen() == old(self).seen() + d@,
    {
        let ghost start = self.seen();
        let mut i: usize = 0;
        assert(start + d@.take(0) =~= start);
        while i < d.len()
            invariant
                i <= d@.len(),
                self.wf(),
                self.seen() == start + d@.take(i as int),
                start.len() + d@.len() <= usize::MAX,
            decreases d@.len() - i,
        {
            let ghost records = terminated(self.seen());
            proof {
                lemma_terminated_count(self.seen());
            }
            if let Some(r) = self.reader.next(d[i]) {
                self.take(r, Ghost(records));
            }
            i += 1;
            assert(start + d@.take(i as int) =~= (start + d@.take(i - 1)).push(d@[i - 1]));
        }
        assert(d@.take(i as int) =~= d@);
    }

    /// The opens, and the number of records.
    pub fn finish(self) -> (r: (Frecency, usize))
        requires
            self.wf(),
            self.seen().len() <= usize::MAX,
        ensures
            r.0@ == opens_of(self.seen()),
            r.1 == records_from(self.seen(), 0).len(),
    {
        let ghost records = terminated(self.seen());
        proof {
            lemma_open_record(self.seen());
            lemma_record_count(self.seen(), 0);
        }
        let mut loader = OpensLoader {
            reader: RecordReader::new(),
            opens: self.opens,
            lines: self.lines,
        };
        if let Some(r) = self.reader.finish() {
            loader.take(r, Ghost(records));
        }
        (loader.opens, loader.lines)
    }
}

impl Frecency {
    pub fn new() -> (r: Frecency)
        ensures
            r@ == Map::<Seq<char>, Opened>::empty(),
    {
        Frecency { map: PathMap::new() }
    }

    fn add_opens(&mut self, path: String, count: u32, ts: i64)
        ensures
            final(self)@ == with_opens(old(self)@, path@, count, ts),
    {
        let old_entry = match self.map.get(&path) {
            Some(o) => *o,
            None => Opened { count: 0, last: 0 },
        };
        let total: u32 = if count > u32::MAX - old_entry.count {
            u32::MAX
        } else {
            old_entry.count + count
        };
        let last: i64 = if ts > old_entry.last {
            ts
        } else {
            old_entry.last
        };
        self.map.insert(path, Opened { count: total, last });
    }

    /// Reads the history and how many records it has; see [`OpensLoader`].
    pub fn load(d: &[u8]) -> (r: (Frecency, usize))
        ensures
            r.0@ == opens_of(d@),
            r.1 == records_from(d@, 0).len(),
    {
        let mut loader = OpensLoader::new();
        assert(d@.len() == d.len());
        loader.feed(d);
        assert(loader.seen() =~= d@);
        loader.finish()
    }

    /// Records an open. Returns the line to append to the history, unless the
    /// path cannot stand in one.
    pub fn record_at(&mut self, path: &str, ts: i64) -> (r: Option<String>)
        ensures
            final(self)@ == with_opens(old(self)@, path@, 1, ts),
            match r {
                Some(line) => is_recordable(path@) && line@ == open_line(ts, 1, path@),
                None => !is_recordable(path@),
            },
    {
        self.add_opens(path.to_owned(), 1, ts);
        let chars = chars_of(path);
        if path.as_bytes().len() > MAX_HISTORY_LINE || has_break(&chars) {
            return None;
        }
        let mut line = "".to_owned();
        proof {
            reveal_strlit("");
        }
        push_open_line(&mut line, ts, 1, path);
        assert(line@ =~= open_line(ts, 1, path@));
        Some(line)
    }

    /// Ranking bonus per opened path: a recency bucket plus a capped
    /// open-count bonus. Sized to break fuzzy-score ties and to float
    /// opened files up in recency-ordered lists, not to drown out match
    /// quality.
    pub fn boosts(&self, now: i64) -> (r: PathMap<u32>)
        ensures
            r@.dom() == self@.dom(),
            forall|p: Seq<char>| #[trigger] r@.dom().contains(p) ==> r@[p] == boost_of(self@[p], now),
    {
        let keys = self.map.keys();
        let mut out: PathMap<u32> = PathMap::new();
        let mut i: usize = 0;
        while i < keys.len()
            invariant
                i <= keys@.len(),
                forall|k: Seq<char>|
                    #[trigger] self@.dom().contains(k) <==> exists|i: int|
                        0 <= i < keys@.len() && #[trigger] keys@[i]@ == k,
                forall|p: Seq<char>|
                    #[trigger] out@.dom().contains(p) <==> exists|k: int|
                        0 <= k < i && #[trigger] keys@[k]@ == p,
                forall|p: Seq<char>|
                    #[trigger] out@.dom().contains(p) ==> out@[p] == boost_of(self@[p], now),
            decreases keys@.len() - i,
        {
            let ghost before = out@;
            let ghost key = keys@[i as int]@;
            match self.map.get(&keys[i]) {
                Some(o) => {
                    out.insert(keys[i].as_str().to_owned(), boost(o, now));
                    proof {
                        assert(out@ == before.insert(key, boost_of(self@[key], now)));
                        assert forall|p: Seq<char>| #[trigger] out@.dom().contains(p)
                            <==> exists|k: int| 0 <= k < i + 1 && #[trigger] keys@[k]@ == p by {
                            if before.dom().contains(p) {
                                let k = choose|k: int| 0 <= k < i && #[trigger] keys@[k]@ == p;
                                assert(keys@[k]@ == p && 0 <= k < i + 1);
                            }
                            if p == key {
                                assert(keys@[i as int]@ == p);
                            }
                            if exists|k: int| 0 <= k < i + 1 && #[trigger] keys@[k]@ == p {
                                let k = choose|k: int| 0 <= k < i + 1 && #[trigger] keys@[k]@ == p;
                                if k < i {
                                    assert(keys@[k]@ == p && 0 <= k < i);
                                    assert(before.dom().contains(p));
                                }
                            }
                        }
                    }
                },
                None => {
                    assert(self@.dom().contains(key));
                },
            }
            i += 1;
        }
        assert(out@.dom() =~= self@.dom());
        out
    }

    /// The history file with one line per path.
    pub fn compacted(&self) -> (r: String)
        ensures
            exists|paths: Seq<Seq<char>>|
                #[trigger] lists_paths(paths, self@) && r@ == open_lines(
                    paths,
                    self@,
                    paths.len() as int,
                ),
    {
        let keys = self.map.keys();
        let ghost paths = texts(keys@);
        let mut out = "".to_owned();
        proof {
            reveal_strlit("");
            assert(out@ =~= open_lines(paths, self@, 0));
        }
        let mut i: usize = 0;
        while i < keys.len()
            invariant
                i <= keys@.len(),
                paths == texts(keys@),
                forall|k: Seq<char>|
                    #[trigger] self@.dom().contains(k) <==> exists|i: int|
                        0 <= i < keys@.len() && #[trigger] keys@[i]@ == k,
                out@ == open_lines(paths, self@, i as int),
            decreases keys@.len() - i,
        {
            assert(paths[i as int] == keys@[i as int]@);
            let ghost before = out@;
            match self.map.get(&keys[i]) {
                Some(o) => {
                    push_open_line(&mut out, o.last, o.count, &keys[i]);
                    out.push('\n');
                },
                None => {
                    assert(self@.dom().contains(keys@[i as int]@));
                },
            }
            i += 1;
            assert(out@ =~= open_lines(paths, self@, i as int));
        }
        proof {
            assert forall|p: Seq<char>| #[trigger] paths.contains(p) <==> self@.dom().contains(p) by {
                if paths.contains(p) {
                    let k = choose|k: int| 0 <= k < paths.len() && paths[k] == p;
                    assert(keys@[k]@ == p);
                }
                if self@.dom().contains(p) {
                    let k = choose|k: int| 0 <= k < keys@.len() && #[trigger] keys@[k]@ == p;
                    assert(paths[k] == p);
                }
            }
            assert forall|i: int, j: int|
                0 <= i < paths.len() && 0 <= j < paths.len() && i != j implies paths[i] != paths[j]
            by {
                crate::text::lemma_text_lt_irreflexive(paths[i]);
                if i < j {
                    assert(crate::text::text_lt(keys@[i]@, keys@[j]@));
                } else {
                    assert(crate::text::text_lt(keys@[j]@, keys@[i]@));
                }
            }
            assert(lists_paths(paths, self@));
        }
        out
    }
}

fn boost(o: &Opened, now: i64) -> (r: u32)
    ensures
        r == boost_of(*o, now),
{
    let age: i128 = now as i128 - o.last as i128;
    let recency: u32 = if age < 3600 {
        48
    } else if age < 86_400 {
        40
    } else if age < 604_800 {
        28
    } else {
        16
    };
    let count: u32 = if o.count < 10 {
        o.count
    } else {
        10
    };
    recency + count * 4
}

/// The more recent of two files that were opened equally often is boosted no
/// less, and so is the one that was opened more often at the same time.
pub proof fn boosts_follow_use(a: Opened, b: Opened, now: i64)
    requires
        a.last >= b.last,
        a.count >= b.count,
    ensures
        boost_of(a, now) >= boost_of(b, now),
        16 <= boost_of(b, now) <= 88,
{
}

/// What a file gets for its opens: four for each of the first ten. Within an
/// hour it gets eight more than within a day, then twelve more than within a
/// week, then twelve more than later.
pub proof fn boosts_are_paid_by_use(
    count: u32,
    more: u32,
    hour: i64,
    day: i64,
    week: i64,
    old: i64,
    now: i64,
)
    requires
        count <= more,
        now - hour < 60 * 60,
        60 * 60 <= now - day < 24 * 60 * 60,
        24 * 60 * 60 <= now - week < 7 * 24 * 60 * 60,
        7 * 24 * 60 * 60 <= now - old,
    ensures
        ({
            let boost = |count: u32, last: i64| boost_of(Opened { count, last }, now) as int;
            &&& more <= 10 ==> boost(more, old) == boost(count, old) + 4 * (more - count)
            &&& count >= 10 ==> boost(more, old) == boost(count, old)
            &&& boost(count, week) == boost(count, old) + 12
            &&& boost(count, day) == boost(count, week) + 12
            &&& boost(count, hour) == boost(count, day) + 8
        }),
{
}

/// Record `k` speaks of opens of a file.
pub open spec fn is_open_of(records: Seq<Option<Seq<u8>>>, k: int, path: Seq<char>) -> bool {
    record_text(records[k]) matches Some(line) && line_open(line) matches Some(o) && o.2 == path
}

/// The time that a record gives.
pub open spec fn open_time(records: Seq<Option<Seq<u8>>>, k: int) -> i64 {
    let (ts, count, path) = line_open(record_text(records[k]).unwrap()).unwrap();
    ts
}

/// How many opens a record gives.
pub open spec fn open_count(records: Seq<Option<Seq<u8>>>, k: int) -> u32 {
    let (ts, count, path) = line_open(record_text(records[k]).unwrap()).unwrap();
    count
}

/// How often the first `n` records say that a file was opened, all in all.
pub open spec fn times_opened(records: Seq<Option<Seq<u8>>>, n: int, path: Seq<char>) -> int
    decreases n,
{
    if n <= 0 {
        0
    } else if is_open_of(records, n - 1, path) {
        times_opened(records, n - 1, path) + open_count(records, n - 1)
    } else {
        times_opened(records, n - 1, path)
    }
}

/// A file was opened as often as the records say together, up to the largest
/// count, and last at the latest time that one of them gives. A file that none
/// speaks of was not opened.
pub proof fn opens_add_up(records: Seq<Option<Seq<u8>>>, n: int, path: Seq<char>)
    requires
        0 <= n <= records.len(),
    ensures
        ({
            let m = opens_upto(records, n);
            &&& m.dom().contains(path) <==> exists|k: int|
                0 <= k < n && #[trigger] is_open_of(records, k, path)
            &&& m.dom().contains(path) ==> {
                let o = m[path];
                &&& o.count == if times_opened(records, n, path) < u32::MAX {
                    times_opened(records, n, path)
                } else {
                    u32::MAX as int
                }
                &&& forall|k: int|
                    0 <= k < n && #[trigger] is_open_of(records, k, path) ==> open_time(records, k)
                        <= o.last
                &&& o.last == 0 || exists|k: int|
                    0 <= k < n && #[trigger] is_open_of(records, k, path) && open_time(records, k)
                        == o.last
            }
            &&& !m.dom().contains(path) ==> times_opened(records, n, path) == 0
        }),
    decreases n,
{
    if n > 0 {
        opens_add_up(records, n - 1, path);
        let before = opens_upto(records, n - 1);
        let m = opens_upto(records, n);
        if is_open_of(records, n - 1, path) {
            assert(m.dom().contains(path));
            if before.dom().contains(path) && m[path].last == before[path].last && m[path].last
                != 0 {
                let k = choose|k: int|
                    0 <= k < n - 1 && #[trigger] is_open_of(records, k, path) && open_time(
                        records,
                        k,
                    ) == before[path].last;
                assert(is_open_of(records, k, path) && open_time(records, k) == m[path].last);
            }
        } else {
            assert(m.dom().contains(path) == before.dom().contains(path));
            if before.dom().contains(path) {
                assert(m[path] == before[path]);
                let k = choose|k: int| 0 <= k < n - 1 && #[trigger] is_open_of(records, k, path);
                assert(is_open_of(records, k, path));
            }
        }
    }
}

// ---------------------------------------------------------------- compaction

proof fn lemma_break_in_prefix(a: Seq<u8>, t: Seq<u8>, i: int)
    requires
        0 <= i < a.len(),
        a.last() == 10,
    ensures
        line_break(a + t, i) == line_break(a, i),
        line_break(a, i) < a.len(),
    decreases a.len() - i,
{
    if a[i] != 10 {
        assert(i < a.len() - 1);
        lemma_break_in_prefix(a, t, i + 1);
    }
}

proof fn lemma_records_split(a: Seq<u8>, t: Seq<u8>, i: int)
    requires
        0 <= i <= a.len(),
        i < a.len() ==> a.last() == 10,
    ensures
        records_from(a + t, i) == records_from(a, i) + records_from(a + t, a.len() as int),
    decreases a.len() - i,
{
    if i < a.len() {
        lemma_break_in_prefix(a, t, i);
        lemma_line_break(a, i);
        let end = line_break(a, i);
        lemma_records_split(a, t, end + 1);
        assert((a + t).subrange(i, end) =~= a.subrange(i, end));
        assert(records_from(a + t, i) =~= records_from(a, i) + records_from(
            a + t,
            a.len() as int,
        ));
    } else {
        assert(records_from(a, i) + records_from(a + t, i) =~= records_from(a + t, i));
    }
}

/// A terminated line at the end is one more record.
proof fn lemma_last_record(a: Seq<u8>, line: Seq<u8>)
    requires
        a.len() > 0 ==> a.last() == 10,
        forall|i: int| 0 <= i < line.len() ==> line[i] != 10,
    ensures
        records_from(a + line + seq![10u8], 0) == records_from(a, 0).push(record(line)),
{
    let t = line + seq![10u8];
    let d = a + t;
    assert(a + line + seq![10u8] =~= d);
    lemma_records_split(a, t, 0);
    let n = a.len() as int;
    lemma_break_at(d, n, n + line.len());
    assert(d.subrange(n, n + line.len()) =~= line);
    assert(records_from(d, d.len() as int) =~= Seq::empty());
    assert(records_from(d, n) =~= seq![record(line)]);
    assert(records_from(a, 0) + seq![record(line)] =~= records_from(a, 0).push(record(line)));
}

proof fn lemma_break_at(d: Seq<u8>, i: int, end: int)
    requires
        0 <= i <= end < d.len(),
        d[end] == 10,
        forall|k: int| i <= k < end ==> d[k] != 10,
    ensures
        line_break(d, i) == end,
    decreases end - i,
{
    if i < end {
        lemma_break_at(d, i + 1, end);
    }
}

proof fn lemma_tab_at(s: Seq<char>, i: int, end: int)
    requires
        0 <= i <= end < s.len(),
        s[end] == '\t',
        forall|k: int| i <= k < end ==> s[k] != '\t',
    ensures
        tab_from(s, i) == end,
    decreases end - i,
{
    if i < end {
        lemma_tab_at(s, i + 1, end);
    }
}

/// A line of the history is read as it was written.
pub proof fn lines_are_read_back(ts: i64, count: u32, path: Seq<char>)
    requires
        path.len() == 0 || path.last() != '\r',
    ensures
        line_open(open_line(ts, count, path)) == Some((ts, count, path)),
{
    let first = signed_digits(ts as int);
    let second = digits_of(count as nat);
    let line = open_line(ts, count, path);
    let magnitude = (if ts < 0 {
        -(ts as int)
    } else {
        ts as int
    }) as nat;
    lemma_digits_of(magnitude);
    lemma_digits_of(count as nat);
    let a = first.len() as int;
    let b = a + 1 + second.len();
    assert(line.take(a) =~= first);
    assert(line.subrange(a + 1, b) =~= second);
    assert(line.skip(b + 1) =~= path);
    assert(line[a] == '\t');
    assert(line[b] == '\t');
    assert forall|k: int| 0 <= k < a implies line[k] != '\t' by {
        assert(line[k] == first[k]);
        let digits = digits_of(magnitude);
        if ts < 0 {
            if k > 0 {
                assert(first[k] == digits[k - 1]);
                assert(is_digit(digits[k - 1]));
            }
        } else {
            assert(is_digit(digits[k]));
        }
    }
    assert forall|k: int| a + 1 <= k < b implies line[k] != '\t' by {
        assert(line[k] == second[k - a - 1]);
        assert(is_digit(second[k - a - 1]));
    }
    lemma_tab_at(line, 0, a);
    lemma_tab_at(line, a + 1, b);
    assert(signed_value(first) == Some(ts)) by {
        let digits = digits_of(magnitude);
        assert(is_digit(digits[0]));
        if ts < 0 {
            assert(first.skip(1) =~= digits);
        } else {
            assert(first == digits);
        }
    }
    assert(count_value(second) == Some(count)) by {
        assert(is_digit(second[0]));
    }
    assert(without_returns(path) == path);
}

proof fn lemma_opens_prefix(a: Seq<Option<Seq<u8>>>, b: Seq<Option<Seq<u8>>>, n: int)
    requires
        0 <= n <= a.len(),
        n <= b.len(),
        forall|i: int| 0 <= i < n ==> a[i] == b[i],
    ensures
        opens_upto(a, n) == opens_upto(b, n),
    decreases n,
{
    if n > 0 {
        lemma_opens_prefix(a, b, n - 1);
    }
}

/// The first `n` of the files.
pub open spec fn first_opens(
    paths: Seq<Seq<char>>,
    m: Map<Seq<char>, Opened>,
    n: int,
) -> Map<Seq<char>, Opened> {
    Map::new(|p: Seq<char>| paths.take(n).contains(p), |p: Seq<char>| m[p])
}

/// The lines of the history can hold the file.
pub open spec fn fits_line(p: Seq<char>, o: Opened) -> bool {
    &&& !p.contains('\n')
    &&& p.len() == 0 || p.last() != '\r'
    &&& o.last >= 0
    &&& encode_utf8(open_line(o.last, o.count, p)).len() <= MAX_HISTORY_LINE
}

proof fn lemma_line_has_no_break(ts: i64, count: u32, path: Seq<char>)
    requires
        !path.contains('\n'),
    ensures
        !open_line(ts, count, path).contains('\n'),
{
    let first = signed_digits(ts as int);
    let second = digits_of(count as nat);
    let line = open_line(ts, count, path);
    let magnitude = (if ts < 0 {
        -(ts as int)
    } else {
        ts as int
    }) as nat;
    lemma_digits_of(magnitude);
    lemma_digits_of(count as nat);
    let digits = digits_of(magnitude);
    if line.contains('\n') {
        let k = choose|k: int| 0 <= k < line.len() && line[k] == '\n';
        let a = first.len() as int;
        let b = a + 1 + second.len();
        if k < a {
            assert(line[k] == first[k]);
            if ts < 0 {
                if k > 0 {
                    assert(first[k] == digits[k - 1]);
                    assert(is_digit(digits[k - 1]));
                }
            } else {
                assert(is_digit(digits[k]));
            }
        } else if k == a || k == b {
        } else if k < b {
            assert(line[k] == second[k - a - 1]);
            assert(is_digit(second[k - a - 1]));
        } else {
            assert(line[k] == path[k - b - 1]);
            assert(path.contains('\n'));
        }
    }
}

proof fn lemma_one_more_path(paths: Seq<Seq<char>>, m: Map<Seq<char>, Opened>, n: int)
    requires
        lists_paths(paths, m),
        0 < n <= paths.len(),
    ensures
        !first_opens(paths, m, n - 1).dom().contains(paths[n - 1]),
        first_opens(paths, m, n) == first_opens(paths, m, n - 1).insert(
            paths[n - 1],
            m[paths[n - 1]],
        ),
{
    let p = paths[n - 1];
    let (fewer, more) = (paths.take(n - 1), paths.take(n));
    assert(!fewer.contains(p)) by {
        if fewer.contains(p) {
            let k = choose|k: int| 0 <= k < n - 1 && fewer[k] == p;
            assert(paths[k] == paths[n - 1]);
        }
    }
    assert forall|q: Seq<char>| #[trigger] more.contains(q) == (q == p || fewer.contains(q)) by {
        if more.contains(q) {
            let k = choose|k: int| 0 <= k < n && more[k] == q;
            if k < n - 1 {
                assert(fewer[k] == q);
            }
        }
        if fewer.contains(q) {
            let k = choose|k: int| 0 <= k < n - 1 && fewer[k] == q;
            assert(more[k] == q);
        }
        assert(more[n - 1] == p);
    }
    assert(first_opens(paths, m, n) =~= first_opens(paths, m, n - 1).insert(p, m[p]));
}

proof fn lemma_compaction(paths: Seq<Seq<char>>, m: Map<Seq<char>, Opened>, n: int)
    requires
        lists_paths(paths, m),
        0 <= n <= paths.len(),
        forall|p: Seq<char>| #[trigger] m.dom().contains(p) ==> fits_line(p, m[p]),
    ensures
        ({
            let d = encode_utf8(open_lines(paths, m, n));
            &&& records_from(d, 0).len() == n
            &&& opens_of(d) == first_opens(paths, m, n)
            &&& d.len() > 0 ==> d.last() == 10
        }),
    decreases n,
{
    let d = encode_utf8(open_lines(paths, m, n));
    if n == 0 {
        assert(d =~= Seq::empty());
        assert(records_from(d, 0) =~= Seq::empty());
        assert(first_opens(paths, m, 0) =~= Map::empty());
    } else {
        lemma_compaction(paths, m, n - 1);
        let before = open_lines(paths, m, n - 1);
        let a = encode_utf8(before);
        let p = paths[n - 1];
        assert(paths.contains(p));
        let o = m[p];
        let line = open_line(o.last, o.count, p);
        let bytes = encode_utf8(line);
        lemma_encode_concat(before + line, seq!['\n']);
        lemma_encode_concat(before, line);
        lemma_newline_encoded();
        assert(d =~= a + bytes + seq![10u8]);
        lemma_line_has_no_break(o.last, o.count, p);
        assert forall|i: int| 0 <= i < bytes.len() implies bytes[i] != 10 by {
            crate::codec::lemma_newline_bytes(line, i);
        }
        lemma_last_record(a, bytes);
        let all = records_from(d, 0);
        let old = records_from(a, 0);
        assert(all =~= old.push(record(bytes)));
        lemma_opens_prefix(all, old, n - 1);
        encode_utf8_valid_utf8(line);
        encode_utf8_decode_utf8(line);
        lines_are_read_back(o.last, o.count, p);
        assert(record_text(all[n - 1]) == Some(line));
        let m0 = first_opens(paths, m, n - 1);
        lemma_one_more_path(paths, m, n);
        assert(opens_of(d) == with_opens(m0, p, o.count, o.last));
        assert(with_opens(m0, p, o.count, o.last) == m0.insert(p, o));
    }
}

/// A compacted history has one line per file and holds the same opens.
pub proof fn compaction_loses_nothing(paths: Seq<Seq<char>>, m: Map<Seq<char>, Opened>)
    requires
        lists_paths(paths, m),
        forall|p: Seq<char>| #[trigger] m.dom().contains(p) ==> fits_line(p, m[p]),
    ensures
        ({
            let d = encode_utf8(open_lines(paths, m, paths.len() as int));
            &&& opens_of(d) == m
            &&& records_from(d, 0).len() == paths.len()
        }),
{
    let n = paths.len() as int;
    lemma_compaction(paths, m, n);
    assert(paths.take(n) =~= paths);
    assert(first_opens(paths, m, n) =~= m);
}

/// The file of the first `n` queries, one to a line.
pub open spec fn query_lines(queries: Seq<Seq<char>>, n: int) -> Seq<char>
    decreases n,
{
    if n <= 0 {
        Seq::empty()
    } else {
        query_lines(queries, n - 1) + queries[n - 1] + seq!['\n']
    }
}

/// The history file for some queries.
pub fn query_file(queries: &Vec<String>) -> (r: String)
    ensures
        r@ == query_lines(texts(queries@), queries@.len() as int),
{
    let ghost all = texts(queries@);
    let mut out = "".to_owned();
    proof {
        reveal_strlit("");
        assert(out@ =~= query_lines(all, 0));
    }
    let mut i: usize = 0;
    while i < queries.len()
        invariant
            i <= queries@.len(),
            all == texts(queries@),
            out@ == query_lines(all, i as int),
        decreases queries@.len() - i,
    {
        assert(all[i as int] == queries@[i as int]@);
        out.append(&queries[i]);
        out.push('\n');
        i += 1;
        assert(out@ =~= query_lines(all, i as int));
    }
    out
}

proof fn lemma_history_prefix(a: Seq<Option<Seq<u8>>>, b: Seq<Option<Seq<u8>>>, n: int)
    requires
        0 <= n <= a.len(),
        n <= b.len(),
        forall|i: int| 0 <= i < n ==> a[i] == b[i],
    ensures
        history_upto(a, n) == history_upto(b, n),
    decreases n,
{
    if n > 0 {
        lemma_history_prefix(a, b, n - 1);
    }
}

/// A query that a record can hold: trimmed, not empty, on one line, and not too
/// long.
pub open spec fn fits_record(q: Seq<char>) -> bool {
    &&& q.len() > 0
    &&& trim(q) == q
    &&& !q.contains('\n')
    &&& encode_utf8(q).len() <= MAX_HISTORY_LINE
}

/// A query that can be remembered fits a record.
proof fn lemma_kept_fits(query: Seq<char>)
    requires
        kept_query(query) is Some,
    ensures
        fits_record(kept_query(query)->0),
{
    lemma_trim(query);
}

/// A record at the end of a file that ends in a newline adds its query to the
/// history.
proof fn lemma_appended(d: Seq<u8>, q: Seq<char>)
    requires
        d.len() > 0 ==> d.last() == 10,
        fits_record(q),
    ensures
        ({
            let e = d + encode_utf8(q) + seq![10u8];
            &&& records_from(e, 0).len() == records_from(d, 0).len() + 1
            &&& history_of(e) == remembered(history_of(d), q)
        }),
{
    let bytes = encode_utf8(q);
    let e = d + bytes + seq![10u8];
    assert forall|i: int| 0 <= i < bytes.len() implies bytes[i] != 10 by {
        crate::codec::lemma_newline_bytes(q, i);
    }
    lemma_last_record(d, bytes);
    let all = records_from(e, 0);
    let old = records_from(d, 0);
    let n = old.len() as int;
    lemma_history_prefix(all, old, n);
    encode_utf8_valid_utf8(q);
    encode_utf8_decode_utf8(q);
    assert(record_query(all[n]) == Some(q));
}

proof fn lemma_newline_encoded()
    ensures
        encode_utf8(seq!['\n']) == seq![10u8],
{
    let newline = seq!['\n'];
    assert(newline.drop_first() =~= Seq::empty());
    assert(encode_utf8(newline) =~= encode_scalar('\n' as u32) + encode_utf8(newline.drop_first()));
    assert((10u32 & 0x7F) as u8 == 10) by (bit_vector);
    assert(encode_utf8(newline) =~= seq![10u8]);
}

proof fn lemma_query_file(queries: Seq<Seq<char>>, n: int)
    requires
        0 <= n <= queries.len() <= QUERY_LIMIT,
        queries.no_duplicates(),
        forall|i: int| 0 <= i < queries.len() ==> fits_record(#[trigger] queries[i]),
    ensures
        ({
            let d = encode_utf8(query_lines(queries, n));
            &&& records_from(d, 0).len() == n
            &&& history_of(d) == queries.take(n)
            &&& d.len() > 0 ==> d.last() == 10
        }),
    decreases n,
{
    let d = encode_utf8(query_lines(queries, n));
    if n == 0 {
        assert(d =~= Seq::empty());
        assert(records_from(d, 0) =~= Seq::empty());
        assert(queries.take(0) =~= Seq::empty());
    } else {
        lemma_query_file(queries, n - 1);
        let before = query_lines(queries, n - 1);
        let q = queries[n - 1];
        assert(fits_record(q));
        lemma_encode_concat(before + q, seq!['\n']);
        lemma_encode_concat(before, q);
        lemma_newline_encoded();
        lemma_appended(encode_utf8(before), q);
        let fewer = queries.take(n - 1);
        assert(!fewer.contains(q)) by {
            if fewer.contains(q) {
                let k = choose|k: int| 0 <= k < fewer.len() && fewer[k] == q;
                assert(queries[k] == queries[n - 1]);
            }
        }
        lemma_without(fewer, q);
        assert(fewer.push(q) =~= queries.take(n));
    }
}

/// A history that was written is read back.
pub proof fn histories_are_read_back(queries: Seq<Seq<char>>)
    requires
        queries.len() <= QUERY_LIMIT,
        queries.no_duplicates(),
        forall|i: int| 0 <= i < queries.len() ==> fits_record(#[trigger] queries[i]),
    ensures
        ({
            let d = encode_utf8(query_lines(queries, queries.len() as int));
            &&& history_of(d) == queries
            &&& records_from(d, 0).len() == queries.len()
        }),
{
    lemma_query_file(queries, queries.len() as int);
    assert(queries.take(queries.len() as int) =~= queries);
}

/// A record of a file holds no newline.
proof fn lemma_records_plain(d: Seq<u8>, i: int, k: int)
    requires
        0 <= i <= d.len(),
        0 <= k < records_from(d, i).len(),
    ensures
        records_from(d, i)[k] matches Some(line) ==> {
            &&& line.len() <= MAX_HISTORY_LINE
            &&& forall|j: int| 0 <= j < line.len() ==> line[j] != 10
        },
    decreases d.len() - i,
{
    lemma_line_break(d, i);
    let end = line_break(d, i);
    if k > 0 {
        assert(records_from(d, i)[k] == records_from(d, end + 1)[k - 1]);
        lemma_records_plain(d, end + 1, k - 1);
    }
}

/// What a record holds fits a record.
proof fn lemma_record_fits(line: Seq<u8>)
    requires
        line.len() <= MAX_HISTORY_LINE,
        forall|j: int| 0 <= j < line.len() ==> line[j] != 10,
        record_query(Some(line)) is Some,
    ensures
        fits_record(record_query(Some(line))->0),
{
    let s = decode_utf8(line);
    decode_utf8_encode_utf8(line);
    let (a, b) = lemma_trim(s);
    let q = trim(s);
    let (before, after) = (s.take(a), s.skip(b));
    assert(s =~= before + q + after);
    lemma_encode_concat(before + q, after);
    lemma_encode_concat(before, q);
    if q.contains('\n') {
        let i = choose|i: int| 0 <= i < q.len() && q[i] == '\n';
        let (x, y) = (s.take(a + i), s.skip(a + i + 1));
        assert(s =~= x + seq!['\n'] + y);
        lemma_encode_concat(x + seq!['\n'], y);
        lemma_encode_concat(x, seq!['\n']);
        lemma_newline_encoded();
        assert(line[encode_utf8(x).len() as int] == 10);
    }
}

proof fn lemma_history_fits(d: Seq<u8>, n: int)
    requires
        0 <= n <= records_from(d, 0).len(),
    ensures
        forall|x: Seq<char>| #[trigger]
            history_upto(records_from(d, 0), n).contains(x) ==> fits_record(x),
    decreases n,
{
    let all = records_from(d, 0);
    if n > 0 {
        lemma_history_fits(d, n - 1);
        lemma_records_plain(d, 0, n - 1);
        let before = history_upto(all, n - 1);
        if let Some(q) = record_query(all[n - 1]) {
            lemma_record_fits(all[n - 1]->0);
            lemma_remembered_members(before, q);
            assert(history_upto(all, n) == remembered(before, q));
            assert forall|x: Seq<char>| #[trigger] history_upto(all, n).contains(x) implies fits_record(
                x,
            ) by {
                assert(x == q || before.contains(x));
            }
        } else {
            assert(history_upto(all, n) == before);
        }
    }
}

proof fn lemma_remembered_members(s: Seq<Seq<char>>, q: Seq<char>)
    ensures
        forall|x: Seq<char>| #[trigger] remembered(s, q).contains(x) ==> x == q || s.contains(x),
{
    lemma_without(s, q);
    let t = without(s, q).push(q);
    assert forall|x: Seq<char>| #[trigger] remembered(s, q).contains(x) implies x == q
        || s.contains(x) by {
        let r = remembered(s, q);
        let i = choose|i: int| 0 <= i < r.len() && r[i] == x;
        let j = if t.len() > QUERY_LIMIT {
            i + 1
        } else {
            i
        };
        assert(t[j] == x);
        if j < t.len() - 1 {
            assert(without(s, q)[j] == x);
            assert(without(s, q).contains(x));
        }
    }
}

/// Whatever a file holds, its history fits a file: rewriting the file with it
/// changes nothing of what is read.
pub proof fn rewriting_keeps_the_history(d: Seq<u8>)
    ensures
        forall|i: int| 0 <= i < history_of(d).len() ==> fits_record(#[trigger] history_of(d)[i]),
        ({
            let queries = history_of(d);
            let e = encode_utf8(query_lines(queries, queries.len() as int));
            history_of(e) == queries && records_from(e, 0).len() == queries.len()
        }),
{
    let queries = history_of(d);
    let n = records_from(d, 0).len() as int;
    histories_are_bounded(records_from(d, 0), n);
    lemma_history_fits(d, n);
    assert forall|i: int| 0 <= i < queries.len() implies fits_record(#[trigger] queries[i]) by {
        assert(queries.contains(queries[i]));
    }
    histories_are_read_back(queries);
}

/// What the history file holds once it was updated.
pub open spec fn updated_file(d: Seq<u8>, update: QueryUpdate) -> Seq<u8> {
    match update {
        QueryUpdate::Ignore => d,
        QueryUpdate::Append(s) => d + encode_utf8(s@) + seq![10u8],
        QueryUpdate::Rewrite(v) => encode_utf8(query_lines(texts(v@), v@.len() as int)),
    }
}

/// Where the file ends in a newline, a query that ran is read back as the
/// newest; a query that cannot be remembered changes nothing. The file still
/// ends in a newline.
pub proof fn appended_queries_are_read_back(d: Seq<u8>, query: Seq<char>, update: QueryUpdate)
    requires
        d.len() > 0 ==> d.last() == 10,
        updates_history(history_of(d), records_from(d, 0).len(), query, update),
    ensures
        ({
            let e = updated_file(d, update);
            &&& e.len() > 0 ==> e.last() == 10
            &&& history_of(e) == match kept_query(query) {
                Some(q) => remembered(history_of(d), q),
                None => history_of(d),
            }
        }),
{
    if let Some(q) = kept_query(query) {
        lemma_kept_fits(query);
        let old = history_of(d);
        match update {
            QueryUpdate::Rewrite(v) => {
                let queries = remembered(old, q);
                rewriting_keeps_the_history(d);
                histories_are_bounded(records_from(d, 0), records_from(d, 0).len() as int);
                remembering_keeps_the_history_small(old, q);
                lemma_remembered_members(old, q);
                assert forall|i: int| 0 <= i < queries.len() implies fits_record(
                    #[trigger] queries[i],
                ) by {
                    assert(queries.contains(queries[i]));
                    if queries[i] != q {
                        let k = choose|k: int| 0 <= k < old.len() && old[k] == queries[i];
                        assert(fits_record(old[k]));
                    }
                }
                lemma_query_file(queries, queries.len() as int);
                assert(queries.take(queries.len() as int) =~= queries);
            },
            QueryUpdate::Append(_) => {
                lemma_appended(d, q);
            },
            QueryUpdate::Ignore => {},
        }
    }
}

/// Where opened files are remembered: below `XDG_STATE_HOME` where that is set.
pub fn default_history_path(set: Option<&str>, home: Option<&str>) -> (r: String)
    ensures
        r@ == program_file(base_dir(set, home, ".local/state"@), "history"@),
{
    program_path(set, home, ".local/state", "history")
}

/// Where queries are remembered, beside the opened files.
pub fn default_queries_path(set: Option<&str>, home: Option<&str>) -> (r: String)
    ensures
        r@ == program_file(base_dir(set, home, ".local/state"@), "queries"@),
{
    program_path(set, home, ".local/state", "queries")
}

} // verus!
