//! Semantic search: chunking, the persisted store of vectors, and ranking.

use crate::codec::{
    bits64, byte_range, bytes_at, from_bits64, from_le, le, lemma_byte_ranges,
    lemma_encoding_injective, lemma_from_le_of_le, lemma_le_len, lemma_le_of_from_le, push_bytes,
    push_le, read_le, to_bits64, utf8_text,
};
use crate::filters::{meta_passes, no_filters, path_passes, FilterSet, Filters};
use crate::fusion::text_option;
use crate::matcher::{best_first, head, rank, ranking_sorts, ranks_before, Candidate};
use crate::paths::{
    base_dir, ext_among, has_ext_among, last_index_of, lemma_last_index, program_file, program_path,
};
use crate::text::{
    chars_of, is_space, lemma_texts_push, lines, same, split_lines, str_texts, string_of_range,
    texts, trim, trimmed, trimming_cuts_outer_spaces,
};
use crate::walker::FileMeta;
use vstd::arithmetic::power2::*;
use vstd::prelude::*;
use vstd::string::*;
use vstd::utf8::*;

verus! {

pub const CHUNK_CHARS: usize = 1000;

pub const CHUNK_OVERLAP: usize = 200;

/// Documents larger than this are skipped by the semantic indexer.
pub const MAX_SEMANTIC_BYTES: u64 = 4_194_304;

/// Text-bearing extensions worth embedding (PDFs and Office files go through
/// their extraction caches).
pub open spec fn semantic_exts() -> Seq<Seq<char>> {
    seq![
        "md"@, "txt"@, "org"@, "rst"@, "tex"@, "html"@, "htm"@, "markdown"@, "pdf"@, "docx"@,
        "xlsx"@,
    ]
}

pub fn is_semantic_path(path: &str) -> (r: bool)
    ensures
        r == ext_among(semantic_exts(), path@),
{
    let exts: Vec<&'static str> = vec![
        "md", "txt", "org", "rst", "tex", "html", "htm", "markdown", "pdf", "docx", "xlsx",
    ];
    assert(str_texts(exts@) =~= semantic_exts());
    has_ext_among(&exts, path)
}

// ----------------------------------------------------------------- chunking

/// One chunk of a source document, with the line it starts on.
#[derive(Debug)]
pub struct Chunk {
    pub text: String,
    pub line_start: u32,
}

pub open spec fn newlines(s: Seq<char>, n: int) -> nat
    decreases n,
{
    if n <= 0 {
        0
    } else {
        newlines(s, n - 1) + (if s[n - 1] == '\n' {
            1nat
        } else {
            0
        })
    }
}

/// The end of the chunk that starts at `start`: after `target` characters, or
/// after a newline in the last quarter of that.
pub open spec fn chunk_end(s: Seq<char>, start: int, target: int) -> int {
    if start + target >= s.len() {
        s.len() as int
    } else {
        let end = start + target;
        let window = start + (if 3 * target > usize::MAX {
            usize::MAX as int
        } else {
            3 * target
        }) / 4;
        let newline = last_index_of(s, '\n', end);
        if newline >= window && newline >= start {
            newline + 1
        } else {
            end
        }
    }
}

/// Where the next chunk starts: `overlap` characters are carried over.
pub open spec fn next_start(start: int, end: int, overlap: int) -> int {
    if end - overlap > start {
        end - overlap
    } else {
        start + 1
    }
}

pub open spec fn is_blank(s: Seq<char>) -> bool {
    forall|i: int| 0 <= i < s.len() ==> is_space(#[trigger] s[i])
}

/// The spans of the chunks from `start` on; blank ones are left out.
pub open spec fn chunk_spans(
    s: Seq<char>,
    start: int,
    target: int,
    overlap: int,
) -> Seq<(int, int)>
    decreases s.len() - start,
    when target > 0 && overlap >= 0
{
    if start < 0 || start >= s.len() {
        Seq::empty()
    } else {
        let end = chunk_end(s, start, target);
        let rest = if end >= s.len() {
            Seq::empty()
        } else {
            chunk_spans(s, next_start(start, end, overlap), target, overlap)
        };
        if is_blank(s.subrange(start, end)) {
            rest
        } else {
            seq![(start, end)] + rest
        }
    }
}

pub open spec fn is_chunk(c: Chunk, s: Seq<char>, span: (int, int)) -> bool {
    &&& c.text@ == s.subrange(span.0, span.1)
    &&& c.line_start == newlines(s, span.0) + 1
}

fn find_break(s: &[char], window: usize, end: usize) -> (r: Option<usize>)
    requires
        window <= end <= s.len(),
    ensures
        match r {
            Some(i) => i == last_index_of(s@, '\n', end as int) && window <= i < end,
            None => last_index_of(s@, '\n', end as int) < window,
        },
{
    let mut i: usize = end;
    while i > window
        invariant
            window <= i <= end <= s.len(),
            last_index_of(s@, '\n', end as int) == last_index_of(s@, '\n', i as int),
        decreases i,
    {
        if s[i - 1] == '\n' {
            return Some(i - 1);
        }
        i -= 1;
    }
    proof {
        lemma_last_index(s@, '\n', window as int);
    }
    None
}

fn range_is_blank(s: &[char], from: usize, to: usize) -> (r: bool)
    requires
        from <= to <= s.len(),
    ensures
        r == is_blank(s@.subrange(from as int, to as int)),
{
    let mut i: usize = from;
    let ghost part = s@.subrange(from as int, to as int);
    while i < to
        invariant
            from <= i <= to <= s.len(),
            part == s@.subrange(from as int, to as int),
            forall|j: int| 0 <= j < i - from ==> is_space(#[trigger] part[j]),
        decreases to - i,
    {
        assert(part[i - from] == s@[i as int]);
        if !crate::text::char_is_space(s[i]) {
            return false;
        }
        i += 1;
    }
    true
}

proof fn lemma_newlines_bound(s: Seq<char>, n: int)
    requires
        0 <= n,
    ensures
        newlines(s, n) <= n,
    decreases n,
{
    if n > 0 {
        lemma_newlines_bound(s, n - 1);
    }
}

/// Splits near `target` characters, preferring newlines, with `overlap`
/// characters carried into the next chunk.
pub fn chunk_text(text: &str, target: usize, overlap: usize) -> (r: Vec<Chunk>)
    requires
        text@.len() < u32::MAX,
    ensures
        target == 0 ==> r@.len() == 0,
        target > 0 ==> ({
            let spans = chunk_spans(text@, 0, target as int, overlap as int);
            &&& r@.len() == spans.len()
            &&& forall|k: int| 0 <= k < r@.len() ==> is_chunk(#[trigger] r@[k], text@, spans[k])
        }),
{
    let mut chunks: Vec<Chunk> = Vec::new();
    if target == 0 {
        return chunks;
    }
    let s = chars_of(text);
    let n: usize = s.len();
    let ghost spans = chunk_spans(s@, 0, target as int, overlap as int);
    let mut start: usize = 0;
    let mut counted: usize = 0;
    let mut line: u32 = 1;
    loop
        invariant_except_break
            chunk_spans(s@, start as int, target as int, overlap as int) == spans.skip(
                chunks@.len() as int,
            ),
        invariant
            s@ == text@,
            n == s@.len(),
            n < u32::MAX,
            target > 0,
            start <= n,
            counted <= start,
            line == newlines(s@, counted as int) + 1,
            spans == chunk_spans(s@, 0, target as int, overlap as int),
            chunks@.len() <= spans.len(),
            forall|k: int| 0 <= k < chunks@.len() ==> is_chunk(#[trigger] chunks@[k], s@, spans[k]),
        ensures
            chunks@.len() == spans.len(),
            forall|k: int| 0 <= k < chunks@.len() ==> is_chunk(#[trigger] chunks@[k], s@, spans[k]),
        decreases n - start,
    {
        if start >= n {
            assert(spans.skip(chunks@.len() as int).len() == 0);
            break;
        }
        let mut end: usize = n;
        if target < n - start {
            end = start + target;
            let three: usize = if target > usize::MAX / 3 {
                usize::MAX
            } else {
                3 * target
            };
            let mut window: usize = end;
            if three / 4 < target {
                window = start + three / 4;
            }
            proof {
                lemma_last_index(s@, '\n', end as int);
            }
            match find_break(&s, window, end) {
                Some(i) => {
                    end = i + 1;
                },
                None => {},
            }
        }
        assert(end == chunk_end(s@, start as int, target as int));
        while counted < start
            invariant
                counted <= start <= n,
                n == s@.len(),
                n < u32::MAX,
                line == newlines(s@, counted as int) + 1,
            decreases start - counted,
        {
            proof {
                lemma_newlines_bound(s@, counted as int);
            }
            if s[counted] == '\n' {
                line += 1;
            }
            counted += 1;
        }
        let ghost here = chunk_spans(s@, start as int, target as int, overlap as int);
        let ghost done = chunks@.len() as int;
        if !range_is_blank(&s, start, end) {
            let text = string_of_range(&s, start, end);
            chunks.push(Chunk { text, line_start: line });
            assert(here[0] == (start as int, end as int));
            assert(here.len() > 0);
            assert(spans[done] == here[0]);
            assert(here.skip(1) =~= spans.skip(done + 1));
        }
        let ghost left = if is_blank(s@.subrange(start as int, end as int)) {
            here
        } else {
            here.skip(1)
        };
        assert(left == spans.skip(chunks@.len() as int));
        if end >= n {
            assert(left.len() == 0);
            break;
        }
        let ghost after = chunk_spans(
            s@,
            next_start(start as int, end as int, overlap as int),
            target as int,
            overlap as int,
        );
        assert(left =~= after);
        if overlap < end - start {
            start = end - overlap;
        } else {
            start = start + 1;
        }
    }
    chunks
}

proof fn lemma_chunk_end(s: Seq<char>, start: int, target: int)
    requires
        0 <= start < s.len(),
        target > 0,
    ensures
        start < chunk_end(s, start, target) <= s.len(),
        chunk_end(s, start, target) - start <= target || chunk_end(s, start, target) - start
            <= s.len() - start,
{
    if start + target < s.len() {
        lemma_last_index(s, '\n', start + target);
    }
}

/// Chunks lose no text: every character that is not blank stands in a chunk.
pub proof fn chunks_cover_the_text(s: Seq<char>, start: int, target: int, overlap: int, i: int) -> (k:
    int)
    requires
        target > 0,
        overlap >= 0,
        0 <= start <= i < s.len(),
        !is_space(s[i]),
    ensures
        0 <= k < chunk_spans(s, start, target, overlap).len(),
        chunk_spans(s, start, target, overlap)[k].0 <= i < chunk_spans(
            s,
            start,
            target,
            overlap,
        )[k].1,
    decreases s.len() - start,
{
    let end = chunk_end(s, start, target);
    lemma_chunk_end(s, start, target);
    let spans = chunk_spans(s, start, target, overlap);
    let blank = is_blank(s.subrange(start, end));
    if i < end {
        assert(s.subrange(start, end)[i - start] == s[i]);
        assert(spans[0] == (start, end));
        0
    } else {
        let next = next_start(start, end, overlap);
        let k = chunks_cover_the_text(s, next, target, overlap, i);
        let rest = chunk_spans(s, next, target, overlap);
        if blank {
            assert(spans == rest);
            k
        } else {
            assert(spans[k + 1] == rest[k]);
            k + 1
        }
    }
}

/// Chunks keep to their size and stand in order: each starts after the one
/// before, so their line numbers never fall.
pub proof fn chunks_are_in_order(s: Seq<char>, start: int, target: int, overlap: int, k: int)
    requires
        target > 0,
        overlap >= 0,
        0 <= start,
        0 <= k < chunk_spans(s, start, target, overlap).len(),
    ensures
        ({
            let spans = chunk_spans(s, start, target, overlap);
            let (a, b) = spans[k];
            &&& start <= a < b <= s.len()
            &&& b - a <= target
            &&& k > 0 ==> spans[k - 1].0 < a
        }),
    decreases s.len() - start,
{
    let end = chunk_end(s, start, target);
    if start < s.len() {
        lemma_chunk_end(s, start, target);
        lemma_last_index(s, '\n', if start + target < s.len() { start + target } else { 0 });
        let next = next_start(start, end, overlap);
        let rest = chunk_spans(s, next, target, overlap);
        let spans = chunk_spans(s, start, target, overlap);
        let blank = is_blank(s.subrange(start, end));
        if blank {
            chunks_are_in_order(s, next, target, overlap, k);
        } else if k > 0 {
            chunks_are_in_order(s, next, target, overlap, k - 1);
            assert(spans[k] == rest[k - 1]);
            if k == 1 {
                assert(spans[0] == (start, end));
            } else {
                assert(spans[k - 1] == rest[k - 2]);
            }
        } else {
            assert(spans[0] == (start, end));
        }
    }
}

// -------------------------------------------------------------------- store

pub const MAX_DOCS: usize = 4_000_000;

pub const MAX_CHUNKS: usize = 16_000_000;

pub const MAX_DIM: u32 = 16_384;

pub const MAX_PATH_BYTES: usize = 1_048_576;

#[derive(Debug, Clone, PartialEq)]
pub struct DocEntry {
    pub path: String,
    pub mtime: i64,
    pub size: u64,
    pub chunk_start: u32,
    pub chunk_count: u32,
}

#[verifier::ext_equal]
pub struct DocView {
    pub path: Seq<char>,
    pub mtime: i64,
    pub size: u64,
    pub chunk_start: u32,
    pub chunk_count: u32,
}

impl View for DocEntry {
    type V = DocView;

    open spec fn view(&self) -> DocView {
        DocView {
            path: self.path@,
            mtime: self.mtime,
            size: self.size,
            chunk_start: self.chunk_start,
            chunk_count: self.chunk_count,
        }
    }
}

pub open spec fn doc_views(docs: Seq<DocEntry>) -> Seq<DocView> {
    docs.map_values(|d: DocEntry| d@)
}

/// The persisted semantic index. Vectors are 16-bit floats, kept as bits, one
/// after another in the order of the chunks.
#[derive(Debug)]
pub struct SemStore {
    pub dim: u32,
    pub docs: Vec<DocEntry>,
    pub chunk_lines: Vec<u32>,
    pub vectors: Vec<u16>,
}

#[verifier::ext_equal]
pub struct SemView {
    pub dim: u32,
    pub docs: Seq<DocView>,
    pub lines: Seq<u32>,
    pub vectors: Seq<u16>,
}

impl View for SemStore {
    type V = SemView;

    open spec fn view(&self) -> SemView {
        SemView {
            dim: self.dim,
            docs: doc_views(self.docs@),
            lines: self.chunk_lines@,
            vectors: self.vectors@,
        }
    }
}

/// How many chunks the first `i` documents have.
pub open spec fn chunks_before(docs: Seq<DocView>, i: int) -> nat
    decreases i,
{
    if i <= 0 {
        0
    } else {
        chunks_before(docs, i - 1) + docs[i - 1].chunk_count as nat
    }
}

/// The documents split the chunks among them, in order.
pub open spec fn covers(docs: Seq<DocView>, chunks: nat) -> bool {
    &&& forall|i: int|
        0 <= i < docs.len() ==> (#[trigger] docs[i]).chunk_start == chunks_before(docs, i)
    &&& chunks_before(docs, docs.len() as int) == chunks
}

/// Every chunk has its vector and belongs to one document.
pub open spec fn is_consistent(v: SemView) -> bool {
    &&& v.vectors.len() == v.lines.len() * v.dim as nat
    &&& covers(v.docs, v.lines.len())
}

pub open spec fn path_fits(d: DocView) -> bool {
    encode_utf8(d.path).len() <= MAX_PATH_BYTES
}

/// What a store file can hold.
pub open spec fn is_storable(v: SemView) -> bool {
    &&& 0 < v.dim <= MAX_DIM
    &&& v.docs.len() <= MAX_DOCS
    &&& v.lines.len() <= MAX_CHUNKS
    &&& forall|i: int| 0 <= i < v.docs.len() ==> path_fits(#[trigger] v.docs[i])
    &&& is_consistent(v)
}

/// Why a store cannot be saved.
#[derive(Debug, Clone, Copy, PartialEq, Eq, Structural)]
pub enum StoreError {
    Dimension,
    TooLarge,
    CountOverflow,
    VectorMismatch,
    DocumentRange,
    RangeOverflow,
    Coverage,
}

impl StoreError {
    pub open spec fn text(self) -> Seq<char> {
        match self {
            StoreError::Dimension => "invalid semantic vector dimension"@,
            StoreError::TooLarge => "semantic store is too large"@,
            StoreError::CountOverflow => "semantic vector count overflows"@,
            StoreError::VectorMismatch => "semantic vector storage does not match chunks"@,
            StoreError::DocumentRange => "invalid semantic document range"@,
            StoreError::RangeOverflow => "semantic document range overflows"@,
            StoreError::Coverage => "semantic documents do not cover chunks"@,
        }
    }

    pub fn message(&self) -> (r: &'static str)
        ensures
            r@ == self.text(),
    {
        match self {
            StoreError::Dimension => "invalid semantic vector dimension",
            StoreError::TooLarge => "semantic store is too large",
            StoreError::CountOverflow => "semantic vector count overflows",
            StoreError::VectorMismatch => "semantic vector storage does not match chunks",
            StoreError::DocumentRange => "invalid semantic document range",
            StoreError::RangeOverflow => "semantic document range overflows",
            StoreError::Coverage => "semantic documents do not cover chunks",
        }
    }
}

/// Document `i` is well placed after those before it.
pub open spec fn doc_in_place(docs: Seq<DocView>, i: int) -> bool {
    path_fits(docs[i]) && docs[i].chunk_start == chunks_before(docs, i)
}

/// The first `n` documents are in place and within 32-bit chunk numbers.
pub open spec fn docs_in_place(docs: Seq<DocView>, n: int) -> bool {
    &&& forall|i: int| 0 <= i < n ==> doc_in_place(docs, i)
    &&& chunks_before(docs, n) <= u32::MAX
}

/// What saving a store comes to.
pub open spec fn save_check(v: SemView) -> Result<(), StoreError> {
    if v.dim == 0 || v.dim > MAX_DIM {
        Err(StoreError::Dimension)
    } else if v.docs.len() > MAX_DOCS || v.lines.len() > MAX_CHUNKS {
        Err(StoreError::TooLarge)
    } else if v.lines.len() * v.dim as nat > usize::MAX {
        Err(StoreError::CountOverflow)
    } else if v.vectors.len() != v.lines.len() * v.dim as nat {
        Err(StoreError::VectorMismatch)
    } else if exists|i: int|
        0 <= i < v.docs.len() && docs_in_place(v.docs, i) && !#[trigger] doc_in_place(v.docs, i) {
        Err(StoreError::DocumentRange)
    } else if exists|i: int|
        0 <= i < v.docs.len() && docs_in_place(v.docs, i) && #[trigger] doc_in_place(v.docs, i)
            && chunks_before(v.docs, i + 1) > u32::MAX {
        Err(StoreError::RangeOverflow)
    } else if chunks_before(v.docs, v.docs.len() as int) != v.lines.len() {
        Err(StoreError::Coverage)
    } else {
        Ok(())
    }
}

proof fn lemma_chunks_monotone(docs: Seq<DocView>, i: int, j: int)
    requires
        0 <= i <= j,
    ensures
        chunks_before(docs, i) <= chunks_before(docs, j),
    decreases j - i,
{
    if i < j {
        lemma_chunks_monotone(docs, i, j - 1);
    }
}

proof fn lemma_chunks_prefix(a: Seq<DocView>, b: Seq<DocView>, n: int)
    requires
        0 <= n <= a.len(),
        n <= b.len(),
        forall|i: int| 0 <= i < n ==> a[i] == b[i],
    ensures
        chunks_before(a, n) == chunks_before(b, n),
    decreases n,
{
    if n > 0 {
        lemma_chunks_prefix(a, b, n - 1);
    }
}

impl SemStore {
    pub fn new(dim: u32) -> (r: SemStore)
        ensures
            r@ == (SemView {
                dim,
                docs: Seq::empty(),
                lines: Seq::empty(),
                vectors: Seq::empty(),
            }),
            is_consistent(r@),
    {
        let r = SemStore { dim, docs: Vec::new(), chunk_lines: Vec::new(), vectors: Vec::new() };
        assert(doc_views(r.docs@) =~= Seq::empty());
        assert(0 * dim as nat == 0);
        r
    }

    pub fn chunk_count(&self) -> (r: usize)
        ensures
            r == self@.lines.len(),
    {
        self.chunk_lines.len()
    }

    pub fn vector_bits_at(&self, index: usize) -> (r: Option<u16>)
        ensures
            r == (if index < self@.vectors.len() {
                Some(self@.vectors[index as int])
            } else {
                None
            }),
    {
        if index < self.vectors.len() {
            Some(self.vectors[index])
        } else {
            None
        }
    }

    /// Whether the store can be saved: only a complete and bounded one can.
    pub fn validate_for_save(&self) -> (r: Result<(), StoreError>)
        ensures
            r == save_check(self@),
            r is Ok == is_storable(self@),
    {
        let ghost v = self@;
        assert(v.docs.len() == self.docs@.len());
        if self.dim == 0 || self.dim > MAX_DIM {
            return Err(StoreError::Dimension);
        }
        if self.docs.len() > MAX_DOCS || self.chunk_lines.len() > MAX_CHUNKS {
            return Err(StoreError::TooLarge);
        }
        let chunks: usize = self.chunk_lines.len();
        match chunks.checked_mul(self.dim as usize) {
            None => {
                proof {
                    assert(v.vectors.len() <= usize::MAX) by {
                        assert(self.vectors@.len() == self.vectors.len());
                    }
                }
                return Err(StoreError::CountOverflow);
            },
            Some(count) => {
                if self.vectors.len() != count {
                    return Err(StoreError::VectorMismatch);
                }
            },
        }
        let mut expected: u32 = 0;
        let mut i: usize = 0;
        while i < self.docs.len()
            invariant
                i <= self.docs@.len(),
                v == self@,
                v.docs.len() == self.docs@.len(),
                0 < v.dim <= MAX_DIM,
                v.docs.len() <= MAX_DOCS,
                v.lines.len() <= MAX_CHUNKS,
                v.lines.len() * v.dim as nat <= usize::MAX,
                v.vectors.len() == v.lines.len() * v.dim as nat,
                expected == chunks_before(v.docs, i as int),
                forall|k: int| 0 <= k < i ==> doc_in_place(v.docs, k),
            decreases self.docs@.len() - i,
        {
            assert(v.docs[i as int] == self.docs@[i as int]@);
            assert(docs_in_place(v.docs, i as int));
            let doc = &self.docs[i];
            if doc.path.as_str().as_bytes().len() > MAX_PATH_BYTES || doc.chunk_start != expected {
                assert(!doc_in_place(v.docs, i as int));
                proof {
                    if is_storable(v) {
                        assert(v.docs[i as int].chunk_start == chunks_before(v.docs, i as int));
                    }
                }
                return Err(StoreError::DocumentRange);
            }
            assert(doc_in_place(v.docs, i as int));
            match doc.chunk_start.checked_add(doc.chunk_count) {
                None => {
                    proof {
                        assert(chunks_before(v.docs, i + 1) > u32::MAX);
                        lemma_chunks_monotone(v.docs, i + 1, v.docs.len() as int);
                        assert forall|k: int|
                            0 <= k < v.docs.len() && docs_in_place(v.docs, k) implies
                            #[trigger] doc_in_place(v.docs, k) by {
                            if k > i {
                                lemma_chunks_monotone(v.docs, i + 1, k);
                            }
                        }
                    }
                    return Err(StoreError::RangeOverflow);
                },
                Some(next) => {
                    expected = next;
                },
            }
            i += 1;
        }
        proof {
            assert forall|k: int|
                0 <= k < v.docs.len() && #[trigger] doc_in_place(v.docs, k) implies chunks_before(
                v.docs,
                k + 1,
            ) <= u32::MAX by {
                lemma_chunks_monotone(v.docs, k + 1, v.docs.len() as int);
            }
        }
        if expected as usize != chunks {
            return Err(StoreError::Coverage);
        }
        proof {
            assert forall|k: int| 0 <= k < v.docs.len() implies path_fits(#[trigger] v.docs[k])
                && v.docs[k].chunk_start == chunks_before(v.docs, k) by {
                assert(doc_in_place(v.docs, k));
            }
        }
        Ok(())
    }
}

pub open spec fn store_magic() -> Seq<u8> {
    seq![70u8, 83, 69, 77, 2, 0, 0, 0]
}

fn store_magic_bytes() -> (r: Vec<u8>)
    ensures
        r@ == store_magic(),
{
    let r: Vec<u8> = vec![70u8, 83, 69, 77, 2, 0, 0, 0];
    assert(r@ =~= store_magic());
    r
}

pub open spec fn doc_bytes(d: DocView) -> Seq<u8> {
    le(encode_utf8(d.path).len(), 4) + encode_utf8(d.path) + le(bits64(d.mtime as int), 8) + le(
        d.size as nat,
        8,
    ) + le(d.chunk_start as nat, 4) + le(d.chunk_count as nat, 4)
}

pub open spec fn docs_bytes(docs: Seq<DocView>) -> Seq<u8>
    decreases docs.len(),
{
    if docs.len() == 0 {
        Seq::empty()
    } else {
        docs_bytes(docs.drop_last()) + doc_bytes(docs.last())
    }
}

pub open spec fn lines_bytes(lines: Seq<u32>) -> Seq<u8>
    decreases lines.len(),
{
    if lines.len() == 0 {
        Seq::empty()
    } else {
        lines_bytes(lines.drop_last()) + le(lines.last() as nat, 4)
    }
}

pub open spec fn vectors_bytes(bits: Seq<u16>) -> Seq<u8>
    decreases bits.len(),
{
    if bits.len() == 0 {
        Seq::empty()
    } else {
        vectors_bytes(bits.drop_last()) + le(bits.last() as nat, 2)
    }
}

pub open spec fn header_bytes(v: SemView) -> Seq<u8> {
    store_magic() + le(v.dim as nat, 4) + le(v.docs.len(), 8) + le(v.lines.len(), 8)
}

/// The store file: a header, the documents, the line of each chunk, the vectors.
pub open spec fn store_bytes(v: SemView) -> Seq<u8> {
    header_bytes(v) + docs_bytes(v.docs) + lines_bytes(v.lines) + vectors_bytes(v.vectors)
}

proof fn lemma_lines_len(lines: Seq<u32>)
    ensures
        lines_bytes(lines).len() == 4 * lines.len(),
    decreases lines.len(),
{
    if lines.len() > 0 {
        lemma_lines_len(lines.drop_last());
        lemma_le_len(lines.last() as nat, 4);
    }
}

proof fn lemma_vectors_len(bits: Seq<u16>)
    ensures
        vectors_bytes(bits).len() == 2 * bits.len(),
    decreases bits.len(),
{
    if bits.len() > 0 {
        lemma_vectors_len(bits.drop_last());
        lemma_le_len(bits.last() as nat, 2);
    }
}

proof fn lemma_doc_len(d: DocView)
    ensures
        doc_bytes(d).len() == 28 + encode_utf8(d.path).len(),
{
    lemma_le_len(encode_utf8(d.path).len(), 4);
    lemma_le_len(bits64(d.mtime as int), 8);
    lemma_le_len(d.size as nat, 8);
    lemma_le_len(d.chunk_start as nat, 4);
    lemma_le_len(d.chunk_count as nat, 4);
}

proof fn lemma_docs_len(docs: Seq<DocView>)
    ensures
        docs_bytes(docs).len() >= 28 * docs.len(),
    decreases docs.len(),
{
    if docs.len() > 0 {
        lemma_docs_len(docs.drop_last());
        lemma_doc_len(docs.last());
    }
}

proof fn lemma_header_len(v: SemView)
    ensures
        header_bytes(v).len() == 28,
{
    lemma_le_len(v.dim as nat, 4);
    lemma_le_len(v.docs.len(), 8);
    lemma_le_len(v.lines.len(), 8);
}

fn push_doc_bytes(out: &mut Vec<u8>, doc: &DocEntry)
    requires
        path_fits(doc@),
    ensures
        final(out)@ == old(out)@ + doc_bytes(doc@),
{
    let path = doc.path.as_str().as_bytes();
    push_le(out, path.len() as u64, 4);
    push_bytes(out, path);
    push_le(out, to_bits64(doc.mtime), 8);
    push_le(out, doc.size, 8);
    push_le(out, doc.chunk_start as u64, 4);
    push_le(out, doc.chunk_count as u64, 4);
    assert(out@ =~= old(out)@ + doc_bytes(doc@));
}

/// The bytes of the store file.
pub fn encode(store: &SemStore) -> (r: Result<Vec<u8>, StoreError>)
    ensures
        match r {
            Ok(d) => is_storable(store@) && d@ == store_bytes(store@),
            Err(e) => save_check(store@) == Err::<(), StoreError>(e),
        },
{
    match store.validate_for_save() {
        Err(e) => {
            return Err(e);
        },
        Ok(()) => {},
    }
    let ghost v = store@;
    let mut out = store_magic_bytes();
    push_le(&mut out, store.dim as u64, 4);
    push_le(&mut out, store.docs.len() as u64, 8);
    push_le(&mut out, store.chunk_lines.len() as u64, 8);
    assert(out@ =~= header_bytes(v));
    let mut i: usize = 0;
    assert(v.docs.take(0) =~= Seq::empty());
    while i < store.docs.len()
        invariant
            i <= store.docs@.len(),
            v == store@,
            is_storable(v),
            out@ == header_bytes(v) + docs_bytes(v.docs.take(i as int)),
        decreases store.docs@.len() - i,
    {
        assert(v.docs[i as int] == store.docs@[i as int]@);
        push_doc_bytes(&mut out, &store.docs[i]);
        proof {
            let next = v.docs.take(i + 1);
            assert(next.drop_last() =~= v.docs.take(i as int));
        }
        i += 1;
        assert(out@ =~= header_bytes(v) + docs_bytes(v.docs.take(i as int)));
    }
    assert(v.docs.take(i as int) =~= v.docs);
    let ghost start = out@;
    let mut i: usize = 0;
    assert(v.lines.take(0) =~= Seq::empty());
    while i < store.chunk_lines.len()
        invariant
            i <= store.chunk_lines@.len(),
            v.lines == store.chunk_lines@,
            out@ == start + lines_bytes(v.lines.take(i as int)),
        decreases store.chunk_lines@.len() - i,
    {
        push_le(&mut out, store.chunk_lines[i] as u64, 4);
        assert(v.lines.take(i + 1).drop_last() =~= v.lines.take(i as int));
        i += 1;
        assert(out@ =~= start + lines_bytes(v.lines.take(i as int)));
    }
    assert(v.lines.take(i as int) =~= v.lines);
    let ghost start = out@;
    let mut i: usize = 0;
    assert(v.vectors.take(0) =~= Seq::empty());
    while i < store.vectors.len()
        invariant
            i <= store.vectors@.len(),
            v.vectors == store.vectors@,
            out@ == start + vectors_bytes(v.vectors.take(i as int)),
        decreases store.vectors@.len() - i,
    {
        push_le(&mut out, store.vectors[i] as u64, 2);
        assert(v.vectors.take(i + 1).drop_last() =~= v.vectors.take(i as int));
        i += 1;
        assert(out@ =~= start + vectors_bytes(v.vectors.take(i as int)));
    }
    assert(v.vectors.take(i as int) =~= v.vectors);
    Ok(out)
}

/// Document `x` stands in `d` from `from` to `to`, for the chunks from
/// `expected` on.
spec fn doc_stands(d: Seq<u8>, from: int, to: int, expected: int, x: DocView) -> bool {
    &&& 0 <= from <= to <= d.len()
    &&& d.subrange(from, to) == doc_bytes(x)
    &&& path_fits(x)
    &&& x.chunk_start == expected
    &&& x.chunk_start + x.chunk_count <= u32::MAX
}

proof fn lemma_doc_fields(d: Seq<u8>, from: int, to: int, expected: int, x: DocView)
    requires
        doc_stands(d, from, to, expected, x),
    ensures
        ({
            let n = encode_utf8(x.path).len();
            &&& to == from + 28 + n
            &&& n <= MAX_PATH_BYTES
            &&& from_le(d.subrange(from, from + 4)) == n
            &&& d.subrange(from + 4, from + 4 + n) == encode_utf8(x.path)
            &&& from_le(d.subrange(from + 4 + n, from + 12 + n)) == bits64(x.mtime as int)
            &&& from_le(d.subrange(from + 12 + n, from + 20 + n)) == x.size
            &&& from_le(d.subrange(from + 20 + n, from + 24 + n)) == x.chunk_start
            &&& from_le(d.subrange(from + 24 + n, from + 28 + n)) == x.chunk_count
        }),
{
    let n = encode_utf8(x.path).len();
    let whole = d.subrange(from, to);
    lemma_doc_len(x);
    lemma_byte_ranges();
    lemma_le_len(n, 4);
    lemma_le_len(bits64(x.mtime as int), 8);
    lemma_le_len(x.size as nat, 8);
    lemma_le_len(x.chunk_start as nat, 4);
    lemma_le_len(x.chunk_count as nat, 4);
    lemma_from_le_of_le(n, 4);
    lemma_from_le_of_le(bits64(x.mtime as int), 8);
    lemma_from_le_of_le(x.size as nat, 8);
    lemma_from_le_of_le(x.chunk_start as nat, 4);
    lemma_from_le_of_le(x.chunk_count as nat, 4);
    assert(d.subrange(from, from + 4) =~= le(n, 4)) by {
        assert(d.subrange(from, from + 4) =~= whole.subrange(0, 4));
    }
    assert(d.subrange(from + 4, from + 4 + n) =~= encode_utf8(x.path)) by {
        assert(d.subrange(from + 4, from + 4 + n) =~= whole.subrange(4, 4 + n as int));
    }
    assert(d.subrange(from + 4 + n, from + 12 + n) =~= le(bits64(x.mtime as int), 8)) by {
        assert(d.subrange(from + 4 + n, from + 12 + n) =~= whole.subrange(
            4 + n as int,
            12 + n as int,
        ));
    }
    assert(d.subrange(from + 12 + n, from + 20 + n) =~= le(x.size as nat, 8)) by {
        assert(d.subrange(from + 12 + n, from + 20 + n) =~= whole.subrange(
            12 + n as int,
            20 + n as int,
        ));
    }
    assert(d.subrange(from + 20 + n, from + 24 + n) =~= le(x.chunk_start as nat, 4)) by {
        assert(d.subrange(from + 20 + n, from + 24 + n) =~= whole.subrange(
            20 + n as int,
            24 + n as int,
        ));
    }
    assert(d.subrange(from + 24 + n, from + 28 + n) =~= le(x.chunk_count as nat, 4)) by {
        assert(d.subrange(from + 24 + n, from + 28 + n) =~= whole.subrange(
            24 + n as int,
            28 + n as int,
        ));
    }
}

proof fn lemma_bits64_injective(a: i64, b: i64)
    requires
        bits64(a as int) == bits64(b as int),
    ensures
        a == b,
{
}

/// A document's bytes determine it and where it ends.
proof fn lemma_doc_unique(
    d: Seq<u8>,
    from: int,
    to: int,
    expected: int,
    x: DocView,
    to2: int,
    y: DocView,
)
    requires
        doc_stands(d, from, to, expected, x),
        doc_stands(d, from, to2, expected, y),
    ensures
        x == y,
        to == to2,
{
    lemma_doc_fields(d, from, to, expected, x);
    lemma_doc_fields(d, from, to2, expected, y);
    lemma_encoding_injective(x.path, y.path);
    lemma_bits64_injective(x.mtime, y.mtime);
}

/// Reads a document that ends by `end`.
fn read_doc(d: &[u8], from: usize, end: usize, expected: u32) -> (r: Option<(DocEntry, usize)>)
    requires
        from <= end <= d.len(),
    ensures
        match r {
            Some((doc, to)) => to <= end && doc_stands(
                d@,
                from as int,
                to as int,
                expected as int,
                doc@,
            ),
            None => forall|x: DocView, to: int|
                to <= end ==> !#[trigger] doc_stands(d@, from as int, to, expected as int, x),
        },
{
    proof {
        lemma_byte_ranges();
        assert forall|x: DocView, to: int|
            to <= end && #[trigger] doc_stands(d@, from as int, to, expected as int, x) implies {
            let n = encode_utf8(x.path).len();
            &&& from + 28 + n <= end
            &&& n <= MAX_PATH_BYTES
            &&& from_le(d@.subrange(from as int, from + 4)) == n
            &&& valid_utf8(d@.subrange(from + 4, from + 4 + n))
            &&& from_le(d@.subrange(from + 20 + n, from + 24 + n)) == expected
            &&& from_le(d@.subrange(from + 24 + n, from + 28 + n)) + expected <= u32::MAX
        } by {
            lemma_doc_fields(d@, from as int, to, expected as int, x);
            encode_utf8_valid_utf8(x.path);
        }
    }
    if end - from < 28 {
        return None;
    }
    let n: u64 = read_le(d, from, 4);
    if n > MAX_PATH_BYTES as u64 {
        return None;
    }
    let n: usize = n as usize;
    if end - from - 28 < n {
        return None;
    }
    let ghost bytes = d@.subrange(from + 4, from + 4 + n);
    match utf8_text(vstd::slice::slice_subrange(d, from + 4, from + 4 + n)) {
        None => None,
        Some(text) => {
            let mtime: i64 = from_bits64(read_le(d, from + 4 + n, 8));
            let size: u64 = read_le(d, from + 12 + n, 8);
            let chunk_start: u64 = read_le(d, from + 20 + n, 4);
            let chunk_count: u64 = read_le(d, from + 24 + n, 4);
            if chunk_start != expected as u64 || chunk_count > (u32::MAX - expected) as u64 {
                return None;
            }
            let doc = DocEntry {
                path: text.to_owned(),
                mtime,
                size,
                chunk_start: chunk_start as u32,
                chunk_count: chunk_count as u32,
            };
            let to: usize = from + 28 + n;
            proof {
                lemma_le_of_from_le(d@.subrange(from as int, from + 4));
                lemma_le_of_from_le(d@.subrange(from + 4 + n, from + 12 + n));
                lemma_le_of_from_le(d@.subrange(from + 12 + n, from + 20 + n));
                lemma_le_of_from_le(d@.subrange(from + 20 + n, from + 24 + n));
                lemma_le_of_from_le(d@.subrange(from + 24 + n, from + 28 + n));
                lemma_doc_len(doc@);
                assert(d@.subrange(from as int, to as int) =~= doc_bytes(doc@));
            }
            Some((doc, to))
        },
    }
}

/// A store that the bytes can stand for.
spec fn stands_for(d: Seq<u8>, v: SemView) -> bool {
    is_storable(v) && store_bytes(v) == d
}

/// Where the first `i` documents end.
spec fn docs_end(docs: Seq<DocView>, i: int) -> int {
    28 + docs_bytes(docs.take(i)).len() as int
}

proof fn lemma_layout(d: Seq<u8>, v: SemView)
    requires
        stands_for(d, v),
    ensures
        d.len() == 28 + docs_bytes(v.docs).len() + 4 * v.lines.len() + 2 * v.vectors.len(),
        docs_bytes(v.docs).len() >= 28 * v.docs.len(),
        d.subrange(0, 8) == store_magic(),
        from_le(d.subrange(8, 12)) == v.dim,
        from_le(d.subrange(12, 20)) == v.docs.len(),
        from_le(d.subrange(20, 28)) == v.lines.len(),
        d.subrange(28, 28 + docs_bytes(v.docs).len() as int) == docs_bytes(v.docs),
{
    let a = docs_bytes(v.docs).len() as int;
    let h = header_bytes(v);
    lemma_header_len(v);
    lemma_docs_len(v.docs);
    lemma_lines_len(v.lines);
    lemma_vectors_len(v.vectors);
    lemma_byte_ranges();
    lemma_le_len(v.dim as nat, 4);
    lemma_le_len(v.docs.len(), 8);
    lemma_le_len(v.lines.len(), 8);
    lemma_from_le_of_le(v.dim as nat, 4);
    lemma_from_le_of_le(v.docs.len(), 8);
    lemma_from_le_of_le(v.lines.len(), 8);
    assert(h.subrange(0, 8) =~= store_magic());
    assert(h.subrange(8, 12) =~= le(v.dim as nat, 4));
    assert(h.subrange(12, 20) =~= le(v.docs.len(), 8));
    assert(h.subrange(20, 28) =~= le(v.lines.len(), 8));
    assert(d.subrange(0, 8) =~= h.subrange(0, 8));
    assert(d.subrange(8, 12) =~= h.subrange(8, 12));
    assert(d.subrange(12, 20) =~= h.subrange(12, 20));
    assert(d.subrange(20, 28) =~= h.subrange(20, 28));
    assert(d.subrange(28, 28 + a) =~= docs_bytes(v.docs));
}

proof fn lemma_docs_prefix(docs: Seq<DocView>, i: int)
    requires
        0 <= i <= docs.len(),
    ensures
        docs_bytes(docs.take(i)).len() <= docs_bytes(docs).len(),
        docs_bytes(docs).take(docs_bytes(docs.take(i)).len() as int) == docs_bytes(docs.take(i)),
    decreases docs.len() - i,
{
    if i == docs.len() {
        assert(docs.take(i) =~= docs);
        assert(docs_bytes(docs).take(docs_bytes(docs).len() as int) =~= docs_bytes(docs));
    } else {
        lemma_docs_prefix(docs, i + 1);
        let next = docs.take(i + 1);
        assert(next.drop_last() =~= docs.take(i));
        let n = docs_bytes(docs.take(i)).len() as int;
        assert(docs_bytes(docs).take(n) =~= docs_bytes(next).take(n)) by {
            assert(docs_bytes(docs).take(docs_bytes(next).len() as int).take(n) =~= docs_bytes(
                docs,
            ).take(n));
        }
        assert(docs_bytes(next).take(n) =~= docs_bytes(docs.take(i)));
    }
}

/// In the bytes of a store, its documents stand one after another.
proof fn lemma_doc_at(d: Seq<u8>, v: SemView, i: int)
    requires
        stands_for(d, v),
        0 <= i < v.docs.len(),
    ensures
        doc_stands(
            d,
            docs_end(v.docs, i),
            docs_end(v.docs, i + 1),
            chunks_before(v.docs, i) as int,
            v.docs[i],
        ),
        docs_end(v.docs, i + 1) <= 28 + docs_bytes(v.docs).len(),
{
    lemma_layout(d, v);
    lemma_docs_prefix(v.docs, i);
    lemma_docs_prefix(v.docs, i + 1);
    lemma_chunks_monotone(v.docs, i + 1, v.docs.len() as int);
    let next = v.docs.take(i + 1);
    assert(next.drop_last() =~= v.docs.take(i));
    let all = docs_bytes(v.docs);
    let a = docs_bytes(v.docs.take(i)).len() as int;
    let b = docs_bytes(next).len() as int;
    assert(docs_bytes(next).subrange(a, b) =~= doc_bytes(v.docs[i]));
    assert(d.subrange(28 + a, 28 + b) =~= d.subrange(28, 28 + all.len() as int).subrange(a, b));
    assert(all.subrange(a, b) =~= all.take(b).subrange(a, b));
}

proof fn lemma_no_more_docs(d: Seq<u8>, v: SemView)
    requires
        stands_for(d, v),
    ensures
        docs_end(v.docs, v.docs.len() as int) == 28 + docs_bytes(v.docs).len(),
        docs_end(v.docs, 0) == 28,
{
    assert(v.docs.take(v.docs.len() as int) =~= v.docs);
    assert(v.docs.take(0) =~= Seq::empty());
}

fn read_lines(d: &[u8], from: usize, n: usize) -> (r: Vec<u32>)
    requires
        from + 4 * n <= d.len(),
    ensures
        r@.len() == n,
        lines_bytes(r@) == d@.subrange(from as int, from + 4 * n),
{
    let mut r: Vec<u32> = Vec::new();
    let mut i: usize = 0;
    assert(lines_bytes(r@) =~= d@.subrange(from as int, from as int));
    while i < n
        invariant
            i <= n,
            from + 4 * n <= d.len(),
            r@.len() == i,
            lines_bytes(r@) == d@.subrange(from as int, from + 4 * i),
        decreases n - i,
    {
        let ghost before = r@;
        r.push(read_le(d, from + 4 * i, 4) as u32);
        proof {
            let part = d@.subrange(from + 4 * i, from + 4 * i + 4);
            lemma_le_of_from_le(part);
            assert(r@.drop_last() =~= before);
            assert(lines_bytes(r@) =~= d@.subrange(from as int, from + 4 * (i + 1)));
        }
        i += 1;
    }
    r
}

fn read_vectors(d: &[u8], from: usize, n: usize) -> (r: Vec<u16>)
    requires
        from + 2 * n <= d.len(),
    ensures
        r@.len() == n,
        vectors_bytes(r@) == d@.subrange(from as int, from + 2 * n),
{
    let mut r: Vec<u16> = Vec::new();
    let mut i: usize = 0;
    assert(vectors_bytes(r@) =~= d@.subrange(from as int, from as int));
    while i < n
        invariant
            i <= n,
            from + 2 * n <= d.len(),
            r@.len() == i,
            vectors_bytes(r@) == d@.subrange(from as int, from + 2 * i),
        decreases n - i,
    {
        let ghost before = r@;
        proof {
            let part = d@.subrange(from + 2 * i, from + 2 * i + 2);
            lemma_le_of_from_le(part);
            reveal_with_fuel(byte_range, 3);
        }
        r.push(read_le(d, from + 2 * i, 2) as u16);
        proof {
            assert(r@.drop_last() =~= before);
            assert(vectors_bytes(r@) =~= d@.subrange(from as int, from + 2 * (i + 1)));
        }
        i += 1;
    }
    r
}

/// Reads `n` documents that fill the bytes up to `end`.
fn read_docs(d: &[u8], n: usize, end: usize, Ghost(v): Ghost<SemView>) -> (r: Option<
    Vec<DocEntry>,
>)
    requires
        28 <= end <= d.len(),
    ensures
        match r {
            Some(docs) => {
                let w = doc_views(docs@);
                &&& w.len() == n
                &&& docs_bytes(w) == d@.subrange(28, end as int)
                &&& docs_in_place(w, n as int)
                &&& stands_for(d@, v) && v.docs.len() == n && end == 28 + docs_bytes(v.docs).len()
                    ==> w == v.docs
            },
            None => !(stands_for(d@, v) && v.docs.len() == n && end == 28 + docs_bytes(
                v.docs,
            ).len()),
        },
{
    let ghost possible = stands_for(d@, v) && v.docs.len() == n && end == 28 + docs_bytes(
        v.docs,
    ).len();
    let mut docs: Vec<DocEntry> = Vec::new();
    let mut pos: usize = 28;
    let mut expected: u32 = 0;
    let mut i: usize = 0;
    proof {
        assert(doc_views(docs@) =~= Seq::empty());
        assert(d@.subrange(28, 28) =~= Seq::empty());
        assert(v.docs.take(0) =~= Seq::empty());
    }
    while i < n
        invariant
            i <= n,
            28 <= pos <= end <= d.len(),
            possible == (stands_for(d@, v) && v.docs.len() == n && end == 28 + docs_bytes(
                v.docs,
            ).len()),
            docs@.len() == i,
            docs_bytes(doc_views(docs@)) == d@.subrange(28, pos as int),
            docs_in_place(doc_views(docs@), i as int),
            expected == chunks_before(doc_views(docs@), i as int),
            possible ==> doc_views(docs@) == v.docs.take(i as int) && pos == docs_end(
                v.docs,
                i as int,
            ) && expected == chunks_before(v.docs, i as int),
        decreases n - i,
    {
        let ghost w = doc_views(docs@);
        proof {
            if possible {
                lemma_doc_at(d@, v, i as int);
            }
        }
        match read_doc(d, pos, end, expected) {
            None => {
                return None;
            },
            Some((doc, to)) => {
                let ghost x = doc@;
                let count: u32 = doc.chunk_count;
                let ghost from = pos as int;
                docs.push(doc);
                proof {
                    let u = doc_views(docs@);
                    assert(u =~= w.push(x));
                    assert(u.drop_last() =~= w);
                    assert(docs_bytes(u) =~= d@.subrange(28, to as int));
                    lemma_chunks_prefix(u, w, i as int);
                    assert(chunks_before(u, i + 1) == expected + x.chunk_count);
                    assert forall|k: int| 0 <= k < i + 1 implies doc_in_place(u, k) by {
                        if k < i {
                            assert(doc_in_place(w, k));
                            lemma_chunks_prefix(u, w, k);
                        }
                    }
                    if possible {
                        lemma_doc_unique(
                            d@,
                            from,
                            to as int,
                            expected as int,
                            x,
                            docs_end(v.docs, i + 1),
                            v.docs[i as int],
                        );
                        assert(u =~= v.docs.take(i + 1));
                        lemma_chunks_prefix(u, v.docs, i + 1);
                    }
                }
                pos = to;
                expected = expected + count;
            },
        }
        i += 1;
    }
    if pos != end {
        proof {
            if possible {
                lemma_no_more_docs(d@, v);
            }
        }
        return None;
    }
    assert(possible ==> v.docs.take(n as int) =~= v.docs);
    Some(docs)
}

/// Parts read from their places in the bytes make up a store for the bytes.
proof fn lemma_assembled(d: Seq<u8>, s: SemView, end: int)
    requires
        28 <= end,
        d.len() == end + 4 * s.lines.len() + 2 * s.vectors.len(),
        d.subrange(0, 8) == store_magic(),
        from_le(d.subrange(8, 12)) == s.dim,
        from_le(d.subrange(12, 20)) == s.docs.len(),
        from_le(d.subrange(20, 28)) == s.lines.len(),
        docs_bytes(s.docs) == d.subrange(28, end),
        lines_bytes(s.lines) == d.subrange(end, end + 4 * s.lines.len()),
        vectors_bytes(s.vectors) == d.subrange(end + 4 * s.lines.len(), d.len() as int),
        docs_in_place(s.docs, s.docs.len() as int),
    ensures
        store_bytes(s) == d,
        forall|k: int|
            0 <= k < s.docs.len() ==> path_fits(#[trigger] s.docs[k]) && s.docs[k].chunk_start
                == chunks_before(s.docs, k),
{
    lemma_le_of_from_le(d.subrange(8, 12));
    lemma_le_of_from_le(d.subrange(12, 20));
    lemma_le_of_from_le(d.subrange(20, 28));
    assert(header_bytes(s) =~= d.subrange(0, 28));
    assert(store_bytes(s) =~= d);
    assert forall|k: int| 0 <= k < s.docs.len() implies path_fits(#[trigger] s.docs[k])
        && s.docs[k].chunk_start == chunks_before(s.docs, k) by {
        assert(doc_in_place(s.docs, k));
    }
}

/// Loading these bytes gives this store: the one that they stand for, or none
/// where they stand for none.
pub open spec fn loads(d: Seq<u8>, r: Option<SemView>) -> bool {
    match r {
        Some(s) => is_storable(s) && store_bytes(s) == d,
        None => forall|v: SemView| is_storable(v) ==> #[trigger] store_bytes(v) != d,
    }
}

/// The store that a file holds; `None` for any other bytes.
pub fn decode(d: &[u8]) -> (r: Option<SemStore>)
    ensures
        loads(
            d@,
            match r {
                Some(s) => Some(s@),
                None => None,
            },
        ),
{
    let ghost v = choose|v: SemView| is_storable(v) && #[trigger] store_bytes(v) == d@;
    let ghost possible = stands_for(d@, v);
    proof {
        if possible {
            lemma_layout(d@, v);
        }
        assert(d@.len() == d.len());
    }
    if d.len() < 28 {
        return None;
    }
    let magic = store_magic_bytes();
    if !bytes_at(d, 0, &magic) {
        return None;
    }
    let dim: u64 = read_le(d, 8, 4);
    if dim == 0 || dim > MAX_DIM as u64 {
        return None;
    }
    let ndocs: u64 = read_le(d, 12, 8);
    let nchunks: u64 = read_le(d, 20, 8);
    if ndocs > MAX_DOCS as u64 || nchunks > MAX_CHUNKS as u64 {
        return None;
    }
    proof {
        assert(nchunks * dim <= 16_000_000 * 16_384) by (nonlinear_arith)
            requires
                nchunks <= 16_000_000,
                dim <= 16_384,
        ;
        if possible {
            assert(v.vectors.len() == nchunks * dim);
        }
    }
    let tail: u64 = 4 * nchunks + 2 * (nchunks * dim);
    if (d.len() as u64) < 28 + 28 * ndocs + tail {
        return None;
    }
    let end: usize = d.len() - tail as usize;
    match read_docs(d, ndocs as usize, end, Ghost(v)) {
        None => None,
        Some(docs) => {
            let ghost w = doc_views(docs@);
            let covered: u64 = if docs.len() == 0 {
                0
            } else {
                docs[docs.len() - 1].chunk_start as u64 + docs[docs.len() - 1].chunk_count as u64
            };
            proof {
                if docs@.len() > 0 {
                    let k = docs@.len() - 1;
                    assert(w[k] == docs@[k]@);
                    assert(doc_in_place(w, k));
                }
                assert(covered == chunks_before(w, w.len() as int));
            }
            if covered != nchunks {
                return None;
            }
            let chunk_lines = read_lines(d, end, nchunks as usize);
            let at: usize = end + 4 * nchunks as usize;
            let vectors = read_vectors(d, at, (nchunks * dim) as usize);
            let store = SemStore { dim: dim as u32, docs, chunk_lines, vectors };
            proof {
                assert(store@.docs == w);
                lemma_assembled(d@, store@, end as int);
            }
            Some(store)
        },
    }
}

proof fn lemma_doc_in_longer(d: Seq<u8>, v: SemView, e: Seq<u8>, i: int)
    requires
        stands_for(d, v),
        d.is_prefix_of(e),
        0 <= i < v.docs.len(),
    ensures
        doc_stands(
            e,
            docs_end(v.docs, i),
            docs_end(v.docs, i + 1),
            chunks_before(v.docs, i) as int,
            v.docs[i],
        ),
{
    lemma_doc_at(d, v, i);
    let (from, to) = (docs_end(v.docs, i), docs_end(v.docs, i + 1));
    assert(d == e.subrange(0, d.len() as int));
    assert(e.subrange(from, to) =~= d.subrange(from, to));
}

#[verifier::spinoff_prover]
#[verifier::rlimit(40)]
proof fn lemma_docs_injective(d: Seq<u8>, v: SemView, e: Seq<u8>, w: SemView, n: int)
    requires
        stands_for(d, v),
        stands_for(e, w),
        d.is_prefix_of(e),
        v.docs.len() == w.docs.len(),
        0 <= n <= v.docs.len(),
    ensures
        v.docs.take(n) == w.docs.take(n),
    decreases n,
{
    if n == 0 {
        assert(v.docs.take(0) =~= w.docs.take(0));
    } else {
        let i = n - 1;
        lemma_docs_injective(d, v, e, w, i);
        assert forall|k: int| 0 <= k < i implies v.docs[k] == w.docs[k] by {
            assert(v.docs.take(i)[k] == w.docs.take(i)[k]);
        }
        lemma_chunks_prefix(v.docs, w.docs, i);
        lemma_doc_in_longer(d, v, e, i);
        lemma_doc_at(e, w, i);
        lemma_doc_unique(
            e,
            docs_end(v.docs, i),
            docs_end(v.docs, n),
            chunks_before(v.docs, i) as int,
            v.docs[i],
            docs_end(w.docs, n),
            w.docs[i],
        );
        assert(v.docs.take(n) =~= w.docs.take(n));
    }
}

proof fn lemma_lines_injective(a: Seq<u32>, b: Seq<u32>)
    requires
        lines_bytes(a) == lines_bytes(b),
    ensures
        a == b,
    decreases a.len(),
{
    lemma_lines_len(a);
    lemma_lines_len(b);
    if a.len() > 0 {
        let n = lines_bytes(a).len() as int;
        lemma_lines_len(a.drop_last());
        lemma_lines_len(b.drop_last());
        lemma_le_len(a.last() as nat, 4);
        lemma_le_len(b.last() as nat, 4);
        lemma_byte_ranges();
        lemma_from_le_of_le(a.last() as nat, 4);
        lemma_from_le_of_le(b.last() as nat, 4);
        assert(lines_bytes(a.drop_last()) =~= lines_bytes(a).take(n - 4));
        assert(lines_bytes(b.drop_last()) =~= lines_bytes(b).take(n - 4));
        assert(le(a.last() as nat, 4) =~= lines_bytes(a).skip(n - 4));
        assert(le(b.last() as nat, 4) =~= lines_bytes(b).skip(n - 4));
        lemma_lines_injective(a.drop_last(), b.drop_last());
        assert(a =~= a.drop_last().push(a.last()));
        assert(b =~= b.drop_last().push(b.last()));
    } else {
        assert(a =~= b);
    }
}

proof fn lemma_vectors_injective(a: Seq<u16>, b: Seq<u16>)
    requires
        vectors_bytes(a) == vectors_bytes(b),
    ensures
        a == b,
    decreases a.len(),
{
    lemma_vectors_len(a);
    lemma_vectors_len(b);
    if a.len() > 0 {
        let n = vectors_bytes(a).len() as int;
        lemma_vectors_len(a.drop_last());
        lemma_vectors_len(b.drop_last());
        lemma_le_len(a.last() as nat, 2);
        lemma_le_len(b.last() as nat, 2);
        reveal_with_fuel(byte_range, 3);
        lemma_from_le_of_le(a.last() as nat, 2);
        lemma_from_le_of_le(b.last() as nat, 2);
        assert(vectors_bytes(a.drop_last()) =~= vectors_bytes(a).take(n - 2));
        assert(vectors_bytes(b.drop_last()) =~= vectors_bytes(b).take(n - 2));
        assert(le(a.last() as nat, 2) =~= vectors_bytes(a).skip(n - 2));
        assert(le(b.last() as nat, 2) =~= vectors_bytes(b).skip(n - 2));
        lemma_vectors_injective(a.drop_last(), b.drop_last());
        assert(a =~= a.drop_last().push(a.last()));
        assert(b =~= b.drop_last().push(b.last()));
    } else {
        assert(a =~= b);
    }
}

/// A store file stands for one store only.
pub proof fn store_file_is_unambiguous(v: SemView, w: SemView)
    requires
        is_storable(v),
        is_storable(w),
        store_bytes(v) == store_bytes(w),
    ensures
        v == w,
{
    let d = store_bytes(v);
    lemma_layout(d, v);
    lemma_layout(d, w);
    assert(d =~= d.subrange(0, d.len() as int));
    lemma_docs_injective(d, v, d, w, v.docs.len() as int);
    assert(v.docs.take(v.docs.len() as int) =~= v.docs);
    assert(w.docs.take(w.docs.len() as int) =~= w.docs);
    lemma_header_len(v);
    lemma_lines_len(v.lines);
    lemma_lines_len(w.lines);
    lemma_vectors_len(v.vectors);
    lemma_vectors_len(w.vectors);
    let a = 28 + docs_bytes(v.docs).len() as int;
    let b = a + 4 * v.lines.len();
    lemma_header_len(w);
    assert(lines_bytes(v.lines) =~= d.subrange(a, b));
    assert(lines_bytes(w.lines) =~= d.subrange(a, b));
    assert(vectors_bytes(v.vectors) =~= d.skip(b));
    assert(vectors_bytes(w.vectors) =~= d.skip(b));
    lemma_lines_injective(v.lines, w.lines);
    lemma_vectors_injective(v.vectors, w.vectors);
}

/// No store file starts another one.
pub proof fn store_files_are_complete(v: SemView, w: SemView)
    requires
        is_storable(v),
        is_storable(w),
        store_bytes(v).is_prefix_of(store_bytes(w)),
    ensures
        v == w,
{
    let (d, e) = (store_bytes(v), store_bytes(w));
    lemma_layout(d, v);
    lemma_layout(e, w);
    assert(d == e.subrange(0, d.len() as int));
    assert(e.subrange(8, 12) =~= d.subrange(8, 12));
    assert(e.subrange(12, 20) =~= d.subrange(12, 20));
    assert(e.subrange(20, 28) =~= d.subrange(20, 28));
    lemma_docs_injective(d, v, e, w, v.docs.len() as int);
    assert(v.docs.take(v.docs.len() as int) =~= v.docs);
    assert(w.docs.take(w.docs.len() as int) =~= w.docs);
    assert(d =~= e);
    store_file_is_unambiguous(v, w);
}

/// A store that was saved is loaded as it was. Of a file that was cut, or has
/// something behind it, nothing is loaded.
pub proof fn saved_stores_are_loaded(
    v: SemView,
    n: int,
    more: Seq<u8>,
    whole: Option<SemView>,
    cut: Option<SemView>,
    lengthened: Option<SemView>,
)
    requires
        is_storable(v),
        0 <= n < store_bytes(v).len(),
        more.len() > 0,
        loads(store_bytes(v), whole),
        loads(store_bytes(v).take(n), cut),
        loads(store_bytes(v) + more, lengthened),
    ensures
        whole == Some(v),
        cut is None,
        lengthened is None,
{
    let d = store_bytes(v);
    if let Some(w) = whole {
        store_file_is_unambiguous(v, w);
    }
    if let Some(w) = cut {
        assert(d.take(n) =~= d.subrange(0, n));
        store_files_are_complete(w, v);
    }
    if let Some(w) = lengthened {
        assert(d =~= (d + more).subrange(0, d.len() as int));
        store_files_are_complete(v, w);
    }
}

// ----------------------------------------------------------------- building

/// A chunk's line and its vector.
pub type ChunkVector = (u32, Vec<u16>);

pub open spec fn chunk_views(chunks: Seq<ChunkVector>) -> Seq<(u32, Seq<u16>)> {
    chunks.map_values(|c: ChunkVector| (c.0, c.1@))
}

/// Chunks whose vector has the store's dimension.
pub open spec fn fitting(dim: u32, chunks: Seq<(u32, Seq<u16>)>) -> Seq<(u32, Seq<u16>)>
    decreases chunks.len(),
{
    if chunks.len() == 0 {
        Seq::empty()
    } else if chunks.last().1.len() == dim {
        fitting(dim, chunks.drop_last()).push(chunks.last())
    } else {
        fitting(dim, chunks.drop_last())
    }
}

pub open spec fn lines_of(chunks: Seq<(u32, Seq<u16>)>) -> Seq<u32> {
    chunks.map_values(|c: (u32, Seq<u16>)| c.0)
}

pub open spec fn bits_of(chunks: Seq<(u32, Seq<u16>)>) -> Seq<u16>
    decreases chunks.len(),
{
    if chunks.len() == 0 {
        Seq::empty()
    } else {
        bits_of(chunks.drop_last()) + chunks.last().1
    }
}

/// The store with one more document; chunks of another dimension are left out.
pub open spec fn with_doc(
    v: SemView,
    path: Seq<char>,
    mtime: i64,
    size: u64,
    chunks: Seq<(u32, Seq<u16>)>,
) -> SemView {
    let kept = fitting(v.dim, chunks);
    SemView {
        dim: v.dim,
        docs: v.docs.push(
            DocView {
                path,
                mtime,
                size,
                chunk_start: v.lines.len() as u32,
                chunk_count: kept.len() as u32,
            },
        ),
        lines: v.lines + lines_of(kept),
        vectors: v.vectors + bits_of(kept),
    }
}

proof fn lemma_fitting_bits(dim: u32, chunks: Seq<(u32, Seq<u16>)>)
    requires
        forall|i: int| 0 <= i < chunks.len() ==> (#[trigger] chunks[i]).1.len() == dim,
    ensures
        bits_of(chunks).len() == chunks.len() * dim as nat,
    decreases chunks.len(),
{
    if chunks.len() > 0 {
        lemma_fitting_bits(dim, chunks.drop_last());
        assert(chunks.len() * dim as nat == (chunks.len() - 1) * dim as nat + dim as nat)
            by (nonlinear_arith)
            requires
                chunks.len() > 0,
        ;
    } else {
        assert(0 * dim as nat == 0);
    }
}

/// A document that follows the others keeps the store consistent.
proof fn lemma_append(v: SemView, w: SemView, n: nat)
    requires
        is_consistent(v),
        w.dim == v.dim,
        v.lines.len() + n <= u32::MAX,
        w.lines.len() == v.lines.len() + n,
        w.vectors.len() == v.vectors.len() + n * v.dim as nat,
        w.docs.len() == v.docs.len() + 1,
        w.docs.drop_last() == v.docs,
        w.docs.last().chunk_start == v.lines.len(),
        w.docs.last().chunk_count == n,
    ensures
        is_consistent(w),
{
    assert((v.lines.len() + n) * v.dim as nat == v.lines.len() * v.dim as nat + n * v.dim as nat)
        by (nonlinear_arith);
    let k = v.docs.len() as int;
    assert forall|i: int| 0 <= i < k implies w.docs[i] == v.docs[i] by {
        assert(w.docs.drop_last()[i] == w.docs[i]);
    }
    lemma_chunks_prefix(w.docs, v.docs, k);
    assert forall|i: int| 0 <= i < w.docs.len() implies (#[trigger] w.docs[i]).chunk_start
        == chunks_before(w.docs, i) by {
        if i < k {
            lemma_chunks_prefix(w.docs, v.docs, i);
            assert(v.docs[i].chunk_start == chunks_before(v.docs, i));
        }
    }
}

proof fn lemma_fitting(dim: u32, chunks: Seq<(u32, Seq<u16>)>)
    ensures
        forall|i: int|
            0 <= i < fitting(dim, chunks).len() ==> (#[trigger] fitting(dim, chunks)[i]).1.len()
                == dim,
        fitting(dim, chunks).len() <= chunks.len(),
    decreases chunks.len(),
{
    if chunks.len() > 0 {
        lemma_fitting(dim, chunks.drop_last());
    }
}

impl SemStore {
    /// Appends a document with its chunks; chunks of another dimension are left
    /// out.
    pub fn push_doc(&mut self, path: &str, mtime: i64, size: u64, chunks: &Vec<ChunkVector>)
        requires
            old(self)@.lines.len() + chunks@.len() <= u32::MAX,
        ensures
            final(self)@ == with_doc(old(self)@, path@, mtime, size, chunk_views(chunks@)),
            is_consistent(old(self)@) ==> is_consistent(final(self)@),
    {
        let ghost v = self@;
        let ghost all = chunk_views(chunks@);
        let chunk_start: u32 = self.chunk_lines.len() as u32;
        let mut count: u32 = 0;
        let mut i: usize = 0;
        proof {
            assert(all.take(0) =~= Seq::empty());
            assert(lines_of(Seq::empty()) =~= Seq::empty());
        }
        while i < chunks.len()
            invariant
                i <= chunks@.len(),
                v.lines.len() + chunks@.len() <= u32::MAX,
                all == chunk_views(chunks@),
                count == fitting(v.dim, all.take(i as int)).len(),
                count <= i,
                self.dim == v.dim,
                self.docs@ == old(self).docs@,
                self.chunk_lines@ == v.lines + lines_of(fitting(v.dim, all.take(i as int))),
                self.vectors@ == v.vectors + bits_of(fitting(v.dim, all.take(i as int))),
            decreases chunks@.len() - i,
        {
            let ghost before = fitting(v.dim, all.take(i as int));
            let ghost after = fitting(v.dim, all.take(i + 1));
            proof {
                assert(all.take(i + 1).drop_last() =~= all.take(i as int));
                assert(all.take(i + 1).last() == (chunks@[i as int].0, chunks@[i as int].1@));
            }
            if chunks[i].1.len() == self.dim as usize {
                self.chunk_lines.push(chunks[i].0);
                let bits = &chunks[i].1;
                let ghost start = self.vectors@;
                let mut k: usize = 0;
                while k < bits.len()
                    invariant
                        k <= bits@.len(),
                        self.vectors@ == start + bits@.take(k as int),
                        self.dim == v.dim,
                        self.docs@ == old(self).docs@,
                        self.chunk_lines@ == (v.lines + lines_of(before)).push(chunks@[i as int].0),
                    decreases bits@.len() - k,
                {
                    self.vectors.push(bits[k]);
                    k += 1;
                    assert(self.vectors@ =~= start + bits@.take(k as int));
                }
                assert(bits@.take(k as int) =~= bits@);
                count += 1;
                proof {
                    assert(after.drop_last() =~= before);
                    assert(lines_of(after) =~= lines_of(before).push(chunks@[i as int].0));
                    assert(self.vectors@ =~= v.vectors + bits_of(after));
                }
            }
            i += 1;
        }
        assert(all.take(i as int) =~= all);
        let ghost docs = self.docs@;
        self.docs.push(
            DocEntry { path: path.to_owned(), mtime, size, chunk_start, chunk_count: count },
        );
        proof {
            let kept = fitting(v.dim, all);
            lemma_fitting(v.dim, all);
            lemma_fitting_bits(v.dim, kept);
            assert(doc_views(self.docs@) =~= v.docs.push(self.docs@.last()@));
            let w = self@;
            assert(w.docs =~= with_doc(v, path@, mtime, size, all).docs);
            assert(w.docs.drop_last() =~= v.docs);
            if is_consistent(v) {
                lemma_append(v, w, kept.len());
            }
        }
    }
}

/// The store with document `i` of another one copied to its end.
pub open spec fn with_copy(v: SemView, prior: SemView, i: int) -> SemView {
    let d = prior.docs[i];
    let from = d.chunk_start as int;
    let to = from + d.chunk_count;
    SemView {
        dim: v.dim,
        docs: v.docs.push(
            DocView {
                path: d.path,
                mtime: d.mtime,
                size: d.size,
                chunk_start: v.lines.len() as u32,
                chunk_count: d.chunk_count,
            },
        ),
        lines: v.lines + prior.lines.subrange(from, to),
        vectors: v.vectors + prior.vectors.subrange(from * prior.dim, to * prior.dim),
    }
}

/// A document's chunks and vectors are within the store.
proof fn lemma_doc_range(v: SemView, i: int)
    requires
        is_consistent(v),
        0 <= i < v.docs.len(),
    ensures
        v.docs[i].chunk_start + v.docs[i].chunk_count <= v.lines.len(),
        (v.docs[i].chunk_start + v.docs[i].chunk_count) * v.dim <= v.vectors.len(),
        v.docs[i].chunk_start * v.dim + v.docs[i].chunk_count * v.dim == (v.docs[i].chunk_start
            + v.docs[i].chunk_count) * v.dim,
        0 <= v.docs[i].chunk_start * v.dim,
        0 <= v.docs[i].chunk_count * v.dim,
{
    lemma_chunks_monotone(v.docs, i + 1, v.docs.len() as int);
    let a = v.docs[i].chunk_start as int;
    let b = v.docs[i].chunk_count as int;
    let n = v.lines.len() as int;
    let m = v.dim as int;
    assert((a + b) * m <= n * m) by (nonlinear_arith)
        requires
            0 <= a + b <= n,
            0 <= m,
    ;
    assert(a * m + b * m == (a + b) * m) by (nonlinear_arith);
    assert(0 <= a * m) by (nonlinear_arith)
        requires
            0 <= a,
            0 <= m,
    ;
    assert(0 <= b * m) by (nonlinear_arith)
        requires
            0 <= b,
            0 <= m,
    ;
}

impl SemStore {
    /// Appends document `i` of a prior store with its lines and vectors.
    pub fn copy_doc_from(&mut self, prior: &SemStore, i: usize)
        requires
            is_consistent(prior@),
            i < prior@.docs.len(),
            old(self)@.dim == prior@.dim,
            old(self)@.lines.len() + prior@.docs[i as int].chunk_count <= u32::MAX,
        ensures
            final(self)@ == with_copy(old(self)@, prior@, i as int),
            is_consistent(old(self)@) ==> is_consistent(final(self)@),
    {
        let ghost v = self@;
        let ghost p = prior@;
        let entry = &prior.docs[i];
        proof {
            assert(p.docs[i as int] == prior.docs@[i as int]@);
            lemma_doc_range(p, i as int);
            assert(prior.vectors@.len() == prior.vectors.len());
            assert(prior.chunk_lines@.len() == prior.chunk_lines.len());
        }
        let chunk_start: u32 = self.chunk_lines.len() as u32;
        let from: usize = entry.chunk_start as usize;
        let to: usize = from + entry.chunk_count as usize;
        let mut c: usize = from;
        while c < to
            invariant
                from <= c <= to <= prior.chunk_lines@.len(),
                p == prior@,
                self.dim == v.dim,
                self.docs@ == old(self).docs@,
                self.vectors@ == v.vectors,
                self.chunk_lines@ == v.lines + p.lines.subrange(from as int, c as int),
            decreases to - c,
        {
            self.chunk_lines.push(prior.chunk_lines[c]);
            c += 1;
            assert(self.chunk_lines@ =~= v.lines + p.lines.subrange(from as int, c as int));
        }
        let start: usize = from * self.dim as usize;
        let end: usize = to * self.dim as usize;
        let mut k: usize = start;
        while k < end
            invariant
                start <= k <= end <= prior.vectors@.len(),
                p == prior@,
                self.dim == v.dim,
                self.docs@ == old(self).docs@,
                self.chunk_lines@ == v.lines + p.lines.subrange(from as int, to as int),
                self.vectors@ == v.vectors + p.vectors.subrange(start as int, k as int),
            decreases end - k,
        {
            self.vectors.push(prior.vectors[k]);
            k += 1;
            assert(self.vectors@ =~= v.vectors + p.vectors.subrange(start as int, k as int));
        }
        self.docs.push(
            DocEntry {
                path: entry.path.as_str().to_owned(),
                mtime: entry.mtime,
                size: entry.size,
                chunk_start,
                chunk_count: entry.chunk_count,
            },
        );
        proof {
            let w = self@;
            assert(doc_views(self.docs@) =~= v.docs.push(self.docs@.last()@));
            assert(w.docs =~= with_copy(v, p, i as int).docs);
            assert(w.docs.drop_last() =~= v.docs);
            if is_consistent(v) {
                lemma_append(v, w, p.docs[i as int].chunk_count as nat);
            }
        }
    }
}

/// A chunk as a value: its text and its line.
#[verifier::ext_equal]
pub struct ChunkView {
    pub text: Seq<char>,
    pub line_start: u32,
}

impl View for Chunk {
    type V = ChunkView;

    open spec fn view(&self) -> ChunkView {
        ChunkView { text: self.text@, line_start: self.line_start }
    }
}

pub open spec fn chunk_texts(chunks: Seq<Chunk>) -> Seq<ChunkView> {
    chunks.map_values(|c: Chunk| c@)
}

/// The chunks that a document is embedded in.
pub open spec fn pieces(text: Seq<char>) -> Seq<ChunkView> {
    chunk_spans(text, 0, CHUNK_CHARS as int, CHUNK_OVERLAP as int).map_values(
        |span: (int, int)|
            ChunkView {
                text: text.subrange(span.0, span.1),
                line_start: (newlines(text, span.0) + 1) as u32,
            },
    )
}

/// There are no more chunks than characters.
proof fn lemma_span_count(s: Seq<char>, start: int, target: int, overlap: int)
    requires
        target > 0,
        overlap >= 0,
        0 <= start <= s.len(),
    ensures
        chunk_spans(s, start, target, overlap).len() <= s.len() - start,
    decreases s.len() - start,
{
    if start < s.len() {
        lemma_chunk_end(s, start, target);
        let end = chunk_end(s, start, target);
        if end < s.len() {
            lemma_span_count(s, next_start(start, end, overlap), target, overlap);
        }
    }
}

#[derive(Debug, Clone, Copy, PartialEq, Eq, Structural)]
pub struct BuildStats {
    pub embedded: usize,
    pub reused: usize,
    pub skipped: usize,
}

impl Default for BuildStats {
    fn default() -> (r: BuildStats)
        ensures
            r == (BuildStats { embedded: 0, reused: 0, skipped: 0 }),
    {
        BuildStats { embedded: 0, reused: 0, skipped: 0 }
    }
}

/// A document whose chunks wait for their vectors.
#[derive(Debug)]
pub struct PendingDoc {
    pub path: String,
    pub mtime: i64,
    pub size: u64,
    pub chunks: Vec<Chunk>,
}

#[verifier::ext_equal]
pub struct PendingView {
    pub path: Seq<char>,
    pub mtime: i64,
    pub size: u64,
    pub chunks: Seq<ChunkView>,
}

impl View for PendingDoc {
    type V = PendingView;

    open spec fn view(&self) -> PendingView {
        PendingView {
            path: self.path@,
            mtime: self.mtime,
            size: self.size,
            chunks: chunk_texts(self.chunks@),
        }
    }
}

pub open spec fn pending_views(docs: Seq<PendingDoc>) -> Seq<PendingView> {
    docs.map_values(|d: PendingDoc| d@)
}

/// How many chunks wait in the first `n` documents.
pub open spec fn waiting(docs: Seq<PendingView>, n: int) -> nat
    decreases n,
{
    if n <= 0 {
        0
    } else {
        waiting(docs, n - 1) + docs[n - 1].chunks.len()
    }
}

/// The texts that the first `n` waiting documents want embedded.
pub open spec fn batch_of(docs: Seq<PendingView>, n: int) -> Seq<Seq<char>>
    decreases n,
{
    if n <= 0 {
        Seq::empty()
    } else {
        batch_of(docs, n - 1) + docs[n - 1].chunks.map_values(|c: ChunkView| c.text)
    }
}

/// The chunks of a document, each with the vector that came back for it.
pub open spec fn paired(
    chunks: Seq<ChunkView>,
    vectors: Seq<Seq<u16>>,
    from: int,
) -> Seq<(u32, Seq<u16>)> {
    Seq::new(chunks.len(), |k: int| (chunks[k].line_start, vectors[from + k]))
}

/// The store after the first `n` waiting documents got their vectors.
pub open spec fn absorbed(
    v: SemView,
    docs: Seq<PendingView>,
    vectors: Seq<Seq<u16>>,
    n: int,
) -> SemView
    decreases n,
{
    if n <= 0 {
        v
    } else {
        let d = docs[n - 1];
        with_doc(
            absorbed(v, docs, vectors, n - 1),
            d.path,
            d.mtime,
            d.size,
            paired(d.chunks, vectors, waiting(docs, n - 1) as int),
        )
    }
}

pub open spec fn vector_views(vectors: Seq<Vec<u16>>) -> Seq<Seq<u16>> {
    vectors.map_values(|v: Vec<u16>| v@)
}

/// As many vectors as texts, each of the store's dimension.
pub open spec fn has_shape(dim: u32, vectors: Seq<Seq<u16>>, count: nat) -> bool {
    &&& vectors.len() == count
    &&& forall|i: int| 0 <= i < vectors.len() ==> (#[trigger] vectors[i]).len() == dim
}

/// The last document of that path.
pub open spec fn last_doc(docs: Seq<DocView>, path: Seq<char>, n: int) -> int
    decreases n,
{
    if n <= 0 {
        -1
    } else if docs[n - 1].path == path {
        n - 1
    } else {
        last_doc(docs, path, n - 1)
    }
}

/// The document of a prior store that stands for an unchanged file.
pub open spec fn reusable_doc(
    prior: SemView,
    dim: u32,
    path: Seq<char>,
    mtime: i64,
    size: u64,
) -> Option<int> {
    let i = last_doc(prior.docs, path, prior.docs.len() as int);
    if prior.dim == dim && i >= 0 && prior.docs[i].mtime == mtime && prior.docs[i].size == size {
        Some(i)
    } else {
        None
    }
}

/// Chunks that wait before a batch goes to the embedder.
pub const BATCH_CHUNKS: usize = 64;

/// A store under construction. Unchanged documents are copied from a prior
/// store; the others wait in batches for their vectors.
#[derive(Debug)]
pub struct Builder {
    store: SemStore,
    stats: BuildStats,
    pending: Vec<PendingDoc>,
}

#[verifier::ext_equal]
pub struct BuilderView {
    pub store: SemView,
    pub stats: BuildStats,
    pub pending: Seq<PendingView>,
}

impl View for Builder {
    type V = BuilderView;

    closed spec fn view(&self) -> BuilderView {
        BuilderView {
            store: self.store@,
            stats: self.stats,
            pending: pending_views(self.pending@),
        }
    }
}

/// How many files the builder has dealt with.
pub open spec fn files_seen(b: BuilderView) -> int {
    b.stats.embedded + b.stats.reused + b.stats.skipped + b.pending.len()
}

/// The waiting chunks are a full batch.
pub open spec fn batch_due(b: BuilderView) -> bool {
    waiting(b.pending, b.pending.len() as int) >= BATCH_CHUNKS
}

proof fn lemma_waiting_prefix(a: Seq<PendingView>, b: Seq<PendingView>, n: int)
    requires
        0 <= n <= a.len(),
        n <= b.len(),
        forall|i: int| 0 <= i < n ==> a[i] == b[i],
    ensures
        waiting(a, n) == waiting(b, n),
    decreases n,
{
    if n > 0 {
        lemma_waiting_prefix(a, b, n - 1);
    }
}

proof fn lemma_waiting_monotone(docs: Seq<PendingView>, i: int, j: int)
    requires
        0 <= i <= j,
    ensures
        waiting(docs, i) <= waiting(docs, j),
    decreases j - i,
{
    if i < j {
        lemma_waiting_monotone(docs, i, j - 1);
    }
}

proof fn lemma_all_fit(dim: u32, chunks: Seq<(u32, Seq<u16>)>)
    requires
        forall|i: int| 0 <= i < chunks.len() ==> (#[trigger] chunks[i]).1.len() == dim,
    ensures
        fitting(dim, chunks) == chunks,
    decreases chunks.len(),
{
    if chunks.len() > 0 {
        lemma_all_fit(dim, chunks.drop_last());
        assert(chunks.drop_last().push(chunks.last()) =~= chunks);
    } else {
        assert(fitting(dim, chunks) =~= chunks);
    }
}

/// The prior document that can be reused for a file, if its time and size are
/// unchanged.
pub fn find_reusable(prior: &SemStore, dim: u32, path: &str, mtime: i64, size: u64) -> (r: Option<
    usize,
>)
    ensures
        match r {
            Some(i) => i < prior@.docs.len() && reusable_doc(prior@, dim, path@, mtime, size)
                == Some(i as int),
            None => reusable_doc(prior@, dim, path@, mtime, size) is None,
        },
{
    if prior.dim != dim {
        return None;
    }
    let mut i: usize = prior.docs.len();
    while i > 0
        invariant
            i <= prior.docs@.len(),
            prior.dim == dim,
            last_doc(prior@.docs, path@, prior@.docs.len() as int) == last_doc(
                prior@.docs,
                path@,
                i as int,
            ),
        decreases i,
    {
        let doc = &prior.docs[i - 1];
        assert(prior@.docs[i - 1] == prior.docs@[i - 1]@);
        if same(doc.path.as_str(), path) {
            if doc.mtime == mtime && doc.size == size {
                return Some(i - 1);
            }
            return None;
        }
        i -= 1;
    }
    None
}

impl Builder {
    pub closed spec fn wf(&self) -> bool {
        is_consistent(self.store@)
    }

    pub fn new(dim: u32) -> (r: Builder)
        ensures
            r.wf(),
            r@.store == (SemView {
                dim,
                docs: Seq::empty(),
                lines: Seq::empty(),
                vectors: Seq::empty(),
            }),
            r@.stats == (BuildStats { embedded: 0, reused: 0, skipped: 0 }),
            r@.pending == Seq::<PendingView>::empty(),
    {
        let r = Builder { store: SemStore::new(dim), stats: BuildStats::default(), pending: Vec::new() };
        assert(pending_views(r.pending@) =~= Seq::empty());
        r
    }

    /// Copies an unchanged document from a prior store.
    pub fn reuse(&mut self, prior: &SemStore, i: usize)
        requires
            old(self).wf(),
            is_consistent(prior@),
            i < prior@.docs.len(),
            prior@.dim == old(self)@.store.dim,
            old(self)@.store.lines.len() + prior@.docs[i as int].chunk_count <= u32::MAX,
            old(self)@.stats.reused < usize::MAX,
        ensures
            final(self).wf(),
            final(self)@.store == with_copy(old(self)@.store, prior@, i as int),
            final(self)@.stats == (BuildStats {
                reused: (old(self)@.stats.reused + 1) as usize,
                ..old(self)@.stats
            }),
            final(self)@.pending == old(self)@.pending,
            files_seen(final(self)@) == files_seen(old(self)@) + 1,
    {
        self.store.copy_doc_from(prior, i);
        self.stats.reused += 1;
    }

    /// Takes a document to embed; one that cannot be read, or holds no text, is
    /// skipped. Returns whether a full batch waits.
    pub fn offer(&mut self, path: &str, mtime: i64, size: u64, text: Option<&str>) -> (r: bool)
        requires
            old(self).wf(),
            !batch_due(old(self)@),
            text matches Some(t) ==> t@.len() < u32::MAX - BATCH_CHUNKS,
            old(self)@.stats.skipped < usize::MAX,
        ensures
            final(self).wf(),
            r == batch_due(final(self)@),
            final(self)@.store == old(self)@.store,
            text is None || pieces(text->Some_0@).len() == 0 ==> final(self)@.stats == (BuildStats {
                skipped: (old(self)@.stats.skipped + 1) as usize,
                ..old(self)@.stats
            }) && final(self)@.pending == old(self)@.pending,
            text is Some && pieces(text->Some_0@).len() > 0 ==> final(self)@.stats == old(
                self,
            )@.stats && final(self)@.pending == old(self)@.pending.push(
                PendingView { path: path@, mtime, size, chunks: pieces(text->Some_0@) },
            ),
            files_seen(final(self)@) == files_seen(old(self)@) + 1,
    {
        let text = match text {
            None => {
                self.stats.skipped += 1;
                return false;
            },
            Some(t) => t,
        };
        let ghost s = text@;
        let chunks = chunk_text(text, CHUNK_CHARS, CHUNK_OVERLAP);
        proof {
            lemma_span_count(s, 0, CHUNK_CHARS as int, CHUNK_OVERLAP as int);
            assert(chunk_texts(chunks@) =~= pieces(s));
        }
        if chunks.len() == 0 {
            self.stats.skipped += 1;
            return false;
        }
        let ghost before = pending_views(self.pending@);
        let doc = PendingDoc { path: path.to_owned(), mtime, size, chunks };
        let ghost d = doc@;
        self.pending.push(doc);
        proof {
            let after = pending_views(self.pending@);
            assert(after =~= before.push(d));
            lemma_waiting_prefix(after, before, before.len() as int);
        }
        let mut total: usize = 0;
        let mut i: usize = 0;
        while i < self.pending.len()
            invariant
                i <= self.pending@.len(),
                total == waiting(pending_views(self.pending@), i as int),
                waiting(pending_views(self.pending@), self.pending@.len() as int) < u32::MAX,
            decreases self.pending@.len() - i,
        {
            proof {
                lemma_waiting_monotone(
                    pending_views(self.pending@),
                    i + 1,
                    self.pending@.len() as int,
                );
                assert(pending_views(self.pending@)[i as int] == self.pending@[i as int]@);
            }
            total += self.pending[i].chunks.len();
            i += 1;
        }
        total >= BATCH_CHUNKS
    }

    /// The texts to embed next, in order; none if nothing waits.
    pub fn batch(&self) -> (r: Vec<String>)
        ensures
            texts(r@) == batch_of(self@.pending, self@.pending.len() as int),
    {
        let mut out: Vec<String> = Vec::new();
        let mut i: usize = 0;
        assert(texts(out@) =~= Seq::empty());
        while i < self.pending.len()
            invariant
                i <= self.pending@.len(),
                texts(out@) == batch_of(pending_views(self.pending@), i as int),
            decreases self.pending@.len() - i,
        {
            let doc = &self.pending[i];
            assert(pending_views(self.pending@)[i as int] == doc@);
            let ghost wanted = doc@.chunks.map_values(|c: ChunkView| c.text);
            let ghost before = texts(out@);
            let mut k: usize = 0;
            assert(before + wanted.take(0) =~= before);
            while k < doc.chunks.len()
                invariant
                    k <= doc.chunks@.len(),
                    wanted == doc@.chunks.map_values(|c: ChunkView| c.text),
                    texts(out@) == before + wanted.take(k as int),
                decreases doc.chunks@.len() - k,
            {
                let text = doc.chunks[k].text.as_str().to_owned();
                proof {
                    lemma_texts_push(out@, text);
                    assert(wanted[k as int] == text@);
                }
                out.push(text);
                k += 1;
                assert(texts(out@) =~= before + wanted.take(k as int));
            }
            assert(wanted.take(k as int) =~= wanted);
            i += 1;
        }
        out
    }

    /// Takes the vectors for the waiting texts. Refused, with nothing changed,
    /// unless there is one of the store's dimension for each.
    pub fn accept(&mut self, vectors: &Vec<Vec<u16>>) -> (r: Result<(), String>)
        requires
            old(self).wf(),
            old(self)@.store.lines.len() + waiting(
                old(self)@.pending,
                old(self)@.pending.len() as int,
            ) <= u32::MAX,
            old(self)@.stats.embedded + old(self)@.pending.len() <= usize::MAX,
        ensures
            final(self).wf(),
            ({
                let b = old(self)@;
                let n = b.pending.len() as int;
                let bits = vector_views(vectors@);
                match r {
                    Ok(_) => has_shape(b.store.dim, bits, waiting(b.pending, n)) && final(self)@
                        == (BuilderView {
                        store: absorbed(b.store, b.pending, bits, n),
                        stats: BuildStats { embedded: (b.stats.embedded + n) as usize, ..b.stats },
                        pending: Seq::empty(),
                    }),
                    Err(e) => !has_shape(b.store.dim, bits, waiting(b.pending, n)) && final(self)@
                        == b && e@ == "embedder returned vectors with the wrong shape"@,
                }
            }),
            files_seen(final(self)@) == files_seen(old(self)@),
    {
        let ghost b = self@;
        let ghost bits = vector_views(vectors@);
        let n: usize = self.pending.len();
        let mut total: usize = 0;
        let mut i: usize = 0;
        while i < self.pending.len()
            invariant
                i <= self.pending@.len(),
                b == self@,
                total == waiting(b.pending, i as int),
                waiting(b.pending, b.pending.len() as int) <= u32::MAX,
            decreases self.pending@.len() - i,
        {
            proof {
                lemma_waiting_monotone(b.pending, i + 1, b.pending.len() as int);
                assert(b.pending[i as int] == self.pending@[i as int]@);
            }
            total += self.pending[i].chunks.len();
            i += 1;
        }
        if vectors.len() != total {
            return Err("embedder returned vectors with the wrong shape".to_owned());
        }
        let mut i: usize = 0;
        while i < vectors.len()
            invariant
                i <= vectors@.len(),
                b == self@,
                bits == vector_views(vectors@),
                forall|k: int| 0 <= k < i ==> (#[trigger] bits[k]).len() == b.store.dim,
                is_consistent(self.store@),
            decreases vectors@.len() - i,
        {
            assert(bits[i as int] == vectors@[i as int]@);
            if vectors[i].len() != self.store.dim as usize {
                return Err("embedder returned vectors with the wrong shape".to_owned());
            }
            i += 1;
        }
        assert(has_shape(b.store.dim, bits, waiting(b.pending, b.pending.len() as int)));
        let mut at: usize = 0;
        let mut i: usize = 0;
        while i < self.pending.len()
            invariant
                i <= self.pending@.len(),
                self.pending@.len() == n,
                pending_views(self.pending@) == b.pending,
                self.stats == b.stats,
                bits == vector_views(vectors@),
                has_shape(b.store.dim, bits, waiting(b.pending, n as int)),
                b.store.lines.len() + waiting(b.pending, n as int) <= u32::MAX,
                at == waiting(b.pending, i as int),
                self.store@ == absorbed(b.store, b.pending, bits, i as int),
                self.store@.dim == b.store.dim,
                self.store@.lines.len() == b.store.lines.len() + waiting(b.pending, i as int),
                is_consistent(self.store@),
            decreases self.pending@.len() - i,
        {
            let doc = &self.pending[i];
            proof {
                assert(b.pending[i as int] == doc@);
                lemma_waiting_monotone(b.pending, i + 1, n as int);
            }
            let ghost pairs_wanted = paired(doc@.chunks, bits, at as int);
            let count: usize = doc.chunks.len();
            let mut pairs: Vec<ChunkVector> = Vec::new();
            let mut k: usize = 0;
            while k < count
                invariant
                    k <= count == doc.chunks@.len(),
                    pairs@.len() == k,
                    at + count <= vectors.len(),
                    bits == vector_views(vectors@),
                    pairs_wanted == paired(doc@.chunks, bits, at as int),
                    forall|j: int|
                        0 <= j < k ==> (#[trigger] chunk_views(pairs@)[j]) == pairs_wanted[j],
                decreases count - k,
            {
                let line: u32 = doc.chunks[k].line_start;
                let vector = copy_bits(&vectors[at + k]);
                let ghost before = pairs@;
                pairs.push((line, vector));
                proof {
                    let now = chunk_views(pairs@);
                    assert(bits[at + k] == vectors@[at + k]@);
                    assert(doc@.chunks[k as int] == doc.chunks@[k as int]@);
                    assert forall|j: int| 0 <= j < k + 1 implies (#[trigger] now[j])
                        == pairs_wanted[j] by {
                        if j < k {
                            assert(now[j] == chunk_views(before)[j]);
                        }
                    }
                }
                k += 1;
            }
            assert(chunk_views(pairs@) =~= pairs_wanted);
            proof {
                assert forall|j: int| 0 <= j < pairs_wanted.len() implies (
                #[trigger] pairs_wanted[j]).1.len() == b.store.dim by {
                    assert(bits[at + j].len() == b.store.dim);
                }
                lemma_all_fit(b.store.dim, pairs_wanted);
            }
            let path = doc.path.as_str().to_owned();
            let mtime: i64 = doc.mtime;
            let size: u64 = doc.size;
            self.store.push_doc(&path, mtime, size, &pairs);
            at += count;
            i += 1;
        }
        self.stats.embedded += n;
        self.pending = Vec::new();
        assert(pending_views(self.pending@) =~= Seq::empty());
        Ok(())
    }

    /// The finished store. Nothing waits any more.
    pub fn finish(self) -> (r: (SemStore, BuildStats))
        requires
            self.wf(),
            self@.pending.len() == 0,
        ensures
            r.0@ == self@.store,
            r.1 == self@.stats,
            is_consistent(r.0@),
            files_seen(self@) == r.1.embedded + r.1.reused + r.1.skipped,
    {
        (self.store, self.stats)
    }
}

fn copy_bits(v: &Vec<u16>) -> (r: Vec<u16>)
    ensures
        r@ == v@,
{
    let mut out: Vec<u16> = Vec::new();
    let mut i: usize = 0;
    while i < v.len()
        invariant
            i <= v@.len(),
            out@ == v@.take(i as int),
        decreases v@.len() - i,
    {
        out.push(v[i]);
        i += 1;
        assert(out@ =~= v@.take(i as int));
    }
    assert(v@.take(i as int) =~= v@);
    out
}

// ------------------------------------------------------------------ ranking

/// The score is a finite number (32-bit float, given by its bits).
pub open spec fn is_finite(bits: u32) -> bool {
    bits % 0x8000_0000 < 0x7f80_0000
}

/// An integer that orders finite scores as the numbers themselves; both zeros
/// are equal.
pub open spec fn score_value(bits: u32) -> int {
    if bits >= 0x8000_0000 {
        -(bits - 0x8000_0000)
    } else {
        bits as int
    }
}

/// An integer, not negative, that orders scores totally: negative zero comes
/// below zero.
pub open spec fn score_key(bits: u32) -> int {
    if bits >= 0x8000_0000 {
        0xffff_ffff - bits
    } else {
        bits + 0x8000_0000
    }
}

fn value_of(bits: u32) -> (r: i64)
    ensures
        r == score_value(bits),
{
    if bits >= 0x8000_0000 {
        -((bits - 0x8000_0000) as i64)
    } else {
        bits as i64
    }
}

fn key_of(bits: u32) -> (r: u64)
    ensures
        r == score_key(bits),
{
    if bits >= 0x8000_0000 {
        (0xffff_ffff - bits) as u64
    } else {
        bits as u64 + 0x8000_0000
    }
}

/// The first of the best chunks from `from` up to `to`, or -1 if no score is a
/// number.
pub open spec fn best_chunk(scores: Seq<u32>, from: int, to: int) -> int
    decreases to - from,
{
    if to <= from {
        -1
    } else {
        let best = best_chunk(scores, from, to - 1);
        if is_finite(scores[to - 1]) && (best < 0 || score_value(scores[to - 1]) > score_value(
            scores[best],
        )) {
            to - 1
        } else {
            best
        }
    }
}

proof fn lemma_best_chunk(scores: Seq<u32>, from: int, to: int)
    requires
        0 <= from,
    ensures
        best_chunk(scores, from, to) == -1 || from <= best_chunk(scores, from, to) < to,
    decreases to - from,
{
    if to > from {
        lemma_best_chunk(scores, from, to - 1);
    }
}

/// The document is admitted by the filters.
pub open spec fn doc_passes(f: FilterSet, d: DocView) -> bool {
    f == no_filters() || (path_passes(f, d.path) && meta_passes(
        f,
        FileMeta { mtime: d.mtime, size: d.size },
    ))
}

/// The chunk by which document `i` is found, or -1 if it is not.
pub open spec fn found_chunk(v: SemView, f: FilterSet, scores: Seq<u32>, i: int) -> int {
    let d = v.docs[i];
    let end = d.chunk_start + d.chunk_count;
    if end <= u32::MAX && end <= scores.len() && doc_passes(f, d) {
        best_chunk(scores, d.chunk_start as int, end)
    } else {
        -1
    }
}

/// The documents among the first `n` that are found, with their scores.
pub open spec fn found_docs(v: SemView, f: FilterSet, scores: Seq<u32>, n: int) -> Seq<Candidate>
    decreases n,
{
    if n <= 0 {
        Seq::empty()
    } else {
        let rest = found_docs(v, f, scores, n - 1);
        let c = found_chunk(v, f, scores, n - 1);
        if c >= 0 {
            rest.push(
                Candidate {
                    score: score_key(scores[c]) as u64,
                    index: (n - 1) as usize,
                    quiet: false,
                },
            )
        } else {
            rest
        }
    }
}

/// A document found by its best chunk.
#[derive(Debug, Clone, Copy, PartialEq, Eq, Structural)]
pub struct Hit {
    pub doc: usize,
    pub line_start: u32,
    pub score: u32,
}

/// The hit for a ranked document.
pub open spec fn hit_for(v: SemView, f: FilterSet, scores: Seq<u32>, c: Candidate) -> Hit {
    let chunk = found_chunk(v, f, scores, c.index as int);
    Hit { doc: c.index, line_start: v.lines[chunk], score: scores[chunk] }
}

/// The best documents, highest score first; ties keep the order of the store.
pub open spec fn ranked_hits(v: SemView, f: FilterSet, scores: Seq<u32>, top: int) -> Seq<Hit> {
    head(best_first(found_docs(v, f, scores, v.docs.len() as int)), top).map_values(
        |c: Candidate| hit_for(v, f, scores, c),
    )
}

/// `c` stands for a found document among the first `n`.
spec fn is_found(v: SemView, f: FilterSet, scores: Seq<u32>, n: int, c: Candidate) -> bool {
    let chunk = found_chunk(v, f, scores, c.index as int);
    &&& c.index < n
    &&& 0 <= chunk < scores.len()
    &&& c.score == score_key(scores[chunk])
    &&& !c.quiet
}

proof fn lemma_found_docs(v: SemView, f: FilterSet, scores: Seq<u32>, n: int)
    requires
        n <= v.docs.len() <= usize::MAX,
        v.lines.len() == scores.len(),
    ensures
        forall|k: int|
            0 <= k < found_docs(v, f, scores, n).len() ==> is_found(
                v,
                f,
                scores,
                n,
                #[trigger] found_docs(v, f, scores, n)[k],
            ),
        found_docs(v, f, scores, n).no_duplicates(),
    decreases n,
{
    if n > 0 {
        lemma_found_docs(v, f, scores, n - 1);
        let rest = found_docs(v, f, scores, n - 1);
        let all = found_docs(v, f, scores, n);
        let d = v.docs[n - 1];
        lemma_best_chunk(scores, d.chunk_start as int, d.chunk_start + d.chunk_count);
        assert forall|k: int| 0 <= k < all.len() implies is_found(
            v,
            f,
            scores,
            n,
            #[trigger] all[k],
        ) by {
            if k < rest.len() {
                assert(is_found(v, f, scores, n - 1, rest[k]));
            }
        }
        assert forall|a: int, b: int| 0 <= a < all.len() && 0 <= b < all.len() && a != b implies
            all[a] != all[b] by {
            if a < rest.len() {
                assert(is_found(v, f, scores, n - 1, rest[a]));
            }
            if b < rest.len() {
                assert(is_found(v, f, scores, n - 1, rest[b]));
            }
        }
    }
}

/// Every document that ranks is one that was found.
proof fn lemma_ranked_from(cs: Seq<Candidate>, top: int, k: int)
    requires
        0 <= top,
        0 <= k < head(best_first(cs), top).len(),
    ensures
        cs.contains(head(best_first(cs), top)[k]),
{
    broadcast use vstd::seq_lib::group_to_multiset_ensures;

    ranking_sorts(cs);
    let c = head(best_first(cs), top)[k];
    assert(best_first(cs)[k] == c);
    assert(best_first(cs).to_multiset().count(c) > 0);
}

fn find_chunk(store: &SemStore, filters: &Filters, scores: &Vec<u32>, i: usize) -> (r: Option<
    usize,
>)
    requires
        i < store@.docs.len(),
    ensures
        match r {
            Some(c) => c == found_chunk(store@, filters@, scores@, i as int) && c < scores@.len(),
            None => found_chunk(store@, filters@, scores@, i as int) == -1,
        },
{
    let d = &store.docs[i];
    assert(store@.docs[i as int] == d@);
    match d.chunk_start.checked_add(d.chunk_count) {
        None => None,
        Some(end) => {
            if end as usize > scores.len() {
                return None;
            }
            let meta = FileMeta { mtime: d.mtime, size: d.size };
            if !filters.is_empty() && !(filters.matches(d.path.as_str()) && filters.matches_meta(
                &meta,
            )) {
                return None;
            }
            let from: usize = d.chunk_start as usize;
            let to: usize = end as usize;
            let mut best: Option<usize> = None;
            let mut k: usize = from;
            while k < to
                invariant
                    from <= k <= to <= scores@.len(),
                    match best {
                        Some(c) => c == best_chunk(scores@, from as int, k as int) && c < k,
                        None => best_chunk(scores@, from as int, k as int) == -1,
                    },
                decreases to - k,
            {
                if scores[k] % 0x8000_0000 < 0x7f80_0000 {
                    match best {
                        None => {
                            best = Some(k);
                        },
                        Some(c) => {
                            if value_of(scores[k]) > value_of(scores[c]) {
                                best = Some(k);
                            }
                        },
                    }
                }
                k += 1;
            }
            best
        },
    }
}

impl SemStore {
    /// Best-chunk-per-document ranking, highest first, of the documents that the
    /// filters admit. `scores` holds the similarity of each chunk to the query.
    pub fn query(&self, scores: &Vec<u32>, filters: &Filters, top: usize) -> (r: Vec<Hit>)
        requires
            scores@.len() == self@.lines.len(),
        ensures
            r@ == ranked_hits(self@, filters@, scores@, top as int),
    {
        let ghost v = self@;
        let ghost f = filters@;
        let mut found: Vec<Candidate> = Vec::new();
        let mut i: usize = 0;
        while i < self.docs.len()
            invariant
                i <= self.docs@.len(),
                v == self@,
                f == filters@,
                scores@.len() == v.lines.len(),
                found@ == found_docs(v, f, scores@, i as int),
            decreases self.docs@.len() - i,
        {
            match find_chunk(self, filters, scores, i) {
                Some(c) => {
                    found.push(Candidate { score: key_of(scores[c]), index: i, quiet: false });
                },
                None => {},
            }
            i += 1;
        }
        let ranked = rank(&found, top);
        let mut hits: Vec<Hit> = Vec::new();
        let mut i: usize = 0;
        proof {
            assert(self.docs@.len() == self.docs.len());
            lemma_found_docs(v, f, scores@, v.docs.len() as int);
        }
        while i < ranked.len()
            invariant
                i <= ranked@.len(),
                v == self@,
                f == filters@,
                scores@.len() == v.lines.len(),
                found@ == found_docs(v, f, scores@, v.docs.len() as int),
                ranked@ == head(best_first(found@), top as int),
                forall|k: int|
                    0 <= k < found@.len() ==> is_found(
                        v,
                        f,
                        scores@,
                        v.docs.len() as int,
                        #[trigger] found@[k],
                    ),
                hits@.len() == i,
                forall|k: int| 0 <= k < i ==> hits@[k] == hit_for(v, f, scores@, ranked@[k]),
            decreases ranked@.len() - i,
        {
            let doc: usize = ranked[i].index;
            proof {
                lemma_ranked_from(found@, top as int, i as int);
                let k = choose|k: int| 0 <= k < found@.len() && found@[k] == ranked@[i as int];
                assert(is_found(v, f, scores@, v.docs.len() as int, found@[k]));
            }
            match find_chunk(self, filters, scores, doc) {
                Some(c) => {
                    hits.push(
                        Hit { doc, line_start: self.chunk_lines[c], score: scores[c] },
                    );
                },
                None => {},
            }
            i += 1;
        }
        assert(hits@ =~= ranked_hits(v, f, scores@, top as int));
        hits
    }
}

proof fn lemma_found_members(v: SemView, f: FilterSet, scores: Seq<u32>, n: int, i: int)
    requires
        0 <= i < n <= v.docs.len() <= usize::MAX,
        found_chunk(v, f, scores, i) >= 0,
    ensures
        exists|k: int|
            0 <= k < found_docs(v, f, scores, n).len() && (#[trigger] found_docs(
                v,
                f,
                scores,
                n,
            )[k]).index == i,
    decreases n,
{
    let all = found_docs(v, f, scores, n);
    if i == n - 1 {
        assert(all.last().index == i);
    } else {
        lemma_found_members(v, f, scores, n - 1, i);
        let rest = found_docs(v, f, scores, n - 1);
        let k = choose|k: int| 0 <= k < rest.len() && (#[trigger] rest[k]).index == i;
        assert(all[k] == rest[k]);
    }
}

/// Hits come best first, each for another document, and each admitted by the
/// filters.
pub proof fn hits_are_ranked(v: SemView, f: FilterSet, scores: Seq<u32>, top: int, i: int, j: int)
    requires
        0 <= top,
        v.docs.len() <= usize::MAX,
        v.lines.len() == scores.len(),
        0 <= i < j < ranked_hits(v, f, scores, top).len(),
    ensures
        ({
            let hits = ranked_hits(v, f, scores, top);
            &&& score_key(hits[i].score) >= score_key(hits[j].score)
            &&& score_key(hits[i].score) == score_key(hits[j].score) ==> hits[i].doc < hits[j].doc
            &&& hits[i].doc != hits[j].doc
            &&& doc_passes(f, v.docs[hits[i].doc as int])
        }),
{
    let n = v.docs.len() as int;
    let cs = found_docs(v, f, scores, n);
    let ranked = head(best_first(cs), top);
    ranking_sorts(cs);
    lemma_found_docs(v, f, scores, n);
    lemma_ranked_from(cs, top, i);
    lemma_ranked_from(cs, top, j);
    let a = best_first(cs)[i];
    let b = best_first(cs)[j];
    assert(ranked[i] == a && ranked[j] == b);
    let x = choose|x: int| 0 <= x < cs.len() && cs[x] == a;
    let y = choose|y: int| 0 <= y < cs.len() && cs[y] == b;
    assert(is_found(v, f, scores, n, cs[x]) && is_found(v, f, scores, n, cs[y]));
    assert(!ranks_before(b, a));
    cs.lemma_multiset_has_no_duplicates();
    best_first(cs).lemma_multiset_has_no_duplicates_conv();
    assert(a != b);
}

/// The number that the bits of a finite score stand for, in units of 2^-149: a
/// sign, eight bits of exponent, and 23 bits of fraction.
pub open spec fn score_number(bits: u32) -> int {
    let exponent = (bits as int / 0x80_0000) % 0x100;
    let fraction = bits as int % 0x80_0000;
    let size = if exponent == 0 {
        fraction
    } else {
        (0x80_0000 + fraction) * pow2((exponent - 1) as nat)
    };
    if bits as int / 0x8000_0000 == 1 {
        -size
    } else {
        size
    }
}

/// Bits of an exponent that is not the one for infinities and for what is no
/// number.
pub open spec fn is_number(bits: u32) -> bool {
    (bits as int / 0x80_0000) % 0x100 != 0xff
}

proof fn lemma_sizes_in_order(a: int, b: int)
    requires
        0 <= a < b < 0x7f80_0000,
    ensures
        score_number(a as u32) < score_number(b as u32),
{
    let (e, f) = (a / 0x80_0000, a % 0x80_0000);
    let (g, h) = (b / 0x80_0000, b % 0x80_0000);
    assert(0 <= e <= g < 0xff);
    assert(e % 0x100 == e && g % 0x100 == g);
    assert(a / 0x8000_0000 == 0 && b / 0x8000_0000 == 0);
    if g > 0 {
        lemma_pow2_pos((g - 1) as nat);
        let q = pow2((g - 1) as nat);
        assert((0x80_0000 + h) * q >= 0x80_0000 * q) by (nonlinear_arith)
            requires
                h >= 0,
                q > 0,
        ;
        if e == g {
            assert((0x80_0000 + f) * q < (0x80_0000 + h) * q) by (nonlinear_arith)
                requires
                    f < h,
                    q > 0,
            ;
        } else if e == 0 {
            assert(0x80_0000 * q >= 0x80_0000) by (nonlinear_arith)
                requires
                    q > 0,
            ;
        } else {
            let p = pow2((e - 1) as nat);
            lemma_pow2_unfold(e as nat);
            if e < g - 1 {
                lemma_pow2_strictly_increases(e as nat, (g - 1) as nat);
            }
            lemma_pow2_pos((e - 1) as nat);
            assert(2 * p <= q);
            assert((0x80_0000 + f) * p < 0x80_0000 * q) by (nonlinear_arith)
                requires
                    f < 0x80_0000,
                    2 * p <= q,
                    p > 0,
            ;
        }
    }
}

proof fn lemma_sign(bits: u32)
    ensures
        is_finite(bits) == is_number(bits),
        bits >= 0x8000_0000 ==> score_number(bits) == -score_number((bits - 0x8000_0000) as u32),
        score_number(0) == 0,
{
    let low = bits as int % 0x8000_0000;
    assert((bits as int / 0x80_0000) % 0x100 == low / 0x80_0000);
    assert(bits as int % 0x80_0000 == low % 0x80_0000);
}

/// Scores are compared as the numbers that their bits stand for.
pub proof fn scores_are_compared_as_numbers(a: u32, b: u32)
    requires
        is_number(a),
        is_number(b),
    ensures
        is_finite(a),
        score_value(a) < score_value(b) <==> score_number(a) < score_number(b),
        score_value(a) == score_value(b) <==> score_number(a) == score_number(b),
        score_number(a) < score_number(b) ==> score_key(a) < score_key(b),
{
    lemma_sign(a);
    lemma_sign(b);
    let x = if a >= 0x8000_0000 {
        a - 0x8000_0000
    } else {
        a as int
    };
    let y = if b >= 0x8000_0000 {
        b - 0x8000_0000
    } else {
        b as int
    };
    if x < y {
        lemma_sizes_in_order(x, y);
    }
    if y < x {
        lemma_sizes_in_order(y, x);
    }
    if 0 < x {
        lemma_sizes_in_order(0, x);
    }
    if 0 < y {
        lemma_sizes_in_order(0, y);
    }
}

proof fn lemma_best_is_best(scores: Seq<u32>, from: int, to: int)
    requires
        0 <= from <= to,
    ensures
        ({
            let best = best_chunk(scores, from, to);
            &&& best == -1 || from <= best < to
            &&& best >= 0 ==> is_number(scores[best])
            &&& forall|k: int|
                from <= k < to && is_number(#[trigger] scores[k]) ==> best >= 0 && score_number(
                    scores[k],
                ) <= score_number(scores[best]) && (k < best ==> score_number(scores[k])
                    < score_number(scores[best]))
        }),
    decreases to - from,
{
    if from < to {
        lemma_best_is_best(scores, from, to - 1);
        let before = best_chunk(scores, from, to - 1);
        let best = best_chunk(scores, from, to);
        lemma_sign(scores[to - 1]);
        if is_number(scores[to - 1]) && before >= 0 {
            scores_are_compared_as_numbers(scores[before], scores[to - 1]);
        }
    }
}

/// A document is found and shown by its best chunk: the hit has the line and the
/// score of a chunk of its document, and no chunk of the document has a higher
/// score, nor an earlier one the same.
pub proof fn hits_show_the_best_chunk(
    v: SemView,
    f: FilterSet,
    scores: Seq<u32>,
    top: int,
    k: int,
) -> (chunk: int)
    requires
        0 <= top,
        v.docs.len() <= usize::MAX,
        v.lines.len() == scores.len(),
        0 <= k < ranked_hits(v, f, scores, top).len(),
    ensures
        ({
            let hit = ranked_hits(v, f, scores, top)[k];
            let d = v.docs[hit.doc as int];
            let end = d.chunk_start + d.chunk_count;
            &&& hit.doc < v.docs.len()
            &&& d.chunk_start <= chunk < end <= scores.len()
            &&& hit.score == scores[chunk]
            &&& hit.line_start == v.lines[chunk]
            &&& is_number(hit.score)
            &&& forall|m: int|
                d.chunk_start <= m < end && is_number(#[trigger] scores[m]) ==> score_number(
                    scores[m],
                ) <= score_number(hit.score) && (m < chunk ==> score_number(scores[m])
                    < score_number(hit.score))
        }),
{
    let n = v.docs.len() as int;
    let cs = found_docs(v, f, scores, n);
    lemma_found_docs(v, f, scores, n);
    lemma_ranked_from(cs, top, k);
    let c = best_first(cs)[k];
    assert(head(best_first(cs), top)[k] == c);
    let x = choose|x: int| 0 <= x < cs.len() && cs[x] == c;
    assert(is_found(v, f, scores, n, cs[x]));
    let d = v.docs[c.index as int];
    lemma_best_is_best(scores, d.chunk_start as int, d.chunk_start + d.chunk_count);
    assert(ranked_hits(v, f, scores, top)[k] == hit_for(v, f, scores, c));
    found_chunk(v, f, scores, c.index as int)
}

/// The document passes the filters, where there are any, with its path, its time
/// and its size, and one of its chunks has a number for a score.
pub open spec fn is_findable(v: SemView, f: FilterSet, scores: Seq<u32>, i: int) -> bool {
    let d = v.docs[i];
    let end = d.chunk_start + d.chunk_count;
    &&& end <= u32::MAX
    &&& end <= scores.len()
    &&& f != no_filters() ==> path_passes(f, d.path) && meta_passes(
        f,
        FileMeta { mtime: d.mtime, size: d.size },
    )
    &&& exists|m: int| d.chunk_start <= m < end && is_number(#[trigger] scores[m])
}

/// Highest scores first, as numbers. Every hit can be found, and what can be found
/// and is no hit scores no higher than any hit, in none of its chunks; while there
/// is room nothing is left out.
pub proof fn the_best_documents_are_hits(v: SemView, f: FilterSet, scores: Seq<u32>, top: int)
    requires
        0 <= top,
        v.docs.len() <= usize::MAX,
        v.lines.len() == scores.len(),
    ensures
        ({
            let hits = ranked_hits(v, f, scores, top);
            &&& hits.len() <= top
            &&& forall|i: int, j: int|
                0 <= i < j < hits.len() ==> score_number((#[trigger] hits[i]).score)
                    >= score_number((#[trigger] hits[j]).score)
            &&& forall|i: int|
                0 <= i < hits.len() ==> is_findable(v, f, scores, (#[trigger] hits[i]).doc as int)
            &&& forall|doc: int|
                #![trigger is_findable(v, f, scores, doc)]
                0 <= doc < v.docs.len() && is_findable(v, f, scores, doc) ==> is_hit(hits, doc) || (
                hits.len() == top && scores_no_higher(v, scores, doc, hits))
        }),
{
    let n = v.docs.len() as int;
    let hits = ranked_hits(v, f, scores, top);
    let cs = found_docs(v, f, scores, n);
    hits_are_documents(v, f, scores, top);
    assert forall|i: int, j: int| 0 <= i < j < hits.len() implies score_number(
        (#[trigger] hits[i]).score,
    ) >= score_number((#[trigger] hits[j]).score) by {
        hits_are_ranked(v, f, scores, top, i, j);
        hits_show_the_best_chunk(v, f, scores, top, i);
        hits_show_the_best_chunk(v, f, scores, top, j);
        scores_are_compared_as_numbers(hits[i].score, hits[j].score);
    }
    assert forall|i: int| 0 <= i < hits.len() implies is_findable(
        v,
        f,
        scores,
        (#[trigger] hits[i]).doc as int,
    ) by {
        let c = hits_show_the_best_chunk(v, f, scores, top, i);
        lemma_found_docs(v, f, scores, n);
        lemma_ranked_from(cs, top, i);
        let x = choose|x: int| 0 <= x < cs.len() && cs[x] == best_first(cs)[i];
        assert(is_found(v, f, scores, n, cs[x]));
        assert(is_number(scores[c]));
    }
    assert forall|doc: int|
        #![trigger is_findable(v, f, scores, doc)]
        0 <= doc < v.docs.len() && is_findable(v, f, scores, doc) implies is_hit(hits, doc) || (
    hits.len() == top && scores_no_higher(v, scores, doc, hits)) by {
        lemma_missing_document(v, f, scores, top, doc);
    }
}

/// One of the hits is this document.
pub open spec fn is_hit(hits: Seq<Hit>, doc: int) -> bool {
    exists|k: int| 0 <= k < hits.len() && (#[trigger] hits[k]).doc == doc
}

/// No chunk of the document has a higher score than any of the hits.
pub open spec fn scores_no_higher(v: SemView, scores: Seq<u32>, doc: int, hits: Seq<Hit>) -> bool {
    let d = v.docs[doc];
    forall|m: int, k: int|
        d.chunk_start <= m < d.chunk_start + d.chunk_count && is_number(#[trigger] scores[m]) && 0
            <= k < hits.len() ==> score_number(scores[m]) <= score_number(
            (#[trigger] hits[k]).score,
        )
}

proof fn lemma_missing_document(
    v: SemView,
    f: FilterSet,
    scores: Seq<u32>,
    top: int,
    doc: int,
)
    requires
        0 <= top,
        v.docs.len() <= usize::MAX,
        v.lines.len() == scores.len(),
        0 <= doc < v.docs.len(),
        is_findable(v, f, scores, doc),
    ensures
        ({
            let hits = ranked_hits(v, f, scores, top);
            is_hit(hits, doc) || (hits.len() == top && scores_no_higher(v, scores, doc, hits))
        }),
{
    broadcast use vstd::seq_lib::group_to_multiset_ensures;

    let n = v.docs.len() as int;
    let hits = ranked_hits(v, f, scores, top);
    let cs = found_docs(v, f, scores, n);
    let d = v.docs[doc];
    let end = d.chunk_start + d.chunk_count;
    lemma_best_is_best(scores, d.chunk_start as int, end);
    let best = found_chunk(v, f, scores, doc);
    let some = choose|m: int| d.chunk_start <= m < end && is_number(#[trigger] scores[m]);
    assert(is_number(scores[some]));
    assert(best >= 0);
    lemma_found_members(v, f, scores, n, doc);
    lemma_found_docs(v, f, scores, n);
    let x = choose|x: int| 0 <= x < cs.len() && (#[trigger] cs[x]).index == doc;
    assert(is_found(v, f, scores, n, cs[x]));
    ranking_sorts(cs);
    let all = best_first(cs);
    assert(cs.to_multiset().count(cs[x]) > 0);
    assert(all.contains(cs[x]));
    let place = choose|k: int| 0 <= k < all.len() && all[k] == cs[x];
    if place < hits.len() {
        assert(hits[place].doc == doc);
    } else {
        assert forall|m: int, k: int|
            d.chunk_start <= m < end && is_number(#[trigger] scores[m]) && 0 <= k
                < hits.len() implies score_number(scores[m]) <= score_number(
            (#[trigger] hits[k]).score,
        ) by {
            hits_show_the_best_chunk(v, f, scores, top, k);
            lemma_ranked_from(cs, top, k);
            let y = choose|y: int| 0 <= y < cs.len() && cs[y] == all[k];
            assert(is_found(v, f, scores, n, cs[y]));
            assert(!ranks_before(all[place], all[k]));
            assert(score_key(hits[k].score) >= score_key(scores[best]));
            scores_are_compared_as_numbers(hits[k].score, scores[best]);
        }
    }
}

/// While there is room, every document that is found is among the hits.
pub proof fn hits_are_complete(
    v: SemView,
    f: FilterSet,
    scores: Seq<u32>,
    top: int,
    i: int,
) -> (k: int)
    requires
        v.docs.len() <= usize::MAX,
        v.lines.len() == scores.len(),
        0 <= i < v.docs.len(),
        found_chunk(v, f, scores, i) >= 0,
        ranked_hits(v, f, scores, top).len() < top,
    ensures
        0 <= k < ranked_hits(v, f, scores, top).len(),
        ranked_hits(v, f, scores, top)[k].doc == i,
{
    broadcast use vstd::seq_lib::group_to_multiset_ensures;

    let n = v.docs.len() as int;
    let cs = found_docs(v, f, scores, n);
    lemma_found_members(v, f, scores, n, i);
    let x = choose|x: int| 0 <= x < cs.len() && (#[trigger] cs[x]).index == i;
    ranking_sorts(cs);
    let all = best_first(cs);
    assert(cs.to_multiset().count(cs[x]) > 0);
    assert(all.contains(cs[x]));
    let k = choose|k: int| 0 <= k < all.len() && all[k] == cs[x];
    assert(head(all, top) =~= all);
    k
}

// ----------------------------------------------------------------- snippets

/// Rows that show the text they were found by.
pub const SNIPPET_ROWS: usize = 24;

pub const SNIPPET_CHARS: usize = 160;

/// The text that a hit on a line shows: the trimmed line, cut off, if it holds
/// any text.
pub open spec fn snippet(text: Seq<char>, line: int) -> Option<Seq<char>> {
    let at = if line > 0 {
        line - 1
    } else {
        0
    };
    if at >= lines(text).len() {
        None
    } else {
        let shown = trim(lines(text)[at]);
        if shown.len() == 0 {
            None
        } else {
            Some(head(shown, SNIPPET_CHARS as int))
        }
    }
}

/// The line of a text that a hit starts on, trimmed and cut off, for display.
pub fn snippet_line(text: &str, line: u64) -> (r: Option<String>)
    ensures
        text_option(r) == snippet(text@, line as int),
{
    let all = split_lines(&chars_of(text));
    let at: u64 = if line > 0 {
        line - 1
    } else {
        0
    };
    if at >= all.len() as u64 {
        return None;
    }
    let at: usize = at as usize;
    assert(lines(text@)[at as int] == all@[at as int]@);
    let shown = chars_of(&trimmed(&chars_of(&all[at])));
    if shown.len() == 0 {
        return None;
    }
    let n: usize = if shown.len() < SNIPPET_CHARS {
        shown.len()
    } else {
        SNIPPET_CHARS
    };
    let r = string_of_range(&shown, 0, n);
    assert(r@ =~= head(shown@, SNIPPET_CHARS as int));
    Some(r)
}

/// The text of a row: the first rows show their snippet where there is one, the
/// others how well they match.
pub fn row_text(row: usize, snippet: Option<String>, percent: String) -> (r: String)
    ensures
        r@ == (if row < SNIPPET_ROWS && snippet is Some {
            snippet->Some_0@
        } else {
            percent@
        }),
{
    match snippet {
        Some(s) => {
            if row < SNIPPET_ROWS {
                return s;
            }
        },
        None => {},
    }
    percent
}

/// Why a store cannot answer queries.
#[derive(Debug, Clone, Copy, PartialEq, Eq, Structural)]
pub enum StoreGap {
    Missing,
    OtherModel,
}

impl StoreGap {
    pub open spec fn text(self) -> Seq<char> {
        match self {
            StoreGap::Missing => "no semantic index yet — run fsearch --index-semantic"@,
            StoreGap::OtherModel =>
                "semantic index is from another model — rerun fsearch --index-semantic"@,
        }
    }

    pub fn message(&self) -> (r: &'static str)
        ensures
            r@ == self.text(),
    {
        match self {
            StoreGap::Missing => "no semantic index yet — run fsearch --index-semantic",
            StoreGap::OtherModel =>
                "semantic index is from another model — rerun fsearch --index-semantic",
        }
    }
}

/// Whether a loaded store can answer an embedder's queries: it has to be there
/// and to hold vectors of the embedder's dimension.
pub fn check_store(stored: Option<u32>, dim: usize) -> (r: Result<(), StoreGap>)
    ensures
        r == (match stored {
            None => Err::<(), StoreGap>(StoreGap::Missing),
            Some(d) => if d == dim {
                Ok(())
            } else {
                Err(StoreGap::OtherModel)
            },
        }),
{
    match stored {
        None => Err(StoreGap::Missing),
        Some(d) => {
            if d as usize == dim {
                Ok(())
            } else {
                Err(StoreGap::OtherModel)
            }
        },
    }
}

/// Every hit is a document of the store that the filters admit.
pub proof fn hits_are_documents(v: SemView, f: FilterSet, scores: Seq<u32>, top: int)
    requires
        0 <= top,
        v.docs.len() <= usize::MAX,
        v.lines.len() == scores.len(),
    ensures
        ranked_hits(v, f, scores, top).len() <= top,
        forall|k: int|
            0 <= k < ranked_hits(v, f, scores, top).len() ==> {
                let hit = #[trigger] ranked_hits(v, f, scores, top)[k];
                hit.doc < v.docs.len() && doc_passes(f, v.docs[hit.doc as int])
            },
{
    let n = v.docs.len() as int;
    let cs = found_docs(v, f, scores, n);
    lemma_found_docs(v, f, scores, n);
    assert forall|k: int| 0 <= k < ranked_hits(v, f, scores, top).len() implies {
        let hit = #[trigger] ranked_hits(v, f, scores, top)[k];
        hit.doc < v.docs.len() && doc_passes(f, v.docs[hit.doc as int])
    } by {
        lemma_ranked_from(cs, top, k);
        let x = choose|x: int| 0 <= x < cs.len() && cs[x] == best_first(cs)[k];
        assert(is_found(v, f, scores, n, cs[x]));
    }
}

/// Where the semantic index is, beside the index.
pub fn default_store_path(set: Option<&str>, home: Option<&str>) -> (r: String)
    ensures
        r@ == program_file(base_dir(set, home, ".cache"@), "semantic.bin"@),
{
    program_path(set, home, ".cache", "semantic.bin")
}


proof fn lemma_last_doc(docs: Seq<DocView>, path: Seq<char>, n: int)
    requires
        0 <= n <= docs.len(),
    ensures
        ({
            let i = last_doc(docs, path, n);
            &&& -1 <= i < n
            &&& i >= 0 ==> docs[i].path == path
            &&& forall|k: int| i < k < n ==> (#[trigger] docs[k]).path != path
        }),
    decreases n,
{
    if n > 0 && docs[n - 1].path != path {
        lemma_last_doc(docs, path, n - 1);
    }
}

/// A document of a prior store is used again only for the same file, unchanged in
/// time and size, and for vectors of the same dimension; and then it is.
pub proof fn unchanged_documents_are_reused(
    prior: SemView,
    dim: u32,
    path: Seq<char>,
    mtime: i64,
    size: u64,
    i: int,
)
    requires
        forall|j: int, k: int|
            0 <= j < k < prior.docs.len() ==> (#[trigger] prior.docs[j]).path != (
            #[trigger] prior.docs[k]).path,
    ensures
        reusable_doc(prior, dim, path, mtime, size) == Some(i) <==> {
            &&& 0 <= i < prior.docs.len()
            &&& prior.dim == dim
            &&& prior.docs[i].path == path
            &&& prior.docs[i].mtime == mtime
            &&& prior.docs[i].size == size
        },
{
    lemma_last_doc(prior.docs, path, prior.docs.len() as int);
    let last = last_doc(prior.docs, path, prior.docs.len() as int);
    if 0 <= i < prior.docs.len() && prior.docs[i].path == path && last != i {
        if last < i {
            assert(prior.docs[i].path != path);
        } else {
            assert(prior.docs[i].path != prior.docs[last].path);
        }
    }
}

proof fn lemma_last_newline(s: Seq<char>, n: int)
    requires
        0 <= n <= s.len(),
    ensures
        ({
            let i = last_index_of(s, '\n', n);
            &&& -1 <= i < n
            &&& i >= 0 ==> s[i] == '\n'
            &&& forall|k: int| i < k < n ==> s[k] != '\n'
        }),
    decreases n,
{
    if n > 0 && s[n - 1] != '\n' {
        lemma_last_newline(s, n - 1);
    }
}

/// A chunk has its full length, or ends with a line in the last quarter of that:
/// behind the last newline there. The last chunk ends with the text. The next
/// chunk takes up the end of the one before.
pub proof fn chunks_end_with_lines(s: Seq<char>, start: int, target: int, overlap: int, p: int)
    requires
        0 <= start < s.len(),
        0 < target,
        3 * target <= usize::MAX,
        0 <= overlap < target - target / 4,
    ensures
        ({
            let end = chunk_end(s, start, target);
            let full = start + target;
            &&& full >= s.len() ==> end == s.len()
            &&& full < s.len() ==> start < end <= full
            &&& full < s.len() && end < full ==> s[end - 1] == '\n'
            &&& full < s.len() && start + 3 * target / 4 <= p < full && s[p] == '\n' ==> p < end
                && s[end - 1] == '\n'
            &&& full < s.len() && end < full ==> end > start + 3 * target / 4
            &&& full < s.len() && end - start > overlap ==> next_start(start, end, overlap) == end
                - overlap
        }),
{
    if start + target < s.len() {
        lemma_last_newline(s, start + target);
    }
}

/// Newlines are counted one by one: a text holds as many as its parts, each
/// newline is one, and other characters are none.
pub proof fn newlines_are_counted(a: Seq<char>, b: Seq<char>, n: int)
    requires
        0 <= n <= b.len(),
    ensures
        newlines(a + b, a.len() + n) == newlines(a, a.len() as int) + newlines(b, n),
        newlines(seq!['\n'], 1) == 1,
        !b.contains('\n') ==> newlines(b, n) == 0,
    decreases n,
{
    if n > 0 {
        newlines_are_counted(a, b, n - 1);
        assert((a + b)[a.len() + n - 1] == b[n - 1]);
        assert(b.contains(b[n - 1]));
    } else {
        lemma_newlines_of_prefix(a, b, a.len() as int);
    }
    assert(newlines(seq!['\n'], 0) == 0);
}

proof fn lemma_newlines_of_prefix(a: Seq<char>, b: Seq<char>, n: int)
    requires
        0 <= n <= a.len(),
    ensures
        newlines(a + b, n) == newlines(a, n),
    decreases n,
{
    if n > 0 {
        lemma_newlines_of_prefix(a, b, n - 1);
        assert((a + b)[n - 1] == a[n - 1]);
    }
}

/// A hit shows the line that it starts on, without the spaces around it and at
/// most 160 characters of it. A blank line shows nothing.
pub proof fn snippets_show_their_lines(
    text: Seq<char>,
    line: int,
    before: Seq<char>,
    core: Seq<char>,
    after: Seq<char>,
)
    requires
        1 <= line <= lines(text).len(),
        lines(text)[line - 1] == before + core + after,
        forall|k: int| 0 <= k < before.len() ==> is_space(#[trigger] before[k]),
        forall|k: int| 0 <= k < after.len() ==> is_space(#[trigger] after[k]),
        core.len() > 0,
        !is_space(core[0]),
        !is_space(core.last()),
    ensures
        core.len() <= 160 ==> snippet(text, line) == Some(core),
        core.len() > 160 ==> snippet(text, line) == Some(core.take(160)),
{
    trimming_cuts_outer_spaces(before, core, after);
    assert(core.take(core.len() as int) =~= core);
}

proof fn lemma_bits_at(chunks: Seq<(u32, Seq<u16>)>, dim: nat, k: int)
    requires
        0 <= k < chunks.len(),
        forall|i: int| 0 <= i < chunks.len() ==> (#[trigger] chunks[i]).1.len() == dim,
    ensures
        bits_of(chunks).len() == chunks.len() * dim,
        0 <= k * dim,
        (k + 1) * dim <= chunks.len() * dim,
        bits_of(chunks).subrange(k * dim, (k + 1) * dim) == chunks[k].1,
    decreases chunks.len(),
{
    let rest = chunks.drop_last();
    let n = rest.len() as int;
    let bits = bits_of(rest);
    assert(bits.len() == n * dim) by {
        if n > 0 {
            lemma_bits_at(rest, dim, 0);
        } else {
            assert(0 * dim == 0) by (nonlinear_arith);
        }
    }
    assert((n + 1) * dim == n * dim + dim) by (nonlinear_arith);
    assert((k + 1) * dim == k * dim + dim) by (nonlinear_arith);
    assert(0 <= k * dim) by (nonlinear_arith)
        requires
            k >= 0,
            dim >= 0,
    ;
    assert(k * dim <= n * dim) by (nonlinear_arith)
        requires
            k <= n,
            dim >= 0,
    ;
    let all = bits_of(chunks);
    assert(all == bits + chunks.last().1);
    if k < n {
        lemma_bits_at(rest, dim, k);
        assert(all.subrange(k * dim, (k + 1) * dim) =~= bits.subrange(k * dim, (k + 1) * dim));
    } else {
        assert(all.subrange(k * dim, (k + 1) * dim) =~= chunks.last().1);
    }
}

proof fn lemma_absorbed_sizes(
    v: SemView,
    docs: Seq<PendingView>,
    vectors: Seq<Seq<u16>>,
    n: int,
)
    requires
        0 <= n <= docs.len(),
        waiting(docs, n) <= vectors.len(),
        forall|i: int| 0 <= i < vectors.len() ==> (#[trigger] vectors[i]).len() == v.dim,
        v.vectors.len() == v.lines.len() * v.dim,
    ensures
        ({
            let t = absorbed(v, docs, vectors, n);
            &&& t.dim == v.dim
            &&& t.docs.len() == v.docs.len() + n
            &&& t.lines.len() == v.lines.len() + waiting(docs, n)
            &&& t.vectors.len() == t.lines.len() * v.dim
        }),
    decreases n,
{
    if n > 0 {
        let d = docs[n - 1];
        lemma_absorbed_sizes(v, docs, vectors, n - 1);
        let chunks = paired(d.chunks, vectors, waiting(docs, n - 1) as int);
        lemma_paired_fit(d, vectors, waiting(docs, n - 1) as int, v.dim);
        let t = absorbed(v, docs, vectors, n - 1);
        let (a, b, dim) = (t.lines.len(), chunks.len(), v.dim as nat);
        assert((a + b) * dim == a * dim + b * dim) by (nonlinear_arith);
    }
}

proof fn lemma_paired_fit(d: PendingView, vectors: Seq<Seq<u16>>, from: int, dim: u32)
    requires
        0 <= from,
        from + d.chunks.len() <= vectors.len(),
        forall|i: int| 0 <= i < vectors.len() ==> (#[trigger] vectors[i]).len() == dim,
    ensures
        ({
            let chunks = paired(d.chunks, vectors, from);
            &&& fitting(dim, chunks) == chunks
            &&& bits_of(chunks).len() == chunks.len() * dim
            &&& forall|k: int| 0 <= k < chunks.len() ==> (#[trigger] chunks[k]).1.len() == dim
        }),
{
    let chunks = paired(d.chunks, vectors, from);
    assert forall|k: int| 0 <= k < chunks.len() implies (#[trigger] chunks[k]).1.len() == dim by {
        assert(vectors[from + k].len() == dim);
    }
    lemma_all_fit(dim, chunks);
    if chunks.len() > 0 {
        lemma_bits_at(chunks, dim as nat, 0);
    } else {
        assert(bits_of(chunks).len() == 0);
        assert(0 * dim as nat == 0) by (nonlinear_arith);
    }
}

/// Every waiting chunk gets the vector that came back for its text: the batch
/// lists the chunks of the waiting documents in order, and the answer is stored
/// in that order, each vector under the document and the line of its chunk.
pub proof fn vectors_go_to_their_chunks(
    v: SemView,
    docs: Seq<PendingView>,
    vectors: Seq<Seq<u16>>,
    n: int,
    i: int,
    k: int,
)
    requires
        0 <= i < n <= docs.len(),
        0 <= k < docs[i].chunks.len(),
        waiting(docs, n) <= vectors.len(),
        forall|j: int| 0 <= j < vectors.len() ==> (#[trigger] vectors[j]).len() == v.dim,
        v.vectors.len() == v.lines.len() * v.dim,
        v.lines.len() + waiting(docs, n) <= u32::MAX,
    ensures
        ({
            let t = absorbed(v, docs, vectors, n);
            let d = t.docs[v.docs.len() + i];
            let sent = waiting(docs, i) + k;
            let at = d.chunk_start + k;
            &&& sent < batch_of(docs, n).len()
            &&& batch_of(docs, n)[sent] == docs[i].chunks[k].text
            &&& d.path == docs[i].path && d.mtime == docs[i].mtime && d.size == docs[i].size
            &&& d.chunk_count == docs[i].chunks.len()
            &&& at < t.lines.len()
            &&& t.lines[at] == docs[i].chunks[k].line_start
            &&& 0 <= at * v.dim && (at + 1) * v.dim <= t.vectors.len()
            &&& t.vectors.subrange(at * v.dim, (at + 1) * v.dim) == vectors[sent]
        }),
    decreases n,
{
    let dim = v.dim as int;
    let before = absorbed(v, docs, vectors, n - 1);
    let t = absorbed(v, docs, vectors, n);
    let from = waiting(docs, n - 1) as int;
    let chunks = paired(docs[n - 1].chunks, vectors, from);
    lemma_absorbed_sizes(v, docs, vectors, n - 1);
    lemma_paired_fit(docs[n - 1], vectors, from, v.dim);
    lemma_waiting_monotone(docs, i, n - 1);
    lemma_batch_len(docs, n - 1);
    let sent = waiting(docs, i) + k;
    if i < n - 1 {
        lemma_waiting_monotone(docs, i + 1, n - 1);
        vectors_go_to_their_chunks(v, docs, vectors, n - 1, i, k);
        let at = before.docs[v.docs.len() + i].chunk_start + k;
        assert(t.docs[v.docs.len() + i] == before.docs[v.docs.len() + i]);
        lemma_next_multiple(at, v.dim as nat);
        assert(t.vectors.subrange(at * dim, (at + 1) * dim) =~= before.vectors.subrange(
            at * dim,
            (at + 1) * dim,
        ));
        assert(batch_of(docs, n)[sent] == batch_of(docs, n - 1)[sent]);
    } else {
        let d = t.docs[v.docs.len() + i];
        let start = before.lines.len() as int;
        assert(d.chunk_start == start);
        lemma_bits_at(chunks, v.dim as nat, k);
        let at = start + k;
        lemma_next_multiple(k, v.dim as nat);
        lemma_next_multiple(at, v.dim as nat);
        assert(at * dim == start * dim + k * dim) by (nonlinear_arith)
            requires
                at == start + k,
        ;
        assert((at + 1) * dim == start * dim + (k + 1) * dim) by (nonlinear_arith)
            requires
                at == start + k,
        ;
        let bits = bits_of(chunks);
        assert(t.vectors == before.vectors + bits);
        assert(t.vectors.subrange(at * dim, (at + 1) * dim) =~= bits.subrange(
            k * dim,
            (k + 1) * dim,
        ));
        assert(chunks[k] == (docs[i].chunks[k].line_start, vectors[from + k]));
        assert(t.lines[at] == lines_of(chunks)[k]);
    }
}

proof fn lemma_next_multiple(k: int, dim: nat)
    requires
        0 <= k,
    ensures
        0 <= k * dim <= (k + 1) * dim,
{
    assert(0 <= k * dim <= (k + 1) * dim) by (nonlinear_arith)
        requires
            0 <= k,
            0 <= dim,
    ;
}

proof fn lemma_batch_len(docs: Seq<PendingView>, n: int)
    requires
        0 <= n <= docs.len(),
    ensures
        batch_of(docs, n).len() == waiting(docs, n),
    decreases n,
{
    if n > 0 {
        lemma_batch_len(docs, n - 1);
    }
}

} // verus!
