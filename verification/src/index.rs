//! The path index: every indexed path in one arena, and its file format.

use crate::codec::{
    bits64, bytes_at, from_bits64, from_le, le, lemma_byte_ranges, lemma_encode_concat,
    lemma_encoding_injective, lemma_encoding_len, lemma_from_le_of_le, lemma_le_len,
    lemma_le_of_from_le, push_bytes, push_le, read_le, to_bits64, utf8_text,
};
use crate::paths::{base_dir, program_file, program_path};
use crate::walker::{entry_view, entry_views, Entry, EntryView, FileMeta};
use vstd::prelude::*;
use vstd::string::*;
use vstd::utf8::*;

verus! {

/// The length of a path in bytes.
pub open spec fn byte_len(path: Seq<char>) -> nat {
    encode_utf8(path).len()
}

/// Where the bytes of entry `i` start when all paths stand one after another.
pub open spec fn path_start(es: Seq<EntryView>, i: int) -> nat
    decreases i,
{
    if i <= 0 {
        0
    } else {
        path_start(es, i - 1) + byte_len(es[i - 1].0)
    }
}

/// The paths fit in an arena with 32-bit offsets.
pub open spec fn fits_arena(es: Seq<EntryView>) -> bool {
    path_start(es, es.len() as int) <= u32::MAX
}

/// The combined size of the paths exceeds the 32-bit arena.
#[derive(Clone, Copy, Debug, PartialEq, Eq, Structural)]
pub struct ArenaTooLarge;

impl ArenaTooLarge {
    pub fn message(&self) -> (r: &'static str)
        ensures
            r@ == "path arena exceeds u32 size limit"@,
    {
        "path arena exceeds u32 size limit"
    }
}

pub open spec fn sum(lengths: Seq<usize>) -> nat
    decreases lengths.len(),
{
    if lengths.len() == 0 {
        0
    } else {
        sum(lengths.drop_last()) + lengths.last() as nat
    }
}

proof fn lemma_sum_grows(lengths: Seq<usize>, i: int)
    requires
        0 <= i <= lengths.len(),
    ensures
        sum(lengths.take(i)) <= sum(lengths),
    decreases lengths.len(),
{
    if i == lengths.len() {
        assert(lengths.take(i) == lengths);
    } else {
        lemma_sum_grows(lengths.drop_last(), i);
        assert(lengths.drop_last().take(i) == lengths.take(i));
    }
}

/// The cumulative size of paths with these lengths, checked before any
/// allocation or narrowing.
pub fn checked_arena_size(lengths: &[usize]) -> (r: Result<u32, ArenaTooLarge>)
    ensures
        sum(lengths@) <= u32::MAX ==> r == Ok::<u32, ArenaTooLarge>(sum(lengths@) as u32),
        sum(lengths@) > u32::MAX ==> r == Err::<u32, ArenaTooLarge>(ArenaTooLarge),
{
    let mut total: u32 = 0;
    let mut i: usize = 0;
    while i < lengths.len()
        invariant
            i <= lengths.len(),
            total == sum(lengths@.take(i as int)),
        decreases lengths.len() - i,
    {
        proof {
            assert(lengths@.take(i + 1).drop_last() == lengths@.take(i as int));
            lemma_sum_grows(lengths@, i + 1);
        }
        if lengths[i] > u32::MAX as usize {
            return Err(ArenaTooLarge);
        }
        match total.checked_add(lengths[i] as u32) {
            None => {
                return Err(ArenaTooLarge);
            },
            Some(t) => {
                total = t;
            },
        }
        i += 1;
    }
    assert(lengths@.take(i as int) == lengths@);
    Ok(total)
}

proof fn lemma_path_start_monotone(es: Seq<EntryView>, i: int, j: int)
    requires
        0 <= i <= j,
    ensures
        path_start(es, i) <= path_start(es, j),
    decreases j,
{
    if i < j {
        lemma_path_start_monotone(es, i, j - 1);
    }
}

fn path_lengths(entries: &[Entry]) -> (r: Vec<usize>)
    ensures
        r@.len() == entries@.len(),
        sum(r@) == path_start(entry_views(entries@), entries@.len() as int),
{
    let mut out: Vec<usize> = Vec::new();
    let ghost es = entry_views(entries@);
    let mut i: usize = 0;
    while i < entries.len()
        invariant
            i <= entries.len(),
            out@.len() == i,
            es == entry_views(entries@),
            sum(out@) == path_start(es, i as int),
        decreases entries.len() - i,
    {
        let bytes = entries[i].0.as_str().as_bytes();
        let n: usize = bytes.len();
        assert(es[i as int].0 == entries@[i as int].0@);
        assert(out@.push(n).drop_last() == out@);
        out.push(n);
        i += 1;
    }
    out
}

// --------------------------------------------------------------- UTF-8 spans

proof fn lemma_boundary_byte(bytes: Seq<u8>, i: int)
    requires
        valid_utf8(bytes),
        is_char_boundary(bytes, i),
        0 <= i < bytes.len(),
    ensures
        !is_continuation_byte(bytes[i]),
{
    is_char_boundary_iff_not_is_continuation_byte(bytes, i);
}

proof fn lemma_boundary_range(bytes: Seq<u8>, i: int)
    requires
        valid_utf8(bytes),
        is_char_boundary(bytes, i),
    ensures
        0 <= i <= bytes.len(),
    decreases bytes.len(),
{
    if i != 0 && 0 < i <= bytes.len() {
    }
}

/// A boundary after a boundary is one of what follows the first.
proof fn lemma_boundary_after(bytes: Seq<u8>, i: int, j: int)
    requires
        valid_utf8(bytes),
        is_char_boundary(bytes, i),
        is_char_boundary(bytes, j),
        i <= j <= bytes.len(),
    ensures
        valid_utf8(bytes.subrange(i, bytes.len() as int)),
        is_char_boundary(bytes.subrange(i, bytes.len() as int), j - i),
        valid_utf8(bytes.subrange(i, j)),
{
    lemma_boundary_range(bytes, i);
    let rest = bytes.subrange(i, bytes.len() as int);
    valid_utf8_split(bytes, i);
    if j == bytes.len() {
        is_char_boundary_start_end_of_seq(rest);
        assert(rest.len() == j - i);
    } else {
        lemma_boundary_byte(bytes, j);
        assert(rest[j - i] == bytes[j]);
        is_char_boundary_iff_not_is_continuation_byte(rest, j - i);
    }
    valid_utf8_split(rest, j - i);
    assert(rest.subrange(0, j - i) == bytes.subrange(i, j));
}

/// Boundaries survive appending, and the seam is one.
proof fn lemma_boundary_append(a: Seq<u8>, b: Seq<u8>, i: int)
    requires
        valid_utf8(a),
        valid_utf8(b),
        is_char_boundary(a, i),
    ensures
        valid_utf8(a + b),
        is_char_boundary(a + b, i),
        is_char_boundary(a + b, a.len() as int),
{
    valid_utf8_concat(a, b);
    lemma_boundary_range(a, i);
    let c = a + b;
    if b.len() == 0 {
        is_char_boundary_start_end_of_seq(c);
        assert(c =~= a);
    } else {
        is_char_boundary_start_end_of_seq(b);
        lemma_boundary_byte(b, 0);
        assert(c[a.len() as int] == b[0]);
        is_char_boundary_iff_not_is_continuation_byte(c, a.len() as int);
        if i < a.len() {
            lemma_boundary_byte(a, i);
            assert(c[i] == a[i]);
            is_char_boundary_iff_not_is_continuation_byte(c, i);
        }
    }
}

// -------------------------------------------------------------------- store

/// Every indexed path in one contiguous arena, plus per-entry spans and
/// metadata.
pub struct PathStore {
    arena: String,
    spans: Vec<(u32, u32)>,
    metas: Vec<FileMeta>,
}

spec fn span_ok(bytes: Seq<u8>, span: (u32, u32)) -> bool {
    &&& span.0 + span.1 <= bytes.len()
    &&& is_char_boundary(bytes, span.0 as int)
    &&& is_char_boundary(bytes, span.0 + span.1)
}

spec fn span_text(bytes: Seq<u8>, span: (u32, u32)) -> Seq<char> {
    decode_utf8(bytes.subrange(span.0 as int, span.0 + span.1))
}

impl View for PathStore {
    type V = Seq<EntryView>;

    closed spec fn view(&self) -> Seq<EntryView> {
        Seq::new(
            self.spans@.len(),
            |i: int| (span_text(encode_utf8(self.arena@), self.spans@[i]), self.metas@[i]),
        )
    }
}

impl PathStore {
    #[verifier::type_invariant]
    spec fn well_formed(&self) -> bool {
        &&& self.spans@.len() == self.metas@.len()
        &&& forall|i: int|
            0 <= i < self.spans@.len() ==> span_ok(encode_utf8(self.arena@), #[trigger] self.spans@[i])
    }

    pub fn empty() -> (r: PathStore)
        ensures
            r@ == Seq::<EntryView>::empty(),
    {
        let r = PathStore { arena: String::new(), spans: Vec::new(), metas: Vec::new() };
        assert(r@ =~= Seq::<EntryView>::empty());
        r
    }

    /// The index of the given entries, in their order.
    pub fn from_entries(entries: &[Entry]) -> (r: PathStore)
        requires
            fits_arena(entry_views(entries@)),
        ensures
            r@ == entry_views(entries@),
    {
        let ghost es = entry_views(entries@);
        let mut arena: String = String::new();
        let mut spans: Vec<(u32, u32)> = Vec::new();
        let mut metas: Vec<FileMeta> = Vec::new();
        let mut at: u32 = 0;
        let mut i: usize = 0;
        while i < entries.len()
            invariant
                i <= entries.len(),
                es == entry_views(entries@),
                fits_arena(es),
                spans@.len() == i,
                metas@.len() == i,
                at == path_start(es, i as int),
                at == encode_utf8(arena@).len(),
                forall|j: int|
                    0 <= j < i ==> {
                        &&& span_ok(encode_utf8(arena@), #[trigger] spans@[j])
                        &&& span_text(encode_utf8(arena@), spans@[j]) == es[j].0
                        &&& metas@[j] == es[j].1
                    },
            decreases entries.len() - i,
        {
            let ghost before = encode_utf8(arena@);
            proof {
                encode_utf8_valid_utf8(arena@);
            }
            let ghost old_spans = spans@;
            let ghost old_metas = metas@;
            let bytes = entries[i].0.as_str().as_bytes();
            let n: usize = bytes.len();
            let ghost path = entries@[i as int].0@;
            proof {
                assert(es[i as int] == entry_view(entries@[i as int]));
                lemma_path_start_monotone(es, i + 1, es.len() as int);
                lemma_encode_concat(arena@, path);
            }
            spans.push((at, n as u32));
            metas.push(entries[i].1);
            arena.append(&entries[i].0);
            at = at + n as u32;
            i += 1;
            proof {
                let after = encode_utf8(arena@);
                let piece = encode_utf8(path);
                assert(after == before + piece);
                encode_utf8_valid_utf8(arena@);
                encode_utf8_valid_utf8(path);
                assert forall|j: int| 0 <= j < i implies {
                    &&& span_ok(after, #[trigger] spans@[j])
                    &&& span_text(after, spans@[j]) == es[j].0
                    &&& metas@[j] == es[j].1
                } by {
                    if j < i - 1 {
                        let s = old_spans[j];
                        assert(spans@[j] == s);
                        assert(metas@[j] == old_metas[j]);
                        lemma_boundary_append(before, piece, s.0 as int);
                        lemma_boundary_append(before, piece, s.0 + s.1);
                        assert(after.subrange(s.0 as int, s.0 + s.1) =~= before.subrange(
                            s.0 as int,
                            s.0 + s.1,
                        ));
                    } else {
                        is_char_boundary_start_end_of_seq(before);
                        lemma_boundary_append(before, piece, 0);
                        is_char_boundary_start_end_of_seq(after);
                        assert(after.subrange(before.len() as int, after.len() as int) =~= piece);
                        encode_utf8_decode_utf8(path);
                    }
                }
            }
        }
        let r = PathStore { arena, spans, metas };
        assert(r@ =~= es);
        r
    }

    pub fn len(&self) -> (r: usize)
        ensures
            r == self@.len(),
    {
        self.spans.len()
    }

    pub fn is_empty(&self) -> (r: bool)
        ensures
            r == (self@.len() == 0),
    {
        self.spans.len() == 0
    }

    pub fn get(&self, i: usize) -> (r: &str)
        requires
            i < self@.len(),
        ensures
            r@ == self@[i as int].0,
            r@.len() <= encode_utf8(r@).len() <= u32::MAX,
    {
        proof {
            use_type_invariant(self);
        }
        let (off, len) = self.spans[i];
        let ghost bytes = encode_utf8(self.arena@);
        proof {
            assert(span_ok(bytes, self.spans@[i as int]));
            encode_utf8_valid_utf8(self.arena@);
            lemma_boundary_after(bytes, off as int, off + len);
        }
        let (_, rest) = self.arena.as_str().split_at(off as usize);
        let (r, _) = rest.split_at(len as usize);
        proof {
            assert(bytes.subrange(off as int, bytes.len() as int).subrange(0, len as int)
                =~= bytes.subrange(off as int, off + len));
            encode_utf8_decode_utf8(r@);
            lemma_encoding_len(r@);
        }
        r
    }

    pub fn meta(&self, i: usize) -> (r: FileMeta)
        requires
            i < self@.len(),
        ensures
            r == self@[i as int].1,
    {
        proof {
            use_type_invariant(self);
        }
        self.metas[i]
    }

    /// Every path, in order.
    pub fn iter(&self) -> (r: Vec<&str>)
        ensures
            r@.len() == self@.len(),
            forall|i: int| 0 <= i < r@.len() ==> #[trigger] r@[i]@ == self@[i].0,
    {
        let mut out: Vec<&str> = Vec::new();
        let mut i: usize = 0;
        while i < self.len()
            invariant
                i <= self@.len(),
                out@.len() == i,
                forall|j: int| 0 <= j < i ==> #[trigger] out@[j]@ == self@[j].0,
            decreases self@.len() - i,
        {
            out.push(self.get(i));
            i += 1;
        }
        out
    }
}

// -------------------------------------------------------------- file format

pub const VERSION: u32 = 3;

pub open spec fn magic() -> Seq<u8> {
    seq![0x46u8, 0x53, 0x45, 0x41, 0x52, 0x43, 0x48, 0x00]
}

fn magic_bytes() -> (r: Vec<u8>)
    ensures
        r@ == magic(),
{
    let r: Vec<u8> = vec![0x46u8, 0x53, 0x45, 0x41, 0x52, 0x43, 0x48, 0x00];
    assert(r@ =~= magic());
    r
}

pub open spec fn lens_at(i: int) -> int {
    20 + 4 * i
}

pub open spec fn metas_at(n: nat, i: int) -> int {
    20 + 4 * (n as int) + 16 * i
}

pub open spec fn arena_at(n: nat) -> int {
    20 + 20 * (n as int)
}

/// What the file of an index holds: magic (`FSEARCH\0`), version and count,
/// then three contiguous tables: lengths (u32), metadata (i64 mtime and u64
/// size), and the path arena. All integers are little-endian.
pub open spec fn is_index_file(d: Seq<u8>, es: Seq<EntryView>) -> bool {
    let n = es.len();
    &&& fits_arena(es)
    &&& n <= u64::MAX
    &&& d.len() == arena_at(n) + path_start(es, n as int)
    &&& d.subrange(0, 8) == magic()
    &&& d.subrange(8, 12) == le(VERSION as nat, 4)
    &&& d.subrange(12, 20) == le(n, 8)
    &&& forall|i: int|
        0 <= i < n ==> #[trigger] d.subrange(lens_at(i), lens_at(i) + 4) == le(byte_len(es[i].0), 4)
    &&& forall|i: int|
        0 <= i < n ==> #[trigger] d.subrange(metas_at(n, i), metas_at(n, i) + 8) == le(
            bits64(es[i].1.mtime as int),
            8,
        )
    &&& forall|i: int|
        0 <= i < n ==> #[trigger] d.subrange(metas_at(n, i) + 8, metas_at(n, i) + 16) == le(
            es[i].1.size as nat,
            8,
        )
    &&& forall|i: int|
        0 <= i < n ==> #[trigger] d.subrange(
            arena_at(n) + path_start(es, i),
            arena_at(n) + path_start(es, i + 1),
        ) == encode_utf8(es[i].0)
}

/// The bytes of the index file of the given entries.
pub fn encode(entries: &[Entry]) -> (r: Result<Vec<u8>, ArenaTooLarge>)
    ensures
        match r {
            Ok(d) => is_index_file(d@, entry_views(entries@)),
            Err(_) => !fits_arena(entry_views(entries@)),
        },
{
    let ghost es = entry_views(entries@);
    let lengths = path_lengths(entries);
    match checked_arena_size(&lengths) {
        Err(e) => {
            return Err(e);
        },
        Ok(_) => {},
    }
    let ghost n = entries@.len();
    let count: usize = entries.len();
    let mark = magic_bytes();
    let mut d: Vec<u8> = Vec::new();
    push_bytes(&mut d, &mark);
    push_le(&mut d, VERSION as u64, 4);
    push_le(&mut d, count as u64, 8);
    proof {
        lemma_le_len(VERSION as nat, 4);
        lemma_le_len(n, 8);
        assert(d@.subrange(0, 8) =~= magic());
        assert(d@.subrange(8, 12) =~= le(VERSION as nat, 4));
        assert(d@.subrange(12, 20) =~= le(n, 8));
    }
    let ghost head = d@;
    let mut i: usize = 0;
    while i < count
        invariant
            i <= count,
            count == entries.len(),
            n == count,
            es == entry_views(entries@),
            fits_arena(es),
            head.len() == 20,
            d@.len() == lens_at(i as int),
            d@.take(20) == head,
            forall|j: int|
                0 <= j < i ==> #[trigger] d@.subrange(lens_at(j), lens_at(j) + 4) == le(
                    byte_len(es[j].0),
                    4,
                ),
        decreases count - i,
    {
        let ghost before = d@;
        let bytes = entries[i].0.as_str().as_bytes();
        proof {
            assert(es[i as int] == entry_view(entries@[i as int]));
            lemma_path_start_monotone(es, i + 1, es.len() as int);
            lemma_le_len(byte_len(es[i as int].0), 4);
        }
        push_le(&mut d, bytes.len() as u64, 4);
        proof {
            assert(d@.take(20) =~= before.take(20));
            assert forall|j: int| 0 <= j < i + 1 implies #[trigger] d@.subrange(
                lens_at(j),
                lens_at(j) + 4,
            ) == le(byte_len(es[j].0), 4) by {
                if j < i {
                    assert(d@.subrange(lens_at(j), lens_at(j) + 4) =~= before.subrange(
                        lens_at(j),
                        lens_at(j) + 4,
                    ));
                } else {
                    assert(d@.subrange(lens_at(j), lens_at(j) + 4) =~= le(byte_len(es[j].0), 4));
                }
            }
        }
        i += 1;
    }
    let ghost lens = d@;
    assert(lens.take(lens_at(n as int)) =~= lens);
    let mut i: usize = 0;
    while i < count
        invariant
            i <= count,
            count == entries.len(),
            n == count,
            es == entry_views(entries@),
            lens.len() == lens_at(n as int),
            d@.len() == metas_at(n, i as int),
            d@.take(lens_at(n as int)) == lens,
            forall|j: int|
                0 <= j < i ==> #[trigger] d@.subrange(metas_at(n, j), metas_at(n, j) + 8) == le(
                    bits64(es[j].1.mtime as int),
                    8,
                ),
            forall|j: int|
                0 <= j < i ==> #[trigger] d@.subrange(metas_at(n, j) + 8, metas_at(n, j) + 16)
                    == le(es[j].1.size as nat, 8),
        decreases count - i,
    {
        let ghost before = d@;
        let meta = entries[i].1;
        proof {
            assert(es[i as int] == entry_view(entries@[i as int]));
            lemma_le_len(bits64(meta.mtime as int), 8);
            lemma_le_len(meta.size as nat, 8);
        }
        push_le(&mut d, to_bits64(meta.mtime), 8);
        push_le(&mut d, meta.size, 8);
        proof {
            assert(d@.take(lens_at(n as int)) =~= before.take(lens_at(n as int)));
            assert forall|j: int| 0 <= j < i + 1 implies #[trigger] d@.subrange(
                metas_at(n, j),
                metas_at(n, j) + 8,
            ) == le(bits64(es[j].1.mtime as int), 8) by {
                if j < i {
                    assert(d@.subrange(metas_at(n, j), metas_at(n, j) + 8) =~= before.subrange(
                        metas_at(n, j),
                        metas_at(n, j) + 8,
                    ));
                } else {
                    assert(d@.subrange(metas_at(n, j), metas_at(n, j) + 8) =~= le(
                        bits64(es[j].1.mtime as int),
                        8,
                    ));
                }
            }
            assert forall|j: int| 0 <= j < i + 1 implies #[trigger] d@.subrange(
                metas_at(n, j) + 8,
                metas_at(n, j) + 16,
            ) == le(es[j].1.size as nat, 8) by {
                if j < i {
                    assert(d@.subrange(metas_at(n, j) + 8, metas_at(n, j) + 16)
                        =~= before.subrange(metas_at(n, j) + 8, metas_at(n, j) + 16));
                } else {
                    assert(d@.subrange(metas_at(n, j) + 8, metas_at(n, j) + 16) =~= le(
                        es[j].1.size as nat,
                        8,
                    ));
                }
            }
        }
        i += 1;
    }
    let ghost tables = d@;
    assert(tables.take(arena_at(n)) =~= tables);
    let mut i: usize = 0;
    while i < count
        invariant
            i <= count,
            count == entries.len(),
            n == count,
            es == entry_views(entries@),
            tables.len() == arena_at(n),
            d@.len() == arena_at(n) + path_start(es, i as int),
            d@.take(arena_at(n)) == tables,
            forall|j: int|
                0 <= j < i ==> #[trigger] d@.subrange(
                    arena_at(n) + path_start(es, j),
                    arena_at(n) + path_start(es, j + 1),
                ) == encode_utf8(es[j].0),
        decreases count - i,
    {
        let ghost before = d@;
        let bytes = entries[i].0.as_str().as_bytes();
        assert(es[i as int] == entry_view(entries@[i as int]));
        push_bytes(&mut d, bytes);
        proof {
            assert(d@.take(arena_at(n)) =~= before.take(arena_at(n)));
            assert forall|j: int| 0 <= j < i + 1 implies #[trigger] d@.subrange(
                arena_at(n) + path_start(es, j),
                arena_at(n) + path_start(es, j + 1),
            ) == encode_utf8(es[j].0) by {
                let (a, b) = (arena_at(n) + path_start(es, j), arena_at(n) + path_start(es, j + 1));
                if j < i {
                    lemma_path_start_monotone(es, j + 1, i as int);
                    assert(d@.subrange(a, b) =~= before.subrange(a, b));
                } else {
                    assert(d@.subrange(a, b) =~= encode_utf8(es[j].0));
                }
            }
        }
        i += 1;
    }
    proof {
        lemma_prefix_kept(d@, tables, lens, head, n, es);
    }
    Ok(d)
}

/// What the shorter prefixes of a file hold, the file holds.
proof fn lemma_prefix_kept(
    d: Seq<u8>,
    tables: Seq<u8>,
    lens: Seq<u8>,
    head: Seq<u8>,
    n: nat,
    es: Seq<EntryView>,
)
    requires
        head.len() == 20,
        lens.len() == lens_at(n as int),
        tables.len() == arena_at(n),
        d.len() >= arena_at(n),
        d.take(arena_at(n)) == tables,
        tables.take(lens_at(n as int)) == lens,
        lens.take(20) == head,
    ensures
        forall|a: int, b: int|
            0 <= a <= b <= arena_at(n) ==> #[trigger] d.subrange(a, b) == tables.subrange(a, b),
        forall|a: int, b: int|
            0 <= a <= b <= lens_at(n as int) ==> #[trigger] d.subrange(a, b) == lens.subrange(a, b),
        forall|a: int, b: int|
            0 <= a <= b <= 20 ==> #[trigger] d.subrange(a, b) == head.subrange(a, b),
{
    assert forall|a: int, b: int| 0 <= a <= b <= arena_at(n) implies #[trigger] d.subrange(a, b)
        == tables.subrange(a, b) by {
        assert(d.take(arena_at(n)).subrange(a, b) =~= d.subrange(a, b));
    }
    assert forall|a: int, b: int| 0 <= a <= b <= lens_at(n as int) implies #[trigger] d.subrange(
        a,
        b,
    ) == lens.subrange(a, b) by {
        assert(tables.take(lens_at(n as int)).subrange(a, b) =~= tables.subrange(a, b));
    }
    assert forall|a: int, b: int| 0 <= a <= b <= 20 implies #[trigger] d.subrange(a, b)
        == head.subrange(a, b) by {
        assert(lens.take(20).subrange(a, b) =~= lens.subrange(a, b));
    }
}

/// The bytes of the paths `i..j` of a file.
spec fn arena_part(d: Seq<u8>, es: Seq<EntryView>, i: int, j: int) -> Seq<u8> {
    d.subrange(arena_at(es.len()) + path_start(es, i), arena_at(es.len()) + path_start(es, j))
}

proof fn lemma_arena_valid(d: Seq<u8>, es: Seq<EntryView>, i: int, j: int)
    requires
        is_index_file(d, es),
        0 <= i <= j <= es.len(),
    ensures
        valid_utf8(arena_part(d, es, i, j)),
    decreases j,
{
    lemma_path_start_monotone(es, i, j);
    lemma_path_start_monotone(es, j, es.len() as int);
    if i < j {
        lemma_arena_valid(d, es, i, j - 1);
        lemma_path_start_monotone(es, i, j - 1);
        let piece = arena_part(d, es, j - 1, j);
        assert(piece == encode_utf8(es[j - 1].0)) by {
            let k = j - 1;
            assert(d.subrange(
                arena_at(es.len()) + path_start(es, k),
                arena_at(es.len()) + path_start(es, k + 1),
            ) == encode_utf8(es[k].0));
        }
        encode_utf8_valid_utf8(es[j - 1].0);
        valid_utf8_concat(arena_part(d, es, i, j - 1), piece);
        assert(arena_part(d, es, i, j) =~= arena_part(d, es, i, j - 1) + piece);
    } else {
        assert(arena_part(d, es, i, j).len() == 0);
    }
}

/// Every path of a file ends at a character boundary of the arena.
proof fn lemma_arena_boundary(d: Seq<u8>, es: Seq<EntryView>, i: int)
    requires
        is_index_file(d, es),
        0 <= i <= es.len(),
    ensures
        valid_utf8(d.subrange(arena_at(es.len()), d.len() as int)),
        is_char_boundary(
            d.subrange(arena_at(es.len()), d.len() as int),
            path_start(es, i) as int,
        ),
{
    let n = es.len() as int;
    let arena = d.subrange(arena_at(es.len()), d.len() as int);
    let a = arena_part(d, es, 0, i);
    let b = arena_part(d, es, i, n);
    lemma_arena_valid(d, es, 0, i);
    lemma_arena_valid(d, es, i, n);
    lemma_path_start_monotone(es, i, n);
    assert(arena =~= a + b);
    is_char_boundary_start_end_of_seq(a);
    lemma_boundary_append(a, b, 0);
}

proof fn lemma_count(d: Seq<u8>, es: Seq<EntryView>)
    requires
        is_index_file(d, es),
    ensures
        d.len() >= 20,
        from_le(d.subrange(8, 12)) == VERSION,
        from_le(d.subrange(12, 20)) == es.len(),
        20 + 20 * es.len() <= d.len(),
{
    lemma_byte_ranges();
    lemma_from_le_of_le(VERSION as nat, 4);
    lemma_from_le_of_le(es.len(), 8);
}

proof fn lemma_row_len(d: Seq<u8>, es: Seq<EntryView>, i: int)
    requires
        is_index_file(d, es),
        0 <= i < es.len(),
    ensures
        from_le(d.subrange(lens_at(i), lens_at(i) + 4)) == byte_len(es[i].0),
        path_start(es, i + 1) <= u32::MAX,
{
    lemma_byte_ranges();
    lemma_path_start_monotone(es, i + 1, es.len() as int);
    lemma_from_le_of_le(byte_len(es[i].0), 4);
}

/// Reads an index file; none where the bytes are not one.
pub fn decode(data: &[u8]) -> (r: Option<PathStore>)
    ensures
        match r {
            Some(store) => is_index_file(data@, store@),
            None => forall|es: Seq<EntryView>| !is_index_file(data@, es),
        },
{
    let ghost d = data@;
    let ghost es = choose|es: Seq<EntryView>| is_index_file(d, es);
    let ghost good = is_index_file(d, es);
    proof {
        if good {
            lemma_count(d, es);
        }
    }
    if data.len() < 20 {
        return None;
    }
    let mark = magic_bytes();
    if !bytes_at(data, 0, &mark) {
        return None;
    }
    if read_le(data, 8, 4) != VERSION as u64 {
        return None;
    }
    let wide = read_le(data, 12, 8);
    if wide > ((data.len() - 20) / 20) as u64 {
        return None;
    }
    let count: usize = wide as usize;
    let at: usize = 20 + 20 * count;
    let arena_bytes = vstd::slice::slice_subrange(data, at, data.len());
    let ghost bytes = arena_bytes@;
    proof {
        if good {
            lemma_arena_boundary(d, es, 0);
        }
    }
    let text: &str = match utf8_text(arena_bytes) {
        None => {
            return None;
        },
        Some(t) => t,
    };
    let mut spans: Vec<(u32, u32)> = Vec::new();
    let mut offset: u32 = 0;
    let mut i: usize = 0;
    proof {
        is_char_boundary_start_end_of_seq(bytes);
    }
    while i < count
        invariant
            i <= count,
            d == data@,
            20 + 20 * count <= data.len(),
            bytes == encode_utf8(text@),
            bytes == d.subrange(arena_at(count as nat), d.len() as int),
            valid_utf8(bytes),
            good == is_index_file(d, es),
            !good ==> forall|other: Seq<EntryView>| !is_index_file(d, other),
            good ==> es.len() == count && offset == path_start(es, i as int),
            spans@.len() == i,
            is_char_boundary(bytes, offset as int),
            forall|j: int|
                0 <= j < i ==> {
                    &&& span_ok(bytes, #[trigger] spans@[j])
                    &&& from_le(d.subrange(lens_at(j), lens_at(j) + 4)) == spans@[j].1
                    &&& spans@[j].0 + spans@[j].1 == (if j + 1 < i {
                        spans@[j + 1].0
                    } else {
                        offset
                    })
                },
            i > 0 ==> spans@[0].0 == 0,
            i == 0 ==> offset == 0,
        decreases count - i,
    {
        proof {
            if good {
                lemma_row_len(d, es, i as int);
                lemma_arena_boundary(d, es, i + 1);
            }
        }
        let len: u32 = read_le(data, 20 + 4 * i, 4) as u32;
        match offset.checked_add(len) {
            None => {
                return None;
            },
            Some(next) => {
                if !text.is_char_boundary(next as usize) {
                    return None;
                }
                proof {
                    lemma_boundary_range(bytes, next as int);
                }
                spans.push((offset, len));
                offset = next;
            },
        }
        i += 1;
    }
    if arena_bytes.len() != offset as usize {
        return None;
    }
    let mut metas: Vec<FileMeta> = Vec::new();
    let mut i: usize = 0;
    while i < count
        invariant
            i <= count,
            d == data@,
            20 + 20 * count <= data.len(),
            metas@.len() == i,
            forall|j: int|
                0 <= j < i ==> {
                    &&& bits64((#[trigger] metas@[j]).mtime as int) == from_le(
                        d.subrange(metas_at(count as nat, j), metas_at(count as nat, j) + 8),
                    )
                    &&& metas@[j].size == from_le(
                        d.subrange(metas_at(count as nat, j) + 8, metas_at(count as nat, j) + 16),
                    )
                },
        decreases count - i,
    {
        let base: usize = 20 + 4 * count + 16 * i;
        metas.push(
            FileMeta {
                mtime: from_bits64(read_le(data, base, 8)),
                size: read_le(data, base + 8, 8),
            },
        );
        i += 1;
    }
    let store = PathStore { arena: text.to_owned(), spans, metas };
    proof {
        lemma_decoded(d, store, bytes, count as nat);
    }
    Some(store)
}

#[verifier::spinoff_prover]
#[verifier::rlimit(60)]
proof fn lemma_decoded(d: Seq<u8>, store: PathStore, bytes: Seq<u8>, n: nat)
    requires
        d.len() >= arena_at(n),
        n <= u64::MAX,
        bytes == encode_utf8(store.arena@),
        bytes == d.subrange(arena_at(n), d.len() as int),
        bytes.len() <= u32::MAX,
        store.spans@.len() == n,
        store.metas@.len() == n,
        d.subrange(0, 8) == magic(),
        from_le(d.subrange(8, 12)) == VERSION,
        from_le(d.subrange(12, 20)) == n,
        n > 0 ==> store.spans@[0].0 == 0,
        n == 0 ==> bytes.len() == 0,
        forall|j: int|
            0 <= j < n ==> {
                &&& span_ok(bytes, #[trigger] store.spans@[j])
                &&& from_le(d.subrange(lens_at(j), lens_at(j) + 4)) == store.spans@[j].1
                &&& store.spans@[j].0 + store.spans@[j].1 == (if j + 1 < n {
                    store.spans@[j + 1].0 as nat
                } else {
                    bytes.len()
                })
            },
        forall|j: int|
            0 <= j < n ==> {
                &&& bits64((#[trigger] store.metas@[j]).mtime as int) == from_le(
                    d.subrange(metas_at(n, j), metas_at(n, j) + 8),
                )
                &&& store.metas@[j].size == from_le(
                    d.subrange(metas_at(n, j) + 8, metas_at(n, j) + 16),
                )
            },
    ensures
        is_index_file(d, store@),
{
    let es = store@;
    encode_utf8_valid_utf8(store.arena@);
    assert forall|i: int| 0 <= i < n implies encode_utf8(es[i].0) == bytes.subrange(
        store.spans@[i].0 as int,
        store.spans@[i].0 + store.spans@[i].1,
    ) by {
        let sp = store.spans@[i];
        assert(span_ok(bytes, sp));
        lemma_boundary_after(bytes, sp.0 as int, sp.0 + sp.1);
        decode_utf8_encode_utf8(bytes.subrange(sp.0 as int, sp.0 + sp.1));
    }
    assert forall|i: int| 0 <= i <= n implies path_start(es, i) == (if i < n {
        store.spans@[i].0 as nat
    } else {
        bytes.len()
    }) by {
        lemma_decoded_start(store, bytes, n, i);
    }
    lemma_le_of_from_le(d.subrange(8, 12));
    lemma_le_of_from_le(d.subrange(12, 20));
    assert forall|i: int| 0 <= i < n implies #[trigger] d.subrange(lens_at(i), lens_at(i) + 4)
        == le(byte_len(es[i].0), 4) by {
        assert(span_ok(bytes, store.spans@[i]));
        lemma_le_of_from_le(d.subrange(lens_at(i), lens_at(i) + 4));
    }
    assert forall|i: int| 0 <= i < n implies #[trigger] d.subrange(
        metas_at(n, i),
        metas_at(n, i) + 8,
    ) == le(bits64(es[i].1.mtime as int), 8) by {
        assert(es[i].1 == store.metas@[i]);
        lemma_le_of_from_le(d.subrange(metas_at(n, i), metas_at(n, i) + 8));
    }
    assert forall|i: int| 0 <= i < n implies #[trigger] d.subrange(
        metas_at(n, i) + 8,
        metas_at(n, i) + 16,
    ) == le(es[i].1.size as nat, 8) by {
        assert(es[i].1 == store.metas@[i]);
        lemma_le_of_from_le(d.subrange(metas_at(n, i) + 8, metas_at(n, i) + 16));
    }
    assert forall|i: int| 0 <= i < n implies #[trigger] d.subrange(
        arena_at(n) + path_start(es, i),
        arena_at(n) + path_start(es, i + 1),
    ) == encode_utf8(es[i].0) by {
        let sp = store.spans@[i];
        assert(span_ok(bytes, sp));
        assert(d.subrange(arena_at(n) + sp.0, arena_at(n) + sp.0 + sp.1) =~= bytes.subrange(
            sp.0 as int,
            sp.0 + sp.1,
        ));
    }
}

proof fn lemma_decoded_start(store: PathStore, bytes: Seq<u8>, n: nat, i: int)
    requires
        store.spans@.len() == n,
        0 <= i <= n,
        n > 0 ==> store.spans@[0].0 == 0,
        n == 0 ==> bytes.len() == 0,
        forall|j: int|
            0 <= j < n ==> {
                &&& span_ok(bytes, #[trigger] store.spans@[j])
                &&& store.spans@[j].0 + store.spans@[j].1 == (if j + 1 < n {
                    store.spans@[j + 1].0 as nat
                } else {
                    bytes.len()
                })
            },
        forall|j: int|
            0 <= j < n ==> encode_utf8(#[trigger] store@[j].0) == bytes.subrange(
                store.spans@[j].0 as int,
                store.spans@[j].0 + store.spans@[j].1,
            ),
    ensures
        path_start(store@, i) == (if i < n {
            store.spans@[i].0 as nat
        } else {
            bytes.len()
        }),
    decreases i,
{
    if i > 0 {
        lemma_decoded_start(store, bytes, n, i - 1);
        assert(span_ok(bytes, store.spans@[i - 1]));
        assert(byte_len(store@[i - 1].0) == store.spans@[i - 1].1);
    }
}

// --------------------------------------------------------------------- laws

proof fn lemma_same_starts(d: Seq<u8>, a: Seq<EntryView>, b: Seq<EntryView>, i: int)
    requires
        is_index_file(d, a),
        is_index_file(d, b),
        a.len() == b.len(),
        0 <= i <= a.len(),
    ensures
        path_start(a, i) == path_start(b, i),
    decreases i,
{
    if i > 0 {
        lemma_same_starts(d, a, b, i - 1);
        lemma_row_len(d, a, i - 1);
        lemma_row_len(d, b, i - 1);
    }
}

/// A file is the index of one list of entries only.
pub proof fn index_file_is_unambiguous(d: Seq<u8>, a: Seq<EntryView>, b: Seq<EntryView>)
    requires
        is_index_file(d, a),
        is_index_file(d, b),
    ensures
        a == b,
{
    lemma_count(d, a);
    lemma_count(d, b);
    let n = a.len();
    lemma_byte_ranges();
    assert forall|i: int| 0 <= i < n implies a[i] == b[i] by {
        lemma_same_starts(d, a, b, i);
        lemma_same_starts(d, a, b, i + 1);
        assert(d.subrange(arena_at(n) + path_start(a, i), arena_at(n) + path_start(a, i + 1))
            == encode_utf8(a[i].0));
        assert(d.subrange(arena_at(n) + path_start(b, i), arena_at(n) + path_start(b, i + 1))
            == encode_utf8(b[i].0));
        lemma_encoding_injective(a[i].0, b[i].0);
        assert(d.subrange(metas_at(n, i), metas_at(n, i) + 8) == le(
            bits64(a[i].1.mtime as int),
            8,
        ));
        assert(d.subrange(metas_at(n, i) + 8, metas_at(n, i) + 16) == le(a[i].1.size as nat, 8));
        lemma_from_le_of_le(bits64(a[i].1.mtime as int), 8);
        lemma_from_le_of_le(bits64(b[i].1.mtime as int), 8);
        lemma_from_le_of_le(a[i].1.size as nat, 8);
        lemma_from_le_of_le(b[i].1.size as nat, 8);
    }
    assert(a =~= b);
}

/// What is read from a file: the entries that it is the index of, or nothing.
pub open spec fn reads(d: Seq<u8>, read: Option<Seq<EntryView>>) -> bool {
    match read {
        Some(es) => is_index_file(d, es),
        None => forall|es: Seq<EntryView>| !is_index_file(d, es),
    }
}

/// What is read from a file that was written for `es` is `es`: reading
/// cannot fail, and nothing else can come out.
pub proof fn reading_gives_back_what_was_written(
    d: Seq<u8>,
    es: Seq<EntryView>,
    read: Option<Seq<EntryView>>,
)
    requires
        is_index_file(d, es),
        reads(d, read),
    ensures
        read == Some(es),
{
    match read {
        Some(store) => {
            index_file_is_unambiguous(d, es, store);
        },
        None => {},
    }
}

proof fn lemma_prefix_starts(
    d: Seq<u8>,
    a: Seq<EntryView>,
    e: Seq<u8>,
    b: Seq<EntryView>,
    i: int,
)
    requires
        is_index_file(d, a),
        is_index_file(e, b),
        d.is_prefix_of(e),
        a.len() == b.len(),
        0 <= i <= a.len(),
    ensures
        path_start(a, i) == path_start(b, i),
    decreases i,
{
    if i > 0 {
        lemma_prefix_starts(d, a, e, b, i - 1);
        lemma_count(d, a);
        lemma_row_len(d, a, i - 1);
        lemma_row_len(e, b, i - 1);
        let at = lens_at(i - 1);
        assert(d == e.subrange(0, d.len() as int));
        assert(d.subrange(at, at + 4) =~= e.subrange(at, at + 4));
    }
}

/// No index file starts another one.
pub proof fn index_files_are_complete(
    d: Seq<u8>,
    a: Seq<EntryView>,
    e: Seq<u8>,
    b: Seq<EntryView>,
)
    requires
        is_index_file(d, a),
        is_index_file(e, b),
        d.is_prefix_of(e),
    ensures
        d == e,
        a == b,
{
    lemma_count(d, a);
    lemma_count(e, b);
    assert(d == e.subrange(0, d.len() as int));
    assert(d.subrange(12, 20) =~= e.subrange(12, 20));
    lemma_prefix_starts(d, a, e, b, a.len() as int);
    assert(d =~= e);
    index_file_is_unambiguous(d, a, b);
}

/// Of an index file that was cut, or has something behind it, nothing is read.
pub proof fn index_files_are_read_whole(
    d: Seq<u8>,
    es: Seq<EntryView>,
    n: int,
    more: Seq<u8>,
    cut: Option<Seq<EntryView>>,
    lengthened: Option<Seq<EntryView>>,
)
    requires
        is_index_file(d, es),
        0 <= n < d.len(),
        more.len() > 0,
        reads(d.take(n), cut),
        reads(d + more, lengthened),
    ensures
        cut is None,
        lengthened is None,
{
    if let Some(other) = cut {
        assert(d.take(n) =~= d.subrange(0, n));
        index_files_are_complete(d.take(n), other, d, es);
    }
    if let Some(other) = lengthened {
        assert(d =~= (d + more).subrange(0, d.len() as int));
        index_files_are_complete(d, es, d + more, other);
    }
}

/// The entries leave no freedom to the file: two files of the same entries
/// are equal.
pub proof fn index_file_is_determined(a: Seq<u8>, b: Seq<u8>, es: Seq<EntryView>)
    requires
        is_index_file(a, es),
        is_index_file(b, es),
    ensures
        a == b,
{
    let n = es.len();
    assert forall|k: int| 0 <= k < a.len() implies a[k] == b[k] by {
        if k < 8 {
            assert(a[k] == a.subrange(0, 8)[k]);
            assert(b[k] == b.subrange(0, 8)[k]);
        } else if k < 12 {
            assert(a[k] == a.subrange(8, 12)[k - 8]);
            assert(b[k] == b.subrange(8, 12)[k - 8]);
        } else if k < 20 {
            assert(a[k] == a.subrange(12, 20)[k - 12]);
            assert(b[k] == b.subrange(12, 20)[k - 12]);
        } else if k < lens_at(n as int) {
            let i = (k - 20) / 4;
            let at = lens_at(i);
            assert(a[k] == a.subrange(at, at + 4)[k - at]);
            assert(b[k] == b.subrange(at, at + 4)[k - at]);
        } else if k < arena_at(n) {
            let i = (k - lens_at(n as int)) / 16;
            let at = metas_at(n, i);
            if k < at + 8 {
                assert(a[k] == a.subrange(at, at + 8)[k - at]);
                assert(b[k] == b.subrange(at, at + 8)[k - at]);
            } else {
                assert(a[k] == a.subrange(at + 8, at + 16)[k - at - 8]);
                assert(b[k] == b.subrange(at + 8, at + 16)[k - at - 8]);
            }
        } else {
            let i = lemma_position(es, n as int, k - arena_at(n));
            let (x, y) = (arena_at(n) + path_start(es, i), arena_at(n) + path_start(es, i + 1));
            lemma_path_start_monotone(es, i + 1, n as int);
            assert(a.subrange(x, y) == encode_utf8(es[i].0));
            assert(b.subrange(x, y) == encode_utf8(es[i].0));
            assert(a[k] == a.subrange(x, y)[k - x]);
            assert(b[k] == b.subrange(x, y)[k - x]);
        }
    }
    assert(a =~= b);
}

proof fn lemma_position(es: Seq<EntryView>, n: int, p: int) -> (i: int)
    requires
        0 <= p < path_start(es, n),
        n >= 0,
    ensures
        0 <= i < n,
        path_start(es, i) <= p < path_start(es, i + 1),
    decreases n,
{
    if p < path_start(es, n - 1) {
        lemma_position(es, n - 1, p)
    } else {
        n - 1
    }
}

/// Where the index is: below `XDG_CACHE_HOME` where that is set.
pub fn default_cache_path(set: Option<&str>, home: Option<&str>) -> (r: String)
    ensures
        r@ == program_file(base_dir(set, home, ".cache"@), "index.bin"@),
{
    program_path(set, home, ".cache", "index.bin")
}

} // verus!
