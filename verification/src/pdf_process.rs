//! PDF parsing runs in a helper process with bounded resources. Here is what
//! bounds them: the accounting of its heap, and what passes through its pipe.

use crate::codec::{lemma_encode_concat, push_bytes, utf8_text};
use crate::document_cache::MAX_ERROR_BYTES;
use crate::office::text_result;
use crate::pdf::MAX_PDF_BYTES;
use crate::text::{chars_of, joined, string_of_range};
use vstd::prelude::*;
use vstd::string::*;
use vstd::utf8::*;

verus! {

pub const HEAP_BYTES: usize = 268_435_456;

pub const CPU_SECONDS: u64 = 3;

pub const WALL_SECONDS: u64 = 10;

pub const OUTPUT_BYTES: usize = 8_388_608;

// ---------------------------------------------------------------------- heap

/// The accounting of a heap. It starts with the process; the finite limit is
/// enabled only in the helper.
#[derive(Debug)]
pub struct PdfAllocator {
    pub live: usize,
    pub limit: usize,
}

/// What an allocation costs: its size, alignment slack and an overhead.
pub open spec fn charge_of(size: usize, align: usize) -> Option<usize> {
    if size + align + 64 > usize::MAX {
        None
    } else {
        Some((size + align + 64) as usize)
    }
}

/// What is live once `bytes` more are, if the limit allows them.
pub open spec fn admitted(live: usize, bytes: usize, limit: usize) -> Option<usize> {
    if live + bytes > limit {
        None
    } else {
        Some((live + bytes) as usize)
    }
}

pub fn charge(size: usize, align: usize) -> (r: Option<usize>)
    ensures
        r == charge_of(size, align),
{
    match size.checked_add(align) {
        None => None,
        Some(n) => n.checked_add(64),
    }
}

/// What is live with `bytes` more, unless that is beyond the limit.
pub fn reserve(live: usize, bytes: usize, limit: usize) -> (r: Option<usize>)
    ensures
        r == admitted(live, bytes, limit),
{
    match live.checked_add(bytes) {
        None => None,
        Some(next) => {
            if next <= limit {
                Some(next)
            } else {
                None
            }
        },
    }
}

impl PdfAllocator {
    pub fn new() -> (r: PdfAllocator)
        ensures
            r.live == 0,
            r.limit == usize::MAX,
    {
        PdfAllocator { live: 0, limit: usize::MAX }
    }

    /// Takes the allocation of a block to account; nothing is taken if it is
    /// refused.
    pub fn allocate(&mut self, size: usize, align: usize) -> (r: bool)
        ensures
            final(self).limit == old(self).limit,
            ({
                let cost = charge_of(size, align);
                let next = admitted(old(self).live, cost->Some_0, old(self).limit);
                if cost is Some && next is Some {
                    r && final(self).live == next->Some_0
                } else {
                    !r && final(self).live == old(self).live
                }
            }),
            final(self).live <= final(self).limit || final(self).live == old(self).live,
    {
        match charge(size, align) {
            None => false,
            Some(cost) => match reserve(self.live, cost, self.limit) {
                None => false,
                Some(next) => {
                    self.live = next;
                    true
                },
            },
        }
    }

    /// Returns what a block was charged.
    pub fn release(&mut self, size: usize, align: usize)
        requires
            charge_of(size, align) matches Some(cost) && cost <= old(self).live,
        ensures
            final(self).limit == old(self).limit,
            final(self).live + charge_of(size, align)->Some_0 == old(self).live,
    {
        match charge(size, align) {
            None => {},
            Some(cost) => {
                self.live = self.live - cost;
            },
        }
    }

    /// Takes a move to a block of another size to account. The full new block
    /// is reserved first, as both may be live for a while; a refusal leaves the
    /// old charge as it was.
    pub fn reallocate(&mut self, size: usize, align: usize, new_size: usize) -> (r: bool)
        requires
            charge_of(size, align) matches Some(cost) && cost <= old(self).live,
        ensures
            final(self).limit == old(self).limit,
            r == (charge_of(new_size, align) is Some && admitted(
                old(self).live,
                charge_of(new_size, align)->Some_0,
                old(self).limit,
            ) is Some),
            r ==> final(self).live == old(self).live + charge_of(new_size, align)->Some_0
                - charge_of(size, align)->Some_0,
            !r ==> final(self).live == old(self).live,
    {
        if self.allocate(new_size, align) {
            self.release(size, align);
            true
        } else {
            false
        }
    }

    /// Sets the limit of the helper. Refused if more is live already.
    pub fn enable(&mut self) -> (r: Result<(), &'static str>)
        ensures
            final(self).live == old(self).live,
            final(self).limit == HEAP_BYTES,
            r is Ok == (old(self).live <= HEAP_BYTES),
            r matches Err(e) ==> e@ == "PDF helper startup exceeds heap budget"@,
    {
        self.limit = HEAP_BYTES;
        if self.live > HEAP_BYTES {
            Err("PDF helper startup exceeds heap budget")
        } else {
            Ok(())
        }
    }
}

/// What is live never passes the limit by an allocation.
pub proof fn allocations_respect_the_limit(live: usize, bytes: usize, limit: usize)
    ensures
        admitted(live, bytes, limit) matches Some(next) ==> next <= limit,
{
}

// ---------------------------------------------------------------------- pipe

/// How many characters fit in `limit` bytes.
pub open spec fn fitting_chars(s: Seq<char>, limit: nat, n: int) -> int
    decreases n,
{
    if n <= 0 || encode_utf8(s.take(n)).len() <= limit {
        n
    } else {
        fitting_chars(s, limit, n - 1)
    }
}

/// As much of the text as fits in `limit` bytes.
pub open spec fn cut(s: Seq<char>, limit: nat) -> Seq<char> {
    s.take(fitting_chars(s, limit, s.len() as int))
}

proof fn lemma_fitting(s: Seq<char>, limit: nat, k: int, n: int)
    requires
        0 <= k <= n <= s.len(),
        k < n ==> encode_utf8(s.take(k + 1)).len() > limit,
        encode_utf8(s.take(k)).len() <= limit,
    ensures
        fitting_chars(s, limit, n) == k,
    decreases n - k,
{
    if k < n {
        let a = s.take(k + 1);
        let b = s.subrange(k + 1, n);
        assert(s.take(n) =~= a + b);
        lemma_encode_concat(a, b);
        if k + 1 == n {
        }
        lemma_fitting(s, limit, k, n - 1);
    }
}

fn cut_text(text: &str, limit: usize) -> (r: String)
    ensures
        r@ == cut(text@, limit as nat),
{
    let s = chars_of(text);
    let mut used: usize = 0;
    let mut k: usize = 0;
    assert(s@.take(0) =~= Seq::empty());
    while k < s.len()
        invariant
            k <= s@.len(),
            used == encode_utf8(s@.take(k as int)).len(),
            used <= limit,
            s@ == text@,
        decreases s@.len() - k,
    {
        let width: usize = width_of(s[k]);
        proof {
            let one = seq![s@[k as int]];
            assert(s@.take(k + 1) =~= s@.take(k as int) + one);
            lemma_encode_concat(s@.take(k as int), one);
        }
        if width > limit - used {
            proof {
                lemma_fitting(s@, limit as nat, k as int, s@.len() as int);
            }
            let r = string_of_range(&s, 0, k);
            assert(r@ =~= s@.take(k as int));
            return r;
        }
        used += width;
        k += 1;
    }
    proof {
        lemma_fitting(s@, limit as nat, k as int, s@.len() as int);
    }
    let r = string_of_range(&s, 0, k);
    assert(r@ =~= s@.take(k as int));
    r
}

/// How many bytes a character takes.
fn width_of(c: char) -> (r: usize)
    ensures
        r == encode_utf8(seq![c]).len(),
        1 <= r <= 4,
{
    let ghost one = seq![c];
    proof {
        assert(one.drop_first() =~= Seq::empty());
        assert(encode_utf8(one) =~= encode_scalar(c as u32) + encode_utf8(one.drop_first()));
        char_is_scalar(c);
    }
    let n: u32 = c as u32;
    if n < 0x80 {
        1
    } else if n < 0x800 {
        2
    } else if n < 0x1_0000 {
        3
    } else {
        4
    }
}

/// What the helper sends: a tag, then the text or the error, cut to its limit.
pub open spec fn frame_of(r: Result<Seq<char>, Seq<char>>) -> Seq<u8> {
    match r {
        Ok(text) => seq![0u8] + encode_utf8(cut(text, OUTPUT_BYTES as nat)),
        Err(error) => seq![1u8] + encode_utf8(cut(error, MAX_ERROR_BYTES as nat)),
    }
}

/// What the parent makes of what it received.
pub open spec fn received(bytes: Seq<u8>) -> Result<Seq<char>, Seq<char>> {
    if bytes.len() == 0 || bytes[0] > 1 {
        Err("invalid PDF helper response"@)
    } else if !valid_utf8(bytes.skip(1)) {
        Err("invalid PDF helper output"@)
    } else if bytes[0] == 0 {
        Ok(decode_utf8(bytes.skip(1)))
    } else {
        Err(decode_utf8(bytes.skip(1)))
    }
}

/// The helper's response.
pub fn respond(result: &Result<String, String>) -> (r: Vec<u8>)
    ensures
        r@ == frame_of(text_result(*result)),
{
    let mut out: Vec<u8> = Vec::new();
    let body = match result {
        Ok(text) => {
            out.push(0);
            cut_text(text, OUTPUT_BYTES)
        },
        Err(error) => {
            out.push(1);
            cut_text(error, MAX_ERROR_BYTES as usize)
        },
    };
    push_bytes(&mut out, body.as_str().as_bytes());
    assert(out@ =~= frame_of(text_result(*result)));
    out
}

/// Reads the helper's response.
pub fn receive(bytes: &[u8]) -> (r: Result<String, String>)
    ensures
        text_result(r) == received(bytes@),
{
    if bytes.len() == 0 || bytes[0] > 1 {
        return Err("invalid PDF helper response".to_owned());
    }
    let body = vstd::slice::slice_subrange(bytes, 1, bytes.len());
    assert(body@ =~= bytes@.skip(1));
    match utf8_text(body) {
        None => Err("invalid PDF helper output".to_owned()),
        Some(text) => {
            proof {
                encode_utf8_decode_utf8(text@);
            }
            if bytes[0] == 0 {
                Ok(text.to_owned())
            } else {
                Err(text.to_owned())
            }
        },
    }
}

/// The parent receives what the helper sent, if it is within the limits.
pub proof fn responses_survive_the_pipe(r: Result<Seq<char>, Seq<char>>)
    requires
        match r {
            Ok(text) => encode_utf8(text).len() <= OUTPUT_BYTES,
            Err(error) => encode_utf8(error).len() <= MAX_ERROR_BYTES,
        },
    ensures
        received(frame_of(r)) == r,
{
    let body = match r {
        Ok(text) => text,
        Err(error) => error,
    };
    assert(body.take(body.len() as int) =~= body);
    assert(frame_of(r).skip(1) =~= encode_utf8(body));
    encode_utf8_valid_utf8(body);
    encode_utf8_decode_utf8(body);
}

/// What the helper answers: neither its input nor its output may be too large.
pub open spec fn helper_answer(
    input: nat,
    parsed: Result<Seq<char>, Seq<char>>,
) -> Result<Seq<char>, Seq<char>> {
    if input > MAX_PDF_BYTES {
        Err("PDF grew beyond the input-size limit"@)
    } else {
        match parsed {
            Err(e) => Err(e),
            Ok(text) => if encode_utf8(text).len() > OUTPUT_BYTES {
                Err("extracted PDF text exceeds 8 MiB"@)
            } else {
                Ok(text)
            },
        }
    }
}

/// Whether an input of this size may be parsed.
pub fn input_error(size: u64) -> (r: Option<&'static str>)
    ensures
        r is Some == (size > MAX_PDF_BYTES),
        r matches Some(e) ==> e@ == "PDF grew beyond the input-size limit"@,
{
    if size > MAX_PDF_BYTES {
        Some("PDF grew beyond the input-size limit")
    } else {
        None
    }
}

/// What the helper answers for what its parser found.
pub fn answer(input: u64, parsed: Result<String, String>) -> (r: Result<String, String>)
    ensures
        text_result(r) == helper_answer(input as nat, text_result(parsed)),
{
    match input_error(input) {
        Some(e) => Err(e.to_owned()),
        None => match parsed {
            Err(e) => Err(e),
            Ok(text) => {
                if text.as_str().as_bytes().len() > OUTPUT_BYTES {
                    Err("extracted PDF text exceeds 8 MiB".to_owned())
                } else {
                    Ok(text)
                }
            },
        },
    }
}

/// What happens on the pipe to the helper.
#[derive(Debug)]
pub enum PipeEvent {
    TimedOut,
    /// The pipe is closed; whether the helper has exited, and well.
    Closed(Option<bool>),
    Data(Vec<u8>),
    Blocked,
    Interrupted,
    Failed(String),
}

/// What the parent does next.
#[derive(Debug)]
pub enum PipeAction {
    Wait,
    Again,
    Done,
    Fail(String),
}

pub open spec fn fails_with(a: PipeAction, text: Seq<char>) -> bool {
    a matches PipeAction::Fail(e) && e@ == text
}

/// What the parent has received so far.
#[derive(Debug)]
pub struct Collector {
    pub bytes: Vec<u8>,
    pub cap: usize,
}

impl Collector {
    pub fn new(cap: usize) -> (r: Collector)
        ensures
            r.bytes@ == Seq::<u8>::empty(),
            r.cap == cap,
    {
        Collector { bytes: Vec::new(), cap }
    }

    /// Takes an event. The helper fails if it takes too long, says too much or
    /// exits badly.
    pub fn feed(&mut self, event: PipeEvent) -> (r: PipeAction)
        requires
            old(self).bytes@.len() <= old(self).cap,
        ensures
            final(self).cap == old(self).cap,
            final(self).bytes@.len() <= final(self).cap,
            match event {
                PipeEvent::Data(more) => if old(self).bytes@.len() + more@.len() > old(self).cap {
                    fails_with(r, "PDF helper exceeded output limit"@) && final(self).bytes@
                        == old(self).bytes@
                } else {
                    r is Again && final(self).bytes@ == old(self).bytes@ + more@
                },
                _ => final(self).bytes@ == old(self).bytes@,
            },
            match event {
                PipeEvent::TimedOut => fails_with(r, "PDF extraction exceeded time limit"@),
                PipeEvent::Closed(None) => r is Wait,
                PipeEvent::Closed(Some(true)) => r is Done,
                PipeEvent::Closed(Some(false)) => fails_with(
                    r,
                    "PDF helper failed (parser crash or resource limit)"@,
                ),
                PipeEvent::Data(_) => true,
                PipeEvent::Blocked => r is Wait,
                PipeEvent::Interrupted => r is Again,
                PipeEvent::Failed(e) => fails_with(r, "reading PDF helper: "@ + e@),
            },
    {
        match event {
            PipeEvent::TimedOut => PipeAction::Fail(
                "PDF extraction exceeded time limit".to_owned(),
            ),
            PipeEvent::Closed(None) => PipeAction::Wait,
            PipeEvent::Closed(Some(true)) => PipeAction::Done,
            PipeEvent::Closed(Some(false)) => PipeAction::Fail(
                "PDF helper failed (parser crash or resource limit)".to_owned(),
            ),
            PipeEvent::Data(more) => {
                if more.len() > self.cap - self.bytes.len() {
                    PipeAction::Fail("PDF helper exceeded output limit".to_owned())
                } else {
                    push_bytes(&mut self.bytes, &more);
                    PipeAction::Again
                }
            },
            PipeEvent::Blocked => PipeAction::Wait,
            PipeEvent::Interrupted => PipeAction::Again,
            PipeEvent::Failed(e) => PipeAction::Fail(joined("reading PDF helper: ", &e)),
        }
    }
}

} // verus!
