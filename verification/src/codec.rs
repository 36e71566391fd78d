//! Little-endian integers and UTF-8 text in byte sequences.

use vstd::prelude::*;
use vstd::string::*;
use vstd::utf8::*;

verus! {

/// The `k` low bytes of `n`, least significant first.
pub open spec fn le(n: nat, k: nat) -> Seq<u8>
    decreases k,
{
    if k == 0 {
        Seq::empty()
    } else {
        seq![(n % 256) as u8] + le(n / 256, (k - 1) as nat)
    }
}

/// The number whose bytes are given, least significant first.
pub open spec fn from_le(s: Seq<u8>) -> nat
    decreases s.len(),
{
    if s.len() == 0 {
        0
    } else {
        s[0] as nat + 256 * from_le(s.drop_first())
    }
}

/// 256^k.
pub open spec fn byte_range(k: nat) -> nat
    decreases k,
{
    if k == 0 {
        1
    } else {
        256 * byte_range((k - 1) as nat)
    }
}

pub proof fn lemma_le_len(n: nat, k: nat)
    ensures
        le(n, k).len() == k,
    decreases k,
{
    if k > 0 {
        lemma_le_len(n / 256, (k - 1) as nat);
    }
}

/// Reading back what was written.
pub proof fn lemma_from_le_of_le(n: nat, k: nat)
    requires
        n < byte_range(k),
    ensures
        from_le(le(n, k)) == n,
    decreases k,
{
    if k > 0 {
        lemma_from_le_of_le(n / 256, (k - 1) as nat);
        assert(le(n, k).drop_first() == le(n / 256, (k - 1) as nat));
    }
}

/// Every byte string is the encoding of the number that it denotes.
pub proof fn lemma_le_of_from_le(s: Seq<u8>)
    ensures
        le(from_le(s), s.len()) == s,
        from_le(s) < byte_range(s.len()),
    decreases s.len(),
{
    if s.len() > 0 {
        lemma_le_of_from_le(s.drop_first());
        assert(s == seq![s[0]] + s.drop_first());
    }
}

pub proof fn lemma_byte_ranges()
    ensures
        byte_range(4) == 0x1_0000_0000,
        byte_range(8) == 0x1_0000_0000_0000_0000,
{
    reveal_with_fuel(byte_range, 9);
}

/// Appends the `k` low bytes of `n`.
pub fn push_le(out: &mut Vec<u8>, n: u64, k: usize)
    ensures
        final(out)@ == old(out)@ + le(n as nat, k as nat),
    decreases k,
{
    if k > 0 {
        out.push((n % 256) as u8);
        push_le(out, n / 256, k - 1);
    }
    assert(out@ =~= old(out)@ + le(n as nat, k as nat));
}

/// Reads `k` bytes at `at`, least significant first.
pub fn read_le(s: &[u8], at: usize, k: usize) -> (r: u64)
    requires
        at + k <= s.len(),
        k <= 8,
    ensures
        r == from_le(s@.subrange(at as int, at + k)),
        k == 4 ==> r <= u32::MAX,
    decreases k,
{
    proof {
        lemma_le_of_from_le(s@.subrange(at as int, at + k));
        lemma_byte_ranges();
        reveal_with_fuel(byte_range, 9);
    }
    if k == 0 {
        0
    } else {
        let rest = read_le(s, at + 1, k - 1);
        assert(s@.subrange(at as int, at + k).drop_first() == s@.subrange(at + 1, at + k));
        s[at] as u64 + 256 * rest
    }
}

/// A signed number as an unsigned one with the same 64 bits.
pub open spec fn bits64(n: int) -> nat {
    if n >= 0 {
        n as nat
    } else {
        (n + 0x1_0000_0000_0000_0000) as nat
    }
}

pub fn to_bits64(n: i64) -> (r: u64)
    ensures
        r == bits64(n as int),
{
    if n >= 0 {
        n as u64
    } else {
        (n + 0x7fff_ffff_ffff_ffff + 1) as u64 + 0x8000_0000_0000_0000
    }
}

pub fn from_bits64(n: u64) -> (r: i64)
    ensures
        bits64(r as int) == n,
{
    if n < 0x8000_0000_0000_0000 {
        n as i64
    } else {
        (n - 0x8000_0000_0000_0000) as i64 - 0x7fff_ffff_ffff_ffff - 1
    }
}

/// `std::str::from_utf8` accepts exactly the valid UTF-8 sequences and hands
/// out the text that they encode.
#[verifier::external_body]
pub(crate) fn utf8_text(bytes: &[u8]) -> (r: Option<&str>)
    ensures
        r is Some == valid_utf8(bytes@),
        r matches Some(s) ==> encode_utf8(s@) == bytes@,
{
    std::str::from_utf8(bytes).ok()
}

/// Appends a slice of bytes.
pub fn push_bytes(out: &mut Vec<u8>, s: &[u8])
    ensures
        final(out)@ == old(out)@ + s@,
{
    let mut i: usize = 0;
    while i < s.len()
        invariant
            i <= s.len(),
            out@ == old(out)@ + s@.take(i as int),
        decreases s.len() - i,
    {
        out.push(s[i]);
        i += 1;
        assert(out@ =~= old(out)@ + s@.take(i as int));
    }
    assert(s@.take(i as int) == s@);
}

/// Whether `s` starts with the ASCII characters of `p`.
pub fn bytes_at(s: &[u8], at: usize, p: &[u8]) -> (r: bool)
    requires
        at + p.len() <= s.len(),
    ensures
        r == (s@.subrange(at as int, at + p@.len()) == p@),
{
    let mut i: usize = 0;
    while i < p.len()
        invariant
            i <= p.len(),
            at + p.len() <= s.len(),
            forall|j: int| 0 <= j < i ==> s@[at + j] == p@[j],
        decreases p.len() - i,
    {
        if s[at + i] != p[i] {
            assert(s@.subrange(at as int, at + p@.len())[i as int] != p@[i as int]);
            return false;
        }
        i += 1;
    }
    assert(s@.subrange(at as int, at + p@.len()) == p@);
    true
}

/// Two texts with the same encoding are equal.
pub proof fn lemma_encoding_injective(a: Seq<char>, b: Seq<char>)
    requires
        encode_utf8(a) == encode_utf8(b),
    ensures
        a == b,
{
    encode_utf8_decode_utf8(a);
    encode_utf8_decode_utf8(b);
}

pub proof fn lemma_encode_concat(a: Seq<char>, b: Seq<char>)
    ensures
        encode_utf8(a + b) == encode_utf8(a) + encode_utf8(b),
    decreases a.len(),
{
    if a.len() == 0 {
        assert(a + b == b);
        assert(encode_utf8(a) + encode_utf8(b) =~= encode_utf8(b));
    } else {
        assert((a + b).drop_first() == a.drop_first() + b);
        lemma_encode_concat(a.drop_first(), b);
        assert(encode_utf8(a) + encode_utf8(b) =~= encode_scalar(a[0] as u32) + (encode_utf8(
            a.drop_first(),
        ) + encode_utf8(b)));
    }
}

/// A text has at most as many characters as bytes.
pub proof fn lemma_encoding_len(s: Seq<char>)
    ensures
        s.len() <= encode_utf8(s).len(),
    decreases s.len(),
{
    if s.len() > 0 {
        lemma_encoding_len(s.drop_first());
        char_is_scalar(s[0]);
        assert(encode_scalar(s[0] as u32).len() >= 1);
    }
}

/// The number of bytes that encode a character.
fn char_width(c: char) -> (r: usize)
    ensures
        r == encode_scalar(c as u32).len(),
        1 <= r <= 4,
{
    proof {
        char_is_scalar(c);
    }
    let n = c as u32;
    if n <= 0x7F {
        1
    } else if n <= 0x7FF {
        2
    } else if n <= 0xFFFF {
        3
    } else {
        4
    }
}

/// A longer prefix of a text has a longer encoding.
pub proof fn lemma_prefix_width(s: Seq<char>, i: int, j: int)
    requires
        0 <= i <= j <= s.len(),
    ensures
        encode_utf8(s.take(i)).len() + (j - i) <= encode_utf8(s.take(j)).len(),
{
    let middle = s.subrange(i, j);
    assert(s.take(j) =~= s.take(i) + middle);
    lemma_encode_concat(s.take(i), middle);
    lemma_encoding_len(middle);
}

/// A character boundary is where a prefix of the text ends.
proof fn lemma_boundary_prefix(s: Seq<char>, at: int) -> (n: int)
    requires
        is_char_boundary(encode_utf8(s), at),
    ensures
        0 <= n <= s.len(),
        encode_utf8(s.take(n)).len() == at,
    decreases s.len(),
{
    encode_utf8_valid_utf8(s);
    encode_utf8_decode_utf8(s);
    let bytes = encode_utf8(s);
    if at == 0 {
        assert(s.take(0) =~= Seq::empty());
        0
    } else {
        valid_utf8_split(bytes, at);
        decode_utf8_split(bytes, at);
        let first = bytes.subrange(0, at);
        let n = decode_utf8(first).len() as int;
        decode_utf8_encode_utf8(first);
        assert(s.take(n) =~= decode_utf8(first));
        n
    }
}

/// How many characters of a text its first `bytes` bytes hold.
pub fn chars_within(text: &str, bytes: usize) -> (r: usize)
    requires
        is_char_boundary(encode_utf8(text@), bytes as int),
    ensures
        r <= text@.len(),
        encode_utf8(text@.take(r as int)).len() == bytes,
{
    let s = crate::text::chars_of(text);
    let ghost n = lemma_boundary_prefix(text@, bytes as int);
    let mut at: usize = 0;
    let mut i: usize = 0;
    assert(s@.take(0) =~= Seq::empty());
    while at < bytes
        invariant
            s@ == text@,
            0 <= i <= n <= s@.len(),
            encode_utf8(s@.take(n)).len() == bytes,
            at == encode_utf8(s@.take(i as int)).len(),
            at <= bytes,
        decreases n - i,
    {
        proof {
            lemma_prefix_width(s@, i + 1, n);
            let c = s@[i as int];
            assert(s@.take(i + 1) =~= s@.take(i as int) + seq![c]);
            lemma_encode_concat(s@.take(i as int), seq![c]);
            assert(encode_utf8(seq![c]) =~= encode_scalar(c as u32)) by {
                assert(seq![c].drop_first() =~= Seq::empty());
                assert(encode_utf8(Seq::<char>::empty()) =~= Seq::empty());
            }
        }
        at += char_width(s[i]);
        i += 1;
    }
    i
}

/// Only a newline is encoded with a newline byte.
pub proof fn lemma_newline_bytes(s: Seq<char>, i: int)
    requires
        !s.contains('\n'),
        0 <= i < encode_utf8(s).len(),
    ensures
        encode_utf8(s)[i] != 10,
    decreases s.len(),
{
    if s.len() > 0 {
        let c = s[0];
        let n = c as u32;
        let rest = s.drop_first();
        let first = encode_scalar(n);
        assert(!rest.contains('\n')) by {
            if rest.contains('\n') {
                let k = choose|k: int| 0 <= k < rest.len() && rest[k] == '\n';
                assert(s[k + 1] == '\n');
            }
        }
        assert(c != '\n') by {
            assert(s.contains(s[0]));
        }
        char_is_scalar(c);
        assert(encode_utf8(s) =~= first + encode_utf8(rest));
        if i < first.len() {
            assert(first[i] != 10) by {
                char_u32_cast(c, n);
                assert(n != 10);
                assert(n <= 0x7f ==> (n & 0x7F) as u8 == n) by (bit_vector);
                assert((0xC0u8 | ((n >> 6) & 0x1F) as u8) >= 0x80) by (bit_vector);
                assert((0xE0u8 | ((n >> 12) & 0x0F) as u8) >= 0x80) by (bit_vector);
                assert((0xF0u8 | ((n >> 18) & 0x7) as u8) >= 0x80) by (bit_vector);
                assert((0x80u8 | (n & 0x3F) as u8) >= 0x80) by (bit_vector);
                assert((0x80u8 | ((n >> 6) & 0x3F) as u8) >= 0x80) by (bit_vector);
                assert((0x80u8 | ((n >> 12) & 0x3F) as u8) >= 0x80) by (bit_vector);
                assert(i == 0 || i == 1 || i == 2 || i == 3);
            }
        } else {
            lemma_newline_bytes(rest, i - first.len());
        }
    }
}

} // verus!
