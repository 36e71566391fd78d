//! Text as sequences of characters: comparison, searching, numbers.

use vstd::prelude::*;
use vstd::string::*;

verus! {

/// `String::push` appends one character.
pub assume_specification[ String::push ](s: &mut String, c: char)
    ensures
        final(s)@ == old(s)@.push(c),
;

/// `==` on strings holds exactly when they have the same characters.
pub assume_specification[ <str as PartialEq>::eq ](a: &str, b: &str) -> (r: bool)
    ensures
        r == (a@ == b@),
;

// ---------------------------------------------------------------- characters

/// The lower-case form of an ASCII letter; every other character is kept.
pub open spec fn ascii_lower(c: char) -> char {
    if 'A' <= c <= 'Z' {
        ((c as u32 + 32) as u32) as char
    } else {
        c
    }
}

/// A text with its ASCII letters in lower case.
pub open spec fn ascii_lower_all(s: Seq<char>) -> Seq<char> {
    s.map_values(|c: char| ascii_lower(c))
}

/// Characters with the Unicode property `White_Space`.
pub open spec fn is_space(c: char) -> bool {
    let u = c as u32;
    ||| 0x09 <= u <= 0x0d
    ||| u == 0x20
    ||| u == 0x85
    ||| u == 0xa0
    ||| u == 0x1680
    ||| 0x2000 <= u <= 0x200a
    ||| u == 0x2028
    ||| u == 0x2029
    ||| u == 0x202f
    ||| u == 0x205f
    ||| u == 0x3000
}

/// Characters of the Unicode category `Cc`.
pub open spec fn is_control(c: char) -> bool {
    let u = c as u32;
    u <= 0x1f || 0x7f <= u <= 0x9f
}

pub open spec fn is_digit(c: char) -> bool {
    '0' <= c <= '9'
}

pub open spec fn digit_value(c: char) -> nat {
    (c as u32 - '0' as u32) as nat
}

pub fn to_ascii_lower(c: char) -> (r: char)
    ensures
        r == ascii_lower(c),
{
    if c >= 'A' && c <= 'Z' {
        ((c as u8) + 32u8) as char
    } else {
        c
    }
}

pub fn char_is_space(c: char) -> (r: bool)
    ensures
        r == is_space(c),
{
    let u: u32 = c as u32;
    (u >= 0x09 && u <= 0x0d) || u == 0x20 || u == 0x85 || u == 0xa0 || u == 0x1680 || (u >= 0x2000
        && u <= 0x200a) || u == 0x2028 || u == 0x2029 || u == 0x202f || u == 0x205f || u == 0x3000
}

pub fn char_is_control(c: char) -> (r: bool)
    ensures
        r == is_control(c),
{
    let u: u32 = c as u32;
    u <= 0x1f || (u >= 0x7f && u <= 0x9f)
}

pub fn char_is_digit(c: char) -> (r: bool)
    ensures
        r == is_digit(c),
{
    c >= '0' && c <= '9'
}

// -------------------------------------------------------------- conversions

/// The characters of a string, one per element.
pub fn chars_of(s: &str) -> (r: Vec<char>)
    ensures
        r@ == s@,
{
    let mut out: Vec<char> = Vec::new();
    for c in it: s.chars()
        invariant
            it.seq() == s@,
            out@ == it.seq().take(it.index() as int),
    {
        out.push(c);
        assert(out@ == it.seq().take(it.index() + 1));
    }
    assert(out@ == s@);
    out
}

/// The string whose characters are given.
pub fn string_of(v: &[char]) -> (r: String)
    ensures
        r@ == v@,
{
    string_of_range(v, 0, v.len())
}

/// The string of the characters `v[from..to]`.
pub fn string_of_range(v: &[char], from: usize, to: usize) -> (r: String)
    requires
        from <= to <= v.len(),
    ensures
        r@ == v@.subrange(from as int, to as int),
{
    let mut out: String = String::new();
    let mut i: usize = from;
    while i < to
        invariant
            from <= i <= to <= v.len(),
            out@ == v@.subrange(from as int, i as int),
        decreases to - i,
    {
        out.push(v[i]);
        i += 1;
        assert(out@ == v@.subrange(from as int, i as int));
    }
    out
}

/// Appends the characters `v[from..to]` to a string.
pub fn push_range(out: &mut String, v: &[char], from: usize, to: usize)
    requires
        from <= to <= v.len(),
    ensures
        final(out)@ == old(out)@ + v@.subrange(from as int, to as int),
{
    let mut i: usize = from;
    while i < to
        invariant
            from <= i <= to <= v.len(),
            out@ == old(out)@ + v@.subrange(from as int, i as int),
        decreases to - i,
    {
        out.push(v[i]);
        i += 1;
        assert(out@ == old(out)@ + v@.subrange(from as int, i as int));
    }
}

/// A copy of `v[from..to]`.
pub fn sub_chars(v: &[char], from: usize, to: usize) -> (r: Vec<char>)
    requires
        from <= to <= v.len(),
    ensures
        r@ == v@.subrange(from as int, to as int),
{
    let mut out: Vec<char> = Vec::new();
    let mut i: usize = from;
    while i < to
        invariant
            from <= i <= to <= v.len(),
            out@ == v@.subrange(from as int, i as int),
        decreases to - i,
    {
        out.push(v[i]);
        i += 1;
        assert(out@ == v@.subrange(from as int, i as int));
    }
    out
}

pub fn lower_chars(v: &[char]) -> (r: Vec<char>)
    ensures
        r@ == ascii_lower_all(v@),
{
    let mut out: Vec<char> = Vec::new();
    let mut i: usize = 0;
    while i < v.len()
        invariant
            i <= v.len(),
            out@ == ascii_lower_all(v@.take(i as int)),
        decreases v.len() - i,
    {
        out.push(to_ascii_lower(v[i]));
        i += 1;
        assert(out@ == ascii_lower_all(v@.take(i as int)));
    }
    assert(v@.take(i as int) == v@);
    out
}

/// A string with its ASCII letters in lower case.
pub fn lower_string(s: &str) -> (r: String)
    ensures
        r@ == ascii_lower_all(s@),
{
    let v = lower_chars(&chars_of(s));
    string_of(&v)
}

// --------------------------------------------------------------- comparison

pub fn same(a: &str, b: &str) -> (r: bool)
    ensures
        r == (a@ == b@),
{
    *a == *b
}

/// Equality of two texts up to the case of ASCII letters.
pub open spec fn same_ignoring_case(a: Seq<char>, b: Seq<char>) -> bool {
    ascii_lower_all(a) == ascii_lower_all(b)
}

pub fn same_chars(a: &[char], b: &[char]) -> (r: bool)
    ensures
        r == (a@ == b@),
{
    if a.len() != b.len() {
        return false;
    }
    let mut i: usize = 0;
    while i < a.len()
        invariant
            i <= a.len(),
            a.len() == b.len(),
            forall|j: int| 0 <= j < i ==> a@[j] == b@[j],
        decreases a.len() - i,
    {
        if a[i] != b[i] {
            return false;
        }
        i += 1;
    }
    assert(a@ == b@);
    true
}

pub fn eq_ignore_ascii_case(a: &str, b: &str) -> (r: bool)
    ensures
        r == same_ignoring_case(a@, b@),
{
    let x = lower_chars(&chars_of(a));
    let y = lower_chars(&chars_of(b));
    same_chars(&x, &y)
}

/// Lexicographic order by code point, which is also the order of the UTF-8
/// encodings.
pub open spec fn text_lt(a: Seq<char>, b: Seq<char>) -> bool
    decreases a.len(),
{
    if b.len() == 0 {
        false
    } else if a.len() == 0 {
        true
    } else if a[0] == b[0] {
        text_lt(a.drop_first(), b.drop_first())
    } else {
        a[0] < b[0]
    }
}

pub proof fn lemma_text_lt_irreflexive(a: Seq<char>)
    ensures
        !text_lt(a, a),
    decreases a.len(),
{
    if a.len() > 0 {
        lemma_text_lt_irreflexive(a.drop_first());
    }
}

pub proof fn lemma_text_lt_transitive(a: Seq<char>, b: Seq<char>, c: Seq<char>)
    requires
        text_lt(a, b),
        text_lt(b, c),
    ensures
        text_lt(a, c),
    decreases a.len(),
{
    if a.len() > 0 && b.len() > 0 && c.len() > 0 && a[0] == b[0] && b[0] == c[0] {
        lemma_text_lt_transitive(a.drop_first(), b.drop_first(), c.drop_first());
    }
}

pub proof fn lemma_text_lt_total(a: Seq<char>, b: Seq<char>)
    ensures
        text_lt(a, b) || text_lt(b, a) || a == b,
    decreases a.len(),
{
    if a.len() == 0 {
        assert(b.len() == 0 ==> a == b);
    } else if b.len() > 0 && a[0] == b[0] {
        lemma_text_lt_total(a.drop_first(), b.drop_first());
        if a.drop_first() == b.drop_first() {
            assert(a == seq![a[0]] + a.drop_first());
            assert(b == seq![b[0]] + b.drop_first());
        }
    }
}

/// Texts are ordered: the laws for three of them.
pub proof fn lemma_text_order(x: Seq<char>, y: Seq<char>, z: Seq<char>)
    ensures
        !text_lt(x, x),
        !text_lt(y, y),
        text_lt(x, y) || text_lt(y, x) || x == y,
        text_lt(y, z) || text_lt(z, y) || y == z,
        text_lt(x, y) && text_lt(y, z) ==> text_lt(x, z),
        text_lt(z, y) && text_lt(y, x) ==> text_lt(z, x),
        !(text_lt(x, z) && text_lt(z, x)),
{
    lemma_text_lt_irreflexive(x);
    lemma_text_lt_irreflexive(y);
    lemma_text_lt_total(x, y);
    lemma_text_lt_total(y, z);
    if text_lt(x, y) && text_lt(y, z) {
        lemma_text_lt_transitive(x, y, z);
    }
    if text_lt(y, x) && text_lt(z, y) {
        lemma_text_lt_transitive(z, y, x);
    }
    if text_lt(x, z) && text_lt(z, x) {
        lemma_text_lt_transitive(x, z, x);
    }
}

proof fn lemma_text_lt_common(a: Seq<char>, b: Seq<char>, n: int)
    requires
        0 <= n <= a.len(),
        n <= b.len(),
        a.take(n) == b.take(n),
    ensures
        text_lt(a, b) == text_lt(a.skip(n), b.skip(n)),
    decreases n,
{
    if n == 0 {
        assert(a.skip(0) == a);
        assert(b.skip(0) == b);
    } else {
        assert(a[0] == a.take(n)[0]);
        assert(b[0] == b.take(n)[0]);
        assert(a.drop_first().take(n - 1) == a.take(n).drop_first());
        assert(b.drop_first().take(n - 1) == b.take(n).drop_first());
        lemma_text_lt_common(a.drop_first(), b.drop_first(), n - 1);
        assert(a.drop_first().skip(n - 1) == a.skip(n));
        assert(b.drop_first().skip(n - 1) == b.skip(n));
    }
}

pub fn text_less(a: &str, b: &str) -> (r: bool)
    ensures
        r == text_lt(a@, b@),
{
    let x = chars_of(a);
    let y = chars_of(b);
    let mut i: usize = 0;
    while i < x.len() && i < y.len() && x[i] == y[i]
        invariant
            i <= x.len(),
            i <= y.len(),
            x@.take(i as int) == y@.take(i as int),
        decreases x.len() - i,
    {
        i += 1;
        assert(x@.take(i as int) == y@.take(i as int)) by {
            assert(x@.take(i as int) == x@.take(i - 1).push(x@[i - 1]));
            assert(y@.take(i as int) == y@.take(i - 1).push(y@[i - 1]));
        }
    }
    proof {
        lemma_text_lt_common(x@, y@, i as int);
    }
    if i >= y.len() {
        false
    } else if i >= x.len() {
        true
    } else {
        x[i] < y[i]
    }
}

// ---------------------------------------------------------------- searching

/// `needle` stands in `hay` from position `i` on.
pub open spec fn occurs_at(hay: Seq<char>, needle: Seq<char>, i: int) -> bool {
    &&& 0 <= i
    &&& i + needle.len() <= hay.len()
    &&& hay.subrange(i, i + needle.len()) == needle
}

/// `needle` is a substring of `hay`.
pub open spec fn contains_text(hay: Seq<char>, needle: Seq<char>) -> bool {
    exists|i: int| occurs_at(hay, needle, i)
}

pub fn matches_at(hay: &[char], needle: &[char], i: usize) -> (r: bool)
    ensures
        r == occurs_at(hay@, needle@, i as int),
{
    if i > hay.len() || needle.len() > hay.len() - i {
        return false;
    }
    let mut j: usize = 0;
    while j < needle.len()
        invariant
            i + needle.len() <= hay.len(),
            j <= needle.len(),
            forall|k: int| 0 <= k < j ==> hay@[i + k] == needle@[k],
        decreases needle.len() - j,
    {
        if hay[i + j] != needle[j] {
            assert(hay@.subrange(i as int, i + needle@.len())[j as int] != needle@[j as int]);
            return false;
        }
        j += 1;
    }
    assert(hay@.subrange(i as int, i + needle@.len()) == needle@);
    true
}

/// The first position at or after `from` where `needle` stands in `hay`.
pub fn find_from(hay: &[char], needle: &[char], from: usize) -> (r: Option<usize>)
    ensures
        match r {
            Some(i) => {
                &&& from <= i
                &&& occurs_at(hay@, needle@, i as int)
                &&& forall|j: int| from <= j < i ==> !occurs_at(hay@, needle@, j)
            },
            None => forall|j: int| from <= j ==> !occurs_at(hay@, needle@, j),
        },
{
    let mut i: usize = from;
    while i <= hay.len() && needle.len() <= hay.len() - i
        invariant
            from <= i,
            forall|j: int| from <= j < i ==> !occurs_at(hay@, needle@, j),
        decreases hay.len() + 1 - i,
    {
        if matches_at(hay, needle, i) {
            return Some(i);
        }
        if i == usize::MAX {
            return None;
        }
        i += 1;
    }
    None
}

pub fn has_text(hay: &str, needle: &str) -> (r: bool)
    ensures
        r == contains_text(hay@, needle@),
{
    let h = chars_of(hay);
    let n = chars_of(needle);
    find_from(&h, &n, 0).is_some()
}

pub fn has_char(s: &[char], c: char) -> (r: bool)
    ensures
        r == s@.contains(c),
{
    let mut i: usize = 0;
    while i < s.len()
        invariant
            i <= s.len(),
            forall|j: int| 0 <= j < i ==> s@[j] != c,
        decreases s.len() - i,
    {
        if s[i] == c {
            return true;
        }
        i += 1;
    }
    false
}

pub fn starts_with(s: &[char], p: &str) -> (r: bool)
    ensures
        r == p@.is_prefix_of(s@),
{
    let v = chars_of(p);
    let r = matches_at(s, &v, 0);
    assert(v@.is_prefix_of(s@) == occurs_at(s@, v@, 0));
    r
}

pub fn ends_with(s: &[char], p: &str) -> (r: bool)
    ensures
        r == p@.is_suffix_of(s@),
{
    let v = chars_of(p);
    if v.len() > s.len() {
        return false;
    }
    let r = matches_at(s, &v, s.len() - v.len());
    assert(v@.is_suffix_of(s@) == occurs_at(s@, v@, s@.len() - v@.len()));
    r
}

// ------------------------------------------------------------------ numbers

pub open spec fn all_digits(s: Seq<char>) -> bool {
    forall|i: int| 0 <= i < s.len() ==> is_digit(#[trigger] s[i])
}

/// The number that a sequence of decimal digits denotes.
pub open spec fn decimal(s: Seq<char>) -> nat
    decreases s.len(),
{
    if s.len() == 0 {
        0
    } else {
        10 * decimal(s.drop_last()) + digit_value(s.last())
    }
}

/// The decimal digits of a number, without leading zeros.
pub open spec fn digits_of(n: nat) -> Seq<char>
    decreases n,
{
    if n < 10 {
        seq![digit_char(n)]
    } else {
        digits_of(n / 10).push(digit_char(n % 10))
    }
}

pub open spec fn digit_char(d: nat) -> char {
    (('0' as u32 + d) as u32) as char
}

/// A signed number in decimal.
pub open spec fn signed_digits(n: int) -> Seq<char> {
    if n < 0 {
        seq!['-'] + digits_of((-n) as nat)
    } else {
        digits_of(n as nat)
    }
}

pub fn push_signed(out: &mut String, n: i64)
    ensures
        final(out)@ == old(out)@ + signed_digits(n as int),
{
    let ghost before = out@;
    if n < 0 {
        out.push('-');
        let m: u64 = if n == i64::MIN {
            0x8000_0000_0000_0000
        } else {
            (-n) as u64
        };
        push_decimal(out, m);
    } else {
        push_decimal(out, n as u64);
    }
    assert(out@ =~= before + signed_digits(n as int));
}

pub fn push_decimal(out: &mut String, n: u64)
    ensures
        final(out)@ == old(out)@ + digits_of(n as nat),
    decreases n,
{
    if n >= 10 {
        push_decimal(out, n / 10);
    }
    out.push((48u8 + (n % 10) as u8) as char);
    assert(out@ == old(out)@ + digits_of(n as nat));
}

/// As [`push_decimal`], for wider numbers.
pub fn push_wide_decimal(out: &mut String, n: u128)
    ensures
        final(out)@ == old(out)@ + digits_of(n as nat),
    decreases n,
{
    if n >= 10 {
        push_wide_decimal(out, n / 10);
    }
    out.push((48u8 + (n % 10) as u8) as char);
    assert(out@ == old(out)@ + digits_of(n as nat));
}

pub fn decimal_string(n: u64) -> (r: String)
    ensures
        r@ == digits_of(n as nat),
{
    let mut out: String = String::new();
    push_decimal(&mut out, n);
    assert(out@ == digits_of(n as nat));
    out
}

/// A non-empty run of decimal digits whose number fits in 64 bits.
pub fn parse_digits(s: &[char]) -> (r: Option<u64>)
    ensures
        r matches Some(v) ==> s@.len() > 0 && all_digits(s@) && v == decimal(s@),
        r is None ==> s@.len() == 0 || !all_digits(s@) || decimal(s@) > u64::MAX,
{
    if s.len() == 0 {
        return None;
    }
    let mut total: u64 = 0;
    let mut i: usize = 0;
    let mut overflow: bool = false;
    while i < s.len()
        invariant
            i <= s.len(),
            all_digits(s@.take(i as int)),
            !overflow ==> total == decimal(s@.take(i as int)),
            overflow ==> decimal(s@.take(i as int)) > u64::MAX,
        decreases s.len() - i,
    {
        let c = s[i];
        if !char_is_digit(c) {
            assert(!is_digit(s@[i as int]));
            return None;
        }
        let d: u64 = (c as u32 - 48) as u64;
        assert(s@.take(i + 1).drop_last() == s@.take(i as int));
        assert(s@.take(i + 1).last() == c);
        assert(digit_value(c) == d);
        if !overflow {
            match total.checked_mul(10) {
                None => {
                    overflow = true;
                },
                Some(t) => match t.checked_add(d) {
                    None => {
                        overflow = true;
                    },
                    Some(u) => {
                        total = u;
                    },
                },
            }
        }
        i += 1;
        assert(all_digits(s@.take(i as int))) by {
            assert forall|j: int| 0 <= j < i implies is_digit(#[trigger] s@.take(i as int)[j]) by {
                if j < i - 1 {
                    assert(s@.take(i as int)[j] == s@.take(i - 1)[j]);
                }
            }
        }
    }
    assert(s@.take(i as int) == s@);
    if overflow {
        None
    } else {
        Some(total)
    }
}

// -------------------------------------------------------------- collections

/// The texts of a sequence of strings.
pub open spec fn texts(v: Seq<String>) -> Seq<Seq<char>> {
    v.map_values(|s: String| s@)
}

/// The texts of a sequence of string slices.
pub open spec fn str_texts(v: Seq<&str>) -> Seq<Seq<char>> {
    v.map_values(|s: &str| s@)
}

pub proof fn lemma_texts_push(v: Seq<String>, s: String)
    ensures
        texts(v.push(s)) == texts(v).push(s@),
{
    assert(texts(v.push(s)) =~= texts(v).push(s@));
}

pub fn copy_strings(v: &[String]) -> (r: Vec<String>)
    ensures
        texts(r@) == texts(v@),
{
    let mut out: Vec<String> = Vec::new();
    let mut i: usize = 0;
    while i < v.len()
        invariant
            i <= v.len(),
            texts(out@) == texts(v@.take(i as int)),
        decreases v.len() - i,
    {
        let s = v[i].clone();
        proof {
            lemma_texts_push(out@, s);
            lemma_texts_push(v@.take(i as int), v@[i as int]);
            assert(v@.take(i + 1) == v@.take(i as int).push(v@[i as int]));
        }
        out.push(s);
        i += 1;
    }
    assert(v@.take(i as int) == v@);
    out
}

/// A text without the dots that it starts with.
pub open spec fn without_leading_dots(s: Seq<char>) -> Seq<char>
    decreases s.len(),
{
    if s.len() > 0 && s[0] == '.' {
        without_leading_dots(s.drop_first())
    } else {
        s
    }
}

pub fn dots_end(token: &[char], from: usize) -> (r: usize)
    requires
        from <= token.len(),
    ensures
        from <= r <= token.len(),
        token@.skip(r as int) == without_leading_dots(token@.skip(from as int)),
{
    let mut i: usize = from;
    while i < token.len() && token[i] == '.'
        invariant
            from <= i <= token.len(),
            without_leading_dots(token@.skip(i as int)) == without_leading_dots(
                token@.skip(from as int),
            ),
        decreases token.len() - i,
    {
        assert(token@.skip(i as int).drop_first() == token@.skip(i + 1));
        i += 1;
    }
    i
}

// ------------------------------------------------------------------ trimming

/// The first position at or after `i` that holds no space.
pub open spec fn skip_spaces(q: Seq<char>, i: int) -> int
    decreases q.len() - i,
{
    if 0 <= i < q.len() && is_space(q[i]) {
        skip_spaces(q, i + 1)
    } else {
        i
    }
}

/// The end of what is left above `from` when trailing spaces are cut.
pub open spec fn trim_end_at(s: Seq<char>, n: int, from: int) -> int
    decreases n - from,
{
    if n > from && is_space(s[n - 1]) {
        trim_end_at(s, n - 1, from)
    } else {
        n
    }
}

/// A text without leading spaces.
pub open spec fn trim_start(s: Seq<char>) -> Seq<char> {
    s.skip(skip_spaces(s, 0))
}

/// A text without trailing spaces.
pub open spec fn trim_end(s: Seq<char>) -> Seq<char> {
    s.take(trim_end_at(s, s.len() as int, 0))
}

/// A text without leading and trailing spaces.
pub open spec fn trim(s: Seq<char>) -> Seq<char> {
    let a = skip_spaces(s, 0);
    s.subrange(a, trim_end_at(s, s.len() as int, a))
}

proof fn lemma_trim_start(s: Seq<char>, i: int)
    requires
        0 <= i <= s.len(),
    ensures
        i <= skip_spaces(s, i) <= s.len(),
        skip_spaces(s, i) < s.len() ==> !is_space(s[skip_spaces(s, i)]),
    decreases s.len() - i,
{
    if i < s.len() && is_space(s[i]) {
        lemma_trim_start(s, i + 1);
    }
}

proof fn lemma_trim_end(s: Seq<char>, n: int, from: int)
    requires
        0 <= from <= n <= s.len(),
    ensures
        from <= trim_end_at(s, n, from) <= n,
        trim_end_at(s, n, from) > from ==> !is_space(s[trim_end_at(s, n, from) - 1]),
    decreases n - from,
{
    if n > from && is_space(s[n - 1]) {
        lemma_trim_end(s, n - 1, from);
    }
}

/// What is left after trimming lies in the text, and trimming it again changes
/// nothing.
pub proof fn lemma_trim(s: Seq<char>) -> (span: (int, int))
    ensures
        0 <= span.0 <= span.1 <= s.len(),
        trim(s) == s.subrange(span.0, span.1),
        trim(trim(s)) == trim(s),
{
    let a = skip_spaces(s, 0);
    lemma_trim_start(s, 0);
    let e = trim_end_at(s, s.len() as int, a);
    lemma_trim_end(s, s.len() as int, a);
    let t = trim(s);
    if t.len() > 0 {
        assert(t[0] == s[a]);
        assert(t[t.len() - 1] == s[e - 1]);
        assert(skip_spaces(t, 0) == 0);
        assert(trim_end_at(t, t.len() as int, 0) == t.len());
    }
    assert(trim(t) =~= t);
    (a, e)
}

pub fn find_trim_start(s: &[char], from: usize) -> (r: usize)
    requires
        from <= s.len(),
    ensures
        r == skip_spaces(s@, from as int),
        from <= r <= s.len(),
{
    let mut i: usize = from;
    while i < s.len() && char_is_space(s[i])
        invariant
            from <= i <= s.len(),
            skip_spaces(s@, from as int) == skip_spaces(s@, i as int),
        decreases s.len() - i,
    {
        i += 1;
    }
    i
}

pub fn find_trim_end(s: &[char], from: usize) -> (r: usize)
    requires
        from <= s.len(),
    ensures
        r == trim_end_at(s@, s@.len() as int, from as int),
        from <= r <= s.len(),
{
    let mut n: usize = s.len();
    while n > from && char_is_space(s[n - 1])
        invariant
            from <= n <= s.len(),
            trim_end_at(s@, s@.len() as int, from as int) == trim_end_at(
                s@,
                n as int,
                from as int,
            ),
        decreases n,
    {
        n -= 1;
    }
    n
}

pub fn trimmed(s: &[char]) -> (r: String)
    ensures
        r@ == trim(s@),
{
    let a = find_trim_start(s, 0);
    let b = find_trim_end(s, a);
    string_of_range(s, a, b)
}

pub fn trimmed_end(s: &[char]) -> (r: String)
    ensures
        r@ == trim_end(s@),
{
    let b = find_trim_end(s, 0);
    let r = string_of_range(s, 0, b);
    assert(r@ =~= s@.take(b as int));
    r
}

// -------------------------------------------------------------------- lines

/// The first newline at or after `i`, or the length.
pub open spec fn newline_from(s: Seq<char>, i: int) -> int
    decreases s.len() - i,
{
    if i < 0 || i >= s.len() {
        s.len() as int
    } else if s[i] == '\n' {
        i
    } else {
        newline_from(s, i + 1)
    }
}

pub proof fn lemma_newline_from(s: Seq<char>, i: int)
    requires
        0 <= i <= s.len(),
    ensures
        i <= newline_from(s, i) <= s.len(),
        newline_from(s, i) < s.len() ==> s[newline_from(s, i)] == '\n',
        forall|k: int| i <= k < newline_from(s, i) ==> s[k] != '\n',
    decreases s.len() - i,
{
    if i < s.len() && s[i] != '\n' {
        lemma_newline_from(s, i + 1);
    }
}

/// The line that starts at `i`, without its line ending.
pub open spec fn line_at(s: Seq<char>, i: int) -> Seq<char> {
    let end = newline_from(s, i);
    if end < s.len() && end > i && s[end - 1] == '\r' {
        s.subrange(i, end - 1)
    } else {
        s.subrange(i, end)
    }
}

/// The lines of `s` from `i` on: a newline, or a carriage return and a newline,
/// ends a line; the last line needs no ending.
pub open spec fn lines_from(s: Seq<char>, i: int) -> Seq<Seq<char>>
    decreases s.len() - i,
    when 0 <= i
    via lines_decrease
{
    if i >= s.len() {
        Seq::empty()
    } else {
        let end = newline_from(s, i);
        seq![line_at(s, i)] + (if end < s.len() {
            lines_from(s, end + 1)
        } else {
            Seq::empty()
        })
    }
}

#[via_fn]
proof fn lines_decrease(s: Seq<char>, i: int) {
    if i < s.len() {
        lemma_newline_from(s, i);
    }
}

pub open spec fn lines(s: Seq<char>) -> Seq<Seq<char>> {
    lines_from(s, 0)
}

pub fn find_newline(s: &[char], i: usize) -> (r: usize)
    requires
        i <= s.len(),
    ensures
        r == newline_from(s@, i as int),
        i <= r <= s.len(),
{
    let mut k: usize = i;
    while k < s.len()
        invariant
            i <= k <= s.len(),
            newline_from(s@, i as int) == newline_from(s@, k as int),
        decreases s.len() - k,
    {
        if s[k] == '\n' {
            return k;
        }
        k += 1;
    }
    k
}

/// The end of the line that starts at `i`, without its line ending.
fn line_end(s: &[char], i: usize) -> (r: usize)
    requires
        i <= s.len(),
    ensures
        i <= r <= s.len(),
        line_at(s@, i as int) == s@.subrange(i as int, r as int),
{
    let end: usize = find_newline(s, i);
    if end < s.len() && end > i && s[end - 1] == '\r' {
        end - 1
    } else {
        end
    }
}

/// The lines of a text, without their line endings.
pub fn split_lines(s: &[char]) -> (r: Vec<String>)
    ensures
        texts(r@) == lines(s@),
{
    let mut out: Vec<String> = Vec::new();
    let mut i: usize = 0;
    assert(texts(out@) =~= Seq::empty());
    while i < s.len()
        invariant
            i <= s.len(),
            lines(s@) == texts(out@) + lines_from(s@, i as int),
        decreases s.len() - i,
    {
        let end: usize = line_end(s, i);
        let newline: usize = find_newline(s, i);
        let line = string_of_range(s, i, end);
        proof {
            lemma_texts_push(out@, line);
        }
        out.push(line);
        i = if newline < s.len() {
            newline + 1
        } else {
            newline
        };
        assert(lines(s@) =~= texts(out@) + lines_from(s@, i as int));
    }
    assert(texts(out@) + lines_from(s@, i as int) =~= texts(out@));
    out
}

/// One text after another.
pub fn joined(a: &str, b: &str) -> (r: String)
    ensures
        r@ == a@ + b@,
{
    let mut r = a.to_owned();
    r.append(b);
    r
}

/// What is written in decimal is read back.
pub proof fn lemma_digits_of(n: nat)
    ensures
        digits_of(n).len() > 0,
        all_digits(digits_of(n)),
        decimal(digits_of(n)) == n,
    decreases n,
{
    if n < 10 {
        let s = digits_of(n);
        assert(s.drop_last() =~= Seq::empty());
        assert(decimal(s.drop_last()) == 0);
        assert(is_digit(s[0]));
        assert(digit_value(s[0]) == n);
    } else {
        lemma_digits_of(n / 10);
        let before = digits_of(n / 10);
        let s = digits_of(n);
        assert(s.drop_last() =~= before);
        assert forall|i: int| 0 <= i < s.len() implies is_digit(#[trigger] s[i]) by {
            if i < before.len() {
                assert(s[i] == before[i]);
            }
        }
        assert(digit_value(s.last()) == n % 10);
    }
}

// ---------------------------------------------------------------------- laws

/// A text is found where it stands between two others, and nowhere else.
pub proof fn texts_contain_their_parts(hay: Seq<char>, needle: Seq<char>)
    ensures
        contains_text(hay, needle) <==> exists|before: Seq<char>, after: Seq<char>|
            hay == #[trigger] (before + needle + after),
{
    if contains_text(hay, needle) {
        let i = choose|i: int| occurs_at(hay, needle, i);
        let (before, after) = (hay.take(i), hay.skip(i + needle.len()));
        assert(hay =~= before + needle + after) by {
            assert forall|k: int| 0 <= k < hay.len() implies hay[k] == (before + needle
                + after)[k] by {
                if i <= k < i + needle.len() {
                    assert(hay.subrange(i, i + needle.len())[k - i] == hay[k]);
                }
            }
        }
    }
    if exists|before: Seq<char>, after: Seq<char>| hay == #[trigger] (before + needle + after) {
        let (before, after) = choose|before: Seq<char>, after: Seq<char>|
            hay == #[trigger] (before + needle + after);
        let i = before.len() as int;
        assert(hay.subrange(i, i + needle.len()) =~= needle);
        assert(occurs_at(hay, needle, i));
    }
}

/// Letters differ by 32 from their capitals; other characters have no case.
pub proof fn case_is_that_of_ascii_letters(c: char)
    ensures
        'A' <= c <= 'Z' ==> ascii_lower(c) as u32 == c as u32 + 32 && 'a' <= ascii_lower(c) <= 'z',
        !('A' <= c <= 'Z') ==> ascii_lower(c) == c,
{
}

/// Trimming cuts the spaces at both ends and nothing else.
pub proof fn trimming_cuts_outer_spaces(a: Seq<char>, core: Seq<char>, b: Seq<char>)
    requires
        forall|k: int| 0 <= k < a.len() ==> is_space(#[trigger] a[k]),
        forall|k: int| 0 <= k < b.len() ==> is_space(#[trigger] b[k]),
        core.len() > 0 ==> !is_space(core[0]) && !is_space(core.last()),
        core.len() == 0 ==> b.len() == 0,
    ensures
        trim(a + core + b) == core,
        trim_start(a + core) == core,
        core.len() > 0 ==> trim_end(core + b) == core,
{
    let s = a + core + b;
    lemma_skip_to(s, 0, a.len() as int);
    lemma_cut_to(s, s.len() as int, (a.len() + core.len()) as int, a.len() as int);
    assert(s.subrange(a.len() as int, (a.len() + core.len()) as int) =~= core);
    let t = a + core;
    lemma_skip_to(t, 0, a.len() as int);
    assert(t.skip(a.len() as int) =~= core);
    if core.len() > 0 {
        let u = core + b;
        lemma_cut_to(u, u.len() as int, core.len() as int, 0);
        assert(u.take(core.len() as int) =~= core);
    }
}

proof fn lemma_skip_to(s: Seq<char>, i: int, end: int)
    requires
        0 <= i <= end <= s.len(),
        forall|k: int| i <= k < end ==> is_space(#[trigger] s[k]),
        end < s.len() ==> !is_space(s[end]),
    ensures
        skip_spaces(s, i) == end,
    decreases end - i,
{
    if i < end {
        lemma_skip_to(s, i + 1, end);
    }
}

proof fn lemma_cut_to(s: Seq<char>, n: int, end: int, from: int)
    requires
        0 <= from <= end <= n <= s.len(),
        forall|k: int| end <= k < n ==> is_space(#[trigger] s[k]),
        end > from ==> !is_space(s[end - 1]),
    ensures
        trim_end_at(s, n, from) == end,
    decreases n - end,
{
    if n > end {
        lemma_cut_to(s, n - 1, end, from);
    }
}

/// Lines one after another, each with a newline behind it.
pub open spec fn with_newlines(ls: Seq<Seq<char>>, n: int) -> Seq<char>
    decreases ls.len() - n,
{
    if n >= ls.len() {
        Seq::empty()
    } else {
        ls[n] + seq!['\n'] + with_newlines(ls, n + 1)
    }
}

proof fn lemma_lines_of(s: Seq<char>, i: int, ls: Seq<Seq<char>>, n: int)
    requires
        0 <= n <= ls.len(),
        0 <= i <= s.len(),
        s.skip(i) == with_newlines(ls, n),
        forall|k: int|
            0 <= k < ls.len() ==> !(#[trigger] ls[k]).contains('\n') && (ls[k].len() > 0
                ==> ls[k].last() != '\r'),
    ensures
        lines_from(s, i) == ls.skip(n),
    decreases ls.len() - n,
{
    let rest = s.skip(i);
    assert(rest.len() == s.len() - i);
    if n < ls.len() {
        let line = ls[n];
        let end = i + line.len();
        assert forall|k: int| 0 <= k < rest.len() implies s[i + k] == #[trigger] rest[k] by {}
        assert(rest[line.len() as int] == '\n');
        assert(s[end] == '\n');
        assert forall|k: int| i <= k < end implies s[k] != '\n' by {
            assert(rest[k - i] == line[k - i]);
            assert(line.contains(line[k - i]));
        }
        lemma_newline_at(s, i, end);
        if end > i {
            assert(s[end - 1] == rest[end - 1 - i]);
            assert(rest[end - 1 - i] == line.last());
        }
        assert(s.subrange(i, end) =~= line) by {
            assert forall|k: int| 0 <= k < line.len() implies s.subrange(i, end)[k] == line[k] by {
                assert(s[i + k] == rest[k]);
            }
        }
        assert(s.skip(end + 1) =~= with_newlines(ls, n + 1)) by {
            let more = with_newlines(ls, n + 1);
            assert(rest.len() == line.len() + 1 + more.len());
            assert forall|k: int| 0 <= k < more.len() implies s.skip(end + 1)[k] == #[trigger] more[k] by {
                assert(s[i + (line.len() + 1 + k)] == rest[line.len() + 1 + k]);
            }
        }
        lemma_lines_of(s, end + 1, ls, n + 1);
        assert(ls.skip(n) =~= seq![line] + ls.skip(n + 1));
    } else {
        assert(ls.skip(n) =~= Seq::empty());
    }
}

proof fn lemma_newline_at(s: Seq<char>, i: int, end: int)
    requires
        0 <= i <= end < s.len(),
        s[end] == '\n',
        forall|k: int| i <= k < end ==> s[k] != '\n',
    ensures
        newline_from(s, i) == end,
    decreases end - i,
{
    if i < end {
        lemma_newline_at(s, i + 1, end);
    }
}

/// Lines that were written, each with a newline behind it, are read back.
pub proof fn written_lines_are_read_back(ls: Seq<Seq<char>>)
    requires
        forall|k: int|
            0 <= k < ls.len() ==> !(#[trigger] ls[k]).contains('\n') && (ls[k].len() > 0
                ==> ls[k].last() != '\r'),
    ensures
        lines(with_newlines(ls, 0)) == ls,
{
    let s = with_newlines(ls, 0);
    assert(s.skip(0) =~= s);
    lemma_lines_of(s, 0, ls, 0);
    assert(ls.skip(0) =~= ls);
}

/// Texts are in the order of their first difference, and a text comes before what
/// goes on behind it.
pub proof fn texts_are_ordered_by_their_first_difference(
    start: Seq<char>,
    a: Seq<char>,
    b: Seq<char>,
)
    ensures
        a.len() > 0 && b.len() > 0 && a[0] < b[0] ==> text_lt(start + a, start + b),
        b.len() > 0 ==> text_lt(start, start + b),
        text_lt(a, b) ==> !text_lt(b, a),
    decreases start.len(),
{
    if start.len() > 0 {
        let rest = start.drop_first();
        texts_are_ordered_by_their_first_difference(rest, a, b);
        assert((start + a).drop_first() =~= rest + a);
        assert((start + b).drop_first() =~= rest + b);
    } else {
        assert(start + a =~= a);
        assert(start + b =~= b);
    }
    lemma_text_order(a, b, a);
}

} // verus!
