//! Non-negative numbers with 53 significant bits, rounded to nearest with ties
//! to even: the arithmetic of double precision, on integers.

use crate::text::{all_digits, decimal, digit_value};
use vstd::arithmetic::div_mod::*;
use vstd::arithmetic::power2::*;
use vstd::prelude::*;

verus! {

/// 2^52, the least mantissa of a normalised number.
pub const MANTISSA_MIN: u64 = 0x10_0000_0000_0000;

/// 2^53, the first integer that is no mantissa.
pub const MANTISSA_END: u64 = 0x20_0000_0000_0000;

/// The number `mantissa * 2^exponent`.
#[derive(Clone, Copy, Debug, PartialEq, Eq)]
pub struct Rounded {
    pub mantissa: u64,
    pub exponent: i128,
}

/// The model of a [`Rounded`].
pub struct Approx {
    pub mantissa: nat,
    pub exponent: int,
}

impl View for Rounded {
    type V = Approx;

    open spec fn view(&self) -> Approx {
        Approx { mantissa: self.mantissa as nat, exponent: self.exponent as int }
    }
}

/// The quotient `num / den` rounded to an integer, ties to even.
pub open spec fn divide_even(num: nat, den: nat) -> nat {
    let q = num / den;
    let r = num % den;
    if 2 * r < den || (2 * r == den && q % 2 == 0) {
        q
    } else {
        q + 1
    }
}

/// How often `num / den` is halved until it is below 2^53.
pub open spec fn halvings(num: nat, den: nat) -> nat
    decreases num / den,
{
    if den == 0 || num / den < MANTISSA_END {
        0
    } else {
        proof {
            lemma_half_quotient(num, den);
        }
        1 + halvings(num, 2 * den)
    }
}

/// How often `num / den` is doubled until it is at least 2^52.
pub open spec fn doublings(num: nat, den: nat) -> nat
    decreases
        if num < MANTISSA_MIN * den {
            MANTISSA_MIN * den - num
        } else {
            0
        },
{
    if num == 0 || den == 0 || num / den >= MANTISSA_MIN {
        0
    } else {
        proof {
            lemma_small_quotient(num, den);
        }
        1 + doublings(2 * num, den)
    }
}

pub proof fn lemma_half_quotient(num: nat, den: nat)
    requires
        den > 0,
    ensures
        num / (2 * den) == (num / den) / 2,
{
    lemma_div_denominator(num as int, den as int, 2);
    assert(den * 2 == 2 * den);
}

pub proof fn lemma_small_quotient(num: nat, den: nat)
    requires
        den > 0,
        num / den < MANTISSA_MIN,
    ensures
        num < MANTISSA_MIN * den,
{
    let q = num / den;
    lemma_fundamental_div_mod(num as int, den as int);
    assert(num < (q + 1) * den) by (nonlinear_arith)
        requires
            num == den * q + num % den,
            num % den < den,
            den > 0,
    ;
    assert((q + 1) * den <= MANTISSA_MIN * den) by (nonlinear_arith)
        requires
            q + 1 <= MANTISSA_MIN,
    ;
}

/// A mantissa that rounding has carried to 2^53 is halved.
pub open spec fn normalised(mantissa: nat, exponent: int) -> Approx {
    if mantissa == MANTISSA_END {
        Approx { mantissa: MANTISSA_MIN as nat, exponent: exponent + 1 }
    } else {
        Approx { mantissa, exponent }
    }
}

/// `num / den` rounded to 53 significant bits.
pub open spec fn nearest(num: nat, den: nat) -> Approx {
    if num == 0 {
        Approx { mantissa: 0, exponent: 0 }
    } else if num / den >= MANTISSA_MIN {
        let k = halvings(num, den);
        normalised(divide_even(num, den * pow2(k)), k as int)
    } else {
        let k = doublings(num, den);
        normalised(divide_even(num * pow2(k), den), -k)
    }
}

/// The rounded product of a rounded number and an integer.
pub open spec fn times(a: Approx, factor: nat) -> Approx {
    let p = nearest(a.mantissa * factor, 1);
    Approx { mantissa: p.mantissa, exponent: a.exponent + p.exponent }
}

/// The integer part.
pub open spec fn whole(a: Approx) -> nat {
    if a.exponent >= 0 {
        a.mantissa * pow2(a.exponent as nat)
    } else {
        a.mantissa / pow2((-a.exponent) as nat)
    }
}

// ------------------------------------------------------ decimal fractions

/// 10^n.
pub open spec fn ten(n: nat) -> nat
    decreases n,
{
    if n == 0 {
        1
    } else {
        10 * ten((n - 1) as nat)
    }
}

proof fn lemma_ten_positive(n: nat)
    ensures
        ten(n) > 0,
        ten(n) <= pow2(4 * n),
    decreases n,
{
    lemma2_to64();
    if n > 0 {
        lemma_ten_positive((n - 1) as nat);
        lemma_pow2_adds(4, (4 * (n - 1)) as nat);
    }
}

/// The first digit weighs most.
pub proof fn lemma_decimal_first(s: Seq<char>)
    requires
        s.len() > 0,
    ensures
        decimal(s) == digit_value(s[0]) * ten((s.len() - 1) as nat) + decimal(s.drop_first()),
    decreases s.len(),
{
    if s.len() > 1 {
        let t = s.drop_last();
        lemma_decimal_first(t);
        assert(t.drop_first() == s.drop_first().drop_last());
        assert(s.drop_first().last() == s.last());
        let d = digit_value(s[0]);
        assert(10 * (d * ten((s.len() - 2) as nat)) == d * ten((s.len() - 1) as nat))
            by (nonlinear_arith)
            requires
                ten((s.len() - 1) as nat) == 10 * ten((s.len() - 2) as nat),
        ;
        assert(decimal(s) == 10 * decimal(t) + digit_value(s.last()));
        assert(t[0] == s[0]);
        assert(decimal(t) == d * ten((s.len() - 2) as nat) + decimal(t.drop_first()));
        assert(decimal(s.drop_first()) == 10 * decimal(t.drop_first()) + digit_value(s.last()));
    } else {
        assert(s.drop_first().len() == 0);
        assert(decimal(s.drop_first()) == 0);
        assert(decimal(s.drop_last()) == 0);
        assert(s.drop_last().len() == 0);
        assert(ten(0) == 1);
        assert(digit_value(s[0]) * 1 == digit_value(s[0]));
    }
}

pub proof fn lemma_decimal_bound(s: Seq<char>)
    requires
        all_digits(s),
    ensures
        decimal(s) < ten(s.len()),
    decreases s.len(),
{
    if s.len() > 0 {
        let t = s.drop_last();
        assert(all_digits(t));
        assert(is_digit_at(s, s.len() - 1));
        lemma_decimal_bound(t);
    }
}

spec fn is_digit_at(s: Seq<char>, i: int) -> bool {
    crate::text::is_digit(s[i])
}

/// Doubles a decimal fraction in place; the result is the digit that moves
/// before the point.
pub fn double_fraction(frac: &mut Vec<char>) -> (carry: bool)
    requires
        all_digits(old(frac)@),
    ensures
        all_digits(final(frac)@),
        final(frac)@.len() == old(frac)@.len(),
        2 * decimal(old(frac)@) == (if carry { 1nat } else { 0 }) * ten(old(frac)@.len()) + decimal(final(frac)@),
{
    let n: usize = frac.len();
    let mut i: usize = n;
    let mut carry: u8 = 0;
    let ghost before = frac@;
    assert(before.skip(n as int).len() == 0);
    assert(frac@.skip(n as int).len() == 0);
    while i > 0
        invariant
            i <= n,
            n == before.len(),
            frac@.len() == n,
            carry <= 1,
            all_digits(before),
            all_digits(frac@),
            forall|j: int| 0 <= j < i ==> frac@[j] == before[j],
            2 * decimal(before.skip(i as int)) == carry * ten((n - i) as nat) + decimal(
                frac@.skip(i as int),
            ),
        decreases i,
    {
        i -= 1;
        let ghost mid = frac@;
        assert(crate::text::is_digit(before[i as int]));
        let d: u8 = (frac[i] as u32 - 48) as u8;
        let twice: u8 = 2 * d + carry;
        let ghost c0 = carry as nat;
        if twice >= 10 {
            carry = 1;
            frac.set(i, (48u8 + (twice - 10)) as char);
        } else {
            carry = 0;
            frac.set(i, (48u8 + twice) as char);
        }
        proof {
            let w = ten((n - i - 1) as nat);
            lemma_decimal_first(before.skip(i as int));
            lemma_decimal_first(frac@.skip(i as int));
            assert(before.skip(i as int).drop_first() == before.skip(i + 1));
            assert(frac@.skip(i as int).drop_first() == mid.skip(i + 1));
            let x = digit_value(before[i as int]);
            let y = digit_value(frac@[i as int]);
            assert(2 * x + c0 == 10 * carry + y);
            assert(2 * (x * w) + c0 * w == carry * (10 * w) + y * w) by (nonlinear_arith)
                requires
                    2 * x + c0 == 10 * carry + y,
            ;
        }
    }
    assert(before.skip(0) == before);
    assert(frac@.skip(0) == frac@);
    carry == 1
}

pub fn is_zero_fraction(frac: &Vec<char>) -> (r: bool)
    requires
        all_digits(frac@),
    ensures
        r == (decimal(frac@) == 0),
{
    let mut i: usize = frac.len();
    assert(frac@.skip(i as int).len() == 0);
    while i > 0
        invariant
            i <= frac.len(),
            all_digits(frac@),
            decimal(frac@.skip(i as int)) == 0,
        decreases i,
    {
        i -= 1;
        proof {
            lemma_decimal_first(frac@.skip(i as int));
            assert(frac@.skip(i as int).drop_first() == frac@.skip(i + 1));
            lemma_ten_positive((frac@.len() - i - 1) as nat);
        }
        if frac[i] != '0' {
            proof {
                let d = digit_value(frac@[i as int]);
                let w = ten((frac@.len() - i - 1) as nat);
                assert(crate::text::is_digit(frac@[i as int]));
                assert(d >= 1);
                assert(d * w >= 1) by (nonlinear_arith)
                    requires
                        d >= 1,
                        w >= 1,
                ;
                lemma_decimal_suffix(frac@, i as int);
            }
            return false;
        }
        assert(digit_value('0') == 0);
        assert(0 * ten((frac@.len() - i - 1) as nat) == 0);
    }
    assert(frac@.skip(0) == frac@);
    true
}

proof fn lemma_decimal_suffix(s: Seq<char>, i: int)
    requires
        0 <= i <= s.len(),
    ensures
        decimal(s.skip(i)) <= decimal(s),
    decreases i,
{
    if i == 0 {
        assert(s.skip(0) == s);
    } else {
        lemma_decimal_first(s);
        lemma_decimal_suffix(s.drop_first(), i - 1);
        assert(s.drop_first().skip(i - 1) == s.skip(i));
        assert(digit_value(s[0]) * ten((s.len() - 1) as nat) >= 0) by (nonlinear_arith);
    }
}

// ----------------------------------------------------------------- rounding

proof fn lemma_quotient(num: nat, den: nat, q: nat, r: nat)
    requires
        num == q * den + r,
        r < den,
    ensures
        num / den == q,
        num % den == r,
{
    lemma_fundamental_div_mod_converse(num as int, den as int, q as int, r as int);
}

/// Whether the rounded mantissa is the one above `q`, given how the rest
/// compares with one half.
fn rounds_up(q: u64, below_half: bool, half: bool) -> (up: bool)
    ensures
        up == !(below_half || (half && q % 2 == 0)),
{
    !(below_half || (half && q % 2 == 0))
}

fn normalise(q: u64, up: bool, exponent: i128) -> (r: Rounded)
    requires
        MANTISSA_MIN <= q < MANTISSA_END,
        exponent < i128::MAX,
    ensures
        r@ == normalised((if up { q + 1 } else { q as int }) as nat, exponent as int),
        MANTISSA_MIN <= r.mantissa < MANTISSA_END,
        exponent <= r.exponent <= exponent + 1,
{
    if up {
        if q + 1 == MANTISSA_END {
            Rounded { mantissa: MANTISSA_MIN, exponent: exponent + 1 }
        } else {
            Rounded { mantissa: q + 1, exponent }
        }
    } else {
        Rounded { mantissa: q, exponent }
    }
}

/// The number `whole` + 0.`frac`, as a fraction over 10^n.
pub open spec fn mixed(int_part: nat, frac: Seq<char>) -> nat {
    int_part * ten(frac.len()) + decimal(frac)
}

/// Rounds the decimal number `int_part`.`frac` to 53 significant bits.
pub fn round_decimal(int_part: u128, frac: &Vec<char>) -> (r: Rounded)
    requires
        all_digits(frac@),
        int_part < 0x8000_0000_0000_0000_0000_0000_0000_0000,
    ensures
        r@ == nearest(mixed(int_part as nat, frac@), ten(frac@.len())),
        r.mantissa < MANTISSA_END,
        mixed(int_part as nat, frac@) > 0 ==> r.mantissa >= MANTISSA_MIN,
        -53 - 4 * frac@.len() <= r.exponent <= 76,
{
    let ghost den = ten(frac@.len());
    let ghost num = mixed(int_part as nat, frac@);
    proof {
        lemma_ten_positive(frac@.len());
        lemma_decimal_bound(frac@);
        lemma_quotient(num, den, int_part as nat, decimal(frac@));
    }
    let zero_frac = is_zero_fraction(frac);
    if int_part == 0 && zero_frac {
        assert(num == 0) by (nonlinear_arith)
            requires
                num == int_part * den + decimal(frac@),
                int_part == 0,
                decimal(frac@) == 0,
        ;
        return Rounded { mantissa: 0, exponent: 0 };
    }
    assert(num > 0) by (nonlinear_arith)
        requires
            num == int_part * den + decimal(frac@),
            int_part > 0 || decimal(frac@) > 0,
            den > 0,
    ;
    if int_part >= MANTISSA_MIN as u128 {
        round_large(int_part, frac, zero_frac)
    } else {
        round_small(int_part as u64, frac)
    }
}

fn round_small(int_part: u64, frac: &Vec<char>) -> (r: Rounded)
    requires
        all_digits(frac@),
        int_part < MANTISSA_MIN,
        mixed(int_part as nat, frac@) > 0,
    ensures
        r@ == nearest(mixed(int_part as nat, frac@), ten(frac@.len())),
        MANTISSA_MIN <= r.mantissa < MANTISSA_END,
        -53 - 4 * frac@.len() <= r.exponent <= 1,
{
    let ghost den = ten(frac@.len());
    let ghost num = mixed(int_part as nat, frac@);
    proof {
        lemma_ten_positive(frac@.len());
        lemma_decimal_bound(frac@);
        lemma_quotient(num, den, int_part as nat, decimal(frac@));
        lemma2_to64();
    }
    let mut rest: Vec<char> = Vec::new();
    let mut i: usize = 0;
    while i < frac.len()
        invariant
            i <= frac.len(),
            rest@ == frac@.take(i as int),
        decreases frac.len() - i,
    {
        rest.push(frac[i]);
        i += 1;
        assert(rest@ == frac@.take(i as int));
    }
    assert(rest@ == frac@);
    let mut acc: u64 = int_part;
    let mut k: u128 = 0;
    assert(frac@.len() == frac.len());
    assert(num * 1 == num);
    while acc < MANTISSA_MIN
        invariant
            all_digits(rest@),
            rest@.len() == frac@.len(),
            den == ten(frac@.len()),
            den > 0,
            num > 0,
            acc < MANTISSA_END,
            num * pow2(k as nat) == acc * den + decimal(rest@),
            doublings(num, den) == k + doublings(num * pow2(k as nat), den),
            k <= 52 + 4 * frac@.len(),
            frac@.len() <= usize::MAX,
        decreases doublings(num * pow2(k as nat), den),
    {
        let ghost scaled = num * pow2(k as nat);
        let ghost before = decimal(rest@);
        proof {
            lemma_decimal_bound(rest@);
            lemma_quotient(scaled, den, acc as nat, before);
            lemma_pow2_pos(k as nat);
            assert(scaled > 0) by (nonlinear_arith)
                requires
                    scaled == num * pow2(k as nat),
                    num > 0,
                    pow2(k as nat) > 0,
            ;
            lemma_bit_budget(num, den, k as nat, frac@.len());
        }
        let carry = double_fraction(&mut rest);
        let bit: u64 = if carry {
            1
        } else {
            0
        };
        acc = 2 * acc + bit;
        k += 1;
        proof {
            lemma_pow2_unfold(k as nat);
            assert(num * pow2(k as nat) == 2 * scaled) by (nonlinear_arith)
                requires
                    scaled == num * pow2((k - 1) as nat),
                    pow2(k as nat) == 2 * pow2((k - 1) as nat),
            ;
            let old_acc = (acc - bit) / 2;
            assert(2 * (old_acc * den) + bit * den == acc * den) by (nonlinear_arith)
                requires
                    acc == 2 * old_acc + bit,
            ;
        }
    }
    let ghost scaled = num * pow2(k as nat);
    let ghost r0 = decimal(rest@);
    proof {
        lemma_decimal_bound(rest@);
        lemma_quotient(scaled, den, acc as nat, r0);
        assert(doublings(scaled, den) == 0);
    }
    let carry = double_fraction(&mut rest);
    let zero = is_zero_fraction(&rest);
    proof {
        lemma_decimal_bound(rest@);
        assert(carry ==> 2 * r0 == den + decimal(rest@));
        assert(!carry ==> 2 * r0 == decimal(rest@));
    }
    let up = rounds_up(acc, !carry, carry && zero);
    normalise(acc, up, -(k as i128))
}

/// As long as the quotient is below 2^52, few doublings have been made.
proof fn lemma_bit_budget(num: nat, den: nat, k: nat, n: nat)
    requires
        num > 0,
        den == ten(n),
        (num * pow2(k)) / den < MANTISSA_MIN,
    ensures
        k < 52 + 4 * n,
{
    lemma_ten_positive(n);
    lemma_small_quotient(num * pow2(k), den);
    lemma2_to64();
    lemma2_to64_rest();
    lemma_pow2_adds(52, 4 * n);
    lemma_pow2_pos(k);
    let total = 52 + 4 * n;
    assert(pow2(k) <= num * pow2(k)) by (nonlinear_arith)
        requires
            num >= 1,
    ;
    assert(MANTISSA_MIN * den <= pow2(52) * pow2(4 * n)) by (nonlinear_arith)
        requires
            den <= pow2(4 * n),
            MANTISSA_MIN == pow2(52),
    ;
    if k >= total {
        if k > total {
            lemma_pow2_strictly_increases(total, k);
        }
    }
}

fn round_large(int_part: u128, frac: &Vec<char>, zero_frac: bool) -> (r: Rounded)
    requires
        all_digits(frac@),
        MANTISSA_MIN <= int_part < 0x8000_0000_0000_0000_0000_0000_0000_0000,
        zero_frac == (decimal(frac@) == 0),
    ensures
        r@ == nearest(mixed(int_part as nat, frac@), ten(frac@.len())),
        MANTISSA_MIN <= r.mantissa < MANTISSA_END,
        0 <= r.exponent <= 76,
{
    let ghost den = ten(frac@.len());
    let ghost num = mixed(int_part as nat, frac@);
    let ghost f = decimal(frac@);
    proof {
        lemma_ten_positive(frac@.len());
        lemma_decimal_bound(frac@);
        lemma_quotient(num, den, int_part as nat, f);
        lemma2_to64();
        lemma2_to64_rest();
        lemma_pow2_adds(64, 63);
        assert(0x1_0000_0000_0000_0000 * 0x8000_0000_0000_0000
            == 0x8000_0000_0000_0000_0000_0000_0000_0000);
    }
    let mut hi: u128 = int_part;
    let mut lo: u128 = 0;
    let mut w: u128 = 1;
    let mut k: u64 = 0;
    assert(den * 1 == den);
    assert(hi * 1 == hi);
    while hi >= MANTISSA_END as u128
        invariant
            den > 0,
            num == mixed(int_part as nat, frac@),
            den == ten(frac@.len()),
            f == decimal(frac@),
            f < den,
            int_part < 0x8000_0000_0000_0000_0000_0000_0000_0000,
            int_part == hi * w + lo,
            lo < w,
            w == pow2(k as nat),
            hi >= MANTISSA_MIN,
            k <= 74,
            hi < pow2((127 - k) as nat),
            pow2(53) == MANTISSA_END,
            halvings(num, den) == k + halvings(num, den * pow2(k as nat)),
        decreases hi,
    {
        proof {
            lemma_split(num, int_part as nat, hi as nat, lo as nat, w as nat, den, f);
            if 127 - k < 53 {
                lemma_pow2_strictly_increases((127 - k) as nat, 53);
            }
            if k == 74 {
                assert(false);
            }
            lemma_pow2_unfold((k + 1) as nat);
            lemma_pow2_unfold((127 - k) as nat);
            assert(w <= int_part) by (nonlinear_arith)
                requires
                    int_part == hi * w + lo,
                    hi >= 2,
            ;
            assert(2 * w <= int_part) by (nonlinear_arith)
                requires
                    int_part == hi * w + lo,
                    hi >= 2,
            ;
            assert(2 * (den * w) == den * (2 * w)) by (nonlinear_arith);
            assert((hi / 2) * (2 * w) + (lo + (hi % 2) * w) == hi * w + lo) by (nonlinear_arith)
                requires
                    hi == 2 * (hi / 2) + hi % 2,
            ;
            assert((hi % 2) * w <= w) by (nonlinear_arith)
                requires
                    hi % 2 <= 1,
            ;
        }
        let ghost (hi0, lo0, w0) = (hi as nat, lo as nat, w as nat);
        assert(lo0 + (hi0 % 2) * w0 == (if hi0 % 2 == 1 { lo0 + w0 } else { lo0 })) by (nonlinear_arith)
            requires
                hi0 % 2 == 0 || hi0 % 2 == 1,
        ;
        if hi % 2 == 1 {
            lo = lo + w;
        }
        hi = hi / 2;
        w = 2 * w;
        k += 1;
        assert(den * pow2(k as nat) == 2 * (den * w0)) by (nonlinear_arith)
            requires
                pow2(k as nat) == 2 * w0,
        ;
        assert(den * w0 > 0) by (nonlinear_arith)
            requires
                den > 0,
                w0 > 0,
        ;
        assert(halvings(num, den * w0) == 1 + halvings(num, 2 * (den * w0)));
    }
    proof {
        lemma_split(num, int_part as nat, hi as nat, lo as nat, w as nat, den, f);
    }
    let ghost d2 = den * pow2(k as nat);
    let ghost rest = lo * den + f;
    let below_half: bool;
    let half: bool;
    if k == 0 {
        let mut again: Vec<char> = Vec::new();
        let mut i: usize = 0;
        while i < frac.len()
            invariant
                i <= frac.len(),
                again@ == frac@.take(i as int),
            decreases frac.len() - i,
        {
            again.push(frac[i]);
            i += 1;
            assert(again@ == frac@.take(i as int));
        }
        assert(again@ == frac@);
        let carry = double_fraction(&mut again);
        let zero = is_zero_fraction(&again);
        proof {
            lemma_decimal_bound(again@);
            assert(lo == 0);
            assert(den * 1 == den);
            assert(0 * den == 0);
        }
        below_half = !carry;
        half = carry && zero;
    } else {
        let mid: u128 = w / 2;
        below_half = lo < mid;
        half = lo == mid && zero_frac;
        proof {
            lemma_pow2_unfold(k as nat);
            assert(w == 2 * mid);
            assert(lo < mid ==> 2 * rest < d2) by (nonlinear_arith)
                requires
                    rest == lo * den + f,
                    d2 == den * w,
                    w == 2 * mid,
                    f < den,
            ;
            assert(lo == mid ==> 2 * rest == d2 + 2 * f) by (nonlinear_arith)
                requires
                    rest == lo * den + f,
                    d2 == den * w,
                    w == 2 * mid,
            ;
            assert(lo > mid ==> 2 * rest > d2) by (nonlinear_arith)
                requires
                    rest == lo * den + f,
                    d2 == den * w,
                    w == 2 * mid,
                    den > 0,
            ;
        }
    }
    let up = rounds_up(hi as u64, below_half, half);
    normalise(hi as u64, up, k as i128)
}

proof fn lemma_split(num: nat, int_part: nat, hi: nat, lo: nat, w: nat, den: nat, f: nat)
    requires
        int_part == hi * w + lo,
        lo < w,
        f < den,
        num == int_part * den + f,
    ensures
        num / (den * w) == hi,
        num % (den * w) == lo * den + f,
{
    assert(num == hi * (den * w) + (lo * den + f)) by (nonlinear_arith)
        requires
            int_part == hi * w + lo,
            num == int_part * den + f,
    ;
    assert(lo * den + f < den * w) by (nonlinear_arith)
        requires
            lo < w,
            f < den,
    ;
    lemma_quotient(num, den * w, hi, lo * den + f);
}

// --------------------------------------------------------------- operations

/// Multiplies by an integer and rounds.
pub fn multiply(a: Rounded, factor: u64) -> (r: Rounded)
    requires
        a.mantissa < MANTISSA_END,
        -0x1_0000_0000_0000_0000_0000 <= a.exponent <= 0x1_0000_0000_0000_0000_0000,
    ensures
        r@ == times(a@, factor as nat),
        r.mantissa < MANTISSA_END,
        r.mantissa > 0 ==> r.mantissa >= MANTISSA_MIN,
        a.exponent - 53 <= r.exponent <= a.exponent + 76,
{
    proof {
        let (m, f) = (a.mantissa as int, factor as int);
        assert(0 <= m * f < 0x20_0000_0000_0000 * 0x1_0000_0000_0000_0000) by (nonlinear_arith)
            requires
                0 <= m < 0x20_0000_0000_0000,
                0 <= f < 0x1_0000_0000_0000_0000,
        ;
    }
    let product: u128 = (a.mantissa as u128) * (factor as u128);
    let none: Vec<char> = Vec::new();
    let p = round_decimal(product, &none);
    assert(mixed(product as nat, none@) == product) by {
        assert(ten(0) == 1);
        assert(decimal(none@) == 0);
        assert(product * 1 == product);
    }
    assert(product == 0 ==> p.mantissa == 0);
    Rounded { mantissa: p.mantissa, exponent: a.exponent + p.exponent }
}

/// The integer part, where it fits in 64 bits.
pub fn truncate(a: Rounded) -> (r: Option<u64>)
    requires
        a.mantissa < MANTISSA_END,
        a.mantissa > 0 ==> a.mantissa >= MANTISSA_MIN,
        -0x1_0000_0000_0000_0000_0000_0000 <= a.exponent,
    ensures
        r == (if whole(a@) <= u64::MAX { Some(whole(a@) as u64) } else { None::<u64> }),
{
    proof {
        lemma2_to64();
        lemma2_to64_rest();
    }
    if a.mantissa == 0 {
        proof {
            if a.exponent >= 0 {
                assert(0 * pow2(a.exponent as nat) == 0);
            } else {
                lemma_pow2_pos((-a.exponent) as nat);
                lemma_quotient(0, pow2((-a.exponent) as nat), 0, 0);
            }
        }
        return Some(0);
    }
    if a.exponent >= 12 {
        proof {
            let e = a.exponent as nat;
            if e > 12 {
                lemma_pow2_strictly_increases(12, e);
            }
            assert(a.mantissa * pow2(e) >= 0x10_0000_0000_0000 * 4096) by (nonlinear_arith)
                requires
                    a.mantissa >= 0x10_0000_0000_0000,
                    pow2(e) >= 4096,
            ;
        }
        return None;
    }
    if a.exponent >= 0 {
        let mut v: u64 = a.mantissa;
        let mut i: i128 = 0;
        assert(v * 1 == v);
        while i < a.exponent
            invariant
                0 <= i <= a.exponent < 12,
                a.mantissa < MANTISSA_END,
                v == a.mantissa * pow2(i as nat),
                pow2(11) == 2048,
            decreases a.exponent - i,
        {
            proof {
                lemma_pow2_unfold((i + 1) as nat);
                lemma_pow2_pos((i + 1) as nat);
                if i < 10 {
                    lemma_pow2_strictly_increases((i + 1) as nat, 11);
                }
                let (m, p) = (a.mantissa as int, pow2((i + 1) as nat) as int);
                assert(m * p < 0x20_0000_0000_0000 * 2048) by (nonlinear_arith)
                    requires
                        0 <= m < 0x20_0000_0000_0000,
                        0 < p <= 2048,
                ;
                assert(2 * (m * pow2(i as nat)) == m * p) by (nonlinear_arith)
                    requires
                        p == 2 * pow2(i as nat),
                ;
            }
            v = 2 * v;
            i += 1;
        }
        return Some(v);
    }
    let k: i128 = -a.exponent;
    let mut v: u64 = a.mantissa;
    let mut i: i128 = 0;
    assert(a.mantissa as nat / 1 == a.mantissa);
    while i < k && v > 0
        invariant
            0 <= i <= k,
            v == a.mantissa as nat / pow2(i as nat),
        decreases k - i,
    {
        proof {
            lemma_pow2_unfold((i + 1) as nat);
            lemma_pow2_pos(i as nat);
            lemma_div_denominator(a.mantissa as int, pow2(i as nat) as int, 2);
            assert(pow2(i as nat) * 2 == 2 * pow2(i as nat));
        }
        v = v / 2;
        i += 1;
    }
    proof {
        if i < k {
            lemma_pow2_pos(i as nat);
            lemma_pow2_pos(k as nat);
            lemma_pow2_strictly_increases(i as nat, k as nat);
            lemma_fundamental_div_mod(a.mantissa as int, pow2(i as nat) as int);
            let p = pow2(i as nat);
            assert(p * 0 == 0);
            assert(a.mantissa < p);
            lemma_quotient(a.mantissa as nat, pow2(k as nat), 0, a.mantissa as nat);
        }
    }
    Some(v)
}

// ----------------------------------------------------------- very large, very small

/// A quotient of at least 2^k keeps that size when rounded.
pub proof fn lemma_halvings_at_least(num: nat, den: nat, k: nat)
    requires
        den > 0,
        num / den >= pow2(k),
        k >= 52,
    ensures
        halvings(num, den) >= k - 52,
    decreases k,
{
    lemma2_to64();
    lemma2_to64_rest();
    if k > 52 {
        if k > 53 {
            lemma_pow2_strictly_increases(53, k);
        }
        lemma_half_quotient(num, den);
        lemma_pow2_unfold(k);
        lemma_halvings_at_least(num, 2 * den, (k - 1) as nat);
    }
}

pub proof fn lemma_halvings_at_most(num: nat, den: nat, k: nat)
    requires
        den > 0,
        num / den < pow2(53 + k),
    ensures
        halvings(num, den) <= k,
    decreases k,
{
    lemma2_to64();
    lemma2_to64_rest();
    if k > 0 {
        lemma_half_quotient(num, den);
        lemma_pow2_unfold(53 + k);
        lemma_halvings_at_most(num, 2 * den, (k - 1) as nat);
    }
}

pub proof fn lemma_doublings_at_least(num: nat, den: nat, k: nat)
    requires
        num > 0,
        num * pow2(k) < den,
    ensures
        doublings(num, den) >= k,
    decreases k,
{
    if k > 0 {
        lemma_pow2_unfold(k);
        lemma_pow2_pos((k - 1) as nat);
        let h = pow2((k - 1) as nat);
        assert((2 * num) * h == num * pow2(k)) by (nonlinear_arith)
            requires
                pow2(k) == 2 * h,
        ;
        assert(num < den) by (nonlinear_arith)
            requires
                (2 * num) * h < den,
                h >= 1,
        ;
        lemma_quotient(num, den, 0, num);
        lemma_doublings_at_least(2 * num, den, (k - 1) as nat);
    }
}

proof fn lemma_doubled_range(num: nat, den: nat)
    requires
        num > 0,
        den > 0,
        num / den < MANTISSA_END,
    ensures
        ({
            let q = (num * pow2(doublings(num, den))) / den;
            MANTISSA_MIN <= q < MANTISSA_END
        }),
    decreases doublings(num, den),
{
    lemma2_to64();
    if num / den >= MANTISSA_MIN {
        assert(num * 1 == num);
    } else {
        let k = doublings(num, den);
        lemma_small_quotient(num, den);
        let q = (2 * num) / den;
        lemma_fundamental_div_mod((2 * num) as int, den as int);
        assert(q < MANTISSA_END) by (nonlinear_arith)
            requires
                num < 0x10_0000_0000_0000 * den,
                2 * num == den * q + (2 * num) % den,
                (2 * num) % den >= 0,
                MANTISSA_END == 0x20_0000_0000_0000,
        ;
        lemma_doubled_range(2 * num, den);
        lemma_pow2_unfold(k);
        assert((2 * num) * pow2((k - 1) as nat) == num * pow2(k)) by (nonlinear_arith)
            requires
                pow2(k) == 2 * pow2((k - 1) as nat),
        ;
    }
}

proof fn lemma_halved_range(num: nat, den: nat)
    requires
        den > 0,
        num / den >= MANTISSA_MIN,
    ensures
        ({
            let q = num / (den * pow2(halvings(num, den)));
            MANTISSA_MIN <= q < MANTISSA_END
        }),
    decreases halvings(num, den),
{
    lemma2_to64();
    if num / den < MANTISSA_END {
        assert(den * 1 == den);
    } else {
        let k = halvings(num, den);
        lemma_half_quotient(num, den);
        lemma_halved_range(num, 2 * den);
        lemma_pow2_unfold(k);
        assert((2 * den) * pow2((k - 1) as nat) == den * pow2(k)) by (nonlinear_arith)
            requires
                pow2(k) == 2 * pow2((k - 1) as nat),
        ;
    }
}

/// A rounded positive number is normalised.
pub proof fn lemma_nearest_normal(num: nat, den: nat)
    requires
        num > 0,
        den > 0,
    ensures
        MANTISSA_MIN <= nearest(num, den).mantissa < MANTISSA_END,
        num / den >= MANTISSA_MIN ==> halvings(num, den) <= nearest(num, den).exponent <= halvings(num, den) + 1,
        num / den < MANTISSA_MIN ==> -doublings(num, den) <= nearest(num, den).exponent <= 1 - doublings(num, den),
{
    if num / den >= MANTISSA_MIN {
        lemma_halved_range(num, den);
    } else {
        lemma_doubled_range(num, den);
    }
}

/// Numbers of at least 2^65 stay above 64 bits, whatever they are multiplied by.
pub proof fn lemma_whole_huge(num: nat, den: nat, factor: nat)
    requires
        den > 0,
        num / den >= pow2(65),
        factor > 0,
    ensures
        whole(times(nearest(num, den), factor)) > u64::MAX,
{
    lemma2_to64();
    lemma2_to64_rest();
    lemma_pow2_strictly_increases(52, 65);
    assert(num > 0) by {
        if num == 0 {
            lemma_quotient(0, den, 0, 0);
        }
    }
    lemma_halvings_at_least(num, den, 65);
    lemma_nearest_normal(num, den);
    let a = nearest(num, den);
    let p = a.mantissa * factor;
    assert(p >= MANTISSA_MIN) by (nonlinear_arith)
        requires
            p == a.mantissa * factor,
            a.mantissa >= MANTISSA_MIN,
            factor >= 1,
    ;
    assert(p / 1 == p);
    lemma_nearest_normal(p, 1);
    let t = times(a, factor);
    assert(t.exponent >= 13);
    if t.exponent > 13 {
        lemma_pow2_strictly_increases(13, t.exponent as nat);
    }
    assert(t.mantissa * pow2(t.exponent as nat) >= 0x10_0000_0000_0000 * 8192) by (nonlinear_arith)
        requires
            t.mantissa >= 0x10_0000_0000_0000,
            pow2(t.exponent as nat) >= 8192,
    ;
}

/// Numbers below 2^-1075 have no integer part, whatever small factor they
/// are multiplied by.
pub proof fn lemma_whole_tiny(num: nat, den: nat, factor: nat)
    requires
        num > 0,
        num * pow2(1075) < den,
        factor <= 0x4000_0000,
    ensures
        whole(times(nearest(num, den), factor)) == 0,
{
    lemma2_to64();
    lemma2_to64_rest();
    lemma_pow2_pos(1075);
    lemma_doublings_at_least(num, den, 1075);
    assert(num < den) by (nonlinear_arith)
        requires
            num * pow2(1075) < den,
            pow2(1075) >= 1,
    ;
    lemma_quotient(num, den, 0, num);
    lemma_nearest_normal(num, den);
    let a = nearest(num, den);
    let p = a.mantissa * factor;
    let t = times(a, factor);
    if p == 0 {
        assert(t.mantissa == 0);
        assert(t.exponent < 0);
        lemma_pow2_pos((-t.exponent) as nat);
        lemma_quotient(0, pow2((-t.exponent) as nat), 0, 0);
    } else {
        assert(p / 1 == p);
        assert(p < 0x20_0000_0000_0000 * 0x8000_0000) by (nonlinear_arith)
            requires
                p == a.mantissa * factor,
                a.mantissa < 0x20_0000_0000_0000,
                factor <= 0x4000_0000,
        ;
        lemma_pow2_adds(53, 31);
        lemma_halvings_at_most(p, 1, 31);
        lemma_nearest_normal(p, 1);
        assert(t.exponent < -1000);
        lemma_pow2_strictly_increases(53, (-t.exponent) as nat);
        lemma_quotient(t.mantissa, pow2((-t.exponent) as nat), 0, t.mantissa);
    }
}

// ------------------------------------------------------- sums of reciprocals

/// The rounded sum of two rounded numbers.
pub open spec fn plus(a: Approx, b: Approx) -> Approx {
    let low = if a.exponent < b.exponent {
        a.exponent
    } else {
        b.exponent
    };
    let exact = a.mantissa * pow2((a.exponent - low) as nat) + b.mantissa * pow2(
        (b.exponent - low) as nat,
    );
    let p = nearest(exact, 1);
    Approx { mantissa: p.mantissa, exponent: low + p.exponent }
}

/// The order of normalised numbers.
pub open spec fn exceeds(a: Approx, b: Approx) -> bool {
    a.exponent > b.exponent || (a.exponent == b.exponent && a.mantissa > b.mantissa)
}

pub fn is_greater(a: &Rounded, b: &Rounded) -> (r: bool)
    ensures
        r == exceeds(a@, b@),
{
    a.exponent > b.exponent || (a.exponent == b.exponent && a.mantissa > b.mantissa)
}

pub fn is_same(a: &Rounded, b: &Rounded) -> (r: bool)
    ensures
        r == (a@ == b@),
{
    a.exponent == b.exponent && a.mantissa == b.mantissa
}

/// One over `n`, rounded.
pub fn reciprocal(n: u128) -> (r: Rounded)
    requires
        0 < n <= 0x2_0000_0000_0000_0000,
    ensures
        r@ == nearest(1, n as nat),
        MANTISSA_MIN <= r.mantissa < MANTISSA_END,
        -118 <= r.exponent <= -51,
{
    proof {
        lemma2_to64();
        lemma2_to64_rest();
    }
    let mut num: u128 = 1;
    let mut k: u64 = 0;
    let ghost den = n as nat;
    proof {
        if n > 1 {
            lemma_quotient(1, den, 0, 1);
        } else {
            assert(1nat / 1nat == 1);
        }
        lemma_pow2_adds(64, 53);
        assert(0x1_0000_0000_0000_0000 * 0x20_0000_0000_0000 == 0x20_0000_0000_0000_0000_0000_0000_0000);
    }
    while num / n < MANTISSA_MIN as u128
        invariant
            0 < n <= 0x2_0000_0000_0000_0000,
            den == n,
            num == pow2(k as nat),
            k <= 117,
            pow2(117) == 0x20_0000_0000_0000_0000_0000_0000_0000,
            pow2(51) == 0x8_0000_0000_0000,
            pow2(53) == MANTISSA_END,
            (num as nat) / den < MANTISSA_END,
            k < 52 ==> (num as nat) / den < MANTISSA_MIN,
            doublings(1, den) == k + doublings(num as nat, den),
        decreases doublings(num as nat, den),
    {
        proof {
            lemma_pow2_pos(k as nat);
            lemma_small_quotient(num as nat, den);
            assert(0x10_0000_0000_0000 * den <= 0x10_0000_0000_0000 * 0x2_0000_0000_0000_0000);
            if k == 117 {
                assert(false);
            }
            lemma_pow2_unfold((k + 1) as nat);
            let q = (2 * num as nat) / den;
            lemma_fundamental_div_mod(2 * num as nat as int, den as int);
            assert(q < MANTISSA_END) by (nonlinear_arith)
                requires
                    (num as nat) < 0x10_0000_0000_0000 * den,
                    2 * (num as nat) == den * q + (2 * (num as nat)) % den,
                    (2 * (num as nat)) % den >= 0,
                    MANTISSA_END == 0x20_0000_0000_0000,
            ;
            if k + 1 < 52 {
                if k + 1 < 51 {
                    lemma_pow2_strictly_increases((k + 1) as nat, 51);
                }
                assert(q <= 2 * (num as nat)) by (nonlinear_arith)
                    requires
                        2 * (num as nat) == den * q + (2 * (num as nat)) % den,
                        (2 * (num as nat)) % den >= 0,
                        den >= 1,
                ;
            }
        }
        num = 2 * num;
        k += 1;
    }
    proof {
        assert(1 * pow2(k as nat) == num);
        assert(k >= 52);
        assert(doublings(num as nat, den) == 0);
    }
    let q: u64 = (num / n) as u64;
    let rest: u128 = num % n;
    let up = rounds_up(q, 2 * rest < n, 2 * rest == n);
    normalise(q, up, -(k as i128))
}

fn shifted(m: u64, d: u64) -> (r: u128)
    requires
        m < MANTISSA_END,
        d <= 70,
    ensures
        r == m * pow2(d as nat),
        r < 0x800_0000_0000_0000_0000_0000_0000_0000,
{
    let mut v: u128 = m as u128;
    let mut i: u64 = 0;
    proof {
        lemma2_to64();
        lemma2_to64_rest();
        assert(m * 1 == m);
        lemma_pow2_adds(64, 6);
        assert(0x1_0000_0000_0000_0000 * 64 == 0x40_0000_0000_0000_0000);
    }
    while i < d
        invariant
            i <= d <= 70,
            m < MANTISSA_END,
            v == m * pow2(i as nat),
            pow2(70) == 0x40_0000_0000_0000_0000,
        decreases d - i,
    {
        proof {
            lemma_shift_bound(m, i as nat);
            lemma_pow2_unfold((i + 1) as nat);
            assert(2 * (m * pow2(i as nat)) == m * pow2((i + 1) as nat)) by (nonlinear_arith)
                requires
                    pow2((i + 1) as nat) == 2 * pow2(i as nat),
            ;
        }
        v = 2 * v;
        i += 1;
    }
    proof {
        lemma_shift_bound(m, d as nat);
    }
    v
}

proof fn lemma_shift_bound(m: u64, d: nat)
    requires
        m < MANTISSA_END,
        d <= 70,
        pow2(70) == 0x40_0000_0000_0000_0000,
    ensures
        m * pow2(d) < 0x800_0000_0000_0000_0000_0000_0000_0000,
{
    if d < 70 {
        lemma_pow2_strictly_increases(d, 70);
    }
    let p = pow2(d);
    lemma_pow2_pos(d);
    assert(m * p < 0x20_0000_0000_0000 * 0x40_0000_0000_0000_0000) by (nonlinear_arith)
        requires
            0 <= m < 0x20_0000_0000_0000,
            0 < p <= 0x40_0000_0000_0000_0000,
    ;
}

/// The rounded sum.
pub fn sum(a: &Rounded, b: &Rounded) -> (r: Rounded)
    requires
        a.mantissa < MANTISSA_END,
        b.mantissa < MANTISSA_END,
        -120 <= a.exponent <= -50,
        -120 <= b.exponent <= -50,
    ensures
        r@ == plus(a@, b@),
{
    let low: i128 = if a.exponent < b.exponent {
        a.exponent
    } else {
        b.exponent
    };
    let x = shifted(a.mantissa, (a.exponent - low) as u64);
    let y = shifted(b.mantissa, (b.exponent - low) as u64);
    let none: Vec<char> = Vec::new();
    let total: u128 = x + y;
    let p = round_decimal(total, &none);
    assert(mixed(total as nat, none@) == total) by {
        assert(ten(0) == 1);
        assert(decimal(none@) == 0);
        assert(total * 1 == total);
    }
    Rounded { mantissa: p.mantissa, exponent: low + p.exponent }
}

// ------------------------------------------------------- quotients, products

/// The rounded product of two rounded numbers.
pub open spec fn product_of(a: Approx, b: Approx) -> Approx {
    let p = nearest(a.mantissa * b.mantissa, 1);
    Approx { mantissa: p.mantissa, exponent: a.exponent + b.exponent + p.exponent }
}

/// The rounded quotient of an integer and a rounded number.
pub open spec fn quotient_of(n: nat, a: Approx) -> Approx {
    let p = nearest(n, a.mantissa);
    Approx { mantissa: p.mantissa, exponent: p.exponent - a.exponent }
}

/// Twice a rounded number.
pub open spec fn twice(a: Approx) -> Approx {
    Approx { mantissa: a.mantissa, exponent: a.exponent + 1 }
}

/// The nearest integer, halves rounded up.
pub open spec fn round_up(a: Approx) -> nat {
    (whole(twice(a)) + 1) / 2
}

proof fn lemma_divide_even(num: nat, den: nat)
    requires
        den > 0,
    ensures
        -(den as int) <= 2 * (divide_even(num, den) * den - num) <= den,
{
    let q = num / den;
    let r = num % den;
    lemma_fundamental_div_mod(num as int, den as int);
    assert(q * den == den * q) by (nonlinear_arith);
    assert((q + 1) * den == den * q + den) by (nonlinear_arith);
}

/// How close a rounded quotient below 2^52 is.
pub proof fn lemma_nearest_small(num: nat, den: nat)
    requires
        num > 0,
        den > 0,
        num / den < MANTISSA_MIN,
    ensures
        nearest(num, den).exponent <= 0,
        ({
            let exact = num * pow2((-nearest(num, den).exponent) as nat);
            &&& -(den as int) <= 2 * (nearest(num, den).mantissa * den - exact) <= den
            &&& 0x8_0000_0000_0000 * den <= exact
        }),
{
    let k = doublings(num, den);
    let scaled = num * pow2(k);
    lemma_doubled_range(num, den);
    lemma_divide_even(scaled, den);
    lemma_fundamental_div_mod(scaled as int, den as int);
    let q = scaled / den;
    assert(0x10_0000_0000_0000 * den <= scaled) by (nonlinear_arith)
        requires
            0x10_0000_0000_0000 <= q,
            scaled == den * q + scaled % den,
            scaled % den >= 0,
    ;
    assert(k > 0);
    let rounded = divide_even(scaled, den);
    if rounded == MANTISSA_END {
        lemma_pow2_unfold(k);
        let half = num * pow2((k - 1) as nat);
        assert(2 * half == scaled) by (nonlinear_arith)
            requires
                pow2(k) == 2 * pow2((k - 1) as nat),
                half == num * pow2((k - 1) as nat),
                scaled == num * pow2(k),
        ;
        assert(0x20_0000_0000_0000 * den == 2 * (0x10_0000_0000_0000 * den)) by (nonlinear_arith);
    }
}

/// How close a rounded integer of at least 2^52 is.
pub proof fn lemma_nearest_big(num: nat)
    requires
        num >= MANTISSA_MIN,
    ensures
        nearest(num, 1).exponent >= 0,
        ({
            let value = nearest(num, 1).mantissa * pow2(nearest(num, 1).exponent as nat);
            -num <= 0x20_0000_0000_0000 * (value - num) <= num
        }),
{
    assert(num / 1 == num);
    let k = halvings(num, 1);
    lemma_halved_range(num, 1);
    lemma_pow2_pos(k);
    let unit = pow2(k);
    assert(1 * unit == unit);
    lemma_divide_even(num, unit);
    lemma_fundamental_div_mod(num as int, unit as int);
    let q = num / unit;
    assert(0x10_0000_0000_0000 * unit <= num) by (nonlinear_arith)
        requires
            0x10_0000_0000_0000 <= q,
            num == unit * q + num % unit,
            num % unit >= 0,
    ;
    let rounded = divide_even(num, unit);
    if rounded == MANTISSA_END {
        lemma_pow2_unfold(k + 1);
        assert(0x10_0000_0000_0000 * (2 * unit) == 0x20_0000_0000_0000 * unit) by (nonlinear_arith);
    }
}

/// Rounding a number that is close to an integer gives the integer.
pub proof fn lemma_round_up_close(a: Approx, n: nat, scale: nat, value: nat, k: int)
    requires
        scale == pow2(k as nat),
        k >= 0,
        a.exponent + k >= 0,
        value == a.mantissa * pow2((a.exponent + k) as nat),
        -(scale as int) <= 4 * (value - n * scale) <= scale,
        n > 0,
    ensures
        round_up(a) == n,
{
    let w = whole(twice(a));
    let e = a.exponent + 1;
    let high = (a.exponent + k) as nat;
    lemma_pow2_pos(k as nat);
    lemma_pow2_pos(high);
    let p = pow2(high);
    let m = a.mantissa;
    if e >= 0 {
        lemma_pow2_adds(e as nat, k as nat);
        lemma_pow2_unfold(high + 1);
        let step = pow2(e as nat);
        assert(w * scale == 2 * value) by (nonlinear_arith)
            requires
                w == m * step,
                step * scale == 2 * p,
                value == m * p,
        ;
    } else {
        let d = pow2((-e) as nat);
        lemma_pow2_pos((-e) as nat);
        lemma_pow2_unfold(high + 1);
        lemma_pow2_adds((-e) as nat, high + 1);
        let s = 2 * p;
        assert(d * s == scale);
        lemma_fundamental_div_mod(m as int, d as int);
        let r = m % d;
        assert(w == m / d);
        assert(w * scale + r * s == 2 * value) by (nonlinear_arith)
            requires
                m == d * w + r,
                d * s == scale,
                s == 2 * p,
                value == m * p,
        ;
        assert(0 <= r * s < scale) by (nonlinear_arith)
            requires
                0 <= r < d,
                d * s == scale,
                s > 0,
        ;
    }
    assert(w * scale <= 2 * value < (w + 1) * scale) by (nonlinear_arith)
        requires
            w * scale <= 2 * value < w * scale + scale,
    ;
    assert(2 * n - 1 <= w) by (nonlinear_arith)
        requires
            2 * value < (w + 1) * scale,
            -(scale as int) <= 4 * (value - n * scale),
            scale > 0,
    ;
    assert(w <= 2 * n) by (nonlinear_arith)
        requires
            w * scale <= 2 * value,
            4 * (value - n * scale) <= scale,
            scale > 0,
    ;
}

/// A quotient of integers, rounded.
pub fn ratio(n: u32, d: u64) -> (r: Rounded)
    requires
        0 < n,
        0 < d <= MANTISSA_END,
    ensures
        r@ == nearest(n as nat, d as nat),
        MANTISSA_MIN <= r.mantissa < MANTISSA_END,
        -118 <= r.exponent <= 1,
{
    proof {
        lemma2_to64();
        lemma2_to64_rest();
    }
    let mut num: u128 = n as u128;
    let mut k: u64 = 0;
    let ghost den = d as nat;
    let ghost start = n as nat;
    proof {
        lemma_pow2_adds(64, 53);
        assert(0x1_0000_0000_0000_0000 * 0x20_0000_0000_0000 == 0x20_0000_0000_0000_0000_0000_0000_0000);
        lemma_fundamental_div_mod(start as int, den as int);
        assert(start / den <= start) by (nonlinear_arith)
            requires
                start == den * (start / den) + start % den,
                start % den >= 0,
                den >= 1,
        ;
        assert(start * 1 == start);
    }
    while num / (d as u128) < MANTISSA_MIN as u128
        invariant
            0 < start <= 0xffff_ffff,
            0 < d <= MANTISSA_END,
            den == d,
            num == start * pow2(k as nat),
            k <= 117,
            pow2(117) == 0x20_0000_0000_0000_0000_0000_0000_0000,
            (num as nat) / den < MANTISSA_END,
            doublings(start, den) == k + doublings(num as nat, den),
        decreases doublings(num as nat, den),
    {
        proof {
            lemma_pow2_pos(k as nat);
            assert(start * pow2(k as nat) >= pow2(k as nat)) by (nonlinear_arith)
                requires
                    start >= 1,
            ;
            lemma_small_quotient(num as nat, den);
            assert(0x10_0000_0000_0000 * den <= 0x10_0000_0000_0000 * 0x20_0000_0000_0000);
            if k == 117 {
                assert(false);
            }
            lemma_pow2_unfold((k + 1) as nat);
            assert(2 * (start * pow2(k as nat)) == start * (2 * pow2(k as nat)))
                by (nonlinear_arith);
            let q = (2 * num as nat) / den;
            lemma_fundamental_div_mod(2 * num as nat as int, den as int);
            assert(q < MANTISSA_END) by (nonlinear_arith)
                requires
                    (num as nat) < 0x10_0000_0000_0000 * den,
                    2 * (num as nat) == den * q + (2 * (num as nat)) % den,
                    (2 * (num as nat)) % den >= 0,
                    MANTISSA_END == 0x20_0000_0000_0000,
            ;
        }
        num = 2 * num;
        k += 1;
    }
    proof {
        assert(doublings(num as nat, den) == 0);
    }
    let q: u64 = (num / (d as u128)) as u64;
    let rest: u128 = num % (d as u128);
    let up = rounds_up(q, 2 * rest < d as u128, 2 * rest == d as u128);
    normalise(q, up, -(k as i128))
}

/// Divides an integer and rounds.
pub fn divided(n: u32, a: Rounded) -> (r: Rounded)
    requires
        0 < n,
        0 < a.mantissa < MANTISSA_END,
        -0x1_0000_0000_0000_0000 <= a.exponent <= 0x1_0000_0000_0000_0000,
    ensures
        r@ == quotient_of(n as nat, a@),
        MANTISSA_MIN <= r.mantissa < MANTISSA_END,
        -118 - a.exponent <= r.exponent <= 1 - a.exponent,
{
    let p = ratio(n, a.mantissa);
    Rounded { mantissa: p.mantissa, exponent: p.exponent - a.exponent }
}

/// Multiplies two rounded numbers and rounds.
pub fn product(a: Rounded, b: Rounded) -> (r: Rounded)
    requires
        a.mantissa < MANTISSA_END,
        b.mantissa < MANTISSA_END,
        -0x1_0000_0000_0000_0000 <= a.exponent <= 0x1_0000_0000_0000_0000,
        -0x1_0000_0000_0000_0000 <= b.exponent <= 0x1_0000_0000_0000_0000,
    ensures
        r@ == product_of(a@, b@),
        r.mantissa < MANTISSA_END,
        r.mantissa > 0 ==> r.mantissa >= MANTISSA_MIN,
        a.exponent + b.exponent - 53 <= r.exponent <= a.exponent + b.exponent + 76,
{
    let p = multiply(a, b.mantissa);
    Rounded { mantissa: p.mantissa, exponent: p.exponent + b.exponent }
}

/// The nearest integer, halves rounded up, where it fits in 32 bits.
pub fn rounded_up(a: Rounded) -> (r: u64)
    requires
        a.mantissa < MANTISSA_END,
        a.mantissa > 0 ==> a.mantissa >= MANTISSA_MIN,
        -0x1_0000_0000_0000_0000_0000 <= a.exponent <= 0x1_0000_0000_0000_0000_0000,
    ensures
        r == (if round_up(a@) <= 0xffff_ffff {
            round_up(a@)
        } else {
            0xffff_ffff
        }),
{
    let double = Rounded { mantissa: a.mantissa, exponent: a.exponent + 1 };
    assert(double@ == twice(a@));
    match truncate(double) {
        None => 0xffff_ffff,
        Some(v) => {
            if v >= 0x1_ffff_ffff {
                0xffff_ffff
            } else {
                (v + 1) / 2
            }
        },
    }
}

// ------------------------------------------------------------------ monotony

proof fn lemma_divide_even_grows(a: nat, b: nat, den: nat)
    requires
        a <= b,
        den > 0,
    ensures
        divide_even(a, den) <= divide_even(b, den),
{
    let (q, r) = (a / den, a % den);
    let (s, t) = (b / den, b % den);
    lemma_fundamental_div_mod(a as int, den as int);
    lemma_fundamental_div_mod(b as int, den as int);
    assert(q <= s) by (nonlinear_arith)
        requires
            den * q + r <= den * s + t,
            0 <= r,
            t < den,
            den > 0,
    ;
    if q == s {
        assert(r <= t);
    }
}

proof fn lemma_divide_even_falls(num: nat, m: nat, n: nat)
    requires
        0 < m <= n,
    ensures
        divide_even(num, m) >= divide_even(num, n),
{
    let (q, r) = (num / m, num % m);
    let (s, t) = (num / n, num % n);
    lemma_fundamental_div_mod(num as int, m as int);
    lemma_fundamental_div_mod(num as int, n as int);
    assert(m * s <= n * s) by (nonlinear_arith)
        requires
            m <= n,
    ;
    assert(s <= q) by (nonlinear_arith)
        requires
            m * s <= n * s,
            n * s + t == m * q + r,
            0 <= t,
            0 <= r < m,
    ;
    if q == s {
        assert(m * (2 * q + 1) <= n * (2 * q + 1)) by (nonlinear_arith)
            requires
                m <= n,
        ;
        assert(m * (2 * q + 1) == 2 * (m * q) + m) by (nonlinear_arith);
        assert(n * (2 * q + 1) == 2 * (n * q) + n) by (nonlinear_arith);
    }
}

proof fn lemma_divide_even_doubled(num: nat, den: nat)
    requires
        den > 0,
    ensures
        divide_even(2 * num, 2 * den) == divide_even(num, den),
{
    let (q, r) = (num / den, num % den);
    lemma_fundamental_div_mod(num as int, den as int);
    assert(2 * num == (2 * den) * q + 2 * r) by (nonlinear_arith)
        requires
            num == den * q + r,
    ;
    lemma_fundamental_div_mod_converse((2 * num) as int, (2 * den) as int, q as int, (2 * r) as int);
}

proof fn lemma_doublings_grow(num: nat, m: nat, n: nat)
    requires
        num > 0,
        0 < m <= n,
    ensures
        doublings(num, m) <= doublings(num, n),
    decreases doublings(num, m),
{
    lemma_fundamental_div_mod(num as int, m as int);
    lemma_fundamental_div_mod(num as int, n as int);
    let (q, s) = (num / m, num / n);
    assert(s <= q) by (nonlinear_arith)
        requires
            n * s + num % n == m * q + num % m,
            0 <= num % n,
            0 <= num % m < m,
            0 < m <= n,
            s >= 0,
    ;
    if q < MANTISSA_MIN {
        lemma_doublings_grow(2 * num, m, n);
    }
}

/// A larger denominator makes no larger number.
pub proof fn lemma_nearest_falls(num: nat, m: nat, n: nat)
    requires
        num > 0,
        0 < m <= n,
        num / m < MANTISSA_MIN,
    ensures
        !exceeds(nearest(num, n), nearest(num, m)),
{
    lemma_fundamental_div_mod(num as int, m as int);
    lemma_fundamental_div_mod(num as int, n as int);
    let (q, s) = (num / m, num / n);
    assert(s <= q) by (nonlinear_arith)
        requires
            n * s + num % n == m * q + num % m,
            0 <= num % n,
            0 <= num % m < m,
            0 < m <= n,
            s >= 0,
    ;
    let (j, k) = (doublings(num, m), doublings(num, n));
    lemma_doublings_grow(num, m, n);
    lemma_nearest_normal(num, m);
    lemma_nearest_normal(num, n);
    if j == k {
        lemma_divide_even_falls(num * pow2(k), m, n);
    } else {
        lemma_doubled_range(num, m);
        lemma_doubled_range(num, n);
    }
}

proof fn lemma_halvings_doubled(num: nat, den: nat)
    requires
        den > 0,
    ensures
        halvings(2 * num, 2 * den) == halvings(num, den),
    decreases halvings(num, den),
{
    lemma_fundamental_div_mod(num as int, den as int);
    let (q, r) = (num / den, num % den);
    assert(2 * num == (2 * den) * q + 2 * r) by (nonlinear_arith)
        requires
            num == den * q + r,
    ;
    lemma_fundamental_div_mod_converse((2 * num) as int, (2 * den) as int, q as int, (2 * r) as int);
    if num / den >= MANTISSA_END {
        lemma_halvings_doubled(num, 2 * den);
    }
}

proof fn lemma_halvings_grow(a: nat, b: nat, den: nat)
    requires
        a <= b,
        den > 0,
    ensures
        halvings(a, den) <= halvings(b, den),
    decreases halvings(a, den),
{
    lemma_div_is_ordered(a as int, b as int, den as int);
    if a / den >= MANTISSA_END {
        lemma_halvings_grow(a, b, 2 * den);
    }
}

/// A larger integer makes no smaller number.
pub proof fn lemma_nearest_grows(a: nat, b: nat)
    requires
        MANTISSA_MIN <= a <= b,
    ensures
        !exceeds(nearest(a, 1), nearest(b, 1)),
{
    assert(a / 1 == a && b / 1 == b);
    let (j, k) = (halvings(a, 1), halvings(b, 1));
    lemma_halvings_grow(a, b, 1);
    lemma_nearest_normal(a, 1);
    lemma_nearest_normal(b, 1);
    if j == k {
        lemma_pow2_pos(k);
        assert(1 * pow2(k) == pow2(k));
        lemma_divide_even_grows(a, b, pow2(k));
    } else {
        lemma_halved_range(a, 1);
        lemma_halved_range(b, 1);
    }
}

/// Rounding does not depend on the unit.
pub proof fn lemma_nearest_scaled(a: nat, t: nat)
    requires
        MANTISSA_MIN <= a,
    ensures
        nearest(a * pow2(t), 1) == (Approx {
            mantissa: nearest(a, 1).mantissa,
            exponent: nearest(a, 1).exponent + t,
        }),
        a * pow2(t) >= MANTISSA_MIN,
    decreases t,
{
    lemma2_to64();
    if t == 0 {
        assert(a * 1 == a);
    } else {
        let u = (t - 1) as nat;
        lemma_nearest_scaled(a, u);
        lemma_pow2_unfold(t);
        let b = a * pow2(u);
        assert(a * pow2(t) == 2 * b) by (nonlinear_arith)
            requires
                pow2(t) == 2 * pow2(u),
                b == a * pow2(u),
        ;
        assert(b / 1 == b && (2 * b) / 1 == 2 * b);
        let k = halvings(b, 1);
        lemma_halvings_doubled(b, 1);
        assert(halvings(2 * b, 1) == k + 1);
        lemma_pow2_unfold(k + 1);
        lemma_pow2_pos(k);
        lemma_divide_even_doubled(b, pow2(k));
        assert(1 * pow2(k) == pow2(k) && 1 * pow2(k + 1) == pow2(k + 1));
    }
}

/// A number with 53 significant bits.
pub open spec fn is_normal(a: Approx) -> bool {
    MANTISSA_MIN <= a.mantissa < MANTISSA_END
}

/// A number in units of 2^low.
pub open spec fn units(a: Approx, low: int) -> nat {
    a.mantissa * pow2((a.exponent - low) as nat)
}

proof fn lemma_units_down(a: Approx, low: int, lower: int)
    requires
        lower <= low <= a.exponent,
    ensures
        units(a, lower) == units(a, low) * pow2((low - lower) as nat),
{
    lemma_pow2_adds((a.exponent - low) as nat, (low - lower) as nat);
    let (m, p, q) = (a.mantissa, pow2((a.exponent - low) as nat), pow2((low - lower) as nat));
    assert(m * (p * q) == (m * p) * q) by (nonlinear_arith);
}

/// Numbers are in the order of their units.
pub proof fn lemma_units_in_order(a: Approx, b: Approx, low: int)
    requires
        is_normal(a),
        is_normal(b),
        low <= a.exponent,
        low <= b.exponent,
    ensures
        exceeds(a, b) <==> units(a, low) > units(b, low),
        units(a, low) >= MANTISSA_MIN,
{
    lemma_pow2_pos((a.exponent - low) as nat);
    lemma_pow2_pos((b.exponent - low) as nat);
    let (p, q) = (pow2((a.exponent - low) as nat), pow2((b.exponent - low) as nat));
    let (m, n) = (a.mantissa, b.mantissa);
    assert(m * p >= m) by (nonlinear_arith)
        requires
            p >= 1,
    ;
    if a.exponent == b.exponent {
        assert(m > n <==> m * p > n * p) by (nonlinear_arith)
            requires
                p >= 1,
        ;
    } else if a.exponent > b.exponent {
        lemma_wider(a, b, low);
    } else {
        lemma_wider(b, a, low);
    }
}

proof fn lemma_wider(a: Approx, b: Approx, low: int)
    requires
        is_normal(a),
        is_normal(b),
        low <= b.exponent < a.exponent,
    ensures
        units(a, low) > units(b, low),
{
    let (p, q) = (pow2((a.exponent - low) as nat), pow2((b.exponent - low) as nat));
    let (m, n) = (a.mantissa, b.mantissa);
    lemma_pow2_pos((b.exponent - low) as nat);
    lemma_pow2_unfold((b.exponent - low + 1) as nat);
    if b.exponent + 1 < a.exponent {
        lemma_pow2_strictly_increases((b.exponent - low + 1) as nat, (a.exponent - low) as nat);
    }
    assert(m * p > n * q) by (nonlinear_arith)
        requires
            p >= 2 * q,
            q >= 1,
            2 * m > n,
            m > 0,
    ;
}

/// A sum can be taken in any unit that is fine enough.
pub proof fn lemma_plus_in_units(a: Approx, b: Approx, low: int)
    requires
        is_normal(a),
        is_normal(b),
        low <= a.exponent,
        low <= b.exponent,
    ensures
        plus(a, b).mantissa == nearest(units(a, low) + units(b, low), 1).mantissa,
        plus(a, b).exponent == low + nearest(units(a, low) + units(b, low), 1).exponent,
        is_normal(plus(a, b)),
        plus(a, b).exponent >= low,
{
    let least = if a.exponent < b.exponent {
        a.exponent
    } else {
        b.exponent
    };
    let t = (least - low) as nat;
    lemma_units_down(a, least, low);
    lemma_units_down(b, least, low);
    let (x, y) = (units(a, least), units(b, least));
    lemma_units_in_order(a, b, least);
    assert((x + y) * pow2(t) == x * pow2(t) + y * pow2(t)) by (nonlinear_arith);
    lemma_nearest_scaled(x + y, t);
    lemma_nearest_normal(x + y, 1);
    assert((x + y) / 1 == x + y);
}

/// Sums of larger numbers are no smaller.
pub proof fn lemma_plus_grows(a: Approx, b: Approx, c: Approx, d: Approx)
    requires
        is_normal(a),
        is_normal(b),
        is_normal(c),
        is_normal(d),
        !exceeds(a, c),
        !exceeds(b, d),
    ensures
        !exceeds(plus(a, b), plus(c, d)),
{
    let low = if a.exponent < b.exponent {
        a.exponent
    } else {
        b.exponent
    };
    lemma_plus_in_units(a, b, low);
    lemma_plus_in_units(c, d, low);
    lemma_units_in_order(a, c, low);
    lemma_units_in_order(b, d, low);
    lemma_nearest_grows(units(a, low) + units(b, low), units(c, low) + units(d, low));
}

/// A sum is no smaller than its parts.
pub proof fn lemma_plus_at_least(a: Approx, b: Approx)
    requires
        is_normal(a),
        is_normal(b),
    ensures
        !exceeds(a, plus(a, b)),
        plus(a, b) == plus(b, a),
        is_normal(plus(a, b)),
{
    let low = if a.exponent < b.exponent {
        a.exponent
    } else {
        b.exponent
    };
    let t = (a.exponent - low) as nat;
    lemma_plus_in_units(a, b, low);
    lemma_units_in_order(a, b, low);
    let m = a.mantissa;
    lemma2_to64();
    assert(m / 1 == m);
    assert(halvings(m, 1) == 0);
    assert(m % 1 == 0);
    assert(nearest(m, 1) == (Approx { mantissa: m, exponent: 0 }));
    lemma_nearest_scaled(m, t);
    lemma_nearest_grows(units(a, low), units(a, low) + units(b, low));
}

/// `v` is `num / den` in units of 1 / `scale`, but for one part in 2^51.
pub open spec fn is_close(v: nat, num: nat, den: nat, scale: nat) -> bool {
    let off = v * den - num * scale;
    -(num * scale) <= 0x8_0000_0000_0000 * off <= num * scale
}

proof fn lemma_reciprocal_off(n: nat, low: int)
    requires
        n > 0,
        low <= nearest(1, n).exponent,
    ensures
        low <= 0,
        ({
            let v = units(nearest(1, n), low);
            let scale = pow2((-low) as nat);
            -(scale as int) <= 0x10_0000_0000_0000 * (v * n - scale) <= scale
        }),
{
    assert(1nat / n < MANTISSA_MIN) by {
        lemma_fundamental_div_mod(1, n as int);
        let q = 1nat / n;
        assert(q <= 1) by (nonlinear_arith)
            requires
                1 == n * q + 1nat % n,
                1nat % n >= 0,
                n >= 1,
        ;
    }
    lemma_quotient_off(1, n, low);
    let scale = pow2((-low) as nat);
    assert(1 * scale == scale);
}

/// A rounded reciprocal is close.
pub proof fn lemma_reciprocal_is_close(n: nat, low: int)
    requires
        n > 0,
        low <= nearest(1, n).exponent,
    ensures
        low <= 0,
        is_close(units(nearest(1, n), low), 1, n, pow2((-low) as nat)),
{
    lemma_reciprocal_off(n, low);
    let scale = pow2((-low) as nat);
    assert(1 * scale == scale);
}

/// A rounded sum of two rounded reciprocals is close.
pub proof fn lemma_reciprocals_are_close(n: nat, m: nat, low: int)
    requires
        n > 0,
        m > 0,
        low <= nearest(1, n).exponent,
        low <= nearest(1, m).exponent,
    ensures
        low <= 0,
        is_close(
            units(plus(nearest(1, n), nearest(1, m)), low),
            n + m,
            n * m,
            pow2((-low) as nat),
        ),
{
    let (a, b) = (nearest(1, n), nearest(1, m));
    lemma_nearest_normal(1, n);
    lemma_nearest_normal(1, m);
    lemma_reciprocal_off(n, low);
    lemma_reciprocal_off(m, low);
    lemma_plus_in_units(a, b, low);
    lemma_units_in_order(a, b, low);
    let scale = pow2((-low) as nat);
    let (x, y) = (units(a, low), units(b, low));
    let sum = x + y;
    lemma_nearest_big(sum);
    let v = units(plus(a, b), low);
    let target = (n + m) * scale;
    let den = n * m;
    assert(-(m * scale) <= 0x10_0000_0000_0000 * (x * den - m * scale) <= m * scale)
        by (nonlinear_arith)
        requires
            -(scale as int) <= 0x10_0000_0000_0000 * (x * n - scale) <= scale,
            den == n * m,
            m > 0,
    ;
    assert(-(n * scale) <= 0x10_0000_0000_0000 * (y * den - n * scale) <= n * scale)
        by (nonlinear_arith)
        requires
            -(scale as int) <= 0x10_0000_0000_0000 * (y * m - scale) <= scale,
            den == n * m,
            n > 0,
    ;
    assert(sum * den == x * den + y * den) by (nonlinear_arith)
        requires
            sum == x + y,
    ;
    assert(target == m * scale + n * scale) by (nonlinear_arith)
        requires
            target == (n + m) * scale,
    ;
    assert(-target <= 0x10_0000_0000_0000 * (sum * den - target) <= target);
    assert(-(sum * den) <= 0x20_0000_0000_0000 * (v * den - sum * den) <= sum * den)
        by (nonlinear_arith)
        requires
            -sum <= 0x20_0000_0000_0000 * (v - sum) <= sum,
            den >= 0,
    ;
}

/// Of two numbers in the same units, the one that stands for more, by one part in
/// 2^50, is more.
pub proof fn lemma_close_in_order(
    v: nat,
    num: nat,
    den: nat,
    w: nat,
    other: nat,
    over: nat,
    scale: nat,
)
    requires
        is_close(v, num, den, scale),
        is_close(w, other, over, scale),
        den > 0,
        over > 0,
        scale > 0,
        num > 0,
        0x4_0000_0000_0000 * (other * den) <= 0x3_ffff_ffff_ffff * (num * over),
    ensures
        v > w,
{
    let a = num * over * scale;
    let b = other * den * scale;
    let x = v * den * over;
    let y = w * over * den;
    assert(0x4_0000_0000_0000 * b <= 0x3_ffff_ffff_ffff * a) by (nonlinear_arith)
        requires
            0x4_0000_0000_0000 * (other * den) <= 0x3_ffff_ffff_ffff * (num * over),
            a == num * over * scale,
            b == other * den * scale,
            scale > 0,
    ;
    assert(-a <= 0x8_0000_0000_0000 * (x - a)) by (nonlinear_arith)
        requires
            -(num * scale) <= 0x8_0000_0000_0000 * (v * den - num * scale),
            a == num * over * scale,
            x == v * den * over,
            over > 0,
    ;
    assert(0x8_0000_0000_0000 * (y - b) <= b) by (nonlinear_arith)
        requires
            0x8_0000_0000_0000 * (w * over - other * scale) <= other * scale,
            b == other * den * scale,
            y == w * over * den,
            den > 0,
    ;
    assert(a > 0) by (nonlinear_arith)
        requires
            a == num * over * scale,
            num > 0,
            over > 0,
            scale > 0,
    ;
    assert(x > y);
    assert(v > w) by (nonlinear_arith)
        requires
            x > y,
            x == v * den * over,
            y == w * over * den,
            den > 0,
            over > 0,
    ;
}

/// The quotient after all doublings.
pub proof fn lemma_doubled_quotient(num: nat, den: nat)
    requires
        num > 0,
        den > 0,
        num / den < MANTISSA_END,
    ensures
        MANTISSA_MIN <= (num * pow2(doublings(num, den))) / den < MANTISSA_END,
{
    lemma_doubled_range(num, den);
}

/// The quotient after all halvings.
pub proof fn lemma_halved_quotient(num: nat, den: nat)
    requires
        den > 0,
        num / den >= MANTISSA_MIN,
    ensures
        MANTISSA_MIN <= num / (den * pow2(halvings(num, den))) < MANTISSA_END,
{
    lemma_halved_range(num, den);
}


/// A rounded quotient is close.
pub proof fn lemma_quotient_off(num: nat, den: nat, low: int)
    requires
        num > 0,
        den > 0,
        num / den < MANTISSA_MIN,
        low <= nearest(num, den).exponent,
    ensures
        low <= 0,
        ({
            let v = units(nearest(num, den), low);
            let exact = num * pow2((-low) as nat);
            -exact <= 0x10_0000_0000_0000 * (v * den - exact) <= exact
        }),
{
    let a = nearest(num, den);
    lemma_nearest_small(num, den);
    let e = -a.exponent;
    let s = pow2(e as nat);
    let p = pow2((a.exponent - low) as nat);
    lemma_pow2_adds(e as nat, (a.exponent - low) as nat);
    lemma_pow2_pos((a.exponent - low) as nat);
    let scale = pow2((-low) as nat);
    let t = num * s;
    let m = a.mantissa;
    let off = m * den - t;
    assert(-t <= 0x10_0000_0000_0000 * off <= t);
    let v = m * p;
    assert(v * den - num * scale == off * p) by (nonlinear_arith)
        requires
            v == m * p,
            scale == s * p,
            off == m * den - num * s,
    ;
    assert(num * scale == t * p) by (nonlinear_arith)
        requires
            scale == s * p,
            t == num * s,
    ;
    assert(-(t * p) <= 0x10_0000_0000_0000 * (off * p) <= t * p) by (nonlinear_arith)
        requires
            -t <= 0x10_0000_0000_0000 * off <= t,
            p > 0,
    ;
}

/// A number is rounded to one that is off by at most a half.
pub proof fn lemma_rounded_near(a: Approx, low: int)
    requires
        low <= a.exponent,
        low < 0,
    ensures
        ({
            let scale = pow2((-low) as nat);
            -scale <= 2 * (round_up(a) * scale - units(a, low)) <= scale
        }),
{
    let (m, e) = (a.mantissa, a.exponent);
    let scale = pow2((-low) as nat);
    let v = units(a, low);
    let q = whole(twice(a));
    let g = pow2((e + 1 - low) as nat);
    lemma_pow2_pos((e + 1 - low) as nat);
    lemma_pow2_unfold((e + 1 - low) as nat);
    let half = pow2((e - low) as nat);
    assert(g == 2 * half);
    assert(2 * v == m * g) by (nonlinear_arith)
        requires
            v == m * half,
            g == 2 * half,
    ;
    if e + 1 >= 0 {
        let d = pow2((e + 1) as nat);
        lemma_pow2_adds((e + 1) as nat, (-low) as nat);
        assert(q * scale == m * g) by (nonlinear_arith)
            requires
                q == m * d,
                g == d * scale,
        ;
    } else {
        let d = pow2((-(e + 1)) as nat);
        lemma_pow2_pos((-(e + 1)) as nat);
        lemma_pow2_adds((-(e + 1)) as nat, (e + 1 - low) as nat);
        lemma_fundamental_div_mod(m as int, d as int);
        let rem = m % d;
        assert(m * g == q * scale + rem * g) by (nonlinear_arith)
            requires
                m == d * q + rem,
                scale == d * g,
        ;
        assert(0 <= rem * g < scale) by (nonlinear_arith)
            requires
                0 <= rem < d,
                scale == d * g,
                g > 0,
        ;
    }
    lemma_pow2_pos((-low) as nat);
    assert(q * scale <= 2 * v < q * scale + scale);
    let c = round_up(a);
    assert(q <= 2 * c <= q + 1);
    assert(q * scale <= 2 * (c * scale) <= q * scale + scale) by (nonlinear_arith)
        requires
            q <= 2 * c <= q + 1,
            scale > 0,
    ;
}

} // verus!
