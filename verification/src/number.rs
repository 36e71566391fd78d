//! Decimal numbers as they are written: sign, digits, point, exponent.

use crate::binary64::{
    divide_even, doublings, halvings, lemma_decimal_bound, lemma_decimal_first,
    lemma_doubled_quotient, lemma_halved_quotient, lemma_halvings_at_most, lemma_nearest_normal,
    lemma_whole_huge, lemma_whole_tiny, mixed, multiply, nearest, round_decimal, ten, times,
    truncate, whole, Approx, MANTISSA_END, MANTISSA_MIN,
};
use crate::text::{all_digits, char_is_digit, decimal, digit_value, is_digit, sub_chars};
use vstd::arithmetic::power2::*;
use vstd::prelude::*;

verus! {

/// A number as written: an optional sign, digits with an optional point, an
/// optional exponent.
pub struct Written {
    pub negative: bool,
    pub before: Seq<char>,
    pub after: Seq<char>,
    pub exponent_negative: bool,
    pub exponent: Seq<char>,
}

/// The end of the run of digits that starts at `from`.
pub open spec fn digits_end(s: Seq<char>, from: int) -> int
    decreases s.len() - from,
{
    if 0 <= from < s.len() && is_digit(s[from]) {
        digits_end(s, from + 1)
    } else {
        from
    }
}

pub open spec fn is_sign(s: Seq<char>, i: int) -> bool {
    i < s.len() && (s[i] == '+' || s[i] == '-')
}

/// Reads `s` as a number; the exponent letter is `e`.
pub open spec fn read_number(s: Seq<char>) -> Option<Written> {
    let a = if is_sign(s, 0) {
        1int
    } else {
        0int
    };
    let b = digits_end(s, a);
    let c = if b < s.len() && s[b] == '.' {
        b + 1
    } else {
        b
    };
    let d = if c > b {
        digits_end(s, c)
    } else {
        c
    };
    let negative = a == 1 && s[0] == '-';
    if b == a && d == c {
        None
    } else if d == s.len() {
        Some(
            Written {
                negative,
                before: s.subrange(a, b),
                after: s.subrange(c, d),
                exponent_negative: false,
                exponent: Seq::empty(),
            },
        )
    } else if s[d] != 'e' {
        None
    } else {
        let f = if is_sign(s, d + 1) {
            d + 2
        } else {
            d + 1
        };
        let g = digits_end(s, f);
        if g == f || g < s.len() {
            None
        } else {
            Some(
                Written {
                    negative,
                    before: s.subrange(a, b),
                    after: s.subrange(c, d),
                    exponent_negative: f == d + 2 && s[d + 1] == '-',
                    exponent: s.subrange(f, g),
                },
            )
        }
    }
}

impl Written {
    /// The power of ten that the digits, read as one integer, are scaled by.
    pub open spec fn scale(self) -> int {
        (if self.exponent_negative {
            -(decimal(self.exponent) as int)
        } else {
            decimal(self.exponent) as int
        }) - self.after.len()
    }

    /// The magnitude is the fraction `num / den`.
    pub open spec fn num(self) -> nat {
        if self.scale() >= 0 {
            decimal(self.before + self.after) * ten(self.scale() as nat)
        } else {
            decimal(self.before + self.after)
        }
    }

    pub open spec fn den(self) -> nat {
        if self.scale() >= 0 {
            1
        } else {
            ten((-self.scale()) as nat)
        }
    }

    /// Multiplied by `factor` in double precision and truncated. A negative
    /// number counts only where double precision rounds it to zero.
    pub open spec fn scaled(self, factor: nat) -> Option<u64> {
        if self.negative {
            if self.num() * pow2(1075) <= self.den() {
                Some(0)
            } else {
                None
            }
        } else {
            let w = whole(times(nearest(self.num(), self.den()), factor));
            if w <= u64::MAX {
                Some(w as u64)
            } else {
                None
            }
        }
    }
}

proof fn lemma_digits_end(s: Seq<char>, from: int)
    requires
        0 <= from <= s.len(),
    ensures
        from <= digits_end(s, from) <= s.len(),
        all_digits(s.subrange(from, digits_end(s, from))),
    decreases s.len() - from,
{
    if from < s.len() && is_digit(s[from]) {
        lemma_digits_end(s, from + 1);
        let e = digits_end(s, from);
        assert forall|i: int| 0 <= i < e - from implies is_digit(#[trigger] s.subrange(from, e)[i]) by {
            if i > 0 {
                assert(s.subrange(from, e)[i] == s.subrange(from + 1, e)[i - 1]);
            }
        }
    }
}

fn find_digits_end(s: &[char], from: usize) -> (r: usize)
    requires
        from <= s.len(),
    ensures
        r == digits_end(s@, from as int),
        from <= r <= s.len(),
{
    let mut i: usize = from;
    while i < s.len() && char_is_digit(s[i])
        invariant
            from <= i <= s.len(),
            digits_end(s@, from as int) == digits_end(s@, i as int),
        decreases s.len() - i,
    {
        i += 1;
    }
    i
}

fn sign_at(s: &[char], i: usize) -> (r: bool)
    ensures
        r == is_sign(s@, i as int),
{
    i < s.len() && (s[i] == '+' || s[i] == '-')
}

pub proof fn lemma_decimal_concat(a: Seq<char>, b: Seq<char>)
    ensures
        decimal(a + b) == decimal(a) * ten(b.len()) + decimal(b),
    decreases b.len(),
{
    if b.len() == 0 {
        assert(a + b == a);
        assert(ten(0) == 1);
        assert(decimal(a) * 1 == decimal(a));
    } else {
        lemma_decimal_concat(a, b.drop_last());
        assert((a + b).drop_last() == a + b.drop_last());
        assert((a + b).last() == b.last());
        let x = decimal(a);
        assert(10 * (x * ten((b.len() - 1) as nat)) == x * ten(b.len())) by (nonlinear_arith)
            requires
                ten(b.len()) == 10 * ten((b.len() - 1) as nat),
        ;
    }
}

spec fn zeros(n: nat) -> Seq<char> {
    Seq::new(n, |i: int| '0')
}

proof fn lemma_zeros(n: nat)
    ensures
        decimal(zeros(n)) == 0,
        all_digits(zeros(n)),
    decreases n,
{
    if n > 0 {
        lemma_zeros((n - 1) as nat);
        assert(zeros(n).drop_last() == zeros((n - 1) as nat));
        assert(digit_value('0') == 0);
    }
}

proof fn lemma_ten_adds(a: nat, b: nat)
    ensures
        ten(a + b) == ten(a) * ten(b),
    decreases a,
{
    if a == 0 {
        assert(1 * ten(b) == ten(b));
    } else {
        lemma_ten_adds((a - 1) as nat, b);
        assert(10 * (ten((a - 1) as nat) * ten(b)) == (10 * ten((a - 1) as nat)) * ten(b))
            by (nonlinear_arith);
    }
}

proof fn lemma_ten_eight(n: nat)
    ensures
        ten(n) >= pow2(3 * n),
        ten(n) > 0,
    decreases n,
{
    lemma2_to64();
    if n > 0 {
        lemma_ten_eight((n - 1) as nat);
        lemma_pow2_adds(3, (3 * (n - 1)) as nat);
    }
}

proof fn lemma_ten_monotone(a: nat, b: nat)
    requires
        a <= b,
    ensures
        ten(a) <= ten(b),
    decreases b - a,
{
    if a < b {
        lemma_ten_monotone(a, (b - 1) as nat);
    }
}

proof fn lemma_leading_digit(s: Seq<char>)
    requires
        s.len() > 0,
        all_digits(s),
        s[0] != '0',
    ensures
        decimal(s) >= ten((s.len() - 1) as nat),
{
    lemma_decimal_first(s);
    let d = digit_value(s[0]);
    let w = ten((s.len() - 1) as nat);
    assert(is_digit(s[0]));
    assert(d >= 1);
    assert(d * w >= w) by (nonlinear_arith)
        requires
            d >= 1,
    ;
}

/// Exponents above this are as good as infinite.
const EXPONENT_CAP: u128 = 1_000_000_000_000_000_000_000_000_000_000;

fn capped_value(s: &[char]) -> (r: u128)
    requires
        all_digits(s@),
    ensures
        decimal(s@) <= EXPONENT_CAP ==> r == decimal(s@),
        decimal(s@) > EXPONENT_CAP ==> r == EXPONENT_CAP,
{
    let mut total: u128 = 0;
    let mut i: usize = 0;
    while i < s.len()
        invariant
            i <= s.len(),
            all_digits(s@),
            total <= EXPONENT_CAP,
            decimal(s@.take(i as int)) <= EXPONENT_CAP ==> total == decimal(s@.take(i as int)),
            decimal(s@.take(i as int)) > EXPONENT_CAP ==> total == EXPONENT_CAP,
        decreases s.len() - i,
    {
        assert(is_digit(s@[i as int]));
        let d: u128 = (s[i] as u32 - 48) as u128;
        assert(s@.take(i + 1).drop_last() == s@.take(i as int));
        assert(s@.take(i + 1).last() == s@[i as int]);
        assert(digit_value(s@[i as int]) == d);
        let next: u128 = 10 * total + d;
        if next > EXPONENT_CAP {
            total = EXPONENT_CAP;
        } else {
            total = next;
        }
        i += 1;
    }
    assert(s@.take(i as int) == s@);
    total
}

/// The value of at most 25 digits.
fn short_value(s: &[char]) -> (r: u128)
    requires
        all_digits(s@),
        s.len() <= 25,
    ensures
        r == decimal(s@),
        r < 0x8000_0000_0000_0000_0000_0000_0000_0000,
{
    let mut total: u128 = 0;
    let mut i: usize = 0;
    proof {
        lemma_ten_25();
    }
    while i < s.len()
        invariant
            i <= s.len() <= 25,
            all_digits(s@),
            total == decimal(s@.take(i as int)),
            ten(25) == 10_000_000_000_000_000_000_000_000,
        decreases s.len() - i,
    {
        assert(is_digit(s@[i as int]));
        let d: u128 = (s[i] as u32 - 48) as u128;
        assert(s@.take(i + 1).drop_last() == s@.take(i as int));
        assert(s@.take(i + 1).last() == s@[i as int]);
        assert(digit_value(s@[i as int]) == d);
        proof {
            assert(all_digits(s@.take(i as int)));
            lemma_decimal_bound(s@.take(i as int));
            lemma_ten_monotone(i as nat, 25);
        }
        total = 10 * total + d;
        i += 1;
    }
    assert(s@.take(i as int) == s@);
    proof {
        lemma_decimal_bound(s@);
        lemma_ten_monotone(s@.len(), 25);
    }
    total
}

proof fn lemma_ten_25()
    ensures
        ten(25) == 10_000_000_000_000_000_000_000_000,
{
    reveal_with_fuel(ten, 26);
}

/// Whether `int_part`.`frac` is at most 2^-1075.
fn rounds_to_zero(int_part: u128, frac: &Vec<char>) -> (r: bool)
    requires
        all_digits(frac@),
    ensures
        r == (mixed(int_part as nat, frac@) * pow2(1075) <= ten(frac@.len())),
{
    let ghost den = ten(frac@.len());
    let ghost num = mixed(int_part as nat, frac@);
    proof {
        lemma_ten_eight(frac@.len());
        lemma2_to64();
        lemma_pow2_pos(1075);
        assert(pow2(1075) >= 2) by {
            lemma_pow2_strictly_increases(1, 1075);
        }
    }
    if int_part > 0 {
        assert(num * pow2(1075) > den) by (nonlinear_arith)
            requires
                num == int_part * den + decimal(frac@),
                int_part >= 1,
                den > 0,
                pow2(1075) >= 2,
        ;
        return false;
    }
    let mut rest = sub_chars(frac, 0, frac.len());
    assert(rest@ == frac@);
    let mut k: usize = 0;
    assert(0 * den == 0);
    assert(num * 1 == num);
    while k < 1075
        invariant
            k <= 1075,
            all_digits(rest@),
            rest@.len() == frac@.len(),
            den == ten(frac@.len()),
            den > 0,
            num * pow2(k as nat) == decimal(rest@),
            num == mixed(int_part as nat, frac@),
        decreases 1075 - k,
    {
        let ghost before = decimal(rest@);
        let carry = crate::binary64::double_fraction(&mut rest);
        proof {
            lemma_decimal_bound(rest@);
            lemma_pow2_unfold((k + 1) as nat);
            assert(num * pow2((k + 1) as nat) == 2 * before) by (nonlinear_arith)
                requires
                    before == num * pow2(k as nat),
                    pow2((k + 1) as nat) == 2 * pow2(k as nat),
            ;
            assert(1 * den == den);
            assert(0 * den == 0);
        }
        k += 1;
        if carry {
            let zero = crate::binary64::is_zero_fraction(&rest);
            proof {
                let x = (num * pow2(k as nat)) as int;
                assert(x == den + decimal(rest@));
                if k < 1075 {
                    lemma_pow2_adds(k as nat, (1075 - k) as nat);
                    lemma2_to64();
                    if 1075 - k > 1 {
                        lemma_pow2_strictly_increases(1, (1075 - k) as nat);
                    }
                    let y = pow2((1075 - k) as nat) as int;
                    assert(num * pow2(1075) == x * y) by (nonlinear_arith)
                        requires
                            pow2(1075) == pow2(k as nat) * y,
                            x == num * pow2(k as nat),
                    ;
                    assert(x * y > den) by (nonlinear_arith)
                        requires
                            x >= den,
                            y >= 2,
                            den > 0,
                    ;
                }
            }
            return k == 1075 && zero;
        }
    }
    proof {
        lemma_decimal_bound(rest@);
    }
    true
}

enum Size {
    Huge,
    Tiny,
    Plain { int_part: u128, frac: Vec<char> },
}

spec fn sized(num: nat, den: nat, size: Size) -> bool {
    match size {
        Size::Huge => den > 0 && num / den >= pow2(65),
        Size::Tiny => num * pow2(1075) < den,
        Size::Plain { int_part, frac } => {
            &&& all_digits(frac@)
            &&& int_part < 0x8000_0000_0000_0000_0000_0000_0000_0000
            &&& num == mixed(int_part as nat, frac@)
            &&& den == ten(frac@.len())
        },
    }
}

spec fn scaled_num(digits: Seq<char>, scale: int) -> nat {
    if scale >= 0 {
        decimal(digits) * ten(scale as nat)
    } else {
        decimal(digits)
    }
}

spec fn scaled_den(scale: int) -> nat {
    if scale >= 0 {
        1
    } else {
        ten((-scale) as nat)
    }
}

proof fn lemma_huge(digits: Seq<char>, scale: int)
    requires
        digits.len() > 0,
        all_digits(digits),
        digits[0] != '0',
        digits.len() + scale > 25,
    ensures
        sized(scaled_num(digits, scale), scaled_den(scale), Size::Huge),
{
    let n = (digits.len() - 1) as nat;
    lemma_leading_digit(digits);
    lemma_ten_eight(25);
    lemma_pow2_strictly_increases(65, 75);
    if scale >= 0 {
        lemma_ten_adds(n, scale as nat);
        lemma_ten_monotone(25, n + scale as nat);
        let (d, t) = (decimal(digits), ten(scale as nat));
        assert(d * t >= ten(n) * t) by (nonlinear_arith)
            requires
                d >= ten(n),
        ;
        assert((d * t) / 1 == d * t);
    } else {
        let k = (-scale) as nat;
        let m = (n - k) as nat;
        lemma_ten_adds(m, k);
        lemma_ten_monotone(25, m);
        lemma_ten_eight(k);
        let d = decimal(digits);
        vstd::arithmetic::div_mod::lemma_div_is_ordered(
            (ten(m) * ten(k)) as int,
            d as int,
            ten(k) as int,
        );
        vstd::arithmetic::div_mod::lemma_div_by_multiple(ten(m) as int, ten(k) as int);
    }
}

proof fn lemma_tiny(digits: Seq<char>, scale: int)
    requires
        digits.len() > 0,
        all_digits(digits),
        digits.len() + scale < -400,
    ensures
        sized(scaled_num(digits, scale), scaled_den(scale), Size::Tiny),
{
    let n = digits.len();
    let k = (-scale) as nat;
    lemma_decimal_bound(digits);
    lemma_ten_monotone(n + 400, k);
    lemma_ten_adds(n, 400);
    lemma_ten_eight(400);
    lemma_pow2_strictly_increases(1075, 1200);
    lemma_pow2_pos(1075);
    let d = decimal(digits);
    assert(d * pow2(1075) < ten(n) * ten(400)) by (nonlinear_arith)
        requires
            d < ten(n),
            0 < pow2(1075) <= ten(400),
    ;
}

proof fn lemma_strip(digits: Seq<char>, z: int)
    requires
        0 <= z <= digits.len(),
        forall|j: int| 0 <= j < z ==> digits[j] == '0',
    ensures
        decimal(digits) == decimal(digits.skip(z)),
{
    assert(digits == zeros(z as nat) + digits.skip(z));
    lemma_decimal_concat(zeros(z as nat), digits.skip(z));
    lemma_zeros(z as nat);
    assert(0 * ten(digits.skip(z).len()) == 0);
}

/// Classifies the number `digits * 10^scale`, which is not zero.
fn measure(digits: &Vec<char>, scale: i128) -> (r: Size)
    requires
        all_digits(digits@),
        digits@.len() > 0,
        digits@[0] != '0',
        -0x10_0000_0000_0000_0000_0000_0000_0000 < scale < 0x10_0000_0000_0000_0000_0000_0000_0000,
    ensures
        sized(scaled_num(digits@, scale as int), scaled_den(scale as int), r),
        digits@.len() + scale > 25 ==> r is Huge,
        digits@.len() + scale < -400 ==> r is Tiny,
{
    let n: usize = digits.len();
    let point: i128 = n as i128 + scale;
    if point > 25 {
        proof {
            lemma_huge(digits@, scale as int);
        }
        return Size::Huge;
    }
    if point < -400 {
        proof {
            lemma_tiny(digits@, scale as int);
        }
        return Size::Tiny;
    }
    if scale >= 0 {
        let mut all = sub_chars(digits, 0, n);
        assert(all@ == digits@);
        let mut i: i128 = 0;
        while i < scale
            invariant
                0 <= i <= scale,
                n == digits@.len(),
                n + scale <= 25,
                all@ == digits@ + zeros(i as nat),
            decreases scale - i,
        {
            all.push('0');
            i += 1;
            assert(all@ == digits@ + zeros(i as nat));
        }
        proof {
            lemma_zeros(scale as nat);
            lemma_decimal_concat(digits@, zeros(scale as nat));
            assert(all_digits(all@)) by {
                assert forall|j: int| 0 <= j < all@.len() implies is_digit(#[trigger] all@[j]) by {
                    if j >= n {
                        assert(all@[j] == zeros(scale as nat)[j - n]);
                    } else {
                        assert(all@[j] == digits@[j]);
                    }
                }
            }
        }
        let int_part = short_value(&all);
        let frac: Vec<char> = Vec::new();
        proof {
            assert(decimal(frac@) == 0);
            assert(ten(0) == 1);
            assert(int_part * 1 == int_part);
        }
        return Size::Plain { int_part, frac };
    }
    if point > 0 {
        let cut: usize = point as usize;
        let head = sub_chars(digits, 0, cut);
        let frac = sub_chars(digits, cut, n);
        proof {
            assert(all_digits(head@));
            assert(all_digits(frac@)) by {
                assert forall|j: int| 0 <= j < frac@.len() implies is_digit(#[trigger] frac@[j]) by {
                    assert(frac@[j] == digits@[cut + j]);
                }
            }
            assert(digits@ == head@ + frac@);
            lemma_decimal_concat(head@, frac@);
        }
        let int_part = short_value(&head);
        return Size::Plain { int_part, frac };
    }
    let mut frac: Vec<char> = Vec::new();
    let mut i: i128 = 0;
    while i < -point
        invariant
            0 <= i <= -point <= 400,
            frac@ == zeros(i as nat),
        decreases -point - i,
    {
        frac.push('0');
        i += 1;
        assert(frac@ == zeros(i as nat));
    }
    let mut j: usize = 0;
    let ghost lead = zeros((-point) as nat);
    assert(frac@ == lead + digits@.take(0));
    while j < n
        invariant
            j <= n,
            n == digits@.len(),
            frac@ == lead + digits@.take(j as int),
        decreases n - j,
    {
        frac.push(digits[j]);
        j += 1;
        assert(frac@ == lead + digits@.take(j as int));
    }
    proof {
        assert(digits@.take(n as int) == digits@);
        lemma_zeros((-point) as nat);
        lemma_decimal_concat(lead, digits@);
        assert(0 * ten(digits@.len()) == 0);
        assert(0 * ten(frac@.len()) == 0);
        assert(all_digits(frac@)) by {
            assert forall|k: int| 0 <= k < frac@.len() implies is_digit(#[trigger] frac@[k]) by {
                if k < lead.len() {
                    assert(frac@[k] == lead[k]);
                } else {
                    assert(frac@[k] == digits@[k - lead.len()]);
                }
            }
        }
    }
    Size::Plain { int_part: 0, frac }
}

/// The number that `s` spells, times `factor`, truncated to an integer:
/// multiplied and rounded in double precision.
pub fn scale_number(s: &[char], factor: u64) -> (r: Option<u64>)
    requires
        0 < factor <= 0x4000_0000,
    ensures
        r == (match read_number(s@) {
            Some(n) => n.scaled(factor as nat),
            None => None,
        }),
{
    let a: usize = if sign_at(s, 0) {
        1
    } else {
        0
    };
    let b = find_digits_end(s, a);
    let c: usize = if b < s.len() && s[b] == '.' {
        b + 1
    } else {
        b
    };
    let d: usize = if c > b {
        find_digits_end(s, c)
    } else {
        c
    };
    proof {
        lemma_digits_end(s@, a as int);
        lemma_digits_end(s@, c as int);
    }
    if b == a && d == c {
        return None;
    }
    let negative = a == 1 && s[0] == '-';
    let before = sub_chars(s, a, b);
    let after = sub_chars(s, c, d);
    let mut exponent_negative = false;
    let mut exponent: Vec<char> = Vec::new();
    if d < s.len() {
        if s[d] != 'e' {
            return None;
        }
        let f: usize = if sign_at(s, d + 1) {
            d + 2
        } else {
            d + 1
        };
        let g = find_digits_end(s, f);
        proof {
            lemma_digits_end(s@, f as int);
        }
        if g == f || g < s.len() {
            return None;
        }
        exponent_negative = f == d + 2 && s[d + 1] == '-';
        exponent = sub_chars(s, f, g);
    }
    let ghost n = Written {
        negative,
        before: before@,
        after: after@,
        exponent_negative,
        exponent: exponent@,
    };
    assert(exponent@.len() == 0 ==> exponent@ == Seq::<char>::empty());
    assert(read_number(s@) == Some(n));
    scale_parts(negative, &before, &after, exponent_negative, &exponent, factor)
}

fn scale_parts(
    negative: bool,
    before: &Vec<char>,
    after: &Vec<char>,
    exponent_negative: bool,
    exponent: &Vec<char>,
    factor: u64,
) -> (r: Option<u64>)
    requires
        0 < factor <= 0x4000_0000,
        all_digits(before@),
        all_digits(after@),
        all_digits(exponent@),
    ensures
        r == (Written {
            negative,
            before: before@,
            after: after@,
            exponent_negative,
            exponent: exponent@,
        }).scaled(factor as nat),
{
    let ghost n = Written {
        negative,
        before: before@,
        after: after@,
        exponent_negative,
        exponent: exponent@,
    };
    let ghost all = before@ + after@;
    // the digits without leading zeros
    let mut digits: Vec<char> = Vec::new();
    let mut i: usize = 0;
    let ghost mut z: int = 0;
    while i < before.len()
        invariant
            i <= before.len(),
            all == before@ + after@,
            0 <= z <= i,
            forall|j: int| 0 <= j < z ==> all[j] == '0',
            digits@ == all.subrange(z, i as int),
            digits@.len() > 0 ==> digits@[0] != '0',
        decreases before.len() - i,
    {
        assert(all[i as int] == before@[i as int]);
        if digits.len() > 0 || before[i] != '0' {
            digits.push(before[i]);
        } else {
            proof {
                z = i + 1;
            }
        }
        i += 1;
        assert(digits@ == all.subrange(z, i as int));
    }
    let mut i: usize = 0;
    while i < after.len()
        invariant
            i <= after.len(),
            all == before@ + after@,
            0 <= z <= before@.len() + i,
            forall|j: int| 0 <= j < z ==> all[j] == '0',
            digits@ == all.subrange(z, before@.len() + i),
            digits@.len() > 0 ==> digits@[0] != '0',
        decreases after.len() - i,
    {
        assert(all[before@.len() + i] == after@[i as int]);
        if digits.len() > 0 || after[i] != '0' {
            digits.push(after[i]);
        } else {
            proof {
                z = before@.len() + i + 1;
            }
        }
        i += 1;
        assert(digits@ == all.subrange(z, before@.len() + i));
    }
    proof {
        assert(digits@ == all.skip(z));
        lemma_strip(all, z);
        assert(all_digits(digits@)) by {
            assert forall|j: int| 0 <= j < digits@.len() implies is_digit(#[trigger] digits@[j]) by {
                assert(digits@[j] == all[z + j]);
                if z + j < before@.len() {
                    assert(all[z + j] == before@[z + j]);
                } else {
                    assert(all[z + j] == after@[z + j - before@.len()]);
                }
            }
        }
    }
    let capped = capped_value(exponent);
    let scale: i128 = if exponent_negative {
        -(capped as i128) - (after.len() as i128)
    } else {
        capped as i128 - (after.len() as i128)
    };
    if digits.len() == 0 {
        proof {
            assert(decimal(digits@) == 0);
            if n.scale() >= 0 {
                assert(0 * ten(n.scale() as nat) == 0);
            } else {
                lemma_ten_eight((-n.scale()) as nat);
            }
            assert(n.num() == 0);
            assert(0 * pow2(1075) == 0);
            assert(0 * factor as nat == 0);
            let z = nearest(0, n.den());
            assert(times(z, factor as nat).mantissa == 0);
            assert(times(z, factor as nat).exponent == 0);
            assert(0 * pow2(0) == 0);
        }
        return Some(0);
    }
    assert(after@.len() == after.len());
    assert(digits@.len() == digits.len());
    let size = measure(&digits, scale);
    proof {
        assert(decimal(exponent@) <= EXPONENT_CAP ==> scale == n.scale());
        if decimal(exponent@) > EXPONENT_CAP {
            if exponent_negative {
                lemma_tiny(digits@, n.scale());
            } else {
                lemma_huge(digits@, n.scale());
            }
        }
        assert(n.num() == scaled_num(digits@, n.scale()));
        assert(n.den() == scaled_den(n.scale()));
        assert(sized(n.num(), n.den(), size));
        lemma_leading_digit(digits@);
        lemma_ten_eight((digits@.len() - 1) as nat);
        if n.scale() >= 0 {
            lemma_ten_eight(n.scale() as nat);
            let (x, y) = (decimal(digits@), ten(n.scale() as nat));
            assert(x * y > 0) by (nonlinear_arith)
                requires
                    x > 0,
                    y > 0,
            ;
        }
        assert(n.num() > 0);
    }
    match size {
        Size::Huge => {
            proof {
                lemma_whole_huge(n.num(), n.den(), factor as nat);
                lemma_pow2_pos(1075);
                lemma2_to64();
                lemma_pow2_pos(65);
                assert(n.num() >= n.den()) by {
                    if n.num() < n.den() {
                        vstd::arithmetic::div_mod::lemma_basic_div(n.num() as int, n.den() as int);
                    }
                }
                lemma_pow2_strictly_increases(1, 1075);
                let (x, y, p) = (n.num(), n.den(), pow2(1075));
                assert(x * p > y) by (nonlinear_arith)
                    requires
                        x >= y,
                        x > 0,
                        p >= 2,
                ;
            }
            None
        },
        Size::Tiny => {
            proof {
                lemma_whole_tiny(n.num(), n.den(), factor as nat);
            }
            Some(0)
        },
        Size::Plain { int_part, frac } => {
            if negative {
                if rounds_to_zero(int_part, &frac) {
                    Some(0)
                } else {
                    None
                }
            } else {
                assert(frac@.len() == frac.len());
                let x = round_decimal(int_part, &frac);
                truncate(multiply(x, factor))
            }
        },
    }
}

// ---------------------------------------------------------------------- laws

/// Whole numbers are scaled exactly, as long as the result has 53 bits.
pub proof fn whole_numbers_scale_exactly(n: nat, unit: nat)
    requires
        unit > 0,
        n * unit < MANTISSA_END,
    ensures
        whole(times(nearest(n, 1), unit)) == n * unit,
{
    lemma2_to64();
    lemma2_to64_rest();
    let x = n * unit;
    assert(n <= x) by (nonlinear_arith)
        requires
            x == n * unit,
            unit > 0,
    ;
    if n == 0 {
        assert(0 * unit == 0);
    } else {
        assert(n / 1 == n);
        let a = nearest(n, 1);
        lemma_nearest_exact(n);
        let k = (-a.exponent) as nat;
        let num = a.mantissa * unit;
        assert(num == x * pow2(k)) by (nonlinear_arith)
            requires
                num == a.mantissa * unit,
                a.mantissa == n * pow2(k),
                x == n * unit,
        ;
        assert(num >= MANTISSA_MIN) by (nonlinear_arith)
            requires
                num == a.mantissa * unit,
                a.mantissa >= MANTISSA_MIN,
                unit > 0,
        ;
        assert(num / 1 == num);
        let h = halvings(num, 1);
        lemma_pow2_adds(53, k);
        lemma_pow2_pos(k);
        assert(x * pow2(k) < pow2(53) * pow2(k)) by (nonlinear_arith)
            requires
                x < pow2(53),
                pow2(k) > 0,
        ;
        lemma_halvings_at_most(num, 1, k);
        let t = (k - h) as nat;
        lemma_pow2_adds(t, h);
        lemma_pow2_pos(t);
        lemma_pow2_pos(h);
        let m = x * pow2(t);
        assert(num == m * pow2(h)) by (nonlinear_arith)
            requires
                num == x * pow2(k),
                pow2(k) == pow2(t) * pow2(h),
                m == x * pow2(t),
        ;
        assert(1 * pow2(h) == pow2(h));
        lemma_exact_quotient(m, pow2(h));
        lemma_nearest_normal(num, 1);
        let p = nearest(num, 1);
        lemma_halved(num);
        assert(p == (Approx { mantissa: m, exponent: h as int }));
        if t == 0 {
            assert(m * 1 == x * 1);
        } else {
            lemma_exact_quotient(x, pow2(t));
        }
    }
}

proof fn lemma_exact_quotient(m: nat, d: nat)
    requires
        d > 0,
    ensures
        (m * d) / d == m,
        (m * d) % d == 0,
        divide_even(m * d, d) == m,
{
    vstd::arithmetic::div_mod::lemma_fundamental_div_mod_converse(
        (m * d) as int,
        d as int,
        m as int,
        0,
    );
}

/// The quotient after the halvings of a large integer has no carry.
proof fn lemma_halved(num: nat)
    requires
        num >= MANTISSA_MIN,
    ensures
        num / pow2(halvings(num, 1)) < MANTISSA_END,
{
    lemma_halved_quotient(num, 1);
    assert(1 * pow2(halvings(num, 1)) == pow2(halvings(num, 1)));
}

proof fn lemma_nearest_exact(n: nat)
    requires
        0 < n < MANTISSA_END,
    ensures
        nearest(n, 1).exponent <= 0,
        nearest(n, 1).mantissa == n * pow2((-nearest(n, 1).exponent) as nat),
        nearest(n, 1).mantissa >= MANTISSA_MIN,
{
    lemma2_to64();
    assert(n / 1 == n);
    lemma_nearest_normal(n, 1);
    if n >= MANTISSA_MIN {
        assert(halvings(n, 1) == 0);
        assert(n * 1 == n);
        lemma_exact_quotient(n, 1);
        assert(1 * pow2(0) == 1);
    } else {
        let k = doublings(n, 1);
        let m = n * pow2(k);
        lemma_exact_quotient(m, 1);
        assert(m * 1 == m);
        lemma_doubled_quotient(n, 1);
        assert(m / 1 == m);
    }
}

} // verus!
