//! The `= 2*(3+4)` inline calculator: a recursive-descent parser. Precedence:
//! `+ -` < `* / %` < unary minus < `^` (right-associative) < parentheses.

use crate::text::{char_is_digit, chars_of, is_digit, string_of_range};
use vstd::prelude::*;
use vstd::string::*;

verus! {

#[derive(Debug, Clone, Copy, PartialEq, Eq, Structural)]
pub enum Op {
    Plus,
    Minus,
    Times,
    Over,
    Remainder,
    Power,
}

/// A parsed expression.
#[derive(Debug, PartialEq)]
pub enum Expr {
    /// Digits, with a decimal point or without one.
    Number(String),
    Negative(Box<Expr>),
    Binary(Op, Box<Expr>, Box<Expr>),
}

/// The model of an [`Expr`].
pub enum Tree {
    Number(Seq<char>),
    Negative(Box<Tree>),
    Binary(Op, Box<Tree>, Box<Tree>),
}

impl Expr {
    pub open spec fn tree(self) -> Tree
        decreases self,
    {
        match self {
            Expr::Number(d) => Tree::Number(d@),
            Expr::Negative(e) => Tree::Negative(Box::new(e.tree())),
            Expr::Binary(op, l, r) => Tree::Binary(op, Box::new(l.tree()), Box::new(r.tree())),
        }
    }
}

// -------------------------------------------------------------------- tokens

/// ASCII whitespace.
pub open spec fn is_blank(c: char) -> bool {
    c == ' ' || c == '\t' || c == '\n' || c as u32 == 12 || c == '\r'
}

/// The first position at or after `i` that is not blank.
pub open spec fn skip_blanks(s: Seq<char>, i: int) -> int
    decreases s.len() - i,
{
    if i < s.len() && is_blank(s[i]) {
        skip_blanks(s, i + 1)
    } else {
        i
    }
}

/// The next character that is not blank is `c`.
pub open spec fn comes(s: Seq<char>, i: int, c: char) -> bool {
    skip_blanks(s, i) < s.len() && s[skip_blanks(s, i)] == c
}

/// The end of the digits from `i` on.
pub open spec fn skip_digits(s: Seq<char>, i: int) -> int
    decreases s.len() - i,
{
    if i < s.len() && is_digit(s[i]) {
        skip_digits(s, i + 1)
    } else {
        i
    }
}

/// The end of the number that starts at `i`: digits, a point, digits.
pub open spec fn number_end(s: Seq<char>, i: int) -> int {
    let j = skip_digits(s, i);
    if j < s.len() && s[j] == '.' {
        skip_digits(s, j + 1)
    } else {
        j
    }
}

/// There is a number between two positions: not nothing, and not a lone point.
pub open spec fn has_number(s: Seq<char>, i: int, j: int) -> bool {
    i < j && !(j == i + 1 && s[i] == '.')
}

/// The operator of a sum that comes next.
pub open spec fn sum_op(s: Seq<char>, i: int) -> Option<Op> {
    if comes(s, i, '+') {
        Some(Op::Plus)
    } else if comes(s, i, '-') {
        Some(Op::Minus)
    } else {
        None
    }
}

/// The operator of a product that comes next.
pub open spec fn product_op(s: Seq<char>, i: int) -> Option<Op> {
    if comes(s, i, '*') {
        Some(Op::Times)
    } else if comes(s, i, '/') {
        Some(Op::Over)
    } else if comes(s, i, '%') {
        Some(Op::Remainder)
    } else {
        None
    }
}

// ------------------------------------------------------------------- grammar

/// A sum: products with `+` and `-` between them, from the left.
pub open spec fn sum_at(s: Seq<char>, i: int) -> Option<(Tree, int)>
    decreases s.len() - i, 5int,
{
    match product_at(s, i) {
        Some((t, j)) => if i < j <= s.len() {
            sum_rest(s, j, t)
        } else {
            None
        },
        None => None,
    }
}

/// What follows the left part of a sum.
pub open spec fn sum_rest(s: Seq<char>, i: int, left: Tree) -> Option<(Tree, int)>
    decreases s.len() - i, 4int,
{
    let k = skip_blanks(s, i);
    match sum_op(s, i) {
        Some(op) => if i <= k {
            match product_at(s, k + 1) {
                Some((t, j)) => if k < j <= s.len() {
                    sum_rest(s, j, Tree::Binary(op, Box::new(left), Box::new(t)))
                } else {
                    None
                },
                None => None,
            }
        } else {
            None
        },
        None => Some((left, i)),
    }
}

/// A product: factors with `*`, `/` and `%` between them, from the left.
pub open spec fn product_at(s: Seq<char>, i: int) -> Option<(Tree, int)>
    decreases s.len() - i, 3int,
{
    match factor_at(s, i) {
        Some((t, j)) => if i < j <= s.len() {
            product_rest(s, j, t)
        } else {
            None
        },
        None => None,
    }
}

/// What follows the left part of a product.
pub open spec fn product_rest(s: Seq<char>, i: int, left: Tree) -> Option<(Tree, int)>
    decreases s.len() - i, 2int,
{
    let k = skip_blanks(s, i);
    match product_op(s, i) {
        Some(op) => if i <= k {
            match factor_at(s, k + 1) {
                Some((t, j)) => if k < j <= s.len() {
                    product_rest(s, j, Tree::Binary(op, Box::new(left), Box::new(t)))
                } else {
                    None
                },
                None => None,
            }
        } else {
            None
        },
        None => Some((left, i)),
    }
}

/// A factor: `^` binds tighter than unary minus and associates right, so
/// `2^3^2` is 512 and `-3^2` is -9.
pub open spec fn factor_at(s: Seq<char>, i: int) -> Option<(Tree, int)>
    decreases s.len() - i, 1int,
{
    let k = skip_blanks(s, i);
    if comes(s, i, '-') {
        if i <= k {
            match factor_at(s, k + 1) {
                Some((t, j)) => Some((Tree::Negative(Box::new(t)), j)),
                None => None,
            }
        } else {
            None
        }
    } else {
        match primary_at(s, i) {
            Some((base, j)) => if comes(s, j, '^') {
                let m = skip_blanks(s, j);
                if i < j <= m {
                    match factor_at(s, m + 1) {
                        Some((t, n)) => Some(
                            (Tree::Binary(Op::Power, Box::new(base), Box::new(t)), n),
                        ),
                        None => None,
                    }
                } else {
                    None
                }
            } else {
                Some((base, j))
            },
            None => None,
        }
    }
}

/// A sum in parentheses, or a number.
pub open spec fn primary_at(s: Seq<char>, i: int) -> Option<(Tree, int)>
    decreases s.len() - i, 0int,
{
    let k = skip_blanks(s, i);
    if comes(s, i, '(') {
        if i <= k {
            match sum_at(s, k + 1) {
                Some((t, j)) => if comes(s, j, ')') {
                    Some((t, skip_blanks(s, j) + 1))
                } else {
                    None
                },
                None => None,
            }
        } else {
            None
        }
    } else {
        let j = number_end(s, k);
        if has_number(s, k, j) {
            Some((Tree::Number(s.subrange(k, j)), j))
        } else {
            None
        }
    }
}

/// The expression that a text denotes: a sum, and nothing after it.
pub open spec fn expression(s: Seq<char>) -> Option<Tree> {
    match sum_at(s, 0) {
        Some((t, j)) => if skip_blanks(s, j) >= s.len() {
            Some(t)
        } else {
            None
        },
        None => None,
    }
}

// -------------------------------------------------------------------- parser

fn find_nonblank(s: &[char], i: usize) -> (r: usize)
    requires
        i <= s.len(),
    ensures
        r == skip_blanks(s@, i as int),
        i <= r <= s.len(),
{
    let mut k: usize = i;
    while k < s.len() && (s[k] == ' ' || s[k] == '\t' || s[k] == '\n' || s[k] as u32 == 12 || s[k]
        == '\r')
        invariant
            i <= k <= s.len(),
            skip_blanks(s@, i as int) == skip_blanks(s@, k as int),
        decreases s.len() - k,
    {
        k += 1;
    }
    k
}

fn find_nondigit(s: &[char], i: usize) -> (r: usize)
    requires
        i <= s.len(),
    ensures
        r == skip_digits(s@, i as int),
        i <= r <= s.len(),
{
    let mut k: usize = i;
    while k < s.len() && char_is_digit(s[k])
        invariant
            i <= k <= s.len(),
            skip_digits(s@, i as int) == skip_digits(s@, k as int),
        decreases s.len() - k,
    {
        k += 1;
    }
    k
}

/// The contract of a parser that starts at `i`.
pub open spec fn parses(r: Option<(Expr, usize)>, s: Seq<char>, i: int, o: Option<(Tree, int)>) -> bool {
    match r {
        Some(v) => o == Some((v.0.tree(), v.1 as int)) && i < v.1 <= s.len(),
        None => o is None,
    }
}

fn parse_number(s: &[char], i: usize) -> (r: Option<(Expr, usize)>)
    requires
        i <= s.len(),
        !comes(s@, i as int, '('),
    ensures
        parses(r, s@, i as int, primary_at(s@, i as int)),
{
    let start = find_nonblank(s, i);
    let mut end = find_nondigit(s, start);
    if end < s.len() && s[end] == '.' {
        end = find_nondigit(s, end + 1);
    }
    if end == start || (end == start + 1 && s[start] == '.') {
        return None;
    }
    let digits = string_of_range(s, start, end);
    Some((Expr::Number(digits), end))
}

fn parse_primary(s: &[char], i: usize) -> (r: Option<(Expr, usize)>)
    requires
        i <= s.len(),
    ensures
        parses(r, s@, i as int, primary_at(s@, i as int)),
    decreases s.len() - i, 0int,
{
    let k = find_nonblank(s, i);
    if k < s.len() && s[k] == '(' {
        match parse_sum(s, k + 1) {
            Some((inner, j)) => {
                let close = find_nonblank(s, j);
                if close < s.len() && s[close] == ')' {
                    Some((inner, close + 1))
                } else {
                    None
                }
            },
            None => None,
        }
    } else {
        parse_number(s, i)
    }
}

fn parse_factor(s: &[char], i: usize) -> (r: Option<(Expr, usize)>)
    requires
        i <= s.len(),
    ensures
        parses(r, s@, i as int, factor_at(s@, i as int)),
    decreases s.len() - i, 1int,
{
    let k = find_nonblank(s, i);
    if k < s.len() && s[k] == '-' {
        return match parse_factor(s, k + 1) {
            Some((e, j)) => Some((Expr::Negative(Box::new(e)), j)),
            None => None,
        };
    }
    match parse_primary(s, i) {
        Some((base, j)) => {
            let m = find_nonblank(s, j);
            if m < s.len() && s[m] == '^' {
                match parse_factor(s, m + 1) {
                    Some((e, n)) => Some(
                        (Expr::Binary(Op::Power, Box::new(base), Box::new(e)), n),
                    ),
                    None => None,
                }
            } else {
                Some((base, j))
            }
        },
        None => None,
    }
}

fn parse_product(s: &[char], i: usize) -> (r: Option<(Expr, usize)>)
    requires
        i <= s.len(),
    ensures
        parses(r, s@, i as int, product_at(s@, i as int)),
    decreases s.len() - i, 3int,
{
    let (mut left, mut at) = match parse_factor(s, i) {
        Some(v) => v,
        None => return None,
    };
    loop
        invariant
            i < at <= s.len(),
            product_at(s@, i as int) == product_rest(s@, at as int, left.tree()),
        decreases s.len() - at,
    {
        let k = find_nonblank(s, at);
        let op = if k < s.len() && s[k] == '*' {
            Op::Times
        } else if k < s.len() && s[k] == '/' {
            Op::Over
        } else if k < s.len() && s[k] == '%' {
            Op::Remainder
        } else {
            return Some((left, at));
        };
        match parse_factor(s, k + 1) {
            Some((right, j)) => {
                left = Expr::Binary(op, Box::new(left), Box::new(right));
                at = j;
            },
            None => {
                return None;
            },
        }
    }
}

fn parse_sum(s: &[char], i: usize) -> (r: Option<(Expr, usize)>)
    requires
        i <= s.len(),
    ensures
        parses(r, s@, i as int, sum_at(s@, i as int)),
    decreases s.len() - i, 5int,
{
    let (mut left, mut at) = match parse_product(s, i) {
        Some(v) => v,
        None => return None,
    };
    loop
        invariant
            i < at <= s.len(),
            sum_at(s@, i as int) == sum_rest(s@, at as int, left.tree()),
        decreases s.len() - at,
    {
        let k = find_nonblank(s, at);
        let op = if k < s.len() && s[k] == '+' {
            Op::Plus
        } else if k < s.len() && s[k] == '-' {
            Op::Minus
        } else {
            return Some((left, at));
        };
        match parse_product(s, k + 1) {
            Some((right, j)) => {
                left = Expr::Binary(op, Box::new(left), Box::new(right));
                at = j;
            },
            None => {
                return None;
            },
        }
    }
}

/// Parses an arithmetic expression; nothing on errors and on trailing garbage.
pub fn parse(expr: &str) -> (r: Option<Expr>)
    ensures
        match r {
            Some(e) => expression(expr@) == Some(e.tree()),
            None => expression(expr@) is None,
        },
{
    let s = chars_of(expr);
    match parse_sum(&s, 0) {
        Some((e, j)) => {
            if find_nonblank(&s, j) == s.len() {
                Some(e)
            } else {
                None
            }
        },
        None => None,
    }
}
// ---------------------------------------------------------------------- laws

pub open spec fn op_char(op: Op) -> char {
    match op {
        Op::Plus => '+',
        Op::Minus => '-',
        Op::Times => '*',
        Op::Over => '/',
        Op::Remainder => '%',
        Op::Power => '^',
    }
}

/// The numbers of a tree are written as numbers.
pub open spec fn is_written(t: Tree) -> bool
    decreases t,
{
    match t {
        Tree::Number(d) => number_end(d, 0) == d.len() && has_number(d, 0, d.len() as int),
        Tree::Negative(e) => is_written(*e),
        Tree::Binary(_, l, r) => is_written(*l) && is_written(*r),
    }
}

/// An expression with parentheses around all of its parts.
pub open spec fn written(t: Tree) -> Seq<char>
    decreases t,
{
    match t {
        Tree::Number(d) => d,
        Tree::Negative(e) => seq!['(', '-'] + written(*e) + seq![')'],
        Tree::Binary(op, l, r) => seq!['('] + written(*l) + seq![op_char(op)] + written(*r) + seq![
            ')',
        ],
    }
}

/// The text of a tree stands in `s` from `i` on, and no number goes on behind it.
spec fn stands_at(s: Seq<char>, i: int, t: Tree) -> bool {
    let j = i + written(t).len();
    &&& 0 <= i
    &&& j <= s.len()
    &&& s.subrange(i, j) == written(t)
    &&& j < s.len() ==> !is_digit(s[j]) && s[j] != '.'
}

proof fn lemma_same_digits(s: Seq<char>, i: int, d: Seq<char>, k: int)
    requires
        0 <= i,
        0 <= k <= d.len(),
        i + d.len() <= s.len(),
        s.subrange(i, i + d.len()) == d,
        i + d.len() < s.len() ==> !is_digit(s[i + d.len()]),
    ensures
        skip_digits(s, i + k) == i + skip_digits(d, k),
        k <= skip_digits(d, k) <= d.len(),
    decreases d.len() - k,
{
    if k < d.len() {
        assert(s.subrange(i, i + d.len())[k] == s[i + k]);
        if is_digit(d[k]) {
            lemma_same_digits(s, i, d, k + 1);
        }
    }
}

/// What the text of a tree starts with.
proof fn lemma_first_char(t: Tree)
    requires
        is_written(t),
    ensures
        written(t).len() > 0,
        written(t)[0] == '(' || is_digit(written(t)[0]) || written(t)[0] == '.',
        written(t)[0] == '(' <==> !(t is Number),
{
    match t {
        Tree::Number(d) => {
            if !is_digit(d[0]) && d[0] != '.' {
                assert(skip_digits(d, 0) == 0);
            }
        },
        _ => {},
    }
}

proof fn lemma_factor(s: Seq<char>, i: int, t: Tree)
    requires
        is_written(t),
        stands_at(s, i, t),
        primary_at(s, i) == Some((t, i + written(t).len())),
        i + written(t).len() < s.len(),
        !is_blank(s[i + written(t).len()]),
        s[i + written(t).len()] != '^',
    ensures
        factor_at(s, i) == Some((t, i + written(t).len())),
{
    lemma_first_char(t);
    assert(s.subrange(i, i + written(t).len())[0] == s[i]);
    assert(skip_blanks(s, i) == i);
    assert(!comes(s, i, '-'));
    let j = i + written(t).len();
    assert(skip_blanks(s, j) == j);
    assert(!comes(s, j, '^'));
}

/// Where the text of a tree stands, its characters stand.
proof fn lemma_chars_at(s: Seq<char>, i: int, t: Tree, from: int, part: Seq<char>)
    requires
        stands_at(s, i, t),
        0 <= from,
        from + part.len() <= written(t).len(),
        written(t).subrange(from, from + part.len()) == part,
    ensures
        s.subrange(i + from, i + from + part.len()) == part,
{
    let w = written(t);
    assert forall|k: int| 0 <= k < part.len() implies s[i + from + k] == part[k] by {
        assert(s.subrange(i, i + w.len())[from + k] == s[i + from + k]);
        assert(w.subrange(from, from + part.len())[k] == w[from + k]);
    }
    assert(s.subrange(i + from, i + from + part.len()) =~= part);
}

proof fn lemma_char_at(s: Seq<char>, i: int, t: Tree, k: int)
    requires
        stands_at(s, i, t),
        0 <= k < written(t).len(),
    ensures
        s[i + k] == written(t)[k],
{
    assert(s.subrange(i, i + written(t).len())[k] == s[i + k]);
}

#[verifier::spinoff_prover]
proof fn lemma_number(s: Seq<char>, i: int, t: Tree)
    requires
        t is Number,
        is_written(t),
        stands_at(s, i, t),
    ensures
        primary_at(s, i) == Some((t, i + written(t).len())),
{
    let d = written(t);
    let end = i + d.len();
    lemma_first_char(t);
    lemma_char_at(s, i, t, 0);
    assert(skip_blanks(s, i) == i);
    assert(!comes(s, i, '('));
    lemma_same_digits(s, i, d, 0);
    let j = skip_digits(d, 0);
    if j < d.len() {
        lemma_char_at(s, i, t, j);
        if d[j] == '.' {
            lemma_same_digits(s, i, d, j + 1);
        }
    }
    assert(number_end(s, i) == end);
    assert(has_number(s, i, end));
    assert(s.subrange(i, end) == d);
}

#[verifier::spinoff_prover]
proof fn lemma_primary(s: Seq<char>, i: int, t: Tree)
    requires
        is_written(t),
        stands_at(s, i, t),
    ensures
        primary_at(s, i) == Some((t, i + written(t).len())),
    decreases t, 1int,
{
    match t {
        Tree::Number(_) => lemma_number(s, i, t),
        Tree::Negative(_) => lemma_negative(s, i, t),
        Tree::Binary(_, _, _) => lemma_binary(s, i, t),
    }
}

#[verifier::spinoff_prover]
proof fn lemma_negative(s: Seq<char>, i: int, t: Tree)
    requires
        t is Negative,
        is_written(t),
        stands_at(s, i, t),
    ensures
        primary_at(s, i) == Some((t, i + written(t).len())),
    decreases t, 0int,
{
    let e = *t->Negative_0;
    let a = written(e);
    let w = written(t);
    let end = i + w.len();
    assert(w =~= seq!['(', '-'] + a + seq![')']);
    lemma_char_at(s, i, t, 0);
    lemma_char_at(s, i, t, 1);
    lemma_char_at(s, i, t, w.len() - 1);
    assert(w.subrange(2, 2int + a.len()) =~= a);
    lemma_chars_at(s, i, t, 2, a);
    lemma_primary(s, i + 2, e);
    lemma_factor(s, i + 2, e);
    assert(skip_blanks(s, i + 1) == i + 1);
    assert(comes(s, i + 1, '-'));
    assert(factor_at(s, i + 1) == Some((t, end - 1)));
    lemma_closed(s, i + 1, t, end - 1);
    lemma_parenthesized(s, i, t, end - 1);
}

#[verifier::spinoff_prover]
proof fn lemma_binary(s: Seq<char>, i: int, t: Tree)
    requires
        t is Binary,
        is_written(t),
        stands_at(s, i, t),
    ensures
        primary_at(s, i) == Some((t, i + written(t).len())),
    decreases t, 0int,
{
    let (op, l, r) = (t->Binary_0, *t->Binary_1, *t->Binary_2);
    let (a, b) = (written(l), written(r));
    let w = written(t);
    let end = i + w.len();
    let m = i + 1 + a.len();
    assert(w =~= seq!['('] + a + seq![op_char(op)] + b + seq![')']);
    lemma_char_at(s, i, t, 0);
    lemma_char_at(s, i, t, 1 + a.len() as int);
    lemma_char_at(s, i, t, w.len() - 1);
    assert(s[m] == op_char(op));
    assert(w.subrange(1, 1int + a.len()) =~= a);
    lemma_chars_at(s, i, t, 1, a);
    assert(w.subrange(2int + a.len(), 2int + a.len() + b.len()) =~= b);
    lemma_chars_at(s, i, t, 2 + a.len() as int, b);
    lemma_primary(s, i + 1, l);
    lemma_primary(s, m + 1, r);
    lemma_factor(s, m + 1, r);
    assert(skip_blanks(s, m) == m);
    if op != Op::Power {
        lemma_factor(s, i + 1, l);
    } else {
        lemma_first_char(l);
        lemma_char_at(s, i + 1, l, 0);
        assert(skip_blanks(s, i + 1) == i + 1);
        assert(!comes(s, i + 1, '-'));
        assert(comes(s, m, '^'));
        assert(factor_at(s, i + 1) == Some((t, end - 1)));
    }
    lemma_closed(s, i + 1, t, end - 1);
    lemma_parenthesized(s, i, t, end - 1);
}

proof fn lemma_parenthesized(s: Seq<char>, i: int, t: Tree, end: int)
    requires
        0 <= i < end < s.len(),
        s[i] == '(',
        s[end] == ')',
        sum_at(s, i + 1) == Some((t, end)),
    ensures
        primary_at(s, i) == Some((t, end + 1)),
{
    assert(skip_blanks(s, i) == i);
    assert(skip_blanks(s, end) == end);
}

/// The inside of parentheses is a sum up to where they close.
#[verifier::spinoff_prover]
proof fn lemma_closed(s: Seq<char>, i: int, t: Tree, end: int)
    requires
        0 < i < end < s.len(),
        s[end] == ')',
        match t {
            Tree::Number(_) => false,
            Tree::Negative(_) => factor_at(s, i) == Some((t, end)),
            Tree::Binary(op, l, r) => exists|m: int|
                i < m < end && #[trigger] s[m] == op_char(op) && if op == Op::Power {
                    factor_at(s, i) == Some((t, end))
                } else {
                    factor_at(s, i) == Some((*l, m)) && factor_at(s, m + 1) == Some((*r, end))
                },
        },
    ensures
        sum_at(s, i) == Some((t, end)),
{
    assert(skip_blanks(s, end) == end);
    assert(product_op(s, end) is None);
    assert(sum_op(s, end) is None);
    assert(forall|x: Tree| #[trigger] product_rest(s, end, x) == Some((x, end)));
    assert(forall|x: Tree| #[trigger] sum_rest(s, end, x) == Some((x, end)));
    match t {
        Tree::Binary(op, l, r) => {
            if op != Op::Power {
                let m = choose|m: int|
                    i < m < end && #[trigger] s[m] == op_char(op) && factor_at(s, i) == Some(
                        (*l, m),
                    ) && factor_at(s, m + 1) == Some((*r, end));
                assert(skip_blanks(s, m) == m);
                assert(product_rest(s, end, t) == Some((t, end)));
                assert(product_rest(s, end, *r) == Some((*r, end)));
                assert(sum_rest(s, end, t) == Some((t, end)));
                assert(Tree::Binary(op, Box::new(*l), Box::new(*r)) == t);
                if op == Op::Plus || op == Op::Minus {
                    assert(product_op(s, m) is None);
                    assert(product_rest(s, m, *l) == Some((*l, m)));
                    assert(product_at(s, i) == Some((*l, m)));
                    assert(product_at(s, m + 1) == Some((*r, end)));
                    assert(sum_op(s, m) == Some(op));
                    assert(sum_rest(s, m, *l) == Some((t, end)));
                } else {
                    assert(product_op(s, m) == Some(op));
                    assert(product_rest(s, m, *l) == Some((t, end)));
                    assert(product_at(s, i) == Some((t, end)));
                }
            } else {
                assert(product_rest(s, end, t) == Some((t, end)));
                assert(product_at(s, i) == Some((t, end)));
                assert(sum_rest(s, end, t) == Some((t, end)));
            }
        },
        _ => {
            assert(product_rest(s, end, t) == Some((t, end)));
            assert(product_at(s, i) == Some((t, end)));
            assert(sum_rest(s, end, t) == Some((t, end)));
        },
    }
}

/// Every expression can be written: with parentheses around all of its parts, it
/// is read back as it is.
pub proof fn written_expressions_are_read_back(t: Tree)
    requires
        is_written(t),
    ensures
        expression(written(t)) == Some(t),
{
    let s = written(t);
    let end = s.len() as int;
    assert(s.subrange(0, end) =~= s);
    lemma_first_char(t);
    lemma_primary(s, 0, t);
    assert(skip_blanks(s, 0) == 0);
    assert(!comes(s, 0, '-'));
    assert(skip_blanks(s, end) == end);
    assert(factor_at(s, 0) == Some((t, end)));
    assert(product_rest(s, end, t) == Some((t, end)));
    assert(product_at(s, 0) == Some((t, end)));
    assert(sum_rest(s, end, t) == Some((t, end)));
}

/// How loosely an expression binds: numbers not at all, then powers and negatives,
/// then products, then sums.
pub open spec fn looseness(t: Tree) -> int {
    match t {
        Tree::Number(_) => 0,
        Tree::Negative(_) => 1,
        Tree::Binary(Op::Power, _, _) => 1,
        Tree::Binary(Op::Times, _, _) => 2,
        Tree::Binary(Op::Over, _, _) => 2,
        Tree::Binary(Op::Remainder, _, _) => 2,
        Tree::Binary(Op::Plus, _, _) => 3,
        Tree::Binary(Op::Minus, _, _) => 3,
    }
}

/// An expression as it is usually written: operators of one kind group from the
/// left, but powers from the right; parentheses stand only around a part that
/// binds more loosely than `most`. A gap stands before each number, operator and
/// parenthesis.
pub open spec fn usual(t: Tree, most: int, gap: Seq<char>) -> Seq<char>
    decreases t, 4 - most,
{
    if looseness(t) > most {
        if most < 3 {
            gap + seq!['('] + usual(t, 3, gap) + gap + seq![')']
        } else {
            Seq::empty()
        }
    } else {
        match t {
            Tree::Number(d) => gap + d,
            Tree::Negative(e) => gap + seq!['-'] + usual(*e, 1, gap),
            Tree::Binary(op, l, r) => {
                let (left, right): (int, int) = if op == Op::Power {
                    (0, 1)
                } else if op == Op::Plus || op == Op::Minus {
                    (3, 2)
                } else {
                    (2, 1)
                };
                usual(*l, left, gap) + gap + seq![op_char(op)] + usual(*r, right, gap)
            },
        }
    }
}

/// A text of blanks only.
pub open spec fn all_blank(gap: Seq<char>) -> bool {
    forall|k: int| 0 <= k < gap.len() ==> is_blank(#[trigger] gap[k])
}

/// A text stands in `s` from `i` on.
spec fn part_at(s: Seq<char>, i: int, part: Seq<char>) -> bool {
    0 <= i && i + part.len() <= s.len() && s.subrange(i, i + part.len()) == part
}

/// What stands in `s` behind `j` does not go on with a number.
spec fn ends_number(s: Seq<char>, j: int) -> bool {
    j < s.len() ==> !is_digit(s[j]) && s[j] != '.'
}

proof fn lemma_split_part(s: Seq<char>, i: int, a: Seq<char>, b: Seq<char>)
    requires
        part_at(s, i, a + b),
    ensures
        part_at(s, i, a),
        part_at(s, i + a.len(), b),
{
    let w = s.subrange(i, i + (a + b).len());
    assert(s.subrange(i, i + a.len()) =~= w.subrange(0, a.len() as int));
    assert((a + b).subrange(0, a.len() as int) =~= a);
    assert(s.subrange(i + a.len(), i + a.len() + b.len()) =~= w.subrange(
        a.len() as int,
        (a + b).len() as int,
    ));
    assert((a + b).subrange(a.len() as int, (a + b).len() as int) =~= b);
}

/// A gap is skipped; behind it the same comes as before it.
proof fn lemma_gap(s: Seq<char>, i: int, gap: Seq<char>)
    requires
        part_at(s, i, gap),
        all_blank(gap),
    ensures
        skip_blanks(s, i) == skip_blanks(s, i + gap.len()),
    decreases gap.len(),
{
    if gap.len() > 0 {
        let rest = gap.skip(1);
        assert(s.subrange(i, i + gap.len())[0] == s[i]);
        assert(gap =~= seq![gap[0]] + rest);
        lemma_split_part(s, i, seq![gap[0]], rest);
        assert forall|k: int| 0 <= k < rest.len() implies is_blank(#[trigger] rest[k]) by {
            assert(rest[k] == gap[k + 1]);
        }
        lemma_gap(s, i + 1, rest);
    }
}

/// Behind a gap stands a character that is no blank: it comes next.
proof fn lemma_next(s: Seq<char>, i: int, gap: Seq<char>, c: char)
    requires
        part_at(s, i, gap + seq![c]),
        all_blank(gap),
        !is_blank(c),
    ensures
        skip_blanks(s, i) == i + gap.len(),
        i + gap.len() < s.len(),
        s[i + gap.len()] == c,
{
    lemma_split_part(s, i, gap, seq![c]);
    lemma_gap(s, i, gap);
    assert(s.subrange(i + gap.len(), i + gap.len() + 1)[0] == s[i + gap.len()]);
}

/// The text of a number stands behind a gap.
proof fn lemma_number_behind(s: Seq<char>, i: int, d: Seq<char>, gap: Seq<char>)
    requires
        is_written(Tree::Number(d)),
        all_blank(gap),
        part_at(s, i, gap + d),
        ends_number(s, i + gap.len() + d.len()),
    ensures
        primary_at(s, i) == Some((Tree::Number(d), i + gap.len() + d.len())),
        !comes(s, i, '-'),
{
    let t = Tree::Number(d);
    lemma_split_part(s, i, gap, d);
    lemma_gap(s, i, gap);
    let k = i + gap.len();
    lemma_number(s, k, t);
    lemma_first_char(t);
    lemma_char_at(s, k, t, 0);
    assert(skip_blanks(s, k) == k);
}

/// What comes at `j` does not go on with an expression of this looseness.
spec fn fits(s: Seq<char>, j: int, most: int) -> bool {
    &&& ends_number(s, j)
    &&& most >= 1 ==> !comes(s, j, '^')
    &&& most >= 3 ==> product_op(s, j) is None
}

/// How an expression of this looseness is read at `i`.
spec fn is_read(s: Seq<char>, i: int, t: Tree, most: int, j: int) -> bool {
    if most == 0 {
        primary_at(s, i) == Some((t, j)) && !comes(s, i, '-')
    } else if most == 1 {
        factor_at(s, i) == Some((t, j))
    } else if most == 2 {
        product_at(s, i) == product_rest(s, j, t)
    } else {
        sum_at(s, i) == sum_rest(s, j, t)
    }
}

/// A part that binds more tightly than it has to.
proof fn lemma_read_looser(s: Seq<char>, i: int, t: Tree, from: int, most: int, j: int)
    requires
        0 <= from <= most <= 3,
        is_read(s, i, t, from, j),
        fits(s, j, most),
        0 <= i < j <= s.len(),
    ensures
        is_read(s, i, t, most, j),
{
    if from < 1 <= most {
        assert(factor_at(s, i) == Some((t, j)));
    }
    if from < 2 <= most {
        assert(product_at(s, i) == product_rest(s, j, t));
    }
    if from < 3 <= most {
        assert(product_rest(s, j, t) == Some((t, j)));
        assert(sum_at(s, i) == sum_rest(s, j, t));
    }
}

proof fn lemma_gap_fits(s: Seq<char>, j: int, gap: Seq<char>, c: char, most: int)
    requires
        part_at(s, j, gap + seq![c]),
        all_blank(gap),
        c == ')' || c == '+' || c == '-' || (most <= 2 && (c == '*' || c == '/' || c == '%')) || (
        most == 0 && c == '^'),
    ensures
        fits(s, j, most),
{
    lemma_next(s, j, gap, c);
    let w = gap + seq![c];
    assert(s.subrange(j, j + w.len())[0] == s[j]);
    if gap.len() > 0 {
        assert(w[0] == gap[0]);
        assert(is_blank(gap[0]));
    }
}

/// Where the text of an expression stands, it is read.
#[verifier::spinoff_prover]
proof fn lemma_usual(s: Seq<char>, i: int, t: Tree, most: int, gap: Seq<char>)
    requires
        is_written(t),
        all_blank(gap),
        0 <= most <= 3,
        part_at(s, i, usual(t, most, gap)),
        fits(s, i + usual(t, most, gap).len(), most),
    ensures
        is_read(s, i, t, most, i + usual(t, most, gap).len()),
        usual(t, most, gap).len() > 0,
    decreases t, 4 - most, 1int,
{
    let w = usual(t, most, gap);
    let j = i + w.len();
    if looseness(t) > most {
        let inner = usual(t, 3, gap);
        let open = gap + seq!['('];
        let close = gap + seq![')'];
        assert(w =~= open + (inner + close));
        lemma_split_part(s, i, open, inner + close);
        let k = i + gap.len();
        lemma_next(s, i, gap, '(');
        lemma_split_part(s, k + 1, inner, close);
        let m = k + 1 + inner.len();
        lemma_next(s, m, gap, ')');
        lemma_gap_fits(s, m, gap, ')', 3);
        lemma_usual(s, k + 1, t, 3, gap);
        assert(sum_op(s, m) is None);
        assert(sum_rest(s, m, t) == Some((t, m)));
        assert(primary_at(s, i) == Some((t, j)));
        lemma_read_looser(s, i, t, 0, most, j);
    } else {
        match t {
            Tree::Number(d) => {
                lemma_number_behind(s, i, d, gap);
            },
            Tree::Negative(e) => {
                let rest = usual(*e, 1, gap);
                assert(w =~= (gap + seq!['-']) + rest);
                lemma_split_part(s, i, gap + seq!['-'], rest);
                lemma_next(s, i, gap, '-');
                lemma_usual(s, i + gap.len() + 1, *e, 1, gap);
            },
            Tree::Binary(_, _, _) => {
                lemma_usual_binary(s, i, t, gap, most);
            },
        }
        lemma_read_looser(s, i, t, looseness(t), most, j);
    }
}

#[verifier::spinoff_prover]
proof fn lemma_usual_binary(s: Seq<char>, i: int, t: Tree, gap: Seq<char>, most: int)
    requires
        t is Binary,
        is_written(t),
        all_blank(gap),
        looseness(t) <= most <= 3,
        part_at(s, i, usual(t, most, gap)),
        fits(s, i + usual(t, most, gap).len(), most),
    ensures
        is_read(s, i, t, looseness(t), i + usual(t, most, gap).len()),
        usual(t, most, gap).len() > 0,
    decreases t, 4 - most, 0int,
{
    let (op, l, r) = (t->Binary_0, *t->Binary_1, *t->Binary_2);
    let loose = looseness(t);
    let left = if op == Op::Power {
        0
    } else {
        loose
    };
    let right = if op == Op::Power {
        1
    } else {
        loose - 1
    };
    let (a, b) = (usual(l, left, gap), usual(r, right, gap));
    let mid = gap + seq![op_char(op)];
    let w = usual(t, most, gap);
    let j = i + w.len();
    assert(w =~= a + (mid + b));
    lemma_split_part(s, i, a, mid + b);
    let m = i + a.len();
    lemma_split_part(s, m, mid, b);
    lemma_next(s, m, gap, op_char(op));
    let k = m + gap.len();
    lemma_gap_fits(s, m, gap, op_char(op), left);
    lemma_usual(s, i, l, left, gap);
    lemma_usual(s, k + 1, r, right, gap);
    assert(Tree::Binary(op, Box::new(l), Box::new(r)) == t);
    if op == Op::Power {
        assert(comes(s, m, '^'));
        assert(factor_at(s, i) == Some((t, j)));
    } else if loose == 2 {
        assert(product_op(s, m) == Some(op));
        assert(product_rest(s, m, l) == product_rest(s, j, t));
    } else {
        assert(sum_op(s, m) == Some(op));
        assert(product_op(s, j) is None);
        assert(product_rest(s, j, r) == Some((r, j)));
        assert(product_at(s, k + 1) == Some((r, j)));
        assert(sum_rest(s, m, l) == sum_rest(s, j, t));
    }
}

/// Operators bind as usual: an expression with only the parentheses that it needs
/// is read back as it is, with or without blanks. Sums and products group from
/// the left, powers from the right; powers bind tighter than a sign, a sign
/// tighter than products, and products tighter than sums.
pub proof fn usual_expressions_are_read_back(t: Tree, gap: Seq<char>)
    requires
        is_written(t),
        all_blank(gap),
    ensures
        expression(usual(t, 3, gap) + gap) == Some(t),
{
    let w = usual(t, 3, gap);
    let s = w + gap;
    let end = w.len() as int;
    assert(s.subrange(0, end) =~= w);
    assert(s.subrange(end, end + gap.len()) =~= gap);
    lemma_gap(s, end, gap);
    assert(skip_blanks(s, end) == s.len());
    if gap.len() > 0 {
        assert(s[end] == gap[0]);
        assert(is_blank(gap[0]));
    }
    lemma_usual(s, 0, t, 3, gap);
    assert(sum_op(s, end) is None);
    assert(sum_rest(s, end, t) == Some((t, end)));
}

/// Numbers with `+` and `-` between them, as a text.
pub open spec fn chain(numbers: Seq<Seq<char>>, ops: Seq<Op>) -> Seq<char>
    decreases numbers.len(),
{
    if numbers.len() <= 1 {
        numbers[0]
    } else {
        chain(numbers.drop_last(), ops.drop_last()) + seq![op_char(ops.last())] + numbers.last()
    }
}

/// The first two numbers are taken together, and the third with what they make,
/// and so on.
pub open spec fn from_the_left(numbers: Seq<Seq<char>>, ops: Seq<Op>) -> Tree
    decreases numbers.len(),
{
    if numbers.len() <= 1 {
        Tree::Number(numbers[0])
    } else {
        Tree::Binary(
            ops.last(),
            Box::new(from_the_left(numbers.drop_last(), ops.drop_last())),
            Box::new(Tree::Number(numbers.last())),
        )
    }
}

proof fn lemma_chain(numbers: Seq<Seq<char>>, ops: Seq<Op>)
    requires
        numbers.len() == ops.len() + 1,
        forall|k: int| 0 <= k < numbers.len() ==> is_written(Tree::Number(#[trigger] numbers[k])),
        forall|k: int|
            0 <= k < ops.len() ==> (#[trigger] ops[k]) == Op::Plus || ops[k] == Op::Minus,
    ensures
        is_written(from_the_left(numbers, ops)),
        usual(from_the_left(numbers, ops), 3, Seq::empty()) == chain(numbers, ops),
    decreases numbers.len(),
{
    let none = Seq::<char>::empty();
    let t = from_the_left(numbers, ops);
    if numbers.len() == 1 {
        assert(usual(t, 3, none) =~= numbers[0]);
    } else {
        let (n, o) = (numbers.drop_last(), ops.drop_last());
        assert forall|k: int| 0 <= k < n.len() implies is_written(
            Tree::Number(#[trigger] n[k]),
        ) by {
            assert(n[k] == numbers[k]);
        }
        assert forall|k: int| 0 <= k < o.len() implies (#[trigger] o[k]) == Op::Plus || o[k]
            == Op::Minus by {
            assert(o[k] == ops[k]);
        }
        lemma_chain(n, o);
        assert(is_written(Tree::Number(numbers[numbers.len() - 1])));
        assert(ops[ops.len() - 1] == Op::Plus || ops[ops.len() - 1] == Op::Minus);
        let last = Tree::Number(numbers.last());
        assert(usual(last, 2, none) =~= numbers.last());
        assert(usual(t, 3, none) =~= chain(numbers, ops));
    }
}

/// Sums group from the left, for every mix of `+` and `-`: `a-b+c` is `(a-b)+c`.
pub proof fn sums_group_from_the_left(numbers: Seq<Seq<char>>, ops: Seq<Op>)
    requires
        numbers.len() == ops.len() + 1,
        forall|k: int| 0 <= k < numbers.len() ==> is_written(Tree::Number(#[trigger] numbers[k])),
        forall|k: int|
            0 <= k < ops.len() ==> (#[trigger] ops[k]) == Op::Plus || ops[k] == Op::Minus,
    ensures
        expression(chain(numbers, ops)) == Some(from_the_left(numbers, ops)),
{
    let none = Seq::<char>::empty();
    lemma_chain(numbers, ops);
    usual_expressions_are_read_back(from_the_left(numbers, ops), none);
    assert(chain(numbers, ops) + none =~= chain(numbers, ops));
}

/// Digits, with a point among them or without one, are a number.
pub proof fn digits_are_numbers(whole: Seq<char>, fraction: Seq<char>)
    requires
        forall|k: int| 0 <= k < whole.len() ==> '0' <= #[trigger] whole[k] <= '9',
        forall|k: int| 0 <= k < fraction.len() ==> '0' <= #[trigger] fraction[k] <= '9',
        whole.len() + fraction.len() > 0,
    ensures
        whole.len() > 0 ==> is_written(Tree::Number(whole)),
        is_written(Tree::Number(whole + seq!['.'] + fraction)),
{
    lemma_digit_run(whole, 0, whole.len() as int);
    let d = whole + seq!['.'] + fraction;
    assert forall|k: int| 0 <= k < whole.len() implies '0' <= #[trigger] d[k] <= '9' by {
        assert(d[k] == whole[k]);
    }
    assert(d[whole.len() as int] == '.');
    lemma_digit_run(d, 0, whole.len() as int);
    assert forall|k: int| whole.len() < k < d.len() implies '0' <= #[trigger] d[k] <= '9' by {
        assert(d[k] == fraction[k - whole.len() - 1]);
    }
    lemma_digit_run(d, whole.len() as int + 1, d.len() as int);
}

proof fn lemma_digit_run(d: Seq<char>, i: int, end: int)
    requires
        0 <= i <= end <= d.len(),
        forall|k: int| i <= k < end ==> '0' <= #[trigger] d[k] <= '9',
        end < d.len() ==> !is_digit(d[end]),
    ensures
        skip_digits(d, i) == end,
    decreases end - i,
{
    if i < end {
        lemma_digit_run(d, i + 1, end);
    }
}

/// The characters from `i` to `j` but for blanks and parentheses.
pub open spec fn essence(s: Seq<char>, i: int, j: int) -> Seq<char>
    decreases j - i,
{
    if j <= i {
        Seq::empty()
    } else if is_blank(s[j - 1]) || s[j - 1] == '(' || s[j - 1] == ')' {
        essence(s, i, j - 1)
    } else {
        essence(s, i, j - 1).push(s[j - 1])
    }
}

/// The numbers, signs and operators of an expression in their order.
pub open spec fn flat(t: Tree) -> Seq<char>
    decreases t,
{
    match t {
        Tree::Number(d) => d,
        Tree::Negative(e) => seq!['-'] + flat(*e),
        Tree::Binary(op, l, r) => flat(*l) + seq![op_char(op)] + flat(*r),
    }
}

proof fn lemma_essence_adds(s: Seq<char>, i: int, k: int, j: int)
    requires
        i <= k <= j,
    ensures
        essence(s, i, j) == essence(s, i, k) + essence(s, k, j),
    decreases j - k,
{
    if k < j {
        lemma_essence_adds(s, i, k, j - 1);
        assert(essence(s, i, j) =~= essence(s, i, k) + essence(s, k, j));
    } else {
        assert(essence(s, i, j) =~= essence(s, i, k) + essence(s, k, j));
    }
}

proof fn lemma_blanks_have_no_essence(s: Seq<char>, i: int)
    requires
        0 <= i <= s.len(),
    ensures
        i <= skip_blanks(s, i) <= s.len(),
        essence(s, i, skip_blanks(s, i)) == Seq::<char>::empty(),
    decreases s.len() - i,
{
    if i < s.len() && is_blank(s[i]) {
        lemma_blanks_have_no_essence(s, i + 1);
        let k = skip_blanks(s, i);
        lemma_essence_adds(s, i, i + 1, k);
        assert(essence(s, i, i) =~= Seq::empty());
        assert(essence(s, i, i + 1) =~= Seq::empty());
        assert(essence(s, i, k) =~= Seq::empty());
    }
}

/// A token of one character behind blanks.
proof fn lemma_token_essence(s: Seq<char>, i: int, c: char)
    requires
        0 <= i <= s.len(),
        comes(s, i, c),
    ensures
        i <= skip_blanks(s, i) < s.len(),
        essence(s, i, skip_blanks(s, i) + 1) == (if is_blank(c) || c == '(' || c == ')' {
            Seq::<char>::empty()
        } else {
            seq![c]
        }),
{
    lemma_blanks_have_no_essence(s, i);
    let k = skip_blanks(s, i);
    assert(essence(s, i, k + 1) =~= if is_blank(c) || c == '(' || c == ')' {
        Seq::<char>::empty()
    } else {
        seq![c]
    });
}

proof fn lemma_digits_essence(s: Seq<char>, i: int)
    requires
        0 <= i <= s.len(),
    ensures
        i <= skip_digits(s, i) <= s.len(),
        forall|k: int| i <= k < skip_digits(s, i) ==> is_digit(#[trigger] s[k]),
    decreases s.len() - i,
{
    if i < s.len() && is_digit(s[i]) {
        lemma_digits_essence(s, i + 1);
    }
}

proof fn lemma_plain_essence(s: Seq<char>, i: int, j: int)
    requires
        0 <= i <= j <= s.len(),
        forall|k: int| i <= k < j ==> is_digit(#[trigger] s[k]) || s[k] == '.',
    ensures
        essence(s, i, j) == s.subrange(i, j),
    decreases j - i,
{
    if i < j {
        lemma_plain_essence(s, i, j - 1);
        assert(is_digit(s[j - 1]) || s[j - 1] == '.');
        assert(s.subrange(i, j) =~= s.subrange(i, j - 1).push(s[j - 1]));
    } else {
        assert(s.subrange(i, j) =~= essence(s, i, j));
    }
}

spec fn keeps_essence(s: Seq<char>, i: int, o: Option<(Tree, int)>) -> bool {
    o matches Some((t, j)) ==> i < j <= s.len() && essence(s, i, j) == flat(t)
}

#[verifier::spinoff_prover]
proof fn lemma_primary_essence(s: Seq<char>, i: int)
    requires
        0 <= i <= s.len(),
    ensures
        keeps_essence(s, i, primary_at(s, i)),
    decreases s.len() - i, 0int,
{
    let k = skip_blanks(s, i);
    lemma_blanks_have_no_essence(s, i);
    if comes(s, i, '(') {
        lemma_token_essence(s, i, '(');
        lemma_sum_essence(s, k + 1);
        if let Some((t, j)) = sum_at(s, k + 1) {
            if comes(s, j, ')') {
                lemma_token_essence(s, j, ')');
                let end = skip_blanks(s, j) + 1;
                lemma_essence_adds(s, i, k + 1, j);
                lemma_essence_adds(s, i, j, end);
                assert(essence(s, i, end) =~= flat(t));
            }
        }
    } else {
        let j = number_end(s, k);
        let d = skip_digits(s, k);
        lemma_digits_essence(s, k);
        if d < s.len() && s[d] == '.' {
            lemma_digits_essence(s, d + 1);
        }
        assert forall|m: int| k <= m < j implies is_digit(#[trigger] s[m]) || s[m] == '.' by {}
        lemma_plain_essence(s, k, j);
        lemma_essence_adds(s, i, k, j);
        assert(essence(s, i, j) =~= s.subrange(k, j));
    }
}

#[verifier::spinoff_prover]
proof fn lemma_factor_essence(s: Seq<char>, i: int)
    requires
        0 <= i <= s.len(),
    ensures
        keeps_essence(s, i, factor_at(s, i)),
    decreases s.len() - i, 1int,
{
    let k = skip_blanks(s, i);
    lemma_blanks_have_no_essence(s, i);
    if comes(s, i, '-') {
        lemma_token_essence(s, i, '-');
        lemma_factor_essence(s, k + 1);
        if let Some((t, j)) = factor_at(s, k + 1) {
            lemma_essence_adds(s, i, k + 1, j);
            assert(essence(s, i, j) =~= seq!['-'] + flat(t));
        }
    } else {
        lemma_primary_essence(s, i);
        if let Some((base, j)) = primary_at(s, i) {
            if comes(s, j, '^') {
                lemma_token_essence(s, j, '^');
                let m = skip_blanks(s, j);
                lemma_factor_essence(s, m + 1);
                if let Some((t, n)) = factor_at(s, m + 1) {
                    lemma_essence_adds(s, i, j, m + 1);
                    lemma_essence_adds(s, i, m + 1, n);
                    let all = Tree::Binary(Op::Power, Box::new(base), Box::new(t));
                    assert(essence(s, i, n) =~= flat(all));
                }
            }
        }
    }
}

#[verifier::spinoff_prover]
proof fn lemma_product_essence(s: Seq<char>, i: int)
    requires
        0 <= i <= s.len(),
    ensures
        keeps_essence(s, i, product_at(s, i)),
    decreases s.len() - i, 3int,
{
    lemma_factor_essence(s, i);
    if let Some((t, j)) = factor_at(s, i) {
        lemma_product_rest_essence(s, i, j, t);
    }
}

#[verifier::spinoff_prover]
proof fn lemma_product_rest_essence(s: Seq<char>, from: int, i: int, left: Tree)
    requires
        0 <= from < i <= s.len(),
        essence(s, from, i) == flat(left),
    ensures
        keeps_essence(s, from, product_rest(s, i, left)),
    decreases s.len() - i, 2int,
{
    if let Some(op) = product_op(s, i) {
        lemma_token_essence(s, i, op_char(op));
        let k = skip_blanks(s, i);
        lemma_factor_essence(s, k + 1);
        if let Some((t, j)) = factor_at(s, k + 1) {
            let all = Tree::Binary(op, Box::new(left), Box::new(t));
            lemma_essence_adds(s, from, i, k + 1);
            lemma_essence_adds(s, from, k + 1, j);
            assert(essence(s, from, j) =~= flat(all));
            lemma_product_rest_essence(s, from, j, all);
        }
    }
}

#[verifier::spinoff_prover]
proof fn lemma_sum_essence(s: Seq<char>, i: int)
    requires
        0 <= i <= s.len(),
    ensures
        keeps_essence(s, i, sum_at(s, i)),
    decreases s.len() - i, 5int,
{
    lemma_product_essence(s, i);
    if let Some((t, j)) = product_at(s, i) {
        lemma_sum_rest_essence(s, i, j, t);
    }
}

#[verifier::spinoff_prover]
proof fn lemma_sum_rest_essence(s: Seq<char>, from: int, i: int, left: Tree)
    requires
        0 <= from < i <= s.len(),
        essence(s, from, i) == flat(left),
    ensures
        keeps_essence(s, from, sum_rest(s, i, left)),
    decreases s.len() - i, 4int,
{
    if let Some(op) = sum_op(s, i) {
        lemma_token_essence(s, i, op_char(op));
        let k = skip_blanks(s, i);
        lemma_product_essence(s, k + 1);
        if let Some((t, j)) = product_at(s, k + 1) {
            let all = Tree::Binary(op, Box::new(left), Box::new(t));
            lemma_essence_adds(s, from, i, k + 1);
            lemma_essence_adds(s, from, k + 1, j);
            assert(essence(s, from, j) =~= flat(all));
            lemma_sum_rest_essence(s, from, j, all);
        }
    }
}

/// Nothing of a text is passed over: an expression has just the numbers, signs and
/// operators that stand in the text, in their order. A text with anything else in
/// it is no expression.
pub proof fn expressions_are_read_whole(s: Seq<char>)
    ensures
        expression(s) matches Some(t) ==> essence(s, 0, s.len() as int) == flat(t),
{
    lemma_sum_essence(s, 0);
    if let Some((t, j)) = sum_at(s, 0) {
        lemma_blanks_have_no_essence(s, j);
        if expression(s) is Some {
            lemma_essence_adds(s, 0, j, s.len() as int);
            assert(essence(s, 0, s.len() as int) =~= flat(t));
        }
    }
}

} // verus!
