//! The size of image previews in terminal cells.

use crate::binary64::{
    divided, exceeds, is_greater, is_normal, lemma_nearest_big, lemma_nearest_normal,
    lemma_nearest_small, lemma_quotient_off, lemma_round_up_close, lemma_rounded_near,
    lemma_units_in_order, nearest, product, product_of, quotient_of, ratio, round_up, rounded_up,
    twice, units, Approx, Rounded, MANTISSA_END, MANTISSA_MIN,
};
use crate::text::{char_is_control, is_control};
use crate::theme::Color;
use vstd::arithmetic::power2::*;
use vstd::prelude::*;

verus! {

/// The larger of 1 and `n`, but at most `max`.
pub open spec fn clamped(n: nat, max: u16) -> u16 {
    if n < 1 {
        if max < 1 {
            max
        } else {
            1
        }
    } else if n > max {
        max
    } else {
        n as u16
    }
}

fn clamp(n: u64, max: u16) -> (r: u16)
    ensures
        r == clamped(n as nat, max),
{
    if n < 1 {
        if max < 1 {
            max
        } else {
            1
        }
    } else if n > max as u64 {
        max
    } else {
        n as u16
    }
}

/// How many columns and rows an image fills: cells are twice as tall as wide,
/// the aspect is kept, and either all rows or all columns are used.
pub open spec fn fitted(img_w: u32, img_h: u32, cols: u16, rows: u16) -> (u16, u16) {
    if img_w == 0 || img_h == 0 || cols == 0 || rows == 0 {
        (1, 1)
    } else {
        let wide = twice(nearest(img_w as nat, img_h as nat));
        let all = nearest(rows as nat, 1);
        let tall = quotient_of(cols as nat, wide);
        let y = if exceeds(all, tall) {
            tall
        } else {
            all
        };
        let x = product_of(wide, y);
        (clamped(round_up(x), cols), clamped(round_up(y), rows))
    }
}

/// Aspect-correct cell geometry for an image in a `cols` x `rows` area,
/// assuming terminal cells are twice as tall as wide. Fills as much of the
/// area as possible.
pub fn fit_cells(img_w: u32, img_h: u32, cols: u16, rows: u16) -> (r: (u16, u16))
    ensures
        r == fitted(img_w, img_h, cols, rows),
{
    if img_w == 0 || img_h == 0 || cols == 0 || rows == 0 {
        return (1, 1);
    }
    let aspect = ratio(img_w, img_h as u64);
    let wide = Rounded { mantissa: aspect.mantissa, exponent: aspect.exponent + 1 };
    assert(wide@ == twice(aspect@));
    let all = ratio(rows as u32, 1);
    let tall = divided(cols as u32, wide);
    let y = if is_greater(&all, &tall) {
        tall
    } else {
        all
    };
    let x = product(wide, y);
    (clamp(rounded_up(x), cols), clamp(rounded_up(y), rows))
}

/// An image fills at least one cell and never more than its area.
pub proof fn fitted_images_stay_inside(img_w: u32, img_h: u32, cols: u16, rows: u16)
    requires
        cols > 0,
        rows > 0,
    ensures
        1 <= fitted(img_w, img_h, cols, rows).0 <= cols,
        1 <= fitted(img_w, img_h, cols, rows).1 <= rows,
{
}

/// An image fills all columns or all rows of its area.
pub proof fn fitted_images_fill_a_side(img_w: u32, img_h: u32, cols: u16, rows: u16)
    requires
        img_w > 0,
        img_h > 0,
        cols > 0,
        rows > 0,
    ensures
        fitted(img_w, img_h, cols, rows).0 == cols || fitted(img_w, img_h, cols, rows).1 == rows,
{
    let wide = twice(nearest(img_w as nat, img_h as nat));
    let all = nearest(rows as nat, 1);
    let tall = quotient_of(cols as nat, wide);
    lemma_nearest_normal(img_w as nat, img_h as nat);
    if exceeds(all, tall) {
        lemma_whole_width(cols as nat, wide);
    } else {
        lemma_nearest_small(rows as nat, 1);
        lemma_nearest_normal(rows as nat, 1);
        let k = -all.exponent;
        let scale = pow2(k as nat);
        lemma_pow2_pos(k as nat);
        assert(pow2(0) == 1) by {
            lemma2_to64();
        }
        assert(all.mantissa * 1 == all.mantissa);
        lemma_round_up_close(all, rows as nat, scale, all.mantissa, k);
    }
}

/// The product of a rounded number and the quotient of an integer by it rounds
/// to the integer.
proof fn lemma_whole_width(n: nat, a: Approx)
    requires
        0 < n <= u16::MAX,
        MANTISSA_MIN <= a.mantissa < MANTISSA_END,
    ensures
        round_up(product_of(a, quotient_of(n, a))) == n,
{
    let den = a.mantissa;
    let p = nearest(n, den);
    vstd::arithmetic::div_mod::lemma_small_mod(n, den);
    vstd::arithmetic::div_mod::lemma_basic_div(n as int, den as int);
    lemma_nearest_small(n, den);
    lemma_nearest_normal(n, den);
    let k = -p.exponent;
    let scale = pow2(k as nat);
    let target = n * scale;
    lemma_pow2_pos(k as nat);
    let exact = den * p.mantissa;
    assert(exact == p.mantissa * den) by (nonlinear_arith)
        requires
            exact == den * p.mantissa,
    ;
    assert(exact >= 0x10_0000_0000_0000 * 0x10_0000_0000_0000) by (nonlinear_arith)
        requires
            den >= 0x10_0000_0000_0000,
            p.mantissa >= 0x10_0000_0000_0000,
            exact == den * p.mantissa,
    ;
    lemma_nearest_big(exact);
    let r = nearest(exact, 1);
    let value = r.mantissa * pow2(r.exponent as nat);
    assert(target <= 0xffff * scale) by (nonlinear_arith)
        requires
            n <= 0xffff,
            target == n * scale,
    ;
    let x = product_of(a, quotient_of(n, a));
    assert(x == (Approx { mantissa: r.mantissa, exponent: r.exponent - k }));
    assert(-(scale as int) <= 4 * (value - target) <= scale) by {
        assert(exact <= 2 * target);
        assert(0x10_0000_0000_0000 * (value - exact) <= target);
        assert(-target <= 0x10_0000_0000_0000 * (value - exact));
        assert(0x10_0000_0000_0000 * (exact - target) <= target);
        assert(-target <= 0x10_0000_0000_0000 * (exact - target));
    }
    lemma_round_up_close(x, n, scale, value, k);
}

/// The color that the renderer packs into 24 bits.
pub open spec fn unpacked(color: i32) -> Color {
    Color::Rgb(
        ((color >> 16) & 0xff) as u8,
        ((color >> 8) & 0xff) as u8,
        (color & 0xff) as u8,
    )
}

pub fn unpack_color(color: i32) -> (r: Color)
    ensures
        r == unpacked(color),
{
    Color::Rgb(
        #[verifier::truncate]
        (((color >> 16) & 0xff) as u8),
        #[verifier::truncate]
        (((color >> 8) & 0xff) as u8),
        #[verifier::truncate]
        ((color & 0xff) as u8),
    )
}

/// The symbol of a cell: controls never reach the terminal.
pub fn cell_symbol(found: Option<char>) -> (r: char)
    ensures
        r == (match found {
            Some(c) => if is_control(c) {
                ' '
            } else {
                c
            },
            None => ' ',
        }),
        !is_control(r),
{
    match found {
        Some(c) => if char_is_control(c) {
            ' '
        } else {
            c
        },
        None => ' ',
    }
}

/// What the packing of a color keeps.
pub proof fn colors_unpack(red: u8, green: u8, blue: u8)
    ensures
        unpacked(((red as i32) << 16) | ((green as i32) << 8) | (blue as i32)) == Color::Rgb(
            red,
            green,
            blue,
        ),
{
    assert({
        let c = ((red as i32) << 16) | ((green as i32) << 8) | (blue as i32);
        &&& ((c >> 16) & 0xff) as u8 == red
        &&& ((c >> 8) & 0xff) as u8 == green
        &&& (c & 0xff) as u8 == blue
    }) by (bit_vector);
}


/// `a` cells of `unit` come to `b`, but for half a cell and a thousandth of that.
pub open spec fn is_near(a: int, b: int, unit: int) -> bool {
    -1001 * unit <= 2000 * (a - b) <= 1001 * unit
}

proof fn lemma_cells_near(n: nat, v: nat, num: nat, den: nat, scale: nat)
    requires
        den > 0,
        scale > 0,
        -scale <= 2 * (n * scale - v) <= scale,
        -(num * scale) <= 0x7_ffff_ffff_fff0 * (v * den - num * scale) <= num * scale,
        v <= 0x1_0000 * scale,
    ensures
        is_near((n * den) as int, num as int, den as int),
        n == 0 ==> num <= den,
{
    let t = num * scale;
    let x = v * den;
    let y = den * scale;
    assert(x <= 0x1_0000 * y) by (nonlinear_arith)
        requires
            v <= 0x1_0000 * scale,
            x == v * den,
            y == den * scale,
    ;
    assert(t <= 0x2_0000 * y);
    let z = n * scale * den;
    assert(-y <= 2 * (z - x) <= y) by (nonlinear_arith)
        requires
            -scale <= 2 * (n * scale - v) <= scale,
            x == v * den,
            y == den * scale,
            z == n * scale * den,
            den > 0,
    ;
    assert(y > 0) by (nonlinear_arith)
        requires
            y == den * scale,
            den > 0,
            scale > 0,
    ;
    assert(-1001 * y <= 2000 * (z - t) <= 1001 * y);
    let off = n * den - num;
    assert(z - t == off * scale) by (nonlinear_arith)
        requires
            z == n * scale * den,
            t == num * scale,
            off == n * den - num,
    ;
    assert(-1001 * den <= 2000 * off <= 1001 * den) by (nonlinear_arith)
        requires
            -1001 * (den * scale) <= 2000 * (off * scale) <= 1001 * (den * scale),
            scale > 0,
    ;
    if n == 0 {
        assert(z == 0) by (nonlinear_arith)
            requires
                z == n * scale * den,
                n == 0,
        ;
    }
}

proof fn lemma_rows_exact(rows: u16)
    requires
        rows > 0,
    ensures
        nearest(rows as nat, 1).exponent <= -2,
        nearest(rows as nat, 1).mantissa == rows as nat * pow2(
            (-nearest(rows as nat, 1).exponent) as nat,
        ),
        MANTISSA_MIN <= nearest(rows as nat, 1).mantissa < MANTISSA_END,
{
    let all = nearest(rows as nat, 1);
    lemma_nearest_small(rows as nat, 1);
    lemma_nearest_normal(rows as nat, 1);
    let k = -all.exponent;
    assert(all.mantissa * 1 == all.mantissa);
    lemma2_to64();
    if k == 0 {
        assert(rows as nat * 1 == rows as nat);
    } else if k == 1 {
        assert(rows as nat * 2 <= 0x2_0000);
    }
}

/// Where the height is taken whole, the width is what the shape asks for.
proof fn lemma_width_near(w: u32, h: u32, cols: u16, rows: u16)
    requires
        w > 0,
        h > 0,
        cols > 0,
        rows > 0,
        ({
            let wide = twice(nearest(w as nat, h as nat));
            !exceeds(nearest(rows as nat, 1), quotient_of(cols as nat, wide))
        }),
    ensures
        ({
            let wide = twice(nearest(w as nat, h as nat));
            let n = round_up(product_of(wide, nearest(rows as nat, 1)));
            &&& n <= cols
            &&& is_near(n * h, 2 * w * rows, h as int)
            &&& n == 0 ==> 2 * w * rows <= h
        }),
{
    let one = nearest(w as nat, h as nat);
    let wide = twice(one);
    let all = nearest(rows as nat, 1);
    let tall = quotient_of(cols as nat, wide);
    let x = product_of(wide, all);
    lemma_small_quotient_of(w, h);
    lemma_nearest_normal(w as nat, h as nat);
    lemma_nearest_small(w as nat, h as nat);
    lemma_rows_exact(rows);
    let (wm, we) = (wide.mantissa, wide.exponent);
    let (am, ae) = (all.mantissa, all.exponent);
    let e = we + ae;
    assert(e < 0);
    let scale = pow2((-e) as nat);
    lemma_pow2_pos((-e) as nat);
    let k = pow2((-ae) as nat);
    let u = wm * k;
    // what the rounded shape is off by
    lemma_quotient_off(w as nat, h as nat, e - 1);
    assert(units(one, e - 1) == u);
    lemma_pow2_unfold((1 - e) as nat);
    assert(pow2((1 - e) as nat) == 2 * scale);
    let double = 2 * w as nat;
    assert(w as nat * (2 * scale) == double * scale) by (nonlinear_arith)
        requires
            double == 2 * w as nat,
    ;
    assert(-(double * scale) <= 0x10_0000_0000_0000 * (u * h as nat - double * scale) <= double
        * scale);
    // what the product is off by
    let p = wm * am;
    let num = double * rows as nat;
    let t = num * scale;
    assert(p == rows as nat * u) by (nonlinear_arith)
        requires
            p == wm * am,
            am == rows as nat * k,
            u == wm * k,
    ;
    assert(t == rows as nat * (double * scale)) by (nonlinear_arith)
        requires
            num == double * rows as nat,
            t == num * scale,
    ;
    let ph = p * h as nat;
    assert(-t <= 0x10_0000_0000_0000 * (ph - t) <= t) by (nonlinear_arith)
        requires
            -(double * scale) <= 0x10_0000_0000_0000 * (u * h as nat - double * scale) <= double
                * scale,
            p == rows as nat * u,
            ph == p * h as nat,
            t == rows as nat * (double * scale),
            rows > 0,
    ;
    assert(p >= MANTISSA_MIN) by (nonlinear_arith)
        requires
            p == wm * am,
            wm >= 0x10_0000_0000_0000,
            am >= 0x10_0000_0000_0000,
    ;
    lemma_nearest_big(p);
    let v = units(x, e);
    assert(v == nearest(p, 1).mantissa * pow2(nearest(p, 1).exponent as nat));
    let vh = v * h as nat;
    assert(-ph <= 0x20_0000_0000_0000 * (vh - ph) <= ph) by (nonlinear_arith)
        requires
            -p <= 0x20_0000_0000_0000 * (v - p) <= p,
            ph == p * h as nat,
            vh == v * h as nat,
    ;
    assert(-t <= 0x7_ffff_ffff_fff0 * (vh - t) <= t);
    // the width is within the area
    lemma_product_bounded(wide, all, cols as nat);
    assert(0x10_0000_0000_0000 * p <= 0x10_0000_0000_0001 * (cols as nat * scale));
    let area = cols as nat * scale;
    assert(0x4_0000_0000_0000 * v <= 0x4_0000_0000_0001 * area);
    assert(area <= 0xffff * scale) by (nonlinear_arith)
        requires
            area == cols as nat * scale,
            cols <= 0xffff,
    ;
    lemma_rounded_near(x, e);
    let n = round_up(x);
    assert(n <= cols) by (nonlinear_arith)
        requires
            2 * (n * scale - v) <= scale,
            0x4_0000_0000_0000 * v <= 0x4_0000_0000_0001 * area,
            area == cols as nat * scale,
            area <= 0xffff * scale,
            scale > 0,
    ;
    lemma_cells_near(n, v, num, h as nat, scale);
}

proof fn lemma_small_quotient_of(w: u32, h: u32)
    requires
        h > 0,
    ensures
        w as nat / h as nat <= u32::MAX,
{
    vstd::arithmetic::div_mod::lemma_div_is_ordered_by_denominator(w as int, 1, h as int);
}

/// Where a number does not exceed a quotient, its product with the divisor does
/// not exceed what was divided, but for one part in 2^52.
proof fn lemma_product_bounded(a: Approx, b: Approx, n: nat)
    requires
        0 < n <= u16::MAX,
        is_normal(a),
        is_normal(b),
        a.exponent + b.exponent < 0,
        !exceeds(b, quotient_of(n, a)),
    ensures
        0x10_0000_0000_0000 * (a.mantissa * b.mantissa) <= 0x10_0000_0000_0001 * (n * pow2(
            (-(a.exponent + b.exponent)) as nat,
        )),
{
    let den = a.mantissa;
    let q = nearest(n, den);
    let tall = quotient_of(n, a);
    vstd::arithmetic::div_mod::lemma_basic_div(n as int, den as int);
    lemma_nearest_small(n, den);
    lemma_nearest_normal(n, den);
    let j = pow2((-q.exponent) as nat);
    let exact = n * j;
    let (ae, be, te) = (a.exponent, b.exponent, tall.exponent);
    let low = if be < te {
        be
    } else {
        te
    };
    lemma_units_in_order(b, tall, low);
    let (f, g) = (pow2((be - low) as nat), pow2((te - low) as nat));
    let scale = pow2((-(ae + be)) as nat);
    lemma_pow2_pos((be - low) as nat);
    lemma_pow2_pos((te - low) as nat);
    lemma_pow2_pos((-(ae + be)) as nat);
    lemma_pow2_adds((-q.exponent) as nat, (te - low) as nat);
    lemma_pow2_adds((-(ae + be)) as nat, (be - low) as nat);
    assert(-q.exponent + (te - low) == -(ae + be) + (be - low));
    assert(j * g == scale * f);
    let (bm, tm) = (b.mantissa, tall.mantissa);
    assert(bm * f <= tm * g);
    assert(0x10_0000_0000_0000 * (tm * den) <= 0x10_0000_0000_0001 * exact);
    let left = den * bm * f;
    let right = n * (j * g);
    assert(0x10_0000_0000_0000 * left <= 0x10_0000_0000_0001 * right) by (nonlinear_arith)
        requires
            bm * f <= tm * g,
            0x10_0000_0000_0000 * (tm * den) <= 0x10_0000_0000_0001 * exact,
            exact == n * j,
            left == den * bm * f,
            right == n * (j * g),
            g > 0,
            den >= 0,
    ;
    let product = den * bm;
    assert(right == n * scale * f) by (nonlinear_arith)
        requires
            right == n * (j * g),
            j * g == scale * f,
    ;
    assert(0x10_0000_0000_0000 * product <= 0x10_0000_0000_0001 * (n * scale)) by (nonlinear_arith)
        requires
            0x10_0000_0000_0000 * left <= 0x10_0000_0000_0001 * right,
            left == product * f,
            right == n * scale * f,
            f > 0,
    ;
}

/// Where the width is taken whole, the height is what the shape asks for.
proof fn lemma_height_near(w: u32, h: u32, cols: u16, rows: u16)
    requires
        w > 0,
        h > 0,
        cols > 0,
        rows > 0,
        ({
            let wide = twice(nearest(w as nat, h as nat));
            exceeds(nearest(rows as nat, 1), quotient_of(cols as nat, wide))
        }),
    ensures
        ({
            let wide = twice(nearest(w as nat, h as nat));
            let n = round_up(quotient_of(cols as nat, wide));
            &&& n <= rows
            &&& is_near(n * (2 * w), cols * h, 2 * w)
            &&& n == 0 ==> cols * h <= 2 * w
        }),
{
    let one = nearest(w as nat, h as nat);
    let wide = twice(one);
    let all = nearest(rows as nat, 1);
    let tall = quotient_of(cols as nat, wide);
    lemma_small_quotient_of(w, h);
    lemma_nearest_normal(w as nat, h as nat);
    lemma_nearest_small(w as nat, h as nat);
    lemma_rows_exact(rows);
    let wm = wide.mantissa;
    let q = nearest(cols as nat, wm);
    vstd::arithmetic::div_mod::lemma_basic_div(cols as int, wm as int);
    lemma_nearest_small(cols as nat, wm);
    lemma_nearest_normal(cols as nat, wm);
    let tm = q.mantissa;
    let low = tall.exponent;
    assert(low <= all.exponent);
    let scale = pow2((-low) as nat);
    lemma_pow2_pos((-low) as nat);
    assert(pow2(0) == 1) by {
        lemma2_to64();
    }
    assert(units(tall, low) == tm) by {
        assert(tm * 1 == tm);
    }
    // the height is within the area
    lemma_units_in_order(all, tall, low);
    let k = pow2((-all.exponent) as nat);
    let f = pow2((all.exponent - low) as nat);
    lemma_pow2_adds((-all.exponent) as nat, (all.exponent - low) as nat);
    assert(units(all, low) == rows as nat * scale) by (nonlinear_arith)
        requires
            units(all, low) == all.mantissa * f,
            all.mantissa == rows as nat * k,
            scale == k * f,
    ;
    assert(tm < rows as nat * scale);
    lemma_rounded_near(tall, low);
    let n = round_up(tall);
    assert(n <= rows) by (nonlinear_arith)
        requires
            2 * (n * scale - tm) <= scale,
            tm < rows as nat * scale,
            scale > 0,
    ;
    assert(tm <= 0x1_0000 * scale) by (nonlinear_arith)
        requires
            tm < rows as nat * scale,
            rows <= 0xffff,
            scale > 0,
    ;
    // what the quotient is off by
    let i = pow2((-one.exponent) as nat);
    let j = pow2((-q.exponent) as nat);
    lemma_pow2_pos((-one.exponent) as nat);
    lemma_pow2_adds((-low) as nat, (-one.exponent) as nat);
    lemma_pow2_unfold((1 - q.exponent) as nat);
    assert(-low - one.exponent == 1 - q.exponent);
    assert(scale * i == 2 * j);
    let a = cols as nat * j;
    let b = w as nat * i;
    assert(-a <= 0x10_0000_0000_0000 * (tm * wm - a) <= a);
    assert(-b <= 0x10_0000_0000_0000 * (wm * h as nat - b) <= b);
    let ah = a * h as nat;
    let tb = tm * b;
    let c = tm * wm * h as nat;
    assert(-ah <= 0x10_0000_0000_0000 * (c - ah) <= ah) by (nonlinear_arith)
        requires
            -a <= 0x10_0000_0000_0000 * (tm * wm - a) <= a,
            ah == a * h as nat,
            c == tm * wm * h as nat,
            h > 0,
    ;
    assert(-tb <= 0x10_0000_0000_0000 * (c - tb) <= tb) by (nonlinear_arith)
        requires
            -b <= 0x10_0000_0000_0000 * (wm * h as nat - b) <= b,
            tb == tm * b,
            c == tm * wm * h as nat,
    ;
    let double = 2 * w as nat;
    let num = cols as nat * h as nat;
    let (x, t) = (tm * double, num * scale);
    assert(2 * tb == x * i) by (nonlinear_arith)
        requires
            tb == tm * b,
            b == w as nat * i,
            x == tm * double,
            double == 2 * w as nat,
    ;
    assert(2 * ah == t * i) by (nonlinear_arith)
        requires
            ah == a * h as nat,
            a == cols as nat * j,
            num == cols as nat * h as nat,
            t == num * scale,
            scale * i == 2 * j,
    ;
    assert(-(t * i) <= 0x7_ffff_ffff_fff0 * (x * i - t * i) <= t * i);
    lemma_divided(x, t, i);
    lemma_cells_near(n, tm, num, double, scale);
}

proof fn lemma_divided(x: nat, t: nat, i: nat)
    requires
        i > 0,
        -(t * i) <= 0x7_ffff_ffff_fff0 * (x * i - t * i) <= t * i,
    ensures
        -t <= 0x7_ffff_ffff_fff0 * (x - t) <= t,
{
    let off = x - t;
    assert(x * i - t * i == off * i) by (nonlinear_arith)
        requires
            off == x - t,
    ;
    assert(-t <= 0x7_ffff_ffff_fff0 * off <= t) by (nonlinear_arith)
        requires
            -(t * i) <= 0x7_ffff_ffff_fff0 * (off * i) <= t * i,
            i > 0,
    ;
}


/// An image keeps its shape, where a cell is twice as tall as wide: it takes all
/// rows and the columns that its width then comes to, or all columns and the rows
/// that its height comes to, to the nearest cell and at least one.
pub proof fn fitted_images_keep_their_shape(img_w: u32, img_h: u32, cols: u16, rows: u16)
    requires
        img_w > 0,
        img_h > 0,
        cols > 0,
        rows > 0,
    ensures
        ({
            let (c, r) = fitted(img_w, img_h, cols, rows);
            let (wide, high) = (2 * img_w * r, c * img_h);
            ||| r == rows && (is_near(high, wide, img_h as int) || c == 1 && wide <= img_h)
            ||| c == cols && (is_near(wide, high, 2 * img_w) || r == 1 && high <= 2 * img_w)
        }),
{
    let wide = twice(nearest(img_w as nat, img_h as nat));
    let all = nearest(rows as nat, 1);
    let tall = quotient_of(cols as nat, wide);
    lemma_nearest_normal(img_w as nat, img_h as nat);
    let (c, r) = fitted(img_w, img_h, cols, rows);
    if exceeds(all, tall) {
        lemma_whole_width(cols as nat, wide);
        lemma_height_near(img_w, img_h, cols, rows);
        let n = round_up(tall);
        assert(c == cols);
        assert(n * (2 * img_w) == 2 * img_w * n) by (nonlinear_arith);
    } else {
        lemma_width_near(img_w, img_h, cols, rows);
        lemma_rows_exact(rows);
        let k = -all.exponent;
        let scale = pow2(k as nat);
        lemma_pow2_pos(k as nat);
        assert(pow2(0) == 1) by {
            lemma2_to64();
        }
        assert(all.mantissa * 1 == all.mantissa);
        lemma_round_up_close(all, rows as nat, scale, all.mantissa, k);
        assert(r == rows);
    }
}

} // verus!
