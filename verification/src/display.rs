//! Sizes and ages as people read them.

use crate::text::{chars_of, decimal_string, digits_of, joined, push_decimal};
use vstd::prelude::*;
use vstd::string::*;

verus! {

/// The unit in which a size is shown, and its name.
pub open spec fn size_unit(bytes: u64) -> (u64, Seq<char>) {
    if bytes < 1_000_000 {
        (1_000, " KB"@)
    } else if bytes < 1_000_000_000 {
        (1_000_000, " MB"@)
    } else if bytes < 1_000_000_000_000 {
        (1_000_000_000, " GB"@)
    } else {
        (1_000_000_000_000, " TB"@)
    }
}

/// A size in decimal units, to the nearest tenth from a thousand bytes on.
pub open spec fn size_text(bytes: u64) -> Seq<char> {
    if bytes < 1000 {
        digits_of(bytes as nat) + " B"@
    } else {
        let (unit, name) = size_unit(bytes);
        let tenths = (bytes + unit as int / 20) / (unit as int / 10);
        digits_of((tenths / 10) as nat) + "."@ + digits_of((tenths % 10) as nat) + name
    }
}

/// "412 B", "1.3 KB", "2.0 MB".
pub fn human_size(bytes: u64) -> (r: String)
    ensures
        r@ == size_text(bytes),
{
    if bytes < 1000 {
        return joined(&decimal_string(bytes), " B");
    }
    let (tenths, name): (u128, &str) = if bytes < 1_000_000 {
        ((bytes as u128 + 50) / 100, " KB")
    } else if bytes < 1_000_000_000 {
        ((bytes as u128 + 50_000) / 100_000, " MB")
    } else if bytes < 1_000_000_000_000 {
        ((bytes as u128 + 50_000_000) / 100_000_000, " GB")
    } else {
        ((bytes as u128 + 50_000_000_000) / 100_000_000_000, " TB")
    };
    let tenths: u64 = tenths as u64;
    let mut out = decimal_string(tenths / 10);
    out.append(".");
    push_decimal(&mut out, tenths % 10);
    out.append(name);
    out
}

/// How long ago something was, in the largest unit that fits.
pub open spec fn age_text(secs: u64) -> Seq<char> {
    if secs < 60 {
        "just now"@
    } else if secs < 3600 {
        digits_of((secs / 60) as nat) + "m ago"@
    } else if secs < 86_400 {
        digits_of((secs / 3600) as nat) + "h ago"@
    } else if secs < 31_536_000 {
        digits_of((secs / 86_400) as nat) + "d ago"@
    } else {
        digits_of((secs / 31_536_000) as nat) + "y ago"@
    }
}

/// "just now", "5m ago", "3h ago", "12d ago", "2y ago" for a number of seconds.
pub fn human_age(secs: u64) -> (r: String)
    ensures
        r@ == age_text(secs),
{
    if secs < 60 {
        "just now".to_owned()
    } else if secs < 3600 {
        joined(&decimal_string(secs / 60), "m ago")
    } else if secs < 86_400 {
        joined(&decimal_string(secs / 3600), "h ago")
    } else if secs < 31_536_000 {
        joined(&decimal_string(secs / 86_400), "d ago")
    } else {
        joined(&decimal_string(secs / 31_536_000), "y ago")
    }
}

/// A text with spaces before it, up to a width.
pub open spec fn right_aligned(s: Seq<char>, width: nat) -> Seq<char> {
    if s.len() < width {
        Seq::new((width - s.len()) as nat, |i: int| ' ') + s
    } else {
        s
    }
}

pub fn align_right(s: &str, width: usize) -> (r: String)
    ensures
        r@ == right_aligned(s@, width as nat),
{
    let mut out = String::new();
    let mut at: usize = chars_of(s).len();
    let ghost start = s@.len();
    proof {
        reveal_strlit("");
    }
    while at < width
        invariant
            start == s@.len(),
            start <= at,
            at > width ==> at == start,
            out@ == Seq::new((at - start) as nat, |i: int| ' '),
        decreases width - at,
    {
        out.push(' ');
        at += 1;
        assert(out@ =~= Seq::new((at - start) as nat, |i: int| ' '));
    }
    out.append(s);
    assert(out@ =~= right_aligned(s@, width as nat));
    out
}


// ---------------------------------------------------------------------- laws

/// The units of sizes and their names.
pub open spec fn is_size_unit(unit: int, name: Seq<char>) -> bool {
    ||| unit == 1_000 && name == " KB"@
    ||| unit == 1_000_000 && name == " MB"@
    ||| unit == 1_000_000_000 && name == " GB"@
    ||| unit == 1_000_000_000_000 && name == " TB"@
}

/// A size is shown in the largest unit of which it holds at least one, and what
/// is shown is off by at most half a tenth of the unit. Below a thousand bytes
/// it is exact.
pub proof fn sizes_are_shown_to_the_nearest_tenth(bytes: u64, unit: int, name: Seq<char>) -> (r: (
    nat,
    nat,
))
    requires
        is_size_unit(unit, name),
        unit <= bytes,
        unit < 1_000_000_000_000 ==> bytes < 1000 * unit,
    ensures
        r.1 < 10,
        size_text(bytes) == digits_of(r.0) + "."@ + digits_of(r.1) + name,
        -unit <= 2 * (10 * bytes - (10 * r.0 + r.1) * unit) <= unit,
        forall|few: u64| few < 1000 ==> #[trigger] size_text(few) == digits_of(few as nat) + " B"@,
{
    let tenths = (bytes + unit / 20) / (unit / 10);
    assert(10 * (tenths / 10) + tenths % 10 == tenths);
    if unit == 1_000 {
        assert(tenths == (bytes + 50) / 100);
    } else if unit == 1_000_000 {
        assert(tenths == (bytes + 50_000) / 100_000);
    } else if unit == 1_000_000_000 {
        assert(tenths == (bytes + 50_000_000) / 100_000_000);
    } else {
        assert(tenths == (bytes + 50_000_000_000) / 100_000_000_000);
    }
    ((tenths / 10) as nat, (tenths % 10) as nat)
}

/// The units of ages in seconds, their names, and where the next unit takes
/// over.
pub open spec fn is_age_unit(unit: int, name: Seq<char>, end: int) -> bool {
    ||| unit == 60 && name == "m ago"@ && end == 60 * 60
    ||| unit == 60 * 60 && name == "h ago"@ && end == 24 * 60 * 60
    ||| unit == 24 * 60 * 60 && name == "d ago"@ && end == 365 * 24 * 60 * 60
    ||| unit == 365 * 24 * 60 * 60 && name == "y ago"@ && end == u64::MAX + 1
}

/// An age is shown as the number of whole units that have passed.
pub proof fn ages_are_shown_in_whole_units(secs: u64, unit: int, name: Seq<char>, end: int) -> (n:
    nat)
    requires
        is_age_unit(unit, name, end),
        unit <= secs < end,
    ensures
        n * unit <= secs < (n + 1) * unit,
        n >= 1,
        age_text(secs) == digits_of(n) + name,
        forall|few: u64| few < 60 ==> #[trigger] age_text(few) == "just now"@,
{
    let n = (secs as int / unit) as nat;
    if unit == 60 {
        assert(n * 60 <= secs < (n + 1) * 60);
    } else if unit == 3600 {
        assert(n * 3600 <= secs < (n + 1) * 3600);
    } else if unit == 86_400 {
        assert(n * 86_400 <= secs < (n + 1) * 86_400);
    } else {
        assert(unit == 31_536_000);
        assert(n * 31_536_000 <= secs < (n + 1) * 31_536_000);
    }
    n
}

/// Alignment puts spaces before a text, just enough of them, and changes nothing
/// else.
pub proof fn alignment_pads_with_spaces(s: Seq<char>, width: nat)
    ensures
        ({
            let r = right_aligned(s, width);
            &&& r.len() == if s.len() < width {
                width
            } else {
                s.len()
            }
            &&& r.skip(r.len() - s.len()) == s
            &&& forall|i: int| 0 <= i < r.len() - s.len() ==> #[trigger] r[i] == ' '
        }),
{
    let r = right_aligned(s, width);
    assert(r.skip(r.len() - s.len()) =~= s);
}

} // verus!
