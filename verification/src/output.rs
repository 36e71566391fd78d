//! Script output keeps record boundaries separate from display formatting.

use crate::cli::OutputFormat;
use crate::content::HitView;
use crate::query::{Hit, PrintedView};
use crate::text::{char_is_control, chars_of, digits_of, is_control, push_decimal};
use crate::theme::{hex_number, hex_value};
use vstd::prelude::*;
use vstd::string::*;

verus! {

// ------------------------------------------------------------------ escapes

/// A digit of a number in base sixteen.
pub open spec fn hex_char(d: nat) -> char {
    if d < 10 {
        (('0' as u32 + d) as u32) as char
    } else {
        (('a' as u32 + d - 10) as u32) as char
    }
}

/// The digits of a number in base sixteen, without leading zeros.
pub open spec fn hex_of(n: nat) -> Seq<char>
    decreases n,
{
    if n < 16 {
        seq![hex_char(n)]
    } else {
        hex_of(n / 16).push(hex_char(n % 16))
    }
}

fn push_hex(out: &mut String, n: u32)
    ensures
        final(out)@ == old(out)@ + hex_of(n as nat),
    decreases n,
{
    if n >= 16 {
        push_hex(out, n / 16);
    }
    let d: u8 = (n % 16) as u8;
    if d < 10 {
        out.push((48u8 + d) as char);
    } else {
        out.push((87u8 + d) as char);
    }
    assert(out@ =~= old(out)@ + hex_of(n as nat));
}

/// A control character as a visible escape sequence; other characters stand for
/// themselves.
pub open spec fn visible(c: char) -> Seq<char> {
    if !is_control(c) {
        seq![c]
    } else if c == '\t' {
        seq!['\\', 't']
    } else if c == '\r' {
        seq!['\\', 'r']
    } else if c == '\n' {
        seq!['\\', 'n']
    } else {
        seq!['\\', 'u', '{'] + hex_of((c as u32) as nat) + seq!['}']
    }
}

/// A text with visible escape sequences for its control characters.
pub open spec fn escaped(s: Seq<char>) -> Seq<char>
    decreases s.len(),
{
    if s.len() == 0 {
        Seq::empty()
    } else {
        escaped(s.drop_last()) + visible(s.last())
    }
}

/// Keep Unicode text, but render terminal controls as visible escape sequences.
pub fn escape_controls(value: &str) -> (r: String)
    ensures
        r@ == escaped(value@),
{
    let s = chars_of(value);
    let mut out = String::new();
    let mut i: usize = 0;
    proof {
        reveal_strlit("");
        reveal_strlit("\\t");
        reveal_strlit("\\r");
        reveal_strlit("\\n");
        reveal_strlit("\\u{");
        reveal_strlit("}");
    }
    assert(s@.take(0) =~= Seq::empty());
    while i < s.len()
        invariant
            i <= s.len(),
            s@ == value@,
            out@ == escaped(s@.take(i as int)),
            "\\t"@ =~= seq!['\\', 't'],
            "\\r"@ =~= seq!['\\', 'r'],
            "\\n"@ =~= seq!['\\', 'n'],
            "\\u{"@ =~= seq!['\\', 'u', '{'],
            "}"@ =~= seq!['}'],
        decreases s.len() - i,
    {
        let c = s[i];
        let ghost now = s@.take(i + 1);
        assert(now.drop_last() =~= s@.take(i as int));
        let ghost before = out@;
        if !char_is_control(c) {
            out.push(c);
            assert(out@ =~= before + seq![c]);
        } else if c == '\t' {
            out.append("\\t");
        } else if c == '\r' {
            out.append("\\r");
        } else if c == '\n' {
            out.append("\\n");
        } else {
            out.append("\\u{");
            push_hex(&mut out, c as u32);
            out.append("}");
            assert(out@ =~= before + (seq!['\\', 'u', '{'] + hex_of((c as u32) as nat) + seq!['}']));
        }
        assert(out@ == escaped(now));
        i += 1;
    }
    assert(s@.take(i as int) =~= value@);
    out
}

// -------------------------------------------------------------------- JSON

/// A character inside a JSON string: quotes, backslashes and the controls below
/// the space are escaped.
pub open spec fn json_char(c: char) -> Seq<char> {
    if c == '"' {
        seq!['\\', '"']
    } else if c == '\\' {
        seq!['\\', '\\']
    } else if c as u32 == 8 {
        seq!['\\', 'b']
    } else if c == '\t' {
        seq!['\\', 't']
    } else if c == '\n' {
        seq!['\\', 'n']
    } else if c as u32 == 12 {
        seq!['\\', 'f']
    } else if c == '\r' {
        seq!['\\', 'r']
    } else if (c as u32) < 32 {
        seq!['\\', 'u', '0', '0', hex_char((c as u32 / 16) as nat), hex_char((c as u32 % 16) as nat)]
    } else {
        seq![c]
    }
}

/// The characters of a JSON string, without the quotes.
pub open spec fn json_chars(s: Seq<char>) -> Seq<char>
    decreases s.len(),
{
    if s.len() == 0 {
        Seq::empty()
    } else {
        json_chars(s.drop_last()) + json_char(s.last())
    }
}

/// A text as a JSON string.
pub open spec fn json_string(s: Seq<char>) -> Seq<char> {
    seq!['"'] + json_chars(s) + seq!['"']
}

/// `serde_json::Value::to_string` of a string value: the text in quotes, with
/// its quotes, backslashes and low control characters escaped.
#[verifier::external_body]
pub(crate) fn json_quoted(text: &str) -> (r: String)
    ensures
        r@ == json_string(text@),
{
    serde_json::Value::String(text.to_owned()).to_string()
}

// ------------------------------------------------------------------ records

/// What a record holds, after terminal controls were made visible.
pub open spec fn shown(hit: PrintedView) -> PrintedView {
    match hit {
        PrintedView::Path(path) => PrintedView::Path(escaped(path)),
        PrintedView::Line(line) => PrintedView::Line(
            HitView {
                path: escaped(line.path),
                line_number: line.line_number,
                line: escaped(line.line),
            },
        ),
        PrintedView::Semantic(path, line_start, score) => PrintedView::Semantic(
            escaped(path),
            line_start,
            score,
        ),
    }
}

/// The path of a hit.
pub open spec fn path_of(hit: PrintedView) -> Seq<char> {
    match hit {
        PrintedView::Path(path) => path,
        PrintedView::Line(line) => line.path,
        PrintedView::Semantic(path, line_start, score) => path,
    }
}

/// A hit as a JSON object, with its keys in order.
pub open spec fn json_record(hit: PrintedView, score: Seq<char>) -> Seq<char> {
    match hit {
        PrintedView::Path(path) => "{\"path\":"@ + json_string(path) + ",\"type\":\"filename\"}"@,
        PrintedView::Line(line) => "{\"line_number\":"@ + digits_of(line.line_number as nat)
            + ",\"path\":"@ + json_string(line.path) + ",\"text\":"@ + json_string(line.line)
            + ",\"type\":\"content\"}"@,
        PrintedView::Semantic(path, line_start, _bits) => "{\"line_number\":"@ + digits_of(
            line_start as nat,
        ) + ",\"path\":"@ + json_string(path) + ",\"score\":"@ + score
            + ",\"type\":\"semantic\"}"@,
    }
}

/// A hit as a line of text.
pub open spec fn text_record(hit: PrintedView, score: Seq<char>) -> Seq<char> {
    match hit {
        PrintedView::Path(path) => path,
        PrintedView::Line(line) => line.path + ":"@ + digits_of(line.line_number as nat) + ":"@
            + line.line,
        PrintedView::Semantic(path, line_start, _bits) => path + ":"@ + digits_of(line_start as nat)
            + ":"@ + score,
    }
}

/// A hit as it is written. `score` is the score of a semantic hit as the format
/// shows it.
pub open spec fn record(
    hit: PrintedView,
    format: OutputFormat,
    score: Seq<char>,
    terminal: bool,
) -> Seq<char> {
    match format {
        OutputFormat::Nul => path_of(hit) + seq!['\0'],
        OutputFormat::Json => json_record(hit, score) + "\n"@,
        OutputFormat::Text => text_record(
            if terminal {
                shown(hit)
            } else {
                hit
            },
            score,
        ) + "\n"@,
    }
}

fn push_path(out: &mut String, path: &str, format: OutputFormat, visible: bool)
    ensures
        final(out)@ == old(out)@ + (match format {
            OutputFormat::Json => json_string(path@),
            _ => if visible {
                escaped(path@)
            } else {
                path@
            },
        }),
{
    match format {
        OutputFormat::Json => out.append(&json_quoted(path)),
        _ => if visible {
            out.append(&escape_controls(path));
        } else {
            out.append(path);
        },
    }
}

/// A hit for a pipe: the exact text, whatever it holds.
pub fn hit(found: &Hit, format: OutputFormat, score: &str) -> (r: String)
    ensures
        r@ == record(found@, format, score@, false),
{
    hit_for_terminal(found, format, score, false)
}

/// Escape untrusted text only for human-readable terminal records. Pipes,
/// JSON and NUL records retain their exact machine-readable representation.
pub fn hit_for_terminal(hit: &Hit, format: OutputFormat, score: &str, terminal: bool) -> (r: String)
    ensures
        r@ == record(hit@, format, score@, terminal),
{
    let mut out = String::new();
    proof {
        reveal_strlit("");
        reveal_strlit("\n");
    }
    let visible = terminal && format == OutputFormat::Text;
    if format == OutputFormat::Nul {
        match hit {
            Hit::Path(path) => out.append(path),
            Hit::Line { path, line_number, line } => out.append(path),
            Hit::Semantic { path, line_start, score } => out.append(path),
        }
        out.push('\0');
        assert(out@ =~= record(hit@, format, score@, terminal));
        return out;
    }
    let json = format == OutputFormat::Json;
    match hit {
        Hit::Path(path) => {
            if json {
                out.append("{\"path\":");
            }
            push_path(&mut out, path, format, visible);
            if json {
                out.append(",\"type\":\"filename\"}");
            }
        },
        Hit::Line { path, line_number, line } => {
            if json {
                out.append("{\"line_number\":");
                push_decimal(&mut out, *line_number);
                out.append(",\"path\":");
                push_path(&mut out, path, format, visible);
                out.append(",\"text\":");
                push_path(&mut out, line, format, visible);
                out.append(",\"type\":\"content\"}");
            } else {
                push_path(&mut out, path, format, visible);
                out.append(":");
                push_decimal(&mut out, *line_number);
                out.append(":");
                push_path(&mut out, line, format, visible);
            }
        },
        Hit::Semantic { path, line_start, score: _bits } => {
            if json {
                out.append("{\"line_number\":");
                push_decimal(&mut out, *line_start as u64);
                out.append(",\"path\":");
                push_path(&mut out, path, format, visible);
                out.append(",\"score\":");
                out.append(score);
                out.append(",\"type\":\"semantic\"}");
            } else {
                push_path(&mut out, path, format, visible);
                out.append(":");
                push_decimal(&mut out, *line_start as u64);
                out.append(":");
                out.append(score);
            }
        },
    }
    out.append("\n");
    assert(out@ =~= record(hit@, format, score@, terminal));
    out
}

/// A selection as it is written.
pub open spec fn selected(value: Seq<char>, format: OutputFormat, terminal: bool) -> Seq<char> {
    match format {
        OutputFormat::Text => if terminal {
            escaped(value) + "\n"@
        } else {
            value + "\n"@
        },
        OutputFormat::Nul => value + seq!['\0'],
        OutputFormat::Json => "{\"type\":\"selection\",\"value\":"@ + json_string(value) + "}"@
            + "\n"@,
    }
}

pub fn selection(value: &str, format: OutputFormat) -> (r: String)
    ensures
        r@ == selected(value@, format, false),
{
    selection_for_terminal(value, format, false)
}

pub fn selection_for_terminal(value: &str, format: OutputFormat, terminal: bool) -> (r: String)
    ensures
        r@ == selected(value@, format, terminal),
{
    let mut out = String::new();
    proof {
        reveal_strlit("");
    }
    match format {
        OutputFormat::Text => {
            push_path(&mut out, value, format, terminal);
            out.append("\n");
        },
        OutputFormat::Nul => {
            out.append(value);
            out.push('\0');
        },
        OutputFormat::Json => {
            out.append("{\"type\":\"selection\",\"value\":");
            push_path(&mut out, value, format, false);
            out.append("}");
            out.append("\n");
        },
    }
    assert(out@ =~= selected(value@, format, terminal));
    out
}

// --------------------------------------------------------------------- laws

proof fn lemma_hex_visible(n: nat)
    ensures
        forall|i: int| 0 <= i < hex_of(n).len() ==> !is_control(#[trigger] hex_of(n)[i]),
    decreases n,
{
    let d = n % 16;
    assert(!is_control(hex_char(d)));
    if n >= 16 {
        lemma_hex_visible(n / 16);
        let left = hex_of(n / 16);
        assert forall|i: int| 0 <= i < hex_of(n).len() implies !is_control(
            #[trigger] hex_of(n)[i],
        ) by {
            if i < left.len() {
                assert(hex_of(n)[i] == left[i]);
            }
        }
    }
}

/// No control character reaches the terminal in an escaped text.
pub proof fn escaping_leaves_no_controls(s: Seq<char>)
    ensures
        forall|i: int| 0 <= i < escaped(s).len() ==> !is_control(#[trigger] escaped(s)[i]),
    decreases s.len(),
{
    if s.len() > 0 {
        escaping_leaves_no_controls(s.drop_last());
        lemma_hex_visible((s.last() as u32) as nat);
        let left = escaped(s.drop_last());
        let right = visible(s.last());
        assert forall|i: int| 0 <= i < escaped(s).len() implies !is_control(
            #[trigger] escaped(s)[i],
        ) by {
            if i < left.len() {
                assert(escaped(s)[i] == left[i]);
            } else {
                assert(escaped(s)[i] == right[i - left.len()]);
            }
        }
    }
}

/// A text without control characters is shown as it is.
pub proof fn escaping_keeps_plain_text(s: Seq<char>)
    requires
        forall|i: int| 0 <= i < s.len() ==> !is_control(#[trigger] s[i]),
    ensures
        escaped(s) == s,
    decreases s.len(),
{
    if s.len() > 0 {
        let rest = s.drop_last();
        assert forall|i: int| 0 <= i < rest.len() implies !is_control(#[trigger] rest[i]) by {
            assert(rest[i] == s[i]);
        }
        escaping_keeps_plain_text(rest);
        assert(escaped(s) =~= s);
    } else {
        assert(escaped(s) =~= s);
    }
}

/// Only lines of text on a terminal are escaped: what a machine reads does not
/// depend on where it is written.
pub proof fn machine_records_are_exact(
    hit: PrintedView,
    value: Seq<char>,
    format: OutputFormat,
    score: Seq<char>,
)
    requires
        format != OutputFormat::Text,
    ensures
        record(hit, format, score, true) == record(hit, format, score, false),
        selected(value, format, true) == selected(value, format, false),
{
}

proof fn lemma_json_chars_printable(s: Seq<char>)
    ensures
        forall|i: int| 0 <= i < json_chars(s).len() ==> (#[trigger] json_chars(s)[i]) as u32 >= 32,
    decreases s.len(),
{
    if s.len() > 0 {
        lemma_json_chars_printable(s.drop_last());
        let left = json_chars(s.drop_last());
        let right = json_char(s.last());
        assert forall|i: int| 0 <= i < json_chars(s).len() implies (#[trigger] json_chars(
            s,
        )[i]) as u32 >= 32 by {
            if i < left.len() {
                assert(json_chars(s)[i] == left[i]);
            } else {
                assert(json_chars(s)[i] == right[i - left.len()]);
            }
        }
    }
}

/// A JSON string holds no line break, so a record stays on its line.
pub proof fn json_strings_stay_on_a_line(s: Seq<char>)
    ensures
        forall|i: int|
            0 <= i < json_string(s).len() ==> (#[trigger] json_string(s)[i]) as u32 >= 32,
{
    lemma_json_chars_printable(s);
    let body = json_chars(s);
    assert forall|i: int| 0 <= i < json_string(s).len() implies (#[trigger] json_string(
        s,
    )[i]) as u32 >= 32 by {
        if 0 < i <= body.len() {
            assert(json_string(s)[i] == body[i - 1]);
        }
    }
}

proof fn lemma_json_front(s: Seq<char>)
    requires
        s.len() > 0,
    ensures
        json_chars(s) == json_char(s[0]) + json_chars(s.drop_first()),
    decreases s.len(),
{
    if s.len() == 1 {
        assert(s.drop_last() =~= Seq::empty());
        assert(s.drop_first() =~= Seq::empty());
        assert(json_chars(s) =~= json_char(s[0]) + json_chars(s.drop_first()));
    } else {
        lemma_json_front(s.drop_last());
        assert(s.drop_last().drop_first() =~= s.drop_first().drop_last());
        assert(json_chars(s) =~= json_char(s[0]) + json_chars(s.drop_first()));
    }
}

proof fn lemma_json_char_codes(a: char, b: char, x: Seq<char>, y: Seq<char>)
    requires
        json_char(a) + x == json_char(b) + y,
    ensures
        a == b,
        x == y,
{
    let l = json_char(a) + x;
    let r = json_char(b) + y;
    let (p, q) = (json_char(a), json_char(b));
    assert(l[0] == p[0] && r[0] == q[0]);
    if p.len() > 1 {
        assert(l[1] == p[1]);
    }
    if q.len() > 1 {
        assert(r[1] == q[1]);
    }
    if p.len() > 2 && q.len() > 2 {
        assert(l[4] == p[4] && r[4] == q[4]);
        assert(l[5] == p[5] && r[5] == q[5]);
        let (u, v) = (a as u32, b as u32);
        assert(u / 16 < 2 && v / 16 < 2);
        assert(u % 16 == v % 16);
        assert(u == v);
    }
    assert(a == b);
    assert(x =~= l.skip(p.len() as int));
    assert(y =~= r.skip(q.len() as int));
}

proof fn lemma_json_chars_injective(a: Seq<char>, b: Seq<char>)
    requires
        json_chars(a) == json_chars(b),
    ensures
        a == b,
    decreases a.len(),
{
    if a.len() > 0 {
        lemma_json_front(a);
    }
    if b.len() > 0 {
        lemma_json_front(b);
    }
    if a.len() > 0 && b.len() > 0 {
        lemma_json_char_codes(
            a[0],
            b[0],
            json_chars(a.drop_first()),
            json_chars(b.drop_first()),
        );
        lemma_json_chars_injective(a.drop_first(), b.drop_first());
        assert(a =~= seq![a[0]] + a.drop_first());
        assert(b =~= seq![b[0]] + b.drop_first());
    } else if a.len() > 0 {
        assert(json_chars(a).len() > 0);
    } else if b.len() > 0 {
        assert(json_chars(b).len() > 0);
    } else {
        assert(a =~= b);
    }
}

/// Different texts have different JSON strings: what is written can be read
/// back.
pub proof fn json_strings_are_unambiguous(a: Seq<char>, b: Seq<char>)
    requires
        json_string(a) == json_string(b),
    ensures
        a == b,
{
    let (x, y) = (json_string(a), json_string(b));
    assert(json_chars(a) =~= x.subrange(1, x.len() - 1));
    assert(json_chars(b) =~= y.subrange(1, y.len() - 1));
    lemma_json_chars_injective(a, b);
}


proof fn lemma_hex_read(n: nat)
    ensures
        hex_number(hex_of(n)) == Some(n),
    decreases n,
{
    let d = n % 16;
    assert(hex_value(hex_char(d)) == Some(d as u32));
    assert(hex_of(n).last() == hex_char(d));
    assert(16 * (n / 16) + d == n);
    if n >= 16 {
        lemma_hex_read(n / 16);
        assert(hex_of(n).drop_last() =~= hex_of(n / 16));
    } else {
        assert(hex_of(n).drop_last() =~= Seq::<char>::empty());
        assert(hex_number(Seq::<char>::empty()) == Some(0nat));
    }
}

/// The escape sequence of a control character names it: tabs and line breaks by
/// a letter, any other by its number in base sixteen.
pub proof fn escapes_name_their_characters(c: char)
    requires
        is_control(c),
    ensures
        c == '\t' ==> visible(c) == seq!['\\', 't'],
        c == '\n' ==> visible(c) == seq!['\\', 'n'],
        c == '\r' ==> visible(c) == seq!['\\', 'r'],
        c != '\t' && c != '\n' && c != '\r' ==> {
            let v = visible(c);
            &&& v.len() > 4
            &&& v.take(3) == seq!['\\', 'u', '{']
            &&& v.last() == '}'
            &&& hex_number(v.subrange(3, v.len() - 1)) == Some((c as u32) as nat)
        },
{
    if c != '\t' && c != '\n' && c != '\r' {
        let h = hex_of((c as u32) as nat);
        lemma_hex_read((c as u32) as nat);
        let v = visible(c);
        assert(v.take(3) =~= seq!['\\', 'u', '{']);
        assert(v.subrange(3, v.len() - 1) =~= h);
    }
}

proof fn lemma_found_line(path: Seq<char>, n: nat, found: Seq<char>)
    ensures
        ({
            let r = path + ":"@ + digits_of(n) + ":"@ + found + "\n"@;
            let start = path + seq![':'] + digits_of(n) + seq![':'];
            &&& path.is_prefix_of(r)
            &&& start.is_prefix_of(r)
            &&& r.skip(start.len() as int) == found.push('\n')
            &&& r.last() == '\n'
        }),
{
    reveal_strlit(":");
    reveal_strlit("\n");
    assert(":"@ =~= seq![':'] && "\n"@ =~= seq!['\n']);
    let start = path + seq![':'] + digits_of(n) + seq![':'];
    let r = start + found + seq!['\n'];
    assert(path.is_prefix_of(start));
    assert(start.is_prefix_of(r));
    assert(path.is_prefix_of(r));
    assert(r.skip(start.len() as int) =~= found.push('\n'));
}

/// A record of text gives the path first, then the number of the line where
/// there is one, and what was found last, with colons between; it ends its line.
/// A NUL record is the path and a NUL.
pub proof fn records_start_with_their_paths(hit: PrintedView, score: Seq<char>)
    ensures
        path_of(hit).is_prefix_of(record(hit, OutputFormat::Text, score, false)),
        record(hit, OutputFormat::Text, score, false).last() == '\n',
        record(hit, OutputFormat::Nul, score, false) == path_of(hit).push('\0'),
        hit matches PrintedView::Line(line) ==> {
            let r = record(hit, OutputFormat::Text, score, false);
            let start = line.path + seq![':'] + digits_of(line.line_number as nat) + seq![':'];
            start.is_prefix_of(r) && r.skip(start.len() as int) == line.line.push('\n')
        },
        hit matches PrintedView::Semantic(path, line_start, bits) ==> {
            let r = record(hit, OutputFormat::Text, score, false);
            let start = path + seq![':'] + digits_of(line_start as nat) + seq![':'];
            start.is_prefix_of(r) && r.skip(start.len() as int) == score.push('\n')
        },
{
    assert(record(hit, OutputFormat::Nul, score, false) =~= path_of(hit).push('\0'));
    match hit {
        PrintedView::Path(path) => {
            reveal_strlit("\n");
            assert(path.is_prefix_of(path + "\n"@));
        },
        PrintedView::Line(line) => {
            lemma_found_line(line.path, line.line_number as nat, line.line);
        },
        PrintedView::Semantic(path, line_start, bits) => {
            lemma_found_line(path, line_start as nat, score);
        },
    }
}

} // verus!
