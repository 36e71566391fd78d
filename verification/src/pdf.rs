//! PDF files: which they are, their limits, and a minimal one.

use crate::codec::{lemma_encode_concat, push_bytes};
use crate::paths::{base_dir, ext_among, has_ext_among, program_file, program_path};
use crate::text::{decimal_string, digits_of, joined, push_decimal, str_texts, texts};
use vstd::prelude::*;
use vstd::string::*;
use vstd::utf8::*;

verus! {

/// PDF extraction reads and parses the whole file; skip anything larger.
pub const MAX_PDF_BYTES: u64 = 20_971_520;

/// Upper bound on cached extracted texts; oldest entries are evicted.
pub const MAX_PDF_CACHE_FILES: usize = 4096;

pub fn is_pdf_path(path: &str) -> (r: bool)
    ensures
        r == ext_among(seq!["pdf"@], path@),
{
    let exts: Vec<&'static str> = vec!["pdf"];
    assert(str_texts(exts@) =~= seq!["pdf"@]);
    has_ext_among(&exts, path)
}

/// Why a file is not even read: it has to be a regular file of a bounded size.
pub fn refusal(is_file: bool, size: u64) -> (r: Option<&'static str>)
    ensures
        r is None == (is_file && size <= MAX_PDF_BYTES),
        r matches Some(e) ==> e@ == (if !is_file {
            "not a regular PDF file"@
        } else {
            "pdf larger than 20 MiB"@
        }),
{
    if !is_file {
        Some("not a regular PDF file")
    } else if size > MAX_PDF_BYTES {
        Some("pdf larger than 20 MiB")
    } else {
        None
    }
}

// --------------------------------------------------------------- minimal PDF

/// One object of a PDF file.
pub open spec fn object(number: nat, body: Seq<char>) -> Seq<char> {
    digits_of(number) + " 0 obj\n"@ + body + "\nendobj\n"@
}

/// The file up to its `n`th object.
pub open spec fn objects_upto(bodies: Seq<Seq<char>>, n: int) -> Seq<char>
    decreases n,
{
    if n <= 0 {
        "%PDF-1.4\n"@
    } else {
        objects_upto(bodies, n - 1) + object(n as nat, bodies[n - 1])
    }
}

/// A number with leading zeros, ten digits wide.
pub open spec fn ten_digits(n: nat) -> Seq<char> {
    let d = digits_of(n);
    if d.len() >= 10 {
        d
    } else {
        Seq::new((10 - d.len()) as nat, |i: int| '0') + d
    }
}

/// Where the `n`th object starts.
pub open spec fn offset_of(bodies: Seq<Seq<char>>, n: int) -> nat {
    encode_utf8(objects_upto(bodies, n - 1)).len()
}

/// The table of the first `n` objects' offsets.
pub open spec fn table(bodies: Seq<Seq<char>>, n: int) -> Seq<char>
    decreases n,
{
    if n <= 0 {
        "xref\n0 "@ + digits_of(bodies.len() + 1) + "\n0000000000 65535 f \n"@
    } else {
        table(bodies, n - 1) + ten_digits(offset_of(bodies, n)) + " 00000 n \n"@
    }
}

pub open spec fn trailer(bodies: Seq<Seq<char>>) -> Seq<char> {
    "trailer\n<< /Size "@ + digits_of(bodies.len() + 1) + " /Root 1 0 R >>\nstartxref\n"@
        + digits_of(offset_of(bodies, bodies.len() as int + 1)) + "\n%%EOF\n"@
}

/// A PDF file of the given objects: the objects, the table, the trailer.
pub open spec fn pdf_file(bodies: Seq<Seq<char>>) -> Seq<char> {
    objects_upto(bodies, bodies.len() as int) + table(bodies, bodies.len() as int) + trailer(
        bodies,
    )
}

pub open spec fn page_stream(text: Seq<char>) -> Seq<char> {
    "BT /F1 12 Tf 72 720 Td ("@ + text + ") Tj ET"@
}

/// The objects of a single page with one line of text.
pub open spec fn page_objects(text: Seq<char>, font: Seq<char>) -> Seq<Seq<char>> {
    seq![
        "<< /Type /Catalog /Pages 2 0 R >>"@,
        "<< /Type /Pages /Kids [3 0 R] /Count 1 >>"@,
        "<< /Type /Page /Parent 2 0 R /MediaBox [0 0 612 792] /Contents 4 0 R /Resources << /Font << /F1 5 0 R >> >> >>"@,
        "<< /Length "@ + digits_of(encode_utf8(page_stream(text)).len()) + " >>\nstream\n"@
            + page_stream(text) + "\nendstream"@,
        font,
    ]
}

fn push_ten_digits(out: &mut String, n: u64)
    ensures
        final(out)@ == old(out)@ + ten_digits(n as nat),
{
    let ghost before = out@;
    let digits = decimal_string(n);
    let ghost d = digits_of(n as nat);
    let mut i: usize = crate::text::chars_of(&digits).len();
    let ghost have = i as int;
    let ghost zeros = Seq::new((10 - d.len()) as nat, |i: int| '0');
    while i < 10
        invariant
            have <= i,
            have < 10 ==> i <= 10,
            have == d.len(),
            have < 10 ==> zeros.len() == 10 - have,
            forall|k: int| 0 <= k < zeros.len() ==> zeros[k] == '0',
            have < 10 ==> out@ == before + zeros.take(i - have),
            have >= 10 ==> out@ == before,
        decreases 10 - i,
    {
        out.push('0');
        i += 1;
        assert(have < 10 ==> out@ =~= before + zeros.take(i - have));
    }
    assert(have < 10 ==> zeros.take(i - have) =~= zeros);
    out.append(&digits);
    assert(out@ =~= before + ten_digits(n as nat));
}

/// A single-page PDF containing `text` in the given font.
pub fn build_pdf(text: &str, font: &str) -> (r: Vec<u8>)
    ensures
        r@ == encode_utf8(pdf_file(page_objects(text@, font@))),
{
    let mut stream = joined("BT /F1 12 Tf 72 720 Td (", text);
    stream.append(") Tj ET");
    assert(stream@ =~= page_stream(text@));
    let mut contents = "<< /Length ".to_owned();
    push_decimal(&mut contents, stream.as_str().as_bytes().len() as u64);
    contents.append(" >>\nstream\n");
    contents.append(&stream);
    contents.append("\nendstream");
    let mut bodies: Vec<String> = Vec::new();
    bodies.push("<< /Type /Catalog /Pages 2 0 R >>".to_owned());
    bodies.push("<< /Type /Pages /Kids [3 0 R] /Count 1 >>".to_owned());
    bodies.push(
        "<< /Type /Page /Parent 2 0 R /MediaBox [0 0 612 792] /Contents 4 0 R /Resources << /Font << /F1 5 0 R >> >> >>".to_owned(),
    );
    bodies.push(contents);
    bodies.push(font.to_owned());
    assert(texts(bodies@) =~= page_objects(text@, font@));
    write_file(&bodies)
}

/// The PDF file of the given objects.
fn write_file(bodies: &Vec<String>) -> (r: Vec<u8>)
    requires
        bodies@.len() < u32::MAX,
    ensures
        r@ == encode_utf8(pdf_file(texts(bodies@))),
{
    let ghost all = texts(bodies@);
    let n: usize = bodies.len();
    let mut out = "%PDF-1.4\n".to_owned();
    let mut offsets: Vec<u64> = Vec::new();
    let mut i: usize = 0;
    while i < n
        invariant
            i <= n == bodies@.len(),
            n < u32::MAX,
            all == texts(bodies@),
            out@ == objects_upto(all, i as int),
            offsets@.len() == i,
            forall|k: int| 0 <= k < i ==> offsets@[k] == offset_of(all, k + 1),
        decreases n - i,
    {
        assert(all[i as int] == bodies@[i as int]@);
        let ghost before = out@;
        let at: u64 = out.as_str().as_bytes().len() as u64;
        offsets.push(at);
        push_decimal(&mut out, i as u64 + 1);
        out.append(" 0 obj\n");
        out.append(&bodies[i]);
        out.append("\nendobj\n");
        assert(out@ =~= before + object((i + 1) as nat, all[i as int]));
        i += 1;
    }
    let xref_at: u64 = out.as_str().as_bytes().len() as u64;
    let ghost front = out@;
    out.append("xref\n0 ");
    push_decimal(&mut out, n as u64 + 1);
    out.append("\n0000000000 65535 f \n");
    let mut i: usize = 0;
    assert(out@ =~= front + table(all, 0));
    while i < n
        invariant
            i <= n == bodies@.len(),
            all == texts(bodies@),
            offsets@.len() == n,
            forall|k: int| 0 <= k < n ==> offsets@[k] == offset_of(all, k + 1),
            out@ == front + table(all, i as int),
        decreases n - i,
    {
        push_ten_digits(&mut out, offsets[i]);
        out.append(" 00000 n \n");
        i += 1;
        assert(out@ =~= front + table(all, i as int));
    }
    out.append("trailer\n<< /Size ");
    push_decimal(&mut out, n as u64 + 1);
    out.append(" /Root 1 0 R >>\nstartxref\n");
    push_decimal(&mut out, xref_at);
    out.append("\n%%EOF\n");
    assert(out@ =~= pdf_file(all));
    let mut r: Vec<u8> = Vec::new();
    push_bytes(&mut r, out.as_str().as_bytes());
    assert(r@ =~= encode_utf8(pdf_file(all)));
    r
}

/// A minimal single-page PDF containing `text`.
pub fn minimal_pdf(text: &str) -> (r: Vec<u8>)
    ensures
        r@ == encode_utf8(
            pdf_file(
                page_objects(text@, "<< /Type /Font /Subtype /Type1 /BaseFont /Helvetica >>"@),
            ),
        ),
{
    build_pdf(text, "<< /Type /Font /Subtype /Type1 /BaseFont /Helvetica >>")
}

/// The table of a PDF file tells where each object stands.
pub proof fn offsets_point_at_objects(bodies: Seq<Seq<char>>, n: int)
    requires
        1 <= n <= bodies.len(),
    ensures
        ({
            let file = encode_utf8(pdf_file(bodies));
            let at = offset_of(bodies, n) as int;
            let text = encode_utf8(object(n as nat, bodies[n - 1]));
            &&& at + text.len() <= file.len()
            &&& file.subrange(at, at + text.len()) == text
        }),
{
    let count = bodies.len() as int;
    let front = objects_upto(bodies, n - 1);
    let text = object(n as nat, bodies[n - 1]);
    let rest = lemma_objects_split(bodies, n, count);
    let tail = rest + (table(bodies, count) + trailer(bodies));
    assert(pdf_file(bodies) =~= front + (text + tail));
    lemma_encode_concat(front, text + tail);
    lemma_encode_concat(text, tail);
    let at = offset_of(bodies, n) as int;
    assert(encode_utf8(pdf_file(bodies)).subrange(at, at + encode_utf8(text).len())
        =~= encode_utf8(text));
}

proof fn lemma_objects_split(bodies: Seq<Seq<char>>, n: int, m: int) -> (rest: Seq<char>)
    requires
        0 <= n <= m,
    ensures
        objects_upto(bodies, m) == objects_upto(bodies, n) + rest,
    decreases m - n,
{
    if n == m {
        assert(objects_upto(bodies, n) + Seq::<char>::empty() =~= objects_upto(bodies, n));
        Seq::empty()
    } else {
        let before = lemma_objects_split(bodies, n, m - 1);
        let last = object(m as nat, bodies[m - 1]);
        assert(objects_upto(bodies, n) + (before + last) =~= (objects_upto(bodies, n) + before)
            + last);
        before + last
    }
}

/// Where the texts of PDF files are cached, beside the index.
pub fn default_cache_dir(set: Option<&str>, home: Option<&str>) -> (r: String)
    ensures
        r@ == program_file(base_dir(set, home, ".cache"@), "pdftext"@),
{
    program_path(set, home, ".cache", "pdftext")
}

} // verus!
