//! Text from the XML parts of DOCX and XLSX files.
//!
//! Office files are ZIP containers. Only the text-bearing XML parts are read.

use crate::codec::{bytes_at, lemma_encode_concat, lemma_encoding_len};
use crate::paths::{
    base_dir, ext_among, extension, extension_of, has_ext_among, program_file, program_path,
};
use crate::text::{
    all_digits, chars_of, decimal, ends_with, eq_ignore_ascii_case, joined, lemma_texts_push,
    parse_digits, same, same_ignoring_case, starts_with, str_texts, texts,
};
use quick_xml::Reader;
use quick_xml::events::Event::{CData, Empty, End, Eof, GeneralRef, Start, Text};
use vstd::prelude::*;
use vstd::string::*;
use vstd::utf8::*;

verus! {

/// Refuse large containers before opening or decompressing them.
pub const MAX_OFFICE_BYTES: u64 = 20_971_520;

pub const MAX_ZIP_ENTRIES: usize = 4096;

pub const MAX_XML_BYTES: u64 = 33_554_432;

pub const MAX_TEXT_BYTES: usize = 8_388_608;

pub open spec fn office_exts() -> Seq<Seq<char>> {
    seq!["docx"@, "xlsx"@]
}

pub fn is_office_path(path: &str) -> (r: bool)
    ensures
        r == ext_among(office_exts(), path@),
{
    let exts: Vec<&'static str> = vec!["docx", "xlsx"];
    assert(str_texts(exts@) =~= office_exts());
    has_ext_among(&exts, path)
}

// ----------------------------------------------------------------------- XML

#[derive(Debug, Clone, Copy, PartialEq, Eq, Structural)]
pub enum XmlKind {
    Start,
    Empty,
    End,
    Text,
    CData,
    Reference,
    Eof,
    Other,
}

/// What an XML reader comes across: the name of a tag, the bytes inside.
#[derive(Debug)]
pub struct XmlEvent {
    pub kind: XmlKind,
    pub name: Vec<u8>,
    pub body: Vec<u8>,
}

#[verifier::ext_equal]
pub struct EventView {
    pub kind: XmlKind,
    pub name: Seq<u8>,
    pub body: Seq<u8>,
}

impl View for XmlEvent {
    type V = EventView;

    open spec fn view(&self) -> EventView {
        EventView { kind: self.kind, name: self.name@, body: self.body@ }
    }
}

/// The pull parser of `quick_xml`.
#[verifier::external_type_specification]
#[verifier::external_body]
#[verifier::reject_recursive_types(R)]
pub struct ExReader<R>(quick_xml::Reader<R>);

/// What `quick_xml::Reader` finds in a document, from its start up to the end
/// of the document or the first error.
pub uninterp spec fn xml_events(xml: Seq<u8>) -> Seq<Result<EventView, Seq<char>>>;

/// What a reader has yet to find, up to the end of the document or the first
/// error.
pub uninterp spec fn xml_ahead(reader: quick_xml::Reader<&[u8]>) -> Seq<
    Result<EventView, Seq<char>>,
>;

pub open spec fn event_result(r: Result<XmlEvent, String>) -> Result<EventView, Seq<char>> {
    match r {
        Ok(e) => Ok(e@),
        Err(e) => Err(e@),
    }
}

/// Nothing follows the end of the document or an error.
pub open spec fn is_last(r: Result<EventView, Seq<char>>) -> bool {
    r is Err || r->Ok_0.kind == XmlKind::Eof
}

/// `quick_xml::Reader::from_reader` makes a reader that stands at the start of
/// the document. Something always lies ahead: at least its end.
#[verifier::external_body]
fn new_reader(xml: &[u8]) -> (r: Reader<&[u8]>)
    ensures
        xml_ahead(r) == xml_events(xml@),
        xml_ahead(r).len() > 0,
{
    Reader::from_reader(xml)
}

/// `quick_xml::Reader::read_event` hands out the next event, or the text of
/// an error, and moves past it; each event but the last consumes a part of the
/// document, so the end or an error comes at last.
#[verifier::external_body]
fn next_event(reader: &mut Reader<&[u8]>) -> (r: Result<XmlEvent, String>)
    requires
        xml_ahead(*old(reader)).len() > 0,
    ensures
        event_result(r) == xml_ahead(*old(reader))[0],
        xml_ahead(*final(reader)) == xml_ahead(*old(reader)).drop_first(),
        !is_last(event_result(r)) ==> xml_ahead(*final(reader)).len() > 0,
{
    let event = reader.read_event().map_err(|e| e.to_string())?;
    let (kind, name) = match &event {
        Start(e) => (XmlKind::Start, Some(e.name().0)),
        Empty(e) => (XmlKind::Empty, Some(e.name().0)),
        End(e) => (XmlKind::End, Some(e.name().0)),
        Text(_) => (XmlKind::Text, None),
        CData(_) => (XmlKind::CData, None),
        GeneralRef(_) => (XmlKind::Reference, None),
        Eof => (XmlKind::Eof, None),
        _ => (XmlKind::Other, None),
    };
    Ok(XmlEvent { kind, name: name.unwrap_or_default().to_vec(), body: event.to_vec() })
}

/// The text of the error for bytes that are not UTF-8.
pub uninterp spec fn decode_error(bytes: Seq<u8>) -> Seq<char>;

/// `quick_xml::encoding::Decoder::decode`, which without the crate's `encoding`
/// feature accepts exactly the valid UTF-8 sequences and hands out their text.
#[verifier::external_body]
fn decode_bytes(bytes: &[u8]) -> (r: Result<String, String>)
    ensures
        match r {
            Ok(s) => valid_utf8(bytes@) && encode_utf8(s@) == bytes@,
            Err(e) => !valid_utf8(bytes@) && e@ == decode_error(bytes@),
        },
{
    let decoder = Reader::from_reader(bytes).decoder();
    decoder.decode(bytes).map(|s| s.into_owned()).map_err(|e| e.to_string())
}

/// What `quick_xml::escape::unescape` makes of a text: the text with its
/// references replaced, or the text of an error.
pub uninterp spec fn xml_unescape(text: Seq<char>) -> Result<Seq<char>, Seq<char>>;

pub open spec fn text_result(r: Result<String, String>) -> Result<Seq<char>, Seq<char>> {
    match r {
        Ok(s) => Ok(s@),
        Err(e) => Err(e@),
    }
}

/// `quick_xml::escape::unescape`; its result has a name.
#[verifier::external_body]
fn unescape_text(text: &str) -> (r: Result<String, String>)
    ensures
        text_result(r) == xml_unescape(text@),
{
    quick_xml::escape::unescape(text).map(|s| s.into_owned()).map_err(|e| e.to_string())
}

/// A tag's attribute: its key and its value or the text of an error.
pub type Attribute = (Vec<u8>, Result<String, String>);

pub open spec fn attribute_result(a: Result<Attribute, String>) -> Result<
    (Seq<u8>, Result<Seq<char>, Seq<char>>),
    Seq<char>,
> {
    match a {
        Ok(a) => Ok((a.0@, text_result(a.1))),
        Err(e) => Err(e@),
    }
}

pub open spec fn attribute_views(v: Seq<Result<Attribute, String>>) -> Seq<
    Result<(Seq<u8>, Result<Seq<char>, Seq<char>>), Seq<char>>,
> {
    v.map_values(|a: Result<Attribute, String>| attribute_result(a))
}

/// The attributes that `quick_xml` finds in an empty tag, in order, each with
/// its normalized value.
pub uninterp spec fn tag_attributes(tag: Seq<u8>) -> Seq<
    Result<(Seq<u8>, Result<Seq<char>, Seq<char>>), Seq<char>>,
>;

/// `quick_xml::events::BytesStart::attributes` of an empty tag, with
/// `normalized_value` of each; the result has a name.
#[verifier::external_body]
fn read_attributes(tag: &[u8]) -> (r: Vec<Result<Attribute, String>>)
    ensures
        attribute_views(r@) == tag_attributes(tag@),
{
    let convert = |a: quick_xml::events::attributes::Attribute| {
        let value = a.normalized_value(Default::default());
        (a.key.as_ref().to_vec(), value.map(|v| v.into_owned()).map_err(|e| e.to_string()))
    };
    match Reader::from_reader(tag).read_event() {
        Ok(Empty(e)) =>
            e.attributes().map(|a| a.map(convert).map_err(|e| e.to_string())).collect(),
        _ => Vec::new(),
    }
}

/// The name of a tag without its namespace: what follows the last colon.
pub open spec fn local_name(name: Seq<u8>) -> Seq<u8>
    decreases name.len(),
{
    if name.len() == 0 || name.last() == 58 {
        Seq::empty()
    } else {
        local_name(name.drop_last()).push(name.last())
    }
}

proof fn lemma_local_name(name: Seq<u8>, from: int)
    requires
        0 <= from <= name.len(),
        forall|i: int| from <= i < name.len() ==> name[i] != 58,
        from > 0 ==> name[from - 1] == 58,
    ensures
        local_name(name) == name.skip(from),
    decreases name.len(),
{
    if name.len() == 0 || name.last() == 58 {
        assert(name.skip(from) =~= Seq::empty());
    } else {
        lemma_local_name(name.drop_last(), from);
        assert(name.drop_last().skip(from).push(name.last()) =~= name.skip(from));
    }
}

/// The tags that matter.
#[derive(Debug, Clone, Copy, PartialEq, Eq, Structural)]
pub enum Tag {
    Text,
    Break,
    Tab,
    Paragraph,
    Item,
    Row,
    Cell,
    Value,
    Other,
}

pub open spec fn tag_of(name: Seq<u8>) -> Tag {
    let n = local_name(name);
    if n == seq![116u8] {
        Tag::Text
    } else if n == seq![98u8, 114] || n == seq![99u8, 114] {
        Tag::Break
    } else if n == seq![116u8, 97, 98] {
        Tag::Tab
    } else if n == seq![112u8] {
        Tag::Paragraph
    } else if n == seq![115u8, 105] {
        Tag::Item
    } else if n == seq![114u8, 111, 119] {
        Tag::Row
    } else if n == seq![99u8] {
        Tag::Cell
    } else if n == seq![118u8] {
        Tag::Value
    } else {
        Tag::Other
    }
}

fn after_colon(name: &[u8]) -> (r: usize)
    ensures
        r <= name@.len(),
        local_name(name@) == name@.skip(r as int),
{
    let mut i: usize = name.len();
    while i > 0
        invariant
            i <= name@.len(),
            forall|k: int| i <= k < name@.len() ==> name@[k] != 58,
        decreases i,
    {
        if name[i - 1] == 58 {
            proof {
                lemma_local_name(name@, i as int);
            }
            return i;
        }
        i -= 1;
    }
    proof {
        lemma_local_name(name@, 0);
    }
    0
}

fn ends_with_bytes(name: &[u8], from: usize, wanted: &[u8]) -> (r: bool)
    requires
        from <= name@.len(),
    ensures
        r == (name@.skip(from as int) == wanted@),
{
    if name.len() - from != wanted.len() {
        return false;
    }
    let r = bytes_at(name, from, wanted);
    assert(name@.skip(from as int) =~= name@.subrange(from as int, from + wanted@.len()));
    r
}

pub fn tag_named(name: &[u8]) -> (r: Tag)
    ensures
        r == tag_of(name@),
{
    let from: usize = after_colon(name);
    let text: [u8; 1] = [116u8];
    let br: [u8; 2] = [98u8, 114];
    let cr: [u8; 2] = [99u8, 114];
    let tab: [u8; 3] = [116u8, 97, 98];
    let paragraph: [u8; 1] = [112u8];
    let item: [u8; 2] = [115u8, 105];
    let row: [u8; 3] = [114u8, 111, 119];
    let cell: [u8; 1] = [99u8];
    let value: [u8; 1] = [118u8];
    proof {
        assert(text@ =~= seq![116u8]);
        assert(br@ =~= seq![98u8, 114]);
        assert(cr@ =~= seq![99u8, 114]);
        assert(tab@ =~= seq![116u8, 97, 98]);
        assert(paragraph@ =~= seq![112u8]);
        assert(item@ =~= seq![115u8, 105]);
        assert(row@ =~= seq![114u8, 111, 119]);
        assert(cell@ =~= seq![99u8]);
        assert(value@ =~= seq![118u8]);
    }
    if ends_with_bytes(name, from, &text) {
        Tag::Text
    } else if ends_with_bytes(name, from, &br) || ends_with_bytes(name, from, &cr) {
        Tag::Break
    } else if ends_with_bytes(name, from, &tab) {
        Tag::Tab
    } else if ends_with_bytes(name, from, &paragraph) {
        Tag::Paragraph
    } else if ends_with_bytes(name, from, &item) {
        Tag::Item
    } else if ends_with_bytes(name, from, &row) {
        Tag::Row
    } else if ends_with_bytes(name, from, &cell) {
        Tag::Cell
    } else if ends_with_bytes(name, from, &value) {
        Tag::Value
    } else {
        Tag::Other
    }
}

/// The text of a text, CDATA or reference event.
pub open spec fn event_text(e: EventView) -> Result<Seq<char>, Seq<char>> {
    if e.kind == XmlKind::Reference {
        if valid_utf8(e.body) {
            match xml_unescape(seq!['&'] + decode_utf8(e.body) + seq![';']) {
                Ok(s) => Ok(s),
                Err(x) => Err("invalid office XML entity: "@ + x),
            }
        } else {
            Err("invalid office entity encoding: "@ + decode_error(e.body))
        }
    } else if valid_utf8(e.body) {
        Ok(decode_utf8(e.body))
    } else {
        Err("invalid office text encoding: "@ + decode_error(e.body))
    }
}

/// The text of an event, with its references replaced.
pub fn text_of(e: &XmlEvent) -> (r: Result<String, String>)
    ensures
        text_result(r) == event_text(e@),
{
    match decode_bytes(&e.body) {
        Ok(s) => {
            proof {
                encode_utf8_decode_utf8(s@);
            }
            if matches!(e.kind, XmlKind::Reference) {
                let mut name = "&".to_owned();
                name.append(&s);
                name.push(';');
                proof {
                    reveal_strlit("&");
                    assert(name@ =~= seq!['&'] + s@ + seq![';']);
                }
                match unescape_text(&name) {
                    Ok(t) => Ok(t),
                    Err(x) => Err(joined("invalid office XML entity: ", &x)),
                }
            } else {
                Ok(s)
            }
        },
        Err(x) => {
            if matches!(e.kind, XmlKind::Reference) {
                Err(joined("invalid office entity encoding: ", &x))
            } else {
                Err(joined("invalid office text encoding: ", &x))
            }
        },
    }
}

pub open spec fn is_textual(kind: XmlKind) -> bool {
    kind == XmlKind::Text || kind == XmlKind::CData || kind == XmlKind::Reference
}

/// `text` added to `out`, unless the result is too large.
pub open spec fn appended(out: Seq<char>, text: Seq<char>) -> Result<Seq<char>, Seq<char>> {
    if encode_utf8(out).len() + encode_utf8(text).len() > MAX_TEXT_BYTES {
        Err("extracted office text exceeds 8 MiB"@)
    } else {
        Ok(out + text)
    }
}

/// Adds text to what was extracted, up to a limit.
pub fn append_text(output: &mut String, text: &str) -> (r: Result<(), String>)
    ensures
        match r {
            Ok(_) => appended(old(output)@, text@) == Ok::<Seq<char>, Seq<char>>(final(output)@),
            Err(e) => appended(old(output)@, text@) == Err::<Seq<char>, Seq<char>>(e@)
                && final(output)@ == old(output)@,
        },
        r is Ok ==> encode_utf8(final(output)@).len() <= MAX_TEXT_BYTES,
{
    let have: usize = output.as_str().as_bytes().len();
    let more: usize = text.as_bytes().len();
    if have > MAX_TEXT_BYTES || more > MAX_TEXT_BYTES - have {
        return Err("extracted office text exceeds 8 MiB".to_owned());
    }
    proof {
        lemma_encode_concat(output@, text@);
    }
    output.append(text);
    Ok(())
}

// ---------------------------------------------------------------------- DOCX

/// What has been gathered from a DOCX part.
#[derive(Debug)]
pub struct DocxText {
    pub in_text: bool,
    pub output: String,
}

#[verifier::ext_equal]
pub struct DocxView {
    pub in_text: bool,
    pub output: Seq<char>,
}

impl View for DocxText {
    type V = DocxView;

    open spec fn view(&self) -> DocxView {
        DocxView { in_text: self.in_text, output: self.output@ }
    }
}

pub open spec fn docx_append(v: DocxView, text: Seq<char>) -> Result<DocxView, Seq<char>> {
    match appended(v.output, text) {
        Ok(output) => Ok(DocxView { in_text: v.in_text, output }),
        Err(e) => Err(e),
    }
}

/// What an event adds: text inside text runs, a newline for a break and at the
/// end of a paragraph, a tab for a tab.
pub open spec fn docx_step(v: DocxView, e: EventView) -> Result<DocxView, Seq<char>> {
    let tag = tag_of(e.name);
    if e.kind == XmlKind::Start && tag == Tag::Text {
        Ok(DocxView { in_text: true, output: v.output })
    } else if (e.kind == XmlKind::Start || e.kind == XmlKind::Empty) && tag == Tag::Break {
        docx_append(v, "\n"@)
    } else if (e.kind == XmlKind::Start || e.kind == XmlKind::Empty) && tag == Tag::Tab {
        docx_append(v, "\t"@)
    } else if e.kind == XmlKind::End && tag == Tag::Text {
        Ok(DocxView { in_text: false, output: v.output })
    } else if e.kind == XmlKind::End && tag == Tag::Paragraph {
        docx_append(v, "\n"@)
    } else if is_textual(e.kind) && v.in_text {
        match event_text(e) {
            Ok(t) => docx_append(v, t),
            Err(x) => Err(x),
        }
    } else {
        Ok(v)
    }
}

/// The text after all events.
pub open spec fn docx_run(
    v: DocxView,
    events: Seq<Result<EventView, Seq<char>>>,
) -> Result<Seq<char>, Seq<char>>
    decreases events.len(),
{
    if events.len() == 0 {
        Ok(v.output)
    } else {
        match events[0] {
            Err(x) => Err("invalid office XML: "@ + x),
            Ok(e) => if e.kind == XmlKind::Eof {
                Ok(v.output)
            } else {
                match docx_step(v, e) {
                    Ok(w) => docx_run(w, events.drop_first()),
                    Err(x) => Err(x),
                }
            },
        }
    }
}

impl DocxText {
    pub fn feed(&mut self, e: &XmlEvent) -> (r: Result<(), String>)
        ensures
            match r {
                Ok(_) => docx_step(old(self)@, e@) == Ok::<DocxView, Seq<char>>(final(self)@),
                Err(x) => docx_step(old(self)@, e@) == Err::<DocxView, Seq<char>>(x@),
            },
    {
        let tag = tag_named(&e.name);
        match e.kind {
            XmlKind::Start => match tag {
                Tag::Text => {
                    self.in_text = true;
                    Ok(())
                },
                Tag::Break => append_text(&mut self.output, "\n"),
                Tag::Tab => append_text(&mut self.output, "\t"),
                _ => Ok(()),
            },
            XmlKind::Empty => match tag {
                Tag::Break => append_text(&mut self.output, "\n"),
                Tag::Tab => append_text(&mut self.output, "\t"),
                _ => Ok(()),
            },
            XmlKind::End => match tag {
                Tag::Text => {
                    self.in_text = false;
                    Ok(())
                },
                Tag::Paragraph => append_text(&mut self.output, "\n"),
                _ => Ok(()),
            },
            XmlKind::Text | XmlKind::CData | XmlKind::Reference => {
                if !self.in_text {
                    return Ok(());
                }
                match text_of(e) {
                    Ok(t) => append_text(&mut self.output, &t),
                    Err(x) => Err(x),
                }
            },
            _ => Ok(()),
        }
    }
}

/// The text of a DOCX part, added to `output`.
pub fn parse_docx_xml(xml: &[u8], output: String) -> (r: Result<String, String>)
    ensures
        text_result(r) == docx_run(
            DocxView { in_text: false, output: output@ },
            xml_events(xml@),
        ),
{
    let mut state = DocxText { in_text: false, output };
    let mut reader = new_reader(xml);
    let ghost all = docx_run(state@, xml_events(xml@));
    loop
        invariant
            xml_ahead(reader).len() > 0,
            docx_run(state@, xml_ahead(reader)) == all,
            all == docx_run(DocxView { in_text: false, output: output@ }, xml_events(xml@)),
        decreases xml_ahead(reader).len(),
    {
        match next_event(&mut reader) {
            Err(x) => {
                return Err(joined("invalid office XML: ", &x));
            },
            Ok(e) => {
                if matches!(e.kind, XmlKind::Eof) {
                    return Ok(state.output);
                }
                match state.feed(&e) {
                    Ok(()) => {},
                    Err(x) => {
                        return Err(x);
                    },
                }
            },
        }
    }
}

// ------------------------------------------------------------ shared strings

/// What has been gathered from the shared strings of a workbook.
#[derive(Debug)]
pub struct SharedStrings {
    pub strings: Vec<String>,
    pub current: String,
    pub in_item: bool,
    pub in_text: bool,
}

#[verifier::ext_equal]
pub struct SharedView {
    pub strings: Seq<Seq<char>>,
    pub current: Seq<char>,
    pub in_item: bool,
    pub in_text: bool,
}

impl View for SharedStrings {
    type V = SharedView;

    open spec fn view(&self) -> SharedView {
        SharedView {
            strings: texts(self.strings@),
            current: self.current@,
            in_item: self.in_item,
            in_text: self.in_text,
        }
    }
}

/// An item's texts make up one string, whatever runs they are split in.
pub open spec fn shared_step(v: SharedView, e: EventView) -> Result<SharedView, Seq<char>> {
    let tag = tag_of(e.name);
    if e.kind == XmlKind::Start && tag == Tag::Item {
        Ok(SharedView { current: Seq::empty(), in_item: true, ..v })
    } else if e.kind == XmlKind::Start && tag == Tag::Text && v.in_item {
        Ok(SharedView { in_text: true, ..v })
    } else if e.kind == XmlKind::End && tag == Tag::Text {
        Ok(SharedView { in_text: false, ..v })
    } else if e.kind == XmlKind::End && tag == Tag::Item && v.in_item {
        Ok(
            SharedView {
                strings: v.strings.push(v.current),
                current: Seq::empty(),
                in_item: false,
                in_text: v.in_text,
            },
        )
    } else if is_textual(e.kind) && v.in_text {
        match event_text(e) {
            Ok(t) => Ok(SharedView { current: v.current + t, ..v }),
            Err(x) => Err(x),
        }
    } else {
        Ok(v)
    }
}

pub open spec fn shared_run(
    v: SharedView,
    events: Seq<Result<EventView, Seq<char>>>,
) -> Result<Seq<Seq<char>>, Seq<char>>
    decreases events.len(),
{
    if events.len() == 0 {
        Ok(v.strings)
    } else {
        match events[0] {
            Err(x) => Err("invalid shared strings XML: "@ + x),
            Ok(e) => if e.kind == XmlKind::Eof {
                Ok(v.strings)
            } else {
                match shared_step(v, e) {
                    Ok(w) => shared_run(w, events.drop_first()),
                    Err(x) => Err(x),
                }
            },
        }
    }
}

pub open spec fn no_shared() -> SharedView {
    SharedView { strings: Seq::empty(), current: Seq::empty(), in_item: false, in_text: false }
}

fn empty_string() -> (r: String)
    ensures
        r@ == Seq::<char>::empty(),
{
    let r = "".to_owned();
    proof {
        reveal_strlit("");
        assert(r@ =~= Seq::empty());
    }
    r
}

impl SharedStrings {
    pub fn new() -> (r: SharedStrings)
        ensures
            r@ == no_shared(),
    {
        let r = SharedStrings {
            strings: Vec::new(),
            current: empty_string(),
            in_item: false,
            in_text: false,
        };
        assert(texts(r.strings@) =~= Seq::empty());
        r
    }

    pub fn feed(&mut self, e: &XmlEvent) -> (r: Result<(), String>)
        ensures
            match r {
                Ok(_) => shared_step(old(self)@, e@) == Ok::<SharedView, Seq<char>>(final(self)@),
                Err(x) => shared_step(old(self)@, e@) == Err::<SharedView, Seq<char>>(x@),
            },
    {
        let tag = tag_named(&e.name);
        match e.kind {
            XmlKind::Start => match tag {
                Tag::Item => {
                    self.current = empty_string();
                    self.in_item = true;
                },
                Tag::Text => {
                    if self.in_item {
                        self.in_text = true;
                    }
                },
                _ => {},
            },
            XmlKind::End => match tag {
                Tag::Text => {
                    self.in_text = false;
                },
                Tag::Item => {
                    if self.in_item {
                        let mut done = empty_string();
                        std::mem::swap(&mut done, &mut self.current);
                        proof {
                            lemma_texts_push(self.strings@, done);
                        }
                        self.strings.push(done);
                        self.in_item = false;
                    }
                },
                _ => {},
            },
            XmlKind::Text | XmlKind::CData | XmlKind::Reference => {
                if self.in_text {
                    match text_of(e) {
                        Ok(t) => {
                            self.current.append(&t);
                        },
                        Err(x) => {
                            return Err(x);
                        },
                    }
                }
            },
            _ => {},
        }
        Ok(())
    }
}

/// The shared strings of a workbook, by their number.
pub fn parse_shared_strings(xml: &[u8]) -> (r: Result<Vec<String>, String>)
    ensures
        match r {
            Ok(v) => shared_run(no_shared(), xml_events(xml@)) == Ok::<
                Seq<Seq<char>>,
                Seq<char>,
            >(texts(v@)),
            Err(x) => shared_run(no_shared(), xml_events(xml@)) == Err::<
                Seq<Seq<char>>,
                Seq<char>,
            >(x@),
        },
{
    let mut state = SharedStrings::new();
    let mut reader = new_reader(xml);
    loop
        invariant
            xml_ahead(reader).len() > 0,
            shared_run(state@, xml_ahead(reader)) == shared_run(no_shared(), xml_events(xml@)),
        decreases xml_ahead(reader).len(),
    {
        match next_event(&mut reader) {
            Err(x) => {
                return Err(joined("invalid shared strings XML: ", &x));
            },
            Ok(e) => {
                if matches!(e.kind, XmlKind::Eof) {
                    return Ok(state.strings);
                }
                match state.feed(&e) {
                    Ok(()) => {},
                    Err(x) => {
                        return Err(x);
                    },
                }
            },
        }
    }
}

// ---------------------------------------------------------------- worksheets

/// What has been gathered from a worksheet.
#[derive(Debug)]
pub struct Sheet {
    pub output: String,
    pub row: String,
    pub cells: usize,
    pub cell_type: String,
    pub cell_value: String,
    pub in_cell: bool,
    pub in_value: bool,
    pub in_text: bool,
}

#[verifier::ext_equal]
pub struct SheetView {
    pub output: Seq<char>,
    pub row: Seq<char>,
    pub cells: nat,
    pub cell_type: Seq<char>,
    pub cell_value: Seq<char>,
    pub in_cell: bool,
    pub in_value: bool,
    pub in_text: bool,
}

impl View for Sheet {
    type V = SheetView;

    open spec fn view(&self) -> SheetView {
        SheetView {
            output: self.output@,
            row: self.row@,
            cells: self.cells as nat,
            cell_type: self.cell_type@,
            cell_value: self.cell_value@,
            in_cell: self.in_cell,
            in_value: self.in_value,
            in_text: self.in_text,
        }
    }
}

pub open spec fn new_sheet(output: Seq<char>) -> SheetView {
    SheetView {
        output,
        row: Seq::empty(),
        cells: 0,
        cell_type: Seq::empty(),
        cell_value: Seq::empty(),
        in_cell: false,
        in_value: false,
        in_text: false,
    }
}

/// The cells of a row are separated by tabs.
pub open spec fn with_cell(v: SheetView, value: Seq<char>) -> Result<SheetView, Seq<char>> {
    let before = if v.cells > 0 {
        appended(v.row, "\t"@)
    } else {
        Ok(v.row)
    };
    match before {
        Err(x) => Err(x),
        Ok(row) => match appended(row, value) {
            Err(x) => Err(x),
            Ok(row) => Ok(SheetView { row, cells: v.cells + 1, ..v }),
        },
    }
}

/// A row with cells becomes a line.
pub open spec fn with_row(v: SheetView) -> Result<SheetView, Seq<char>> {
    if v.cells == 0 {
        Ok(v)
    } else {
        match appended(v.output, v.row) {
            Err(x) => Err(x),
            Ok(output) => match appended(output, "\n"@) {
                Err(x) => Err(x),
                Ok(output) => Ok(SheetView { output, row: Seq::empty(), cells: 0, ..v }),
            },
        }
    }
}

/// The number of a shared string, as `usize` is written: digits, with an
/// optional plus sign.
pub open spec fn written_index(s: Seq<char>) -> Option<nat> {
    let digits = if s.len() > 0 && s[0] == '+' {
        s.skip(1)
    } else {
        s
    };
    if digits.len() > 0 && all_digits(digits) && decimal(digits) <= usize::MAX {
        Some(decimal(digits))
    } else {
        None
    }
}

/// What a finished cell shows: its value, or the shared string it points to.
pub open spec fn cell_text(
    kind: Seq<char>,
    value: Seq<char>,
    shared: Seq<Seq<char>>,
) -> Result<Seq<char>, Seq<char>> {
    if kind == "s"@ {
        match written_index(value) {
            None => Err("invalid XLSX shared string index"@),
            Some(i) => if i < shared.len() {
                Ok(shared[i as int])
            } else {
                Err("XLSX shared string index is out of range"@)
            },
        }
    } else {
        Ok(value)
    }
}

/// The type that a cell's attributes give it; the last one counts.
pub open spec fn cell_type(
    attributes: Seq<Result<(Seq<u8>, Result<Seq<char>, Seq<char>>), Seq<char>>>,
    n: int,
) -> Result<Seq<char>, Seq<char>>
    decreases n,
{
    if n <= 0 {
        Ok(Seq::empty())
    } else {
        match cell_type(attributes, n - 1) {
            Err(x) => Err(x),
            Ok(before) => match attributes[n - 1] {
                Err(x) => Err("invalid XLSX cell attribute: "@ + x),
                Ok((key, value)) => if tag_of(key) == Tag::Text {
                    match value {
                        Err(x) => Err("invalid XLSX cell type: "@ + x),
                        Ok(t) => Ok(t),
                    }
                } else {
                    Ok(before)
                },
            },
        }
    }
}

/// The empty tag with the same name and attributes.
pub open spec fn as_empty_tag(body: Seq<u8>) -> Seq<u8> {
    seq![60u8] + body + seq![47u8, 62]
}

pub open spec fn sheet_step(v: SheetView, e: EventView, shared: Seq<Seq<char>>) -> Result<
    SheetView,
    Seq<char>,
> {
    let tag = tag_of(e.name);
    if e.kind == XmlKind::Start {
        if tag == Tag::Row {
            Ok(SheetView { row: Seq::empty(), cells: 0, ..v })
        } else if tag == Tag::Cell {
            let attributes = tag_attributes(as_empty_tag(e.body));
            match cell_type(attributes, attributes.len() as int) {
                Err(x) => Err(x),
                Ok(t) => Ok(
                    SheetView { cell_type: t, cell_value: Seq::empty(), in_cell: true, ..v },
                ),
            }
        } else if tag == Tag::Value && v.in_cell {
            Ok(SheetView { in_value: true, ..v })
        } else if tag == Tag::Text && v.in_cell {
            Ok(SheetView { in_text: true, ..v })
        } else {
            Ok(v)
        }
    } else if e.kind == XmlKind::Empty {
        if tag == Tag::Cell {
            with_cell(v, Seq::empty())
        } else if tag == Tag::Row {
            with_row(v)
        } else {
            Ok(v)
        }
    } else if e.kind == XmlKind::End {
        if tag == Tag::Value {
            Ok(SheetView { in_value: false, ..v })
        } else if tag == Tag::Text {
            Ok(SheetView { in_text: false, ..v })
        } else if tag == Tag::Cell && v.in_cell {
            match cell_text(v.cell_type, v.cell_value, shared) {
                Err(x) => Err(x),
                Ok(t) => match with_cell(v, t) {
                    Err(x) => Err(x),
                    Ok(w) => Ok(SheetView { cell_value: Seq::empty(), in_cell: false, ..w }),
                },
            }
        } else if tag == Tag::Row {
            with_row(v)
        } else {
            Ok(v)
        }
    } else if is_textual(e.kind) && (v.in_value || v.in_text) {
        match event_text(e) {
            Ok(t) => Ok(SheetView { cell_value: v.cell_value + t, ..v }),
            Err(x) => Err(x),
        }
    } else {
        Ok(v)
    }
}

pub open spec fn sheet_run(
    v: SheetView,
    events: Seq<Result<EventView, Seq<char>>>,
    shared: Seq<Seq<char>>,
) -> Result<Seq<char>, Seq<char>>
    decreases events.len(),
{
    if events.len() == 0 {
        Ok(v.output)
    } else {
        match events[0] {
            Err(x) => Err("invalid worksheet XML: "@ + x),
            Ok(e) => if e.kind == XmlKind::Eof {
                Ok(v.output)
            } else {
                match sheet_step(v, e, shared) {
                    Ok(w) => sheet_run(w, events.drop_first(), shared),
                    Err(x) => Err(x),
                }
            },
        }
    }
}

/// The number that a cell refers to a shared string by.
pub fn parse_index(text: &str) -> (r: Option<usize>)
    ensures
        match r {
            Some(i) => written_index(text@) == Some(i as nat),
            None => written_index(text@) is None,
        },
{
    let s = chars_of(text);
    let from: usize = if s.len() > 0 && s[0] == '+' {
        1
    } else {
        0
    };
    let digits = vstd::slice::slice_subrange(s.as_slice(), from, s.len());
    assert(s@.subrange(from as int, s@.len() as int) =~= s@.skip(from as int));
    assert(s@.skip(0) =~= s@);
    match parse_digits(digits) {
        Some(n) => {
            if n <= usize::MAX as u64 {
                Some(n as usize)
            } else {
                None
            }
        },
        None => None,
    }
}

fn read_cell_type(body: &[u8]) -> (r: Result<String, String>)
    ensures
        text_result(r) == ({
            let attributes = tag_attributes(as_empty_tag(body@));
            cell_type(attributes, attributes.len() as int)
        }),
{
    let mut tag: Vec<u8> = Vec::new();
    tag.push(60);
    crate::codec::push_bytes(&mut tag, body);
    tag.push(47);
    tag.push(62);
    assert(tag@ =~= as_empty_tag(body@));
    let attributes = read_attributes(&tag);
    type_among(&attributes)
}

/// The type that a cell's attributes give it.
pub fn type_among(attributes: &Vec<Result<Attribute, String>>) -> (r: Result<String, String>)
    ensures
        text_result(r) == cell_type(attribute_views(attributes@), attributes@.len() as int),
{
    let ghost views = attribute_views(attributes@);
    let mut found = empty_string();
    let mut i: usize = 0;
    while i < attributes.len()
        invariant
            i <= attributes@.len(),
            views == attribute_views(attributes@),
            cell_type(views, i as int) == Ok::<Seq<char>, Seq<char>>(found@),
        decreases attributes@.len() - i,
    {
        assert(views[i as int] == attribute_result(attributes@[i as int]));
        match &attributes[i] {
            Err(x) => {
                proof {
                    lemma_type_fails(views, i + 1, views.len() as int);
                }
                return Err(joined("invalid XLSX cell attribute: ", x));
            },
            Ok((key, value)) => {
                if matches!(tag_named(key), Tag::Text) {
                    match value {
                        Err(x) => {
                            proof {
                                lemma_type_fails(views, i + 1, views.len() as int);
                            }
                            return Err(joined("invalid XLSX cell type: ", x));
                        },
                        Ok(t) => {
                            found = t.as_str().to_owned();
                        },
                    }
                }
            },
        }
        i += 1;
    }
    Ok(found)
}

proof fn lemma_type_fails(
    attributes: Seq<Result<(Seq<u8>, Result<Seq<char>, Seq<char>>), Seq<char>>>,
    i: int,
    n: int,
)
    requires
        i <= n,
        cell_type(attributes, i) is Err,
    ensures
        cell_type(attributes, n) == cell_type(attributes, i),
    decreases n - i,
{
    if i < n {
        lemma_type_fails(attributes, i, n - 1);
    }
}

impl Sheet {
    /// A tab stands between any two cells, so there are at most as many cells
    /// as the row can hold tabs.
    pub open spec fn wf(&self) -> bool {
        self.cells <= encode_utf8(self.row@).len() + 1 && encode_utf8(self.row@).len()
            <= MAX_TEXT_BYTES
    }

    pub fn new(output: String) -> (r: Sheet)
        ensures
            r@ == new_sheet(output@),
            r.wf(),
    {
        Sheet {
            output,
            row: empty_string(),
            cells: 0,
            cell_type: empty_string(),
            cell_value: empty_string(),
            in_cell: false,
            in_value: false,
            in_text: false,
        }
    }

    /// Adds a cell to the row.
    pub fn append_cell(&mut self, value: &str) -> (r: Result<(), String>)
        requires
            old(self).wf(),
        ensures
            match r {
                Ok(_) => with_cell(old(self)@, value@) == Ok::<SheetView, Seq<char>>(final(self)@)
                    && final(self).wf(),
                Err(x) => with_cell(old(self)@, value@) == Err::<SheetView, Seq<char>>(x@),
            },
    {
        let ghost row = self.row@;
        if self.cells > 0 {
            match append_text(&mut self.row, "\t") {
                Ok(()) => {},
                Err(x) => {
                    return Err(x);
                },
            }
            proof {
                reveal_strlit("\t");
                lemma_encode_concat(row, "\t"@);
                lemma_encoding_len("\t"@);
            }
        }
        let ghost row = self.row@;
        match append_text(&mut self.row, value) {
            Ok(()) => {},
            Err(x) => {
                return Err(x);
            },
        }
        proof {
            lemma_encode_concat(row, value@);
        }
        self.cells += 1;
        Ok(())
    }

    /// Ends the row.
    pub fn end_row(&mut self) -> (r: Result<(), String>)
        requires
            old(self).wf(),
        ensures
            match r {
                Ok(_) => with_row(old(self)@) == Ok::<SheetView, Seq<char>>(final(self)@)
                    && final(self).wf(),
                Err(x) => with_row(old(self)@) == Err::<SheetView, Seq<char>>(x@),
            },
    {
        if self.cells > 0 {
            match append_text(&mut self.output, &self.row) {
                Ok(()) => {},
                Err(x) => {
                    return Err(x);
                },
            }
            match append_text(&mut self.output, "\n") {
                Ok(()) => {},
                Err(x) => {
                    return Err(x);
                },
            }
            self.row = empty_string();
            self.cells = 0;
        }
        Ok(())
    }

    /// Ends a cell: a cell of type `s` shows the shared string of its number.
    fn end_cell(&mut self, shared: &Vec<String>) -> (r: Result<(), String>)
        requires
            old(self).wf(),
        ensures
            ({
                let v = old(self)@;
                let text = cell_text(v.cell_type, v.cell_value, texts(shared@));
                match r {
                    Ok(_) => text is Ok && with_cell(v, text->Ok_0) is Ok && final(self)@
                        == (SheetView {
                        cell_value: Seq::empty(),
                        in_cell: false,
                        ..with_cell(v, text->Ok_0)->Ok_0
                    }) && final(self).wf(),
                    Err(x) => (text is Err && x@ == text->Err_0) || (text is Ok && with_cell(
                        v,
                        text->Ok_0,
                    ) == Err::<SheetView, Seq<char>>(x@)),
                }
            }),
    {
        let mut value = empty_string();
        std::mem::swap(&mut value, &mut self.cell_value);
        let added = if same(&self.cell_type, "s") {
            match parse_index(&value) {
                None => {
                    return Err("invalid XLSX shared string index".to_owned());
                },
                Some(i) => {
                    if i >= shared.len() {
                        return Err("XLSX shared string index is out of range".to_owned());
                    }
                    assert(texts(shared@)[i as int] == shared@[i as int]@);
                    self.append_cell(&shared[i])
                },
            }
        } else {
            self.append_cell(&value)
        };
        match added {
            Ok(()) => {
                self.in_cell = false;
                Ok(())
            },
            Err(x) => Err(x),
        }
    }

    pub fn feed(&mut self, e: &XmlEvent, shared: &Vec<String>) -> (r: Result<(), String>)
        requires
            old(self).wf(),
        ensures
            match r {
                Ok(_) => sheet_step(old(self)@, e@, texts(shared@)) == Ok::<
                    SheetView,
                    Seq<char>,
                >(final(self)@) && final(self).wf(),
                Err(x) => sheet_step(old(self)@, e@, texts(shared@)) == Err::<
                    SheetView,
                    Seq<char>,
                >(x@),
            },
    {
        let tag = tag_named(&e.name);
        match e.kind {
            XmlKind::Start => match tag {
                Tag::Row => {
                    self.row = empty_string();
                    self.cells = 0;
                    Ok(())
                },
                Tag::Cell => match read_cell_type(&e.body) {
                    Ok(t) => {
                        self.cell_type = t;
                        self.cell_value = empty_string();
                        self.in_cell = true;
                        Ok(())
                    },
                    Err(x) => Err(x),
                },
                Tag::Value => {
                    if self.in_cell {
                        self.in_value = true;
                    }
                    Ok(())
                },
                Tag::Text => {
                    if self.in_cell {
                        self.in_text = true;
                    }
                    Ok(())
                },
                _ => Ok(()),
            },
            XmlKind::Empty => match tag {
                Tag::Cell => {
                    let nothing = empty_string();
                    self.append_cell(&nothing)
                },
                Tag::Row => self.end_row(),
                _ => Ok(()),
            },
            XmlKind::End => match tag {
                Tag::Value => {
                    self.in_value = false;
                    Ok(())
                },
                Tag::Text => {
                    self.in_text = false;
                    Ok(())
                },
                Tag::Cell => {
                    if self.in_cell {
                        self.end_cell(shared)
                    } else {
                        Ok(())
                    }
                },
                Tag::Row => self.end_row(),
                _ => Ok(()),
            },
            XmlKind::Text | XmlKind::CData | XmlKind::Reference => {
                if self.in_value || self.in_text {
                    match text_of(e) {
                        Ok(t) => {
                            self.cell_value.append(&t);
                            Ok(())
                        },
                        Err(x) => Err(x),
                    }
                } else {
                    Ok(())
                }
            },
            _ => Ok(()),
        }
    }
}

/// The rows of a worksheet, added to `output`.
pub fn parse_xlsx_sheet(xml: &[u8], shared: &Vec<String>, output: String) -> (r: Result<
    String,
    String,
>)
    ensures
        text_result(r) == sheet_run(new_sheet(output@), xml_events(xml@), texts(shared@)),
{
    let ghost start = new_sheet(output@);
    let mut state = Sheet::new(output);
    let mut reader = new_reader(xml);
    loop
        invariant
            xml_ahead(reader).len() > 0,
            state.wf(),
            start == new_sheet(output@),
            sheet_run(state@, xml_ahead(reader), texts(shared@)) == sheet_run(
                start,
                xml_events(xml@),
                texts(shared@),
            ),
        decreases xml_ahead(reader).len(),
    {
        match next_event(&mut reader) {
            Err(x) => {
                return Err(joined("invalid worksheet XML: ", &x));
            },
            Ok(e) => {
                if matches!(e.kind, XmlKind::Eof) {
                    return Ok(state.output);
                }
                match state.feed(&e, shared) {
                    Ok(()) => {},
                    Err(x) => {
                        return Err(x);
                    },
                }
            },
        }
    }
}

// ---------------------------------------------------------------- containers

/// An opened ZIP archive of `zip`.
#[verifier::external_type_specification]
#[verifier::external_body]
#[verifier::reject_recursive_types(R)]
pub struct ExZipArchive<R>(zip::ZipArchive<R>);

/// A position in bytes that are held in memory.
#[verifier::external_type_specification]
#[verifier::external_body]
#[verifier::reject_recursive_types(T)]
pub struct ExCursor<T>(std::io::Cursor<T>);

/// The bytes that an archive was opened over.
pub uninterp spec fn archive_data(
    archive: zip::ZipArchive<std::io::Cursor<&[u8]>>,
) -> Seq<u8>;

/// How `zip::ZipArchive::new` takes to some bytes: the number of entries, or the
/// text of an error.
pub uninterp spec fn zip_opens(data: Seq<u8>) -> Result<usize, Seq<char>>;

/// `zip::ZipArchive::new` on bytes in memory, with the number of its entries.
#[verifier::external_body]
fn open_archive(data: &[u8]) -> (r: Result<
    (zip::ZipArchive<std::io::Cursor<&[u8]>>, usize),
    String,
>)
    ensures
        match r {
            Ok((a, n)) => archive_data(a) == data@ && zip_opens(data@) == Ok::<
                usize,
                Seq<char>,
            >(n),
            Err(e) => zip_opens(data@) == Err::<usize, Seq<char>>(e@),
        },
{
    match zip::ZipArchive::new(std::io::Cursor::new(data)) {
        Ok(archive) => {
            let count = archive.len();
            Ok((archive, count))
        },
        Err(e) => Err(e.to_string()),
    }
}

/// What `zip::ZipArchive::by_index` gives for an entry: its name, or the text of
/// an error.
pub uninterp spec fn zip_name(data: Seq<u8>, i: nat) -> Result<Seq<char>, Seq<char>>;

/// `zip::ZipArchive::by_index` and the name of the entry. The archive stands for
/// the same bytes afterwards.
#[verifier::external_body]
fn entry_name(archive: &mut zip::ZipArchive<std::io::Cursor<&[u8]>>, i: usize) -> (r: Result<
    String,
    String,
>)
    ensures
        text_result(r) == zip_name(archive_data(*old(archive)), i as nat),
        archive_data(*final(archive)) == archive_data(*old(archive)),
{
    archive.by_index(i).map(|f| f.name().to_string()).map_err(|e| e.to_string())
}

/// Why an entry cannot be had: whether it is missing, and the text of the error.
#[derive(Debug)]
pub struct ZipFault {
    pub missing: bool,
    pub text: String,
}

pub open spec fn size_result(r: Result<u64, ZipFault>) -> Result<u64, (bool, Seq<char>)> {
    match r {
        Ok(n) => Ok(n),
        Err(f) => Err((f.missing, f.text@)),
    }
}

/// What `zip::ZipArchive::by_name` gives for an entry: its declared size, or
/// whether it is missing and the text of the error.
pub uninterp spec fn zip_size(data: Seq<u8>, name: Seq<char>) -> Result<u64, (bool, Seq<char>)>;

/// `zip::ZipArchive::by_name` and the declared size of the entry. The archive
/// stands for the same bytes afterwards.
#[verifier::external_body]
fn entry_size(archive: &mut zip::ZipArchive<std::io::Cursor<&[u8]>>, name: &str) -> (r: Result<
    u64,
    ZipFault,
>)
    ensures
        size_result(r) == zip_size(archive_data(*old(archive)), name@),
        archive_data(*final(archive)) == archive_data(*old(archive)),
{
    match archive.by_name(name) {
        Ok(file) => Ok(file.size()),
        Err(e) => Err(ZipFault {
            missing: matches!(e, zip::result::ZipError::FileNotFound),
            text: e.to_string(),
        }),
    }
}

/// What reading at most `max` bytes of an entry gives: the bytes, or the text of
/// an error.
pub uninterp spec fn zip_body(data: Seq<u8>, name: Seq<char>, max: u64) -> Result<
    Seq<u8>,
    Seq<char>,
>;

pub open spec fn bytes_result(r: Result<Vec<u8>, String>) -> Result<Seq<u8>, Seq<char>> {
    match r {
        Ok(v) => Ok(v@),
        Err(e) => Err(e@),
    }
}

/// `zip::ZipArchive::by_name` and the entry's bytes, unpacked, up to `max` of
/// them. The archive stands for the same bytes afterwards.
#[verifier::external_body]
fn entry_body(
    archive: &mut zip::ZipArchive<std::io::Cursor<&[u8]>>,
    name: &str,
    max: u64,
) -> (r: Result<Vec<u8>, String>)
    ensures
        bytes_result(r) == zip_body(archive_data(*old(archive)), name@, max),
        r matches Ok(v) ==> v@.len() <= max,
        archive_data(*final(archive)) == archive_data(*old(archive)),
{
    let file = archive.by_name(name).map_err(|e| e.to_string())?;
    let mut bytes = Vec::new();
    match std::io::Read::read_to_end(&mut std::io::Read::take(file, max), &mut bytes) {
        Ok(_) => Ok(bytes),
        Err(e) => Err(e.to_string()),
    }
}

/// The bytes of an XML part, within the budget.
pub open spec fn part_bytes(data: Seq<u8>, name: Seq<char>, budget: u64) -> Result<
    Seq<u8>,
    Seq<char>,
> {
    let limit = if budget < MAX_XML_BYTES {
        budget
    } else {
        MAX_XML_BYTES
    };
    match zip_size(data, name) {
        Err((_, x)) => Err("reading office ZIP entry "@ + name + ": "@ + x),
        Ok(size) => if size > limit {
            Err("office XML entries exceed the size limit at "@ + name)
        } else {
            match zip_body(data, name, (limit + 1) as u64) {
                Err(x) => Err("reading office XML "@ + name + ": "@ + x),
                Ok(bytes) => if bytes.len() > limit {
                    Err("office XML entries exceed the size limit at "@ + name)
                } else {
                    Ok(bytes)
                },
            }
        },
    }
}

/// Reads an XML part within the budget that all parts share, and takes its size
/// off the budget.
fn read_entry(
    archive: &mut zip::ZipArchive<std::io::Cursor<&[u8]>>,
    name: &str,
    budget: &mut u64,
) -> (r: Result<Vec<u8>, String>)
    requires
        *old(budget) <= MAX_XML_BYTES,
    ensures
        bytes_result(r) == part_bytes(archive_data(*old(archive)), name@, *old(budget)),
        archive_data(*final(archive)) == archive_data(*old(archive)),
        r matches Ok(v) ==> v@.len() + *final(budget) == *old(budget),
{
    let limit: u64 = if *budget < MAX_XML_BYTES {
        *budget
    } else {
        MAX_XML_BYTES
    };
    match entry_size(archive, name) {
        Err(f) => {
            let mut text = joined("reading office ZIP entry ", name);
            text.append(": ");
            text.append(&f.text);
            Err(text)
        },
        Ok(size) => {
            if size > limit {
                return Err(joined("office XML entries exceed the size limit at ", name));
            }
            match entry_body(archive, name, limit + 1) {
                Err(x) => {
                    let mut text = joined("reading office XML ", name);
                    text.append(": ");
                    text.append(&x);
                    Err(text)
                },
                Ok(bytes) => {
                    if bytes.len() as u64 > limit {
                        return Err(joined("office XML entries exceed the size limit at ", name));
                    }
                    *budget = *budget - bytes.len() as u64;
                    Ok(bytes)
                },
            }
        },
    }
}

/// The names of the first `n` entries.
pub open spec fn zip_names(data: Seq<u8>, n: nat) -> Result<Seq<Seq<char>>, Seq<char>>
    decreases n,
{
    if n == 0 {
        Ok(Seq::empty())
    } else {
        match zip_names(data, (n - 1) as nat) {
            Err(x) => Err(x),
            Ok(names) => match zip_name(data, (n - 1) as nat) {
                Err(x) => Err("reading office ZIP entry: "@ + x),
                Ok(name) => Ok(names.push(name)),
            },
        }
    }
}

proof fn lemma_names_fail(data: Seq<u8>, i: nat, n: nat)
    requires
        i <= n,
        zip_names(data, i) is Err,
    ensures
        zip_names(data, n) == zip_names(data, i),
    decreases n - i,
{
    if i < n {
        lemma_names_fail(data, i, (n - 1) as nat);
    }
}

fn read_names(archive: &mut zip::ZipArchive<std::io::Cursor<&[u8]>>, n: usize) -> (r: Result<
    Vec<String>,
    String,
>)
    ensures
        match r {
            Ok(v) => zip_names(archive_data(*old(archive)), n as nat) == Ok::<
                Seq<Seq<char>>,
                Seq<char>,
            >(texts(v@)),
            Err(x) => zip_names(archive_data(*old(archive)), n as nat) == Err::<
                Seq<Seq<char>>,
                Seq<char>,
            >(x@),
        },
        archive_data(*final(archive)) == archive_data(*old(archive)),
{
    let ghost data = archive_data(*archive);
    let mut names: Vec<String> = Vec::new();
    let mut i: usize = 0;
    assert(texts(names@) =~= Seq::empty());
    while i < n
        invariant
            i <= n,
            data == archive_data(*old(archive)),
            archive_data(*archive) == data,
            zip_names(data, i as nat) == Ok::<Seq<Seq<char>>, Seq<char>>(texts(names@)),
        decreases n - i,
    {
        match entry_name(archive, i) {
            Ok(name) => {
                proof {
                    lemma_texts_push(names@, name);
                }
                names.push(name);
            },
            Err(x) => {
                proof {
                    assert(zip_names(data, (i + 1) as nat) is Err);
                    lemma_names_fail(data, (i + 1) as nat, n as nat);
                }
                return Err(joined("reading office ZIP entry: ", &x));
            },
        }
        i += 1;
    }
    Ok(names)
}

/// The parts of a DOCX file that hold text.
pub open spec fn is_docx_part(name: Seq<char>) -> bool {
    ||| name == "word/document.xml"@
    ||| ("word/header"@.is_prefix_of(name) || "word/footer"@.is_prefix_of(name))
        && ".xml"@.is_suffix_of(name)
    ||| name == "word/footnotes.xml"@
    ||| name == "word/endnotes.xml"@
}

/// The worksheets of an XLSX file.
pub open spec fn is_sheet(name: Seq<char>) -> bool {
    "xl/worksheets/"@.is_prefix_of(name) && ".xml"@.is_suffix_of(name)
}

fn names_docx_part(name: &str) -> (r: bool)
    ensures
        r == is_docx_part(name@),
{
    let s = chars_of(name);
    same(name, "word/document.xml") || ((starts_with(&s, "word/header") || starts_with(
        &s,
        "word/footer",
    )) && ends_with(&s, ".xml")) || same(name, "word/footnotes.xml") || same(
        name,
        "word/endnotes.xml",
    )
}

fn names_sheet(name: &str) -> (r: bool)
    ensures
        r == is_sheet(name@),
{
    let s = chars_of(name);
    starts_with(&s, "xl/worksheets/") && ends_with(&s, ".xml")
}

/// The text of the DOCX parts from the `i`th entry on.
pub open spec fn docx_parts(
    data: Seq<u8>,
    names: Seq<Seq<char>>,
    i: int,
    budget: u64,
    output: Seq<char>,
) -> Result<Seq<char>, Seq<char>>
    decreases names.len() - i,
{
    if i < 0 || i >= names.len() {
        Ok(output)
    } else if !is_docx_part(names[i]) {
        docx_parts(data, names, i + 1, budget, output)
    } else {
        match part_bytes(data, names[i], budget) {
            Err(x) => Err(x),
            Ok(xml) => match docx_run(DocxView { in_text: false, output }, xml_events(xml)) {
                Err(x) => Err(x),
                Ok(out) => docx_parts(data, names, i + 1, (budget - xml.len()) as u64, out),
            },
        }
    }
}

pub open spec fn docx_text(data: Seq<u8>, names: Seq<Seq<char>>) -> Result<Seq<char>, Seq<char>> {
    if !names.contains("word/document.xml"@) {
        Err("DOCX has no word/document.xml"@)
    } else {
        docx_parts(data, names, 0, MAX_XML_BYTES, Seq::empty())
    }
}

fn extract_docx(
    archive: &mut zip::ZipArchive<std::io::Cursor<&[u8]>>,
    names: &Vec<String>,
) -> (r: Result<String, String>)
    ensures
        text_result(r) == docx_text(archive_data(*old(archive)), texts(names@)),
{
    let ghost data = archive_data(*archive);
    let ghost all = texts(names@);
    let mut found: bool = false;
    let mut i: usize = 0;
    while i < names.len()
        invariant
            i <= names@.len(),
            all == texts(names@),
            found == all.take(i as int).contains("word/document.xml"@),
        decreases names@.len() - i,
    {
        assert(all[i as int] == names@[i as int]@);
        let here = same(&names[i], "word/document.xml");
        proof {
            let wanted = "word/document.xml"@;
            let before = all.take(i as int);
            let after = all.take(i + 1);
            assert(after =~= before.push(all[i as int]));
            if found {
                let k = choose|k: int| 0 <= k < before.len() && before[k] == wanted;
                assert(after[k] == wanted);
            }
            if here {
                assert(after[i as int] == wanted);
            }
            if !found && !here && after.contains(wanted) {
                let k = choose|k: int| 0 <= k < after.len() && after[k] == wanted;
                assert(k < i ==> before[k] == wanted);
            }
        }
        found = found || here;
        i += 1;
    }
    assert(all.take(i as int) =~= all);
    if !found {
        return Err("DOCX has no word/document.xml".to_owned());
    }
    let mut output = empty_string();
    let mut budget: u64 = MAX_XML_BYTES;
    let mut i: usize = 0;
    while i < names.len()
        invariant
            i <= names@.len(),
            all == texts(names@),
            data == archive_data(*old(archive)),
            archive_data(*archive) == data,
            budget <= MAX_XML_BYTES,
            all.contains("word/document.xml"@),
            docx_parts(data, all, i as int, budget, output@) == docx_parts(
                data,
                all,
                0,
                MAX_XML_BYTES,
                Seq::empty(),
            ),
        decreases names@.len() - i,
    {
        assert(all[i as int] == names@[i as int]@);
        if names_docx_part(&names[i]) {
            match read_entry(archive, &names[i], &mut budget) {
                Err(x) => {
                    return Err(x);
                },
                Ok(xml) => {
                    match parse_docx_xml(&xml, output) {
                        Err(x) => {
                            return Err(x);
                        },
                        Ok(out) => {
                            output = out;
                        },
                    }
                },
            }
        }
        i += 1;
    }
    Ok(output)
}

/// The text of the worksheets from the `i`th entry on.
pub open spec fn xlsx_sheets(
    data: Seq<u8>,
    names: Seq<Seq<char>>,
    shared: Seq<Seq<char>>,
    i: int,
    budget: u64,
    output: Seq<char>,
) -> Result<Seq<char>, Seq<char>>
    decreases names.len() - i,
{
    if i < 0 || i >= names.len() {
        Ok(output)
    } else if !is_sheet(names[i]) {
        xlsx_sheets(data, names, shared, i + 1, budget, output)
    } else {
        match part_bytes(data, names[i], budget) {
            Err(x) => Err(x),
            Ok(xml) => match sheet_run(new_sheet(output), xml_events(xml), shared) {
                Err(x) => Err(x),
                Ok(out) => xlsx_sheets(
                    data,
                    names,
                    shared,
                    i + 1,
                    (budget - xml.len()) as u64,
                    out,
                ),
            },
        }
    }
}

pub open spec fn shared_name() -> Seq<char> {
    "xl/sharedStrings.xml"@
}

pub open spec fn has_sheet(names: Seq<Seq<char>>) -> bool {
    exists|i: int| 0 <= i < names.len() && is_sheet(#[trigger] names[i])
}

pub open spec fn xlsx_text(data: Seq<u8>, names: Seq<Seq<char>>) -> Result<Seq<char>, Seq<char>> {
    if !has_sheet(names) {
        Err("XLSX has no worksheets"@)
    } else if zip_size(data, shared_name()) matches Err((missing, _)) && missing {
        xlsx_sheets(data, names, Seq::empty(), 0, MAX_XML_BYTES, Seq::empty())
    } else {
        match part_bytes(data, shared_name(), MAX_XML_BYTES) {
            Err(x) => Err(x),
            Ok(xml) => match shared_run(no_shared(), xml_events(xml)) {
                Err(x) => Err(x),
                Ok(shared) => xlsx_sheets(
                    data,
                    names,
                    shared,
                    0,
                    (MAX_XML_BYTES - xml.len()) as u64,
                    Seq::empty(),
                ),
            },
        }
    }
}

/// Reads the shared strings; a workbook need not have any.
fn read_shared(archive: &mut zip::ZipArchive<std::io::Cursor<&[u8]>>, budget: &mut u64) -> (r:
    Result<Vec<String>, String>)
    requires
        *old(budget) == MAX_XML_BYTES,
    ensures
        archive_data(*final(archive)) == archive_data(*old(archive)),
        ({
            let data = archive_data(*old(archive));
            let size = zip_size(data, shared_name());
            if size is Err && size->Err_0.0 {
                r is Ok && texts(r->Ok_0@) == Seq::<Seq<char>>::empty() && *final(budget)
                    == MAX_XML_BYTES
            } else {
                match part_bytes(data, shared_name(), MAX_XML_BYTES) {
                    Err(x) => r is Err && r->Err_0@ == x,
                    Ok(xml) => match shared_run(no_shared(), xml_events(xml)) {
                        Err(x) => r is Err && r->Err_0@ == x,
                        Ok(shared) => r is Ok && texts(r->Ok_0@) == shared && *final(budget)
                            + xml.len() == MAX_XML_BYTES,
                    },
                }
            }
        }),
{
    match entry_size(archive, "xl/sharedStrings.xml") {
        Err(f) => {
            if f.missing {
                let none: Vec<String> = Vec::new();
                assert(texts(none@) =~= Seq::empty());
                return Ok(none);
            }
        },
        Ok(_) => {},
    }
    match read_entry(archive, "xl/sharedStrings.xml", budget) {
        Err(x) => Err(x),
        Ok(xml) => parse_shared_strings(&xml),
    }
}

fn extract_xlsx(
    archive: &mut zip::ZipArchive<std::io::Cursor<&[u8]>>,
    names: &Vec<String>,
) -> (r: Result<String, String>)
    ensures
        text_result(r) == xlsx_text(archive_data(*old(archive)), texts(names@)),
{
    let ghost data = archive_data(*archive);
    let ghost all = texts(names@);
    let mut found: bool = false;
    let mut i: usize = 0;
    while i < names.len()
        invariant
            i <= names@.len(),
            all == texts(names@),
            found ==> has_sheet(all),
            !found ==> forall|k: int| 0 <= k < i ==> !is_sheet(#[trigger] all[k]),
        decreases names@.len() - i,
    {
        assert(all[i as int] == names@[i as int]@);
        if names_sheet(&names[i]) {
            found = true;
        }
        i += 1;
    }
    if !found {
        return Err("XLSX has no worksheets".to_owned());
    }
    let mut budget: u64 = MAX_XML_BYTES;
    let shared = match read_shared(archive, &mut budget) {
        Err(x) => {
            return Err(x);
        },
        Ok(shared) => shared,
    };
    let ghost strings = texts(shared@);
    let ghost whole = xlsx_sheets(data, all, strings, 0, budget, Seq::empty());
    assert(whole == xlsx_text(data, all));
    let mut output = empty_string();
    let mut i: usize = 0;
    while i < names.len()
        invariant
            i <= names@.len(),
            all == texts(names@),
            strings == texts(shared@),
            data == archive_data(*old(archive)),
            archive_data(*archive) == data,
            budget <= MAX_XML_BYTES,
            whole == xlsx_text(data, all),
            xlsx_sheets(data, all, strings, i as int, budget, output@) == whole,
        decreases names@.len() - i,
    {
        assert(all[i as int] == names@[i as int]@);
        if names_sheet(&names[i]) {
            match read_entry(archive, &names[i], &mut budget) {
                Err(x) => {
                    return Err(x);
                },
                Ok(xml) => {
                    match parse_xlsx_sheet(&xml, &shared, output) {
                        Err(x) => {
                            return Err(x);
                        },
                        Ok(out) => {
                            output = out;
                        },
                    }
                },
            }
        }
        i += 1;
    }
    Ok(output)
}

pub open spec fn is_docx(path: Seq<char>) -> bool {
    extension(path) matches Some(e) && same_ignoring_case(e, "docx"@)
}

/// The text of an Office file.
pub open spec fn office_text(path: Seq<char>, data: Seq<u8>) -> Result<Seq<char>, Seq<char>> {
    match zip_opens(data) {
        Err(x) => Err("invalid office ZIP: "@ + x),
        Ok(n) => if n > MAX_ZIP_ENTRIES {
            Err("office ZIP has too many entries (max 4096)"@)
        } else {
            match zip_names(data, n as nat) {
                Err(x) => Err(x),
                Ok(names) => if is_docx(path) {
                    docx_text(data, names)
                } else {
                    xlsx_text(data, names)
                },
            }
        },
    }
}

/// Extracts the text of an Office file from its bytes; a path that does not end
/// in `.docx` is taken for a workbook.
pub fn extract(path: &str, data: &[u8]) -> (r: Result<String, String>)
    ensures
        text_result(r) == office_text(path@, data@),
{
    match open_archive(data) {
        Err(x) => Err(joined("invalid office ZIP: ", &x)),
        Ok((archive, n)) => {
            if n > MAX_ZIP_ENTRIES {
                return Err("office ZIP has too many entries (max 4096)".to_owned());
            }
            let mut archive = archive;
            match read_names(&mut archive, n) {
                Err(x) => Err(x),
                Ok(names) => {
                    let docx = match extension_of(path) {
                        Some(e) => eq_ignore_ascii_case(&e, "docx"),
                        None => false,
                    };
                    if docx {
                        extract_docx(&mut archive, &names)
                    } else {
                        extract_xlsx(&mut archive, &names)
                    }
                },
            }
        },
    }
}

/// The refusal of a container that is too large to open.
pub fn size_error(size: u64) -> (r: Option<&'static str>)
    ensures
        r is Some == (size > MAX_OFFICE_BYTES),
        r matches Some(e) ==> e@ == "office file larger than 20 MiB"@,
{
    if size > MAX_OFFICE_BYTES {
        Some("office file larger than 20 MiB")
    } else {
        None
    }
}

pub open spec fn is_bounded(text: Seq<char>) -> bool {
    encode_utf8(text).len() <= MAX_TEXT_BYTES
}

proof fn lemma_appended_bounded(out: Seq<char>, text: Seq<char>)
    ensures
        appended(out, text) matches Ok(r) ==> is_bounded(r),
{
    lemma_encode_concat(out, text);
}

proof fn lemma_docx_bounded(v: DocxView, events: Seq<Result<EventView, Seq<char>>>)
    requires
        is_bounded(v.output),
    ensures
        docx_run(v, events) matches Ok(r) ==> is_bounded(r),
    decreases events.len(),
{
    if events.len() > 0 && events[0] is Ok && events[0]->Ok_0.kind != XmlKind::Eof {
        let e = events[0]->Ok_0;
        lemma_appended_bounded(v.output, "\n"@);
        lemma_appended_bounded(v.output, "\t"@);
        if event_text(e) is Ok {
            lemma_appended_bounded(v.output, event_text(e)->Ok_0);
        }
        if docx_step(v, e) is Ok {
            lemma_docx_bounded(docx_step(v, e)->Ok_0, events.drop_first());
        }
    }
}

proof fn lemma_row_bounded(v: SheetView)
    requires
        is_bounded(v.output),
    ensures
        with_row(v) matches Ok(w) ==> is_bounded(w.output),
{
    lemma_appended_bounded(v.output, v.row);
    if appended(v.output, v.row) is Ok {
        lemma_appended_bounded(appended(v.output, v.row)->Ok_0, "\n"@);
    }
}

proof fn lemma_sheet_bounded(
    v: SheetView,
    events: Seq<Result<EventView, Seq<char>>>,
    shared: Seq<Seq<char>>,
)
    requires
        is_bounded(v.output),
    ensures
        sheet_run(v, events, shared) matches Ok(r) ==> is_bounded(r),
    decreases events.len(),
{
    if events.len() > 0 && events[0] is Ok && events[0]->Ok_0.kind != XmlKind::Eof {
        let e = events[0]->Ok_0;
        lemma_row_bounded(v);
        if sheet_step(v, e, shared) is Ok {
            lemma_sheet_bounded(sheet_step(v, e, shared)->Ok_0, events.drop_first(), shared);
        }
    }
}

proof fn lemma_docx_parts_bounded(
    data: Seq<u8>,
    names: Seq<Seq<char>>,
    i: int,
    budget: u64,
    output: Seq<char>,
)
    requires
        is_bounded(output),
    ensures
        docx_parts(data, names, i, budget, output) matches Ok(r) ==> is_bounded(r),
    decreases names.len() - i,
{
    if 0 <= i < names.len() {
        if !is_docx_part(names[i]) {
            lemma_docx_parts_bounded(data, names, i + 1, budget, output);
        } else if part_bytes(data, names[i], budget) is Ok {
            let xml = part_bytes(data, names[i], budget)->Ok_0;
            let start = DocxView { in_text: false, output };
            lemma_docx_bounded(start, xml_events(xml));
            if docx_run(start, xml_events(xml)) is Ok {
                lemma_docx_parts_bounded(
                    data,
                    names,
                    i + 1,
                    (budget - xml.len()) as u64,
                    docx_run(start, xml_events(xml))->Ok_0,
                );
            }
        }
    }
}

proof fn lemma_sheets_bounded(
    data: Seq<u8>,
    names: Seq<Seq<char>>,
    shared: Seq<Seq<char>>,
    i: int,
    budget: u64,
    output: Seq<char>,
)
    requires
        is_bounded(output),
    ensures
        xlsx_sheets(data, names, shared, i, budget, output) matches Ok(r) ==> is_bounded(r),
    decreases names.len() - i,
{
    if 0 <= i < names.len() {
        if !is_sheet(names[i]) {
            lemma_sheets_bounded(data, names, shared, i + 1, budget, output);
        } else if part_bytes(data, names[i], budget) is Ok {
            let xml = part_bytes(data, names[i], budget)->Ok_0;
            lemma_sheet_bounded(new_sheet(output), xml_events(xml), shared);
            let run = sheet_run(new_sheet(output), xml_events(xml), shared);
            if run is Ok {
                lemma_sheets_bounded(
                    data,
                    names,
                    shared,
                    i + 1,
                    (budget - xml.len()) as u64,
                    run->Ok_0,
                );
            }
        }
    }
}

/// However a container is made, no more than a bounded text comes out of it.
pub proof fn extracted_text_is_bounded(path: Seq<char>, data: Seq<u8>)
    ensures
        office_text(path, data) matches Ok(text) ==> is_bounded(text),
{
    if zip_opens(data) is Ok && zip_names(data, zip_opens(data)->Ok_0 as nat) is Ok {
        let names = zip_names(data, zip_opens(data)->Ok_0 as nat)->Ok_0;
        let none = Seq::<char>::empty();
        assert(is_bounded(none));
        lemma_docx_parts_bounded(data, names, 0, MAX_XML_BYTES, none);
        lemma_sheets_bounded(data, names, Seq::empty(), 0, MAX_XML_BYTES, none);
        if part_bytes(data, shared_name(), MAX_XML_BYTES) is Ok {
            let xml = part_bytes(data, shared_name(), MAX_XML_BYTES)->Ok_0;
            if shared_run(no_shared(), xml_events(xml)) is Ok {
                lemma_sheets_bounded(
                    data,
                    names,
                    shared_run(no_shared(), xml_events(xml))->Ok_0,
                    0,
                    (MAX_XML_BYTES - xml.len()) as u64,
                    none,
                );
            }
        }
    }
}

/// Where the texts of Office files are cached, beside the index.
pub fn default_cache_dir(set: Option<&str>, home: Option<&str>) -> (r: String)
    ensures
        r@ == program_file(base_dir(set, home, ".cache"@), "officetext"@),
{
    program_path(set, home, ".cache", "officetext")
}

/// The cache of Office texts that belongs to a cache of PDF texts: its sibling,
/// or else the usual one.
pub fn cache_dir_for(pdf_cache: &str, usual: &str) -> (r: String)
    ensures
        r@ == (match crate::paths::parent(pdf_cache@) {
            Some(dir) => crate::paths::join_path(dir, "officetext"@),
            None => usual@,
        }),
{
    match crate::paths::parent_of(pdf_cache) {
        Some(dir) => crate::paths::joined_path(&dir, "officetext"),
        None => usual.to_owned(),
    }
}

// ------------------------------------------------------------------ tag laws

/// A tag of this name, in a namespace or in none.
pub open spec fn is_called(name: Seq<u8>, local: Seq<u8>) -> bool {
    let from = name.len() - local.len();
    &&& from >= 0
    &&& name.skip(from) == local
    &&& from > 0 ==> name[from - 1] == 58
}

proof fn lemma_called(name: Seq<u8>, local: Seq<u8>)
    requires
        forall|k: int| 0 <= k < local.len() ==> (#[trigger] local[k]) != 58,
    ensures
        is_called(name, local) == (local_name(name) == local),
{
    lemma_local_split(name);
    let short = local_name(name);
    let from = name.len() - local.len();
    if is_called(name, local) {
        assert forall|i: int| from <= i < name.len() implies name[i] != 58 by {
            assert(name.skip(from)[i - from] == local[i - from]);
        }
        lemma_local_name(name, from);
    }
}

proof fn lemma_local_split(name: Seq<u8>)
    ensures
        ({
            let short = local_name(name);
            let from = name.len() - short.len();
            &&& from >= 0
            &&& name.skip(from) == short
            &&& from > 0 ==> name[from - 1] == 58
        }),
    decreases name.len(),
{
    if name.len() == 0 || name.last() == 58 {
        assert(name.skip(name.len() as int) =~= Seq::empty());
    } else {
        let front = name.drop_last();
        lemma_local_split(front);
        let short = local_name(name);
        let from = name.len() - short.len();
        assert(name.skip(from) =~= front.skip(from).push(name.last()));
    }
}

/// Start and end of a tag, by its name.
pub open spec fn opens(e: Result<EventView, Seq<char>>, local: Seq<u8>) -> bool {
    e matches Ok(x) && x.kind == XmlKind::Start && is_called(x.name, local)
}

pub open spec fn closes(e: Result<EventView, Seq<char>>, local: Seq<u8>) -> bool {
    e matches Ok(x) && x.kind == XmlKind::End && is_called(x.name, local)
}

/// A tag that stands alone, or the start of one.
pub open spec fn stands(e: Result<EventView, Seq<char>>, local: Seq<u8>) -> bool {
    e matches Ok(x) && (x.kind == XmlKind::Start || x.kind == XmlKind::Empty) && is_called(
        x.name,
        local,
    )
}

/// The tags that matter are known by their local names: `t`, `br`, `cr`, `tab`,
/// `p`, `si`, `row`, `c` and `v`.
pub proof fn tags_go_by_local_names(name: Seq<u8>)
    ensures
        is_called(name, seq![116u8]) == (tag_of(name) == Tag::Text),
        (is_called(name, seq![98u8, 114]) || is_called(name, seq![99u8, 114])) == (tag_of(name)
            == Tag::Break),
        is_called(name, seq![116u8, 97, 98]) == (tag_of(name) == Tag::Tab),
        is_called(name, seq![112u8]) == (tag_of(name) == Tag::Paragraph),
        is_called(name, seq![115u8, 105]) == (tag_of(name) == Tag::Item),
        is_called(name, seq![114u8, 111, 119]) == (tag_of(name) == Tag::Row),
        is_called(name, seq![99u8]) == (tag_of(name) == Tag::Cell),
        is_called(name, seq![118u8]) == (tag_of(name) == Tag::Value),
{
    lemma_called(name, seq![116u8]);
    lemma_called(name, seq![98u8, 114]);
    lemma_called(name, seq![99u8, 114]);
    lemma_called(name, seq![116u8, 97, 98]);
    lemma_called(name, seq![112u8]);
    lemma_called(name, seq![115u8, 105]);
    lemma_called(name, seq![114u8, 111, 119]);
    lemma_called(name, seq![99u8]);
    lemma_called(name, seq![118u8]);
    let n = local_name(name);
    let (t, br, cr) = (seq![116u8], seq![98u8, 114], seq![99u8, 114]);
    let (tab, p, si) = (seq![116u8, 97, 98], seq![112u8], seq![115u8, 105]);
    let (row, c, v) = (seq![114u8, 111, 119], seq![99u8], seq![118u8]);
    assert(t.len() == 1 && br.len() == 2 && cr.len() == 2 && tab.len() == 3 && p.len() == 1
        && si.len() == 2 && row.len() == 3 && c.len() == 1 && v.len() == 1);
    assert(t[0] == 116 && p[0] == 112 && c[0] == 99 && v[0] == 118);
    assert(br[0] == 98 && cr[0] == 99 && si[0] == 115);
    assert(tab[0] == 116 && row[0] == 114);
}

/// The state after the events before `n`, where none fails.
spec fn docx_state(v: DocxView, events: Seq<Result<EventView, Seq<char>>>, n: int) -> Result<
    DocxView,
    Seq<char>,
>
    decreases n,
{
    if n <= 0 {
        Ok(v)
    } else {
        match docx_state(v, events, n - 1) {
            Err(x) => Err(x),
            Ok(w) => match events[n - 1] {
                Err(x) => Err("invalid office XML: "@ + x),
                Ok(e) => docx_step(w, e),
            },
        }
    }
}

/// No document ends before `n`.
pub open spec fn goes_on(events: Seq<Result<EventView, Seq<char>>>, n: int) -> bool {
    forall|k: int| 0 <= k < n ==> !((#[trigger] events[k]) is Ok && events[k]->Ok_0.kind == XmlKind::Eof)
}

proof fn lemma_state_shift(v: DocxView, events: Seq<Result<EventView, Seq<char>>>, n: int)
    requires
        0 < n <= events.len(),
    ensures
        match events[0] {
            Err(x) => docx_state(v, events, n) == Err::<DocxView, Seq<char>>(
                "invalid office XML: "@ + x,
            ),
            Ok(e) => match docx_step(v, e) {
                Err(x) => docx_state(v, events, n) == Err::<DocxView, Seq<char>>(x),
                Ok(w) => docx_state(v, events, n) == docx_state(w, events.drop_first(), n - 1),
            },
        },
    decreases n,
{
    if n > 1 {
        lemma_state_shift(v, events, n - 1);
        assert(events.drop_first()[n - 2] == events[n - 1]);
    } else {
        assert(docx_state(v, events, 0) == Ok::<DocxView, Seq<char>>(v));
    }
}

/// What a run over events leaves is what the last state holds.
proof fn lemma_run_state(v: DocxView, events: Seq<Result<EventView, Seq<char>>>, n: int)
    requires
        0 <= n <= events.len(),
        goes_on(events, n),
        n == events.len() || (events[n] is Ok && events[n]->Ok_0.kind == XmlKind::Eof),
    ensures
        docx_run(v, events) == (match docx_state(v, events, n) {
            Ok(w) => Ok(w.output),
            Err(x) => Err(x),
        }),
    decreases n,
{
    if n > 0 {
        lemma_state_shift(v, events, n);
        let rest = events.drop_first();
        assert forall|k: int| 0 <= k < n - 1 implies !((#[trigger] rest[k]) is Ok
            && rest[k]->Ok_0.kind == XmlKind::Eof) by {
            assert(rest[k] == events[k + 1]);
        }
        assert(!(events[0] is Ok && events[0]->Ok_0.kind == XmlKind::Eof));
        if n < events.len() {
            assert(rest[n - 1] == events[n]);
        }
        if events[0] is Ok && docx_step(v, events[0]->Ok_0) is Ok {
            lemma_run_state(docx_step(v, events[0]->Ok_0)->Ok_0, rest, n - 1);
        }
    }
}

proof fn lemma_state_prefix(
    v: DocxView,
    events: Seq<Result<EventView, Seq<char>>>,
    m: int,
    n: int,
)
    requires
        0 <= n <= m <= events.len(),
    ensures
        docx_state(v, events.take(m), n) == docx_state(v, events, n),
    decreases n,
{
    if n > 0 {
        lemma_state_prefix(v, events, m, n - 1);
        assert(events.take(m)[n - 1] == events[n - 1]);
    }
}

/// Whether event `i` lies in a text run: a `t` has opened before it, and none has
/// closed since.
pub open spec fn in_run(events: Seq<Result<EventView, Seq<char>>>, i: int) -> bool {
    exists|j: int|
        0 <= j < i && opens(#[trigger] events[j], seq![116u8]) && forall|k: int|
            j < k < i ==> !closes(#[trigger] events[k], seq![116u8])
}

proof fn lemma_in_run(v: DocxView, events: Seq<Result<EventView, Seq<char>>>, n: int)
    requires
        0 <= n <= events.len(),
        docx_state(v, events, n) is Ok,
        !v.in_text,
    ensures
        docx_state(v, events, n)->Ok_0.in_text == in_run(events, n),
    decreases n,
{
    if n > 0 {
        lemma_in_run(v, events, n - 1);
        let e = events[n - 1]->Ok_0;
        tags_go_by_local_names(e.name);
        let t = seq![116u8];
        if opens(events[n - 1], t) {
            assert(0 <= n - 1 < n);
            assert(in_run(events, n));
        } else if in_run(events, n - 1) {
            let j = choose|j: int|
                0 <= j < n - 1 && opens(#[trigger] events[j], t) && forall|k: int|
                    j < k < n - 1 ==> !closes(#[trigger] events[k], t);
            if !closes(events[n - 1], t) {
                assert(opens(events[j], t));
                assert(in_run(events, n));
            } else if in_run(events, n) {
                let i = choose|i: int|
                    0 <= i < n && opens(#[trigger] events[i], t) && forall|k: int|
                        i < k < n ==> !closes(#[trigger] events[k], t);
                assert(i < n - 1);
            }
        } else if in_run(events, n) {
            let i = choose|i: int|
                0 <= i < n && opens(#[trigger] events[i], t) && forall|k: int|
                    i < k < n ==> !closes(#[trigger] events[k], t);
            assert(i < n - 1);
            assert(in_run(events, n - 1));
        }
    }
}

/// What event `i` of a document adds to its text: a newline where a paragraph
/// ends or a line breaks, a tab for a tab, a text that lies in a text run, and
/// otherwise nothing.
pub open spec fn adds(
    events: Seq<Result<EventView, Seq<char>>>,
    i: int,
    added: Result<Seq<char>, Seq<char>>,
) -> bool {
    if closes(events[i], seq![112u8]) {
        added == Ok::<Seq<char>, Seq<char>>(seq!['\n'])
    } else if stands(events[i], seq![98u8, 114]) || stands(events[i], seq![99u8, 114]) {
        added == Ok::<Seq<char>, Seq<char>>(seq!['\n'])
    } else if stands(events[i], seq![116u8, 97, 98]) {
        added == Ok::<Seq<char>, Seq<char>>(seq!['\t'])
    } else if has_words(events[i]) && in_run(events, i) {
        says(events[i]->Ok_0, added)
    } else {
        added == Ok::<Seq<char>, Seq<char>>(Seq::empty())
    }
}

/// Text, a CDATA section, or a reference.
pub open spec fn has_words(e: Result<EventView, Seq<char>>) -> bool {
    e matches Ok(x) && (x.kind == XmlKind::Text || x.kind == XmlKind::CData || x.kind
        == XmlKind::Reference)
}

/// What a text says: its bytes as UTF-8, or what a reference stands for. `Err` of
/// bytes that are no text.
pub open spec fn says(e: EventView, words: Result<Seq<char>, Seq<char>>) -> bool {
    if !valid_utf8(e.body) {
        words is Err
    } else if e.kind == XmlKind::Reference {
        match xml_unescape(seq!['&'] + decode_utf8(e.body) + seq![';']) {
            Ok(s) => words == Ok::<Seq<char>, Seq<char>>(s),
            Err(_) => words is Err,
        }
    } else {
        words == Ok::<Seq<char>, Seq<char>>(decode_utf8(e.body))
    }
}

/// The text of a document grows event by event: each adds what it stands for
/// behind all that is there, unless that is no text or too much.
pub proof fn documents_grow_by_event(
    output: Seq<char>,
    events: Seq<Result<EventView, Seq<char>>>,
    i: int,
    added: Result<Seq<char>, Seq<char>>,
)
    requires
        0 <= i < events.len(),
        goes_on(events, i + 1),
        events[i] is Ok,
        adds(events, i, added),
        encode_utf8(output).len() <= MAX_TEXT_BYTES,
    ensures
        ({
            let start = DocxView { in_text: false, output };
            let (before, after) = (
                docx_run(start, events.take(i)),
                docx_run(start, events.take(i + 1)),
            );
            &&& after is Ok ==> before is Ok && added is Ok
            &&& before is Ok && added is Ok && encode_utf8(before->Ok_0).len() + encode_utf8(
                added->Ok_0,
            ).len() <= MAX_TEXT_BYTES ==> after == Ok::<Seq<char>, Seq<char>>(
                before->Ok_0 + added->Ok_0,
            )
            &&& after is Ok ==> after->Ok_0 == before->Ok_0 + added->Ok_0
        }),
{
    let start = DocxView { in_text: false, output };
    let (a, b) = (events.take(i), events.take(i + 1));
    assert forall|k: int| 0 <= k < i implies !((#[trigger] a[k]) is Ok && a[k]->Ok_0.kind
        == XmlKind::Eof) by {
        assert(a[k] == events[k]);
    }
    assert forall|k: int| 0 <= k < i + 1 implies !((#[trigger] b[k]) is Ok && b[k]->Ok_0.kind
        == XmlKind::Eof) by {
        assert(b[k] == events[k]);
    }
    lemma_run_state(start, a, i);
    lemma_run_state(start, b, i + 1);
    lemma_state_prefix(start, events, i, i);
    lemma_state_prefix(start, events, i + 1, i + 1);
    let e = events[i]->Ok_0;
    tags_go_by_local_names(e.name);
    reveal_strlit("\n");
    reveal_strlit("\t");
    assert("\n"@ =~= seq!['\n']);
    assert("\t"@ =~= seq!['\t']);
    if docx_state(start, events, i) is Ok {
        lemma_in_run(start, events, i);
        let w = docx_state(start, events, i)->Ok_0;
        assert(w.output + Seq::<char>::empty() =~= w.output);
    }
}

/// What follows the end of a document does not matter, and the text before any
/// event is the start of the whole text.
pub proof fn documents_keep_what_they_have(
    output: Seq<char>,
    events: Seq<Result<EventView, Seq<char>>>,
    i: int,
)
    requires
        0 <= i <= events.len(),
        goes_on(events, i),
    ensures
        ({
            let start = DocxView { in_text: false, output };
            let (before, all) = (docx_run(start, events.take(i)), docx_run(start, events));
            &&& all is Ok ==> before is Ok && before->Ok_0.is_prefix_of(all->Ok_0)
            &&& i < events.len() && events[i] is Ok && events[i]->Ok_0.kind == XmlKind::Eof ==> all
                == before
            &&& i < events.len() && events[i] is Err ==> all is Err
        }),
    decreases events.len() - i,
{
    let start = DocxView { in_text: false, output };
    let a = events.take(i);
    assert forall|k: int| 0 <= k < i implies !((#[trigger] a[k]) is Ok && a[k]->Ok_0.kind
        == XmlKind::Eof) by {
        assert(a[k] == events[k]);
    }
    lemma_run_state(start, a, i);
    lemma_state_prefix(start, events, i, i);
    if i == events.len() {
        assert(a =~= events);
        if docx_run(start, events) is Ok {
            let all = docx_run(start, events)->Ok_0;
            assert(all =~= all.subrange(0, all.len() as int));
        }
    } else if events[i] is Ok && events[i]->Ok_0.kind == XmlKind::Eof {
        lemma_run_state(start, events, i);
        if docx_run(start, events) is Ok {
            let all = docx_run(start, events)->Ok_0;
            assert(all =~= all.subrange(0, all.len() as int));
        }
    } else {
        documents_keep_what_they_have(output, events, i + 1);
        let b = events.take(i + 1);
        assert forall|k: int| 0 <= k < i + 1 implies !((#[trigger] b[k]) is Ok
            && b[k]->Ok_0.kind == XmlKind::Eof) by {
            assert(b[k] == events[k]);
        }
        lemma_run_state(start, b, i + 1);
        lemma_state_prefix(start, events, i + 1, i + 1);
        if docx_run(start, events) is Ok {
            let (x, y, z) = (
                docx_run(start, a)->Ok_0,
                docx_run(start, b)->Ok_0,
                docx_run(start, events)->Ok_0,
            );
            assert(x =~= y.subrange(0, x.len() as int));
            assert(x =~= z.subrange(0, x.len() as int)) by {
                assert(y =~= z.subrange(0, y.len() as int));
                assert forall|k: int| 0 <= k < x.len() implies x[k] == z[k] by {
                    assert(y[k] == z.subrange(0, y.len() as int)[k]);
                }
            }
        }
    }
}

/// Paragraphs are lines: behind the text that a document has where a paragraph
/// ends, its text has a newline.
pub proof fn paragraphs_end_in_newlines(
    output: Seq<char>,
    events: Seq<Result<EventView, Seq<char>>>,
    i: int,
    all: Seq<char>,
)
    requires
        0 <= i < events.len(),
        goes_on(events, i + 1),
        closes(events[i], seq![112u8]),
        encode_utf8(output).len() <= MAX_TEXT_BYTES,
        docx_run(DocxView { in_text: false, output }, events) == Ok::<Seq<char>, Seq<char>>(all),
    ensures
        ({
            let before = docx_run(DocxView { in_text: false, output }, events.take(i));
            before is Ok && before->Ok_0.push('\n').is_prefix_of(all)
        }),
{
    documents_keep_what_they_have(output, events, i + 1);
    documents_grow_by_event(output, events, i, Ok(seq!['\n']));
    let before = docx_run(DocxView { in_text: false, output }, events.take(i))->Ok_0;
    assert(before + seq!['\n'] =~= before.push('\n'));
}

// ----------------------------------------------------------------- sheet laws

/// How a cell of a worksheet is written: a value, a text in the cell itself, the
/// number of a shared string, or an empty tag.
pub enum CellForm {
    Value,
    Inline,
    Shared,
    Bare,
}

/// A cell as it is written, with the inside of its start tag.
pub struct CellView {
    pub form: CellForm,
    pub text: Seq<char>,
    pub tag: Seq<u8>,
}

pub open spec fn tag_event(kind: XmlKind, name: Seq<u8>, body: Seq<u8>) -> Result<
    EventView,
    Seq<char>,
> {
    Ok(EventView { kind, name, body })
}

pub open spec fn start_tag(name: Seq<u8>) -> Result<EventView, Seq<char>> {
    tag_event(XmlKind::Start, name, Seq::empty())
}

pub open spec fn end_tag(name: Seq<u8>) -> Result<EventView, Seq<char>> {
    tag_event(XmlKind::End, name, Seq::empty())
}

pub open spec fn words(text: Seq<char>) -> Result<EventView, Seq<char>> {
    tag_event(XmlKind::Text, Seq::empty(), encode_utf8(text))
}

/// The events of a cell: `<c><v>..</v></c>`, `<c><is><t>..</t></is></c>` or `<c/>`.
pub open spec fn cell_events(c: CellView) -> Seq<Result<EventView, Seq<char>>> {
    let cell = tag_event(XmlKind::Start, seq![99u8], c.tag);
    match c.form {
        CellForm::Bare => seq![tag_event(XmlKind::Empty, seq![99u8], c.tag)],
        CellForm::Inline => seq![
            cell,
            start_tag(seq![105u8, 115]),
            start_tag(seq![116u8]),
            words(c.text),
            end_tag(seq![116u8]),
            end_tag(seq![105u8, 115]),
            end_tag(seq![99u8]),
        ],
        _ => seq![
            cell,
            start_tag(seq![118u8]),
            words(c.text),
            end_tag(seq![118u8]),
            end_tag(seq![99u8]),
        ],
    }
}

/// The cell is of its form: a cell for a shared string has the type `s` and the
/// number of one, others have no attributes.
pub open spec fn is_cell(c: CellView, shared: Seq<Seq<char>>) -> bool {
    let attributes = tag_attributes(seq![60u8] + c.tag + seq![47u8, 62]);
    match c.form {
        CellForm::Bare => true,
        CellForm::Shared => {
            &&& attributes == seq![
                Ok::<(Seq<u8>, Result<Seq<char>, Seq<char>>), Seq<char>>(
                    (seq![116u8], Ok(seq!['s'])),
                ),
            ]
            &&& c.text.len() > 0
            &&& forall|k: int| 0 <= k < c.text.len() ==> '0' <= #[trigger] c.text[k] <= '9'
            &&& decimal(c.text) < shared.len()
        },
        _ => attributes.len() == 0,
    }
}

/// What a cell shows.
pub open spec fn cell_shows(c: CellView, shared: Seq<Seq<char>>) -> Seq<char> {
    match c.form {
        CellForm::Bare => Seq::empty(),
        CellForm::Shared => shared[decimal(c.text) as int],
        _ => c.text,
    }
}

/// The first `n` cells of a row with tabs between them.
pub open spec fn tabbed(cells: Seq<CellView>, shared: Seq<Seq<char>>, n: int) -> Seq<char>
    decreases n,
{
    if n <= 0 {
        Seq::empty()
    } else if n == 1 {
        cell_shows(cells[0], shared)
    } else {
        tabbed(cells, shared, n - 1) + seq!['\t'] + cell_shows(cells[n - 1], shared)
    }
}

/// The first `n` rows, each with cells on a line of its own.
pub open spec fn row_lines(
    rows: Seq<Seq<CellView>>,
    shared: Seq<Seq<char>>,
    n: int,
) -> Seq<char>
    decreases n,
{
    if n <= 0 {
        Seq::empty()
    } else if rows[n - 1].len() == 0 {
        row_lines(rows, shared, n - 1)
    } else {
        row_lines(rows, shared, n - 1) + tabbed(
            rows[n - 1],
            shared,
            rows[n - 1].len() as int,
        ) + seq!['\n']
    }
}

/// The events of the cells from `i` on, and then `rest`.
pub open spec fn cells_then(
    cells: Seq<CellView>,
    i: int,
    rest: Seq<Result<EventView, Seq<char>>>,
) -> Seq<Result<EventView, Seq<char>>>
    decreases cells.len() - i,
{
    if i >= cells.len() {
        rest
    } else {
        cell_events(cells[i]) + cells_then(cells, i + 1, rest)
    }
}

/// The events of the rows from `i` on.
pub open spec fn row_events(rows: Seq<Seq<CellView>>, i: int) -> Seq<Result<EventView, Seq<char>>>
    decreases rows.len() - i,
{
    if i >= rows.len() {
        Seq::empty()
    } else {
        seq![start_tag(seq![114u8, 111, 119])] + cells_then(
            rows[i],
            0,
            seq![end_tag(seq![114u8, 111, 119])] + row_events(rows, i + 1),
        )
    }
}

proof fn lemma_sheet_one(
    v: SheetView,
    e: Result<EventView, Seq<char>>,
    rest: Seq<Result<EventView, Seq<char>>>,
    shared: Seq<Seq<char>>,
)
    requires
        e is Ok,
        e->Ok_0.kind != XmlKind::Eof,
        sheet_step(v, e->Ok_0, shared) is Ok,
    ensures
        sheet_run(v, seq![e] + rest, shared) == sheet_run(
            sheet_step(v, e->Ok_0, shared)->Ok_0,
            rest,
            shared,
        ),
{
    assert((seq![e] + rest).drop_first() =~= rest);
}

proof fn lemma_local_plain(name: Seq<u8>)
    requires
        forall|k: int| 0 <= k < name.len() ==> (#[trigger] name[k]) != 58,
    ensures
        local_name(name) == name,
{
    lemma_local_name(name, 0);
    assert(name.skip(0) =~= name);
}

proof fn lemma_sheet_tags()
    ensures
        tag_of(seq![99u8]) == Tag::Cell,
        tag_of(seq![118u8]) == Tag::Value,
        tag_of(seq![116u8]) == Tag::Text,
        tag_of(seq![114u8, 111, 119]) == Tag::Row,
        tag_of(seq![105u8, 115]) == Tag::Other,
        tag_of(seq![115u8, 105]) == Tag::Item,
{
    let (c, v, t) = (seq![99u8], seq![118u8], seq![116u8]);
    let (row, is, si) = (seq![114u8, 111, 119], seq![105u8, 115], seq![115u8, 105]);
    lemma_local_plain(c);
    lemma_local_plain(v);
    lemma_local_plain(t);
    lemma_local_plain(row);
    lemma_local_plain(is);
    lemma_local_plain(si);
    assert(is[0] == 105 && si[0] == 115 && row[0] == 114);
    assert(c[0] == 99 && v[0] == 118 && t[0] == 116);
    let (br, cr, tab, p) = (seq![98u8, 114], seq![99u8, 114], seq![116u8, 97, 98], seq![112u8]);
    assert(br[0] == 98 && cr[0] == 99 && tab[0] == 116 && p[0] == 112);
    assert(br.len() == 2 && cr.len() == 2 && tab.len() == 3 && p.len() == 1);
}

proof fn lemma_words(text: Seq<char>)
    ensures
        event_text(words(text)->Ok_0) == Ok::<Seq<char>, Seq<char>>(text),
{
    encode_utf8_valid_utf8(text);
    encode_utf8_decode_utf8(text);
}

#[verifier::spinoff_prover]
proof fn lemma_cell(
    v: SheetView,
    c: CellView,
    rest: Seq<Result<EventView, Seq<char>>>,
    shared: Seq<Seq<char>>,
) -> (w: SheetView)
    requires
        is_cell(c, shared),
        shared.len() <= usize::MAX,
        !v.in_cell && !v.in_value && !v.in_text,
        v.cell_value.len() == 0,
        ({
            let tab = if v.cells > 0 {
                seq!['\t']
            } else {
                Seq::empty()
            };
            encode_utf8(v.row + tab + cell_shows(c, shared)).len() <= MAX_TEXT_BYTES
        }),
    ensures
        sheet_run(v, cell_events(c) + rest, shared) == sheet_run(w, rest, shared),
        !w.in_cell && !w.in_value && !w.in_text,
        w.cell_value.len() == 0,
        w.output == v.output,
        w.cells == v.cells + 1,
        w.row == v.row + (if v.cells > 0 {
            seq!['\t']
        } else {
            Seq::empty()
        }) + cell_shows(c, shared),
{
    lemma_sheet_tags();
    lemma_words(c.text);
    let tab = if v.cells > 0 {
        seq!['\t']
    } else {
        Seq::empty()
    };
    let text = cell_shows(c, shared);
    lemma_encode_concat(v.row + tab, text);
    lemma_encode_concat(v.row, tab);
    reveal_strlit("\t");
    assert("\t"@ =~= seq!['\t']);
    assert(v.row + Seq::<char>::empty() =~= v.row);
    let events = cell_events(c) + rest;
    let row = v.row + tab + text;
    if c.form is Bare {
        assert(events =~= seq![tag_event(XmlKind::Empty, seq![99u8], c.tag)] + rest);
        let w = with_cell(v, Seq::empty())->Ok_0;
        lemma_sheet_one(v, events[0], rest, shared);
        assert(w.row =~= row);
        w
    } else {
        let cell = tag_event(XmlKind::Start, seq![99u8], c.tag);
        let attributes = tag_attributes(as_empty_tag(c.tag));
        let kind = cell_type(attributes, attributes.len() as int);
        if c.form is Shared {
            reveal_with_fuel(cell_type, 2);
            reveal_strlit("s");
            assert("s"@ =~= seq!['s']);
            assert(kind == Ok::<Seq<char>, Seq<char>>(seq!['s']));
            assert(all_digits(c.text));
            assert(c.text[0] != '+');
            assert(written_index(c.text) == Some(decimal(c.text)));
        } else {
            reveal_strlit("s");
            assert(kind == Ok::<Seq<char>, Seq<char>>(Seq::empty()));
            assert("s"@.len() == 1);
        }
        assert(cell_text(kind->Ok_0, c.text, shared) == Ok::<Seq<char>, Seq<char>>(text));
        let a = SheetView {
            cell_type: kind->Ok_0,
            cell_value: Seq::empty(),
            in_cell: true,
            ..v
        };
        assert(sheet_step(v, cell->Ok_0, shared) == Ok::<SheetView, Seq<char>>(a));
        let done = SheetView { cell_value: c.text, ..a };
        assert(Seq::<char>::empty() + c.text =~= c.text);
        let w = SheetView { row, cells: v.cells + 1, cell_value: Seq::empty(), in_cell: false, ..done };
        let last = seq![end_tag(seq![99u8])] + rest;
        lemma_sheet_one(done, end_tag(seq![99u8]), rest, shared);
        assert(with_cell(done, text) == Ok::<SheetView, Seq<char>>(
            SheetView { row, cells: v.cells + 1, ..done },
        ));
        if c.form is Inline {
            let b = SheetView { in_text: true, ..a };
            let d = SheetView { cell_value: c.text, ..b };
            let r6 = seq![end_tag(seq![105u8, 115])] + last;
            let r5 = seq![end_tag(seq![116u8])] + r6;
            let r4 = seq![words(c.text)] + r5;
            let r3 = seq![start_tag(seq![116u8])] + r4;
            let r2 = seq![start_tag(seq![105u8, 115])] + r3;
            assert(events =~= seq![cell] + r2);
            lemma_sheet_one(v, cell, r2, shared);
            lemma_sheet_one(a, start_tag(seq![105u8, 115]), r3, shared);
            lemma_sheet_one(a, start_tag(seq![116u8]), r4, shared);
            lemma_sheet_one(b, words(c.text), r5, shared);
            lemma_sheet_one(d, end_tag(seq![116u8]), r6, shared);
            assert(SheetView { in_text: false, ..d } == done);
            lemma_sheet_one(done, end_tag(seq![105u8, 115]), last, shared);
        } else {
            let b = SheetView { in_value: true, ..a };
            let d = SheetView { cell_value: c.text, ..b };
            let r4 = seq![end_tag(seq![118u8])] + last;
            let r3 = seq![words(c.text)] + r4;
            let r2 = seq![start_tag(seq![118u8])] + r3;
            assert(events =~= seq![cell] + r2);
            lemma_sheet_one(v, cell, r2, shared);
            lemma_sheet_one(a, start_tag(seq![118u8]), r3, shared);
            lemma_sheet_one(b, words(c.text), r4, shared);
            lemma_sheet_one(d, end_tag(seq![118u8]), last, shared);
            assert(SheetView { in_value: false, ..d } == done);
        }
        w
    }
}

proof fn lemma_encoded_part(a: Seq<char>, b: Seq<char>)
    ensures
        encode_utf8(a).len() <= encode_utf8(a + b).len(),
        encode_utf8(b).len() <= encode_utf8(a + b).len(),
{
    lemma_encode_concat(a, b);
}

proof fn lemma_tabbed_grows(cells: Seq<CellView>, shared: Seq<Seq<char>>, i: int, n: int)
    requires
        0 <= i <= n,
    ensures
        encode_utf8(tabbed(cells, shared, i)).len() <= encode_utf8(tabbed(cells, shared, n)).len(),
    decreases n - i,
{
    if i < n {
        lemma_tabbed_grows(cells, shared, i, n - 1);
        if n == 1 {
            lemma_encoded_part(Seq::empty(), cell_shows(cells[0], shared));
            assert(Seq::<char>::empty() + cell_shows(cells[0], shared) =~= cell_shows(
                cells[0],
                shared,
            ));
        } else {
            let before = tabbed(cells, shared, n - 1);
            let more = seq!['\t'] + cell_shows(cells[n - 1], shared);
            lemma_encoded_part(before, more);
            assert(before + more =~= tabbed(cells, shared, n));
        }
    }
}

proof fn lemma_cells(
    v: SheetView,
    cells: Seq<CellView>,
    i: int,
    rest: Seq<Result<EventView, Seq<char>>>,
    shared: Seq<Seq<char>>,
) -> (w: SheetView)
    requires
        0 <= i <= cells.len(),
        forall|k: int| 0 <= k < cells.len() ==> is_cell(#[trigger] cells[k], shared),
        shared.len() <= usize::MAX,
        !v.in_cell && !v.in_value && !v.in_text,
        v.cell_value.len() == 0,
        v.cells == i,
        v.row == tabbed(cells, shared, i),
        encode_utf8(tabbed(cells, shared, cells.len() as int)).len() <= MAX_TEXT_BYTES,
    ensures
        sheet_run(v, cells_then(cells, i, rest), shared) == sheet_run(w, rest, shared),
        !w.in_cell && !w.in_value && !w.in_text,
        w.cell_value.len() == 0,
        w.output == v.output,
        w.cells == cells.len(),
        w.row == tabbed(cells, shared, cells.len() as int),
    decreases cells.len() - i,
{
    if i < cells.len() {
        let later = cells_then(cells, i + 1, rest);
        let tab = if v.cells > 0 {
            seq!['\t']
        } else {
            Seq::empty()
        };
        assert(v.row + tab + cell_shows(cells[i], shared) =~= tabbed(cells, shared, i + 1));
        lemma_tabbed_grows(cells, shared, i + 1, cells.len() as int);
        let w = lemma_cell(v, cells[i], later, shared);
        lemma_cells(w, cells, i + 1, rest, shared)
    } else {
        v
    }
}

proof fn lemma_lines_grow(rows: Seq<Seq<CellView>>, shared: Seq<Seq<char>>, i: int, n: int)
    requires
        0 <= i <= n,
    ensures
        encode_utf8(row_lines(rows, shared, i)).len() <= encode_utf8(
            row_lines(rows, shared, n),
        ).len(),
    decreases n - i,
{
    if i < n {
        lemma_lines_grow(rows, shared, i, n - 1);
        if rows[n - 1].len() > 0 {
            let before = row_lines(rows, shared, n - 1);
            let more = tabbed(rows[n - 1], shared, rows[n - 1].len() as int) + seq!['\n'];
            lemma_encoded_part(before, more);
            assert(before + more =~= row_lines(rows, shared, n));
        }
    }
}

proof fn lemma_rows(
    v: SheetView,
    output: Seq<char>,
    rows: Seq<Seq<CellView>>,
    i: int,
    shared: Seq<Seq<char>>,
)
    requires
        0 <= i <= rows.len(),
        forall|r: int, k: int|
            0 <= r < rows.len() && 0 <= k < rows[r].len() ==> is_cell(
                #[trigger] rows[r][k],
                shared,
            ),
        shared.len() <= usize::MAX,
        !v.in_cell && !v.in_value && !v.in_text,
        v.cell_value.len() == 0,
        v.output == output + row_lines(rows, shared, i),
        encode_utf8(output + row_lines(rows, shared, rows.len() as int)).len() <= MAX_TEXT_BYTES,
    ensures
        sheet_run(v, row_events(rows, i), shared) == Ok::<Seq<char>, Seq<char>>(
            output + row_lines(rows, shared, rows.len() as int),
        ),
    decreases rows.len() - i,
{
    if i < rows.len() {
        lemma_sheet_tags();
        let row = seq![114u8, 111, 119];
        let cells = rows[i];
        let later = row_events(rows, i + 1);
        let last = seq![end_tag(row)] + later;
        let fresh = SheetView { row: Seq::empty(), cells: 0, ..v };
        lemma_sheet_one(v, start_tag(row), cells_then(cells, 0, last), shared);
        let text = tabbed(cells, shared, cells.len() as int);
        lemma_lines_grow(rows, shared, i + 1, rows.len() as int);
        lemma_encode_concat(output, row_lines(rows, shared, rows.len() as int));
        lemma_encode_concat(output, row_lines(rows, shared, i + 1));
        lemma_encode_concat(output, row_lines(rows, shared, i));
        if cells.len() > 0 {
            lemma_encode_concat(row_lines(rows, shared, i) + text, seq!['\n']);
            lemma_encode_concat(row_lines(rows, shared, i), text);
            lemma_encode_concat(v.output, text);
        } else {
            lemma_encoded_part(text, output);
            assert(text + output =~= output);
        }
        assert forall|k: int| 0 <= k < cells.len() implies is_cell(#[trigger] cells[k], shared) by {
            assert(is_cell(rows[i][k], shared));
        }
        let w = lemma_cells(fresh, cells, 0, last, shared);
        reveal_strlit("\n");
        assert("\n"@ =~= seq!['\n']);
        if cells.len() > 0 {
            assert(v.output + text + seq!['\n'] =~= output + row_lines(rows, shared, i + 1));
        }
        lemma_sheet_one(w, end_tag(row), later, shared);
        lemma_rows(with_row(w)->Ok_0, output, rows, i + 1, shared);
    }
}

/// The rows of a worksheet are lines, and the cells of a row stand in their order
/// with tabs between them, empty ones too. A cell that points to a shared string
/// shows it.
pub proof fn worksheets_are_tables(
    output: Seq<char>,
    rows: Seq<Seq<CellView>>,
    shared: Seq<Seq<char>>,
)
    requires
        forall|r: int, k: int|
            0 <= r < rows.len() && 0 <= k < rows[r].len() ==> is_cell(
                #[trigger] rows[r][k],
                shared,
            ),
        shared.len() <= usize::MAX,
        encode_utf8(output + row_lines(rows, shared, rows.len() as int)).len() <= MAX_TEXT_BYTES,
    ensures
        sheet_run(new_sheet(output), row_events(rows, 0), shared) == Ok::<Seq<char>, Seq<char>>(
            output + row_lines(rows, shared, rows.len() as int),
        ),
{
    assert(output + row_lines(rows, shared, 0) =~= output);
    lemma_rows(new_sheet(output), output, rows, 0, shared);
}

/// The texts of the runs from `i` on, one after another.
pub open spec fn runs_from(runs: Seq<Seq<char>>, i: int) -> Seq<char>
    decreases runs.len() - i,
{
    if i >= runs.len() {
        Seq::empty()
    } else {
        runs[i] + runs_from(runs, i + 1)
    }
}

/// The events of the runs from `i` on, and then `rest`.
pub open spec fn runs_then(
    runs: Seq<Seq<char>>,
    i: int,
    rest: Seq<Result<EventView, Seq<char>>>,
) -> Seq<Result<EventView, Seq<char>>>
    decreases runs.len() - i,
{
    if i >= runs.len() {
        rest
    } else {
        seq![start_tag(seq![116u8]), words(runs[i]), end_tag(seq![116u8])] + runs_then(
            runs,
            i + 1,
            rest,
        )
    }
}

/// The events of the items from `i` on.
pub open spec fn item_events(items: Seq<Seq<Seq<char>>>, i: int) -> Seq<
    Result<EventView, Seq<char>>,
>
    decreases items.len() - i,
{
    if i >= items.len() {
        Seq::empty()
    } else {
        seq![start_tag(seq![115u8, 105])] + runs_then(
            items[i],
            0,
            seq![end_tag(seq![115u8, 105])] + item_events(items, i + 1),
        )
    }
}

proof fn lemma_shared_one(
    v: SharedView,
    e: Result<EventView, Seq<char>>,
    rest: Seq<Result<EventView, Seq<char>>>,
)
    requires
        e is Ok,
        e->Ok_0.kind != XmlKind::Eof,
        shared_step(v, e->Ok_0) is Ok,
    ensures
        shared_run(v, seq![e] + rest) == shared_run(shared_step(v, e->Ok_0)->Ok_0, rest),
{
    assert((seq![e] + rest).drop_first() =~= rest);
}

proof fn lemma_runs(
    v: SharedView,
    runs: Seq<Seq<char>>,
    i: int,
    rest: Seq<Result<EventView, Seq<char>>>,
)
    requires
        0 <= i <= runs.len(),
        v.in_item,
        !v.in_text,
    ensures
        shared_run(v, runs_then(runs, i, rest)) == shared_run(
            SharedView { current: v.current + runs_from(runs, i), ..v },
            rest,
        ),
    decreases runs.len() - i,
{
    if i < runs.len() {
        lemma_sheet_tags();
        lemma_words(runs[i]);
        let later = runs_then(runs, i + 1, rest);
        let t = seq![116u8];
        let r3 = seq![end_tag(t)] + later;
        let r2 = seq![words(runs[i])] + r3;
        assert(runs_then(runs, i, rest) =~= seq![start_tag(t)] + r2);
        let a = SharedView { in_text: true, ..v };
        let b = SharedView { current: v.current + runs[i], ..a };
        let w = SharedView { in_text: false, ..b };
        lemma_shared_one(v, start_tag(t), r2);
        lemma_shared_one(a, words(runs[i]), r3);
        lemma_shared_one(b, end_tag(t), later);
        lemma_runs(w, runs, i + 1, rest);
        assert(w.current + runs_from(runs, i + 1) =~= v.current + runs_from(runs, i));
        assert(SharedView { current: w.current + runs_from(runs, i + 1), ..w } == SharedView {
            current: v.current + runs_from(runs, i),
            ..v
        });
    } else {
        assert(v.current + Seq::<char>::empty() =~= v.current);
        assert(SharedView { current: v.current + runs_from(runs, i), ..v } == v);
    }
}

proof fn lemma_items(v: SharedView, items: Seq<Seq<Seq<char>>>, i: int)
    requires
        0 <= i <= items.len(),
        !v.in_item,
        !v.in_text,
        v.strings == items.take(i).map_values(|runs: Seq<Seq<char>>| runs_from(runs, 0)),
    ensures
        shared_run(v, item_events(items, i)) == Ok::<Seq<Seq<char>>, Seq<char>>(
            items.map_values(|runs: Seq<Seq<char>>| runs_from(runs, 0)),
        ),
    decreases items.len() - i,
{
    if i < items.len() {
        lemma_sheet_tags();
        let si = seq![115u8, 105];
        let later = item_events(items, i + 1);
        let last = seq![end_tag(si)] + later;
        let a = SharedView { current: Seq::empty(), in_item: true, ..v };
        lemma_shared_one(v, start_tag(si), runs_then(items[i], 0, last));
        lemma_runs(a, items[i], 0, last);
        let text = runs_from(items[i], 0);
        assert(Seq::<char>::empty() + text =~= text);
        let b = SharedView { current: text, ..a };
        let w = SharedView {
            strings: v.strings.push(text),
            current: Seq::empty(),
            in_item: false,
            in_text: false,
        };
        lemma_shared_one(b, end_tag(si), later);
        assert(w.strings =~= items.take(i + 1).map_values(
            |runs: Seq<Seq<char>>| runs_from(runs, 0),
        ));
        lemma_items(w, items, i + 1);
    } else {
        assert(items.take(i) =~= items);
    }
}

/// The shared strings of a workbook are its items in their order, each with the
/// texts of all its runs.
pub proof fn shared_strings_are_items(items: Seq<Seq<Seq<char>>>)
    ensures
        shared_run(no_shared(), item_events(items, 0)) == Ok::<Seq<Seq<char>>, Seq<char>>(
            items.map_values(|runs: Seq<Seq<char>>| runs_from(runs, 0)),
        ),
{
    assert(items.take(0).map_values(|runs: Seq<Seq<char>>| runs_from(runs, 0)) =~= Seq::empty());
    lemma_items(no_shared(), items, 0);
}


/// The text of a document is in its main part, its headers, footers, footnotes
/// and endnotes, however headers and footers are numbered; the text of a
/// workbook is in its worksheets. Other parts hold none.
pub proof fn parts_go_by_their_names(n: Seq<char>, other: Seq<char>)
    requires
        other.len() < 5 || other.take(5) != "word/"@,
        other.len() < 14 || other.take(14) != "xl/worksheets/"@,
    ensures
        is_docx_part("word/document.xml"@),
        is_docx_part("word/header"@ + n + ".xml"@),
        is_docx_part("word/footer"@ + n + ".xml"@),
        is_docx_part("word/footnotes.xml"@),
        is_docx_part("word/endnotes.xml"@),
        is_sheet("xl/worksheets/"@ + n + ".xml"@),
        !is_docx_part(other),
        !is_sheet(other),
{
    reveal_strlit("word/");
    reveal_strlit("word/header");
    reveal_strlit("word/footer");
    reveal_strlit("word/document.xml");
    reveal_strlit("word/footnotes.xml");
    reveal_strlit("word/endnotes.xml");
    reveal_strlit("xl/worksheets/");
    reveal_strlit(".xml");
    lemma_named_part("word/header"@, n, ".xml"@);
    lemma_named_part("word/footer"@, n, ".xml"@);
    lemma_named_part("xl/worksheets/"@, n, ".xml"@);
    if is_docx_part(other) {
        assert(other.len() >= 5);
        if "word/header"@.is_prefix_of(other) {
            assert(other.take(5) =~= "word/header"@.take(5));
            assert("word/header"@.take(5) =~= "word/"@);
        } else if "word/footer"@.is_prefix_of(other) {
            assert(other.take(5) =~= "word/footer"@.take(5));
            assert("word/footer"@.take(5) =~= "word/"@);
        } else {
            assert(other.take(5) =~= "word/"@);
        }
    }
    if is_sheet(other) {
        assert(other.take(14) =~= "xl/worksheets/"@);
    }
}

proof fn lemma_named_part(start: Seq<char>, n: Seq<char>, end: Seq<char>)
    ensures
        start.is_prefix_of(start + n + end),
        end.is_suffix_of(start + n + end),
{
    let s = start + n + end;
    assert(s.subrange(0, start.len() as int) =~= start);
    assert(s.subrange(s.len() - end.len(), s.len() as int) =~= end);
}

} // verus!
