use fsearch::office::{
    extract, is_office_path, parse_docx_xml, parse_shared_strings, parse_xlsx_sheet, size_error,
    MAX_OFFICE_BYTES,
};
use std::io::Cursor;
use zip::write::{SimpleFileOptions, ZipWriter};

fn zip_bytes(entries: &[(&str, &str)]) -> Vec<u8> {
    let mut writer = ZipWriter::new(Cursor::new(Vec::new()));
    for (name, body) in entries {
        writer
            .start_file(*name, SimpleFileOptions::default())
            .unwrap();
        std::io::Write::write_all(&mut writer, body.as_bytes()).unwrap();
    }
    writer.finish().unwrap().into_inner()
}

#[test]
fn extracts_docx_text_and_xml_entities() {
    let data = zip_bytes(&[(
        "word/document.xml",
        r#"<w:document xmlns:w="x"><w:body><w:p><w:r><w:t>Annual &amp; final</w:t></w:r></w:p><w:p><w:t>Report</w:t><w:tab/><w:t>2024</w:t></w:p></w:body></w:document>"#,
    )]);
    let text = extract("/tmp/report.docx", &data).unwrap();
    assert!(text.contains("Annual & final"));
    assert!(text.contains("Report\t2024"));
}

#[test]
fn extracts_xlsx_shared_and_inline_strings() {
    let data = zip_bytes(&[
        (
            "xl/sharedStrings.xml",
            r#"<sst xmlns="x"><si><t>Annual report</t></si><si><r><t>Needle</t></r><r><t> value</t></r></si></sst>"#,
        ),
        (
            "xl/worksheets/sheet1.xml",
            r#"<worksheet xmlns="x"><sheetData><row><c t="s"><v>0</v></c><c t="inlineStr"><is><t>Needle inline</t></is></c></row><row><c t="s"><v>1</v></c><c><v>42</v></c></row></sheetData></worksheet>"#,
        ),
    ]);
    let text = extract("/tmp/sheet.xlsx", &data).unwrap();
    assert!(text.contains("Annual report\tNeedle inline"));
    assert!(text.contains("Needle value\t42"));
}

#[test]
fn corrupt_and_oversized_files_are_errors_without_panics() {
    assert!(extract("/tmp/bad.docx", b"not a zip").is_err());
    assert!(size_error(MAX_OFFICE_BYTES + 1).is_some());
    assert!(size_error(MAX_OFFICE_BYTES).is_none());
}

#[test]
fn broken_parts_are_errors() {
    let empty = zip_bytes(&[("other.xml", "<x/>")]);
    assert!(extract("/tmp/a.docx", &empty).is_err());
    let open = zip_bytes(&[("word/document.xml", "<w:p><w:t>x</w:p>")]);
    assert!(extract("/tmp/a.docx", &open).is_err());
    let shared: Vec<String> = Vec::new();
    let bad = r#"<row><c t="s"><v>9</v></c></row>"#;
    assert!(parse_xlsx_sheet(bad.as_bytes(), &shared, String::new()).is_err());
}

#[test]
fn parts_are_parsed_on_their_own() {
    let xml = "<d><p><t>one &lt; two</t></p><p><t>th&#x72;ee</t></p></d>";
    let text = parse_docx_xml(xml.as_bytes(), String::new()).unwrap();
    assert!(text.contains("one < two"));
    assert!(text.contains("three"));
    let strings = parse_shared_strings(b"<sst><si><t>a</t></si><si/><si><t>b</t></si></sst>");
    let strings = strings.unwrap();
    assert_eq!(strings.first().map(|s| s.as_str()), Some("a"));
    assert!(is_office_path("/a/b.DOCX"));
    assert!(!is_office_path("/a/b.doc"));
}
