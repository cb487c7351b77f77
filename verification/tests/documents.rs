use std::io::Write;
use word_doc_qa::doc_loader::{
    extract_docx_text, extract_text_from_document_xml, has_docx_extension, DocError, LoadedDoc,
};

fn zip_with(entries: &[(&str, &[u8])], method: zip::CompressionMethod) -> Vec<u8> {
    let mut w = zip::ZipWriter::new(std::io::Cursor::new(Vec::new()));
    for (name, data) in entries {
        w.start_file(*name, zip::write::FileOptions::default().compression_method(method)).unwrap();
        w.write_all(data).unwrap();
    }
    w.finish().unwrap().into_inner()
}

const DOC_XML: &str = r#"<?xml version="1.0" encoding="UTF-8" standalone="yes"?>
<w:document xmlns:w="http://schemas.openxmlformats.org/wordprocessingml/2006/main">
  <w:body>
    <w:p><w:r><w:t>JANUARY 202 6</w:t></w:r></w:p>
    <w:p><w:r><w:t>1</w:t></w:r></w:p>
    <w:p><w:r><w:t xml:space="preserve">  New Year&apos;s </w:t></w:r><w:r><w:t>Day</w:t></w:r></w:p>
    <w:p/>
    <w:p><w:r><w:rPr><w:b/></w:rPr><w:t>Fish &amp; Chips</w:t></w:r></w:p>
    <w:tbl><w:tr><w:tc><w:p><w:r><w:t>cell</w:t></w:r></w:p></w:tc></w:tr></w:tbl>
  </w:body>
</w:document>"#;

#[test]
fn text_of_document_xml() {
    let t = extract_text_from_document_xml(DOC_XML).unwrap();
    assert_eq!(t, "JANUARY 202 6 \n1 \nNew Year's Day \nFish & Chips \ncell \n");
}

#[test]
fn text_outside_text_elements_is_ignored() {
    let t = extract_text_from_document_xml("<w:p><w:r>loose<w:t>kept</w:t>after</w:r></w:p>").unwrap();
    assert_eq!(t, "kept \n");
    let t = extract_text_from_document_xml("<a:p><a:t>drawing</a:t></a:p>").unwrap();
    assert_eq!(t, "drawing \n");
    assert_eq!(extract_text_from_document_xml("").unwrap(), "");
}

#[test]
fn malformed_xml_is_a_syntax_error() {
    let r = extract_text_from_document_xml("<w:p><w:t>a</w:x></w:p>");
    assert!(matches!(r, Err(DocError::Syntax(_))), "{:?}", r);
}

#[test]
fn malformed_reference_is_an_escape_error() {
    let r = extract_text_from_document_xml("<w:p><w:t>a &bogus; b</w:t></w:p>");
    assert!(matches!(r, Err(DocError::Escape(_))), "{:?}", r);
    // outside a text element the reference is not read
    let t = extract_text_from_document_xml("<w:p>&bogus;</w:p>").unwrap();
    assert_eq!(t, "\n");
}

#[test]
fn docx_archive_stored_and_deflated() {
    for method in [zip::CompressionMethod::Stored, zip::CompressionMethod::Deflated] {
        let bytes = zip_with(&[("[Content_Types].xml", b"<Types/>"), ("word/document.xml", DOC_XML.as_bytes())], method);
        let t = extract_docx_text(&bytes).unwrap();
        assert_eq!(t, "JANUARY 202 6 \n1 \nNew Year's Day \nFish & Chips \ncell \n");
    }
}

#[test]
fn not_a_zip_archive() {
    let r = extract_docx_text(b"this is not a zip file");
    assert!(matches!(r, Err(DocError::Archive(_))), "{:?}", r);
}

#[test]
fn archive_without_document() {
    let bytes = zip_with(&[("word/other.xml", b"<x/>")], zip::CompressionMethod::Stored);
    let r = extract_docx_text(&bytes);
    assert!(matches!(r, Err(DocError::MissingDocument(_))), "{:?}", r);
}

#[test]
fn document_that_is_not_utf8() {
    let bytes = zip_with(&[("word/document.xml", &[0x3c, 0xff, 0xfe, 0x3e])], zip::CompressionMethod::Stored);
    let r = extract_docx_text(&bytes);
    assert!(matches!(r, Err(DocError::Read(_))), "{:?}", r);
}

#[test]
fn docx_file_names() {
    for (n, expected) in [
        ("calendar.docx", true),
        ("a.docx", true),
        (".docx", false),
        ("..docx", true),
        ("a.DOCX", false),
        ("a.docx.bak", false),
        ("docx", false),
        ("notes.doc", false),
        ("x.y.docx", true),
    ] {
        assert_eq!(has_docx_extension(n), expected, "{}", n);
        let by_path = std::path::Path::new(n).extension().and_then(|s| s.to_str()) == Some("docx");
        assert_eq!(has_docx_extension(n), by_path, "{}", n);
    }
}

#[test]
fn loaded_doc_holds_name_and_text() {
    let d = LoadedDoc { name: "a.docx".to_string(), text: "t".to_string() };
    let e = d.clone();
    assert_eq!(e.name, "a.docx");
    assert_eq!(e.text, "t");
}

#[test]
fn aes_marked_entry_without_encryption_flag_is_refused() {
    let mut w = zip::ZipWriter::new(std::io::Cursor::new(Vec::new()));
    let opts = zip::write::FileOptions::default().compression_method(zip::CompressionMethod::Stored);
    w.start_file_with_extra_data("word/document.xml", opts).unwrap();
    // an extra field of id 0x7777 holding the seven bytes of an AES record
    w.write_all(&[0x77, 0x77, 0x07, 0x00, 0x02, 0x00, 0x41, 0x45, 0x03, 0x00, 0x00]).unwrap();
    w.end_extra_data().unwrap();
    w.write_all(DOC_XML.as_bytes()).unwrap();
    let mut bytes = w.finish().unwrap().into_inner();
    // turn the record into the AES extra field 0x9901, leaving the encryption flag clear
    let mut patched = 0;
    for i in 0..bytes.len() - 3 {
        if bytes[i..i + 4] == [0x77, 0x77, 0x07, 0x00] {
            bytes[i] = 0x01;
            bytes[i + 1] = 0x99;
            patched += 1;
        }
    }
    assert_eq!(patched, 2);
    let r = extract_docx_text(&bytes);
    assert!(matches!(r, Err(DocError::Encrypted)), "{:?}", r);
}

#[test]
fn references_in_text_elements() {
    let t = extract_text_from_document_xml("<w:p><w:t>&#x41;&#66;&lt;&gt;&amp;&apos;&quot;</w:t></w:p>").unwrap();
    assert_eq!(t, "AB<>&'\" \n");
    let t = extract_text_from_document_xml("<w:p><w:t>&#1114111;&#x10FFFF;</w:t></w:p>").unwrap();
    assert_eq!(t, "\u{10FFFF}\u{10FFFF} \n");
    for bad in ["&#0;", "&#xD800;", "&#X41;", "&#x110000;", "&amp b;", "a & b &amp;", "&;", "&#;", "&#x;", "&#12345678;", "&#x0000041;", "a &amp"] {
        let xml = format!("<w:p><w:t>{}</w:t></w:p>", bad);
        let r = extract_text_from_document_xml(&xml);
        assert!(matches!(r, Err(DocError::Escape(_))), "{}: {:?}", bad, r);
    }
}

#[test]
fn error_messages() {
    let r = extract_docx_text(b"this is not a zip file").unwrap_err();
    assert_eq!(r.message(), "DOCX is not a valid zip");
    let bytes = zip_with(&[("word/other.xml", b"<x/>")], zip::CompressionMethod::Stored);
    assert_eq!(extract_docx_text(&bytes).unwrap_err().message(), "word/document.xml not found in docx");
    let e = extract_text_from_document_xml("<w:p><w:t>A</w:p>").unwrap_err();
    assert!(matches!(e, DocError::Syntax(_)), "{:?}", e);
    assert!(e.message().starts_with("XML parse error: "), "{}", e.message());
    let e = extract_text_from_document_xml("<w:p><w:t>&foo;</w:t></w:p>").unwrap_err();
    assert!(matches!(e, DocError::Escape(_)), "{:?}", e);
    assert!(!e.message().is_empty());
    assert_eq!(DocError::Encrypted.message(), "word/document.xml not found in docx");
}
