//! Text extraction from DOCX documents.
//!
//! A DOCX file is a ZIP archive; its body is the XML entry `word/document.xml`.
//! The text of that entry is the content of its text elements (`w:t`), each
//! followed by a space, with a line break after each paragraph (`w:p`).

use vstd::prelude::*;
use vstd::utf8::{valid_utf8, decode_utf8};
use crate::text::{append_chars, append_str, chars_of, string_of};

verus! {

/// A loaded document: its file name and the text extracted from it.
#[derive(Debug, Clone)]
pub struct LoadedDoc {
    pub name: String,
    pub text: String,
}

/// `name` is a file name whose extension (the part after its last `.`, when that dot
/// is not the first character) is `docx`.
pub open spec fn docx_file_name(name: Seq<char>) -> bool {
    name.len() > 5 && name.subrange(name.len() - 5, name.len() as int) == ".docx"@
}

/// Whether a file name has the extension `docx`, as `Path::extension` reads it.
pub fn has_docx_extension(name: &str) -> (r: bool)
    ensures
        r == docx_file_name(name@),
{
    let cs = chars_of(name);
    let n = cs.len();
    if n <= 5 {
        return false;
    }
    let mut tail: Vec<char> = Vec::new();
    let mut i = n - 5;
    while i < n
        invariant
            n == cs@.len(),
            n > 5,
            n - 5 <= i <= n,
            tail@ == cs@.subrange(n - 5, i as int),
        decreases n - i,
    {
        tail.push(cs[i]);
        assert(cs@.subrange(n - 5, i + 1) =~= cs@.subrange(n - 5, i as int).push(cs@[i as int]));
        i = i + 1;
    }
    let ext = chars_of(".docx");
    crate::text::chars_equal(&tail, &ext)
}

// ---------------------------------------------------------------------
// XML events
// ---------------------------------------------------------------------
#[verifier::external_type_specification]
#[verifier::external_body]
#[verifier::reject_recursive_types(R)]
pub struct ExXmlReader<R>(quick_xml::Reader<R>);

#[verifier::external_type_specification]
#[verifier::external_body]
pub struct ExXmlError(quick_xml::Error);

#[verifier::external_type_specification]
#[verifier::external_body]
pub struct ExEscapeError(quick_xml::escape::EscapeError);

#[verifier::external_type_specification]
#[verifier::external_body]
pub struct ExUtf8Error(core::str::Utf8Error);

/// An event of an XML reader, with the parts the text extraction reads.
#[derive(Debug)]
pub enum XmlToken {
    /// An opening tag, with its qualified name.
    Start(Vec<u8>),
    /// A closing tag, with its qualified name.
    End(Vec<u8>),
    /// Character data, still escaped, as bytes of the document.
    Text(Vec<u8>),
    /// The end of the document.
    Eof,
    /// The document is not well-formed here.
    Failure(quick_xml::Error),
    /// Any other event (empty element, comment, CDATA, declaration, ...).
    Other,
}

/// The mathematical value of an XML event.
pub enum XmlTokenView {
    Start(Seq<u8>),
    End(Seq<u8>),
    Text(Seq<u8>),
    Eof,
    Failure,
    Other,
}

impl View for XmlToken {
    type V = XmlTokenView;

    open spec fn view(&self) -> XmlTokenView {
        match self {
            XmlToken::Start(n) => XmlTokenView::Start(n@),
            XmlToken::End(n) => XmlTokenView::End(n@),
            XmlToken::Text(t) => XmlTokenView::Text(t@),
            XmlToken::Eof => XmlTokenView::Eof,
            XmlToken::Failure(_) => XmlTokenView::Failure,
            XmlToken::Other => XmlTokenView::Other,
        }
    }
}

/// The events a reader has yet to yield before the end of its document.
pub uninterp spec fn pending_events(reader: quick_xml::Reader<&[u8]>) -> Seq<XmlTokenView>;

/// The events of an XML document, in order, as a reader with default settings yields
/// them up to the end of the document (the last may be a failure).
pub uninterp spec fn document_events(xml: Seq<char>) -> Seq<XmlTokenView>;

/// The whitespace that XML text trimming removes: space, tab, carriage return, line
/// feed.
pub open spec fn is_xml_space(b: u8) -> bool {
    b == 0x20 || b == 0x09 || b == 0x0D || b == 0x0A
}

/// `b` without leading XML whitespace.
pub open spec fn trim_xml_start(b: Seq<u8>) -> Seq<u8>
    decreases b.len(),
{
    if b.len() > 0 && is_xml_space(b[0]) {
        trim_xml_start(b.drop_first())
    } else {
        b
    }
}

/// `b` without trailing XML whitespace.
pub open spec fn trim_xml_end(b: Seq<u8>) -> Seq<u8>
    decreases b.len(),
{
    if b.len() > 0 && is_xml_space(b.last()) {
        trim_xml_end(b.drop_last())
    } else {
        b
    }
}

/// The events with text trimming on: each character data event is trimmed of XML
/// whitespace at both ends, and left out when nothing remains.
pub open spec fn trimmed_events(ts: Seq<XmlTokenView>) -> Seq<XmlTokenView>
    decreases ts.len(),
{
    if ts.len() == 0 {
        ts
    } else {
        let r = trimmed_events(ts.drop_last());
        match ts.last() {
            XmlTokenView::Text(b) => {
                let t = trim_xml_end(trim_xml_start(b));
                if t.len() == 0 {
                    r
                } else {
                    r.push(XmlTokenView::Text(t))
                }
            },
            e => r.push(e),
        }
    }
}

/// Opens a reader on an XML string with `Reader::from_str`.  Claims that the reader
/// will yield the events of the document.
#[verifier::external_body]
fn reader_from_str(xml: &str) -> (r: quick_xml::Reader<&[u8]>)
    ensures
        pending_events(r) == document_events(xml@),
{
    quick_xml::Reader::from_str(xml)
}

/// Turns text trimming on with `Reader::trim_text(true)`.  Claims that every
/// character data event still to come is trimmed of XML whitespace at both ends and
/// left out when nothing remains.
#[verifier::external_body]
fn set_trim_text(reader: &mut quick_xml::Reader<&[u8]>)
    ensures
        pending_events(*final(reader)) == trimmed_events(pending_events(*old(reader))),
{
    reader.trim_text(true);
}

/// Reads the next event with `Reader::read_event_into`, keeping the parts the text
/// extraction reads.  Claims that the reader yields its pending events in order and
/// the end of the document once none is left.
#[verifier::external_body]
fn next_event(reader: &mut quick_xml::Reader<&[u8]>, buf: &mut Vec<u8>) -> (t: XmlToken)
    ensures
        t is Eof <==> pending_events(*old(reader)).len() == 0,
        pending_events(*old(reader)).len() == 0 ==> pending_events(*final(reader))
            == pending_events(*old(reader)),
        pending_events(*old(reader)).len() > 0 ==> t@ == pending_events(*old(reader))[0]
            && pending_events(*final(reader)) == pending_events(*old(reader)).drop_first(),
{
    match reader.read_event_into(buf) {
        Ok(quick_xml::events::Event::Start(e)) => XmlToken::Start(e.name().as_ref().to_vec()),
        Ok(quick_xml::events::Event::End(e)) => XmlToken::End(e.name().as_ref().to_vec()),
        Ok(quick_xml::events::Event::Text(t)) => XmlToken::Text(t.into_inner().into_owned()),
        Ok(quick_xml::events::Event::Eof) => XmlToken::Eof,
        Err(e) => XmlToken::Failure(e),
        Ok(_) => XmlToken::Other,
    }
}

/// The value of a predefined XML entity (`lt`, `gt`, `amp`, `apos`, `quot`).
pub open spec fn named_entity(name: Seq<char>) -> Option<Seq<char>> {
    if name == "lt"@ {
        Some("<"@)
    } else if name == "gt"@ {
        Some(">"@)
    } else if name == "amp"@ {
        Some("&"@)
    } else if name == "apos"@ {
        Some("'"@)
    } else if name == "quot"@ {
        Some("\""@)
    } else {
        None
    }
}

/// The value of a decimal digit, or of a hexadecimal one (either case) when `hex`.
pub open spec fn digit_value(c: char, hex: bool) -> Option<nat> {
    if '0' <= c <= '9' {
        Some((c as nat - '0' as nat) as nat)
    } else if hex && 'a' <= c <= 'f' {
        Some((c as nat - 'a' as nat + 10) as nat)
    } else if hex && 'A' <= c <= 'F' {
        Some((c as nat - 'A' as nat + 10) as nat)
    } else {
        None
    }
}

/// The number the digits spell in base 16 (`hex`) or 10; the empty string is 0.
pub open spec fn digits_value(s: Seq<char>, hex: bool) -> Option<nat>
    decreases s.len(),
{
    if s.len() == 0 {
        Some(0)
    } else {
        match (digits_value(s.drop_last(), hex), digit_value(s.last(), hex)) {
            (Some(v), Some(d)) => Some(v * (if hex {
                16nat
            } else {
                10nat
            }) + d),
            _ => None,
        }
    }
}

/// The character a numeric reference `&#...;` names, given what follows the `#`: `x`
/// and at most six hexadecimal digits, or at most seven decimal digits, for a
/// non-zero Unicode scalar value.
pub open spec fn char_reference(num: Seq<char>) -> Option<Seq<char>> {
    let hex = num.len() > 0 && num[0] == 'x';
    let digits = if hex {
        num.drop_first()
    } else {
        num
    };
    let max: nat = if hex {
        6
    } else {
        7
    };
    if digits.len() > max {
        None
    } else {
        match digits_value(digits, hex) {
            Some(code) => if code == 0 || code > 0x10FFFF || (0xD800 <= code <= 0xDFFF) {
                None
            } else {
                Some(seq![code as char])
            },
            None => None,
        }
    }
}

/// The value of a reference given the text between `&` and `;`.
pub open spec fn reference_value(pat: Seq<char>) -> Option<Seq<char>> {
    if pat.len() > 0 && pat[0] == '#' {
        char_reference(pat.drop_first())
    } else {
        named_entity(pat)
    }
}

/// The position of the first `&` or `;`.
pub open spec fn reference_end(s: Seq<char>) -> Option<int>
    decreases s.len(),
{
    if s.len() == 0 {
        None
    } else if s[0] == '&' || s[0] == ';' {
        Some(0)
    } else {
        match reference_end(s.drop_first()) {
            Some(i) => Some(i + 1),
            None => None,
        }
    }
}

/// A string with its references replaced, as `quick_xml::escape::unescape` replaces
/// them: each `&` opens a reference that the next `&` or `;` must close with `;`, and
/// the reference must be a predefined entity or a numeric character reference;
/// `None` otherwise.
pub open spec fn xml_unescape(s: Seq<char>) -> Option<Seq<char>>
    decreases s.len(),
{
    if s.len() == 0 {
        Some(s)
    } else if s[0] != '&' {
        match xml_unescape(s.drop_first()) {
            Some(r) => Some(seq![s[0]] + r),
            None => None,
        }
    } else {
        let rest = s.drop_first();
        match reference_end(rest) {
            Some(e) => if 0 <= e < rest.len() && rest[e] == ';' {
                match (reference_value(rest.take(e)), xml_unescape(rest.skip(e + 1))) {
                    (Some(v), Some(t)) => Some(v + t),
                    _ => None,
                }
            } else {
                None
            },
            None => None,
        }
    }
}

/// Replaces character and entity references with `quick_xml::escape::unescape`
/// (without the `escape-html` feature).  Claims that it succeeds exactly when
/// `xml_unescape` does, with its result.
#[verifier::external_body]
fn unescape(raw: &str) -> (r: Result<String, quick_xml::escape::EscapeError>)
    ensures
        match r {
            Ok(s) => xml_unescape(raw@) == Some(s@),
            Err(_) => xml_unescape(raw@) is None,
        },
{
    match quick_xml::escape::unescape(raw) {
        Ok(s) => Ok(s.into_owned()),
        Err(e) => Err(e),
    }
}

/// Decodes UTF-8 bytes with `std::str::from_utf8`.  Claims that it succeeds exactly
/// on valid UTF-8, with the decoded characters.
#[verifier::external_body]
fn utf8_text(bytes: &[u8]) -> (r: Result<&str, core::str::Utf8Error>)
    ensures
        r is Ok <==> valid_utf8(bytes@),
        r matches Ok(s) ==> s@ == decode_utf8(bytes@),
{
    core::str::from_utf8(bytes)
}

// ---------------------------------------------------------------------
// ZIP archives
// ---------------------------------------------------------------------
#[verifier::external_type_specification]
#[verifier::external_body]
#[verifier::reject_recursive_types(R)]
pub struct ExZipArchive<R>(zip::ZipArchive<R>);

#[verifier::external_type_specification]
#[verifier::external_body]
pub struct ExZipFile<'a>(zip::read::ZipFile<'a>);

#[verifier::external_type_specification]
#[verifier::external_body]
pub struct ExZipError(zip::result::ZipError);

#[verifier::external_type_specification]
#[verifier::external_body]
#[verifier::reject_recursive_types(T)]
pub struct ExCursor<T>(std::io::Cursor<T>);

#[verifier::external_type_specification]
#[verifier::external_body]
pub struct ExIoError(std::io::Error);

#[verifier::external_type_specification]
#[verifier::external_body]
pub struct ExInvalidPassword(zip::result::InvalidPassword);

/// Whether `ZipArchive::new` reads the central directory of the ZIP file `zip`.
pub uninterp spec fn zip_opens(zip: Seq<u8>) -> bool;

/// Whether `ZipArchive::by_name` opens the entry named `name` of the ZIP file `zip`:
/// the entry exists, is not encrypted, carries no AES extra field, and its
/// compression method is supported.
pub uninterp spec fn zip_entry_opens(zip: Seq<u8>, name: Seq<char>) -> bool;

/// Whether the entry named `name` of the ZIP file `zip` is not marked encrypted but
/// carries an AES extra field (0x9901): `ZipArchive::by_name` panics on such an entry.
pub uninterp spec fn zip_entry_locked(zip: Seq<u8>, name: Seq<char>) -> bool;

/// The bytes that the entry named `name` of the ZIP file `zip`, once opened, yields
/// when read (decompressed).
pub uninterp spec fn zip_entry(zip: Seq<u8>, name: Seq<char>) -> Seq<u8>;

/// Whether reading that opened entry to its end succeeds (its data decompresses and
/// its checksum matches).
pub uninterp spec fn zip_entry_intact(zip: Seq<u8>, name: Seq<char>) -> bool;

/// The bytes of the ZIP file that an archive reads its entries from.
pub uninterp spec fn archive_bytes(archive: zip::ZipArchive<std::io::Cursor<&[u8]>>) -> Seq<u8>;

/// The bytes that reading an opened archive entry to its end yields.
pub uninterp spec fn entry_content(entry: zip::read::ZipFile<'_>) -> Seq<u8>;

/// Whether reading an opened archive entry to its end succeeds.
pub uninterp spec fn entry_intact(entry: zip::read::ZipFile<'_>) -> bool;

/// Reads the central directory of a ZIP archive held in memory with
/// `ZipArchive::new` over a `Cursor` of the bytes.  Claimed: it succeeds exactly when
/// `zip_opens` holds of the bytes (a function of the bytes alone), and an archive that
/// opens reads its entries from these bytes.
#[verifier::external_body]
fn open_archive<'b>(bytes: &'b [u8]) -> (r: Result<
    zip::ZipArchive<std::io::Cursor<&'b [u8]>>,
    zip::result::ZipError,
>)
    ensures
        r is Ok <==> zip_opens(bytes@),
        r matches Ok(a) ==> archive_bytes(a) == bytes@,
{
    zip::ZipArchive::new(std::io::Cursor::new(bytes))
}

/// Tries the entry of the given name with `ZipArchive::by_name_decrypt` and the empty
/// password.  For an entry not marked encrypted the password is discarded and this
/// takes `by_name`'s path, except that an AES extra field gives `InvalidPassword`
/// where `by_name` panics.  Claimed: the archive still reads the same bytes; an
/// `InvalidPassword` answer comes only for an entry that `by_name` does not open
/// (an AES-marked one, or an encrypted one the empty password does not fit); any other
/// answer rules out an AES-marked entry.  Nothing is claimed of an entry it opens.
#[verifier::external_body]
fn probe_entry<'a, 'b>(
    archive: &'a mut zip::ZipArchive<std::io::Cursor<&'b [u8]>>,
    name: &str,
) -> (r: Result<Result<zip::read::ZipFile<'a>, zip::result::InvalidPassword>, zip::result::ZipError>)
    ensures
        archive_bytes(*final(archive)) == archive_bytes(*old(archive)),
        r matches Ok(Err(_)) ==> !zip_entry_opens(archive_bytes(*old(archive)), name@),
        !(r matches Ok(Err(_))) ==> !zip_entry_locked(archive_bytes(*old(archive)), name@),
{
    archive.by_name_decrypt(name, b"")
}

/// Opens the entry of the given name with `ZipArchive::by_name`, on an entry that is not
/// AES-marked (where it would panic).  Claimed: the archive still reads the same
/// bytes; the entry opens exactly when `zip_entry_opens` holds of the archive's bytes
/// and the name; an opened entry yields `zip_entry` of them and reads to its end
/// exactly when `zip_entry_intact` holds of them.
#[verifier::external_body]
fn archive_entry<'a, 'b>(
    archive: &'a mut zip::ZipArchive<std::io::Cursor<&'b [u8]>>,
    name: &str,
) -> (r: Result<zip::read::ZipFile<'a>, zip::result::ZipError>)
    requires
        !zip_entry_locked(archive_bytes(*old(archive)), name@),
    ensures
        archive_bytes(*final(archive)) == archive_bytes(*old(archive)),
        r is Ok <==> zip_entry_opens(archive_bytes(*old(archive)), name@),
        r matches Ok(f) ==> entry_content(f) == zip_entry(archive_bytes(*old(archive)), name@)
            && entry_intact(f) == zip_entry_intact(archive_bytes(*old(archive)), name@),
{
    archive.by_name(name)
}

/// Reads an archive entry to its end as UTF-8 text with `Read::read_to_string` into
/// an empty string.  Claimed: it succeeds exactly when the entry reads to its end and
/// its bytes are valid UTF-8, and the text is their decoding.
#[verifier::external_body]
fn entry_text(entry: &mut zip::read::ZipFile) -> (r: Result<String, std::io::Error>)
    ensures
        r is Ok <==> entry_intact(*old(entry)) && valid_utf8(entry_content(*old(entry))),
        r matches Ok(s) ==> s@ == decode_utf8(entry_content(*old(entry))),
{
    let mut s = String::new();
    match std::io::Read::read_to_string(entry, &mut s) {
        Ok(_) => Ok(s),
        Err(e) => Err(e),
    }
}

// ---------------------------------------------------------------------
// Text extraction
// ---------------------------------------------------------------------
/// The UTF-8 bytes `:t`.
pub open spec fn colon_t() -> Seq<u8> {
    seq![0x3Au8, 0x74u8]
}

/// The UTF-8 bytes `:p`.
pub open spec fn colon_p() -> Seq<u8> {
    seq![0x3Au8, 0x70u8]
}

/// `name` ends with `suffix`.
pub open spec fn ends_with(name: Seq<u8>, suffix: Seq<u8>) -> bool {
    name.len() >= suffix.len() && name.subrange(name.len() - suffix.len(), name.len() as int)
        == suffix
}

/// A text element: a name ending in `:t` (such as `w:t`).
pub open spec fn is_text_element(name: Seq<u8>) -> bool {
    ends_with(name, colon_t()) || name == seq![0x77u8, 0x3Au8, 0x74u8]
}

/// A paragraph element: a name ending in `:p` (such as `w:p`).
pub open spec fn is_paragraph_element(name: Seq<u8>) -> bool {
    ends_with(name, colon_p()) || name == seq![0x77u8, 0x3Au8, 0x70u8]
}

/// Why the text of a document could not be extracted.
#[derive(Debug)]
pub enum DocError {
    /// The file is not a ZIP archive.
    Archive(zip::result::ZipError),
    /// The archive has no entry `word/document.xml`, or it cannot be opened.
    MissingDocument(zip::result::ZipError),
    /// The entry `word/document.xml` is encrypted with a password other than the empty
    /// one, or carries an AES extra field without being marked encrypted.
    Encrypted,
    /// The entry `word/document.xml` could not be read as UTF-8 text.
    Read(std::io::Error),
    /// The XML is not well-formed.
    Syntax(quick_xml::Error),
    /// Character data of a text element is not UTF-8.
    NotUtf8(core::str::Utf8Error),
    /// Character data of a text element holds a malformed reference.
    Escape(quick_xml::escape::EscapeError),
}

/// The `Display` text of an I/O error.  Nothing is claimed of it.
#[verifier::external_body]
fn io_error_text(e: &std::io::Error) -> String {
    e.to_string()
}

/// The `Display` text of an XML reader error.  Nothing is claimed of it.
#[verifier::external_body]
fn xml_error_text(e: &quick_xml::Error) -> String {
    e.to_string()
}

/// The `Display` text of a UTF-8 decoding error.  Nothing is claimed of it.
#[verifier::external_body]
fn utf8_error_text(e: &core::str::Utf8Error) -> String {
    e.to_string()
}

/// The `Display` text of a reference error.  Nothing is claimed of it.
#[verifier::external_body]
fn escape_error_text(e: &quick_xml::escape::EscapeError) -> String {
    e.to_string()
}

/// `s` starts with `p`.
pub open spec fn starts_with(s: Seq<char>, p: Seq<char>) -> bool {
    p.len() <= s.len() && s.take(p.len() as int) == p
}

/// `prefix` followed by `rest`.
fn prefixed(prefix: &str, rest: String) -> (r: String)
    ensures
        r@ == prefix@ + rest@,
        starts_with(r@, prefix@),
{
    let mut out: Vec<char> = Vec::new();
    append_str(&mut out, prefix);
    append_str(&mut out, rest.as_str());
    assert((prefix@ + rest@).take(prefix@.len() as int) =~= prefix@);
    string_of(&out)
}

impl DocError {
    /// The message of the error: `DOCX is not a valid zip` for a file that is not a ZIP
    /// archive, `word/document.xml not found in docx` for an entry that cannot be
    /// opened, `XML parse error: ` and the reader's message for malformed XML,
    /// `Malformed UTF-8 input: ` and the decoder's message for text that is not UTF-8,
    /// and the outside error's own message otherwise.
    pub fn message(&self) -> (r: String)
        ensures
            self is Archive ==> r@ == "DOCX is not a valid zip"@,
            (self is MissingDocument || self is Encrypted) ==> r@
                == "word/document.xml not found in docx"@,
            self is Syntax ==> starts_with(r@, "XML parse error: "@),
            self is NotUtf8 ==> starts_with(r@, "Malformed UTF-8 input: "@),
    {
        match self {
            DocError::Archive(_) => string_of(&chars_of("DOCX is not a valid zip")),
            DocError::MissingDocument(_) => string_of(
                &chars_of("word/document.xml not found in docx"),
            ),
            DocError::Encrypted => string_of(&chars_of("word/document.xml not found in docx")),
            DocError::Read(e) => io_error_text(e),
            DocError::Syntax(e) => prefixed("XML parse error: ", xml_error_text(e)),
            DocError::NotUtf8(e) => prefixed("Malformed UTF-8 input: ", utf8_error_text(e)),
            DocError::Escape(e) => escape_error_text(e),
        }
    }
}

/// The kinds of failure of the text extraction from XML.
pub enum XmlFailure {
    Syntax,
    NotUtf8,
    Escape,
}

/// The kind of an extraction error, if it is one of the XML stage.
pub open spec fn xml_failure_of(e: DocError) -> Option<XmlFailure> {
    match e {
        DocError::Syntax(_) => Some(XmlFailure::Syntax),
        DocError::NotUtf8(_) => Some(XmlFailure::NotUtf8),
        DocError::Escape(_) => Some(XmlFailure::Escape),
        _ => None,
    }
}

/// The extraction state after some events: inside a text element, and the text so far.
pub open spec fn extract_step(st: (bool, Seq<char>), t: XmlTokenView) -> Result<
    (bool, Seq<char>),
    XmlFailure,
> {
    match t {
        XmlTokenView::Start(n) => Ok(
            (
                if is_text_element(n) {
                    true
                } else {
                    st.0
                },
                st.1,
            ),
        ),
        XmlTokenView::End(n) => Ok(
            (
                if is_text_element(n) {
                    false
                } else {
                    st.0
                },
                if is_paragraph_element(n) {
                    st.1.push('\n')
                } else {
                    st.1
                },
            ),
        ),
        XmlTokenView::Text(b) => {
            if !st.0 {
                Ok(st)
            } else if !valid_utf8(b) {
                Err(XmlFailure::NotUtf8)
            } else {
                match xml_unescape(decode_utf8(b)) {
                    Some(s) => Ok((st.0, st.1 + s + seq![' '])),
                    None => Err(XmlFailure::Escape),
                }
            }
        },
        XmlTokenView::Failure => Err(XmlFailure::Syntax),
        _ => Ok(st),
    }
}

/// The extraction state after a sequence of events, from outside any text element
/// with no text.
pub open spec fn extract_events(ts: Seq<XmlTokenView>) -> Result<(bool, Seq<char>), XmlFailure>
    decreases ts.len(),
{
    if ts.len() == 0 {
        Ok((false, Seq::empty()))
    } else {
        match extract_events(ts.drop_last()) {
            Ok(st) => extract_step(st, ts.last()),
            Err(f) => Err(f),
        }
    }
}

/// Law: character data is taken only inside an element whose qualified name ends in
/// `:t` (such as `w:t`): when no element starts with such a name, the extracted text
/// holds nothing but the line breaks of paragraphs, whatever else the document holds
/// (`w:instrText`, `w:delText`, ...).
pub proof fn lemma_text_only_from_t_elements(ts: Seq<XmlTokenView>)
    requires
        forall|i: int|
            0 <= i < ts.len() ==> ((#[trigger] ts[i]) matches XmlTokenView::Start(n) ==> !(n.len()
                >= 2 && n[n.len() - 2] == 0x3Au8 && n[n.len() - 1] == 0x74u8)),
    ensures
        extract_events(ts) matches Ok(st) ==> !st.0 && forall|k: int|
            0 <= k < st.1.len() ==> #[trigger] st.1[k] == '\n',
    decreases ts.len(),
{
    if ts.len() > 0 {
        let p = ts.drop_last();
        assert forall|i: int| 0 <= i < p.len() implies ((#[trigger] p[i]) matches XmlTokenView::Start(
            n,
        ) ==> !(n.len() >= 2 && n[n.len() - 2] == 0x3Au8 && n[n.len() - 1] == 0x74u8)) by {
            assert(p[i] == ts[i]);
        }
        lemma_text_only_from_t_elements(p);
        let t = ts.last();
        assert(t == ts[ts.len() - 1]);
        if let XmlTokenView::Start(n) = t {
            if ends_with(n, colon_t()) {
                assert(n.subrange(n.len() - 2, n.len() as int)[0] == n[n.len() - 2]);
                assert(n.subrange(n.len() - 2, n.len() as int)[1] == n[n.len() - 1]);
            }
            if n == seq![0x77u8, 0x3Au8, 0x74u8] {
                assert(n[n.len() - 2] == 0x3Au8);
            }
        }
        if let Ok(st0) = extract_events(p) {
            if let Ok(st) = extract_events(ts) {
                assert forall|k: int| 0 <= k < st.1.len() implies #[trigger] st.1[k] == '\n' by {
                    if k < st0.1.len() {
                        assert(st.1[k] == st0.1[k]);
                    }
                }
            }
        }
    }
}

/// The text of a document XML: its trimmed events read in order.
pub open spec fn document_text(xml: Seq<char>) -> Result<Seq<char>, XmlFailure> {
    match extract_events(trimmed_events(document_events(xml))) {
        Ok(st) => Ok(st.1),
        Err(f) => Err(f),
    }
}

fn bytes_end_with(name: &Vec<u8>, a: u8, b: u8) -> (r: bool)
    ensures
        r == ends_with(name@, seq![a, b]),
{
    let n = name.len();
    if n < 2 {
        return false;
    }
    let r = name[n - 2] == a && name[n - 1] == b;
    assert(r ==> name@.subrange(n - 2, n as int) =~= seq![a, b]);
    assert(name@.subrange(n - 2, n as int)[0] == name@[n - 2]);
    assert(name@.subrange(n - 2, n as int)[1] == name@[n - 1]);
    r
}

fn bytes_equal3(name: &Vec<u8>, a: u8, b: u8, c: u8) -> (r: bool)
    ensures
        r == (name@ == seq![a, b, c]),
{
    let r = name.len() == 3 && name[0] == a && name[1] == b && name[2] == c;
    assert(r ==> name@ =~= seq![a, b, c]);
    r
}

/// Extracts the text of a document XML: the character data of each text element (`w:t`),
/// unescaped, followed by a space, and a line break after each paragraph (`w:p`).
pub fn extract_text_from_document_xml(xml: &str) -> (r: Result<String, DocError>)
    ensures
        match r {
            Ok(s) => document_text(xml@) == Ok::<Seq<char>, XmlFailure>(s@),
            Err(e) => xml_failure_of(e) matches Some(f) && document_text(xml@) == Err::<
                Seq<char>,
                XmlFailure,
            >(f),
        },
{
    let mut reader = reader_from_str(xml);
    set_trim_text(&mut reader);
    let ghost all = pending_events(reader);
    let mut buf: Vec<u8> = Vec::new();
    let mut out: Vec<char> = Vec::new();
    let mut in_text = false;
    let ghost mut j: int = 0;
    assert(all.skip(0) =~= all);
    assert(all.take(0) =~= Seq::<XmlTokenView>::empty());
    loop
        invariant
            all == trimmed_events(document_events(xml@)),
            0 <= j <= all.len(),
            pending_events(reader) == all.skip(j),
            extract_events(all.take(j)) == Ok::<(bool, Seq<char>), XmlFailure>((in_text, out@)),
        ensures
            extract_events(all) == Ok::<(bool, Seq<char>), XmlFailure>((in_text, out@)),
        decreases all.len() - j,
    {
        let ghost before = pending_events(reader);
        let t = next_event(&mut reader, &mut buf);
        if let XmlToken::Eof = t {
            assert(j == all.len()) by {
                if j < all.len() {
                    assert(all.skip(j).len() > 0);
                }
            }
            assert(all.take(j) =~= all);
            break;
        }
        assert(before.len() > 0);
        assert(all[j] == t@);
        assert(all.take(j + 1).drop_last() =~= all.take(j));
        assert(all.skip(j).drop_first() =~= all.skip(j + 1));
        let ghost tv = t@;
        let ghost st0 = (in_text, out@);
        assert(extract_events(all.take(j + 1)) == extract_step(st0, tv));
        match t {
            XmlToken::Start(name) => {
                if bytes_end_with(&name, 0x3A, 0x74) || bytes_equal3(&name, 0x77, 0x3A, 0x74) {
                    in_text = true;
                }
            },
            XmlToken::End(name) => {
                if bytes_end_with(&name, 0x3A, 0x74) || bytes_equal3(&name, 0x77, 0x3A, 0x74) {
                    in_text = false;
                }
                if bytes_end_with(&name, 0x3A, 0x70) || bytes_equal3(&name, 0x77, 0x3A, 0x70) {
                    out.push('\n');
                }
            },
            XmlToken::Text(raw) => {
                if in_text {
                    let s = match utf8_text(raw.as_slice()) {
                        Ok(s) => s,
                        Err(e) => {
                            proof {
                                lemma_extract_failure_persists(all, j + 1);
                            }
                            return Err(DocError::NotUtf8(e));
                        },
                    };
                    let u = match unescape(s) {
                        Ok(u) => u,
                        Err(e) => {
                            proof {
                                lemma_extract_failure_persists(all, j + 1);
                            }
                            return Err(DocError::Escape(e));
                        },
                    };
                    append_chars(&mut out, &chars_of(u.as_str()));
                    out.push(' ');
                    assert(out@ =~= st0.1 + u@ + seq![' ']);
                }
            },
            XmlToken::Failure(e) => {
                proof {
                    lemma_extract_failure_persists(all, j + 1);
                }
                return Err(DocError::Syntax(e));
            },
            _ => {},
        }
        assert(extract_step(st0, tv) == Ok::<(bool, Seq<char>), XmlFailure>((in_text, out@)));
        proof {
            j = j + 1;
        }
        buf.clear();
    }
    Ok(string_of(&out))
}

/// Once extraction fails, it fails with the same failure on any longer sequence.
proof fn lemma_extract_failure_persists(ts: Seq<XmlTokenView>, i: int)
    requires
        0 <= i <= ts.len(),
        extract_events(ts.take(i)) is Err,
    ensures
        extract_events(ts) == extract_events(ts.take(i)),
    decreases ts.len() - i,
{
    if i < ts.len() {
        assert(ts.take(i + 1).drop_last() =~= ts.take(i));
        lemma_extract_failure_persists(ts, i + 1);
    } else {
        assert(ts.take(i) =~= ts);
    }
}

} // verus!

verus! {

/// The bytes of the entry `word/document.xml` of a DOCX file.
pub open spec fn docx_body(bytes: Seq<u8>) -> Seq<u8> {
    zip_entry(bytes, "word/document.xml"@)
}

/// The bytes open as a ZIP archive and its entry `word/document.xml` opens.
pub open spec fn docx_opens(bytes: Seq<u8>) -> bool {
    zip_opens(bytes) && zip_entry_opens(bytes, "word/document.xml"@)
}

/// The entry `word/document.xml` opens, reads to its end, and is UTF-8 text.
pub open spec fn docx_readable(bytes: Seq<u8>) -> bool {
    docx_opens(bytes) && zip_entry_intact(bytes, "word/document.xml"@) && valid_utf8(
        docx_body(bytes),
    )
}

/// Extracts the text of a DOCX file held in memory: reads the entry
/// `word/document.xml` of the archive and extracts the text of that XML.
pub fn extract_docx_text(bytes: &[u8]) -> (r: Result<String, DocError>)
    ensures
        (r matches Err(DocError::Archive(_))) <==> !zip_opens(bytes@),
        ((r matches Err(DocError::MissingDocument(_))) || (r matches Err(DocError::Encrypted)))
            <==> (zip_opens(bytes@) && !docx_opens(bytes@)),
        (r matches Err(DocError::Read(_))) <==> (docx_opens(bytes@) && !docx_readable(bytes@)),
        r matches Ok(s) ==> docx_readable(bytes@) && document_text(decode_utf8(docx_body(bytes@)))
            == Ok::<Seq<char>, XmlFailure>(s@),
        r matches Err(e) ==> (xml_failure_of(e) matches Some(f) ==> docx_readable(bytes@)
            && document_text(decode_utf8(docx_body(bytes@))) == Err::<Seq<char>, XmlFailure>(f)),
        docx_readable(bytes@) ==> (r is Ok <==> document_text(decode_utf8(docx_body(bytes@))) is Ok),
{
    let mut archive = match open_archive(bytes) {
        Ok(a) => a,
        Err(e) => {
            return Err(DocError::Archive(e));
        },
    };
    let refused = {
        let probe = probe_entry(&mut archive, "word/document.xml");
        match probe {
            Ok(Err(_)) => true,
            _ => false,
        }
    };
    if refused {
        return Err(DocError::Encrypted);
    }
    let mut entry = match archive_entry(&mut archive, "word/document.xml") {
        Ok(f) => f,
        Err(e) => {
            return Err(DocError::MissingDocument(e));
        },
    };
    let xml = match entry_text(&mut entry) {
        Ok(s) => s,
        Err(e) => {
            return Err(DocError::Read(e));
        },
    };
    extract_text_from_document_xml(xml.as_str())
}

} // verus!
