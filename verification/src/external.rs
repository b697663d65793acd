//! Calls into std and outside crates that Verus does not read, with the contracts the
//! library relies on.

use vstd::prelude::*;
use crate::xml::XmlElement;
use crate::text::first_index_of;
use base64::Engine;
use typed_path::Utf8WindowsPath;
use typed_path::Utf8WindowsPrefix;

verus! {

/// `String::from_iter` over `char`s: the string holding exactly these characters.
#[verifier::external_body]
pub(crate) fn string_from_chars(chars: Vec<char>) -> (res: String)
    ensures
        res@ == chars@,
{
    String::from_iter(chars)
}


/// The prefix of a Windows path, as `typed_path` reads it.
pub enum WindowsPrefix {
    /// `\\?\name`
    Verbatim(String),
    /// `\\?\UNC\server\share`
    VerbatimUNC(String, String),
    /// `\\?\C:`
    VerbatimDisk(char),
    /// `\\.\device`
    DeviceNS(String),
    /// `\\server\share`
    UNC(String, String),
    /// `C:`
    Disk(char),
}

/// A Windows path separator: `\` or `/`.
pub open spec fn is_windows_separator(c: char) -> bool {
    c == '\\' || c == '/'
}

/// A path starts the way every `typed_path` Windows prefix does: with two separators
/// (verbatim, device and UNC prefixes) or with a drive letter and `:` (disk prefixes).
pub open spec fn starts_like_windows_prefix(path: Seq<char>) -> bool {
    &&& path.len() >= 2
    &&& (path[1] == ':' || (is_windows_separator(path[0]) && is_windows_separator(path[1])))
}

/// What `typed_path` parses as the prefix of a Windows path that starts like one.
pub uninterp spec fn windows_prefix_parsed(path: Seq<char>) -> Option<WindowsPrefix>;

/// What `typed_path` takes for the prefix of a Windows path: none where the path does not
/// start like a prefix, else what its prefix grammar parses.
pub open spec fn windows_prefix_of(path: Seq<char>) -> Option<WindowsPrefix> {
    if starts_like_windows_prefix(path) {
        windows_prefix_parsed(path)
    } else {
        None
    }
}

/// `Utf8WindowsPath::new(path).components().prefix_kind()`, with the borrowed prefix
/// copied into owned values. The parser looks for a prefix only at the start of the path,
/// and each prefix form begins with two separators or with one letter and `:`; the contract
/// states that and names what the prefix grammar gives beyond it.
#[verifier::external_body]
pub(crate) fn windows_path_prefix(path: &str) -> (res: Option<WindowsPrefix>)
    ensures
        res == (if starts_like_windows_prefix(path@) {
            windows_prefix_parsed(path@)
        } else {
            None::<WindowsPrefix>
        }),
{
    match Utf8WindowsPath::new(path).components().prefix_kind() {
        None => None,
        Some(Utf8WindowsPrefix::Verbatim(x)) => Some(WindowsPrefix::Verbatim(x.to_owned())),
        Some(Utf8WindowsPrefix::VerbatimUNC(x, y)) => Some(WindowsPrefix::VerbatimUNC(x.to_owned(), y.to_owned())),
        Some(Utf8WindowsPrefix::VerbatimDisk(d)) => Some(WindowsPrefix::VerbatimDisk(d)),
        Some(Utf8WindowsPrefix::DeviceNS(x)) => Some(WindowsPrefix::DeviceNS(x.to_owned())),
        Some(Utf8WindowsPrefix::UNC(x, y)) => Some(WindowsPrefix::UNC(x.to_owned(), y.to_owned())),
        Some(Utf8WindowsPrefix::Disk(d)) => Some(WindowsPrefix::Disk(d)),
    }
}

/// Whether `typed_path` takes a Windows path to be absolute.
pub uninterp spec fn windows_path_absolute(path: Seq<char>) -> bool;

/// `Utf8WindowsPath::is_absolute`; the contract names the result.
#[verifier::external_body]
pub(crate) fn windows_path_is_absolute(path: &str) -> (res: bool)
    ensures
        res == windows_path_absolute(path@),
{
    Utf8WindowsPath::new(path).is_absolute()
}

/// The Unix form `typed_path` gives a Windows path.
pub uninterp spec fn windows_path_as_unix(path: Seq<char>) -> Seq<char>;

/// `Utf8WindowsPath::with_unix_encoding`, as a string; the contract names the result.
#[verifier::external_body]
pub(crate) fn windows_path_unix_form(path: &str) -> (res: String)
    ensures
        res@ == windows_path_as_unix(path@),
{
    Utf8WindowsPath::new(path).with_unix_encoding().into_string()
}

/// What the standard base64 engine decodes from a text: the bytes, or the `Display` text
/// of its error.
pub uninterp spec fn base64_decoded(input: Seq<u8>) -> Result<Seq<u8>, Seq<char>>;

/// `base64::engine::general_purpose::STANDARD.decode`, with the error written out by its
/// `Display`; the contract names the result.
#[verifier::external_body]
pub(crate) fn base64_decode(input: &[u8]) -> (res: Result<Vec<u8>, String>)
    ensures
        match res {
            Ok(bytes) => base64_decoded(input@) == Ok::<Seq<u8>, Seq<char>>(bytes@),
            Err(message) => base64_decoded(input@) == Err::<Seq<u8>, Seq<char>>(message@),
        },
{
    match base64::engine::general_purpose::STANDARD.decode(input) {
        Ok(bytes) => Ok(bytes),
        Err(error) => Err(error.to_string()),
    }
}

/// A digit of the standard base64 alphabet: `A`-`Z`, `a`-`z`, `0`-`9`, `+`, `/`.
pub open spec fn base64_digit(v: int) -> char {
    if v < 26 {
        (65 + v) as char
    } else if v < 52 {
        (71 + v) as char
    } else if v < 62 {
        (v - 4) as char
    } else if v == 62 {
        '+'
    } else {
        '/'
    }
}

/// The standard base64 text of some bytes: each group of three bytes becomes four digits
/// of six bits each, and a last group of one or two bytes is padded with `=`.
pub open spec fn base64_encoded(input: Seq<u8>) -> Seq<char>
    decreases input.len(),
{
    if input.len() == 0 {
        Seq::empty()
    } else if input.len() == 1 {
        let b0 = input[0] as int;
        seq![base64_digit(b0 / 4), base64_digit((b0 % 4) * 16), '=', '=']
    } else if input.len() == 2 {
        let b0 = input[0] as int;
        let b1 = input[1] as int;
        seq![base64_digit(b0 / 4), base64_digit((b0 % 4) * 16 + b1 / 16), base64_digit((b1 % 16) * 4), '=']
    } else {
        let b0 = input[0] as int;
        let b1 = input[1] as int;
        let b2 = input[2] as int;
        seq![
            base64_digit(b0 / 4),
            base64_digit((b0 % 4) * 16 + b1 / 16),
            base64_digit((b1 % 16) * 4 + b2 / 64),
            base64_digit(b2 % 64),
        ] + base64_encoded(input.skip(3))
    }
}

/// `base64::engine::general_purpose::STANDARD.encode_string`: appends the standard,
/// padded base64 text of `input` to `out`.
#[verifier::external_body]
pub(crate) fn base64_encode_into(input: &[u8], out: &mut String)
    ensures
        final(out)@ == old(out)@ + base64_encoded(input@),
{
    base64::engine::general_purpose::STANDARD.encode_string(input, out)
}

/// The kinds of file that `infer` tells apart.
#[derive(PartialEq, Eq, Structural)]
pub enum FileKind {
    App,
    Archive,
    Audio,
    Book,
    Doc,
    Font,
    Image,
    Text,
    Video,
    Custom,
}

/// What `infer` reports a buffer to be: the matcher kind and MIME type of the first type in
/// its table that matches.
pub uninterp spec fn infer_report(bytes: Seq<u8>) -> Option<(FileKind, Seq<char>)>;

/// What `infer` finds a buffer to be. Its MIME types are the string literals of its fixed
/// matcher table, none of which holds NUL: a report is one with such a MIME type.
pub open spec fn inferred_type(bytes: Seq<u8>) -> Option<(FileKind, Seq<char>)> {
    match infer_report(bytes) {
        Some((kind, mime)) => if first_index_of(mime, '\0') is None {
            Some((kind, mime))
        } else {
            None
        },
        None => None,
    }
}

/// `infer::get`, with the type's matcher kind and MIME type copied out. The contract states
/// that the MIME type holds no NUL and names the rest of the result.
#[verifier::external_body]
pub(crate) fn infer_type(bytes: &[u8]) -> (res: Option<(FileKind, String)>)
    ensures
        match res {
            Some((kind, mime)) => {
                &&& infer_report(bytes@) == Some((kind, mime@))
                &&& first_index_of(mime@, '\0') is None
            },
            None => infer_report(bytes@) is None,
        },
{
    let found = infer::get(bytes)?;
    let kind = match found.matcher_type() {
        infer::MatcherType::App => FileKind::App,
        infer::MatcherType::Archive => FileKind::Archive,
        infer::MatcherType::Audio => FileKind::Audio,
        infer::MatcherType::Book => FileKind::Book,
        infer::MatcherType::Doc => FileKind::Doc,
        infer::MatcherType::Font => FileKind::Font,
        infer::MatcherType::Image => FileKind::Image,
        infer::MatcherType::Text => FileKind::Text,
        infer::MatcherType::Video => FileKind::Video,
        infer::MatcherType::Custom => FileKind::Custom,
    };
    Some((kind, found.mime_type().to_owned()))
}

/// An event of `xml`'s pull parser, reduced to what the icon check reads.
pub enum XmlEventKind {
    /// The start of an element: its local name and namespace.
    StartElement(String, Option<String>),
    /// The end of the document.
    EndDocument,
    /// A parse error; the parser stops after it.
    Error,
    /// Any other event.
    Other,
}

/// The events `xml::reader::EventReader` yields for some bytes, in order, up to and
/// including the end of the document or the first error.
pub uninterp spec fn xml_events(bytes: Seq<u8>) -> Seq<XmlEventKind>;

/// The events of `xml::reader::EventReader::new(bytes)` as an iterator, each reduced to
/// an `XmlEventKind`; the contract names the sequence.
#[verifier::external_body]
pub(crate) fn xml_event_kinds(bytes: &[u8]) -> (res: Vec<XmlEventKind>)
    ensures
        res@ == xml_events(bytes@),
{
    let mut kinds = Vec::new();
    for event in xml::reader::EventReader::new(bytes) {
        kinds.push(match event {
            Ok(xml::reader::XmlEvent::StartElement { name, .. }) => XmlEventKind::StartElement(name.local_name, name.namespace),
            Ok(xml::reader::XmlEvent::EndDocument) => XmlEventKind::EndDocument,
            Ok(_) => XmlEventKind::Other,
            Err(_) => XmlEventKind::Error,
        });
    }
    kinds
}

#[verifier::external_type_specification]
#[verifier::external_body]
pub struct ExSpexElement(spex::xml::Element);

/// What `spex` reads from a text: the root element, with the attributes of the given
/// names looked up on every element, or the `Display` text of the error.
pub uninterp spec fn spex_document(text: Seq<char>, attribute_names: Seq<Seq<char>>) -> Result<XmlElement, Seq<char>>;

/// `spex::parsing::XmlReader::parse_auto` on the text, with the root element copied into
/// an `XmlElement`; the contract names the result.
#[verifier::external_body]
pub(crate) fn parse_xml_document(text: &str, attribute_names: &Vec<String>) -> (res: Result<XmlElement, String>)
    ensures
        match res {
            Ok(root) => spex_document(text@, attribute_names@.map_values(|n: String| n@)) == Ok::<
                XmlElement,
                Seq<char>,
            >(root),
            Err(message) => spex_document(text@, attribute_names@.map_values(|n: String| n@))
                == Err::<XmlElement, Seq<char>>(message@),
        },
{
    match spex::parsing::XmlReader::parse_auto(std::io::Cursor::new(text)) {
        Ok(document) => Ok(element_model(document.root(), attribute_names)),
        Err(error) => Err(error.to_string()),
    }
}

/// Copies a `spex` element and its descendants into an `XmlElement`: name, namespace, the
/// lookups of the given attribute names, the text-only content, and the child elements.
/// It has no contract of its own; `parse_xml_document` states what the copy is.
#[verifier::external_body]
fn element_model(e: &spex::xml::Element, attribute_names: &Vec<String>) -> XmlElement {
    XmlElement {
        local_name: e.name().local_part().to_owned(),
        namespace: e.name().namespace().map(|n| n.to_owned()),
        attributes: attribute_names.iter().map(|n| (n.clone(), e.att_opt(n.as_str()).map(|v| v.to_owned()))).collect(),
        text: e.text().ok().map(|t| t.to_owned()),
        children: e.elements().map(|c| element_model(c, attribute_names)).collect(),
    }
}

} // verus!
