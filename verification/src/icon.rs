//! Icons: LiveSplit stores an icon as a path, a URI or a base64 .NET-serialised bitmap;
//! LibreSplit wants a URI.

use vstd::prelude::*;
use crate::external::{
    FileKind, WindowsPrefix, XmlEventKind, base64_decode, base64_decoded, base64_encode_into,
    base64_encoded, infer_type, inferred_type, string_from_chars, windows_path_absolute,
    windows_path_as_unix, windows_path_is_absolute, windows_path_prefix, windows_path_unix_form,
    windows_prefix_of, starts_like_windows_prefix, xml_event_kinds, xml_events,
};
use crate::text::{
    chars_of, lemma_trim_start_fixed, find_char, first_index_of, has_prefix, has_suffix, lemma_split_once_at, slice_chars,
    split_once, trim, trim_chars,
};
use crate::libresplit::LibreSplitFile;
use crate::xml::str_equal;

verus! {

/// `u8::is_ascii_whitespace`: space, tab, line feed, form feed, carriage return.
pub open spec fn is_ascii_whitespace_byte(b: u8) -> bool {
    b == 0x20 || b == 0x09 || b == 0x0A || b == 0x0C || b == 0x0D
}

/// The bytes without ASCII white space.
pub open spec fn without_ascii_whitespace(b: Seq<u8>) -> Seq<u8>
    decreases b.len(),
{
    if b.len() == 0 {
        b
    } else if is_ascii_whitespace_byte(b.last()) {
        without_ascii_whitespace(b.drop_last())
    } else {
        without_ascii_whitespace(b.drop_last()).push(b.last())
    }
}

pub open spec fn is_ascii_alpha(c: char) -> bool {
    (65 <= (c as u32) <= 90) || (97 <= (c as u32) <= 122)
}

pub open spec fn is_ascii_alnum(c: char) -> bool {
    is_ascii_alpha(c) || (48 <= (c as u32) <= 57)
}

/// A character allowed in a URI scheme after its first letter.
pub open spec fn is_scheme_char(c: char) -> bool {
    is_ascii_alnum(c) || c == '+' || c == '-' || c == '.'
}

/// The text before the first `:` is a URI scheme: a letter, then letters, digits, `+`,
/// `-` or `.`.
pub open spec fn has_uri_scheme(source: Seq<char>) -> bool {
    match split_once(source, ':') {
        Some((scheme, _)) => {
            &&& scheme.len() > 0
            &&& is_ascii_alpha(scheme[0])
            &&& forall|i: int| 0 <= i < scheme.len() ==> is_scheme_char(#[trigger] scheme[i])
        },
        None => false,
    }
}

/// The header of a .NET binary-serialised stream.
pub open spec fn stream_header() -> Seq<u8> {
    seq![0u8, 1, 0, 0, 0, 255, 255, 255, 255, 1, 0, 0, 0, 0, 0, 0, 0]
}

/// `i32::from_le_bytes` of four bytes, when it is not negative.
pub open spec fn le_length(b0: u8, b1: u8, b2: u8, b3: u8) -> Option<int> {
    if b3 < 128 {
        Some(b0 + 256 * b1 + 65536 * b2 + 16777216 * b3)
    } else {
        None
    }
}

/// `pattern` occurs in `s`.
pub open spec fn contains_window(s: Seq<u8>, pattern: Seq<u8>) -> bool {
    exists|i: int| 0 <= i && i + pattern.len() <= s.len() && #[trigger] s.subrange(i, i + pattern.len()) == pattern
}

/// The bitmap byte array whose record starts at `offset`: a record of type 15 whose
/// array of primitive type 2 (byte) has a length that ends it one byte before the end of
/// the stream, where that last byte is 11 (the end marker), and the type name
/// `System.Drawing.Bitmap` comes before the record.
pub open spec fn bitmap_record_at(d: Seq<u8>, offset: int, bitmap_name: Seq<u8>) -> Option<Seq<u8>> {
    if offset + 10 <= d.len() && d[offset] == 15 && d[offset + 9] == 2 {
        match le_length(d[offset + 5], d[offset + 6], d[offset + 7], d[offset + 8]) {
            Some(length) => {
                let start = offset + 10;
                let end = start + length;
                if end + 1 == d.len() && d[end] == 11 && contains_window(d.take(offset), bitmap_name) {
                    Some(d.subrange(start, end))
                } else {
                    None
                }
            },
            None => None,
        }
    } else {
        None
    }
}

/// The first bitmap record at `offset` or later.
pub open spec fn first_bitmap_from(d: Seq<u8>, offset: int, bitmap_name: Seq<u8>) -> Option<Seq<u8>>
    decreases d.len() - offset,
{
    if offset < 0 || offset + 10 > d.len() {
        None
    } else {
        match bitmap_record_at(d, offset, bitmap_name) {
            Some(image) => Some(image),
            None => first_bitmap_from(d, offset + 1, bitmap_name),
        }
    }
}

/// The first event that starts an element or is an error.
pub open spec fn first_start_or_error(events: Seq<XmlEventKind>) -> Option<XmlEventKind>
    decreases events.len(),
{
    if events.len() == 0 {
        None
    } else {
        match events[0] {
            XmlEventKind::StartElement(_, _) => Some(events[0]),
            XmlEventKind::Error => Some(events[0]),
            _ => first_start_or_error(events.drop_first()),
        }
    }
}

/// The image is an SVG document: its first element, read before any XML error, is `svg`
/// outside any namespace or in the SVG namespace.
pub open spec fn is_svg(image: Seq<u8>) -> bool {
    match first_start_or_error(xml_events(image)) {
        Some(XmlEventKind::StartElement(name, namespace)) => {
            &&& name@ == "svg"@
            &&& match namespace {
                Some(ns) => ns@ == "http://www.w3.org/2000/svg"@,
                None => true,
            }
        },
        _ => false,
    }
}

/// The MIME type of an image: what `infer` finds when it finds an image, else SVG.
pub open spec fn image_mime(image: Seq<u8>) -> Option<Seq<char>> {
    match inferred_type(image) {
        Some((FileKind::Image, mime)) => Some(mime),
        _ => if is_svg(image) {
            Some("image/svg+xml"@)
        } else {
            None
        },
    }
}

/// An embedded icon: base64 text of a .NET stream that holds a bitmap byte array, turned
/// into a `data:` URI for the image bytes.
pub open spec fn embedded_icon(encoded: Seq<u8>, bitmap_name: Seq<u8>) -> Result<Seq<char>, Seq<char>> {
    if encoded.len() == 0 {
        Ok(Seq::empty())
    } else {
        match base64_decoded(encoded) {
            Err(message) => Err("Invalid base64 in embedded icon: "@ + message),
            Ok(decoded) => if !has_prefix(decoded, stream_header()) {
                Err("Invalid .NET stream header in embedded icon"@)
            } else {
                match first_bitmap_from(decoded, 0, bitmap_name) {
                    None => Err("Invalid .NET bitmap byte array in embedded icon"@),
                    Some(image) => match image_mime(image) {
                        None => Err("Unsupported image format in embedded icon"@),
                        Some(mime) => Ok("data:"@ + mime + ";base64,"@ + base64_encoded(image)),
                    },
                }
            },
        }
    }
}

/// A .NET stream ending in a bitmap byte-array record: `prefix`, then the record (type 15,
/// a four-byte object id, the array length as four little-endian bytes, primitive type 2
/// for bytes), the image bytes, and the end marker 11.
pub open spec fn bitmap_stream(prefix: Seq<u8>, id: Seq<u8>, length: Seq<u8>, image: Seq<u8>) -> Seq<u8> {
    prefix + seq![15u8] + id + length + seq![2u8] + image + seq![11u8]
}

/// The array length of a bitmap record is its four length bytes read little-endian: when
/// they give the image's length (below 2^31), scanning a stream whose prefix names
/// `System.Drawing.Bitmap` and holds no other record finds exactly the image, whatever its
/// size.
pub proof fn law_bitmap_length_is_little_endian(prefix: Seq<u8>, id: Seq<u8>, length: Seq<u8>, image: Seq<u8>)
    requires
        contains_window(prefix, vstd::utf8::encode_utf8("System.Drawing.Bitmap"@)),
        forall|i: int| 0 <= i < prefix.len() ==> #[trigger] prefix[i] != 15,
        id.len() == 4,
        length.len() == 4,
        length[3] < 128,
        image.len() == length[0] + 256 * length[1] + 65536 * length[2] + 16777216 * length[3],
    ensures
        first_bitmap_from(
            bitmap_stream(prefix, id, length, image),
            0,
            vstd::utf8::encode_utf8("System.Drawing.Bitmap"@),
        ) == Some(image),
{
    lemma_bitmap_found_from(prefix, id, length, image, 0);
}

proof fn lemma_bitmap_found_from(prefix: Seq<u8>, id: Seq<u8>, length: Seq<u8>, image: Seq<u8>, o: int)
    requires
        contains_window(prefix, vstd::utf8::encode_utf8("System.Drawing.Bitmap"@)),
        forall|i: int| 0 <= i < prefix.len() ==> #[trigger] prefix[i] != 15,
        id.len() == 4,
        length.len() == 4,
        length[3] < 128,
        image.len() == length[0] + 256 * length[1] + 65536 * length[2] + 16777216 * length[3],
        0 <= o <= prefix.len(),
    ensures
        first_bitmap_from(
            bitmap_stream(prefix, id, length, image),
            o,
            vstd::utf8::encode_utf8("System.Drawing.Bitmap"@),
        ) == Some(image),
    decreases prefix.len() - o,
{
    let name = vstd::utf8::encode_utf8("System.Drawing.Bitmap"@);
    let d = bitmap_stream(prefix, id, length, image);
    let p = prefix.len() as int;
    assert(d.len() == p + 10 + image.len() + 1);
    if o < p {
        assert(d[o] == prefix[o]);
        assert(bitmap_record_at(d, o, name) is None);
        lemma_bitmap_found_from(prefix, id, length, image, o + 1);
    } else {
        assert(d[p] == 15);
        assert(d[p + 5] == length[0]);
        assert(d[p + 6] == length[1]);
        assert(d[p + 7] == length[2]);
        assert(d[p + 8] == length[3]);
        assert(d[p + 9] == 2);
        let end = p + 10 + image.len();
        assert(d[end] == 11);
        assert(d.take(p) == prefix);
        assert(d.subrange(p + 10, end) == image);
    }
}

/// An embedded icon whose base64 text decodes to a .NET stream with its header and a
/// bitmap record (length read little-endian) holding an image of a known type becomes the
/// `data:` URI of that image's MIME type and base64 text.
pub proof fn law_embedded_bitmap_becomes_data_uri(
    encoded: Seq<u8>,
    prefix: Seq<u8>,
    id: Seq<u8>,
    length: Seq<u8>,
    image: Seq<u8>,
    mime: Seq<char>,
)
    requires
        encoded.len() > 0,
        base64_decoded(encoded) == Ok::<Seq<u8>, Seq<char>>(bitmap_stream(prefix, id, length, image)),
        has_prefix(prefix, stream_header()),
        contains_window(prefix, vstd::utf8::encode_utf8("System.Drawing.Bitmap"@)),
        forall|i: int| 0 <= i < prefix.len() ==> #[trigger] prefix[i] != 15,
        id.len() == 4,
        length.len() == 4,
        length[3] < 128,
        image.len() == length[0] + 256 * length[1] + 65536 * length[2] + 16777216 * length[3],
        image_mime(image) == Some(mime),
    ensures
        embedded_icon(encoded, vstd::utf8::encode_utf8("System.Drawing.Bitmap"@)) == Ok::<
            Seq<char>,
            Seq<char>,
        >("data:"@ + mime + ";base64,"@ + base64_encoded(image)),
{
    let d = bitmap_stream(prefix, id, length, image);
    law_bitmap_length_is_little_endian(prefix, id, length, image);
    assert(d.take(stream_header().len() as int) == prefix.take(stream_header().len() as int));
}

/// A source that names a URI scheme, and is neither a Windows path, a CDATA section nor
/// holds a NUL, is kept exactly.
pub proof fn law_uris_are_kept(source: Seq<char>)
    requires
        has_uri_scheme(source),
        windows_prefix_of(source) is None,
        !has_prefix(trim(source), "<![CDATA["@),
        first_index_of(source, '\0') is None,
    ensures
        spec_convert_icon(source) == Ok::<Seq<char>, Seq<char>>(source),
{
    let (scheme, rest) = split_once(source, ':').unwrap();
    crate::text::lemma_first_index_bounds(source, ':');
}

/// A path that is not absolute (no Windows prefix, no leading `/`, no URI scheme; or a
/// Windows prefix without a root) is kept exactly, unless it is a NUL-holding, CDATA or
/// embedded-image text.
pub proof fn law_relative_paths_are_kept(source: Seq<char>)
    requires
        source.len() > 0,
        source[0] != '/',
        first_index_of(source, '\0') is None,
        !has_prefix(trim(source), "<![CDATA["@),
        !has_prefix(
            without_ascii_whitespace(vstd::utf8::encode_utf8(source)),
            vstd::utf8::encode_utf8("AAEAAAD/////"@),
        ),
        match windows_prefix_of(source) {
            Some(_) => !windows_path_absolute(source),
            None => !has_uri_scheme(source),
        },
    ensures
        spec_convert_icon(source) == Ok::<Seq<char>, Seq<char>>(source),
{
}

/// An absolute Unix path becomes the `file://` URI of the same path, unless it holds a NUL
/// or is an embedded-image text.
pub proof fn law_unix_paths_become_file_uris(source: Seq<char>)
    requires
        source.len() > 0,
        source[0] == '/',
        first_index_of(source, '\0') is None,
        !has_prefix(
            without_ascii_whitespace(vstd::utf8::encode_utf8(source)),
            vstd::utf8::encode_utf8("AAEAAAD/////"@),
        ),
    ensures
        spec_convert_icon(source) == Ok::<Seq<char>, Seq<char>>(file_uri(source)),
{
    let t = trim(source);
    assert(!crate::text::is_unicode_whitespace(source[0]));
    lemma_trim_start_fixed(source);
    crate::text::lemma_trim_end_keeps_first(source);
    assert(t[0] == '/');
    if has_prefix(t, "<![CDATA["@) {
        reveal_strlit("<![CDATA[");
        assert(t.take(9)[0] == t[0]);
        assert(t.take(9)[0] == '<');
    }
    crate::text::lemma_first_index_bounds(source, ':');
    if let Some((scheme, rest)) = split_once(source, ':') {
        if scheme.len() > 0 {
            assert(scheme[0] == '/');
        }
    }
}

/// An absolute Windows path on a drive becomes the `file://` URI of `/drive:` and the
/// path in Unix form; one on a share becomes that of `server/share` and the path.
pub proof fn law_windows_paths_become_file_uris(source: Seq<char>)
    requires
        source.len() > 0,
        source[0] != '/',
        first_index_of(source, '\0') is None,
        !has_prefix(trim(source), "<![CDATA["@),
        !has_prefix(
            without_ascii_whitespace(vstd::utf8::encode_utf8(source)),
            vstd::utf8::encode_utf8("AAEAAAD/////"@),
        ),
        windows_path_absolute(source),
    ensures
        match windows_prefix_of(source) {
            Some(WindowsPrefix::Disk(d)) => spec_convert_icon(source) == Ok::<Seq<char>, Seq<char>>(
                file_uri(seq!['/', d, ':'] + windows_path_as_unix(source)),
            ),
            Some(WindowsPrefix::VerbatimDisk(d)) => spec_convert_icon(source) == Ok::<
                Seq<char>,
                Seq<char>,
            >(file_uri(seq!['/', d, ':'] + windows_path_as_unix(source))),
            Some(WindowsPrefix::UNC(server, share)) => spec_convert_icon(source) == Ok::<
                Seq<char>,
                Seq<char>,
            >(file_uri(server@ + seq!['/'] + share@ + windows_path_as_unix(source))),
            Some(WindowsPrefix::VerbatimUNC(server, share)) => spec_convert_icon(source) == Ok::<
                Seq<char>,
                Seq<char>,
            >(file_uri(server@ + seq!['/'] + share@ + windows_path_as_unix(source))),
            _ => true,
        },
{
}

/// A CDATA section that holds only white space gives no icon.
pub proof fn law_blank_cdata_gives_no_icon(source: Seq<char>)
    requires
        first_index_of(source, '\0') is None,
        has_prefix(trim(source), "<![CDATA["@),
        has_suffix(trim(source).skip("<![CDATA["@.len() as int), "]]>"@),
        trim(
            trim(source).skip("<![CDATA["@.len() as int).take(
                trim(source).skip("<![CDATA["@.len() as int).len() - "]]>"@.len(),
            ),
        ).len() == 0,
    ensures
        spec_convert_icon(source) == Ok::<Seq<char>, Seq<char>>(Seq::empty()),
{
    reveal_strlit("<![CDATA[");
    assert(source.len() > 0) by {
        if source.len() == 0 {
            assert(trim(source) =~= source);
        }
    }
    let t = trim(source);
    let inner = t.skip(9);
    let icon = trim(inner.take(inner.len() - "]]>"@.len()));
    assert(icon =~= Seq::<char>::empty());
    assert(vstd::utf8::encode_utf8(icon) =~= Seq::<u8>::empty());
}

pub open spec fn hex_digit(v: int) -> char {
    if v < 10 {
        (48 + v) as char
    } else {
        (55 + v) as char
    }
}

/// A byte left as it is in a file URI path: an ASCII letter or digit, or one of
/// `- . _ ~ / :`.
pub open spec fn is_path_byte(b: u8) -> bool {
    (65 <= b <= 90) || (97 <= b <= 122) || (48 <= b <= 57) || b == 45 || b == 46 || b == 95 || b
        == 126 || b == 47 || b == 58
}

/// Percent-encoding of a path's UTF-8 bytes: every byte that is not a path byte becomes
/// `%` and two upper-case hex digits.
pub open spec fn percent_encoded(bytes: Seq<u8>) -> Seq<char>
    decreases bytes.len(),
{
    if bytes.len() == 0 {
        Seq::empty()
    } else {
        percent_encoded(bytes.drop_last()) + percent_piece(bytes.last())
    }
}

/// The value of an upper-case hex digit.
pub open spec fn hex_value(c: char) -> Option<int> {
    if 48 <= (c as u32) <= 57 {
        Some((c as u32) - 48)
    } else if 65 <= (c as u32) <= 70 {
        Some((c as u32) - 55)
    } else {
        None
    }
}

/// Percent-decoding: `%` and two hex digits stand for a byte, an ASCII character for
/// itself; `None` for anything else.
pub open spec fn percent_decoded(s: Seq<char>) -> Option<Seq<u8>>
    decreases s.len(),
{
    if s.len() == 0 {
        Some(Seq::empty())
    } else if s[0] == '%' {
        if s.len() >= 3 {
            match (hex_value(s[1]), hex_value(s[2]), percent_decoded(s.skip(3))) {
                (Some(hi), Some(lo), Some(rest)) => Some(seq![(hi * 16 + lo) as u8] + rest),
                _ => None,
            }
        } else {
            None
        }
    } else if (s[0] as u32) < 128 {
        match percent_decoded(s.skip(1)) {
            Some(rest) => Some(seq![s[0] as u8] + rest),
            None => None,
        }
    } else {
        None
    }
}

/// The encoding of the bytes one at a time.
pub open spec fn percent_piece(b: u8) -> Seq<char> {
    if is_path_byte(b) {
        seq![b as char]
    } else {
        seq!['%', hex_digit((b / 16) as int), hex_digit((b % 16) as int)]
    }
}

pub proof fn lemma_percent_encoded_concat(a: Seq<u8>, b: Seq<u8>)
    ensures
        percent_encoded(a + b) == percent_encoded(a) + percent_encoded(b),
    decreases b.len(),
{
    if b.len() == 0 {
        assert(a + b =~= a);
        assert(percent_encoded(a) + percent_encoded(b) =~= percent_encoded(a));
    } else {
        lemma_percent_encoded_concat(a, b.drop_last());
        assert((a + b).drop_last() =~= a + b.drop_last());
        assert((a + b).last() == b.last());
        assert(percent_encoded(a + b) =~= percent_encoded(a) + percent_encoded(b));
    }
}

pub proof fn lemma_hex_digit(v: int)
    requires
        0 <= v < 16,
    ensures
        hex_value(hex_digit(v)) == Some(v),
{
}

/// Decoding the encoding of a byte followed by more text decodes the byte, then the text.
pub proof fn lemma_decode_piece(b: u8, rest: Seq<char>)
    ensures
        percent_decoded(percent_piece(b) + rest) == match percent_decoded(rest) {
            Some(r) => Some(seq![b] + r),
            None => None,
        },
{
    let s = percent_piece(b) + rest;
    if is_path_byte(b) {
        assert(s[0] == b as char);
        assert(s.skip(1) =~= rest);
        assert((b as char) as u32 == b as u32);
        assert((b as char) as u8 == b);
    } else {
        lemma_hex_digit((b / 16) as int);
        lemma_hex_digit((b % 16) as int);
        assert(s[0] == '%');
        assert(s.skip(3) =~= rest);
        assert((b / 16) * 16 + b % 16 == b);
    }
}

/// Percent-encoding changes no byte: decoding the encoding gives the bytes back.
pub proof fn law_percent_encoding_decodes_back(bytes: Seq<u8>)
    ensures
        percent_decoded(percent_encoded(bytes)) == Some(bytes),
    decreases bytes.len(),
{
    if bytes.len() > 0 {
        let first = bytes[0];
        let tail = bytes.drop_first();
        assert(bytes =~= seq![first] + tail);
        lemma_percent_encoded_concat(seq![first], tail);
        assert(percent_encoded(seq![first]) =~= percent_piece(first)) by {
            assert(seq![first].drop_last() =~= Seq::<u8>::empty());
            assert(seq![first].last() == first);
            assert(percent_encoded(Seq::<u8>::empty()) =~= Seq::<char>::empty());
        }
        law_percent_encoding_decodes_back(tail);
        lemma_decode_piece(first, percent_encoded(tail));
        assert(seq![first] + tail =~= bytes);
    }
}

/// A `file://` URI for a path.
pub open spec fn file_uri(path: Seq<char>) -> Seq<char> {
    "file://"@ + percent_encoded(vstd::utf8::encode_utf8(path))
}

/// No character of a percent-encoding is NUL.
pub proof fn lemma_percent_encoded_no_nul(bytes: Seq<u8>)
    ensures
        forall|i: int| 0 <= i < percent_encoded(bytes).len() ==> #[trigger] percent_encoded(bytes)[i] != '\0',
    decreases bytes.len(),
{
    if bytes.len() > 0 {
        lemma_percent_encoded_no_nul(bytes.drop_last());
        let b = bytes.last();
        let piece = percent_piece(b);
        if is_path_byte(b) {
            assert(piece[0] != '\0');
        } else {
            assert(piece[0] != '\0');
            assert(piece[1] != '\0');
            assert(piece[2] != '\0');
        }
        let front = percent_encoded(bytes.drop_last());
        assert forall|i: int| 0 <= i < percent_encoded(bytes).len() implies #[trigger] percent_encoded(
            bytes,
        )[i] != '\0' by {
            if i < front.len() {
                assert(percent_encoded(bytes)[i] == front[i]);
            } else {
                assert(percent_encoded(bytes)[i] == piece[i - front.len()]);
            }
        }
    }
}

/// No character of a base64 text is NUL.
pub proof fn lemma_base64_no_nul(input: Seq<u8>)
    ensures
        forall|i: int| 0 <= i < base64_encoded(input).len() ==> #[trigger] base64_encoded(input)[i] != '\0',
    decreases input.len(),
{
    if input.len() >= 3 {
        lemma_base64_no_nul(input.skip(3));
        let head = base64_encoded(input).take(4);
        assert forall|i: int| 0 <= i < base64_encoded(input).len() implies #[trigger] base64_encoded(
            input,
        )[i] != '\0' by {
            if i >= 4 {
                assert(base64_encoded(input)[i] == base64_encoded(input.skip(3))[i - 4]);
            }
        }
    }
}

/// A text made of a scheme of at least two ASCII letters, `:`, and characters none of which
/// is NUL, is an icon kept exactly.
pub proof fn lemma_scheme_text_kept(scheme: Seq<char>, rest: Seq<char>)
    requires
        scheme.len() >= 2,
        forall|i: int| 0 <= i < scheme.len() ==> is_ascii_alpha(#[trigger] scheme[i]),
        forall|i: int| 0 <= i < rest.len() ==> #[trigger] rest[i] != '\0',
    ensures
        spec_convert_icon(scheme + seq![':'] + rest) == Ok::<Seq<char>, Seq<char>>(
            scheme + seq![':'] + rest,
        ),
{
    let r = scheme + seq![':'] + rest;
    let n = scheme.len() as int;
    assert forall|j: int| 0 <= j < r.len() implies r[j] != '\0' by {
        if j < n {
            assert(r[j] == scheme[j]);
        } else if j > n {
            assert(r[j] == rest[j - n - 1]);
        }
    }
    crate::text::lemma_first_index_absent(r, '\0');
    assert forall|j: int| 0 <= j < n implies r[j] != ':' by {
        assert(r[j] == scheme[j]);
    }
    crate::text::lemma_first_index_found(r, ':', n);
    assert(r.take(n) == scheme);
    assert(r[0] == scheme[0]);
    assert(r[1] == scheme[1]);
    assert(!starts_like_windows_prefix(r));
    assert(!crate::text::is_unicode_whitespace(r[0]));
    lemma_trim_start_fixed(r);
    crate::text::lemma_trim_end_keeps_first(r);
    if has_prefix(trim(r), "<![CDATA["@) {
        reveal_strlit("<![CDATA[");
        assert(trim(r).take(9)[0] == trim(r)[0]);
    }
    law_uris_are_kept(r);
}

/// A `file://` URI is an icon kept exactly.
pub proof fn lemma_file_uri_kept(path: Seq<char>)
    ensures
        spec_convert_icon(file_uri(path)) == Ok::<Seq<char>, Seq<char>>(file_uri(path)),
{
    reveal_strlit("file://");
    let rest = seq!['/', '/'] + percent_encoded(vstd::utf8::encode_utf8(path));
    lemma_percent_encoded_no_nul(vstd::utf8::encode_utf8(path));
    assert(file_uri(path) == seq!['f', 'i', 'l', 'e'] + seq![':'] + rest);
    assert forall|i: int| 0 <= i < rest.len() implies #[trigger] rest[i] != '\0' by {
        if i >= 2 {
            assert(rest[i] == percent_encoded(vstd::utf8::encode_utf8(path))[i - 2]);
        }
    }
    lemma_scheme_text_kept(seq!['f', 'i', 'l', 'e'], rest);
}

/// A `data:` URI with a MIME type free of NUL is an icon kept exactly.
pub proof fn lemma_data_uri_kept(mime: Seq<char>, image: Seq<u8>)
    requires
        first_index_of(mime, '\0') is None,
    ensures
        spec_convert_icon("data:"@ + mime + ";base64,"@ + base64_encoded(image)) == Ok::<
            Seq<char>,
            Seq<char>,
        >("data:"@ + mime + ";base64,"@ + base64_encoded(image)),
{
    reveal_strlit("data:");
    reveal_strlit(";base64,");
    crate::text::lemma_first_index_bounds(mime, '\0');
    lemma_base64_no_nul(image);
    let b = base64_encoded(image);
    let rest = mime + ";base64,"@ + b;
    assert("data:"@ + mime + ";base64,"@ + b == seq!['d', 'a', 't', 'a'] + seq![':'] + rest);
    assert forall|i: int| 0 <= i < rest.len() implies #[trigger] rest[i] != '\0' by {
        if i < mime.len() {
            assert(rest[i] == mime[i]);
        } else if i < mime.len() + 8 {
            assert(rest[i] == ";base64,"@[i - mime.len()]);
        } else {
            assert(rest[i] == b[i - mime.len() - 8]);
        }
    }
    lemma_scheme_text_kept(seq!['d', 'a', 't', 'a'], rest);
}

/// An icon that `convert_icon` gave is left as it is by converting it again: the empty
/// icon, a kept path or URI, a `file://` URI or a `data:` URI.
pub proof fn law_converted_icons_are_kept(source: Seq<char>, r: Seq<char>)
    requires
        spec_convert_icon(source) == Ok::<Seq<char>, Seq<char>>(r),
    ensures
        spec_convert_icon(r) == Ok::<Seq<char>, Seq<char>>(r),
{
    if r != source && r.len() > 0 {
        let t = trim(source);
        let wrapped = has_prefix(t, "<![CDATA["@);
        let inner = t.skip("<![CDATA["@.len() as int);
        let icon = if wrapped {
            trim(inner.take(inner.len() - "]]>"@.len()))
        } else {
            source
        };
        let prefix = if source[0] == '/' {
            None
        } else {
            windows_prefix_of(source)
        };
        let encoded = without_ascii_whitespace(vstd::utf8::encode_utf8(icon));
        let bitmap_name = vstd::utf8::encode_utf8("System.Drawing.Bitmap"@);
        if wrapped || has_prefix(encoded, vstd::utf8::encode_utf8("AAEAAAD/////"@)) {
            assert(embedded_icon(encoded, bitmap_name) == Ok::<Seq<char>, Seq<char>>(r));
            let decoded = base64_decoded(encoded)->Ok_0;
            let image = first_bitmap_from(decoded, 0, bitmap_name)->Some_0;
            let mime = image_mime(image)->Some_0;
            assert(r == "data:"@ + mime + ";base64,"@ + base64_encoded(image));
            match inferred_type(image) {
                Some((FileKind::Image, m)) => {
                    assert(mime == m);
                },
                _ => {
                    reveal_strlit("image/svg+xml");
                    assert(mime == "image/svg+xml"@);
                    crate::text::lemma_first_index_absent(mime, '\0');
                },
            }
            lemma_data_uri_kept(mime, image);
        } else {
            assert(path_icon(source, prefix) == Ok::<Seq<char>, Seq<char>>(r));
            match prefix {
                Some(p) => {
                    let unix = windows_path_as_unix(source);
                    match p {
                        WindowsPrefix::Disk(d) => lemma_file_uri_kept(seq!['/', d, ':'] + unix),
                        WindowsPrefix::VerbatimDisk(d) => lemma_file_uri_kept(seq!['/', d, ':'] + unix),
                        WindowsPrefix::UNC(server, share) => lemma_file_uri_kept(
                            server@ + seq!['/'] + share@ + unix,
                        ),
                        WindowsPrefix::VerbatimUNC(server, share) => lemma_file_uri_kept(
                            server@ + seq!['/'] + share@ + unix,
                        ),
                        _ => {},
                    }
                },
                None => lemma_file_uri_kept(source),
            }
        }
    }
}

/// A path icon: absolute Windows paths with a drive or a share and absolute Unix paths
/// become `file://` URIs; other paths stay as they are.
pub open spec fn path_icon(source: Seq<char>, prefix: Option<WindowsPrefix>) -> Result<Seq<char>, Seq<char>> {
    match prefix {
        Some(p) => if !windows_path_absolute(source) {
            Ok(source)
        } else {
            let unix = windows_path_as_unix(source);
            match p {
                WindowsPrefix::Disk(d) => Ok(file_uri(seq!['/', d, ':'] + unix)),
                WindowsPrefix::VerbatimDisk(d) => Ok(file_uri(seq!['/', d, ':'] + unix)),
                WindowsPrefix::UNC(server, share) => Ok(file_uri(server@ + seq!['/'] + share@ + unix)),
                WindowsPrefix::VerbatimUNC(server, share) => Ok(file_uri(server@ + seq!['/'] + share@ + unix)),
                _ => Err("Unsupported Windows icon path prefix"@),
            }
        },
        None => if source.len() > 0 && source[0] == '/' {
            Ok(file_uri(source))
        } else {
            Ok(source)
        },
    }
}

/// The icon URI LibreSplit gets for a LiveSplit icon text, or why there is none.
pub open spec fn spec_convert_icon(source: Seq<char>) -> Result<Seq<char>, Seq<char>> {
    if source.len() == 0 {
        Ok(Seq::empty())
    } else if first_index_of(source, '\0') is Some {
        Err("Icon source contains a NULL byte"@)
    } else {
        let t = trim(source);
        let wrapped = has_prefix(t, "<![CDATA["@);
        let inner = t.skip("<![CDATA["@.len() as int);
        if wrapped && !has_suffix(inner, "]]>"@) {
            Err("Unterminated icon CDATA"@)
        } else {
            let icon = if wrapped {
                trim(inner.take(inner.len() - "]]>"@.len()))
            } else {
                source
            };
            let prefix = if source[0] == '/' {
                None
            } else {
                windows_prefix_of(source)
            };
            if !wrapped && prefix is None && has_uri_scheme(source) {
                Ok(source)
            } else {
                let encoded = without_ascii_whitespace(vstd::utf8::encode_utf8(icon));
                if wrapped || has_prefix(encoded, vstd::utf8::encode_utf8("AAEAAAD/////"@)) {
                    embedded_icon(encoded, vstd::utf8::encode_utf8("System.Drawing.Bitmap"@))
                } else {
                    path_icon(source, prefix)
                }
            }
        }
    }
}


/// The bytes without ASCII white space.
pub fn strip_ascii_whitespace(b: &[u8]) -> (res: Vec<u8>)
    ensures
        res@ == without_ascii_whitespace(b@),
{
    let mut out: Vec<u8> = Vec::new();
    let mut i: usize = 0;
    assert(b@.take(0) == Seq::<u8>::empty());
    while i < b.len()
        invariant
            i <= b@.len(),
            out@ == without_ascii_whitespace(b@.take(i as int)),
        decreases b@.len() - i,
    {
        proof {
            assert(b@.take(i + 1).drop_last() == b@.take(i as int));
            assert(b@.take(i + 1).last() == b@[i as int]);
        }
        let c = b[i];
        if !(c == 0x20 || c == 0x09 || c == 0x0A || c == 0x0C || c == 0x0D) {
            out.push(c);
        }
        i = i + 1;
    }
    assert(b@.take(b@.len() as int) == b@);
    out
}

/// `s` starts with `prefix` (bytes).
pub fn bytes_start_with(s: &[u8], prefix: &[u8]) -> (res: bool)
    ensures
        res == has_prefix(s@, prefix@),
{
    if prefix.len() > s.len() {
        return false;
    }
    let mut i: usize = 0;
    while i < prefix.len()
        invariant
            prefix@.len() <= s@.len(),
            i <= prefix@.len(),
            forall|j: int| 0 <= j < i ==> s@[j] == prefix@[j],
        decreases prefix@.len() - i,
    {
        if s[i] != prefix[i] {
            assert(s@.take(prefix@.len() as int)[i as int] != prefix@[i as int]);
            return false;
        }
        i = i + 1;
    }
    assert(s@.take(prefix@.len() as int) == prefix@);
    true
}

/// `s` starts with `prefix` (characters).
pub fn chars_start_with(s: &[char], prefix: &[char]) -> (res: bool)
    ensures
        res == has_prefix(s@, prefix@),
{
    if prefix.len() > s.len() {
        return false;
    }
    let mut i: usize = 0;
    while i < prefix.len()
        invariant
            prefix@.len() <= s@.len(),
            i <= prefix@.len(),
            forall|j: int| 0 <= j < i ==> s@[j] == prefix@[j],
        decreases prefix@.len() - i,
    {
        if s[i] != prefix[i] {
            assert(s@.take(prefix@.len() as int)[i as int] != prefix@[i as int]);
            return false;
        }
        i = i + 1;
    }
    assert(s@.take(prefix@.len() as int) == prefix@);
    true
}

/// `s` ends with `suffix` (characters).
pub fn chars_end_with(s: &[char], suffix: &[char]) -> (res: bool)
    ensures
        res == has_suffix(s@, suffix@),
{
    if suffix.len() > s.len() {
        return false;
    }
    let slen = s.len();
    let base = slen - suffix.len();
    let mut i: usize = 0;
    while i < suffix.len()
        invariant
            slen == s@.len(),
            suffix@.len() <= s@.len(),
            base == s@.len() - suffix@.len(),
            i <= suffix@.len(),
            forall|j: int| 0 <= j < i ==> s@[base + j] == suffix@[j],
        decreases suffix@.len() - i,
    {
        if s[base + i] != suffix[i] {
            assert(s@.skip(base as int)[i as int] != suffix@[i as int]);
            return false;
        }
        i = i + 1;
    }
    assert(s@.skip(base as int) == suffix@);
    true
}

/// Whether the text before the first `:` is a URI scheme.
pub fn starts_with_uri_scheme(source: &[char]) -> (res: bool)
    ensures
        res == has_uri_scheme(source@),
{
    let colon = match find_char(source, ':') {
        Some(i) => i,
        None => return false,
    };
    proof {
        lemma_split_once_at(source@, ':', colon as int);
    }
    if colon == 0 {
        return false;
    }
    let first = source[0] as u32;
    if !((65 <= first && first <= 90) || (97 <= first && first <= 122)) {
        return false;
    }
    let mut i: usize = 0;
    while i < colon
        invariant
            colon < source@.len(),
            split_once(source@, ':') == Some(
                (source@.subrange(0, colon as int), source@.subrange(colon + 1, source@.len() as int)),
            ),
            i <= colon,
            forall|j: int| 0 <= j < i ==> is_scheme_char(#[trigger] source@.subrange(0, colon as int)[j]),
        decreases colon - i,
    {
        let c = source[i];
        let u = c as u32;
        let ok = (65 <= u && u <= 90) || (97 <= u && u <= 122) || (48 <= u && u <= 57) || c == '+'
            || c == '-' || c == '.';
        assert(source@.subrange(0, colon as int)[i as int] == c);
        if !ok {
            assert(!is_scheme_char(source@.subrange(0, colon as int)[i as int]));
            return false;
        }
        i = i + 1;
    }
    true
}

/// `pattern` occurs in `s[..end]`.
fn contains_window_before(s: &[u8], end: usize, pattern: &[u8]) -> (res: bool)
    requires
        end <= s@.len(),
    ensures
        res == contains_window(s@.take(end as int), pattern@),
{
    let ghost t = s@.take(end as int);
    if pattern.len() > end {
        return false;
    }
    let n = pattern.len();
    let mut i: usize = 0;
    while i <= end - n
        invariant
            t == s@.take(end as int),
            end <= s@.len(),
            n == pattern@.len(),
            n <= end,
            i <= end - n + 1,
            forall|j: int| 0 <= j < i ==> #[trigger] t.subrange(j, j + n) != pattern@,
        decreases end - i,
    {
        let mut k: usize = 0;
        let mut same = true;
        while k < n
            invariant
                i + n <= end <= s@.len(),
                n == pattern@.len(),
                k <= n,
                same == (forall|m: int| 0 <= m < k ==> s@[i + m] == pattern@[m]),
            decreases n - k,
        {
            if s[i + k] != pattern[k] {
                same = false;
            }
            k = k + 1;
        }
        proof {
            if same {
                assert(t.subrange(i as int, i + n) == pattern@);
            } else {
                let m = choose|m: int| 0 <= m < n && s@[i + m] != pattern@[m];
                assert(t.subrange(i as int, i + n)[m] != pattern@[m]);
            }
        }
        if same {
            return true;
        }
        i = i + 1;
    }
    proof {
        assert forall|j: int| 0 <= j && j + n <= t.len() implies #[trigger] t.subrange(j, j + n) != pattern@ by {
            assert(j < i);
        }
    }
    false
}

/// The bitmap byte array whose record starts at `offset`, if that is one.
fn bitmap_at(d: &[u8], offset: usize, bitmap_name: &[u8]) -> (res: Option<Vec<u8>>)
    requires
        offset + 10 <= d@.len(),
    ensures
        match res {
            Some(image) => bitmap_record_at(d@, offset as int, bitmap_name@) == Some(image@),
            None => bitmap_record_at(d@, offset as int, bitmap_name@) is None,
        },
{
    if d[offset] != 15 || d[offset + 9] != 2 {
        return None;
    }
    let b3 = d[offset + 8];
    if b3 >= 128 {
        return None;
    }
    let length: u64 = d[offset + 5] as u64 + 256 * (d[offset + 6] as u64) + 65536 * (d[offset + 7] as u64)
        + 16777216 * (b3 as u64);
    assert(length < 0x8000_0000);
    let start = offset + 10;
    let end = match start.checked_add(length as usize) {
        Some(e) => e,
        None => return None,
    };
    if end >= d.len() || d.len() - end != 1 || d[end] != 11 {
        return None;
    }
    if !contains_window_before(d, offset, bitmap_name) {
        return None;
    }
    Some(slice_bytes(d, start, end))
}

/// A copy of `s[from..to]`.
pub fn slice_bytes(s: &[u8], from: usize, to: usize) -> (res: Vec<u8>)
    requires
        from <= to <= s@.len(),
    ensures
        res@ == s@.subrange(from as int, to as int),
{
    let mut v: Vec<u8> = Vec::new();
    let mut i = from;
    while i < to
        invariant
            from <= i <= to <= s@.len(),
            v@ == s@.subrange(from as int, i as int),
        decreases to - i,
    {
        v.push(s[i]);
        i = i + 1;
    }
    v
}

/// The first bitmap byte array in a decoded .NET stream.
pub fn find_bitmap(d: &[u8], bitmap_name: &[u8]) -> (res: Option<Vec<u8>>)
    ensures
        match res {
            Some(image) => first_bitmap_from(d@, 0, bitmap_name@) == Some(image@),
            None => first_bitmap_from(d@, 0, bitmap_name@) is None,
        },
{
    let mut offset: usize = 0;
    while offset < d.len() && d.len() - offset >= 10
        invariant
            offset <= d@.len(),
            first_bitmap_from(d@, 0, bitmap_name@) == first_bitmap_from(d@, offset as int, bitmap_name@),
        decreases d@.len() - offset,
    {
        match bitmap_at(d, offset, bitmap_name) {
            Some(image) => return Some(image),
            None => {},
        }
        offset = offset + 1;
    }
    None
}

/// Whether the image is an SVG document.
fn check_svg(image: &[u8]) -> (res: bool)
    ensures
        res == is_svg(image@),
{
    let events = xml_event_kinds(image);
    let mut i: usize = 0;
    assert(events@.skip(0) == events@);
    while i < events.len()
        invariant
            i <= events@.len(),
            events@ == xml_events(image@),
            first_start_or_error(events@) == first_start_or_error(events@.skip(i as int)),
        decreases events@.len() - i,
    {
        proof {
            assert(events@.skip(i as int).drop_first() == events@.skip(i + 1));
            assert(events@.skip(i as int)[0] == events@[i as int]);
        }
        match &events[i] {
            XmlEventKind::StartElement(name, namespace) => {
                let svg_name = str_equal(name, "svg");
                let svg_namespace = match namespace {
                    Some(ns) => str_equal(ns, "http://www.w3.org/2000/svg"),
                    None => true,
                };
                return svg_name && svg_namespace;
            },
            XmlEventKind::Error => return false,
            _ => {},
        }
        i = i + 1;
    }
    false
}

/// The MIME type of an image.
fn find_image_mime(image: &[u8]) -> (res: Option<String>)
    ensures
        match res {
            Some(m) => image_mime(image@) == Some(m@),
            None => image_mime(image@) is None,
        },
{
    match infer_type(image) {
        Some((FileKind::Image, mime)) => return Some(mime),
        _ => {},
    }
    if check_svg(image) {
        Some("image/svg+xml".to_owned())
    } else {
        None
    }
}

/// Turns the base64 text of a .NET stream into a `data:` URI for its bitmap.
fn convert_embedded(encoded: &[u8]) -> (res: Result<String, String>)
    ensures
        match res {
            Ok(uri) => embedded_icon(encoded@, vstd::utf8::encode_utf8("System.Drawing.Bitmap"@)) == Ok::<Seq<char>, Seq<char>>(uri@),
            Err(e) => embedded_icon(encoded@, vstd::utf8::encode_utf8("System.Drawing.Bitmap"@)) == Err::<Seq<char>, Seq<char>>(e@),
        },
{
    if encoded.len() == 0 {
        return Ok(String::new());
    }
    let decoded = match base64_decode(encoded) {
        Ok(d) => d,
        Err(message) => {
            let mut text = "Invalid base64 in embedded icon: ".to_owned();
            text.append(message.as_str());
            return Err(text);
        },
    };
    let header: Vec<u8> = vec![0u8, 1, 0, 0, 0, 255, 255, 255, 255, 1, 0, 0, 0, 0, 0, 0, 0];
    assert(header@ == stream_header());
    if !bytes_start_with(decoded.as_slice(), header.as_slice()) {
        return Err("Invalid .NET stream header in embedded icon".to_owned());
    }
    let image = match find_bitmap(decoded.as_slice(), "System.Drawing.Bitmap".as_bytes()) {
        Some(i) => i,
        None => return Err("Invalid .NET bitmap byte array in embedded icon".to_owned()),
    };
    let mime = match find_image_mime(image.as_slice()) {
        Some(m) => m,
        None => return Err("Unsupported image format in embedded icon".to_owned()),
    };
    let mut uri = "data:".to_owned();
    uri.append(mime.as_str());
    uri.append(";base64,");
    base64_encode_into(image.as_slice(), &mut uri);
    Ok(uri)
}


fn hex_digit_char(v: u8) -> (c: char)
    requires
        v < 16,
    ensures
        c == hex_digit(v as int),
{
    if v < 10 {
        (48 + v) as char
    } else {
        (55 + v) as char
    }
}

/// Appends the percent-encoding of `bytes` to `out`.
fn push_percent_encoded(out: &mut Vec<char>, bytes: &[u8])
    ensures
        final(out)@ == old(out)@ + percent_encoded(bytes@),
{
    let ghost start = out@;
    let mut i: usize = 0;
    assert(bytes@.take(0) == Seq::<u8>::empty());
    while i < bytes.len()
        invariant
            i <= bytes@.len(),
            out@ == start + percent_encoded(bytes@.take(i as int)),
        decreases bytes@.len() - i,
    {
        proof {
            assert(bytes@.take(i + 1).drop_last() == bytes@.take(i as int));
            assert(bytes@.take(i + 1).last() == bytes@[i as int]);
        }
        let b = bytes[i];
        if (65 <= b && b <= 90) || (97 <= b && b <= 122) || (48 <= b && b <= 57) || b == 45 || b
            == 46 || b == 95 || b == 126 || b == 47 || b == 58 {
            out.push(b as char);
        } else {
            out.push('%');
            out.push(hex_digit_char(b / 16));
            out.push(hex_digit_char(b % 16));
        }
        i = i + 1;
    }
    assert(bytes@.take(bytes@.len() as int) == bytes@);
}

/// A `file://` URI for a path.
fn make_file_uri(path: Vec<char>) -> (res: String)
    ensures
        res@ == file_uri(path@),
{
    let text = string_from_chars(path);
    let mut out: Vec<char> = chars_of("file://");
    push_percent_encoded(&mut out, text.as_str().as_bytes());
    string_from_chars(out)
}

/// Appends the characters of a string.
fn push_str_chars(out: &mut Vec<char>, s: &str)
    ensures
        final(out)@ == old(out)@ + s@,
{
    let chars = chars_of(s);
    let ghost start = out@;
    let mut i: usize = 0;
    while i < chars.len()
        invariant
            i <= chars@.len(),
            chars@ == s@,
            out@ == start + chars@.take(i as int),
        decreases chars@.len() - i,
    {
        out.push(chars[i]);
        i = i + 1;
        assert(chars@.take(i as int) == chars@.take(i - 1).push(chars@[i - 1]));
    }
    assert(chars@.take(chars@.len() as int) == chars@);
}

/// A path icon as a URI, when it is an absolute path with a drive or share.
fn convert_path(source: &str, chars: &Vec<char>, prefix: Option<WindowsPrefix>) -> (res: Result<String, String>)
    requires
        chars@ == source@,
    ensures
        match res {
            Ok(uri) => path_icon(source@, prefix) == Ok::<Seq<char>, Seq<char>>(uri@),
            Err(e) => path_icon(source@, prefix) == Err::<Seq<char>, Seq<char>>(e@),
        },
{
    match prefix {
        Some(p) => {
            if !windows_path_is_absolute(source) {
                return Ok(source.to_owned());
            }
            let unix = windows_path_unix_form(source);
            let mut path: Vec<char> = Vec::new();
            match p {
                WindowsPrefix::Disk(d) | WindowsPrefix::VerbatimDisk(d) => {
                    path.push('/');
                    path.push(d);
                    path.push(':');
                    assert(path@ == seq!['/', d, ':']);
                },
                WindowsPrefix::UNC(server, share) | WindowsPrefix::VerbatimUNC(server, share) => {
                    push_str_chars(&mut path, server.as_str());
                    path.push('/');
                    push_str_chars(&mut path, share.as_str());
                    assert(path@ == server@ + seq!['/'] + share@);
                },
                _ => return Err("Unsupported Windows icon path prefix".to_owned()),
            }
            let ghost head = path@;
            push_str_chars(&mut path, unix.as_str());
            assert(path@ == head + windows_path_as_unix(source@));
            Ok(make_file_uri(path))
        },
        None => {
            if chars.len() > 0 && chars[0] == '/' {
                Ok(make_file_uri(chars.clone()))
            } else {
                Ok(source.to_owned())
            }
        },
    }
}

/// The UTF-8 bytes of some characters.
fn utf8_of(chars: Vec<char>) -> (res: Vec<u8>)
    ensures
        res@ == vstd::utf8::encode_utf8(chars@),
{
    let text = string_from_chars(chars);
    let bytes = text.as_str().as_bytes();
    slice_bytes(bytes, 0, bytes.len())
}

impl LibreSplitFile {
/// The icon URI for a LiveSplit icon text: empty stays empty; URIs and relative paths stay
/// as they are; absolute Unix paths and absolute Windows paths on a drive or share become
/// percent-encoded `file://` URIs; a base64 .NET-serialised bitmap (possibly in a CDATA
/// section) becomes a `data:` URI of its image. `Err` says why an icon cannot be used.
pub fn convert_icon(source: &str) -> (res: Result<String, String>)
    ensures
        match res {
            Ok(uri) => spec_convert_icon(source@) == Ok::<Seq<char>, Seq<char>>(uri@),
            Err(e) => spec_convert_icon(source@) == Err::<Seq<char>, Seq<char>>(e@),
        },
{
    let chars = chars_of(source);
    if chars.len() == 0 {
        return Ok(String::new());
    }
    if find_char(chars.as_slice(), '\0').is_some() {
        return Err("Icon source contains a NULL byte".to_owned());
    }
    let t = trim_chars(chars.as_slice());
    let open = chars_of("<![CDATA[");
    let close = chars_of("]]>");
    let wrapped = chars_start_with(t.as_slice(), open.as_slice());
    let icon: Vec<char> = if wrapped {
        let inner = slice_chars(t.as_slice(), open.len(), t.len());
        assert(inner@ == t@.skip(open@.len() as int));
        if !chars_end_with(inner.as_slice(), close.as_slice()) {
            return Err("Unterminated icon CDATA".to_owned());
        }
        let body = slice_chars(inner.as_slice(), 0, inner.len() - close.len());
        assert(body@ == inner@.take(inner@.len() - close@.len()));
        trim_chars(body.as_slice())
    } else {
        chars.clone()
    };
    let prefix = if chars[0] == '/' {
        None
    } else {
        windows_path_prefix(source)
    };
    if !wrapped && prefix.is_none() && starts_with_uri_scheme(chars.as_slice()) {
        return Ok(source.to_owned());
    }
    let icon_bytes = utf8_of(icon);
    let encoded = strip_ascii_whitespace(icon_bytes.as_slice());
    if wrapped || bytes_start_with(encoded.as_slice(), "AAEAAAD/////".as_bytes()) {
        return convert_embedded(encoded.as_slice());
    }
    convert_path(source, &chars, prefix)
}
}

} // verus!
