use base64::Engine;
use base64::engine::general_purpose::STANDARD;
use converter::libresplit::LibreSplitFile;

/// A .NET binary-serialised `System.Drawing.Bitmap` whose `Data` member holds `image`.
fn dotnet_bitmap_stream(image: &[u8]) -> Vec<u8> {
    let mut d: Vec<u8> = vec![0, 1, 0, 0, 0, 255, 255, 255, 255, 1, 0, 0, 0, 0, 0, 0, 0];
    d.extend_from_slice(b"\x0c\x02\x00\x00\x00\x0eSystem.Drawing\x05\x01\x00\x00\x00");
    d.extend_from_slice(b"\x15System.Drawing.Bitmap\x01\x00\x00\x00\x04Data\x07\x02\x02\x00\x00\x00");
    d.push(15);
    d.extend_from_slice(&[3, 0, 0, 0]);
    d.extend_from_slice(&(image.len() as i32).to_le_bytes());
    d.push(2);
    d.extend_from_slice(image);
    d.push(11);
    d
}

fn png_image() -> Vec<u8> {
    let mut image = b"\x89PNG\r\n\x1a\n".to_vec();
    image.extend_from_slice(&[0, 0, 0, 13, b'I', b'H', b'D', b'R', 0, 0, 0, 1, 0, 0, 0, 1, 8, 6, 0, 0, 0]);
    image
}

#[test]
fn empty_icons_remain_empty() {
    for source in ["", "<![CDATA[]]>", " \n<![CDATA[ \t\n]]> "] {
        assert_eq!(LibreSplitFile::convert_icon(source).ok().unwrap(), "");
    }
}

#[test]
fn embedded_fixture_icons_preserve_the_original_image_bytes() {
    let expected = png_image();
    let icon = STANDARD.encode(dotnet_bitmap_stream(&expected));
    assert!(icon.starts_with("AAEAAAD/////"));
    let wrapped = format!(" \n<![CDATA[\n{icon}\n]]> \n");
    let spaced = icon
        .as_bytes()
        .chunks(73)
        .map(|chunk| std::str::from_utf8(chunk).unwrap())
        .collect::<Vec<_>>()
        .join("\n\t");

    for source in [&icon, &wrapped, &spaced] {
        let uri = LibreSplitFile::convert_icon(source).ok().unwrap();
        let encoded_image = uri.strip_prefix("data:image/png;base64,").unwrap();
        assert_eq!(STANDARD.decode(encoded_image).unwrap(), expected);
    }
}

#[test]
fn relative_paths_are_preserved_exactly() {
    for source in [
        "icons/boss.png",
        "../icons/boss.png",
        "./icons/../boss.png",
        r"icons\boss.png",
        r"./foo\icon.png",
        r"C:icons\boss.png",
        r"\icons\boss.png",
        " icon.png ",
        " ",
        "\ticon.png\n",
    ] {
        assert_eq!(LibreSplitFile::convert_icon(source).ok().unwrap(), source);
    }
}

#[test]
fn unix_paths_escape_filename_characters_without_changing_them() {
    for (source, expected) in [
        ("/tmp/icon.png ", "file:///tmp/icon.png%20"),
        ("/tmp/ icon.png", "file:///tmp/%20icon.png"),
        (r"/tmp/foo\icon.png", "file:///tmp/foo%5Cicon.png"),
        ("/tmp/icon#1?.png", "file:///tmp/icon%231%3F.png"),
        ("/tmp/icon%20.png", "file:///tmp/icon%2520.png"),
        ("/tmp/été.png", "file:///tmp/%C3%A9t%C3%A9.png"),
        ("/tmp/icon\n.png", "file:///tmp/icon%0A.png"),
        ("//tmp/icon.png", "file:////tmp/icon.png"),
    ] {
        assert_eq!(LibreSplitFile::convert_icon(source).ok().unwrap(), expected, "{source:?}");
    }
}

#[test]
fn windows_absolute_paths_keep_the_drive_or_share() {
    for (source, expected) in [
        (r"C:\Icons\My Icon.png", "file:///C:/Icons/My%20Icon.png"),
        ("D:/Icons/icon#1.png", "file:///D:/Icons/icon%231.png"),
        (r"\\server\share\icon.png", "file://server/share/icon.png"),
        (r"\\server\My Share\icon.png", "file://server/My%20Share/icon.png"),
        (r"\\?\C:\Icons\icon.png", "file:///C:/Icons/icon.png"),
        (r"\\?\UNC\server\share\icon.png", "file://server/share/icon.png"),
    ] {
        assert_eq!(LibreSplitFile::convert_icon(source).ok().unwrap(), expected, "{source:?}");
    }
}

#[test]
fn existing_uris_are_preserved_exactly() {
    for source in [
        "https://example.com/My%20Icon.png?version=1#icon",
        "HTTP://example.com/icon.png",
        "file:///tmp/icon%20.png",
        "file://server/share/icon.png",
        "data:image/png;base64,iVBORw0KGgo=",
    ] {
        assert_eq!(LibreSplitFile::convert_icon(source).ok().unwrap(), source);
    }
}

#[test]
fn embedded_svg_icons_become_svg_data_uris() {
    let svg = b"<svg xmlns=\"http://www.w3.org/2000/svg\" width=\"1\" height=\"1\"></svg>".to_vec();
    let icon = format!("<![CDATA[{}]]>", STANDARD.encode(dotnet_bitmap_stream(&svg)));
    let uri = LibreSplitFile::convert_icon(&icon).ok().unwrap();
    assert_eq!(uri, format!("data:image/svg+xml;base64,{}", STANDARD.encode(&svg)));
}

#[test]
fn svg_in_another_namespace_is_not_an_icon() {
    let svg = b"<svg xmlns=\"urn:example\"></svg>".to_vec();
    let icon = format!("<![CDATA[{}]]>", STANDARD.encode(dotnet_bitmap_stream(&svg)));
    assert_eq!(
        LibreSplitFile::convert_icon(&icon).err().unwrap(),
        "Unsupported image format in embedded icon"
    );
}

#[test]
fn icon_with_a_null_byte_is_refused() {
    assert_eq!(
        LibreSplitFile::convert_icon("icons/bo\0ss.png").err().unwrap(),
        "Icon source contains a NULL byte"
    );
}

#[test]
fn unterminated_cdata_is_refused() {
    assert_eq!(
        LibreSplitFile::convert_icon("<![CDATA[AAEAAAD/////").err().unwrap(),
        "Unterminated icon CDATA"
    );
}

#[test]
fn invalid_base64_is_refused() {
    assert_eq!(
        LibreSplitFile::convert_icon("<![CDATA[!!!!]]>").err().unwrap(),
        "Invalid base64 in embedded icon: Invalid symbol 33, offset 0."
    );
}

#[test]
fn stream_without_dotnet_header_is_refused() {
    let icon = format!("<![CDATA[{}]]>", STANDARD.encode([1u8, 2, 3]));
    assert_eq!(
        LibreSplitFile::convert_icon(&icon).err().unwrap(),
        "Invalid .NET stream header in embedded icon"
    );
}

#[test]
fn stream_without_bitmap_is_refused() {
    let header: Vec<u8> = vec![0, 1, 0, 0, 0, 255, 255, 255, 255, 1, 0, 0, 0, 0, 0, 0, 0, 11];
    assert_eq!(
        LibreSplitFile::convert_icon(&STANDARD.encode(header)).err().unwrap(),
        "Invalid .NET bitmap byte array in embedded icon"
    );
}

#[test]
fn bitmap_of_unknown_format_is_refused() {
    let icon = STANDARD.encode(dotnet_bitmap_stream(b"\x00\x01\x02 not an image"));
    assert_eq!(
        LibreSplitFile::convert_icon(&icon).err().unwrap(),
        "Unsupported image format in embedded icon"
    );
}

#[test]
fn verbatim_windows_prefix_is_refused() {
    assert_eq!(
        LibreSplitFile::convert_icon(r"\\?\pictures\kittens.png").err().unwrap(),
        "Unsupported Windows icon path prefix"
    );
}

/// Reads `%XX` escapes back into bytes.
fn percent_decode(text: &str) -> Vec<u8> {
    let bytes = text.as_bytes();
    let mut out = Vec::new();
    let mut i = 0;
    while i < bytes.len() {
        if bytes[i] == b'%' {
            out.push(u8::from_str_radix(std::str::from_utf8(&bytes[i + 1..i + 3]).unwrap(), 16).unwrap());
            i += 3;
        } else {
            out.push(bytes[i]);
            i += 1;
        }
    }
    out
}

#[test]
fn file_uris_decode_back_to_the_path() {
    for source in ["/tmp/été #1?.png", "/a b/%c/\t~_-.:", "/日本/アイコン.png"] {
        let uri = LibreSplitFile::convert_icon(source).ok().unwrap();
        let path = uri.strip_prefix("file://").unwrap();
        assert!(!path.contains(' ') && !path.contains('#') && !path.contains('?'));
        assert_eq!(percent_decode(path), source.as_bytes());
    }
}

#[test]
fn converted_icons_are_kept_when_converted_again() {
    let embedded = STANDARD.encode(dotnet_bitmap_stream(&png_image()));
    let svg = STANDARD.encode(dotnet_bitmap_stream(b"<svg xmlns=\"http://www.w3.org/2000/svg\"/>"));
    let wrapped = format!("<![CDATA[{embedded}]]>");
    let sources = [
        "",
        " <![CDATA[ ]]> ",
        "icons/boss.png",
        r"C:icons\boss.png",
        "https://example.com/icon.png",
        "/tmp/été icon#1.png",
        r"C:\Users\me\icon.png",
        r"\\server\share\icon.png",
        embedded.as_str(),
        wrapped.as_str(),
        svg.as_str(),
    ];
    for source in sources {
        let once = LibreSplitFile::convert_icon(source).ok().unwrap();
        let twice = LibreSplitFile::convert_icon(&once).ok().unwrap();
        assert_eq!(twice, once, "{source:?}");
    }
}

#[test]
fn data_uris_carry_standard_padded_base64() {
    for (image, text) in [(&b"M"[..], "TQ=="), (&b"Ma"[..], "TWE="), (&b"Man"[..], "TWFu")] {
        let mut with_png = png_image();
        with_png.push(0);
        assert_eq!(with_png.len() % 3, 0);
        with_png.extend_from_slice(image);
        let uri = LibreSplitFile::convert_icon(&STANDARD.encode(dotnet_bitmap_stream(&with_png))).ok().unwrap();
        assert!(uri.ends_with(text), "{uri}");
        assert_eq!(STANDARD.decode(uri.strip_prefix("data:image/png;base64,").unwrap()).unwrap(), with_png);
    }
}
