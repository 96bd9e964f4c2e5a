use omafiles::entry::{Entry, Metadata};
use omafiles::preview::{
    binary_body, body_of_bytes, classify, extension_of, image_dimensions, image_format, is_image, jpeg_dimensions,
    magic_image_format, magic_kind, probe_field, read_plan, truncate_lines, Body, Class, ImageFormat, Key, Preview, Read, HEX_BYTES,
    MAX_IMAGE_BYTES, MAX_LINES, MAX_PREVIEW_BYTES,
};

#[test]
fn long_files_are_cut_at_the_line_cap_and_say_so() {
    let text = (0..MAX_LINES + 50).map(|i| i.to_string()).collect::<Vec<_>>().join("\n");
    let (kept, truncated) = truncate_lines(text, MAX_LINES);
    assert!(truncated);
    assert_eq!(kept.lines().count(), MAX_LINES);

    let (kept, truncated) = truncate_lines("a\nb\n".to_string(), MAX_LINES);
    assert!(!truncated);
    assert_eq!(kept, "a\nb\n", "a short file is not rewritten");
}

#[test]
fn jpeg_dimensions_walk_the_segment_chain() {
    let mut bytes = vec![0xff, 0xd8];
    bytes.extend([0xff, 0xe0, 0x00, 0x04, 0x00, 0x00]);
    bytes.extend([0xff, 0xc0, 0x00, 0x11, 0x08, 0x00, 0x08, 0x00, 0x04]);
    assert_eq!(jpeg_dimensions(&bytes), Some((4, 8)));

    let stuck = vec![0xff, 0xd8, 0xff, 0xe0, 0x00, 0x00, 0, 0, 0, 0, 0, 0];
    assert_eq!(jpeg_dimensions(&stuck), None);
}

#[test]
fn image_headers_yield_dimensions() {
    let png: [u8; 67] = [
        0x89, 0x50, 0x4e, 0x47, 0x0d, 0x0a, 0x1a, 0x0a, 0x00, 0x00, 0x00, 0x0d, 0x49, 0x48, 0x44, 0x52, 0x00, 0x00, 0x00, 0x01, 0x00,
        0x00, 0x00, 0x01, 0x08, 0x06, 0x00, 0x00, 0x00, 0x1f, 0x15, 0xc4, 0x89, 0x00, 0x00, 0x00, 0x0a, 0x49, 0x44, 0x41, 0x54,
        0x78, 0x9c, 0x63, 0x00, 0x01, 0x00, 0x00, 0x05, 0x00, 0x01, 0x0d, 0x0a, 0x2d, 0xb4, 0x00, 0x00, 0x00, 0x00, 0x49, 0x45,
        0x4e, 0x44, 0xae, 0x42, 0x60, 0x82,
    ];
    assert_eq!(image_dimensions(&png), Some((1, 1)));
    assert_eq!(magic_image_format(&png), Some(ImageFormat::Png));

    let gif = b"GIF87a\x03\x00\x02\x00\x00\x00\x00";
    assert_eq!(image_dimensions(gif), Some((3, 2)));

    assert_eq!(image_dimensions(&png[..10]), None);
    assert_eq!(image_dimensions(&[]), None);
}

#[test]
fn a_top_down_bitmap_has_a_positive_height() {
    let mut bmp = vec![0u8; 26];
    bmp[0] = b'B';
    bmp[1] = b'M';
    bmp[18..22].copy_from_slice(&7i32.to_le_bytes());
    bmp[22..26].copy_from_slice(&(-5i32).to_le_bytes());
    assert_eq!(image_dimensions(&bmp), Some((7, 5)));
    bmp[22..26].copy_from_slice(&i32::MIN.to_le_bytes());
    assert_eq!(image_dimensions(&bmp), Some((7, 2147483648)));
}

#[test]
fn the_magic_beats_the_extension() {
    let png = [0x89, b'P', b'N', b'G', 0x0d, 0x0a, 0x1a, 0x0a];
    assert_eq!(image_format("photo.jpg", &png), Some(ImageFormat::Png));
    assert_eq!(image_format("photo.JPG", &[0, 1, 2]), Some(ImageFormat::Jpeg));
    assert_eq!(image_format("icon.svg", &[]), Some(ImageFormat::Svg));
    assert_eq!(image_format("pic.avif", &[]), None);
    assert_eq!(image_format(".png", &[]), None, "a dotfile has no extension here");
}

#[test]
fn binaries_are_guessed_from_their_magic() {
    assert_eq!(magic_kind(&[0x7f, b'E', b'L', b'F', 2]), "executable");
    assert_eq!(magic_kind(b"PK\x03\x04"), "zip archive");
    assert_eq!(magic_kind(&[0x1f, 0x8b]), "gzip");
    assert_eq!(magic_kind(b"%PDF-1.7"), "pdf");
    assert_eq!(magic_kind(&[0, 0x61, 0x73, 0x6d]), "wasm");
    assert_eq!(magic_kind(&[1, 2, 3]), "binary");
}

#[test]
fn classes_follow_the_extension() {
    assert_eq!(classify("a/README"), Class::Unknown);
    assert_eq!(classify("main.rs"), Class::Text(Some("rust")));
    assert_eq!(classify("notes.MD"), Class::Text(Some("markdown")));
    assert_eq!(classify(".gitignore"), Class::Text(None));
    assert_eq!(classify("clip.mov"), Class::Video);
    assert!(is_image("shot.webp"));
    assert!(!is_image("shot.txt"));
    assert_eq!(extension_of("/x/site.tar.GZ"), Some("gz".to_string()));
    assert_eq!(extension_of("/x/file."), Some(String::new()));
    assert_eq!(extension_of("/x/plain"), None);
}

#[test]
fn a_key_is_the_path_and_the_time() {
    let entry = Entry::from_path("/x/a.txt".to_string(), Some(Metadata { is_dir: false, len: 3, modified: Some(42) }), false);
    let key = Key::of(&entry);
    assert_eq!(key.path, "/x/a.txt");
    assert_eq!(key.mtime, Some(42));
}

fn file_entry(path: &str, size: u64) -> Entry {
    Entry::from_path(path.to_string(), Some(Metadata { is_dir: false, len: size, modified: Some(5) }), false)
}

fn body_for(path: &str, bytes: Vec<u8>) -> Body {
    match read_plan(&file_entry(path, bytes.len() as u64)) {
        Read::Bytes(class) => body_of_bytes(class, path, bytes),
        Read::Done(body) => body,
        other => panic!("expected a read of the bytes, got {other:?}"),
    }
}

#[test]
fn classifies_by_extension_and_falls_back_to_sniffing() {
    assert_eq!(classify("a/b.rs"), Class::Text(Some("rust")));
    assert_eq!(classify("a/B.RS"), Class::Text(Some("rust")));
    assert_eq!(classify("a/b.png"), Class::Image);
    assert_eq!(classify("a/b.mkv"), Class::Video);
    assert_eq!(classify("a/b.txt"), Class::Text(None));
    assert_eq!(classify("a/.gitignore"), Class::Text(None));
    assert_eq!(classify("a/README"), Class::Unknown);
}

#[test]
fn only_states_with_more_to_show_offer_fullscreen() {
    assert!(!Body::TooLarge { size: 1, limit: 1 }.is_expandable());
    assert!(!Body::Binary { head: vec![], kind: "binary" }.is_expandable());
    assert!(!Body::Directory { entries: None }.is_expandable());
    assert!(Body::Markdown(String::new()).is_expandable());
}

#[test]
fn placeholder_states_hide_the_cover_and_name_themselves() {
    assert!(!Body::Directory { entries: Some(2) }.has_cover());
    assert!(!Body::Unreadable("x".to_string()).has_cover());
    assert!(Body::Binary { head: vec![], kind: "pdf" }.has_cover());
    assert_eq!(Body::Directory { entries: None }.label(), "directory");
    assert_eq!(Body::Text { text: String::new(), language: Some("rust"), lines: 0, truncated: false }.label(), "rust");
    assert_eq!(Body::Text { text: String::new(), language: None, lines: 0, truncated: false }.label(), "text");
    assert_eq!(Body::Binary { head: vec![], kind: "executable" }.label(), "executable");
    assert_eq!(Body::TooLarge { size: 1, limit: 1 }.label(), "too large");
}

#[test]
fn a_source_file_carries_its_grammar_from_its_bytes() {
    match body_for("/d/main.rs", b"fn main() {\n    println!(\"hi\");\n}\n".to_vec()) {
        Body::Text { language, lines, truncated, .. } => {
            assert_eq!(language, Some("rust"));
            assert_eq!(lines, 3);
            assert!(!truncated);
        }
        other => panic!("expected text, got {other:?}"),
    }
}

#[test]
fn markdown_is_kept_as_markup_from_its_bytes() {
    assert!(matches!(body_for("/d/README.md", b"# Title\n\nBody.\n".to_vec()), Body::Markdown(_)));
}

#[test]
fn an_extensionless_text_is_sniffed_as_text() {
    match body_for("/d/README", b"plain words\n".to_vec()) {
        Body::Text { language, .. } => assert_eq!(language, None),
        other => panic!("expected text, got {other:?}"),
    }
    assert!(matches!(body_for("/d/README", b"nul\0inside".to_vec()), Body::Binary { .. }));
}

#[test]
fn a_binary_gets_a_capped_hex_head_and_a_guess() {
    let mut bytes = vec![0x7f, b'E', b'L', b'F'];
    bytes.extend(std::iter::repeat_n(0u8, 4096));
    match body_for("/d/prog", bytes) {
        Body::Binary { head, kind } => {
            assert_eq!(kind, "executable");
            assert_eq!(head.len(), HEX_BYTES);
        }
        other => panic!("expected binary, got {other:?}"),
    }
    assert!(matches!(body_for("/d/notes.txt", vec![0xff, 0xfe, 0x00, 0x01, 0x02]), Body::Binary { .. }));
    match binary_body(vec![1, 2, 3]) {
        Body::Binary { head, kind } => {
            assert_eq!(head, vec![1, 2, 3]);
            assert_eq!(kind, "binary");
        }
        other => panic!("expected binary, got {other:?}"),
    }
}

#[test]
fn oversized_files_are_described_not_read() {
    match read_plan(&file_entry("/d/huge.txt", MAX_PREVIEW_BYTES + 1)) {
        Read::Done(Body::TooLarge { size, limit }) => {
            assert_eq!(limit, MAX_PREVIEW_BYTES);
            assert_eq!(size, MAX_PREVIEW_BYTES + 1);
        }
        other => panic!("expected too-large, got {other:?}"),
    }
    assert!(MAX_IMAGE_BYTES < MAX_PREVIEW_BYTES);
    assert!(matches!(read_plan(&file_entry("/d/big.png", MAX_IMAGE_BYTES)), Read::Bytes(Class::Image)));
    assert!(matches!(
        read_plan(&file_entry("/d/big.png", MAX_IMAGE_BYTES + 1)),
        Read::Done(Body::TooLarge { limit: MAX_IMAGE_BYTES, .. })
    ));
    assert!(matches!(
        read_plan(&file_entry("/d/big.png", MAX_PREVIEW_BYTES + 1)),
        Read::Done(Body::TooLarge { size, limit: MAX_IMAGE_BYTES }) if size == MAX_PREVIEW_BYTES + 1
    ));
    assert!(matches!(read_plan(&file_entry("/d/film.mkv", u64::MAX)), Read::Video));
}

#[test]
fn directories_are_counted_and_broken_links_said() {
    let d = Entry::from_path("/d/sub".to_string(), Some(Metadata { is_dir: true, len: 0, modified: None }), false);
    assert!(matches!(read_plan(&d), Read::CountEntries));
    let broken = Entry::from_path("/d/gone".to_string(), None, true);
    match read_plan(&broken) {
        Read::Done(Body::Unreadable(why)) => assert_eq!(why, "broken link"),
        other => panic!("expected unreadable, got {other:?}"),
    }
}

#[test]
fn a_picture_keeps_its_bytes_and_size_and_a_stranger_is_refused() {
    let gif = b"GIF87a\x03\x00\x02\x00\x00\x00\x00".to_vec();
    match body_for("/d/a.gif", gif.clone()) {
        Body::Image { format, bytes, dimensions } => {
            assert_eq!(format, ImageFormat::Gif);
            assert_eq!(bytes, gif);
            assert_eq!(dimensions, Some((3, 2)));
        }
        other => panic!("expected image, got {other:?}"),
    }
    match body_for("/d/a.exr", vec![1, 2, 3]) {
        Body::Unreadable(why) => assert_eq!(why, "unrecognised image format"),
        other => panic!("expected unreadable, got {other:?}"),
    }
    let p = Preview::of(&file_entry("/d/a.gif", 13), Body::Directory { entries: None });
    assert_eq!(p.name, "a.gif");
    assert_eq!(p.size, Some(13));
    assert_eq!(p.key.mtime, Some(5));
}

#[test]
fn ffprobe_fields_are_read_by_key_and_na_is_nothing() {
    let text = "width=1920\nheight=1080\ncodec_name=h264\nr_frame_rate=30000/1001\nduration=N/A\nwidth=1\n";
    assert_eq!(probe_field(text, "width"), Some("1920".to_string()));
    assert_eq!(probe_field(text, "codec_name"), Some("h264".to_string()));
    assert_eq!(probe_field(text, "r_frame_rate"), Some("30000/1001".to_string()));
    assert_eq!(probe_field(text, "duration"), None);
    assert_eq!(probe_field(text, "size"), None);
    assert_eq!(probe_field("codec_name=  \n", "codec_name"), None);
}
